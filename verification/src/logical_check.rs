//! Deciding whether a residual Pauli is a logical operator.
//!
//! After decoding, a residual that commutes with every stabilizer is either a
//! product of stabilizers (harmless) or a logical operator. The check reduces
//! the residual against a row-reduced basis of the stabilizer group and looks
//! at what is left; which logical class it carries comes from commutation with
//! a pair of anticommuting logical representatives, derived from the null space
//! of the commutation map rather than written down.
use crate::bits::{
    anti, anticommute, bit, fits, get_bit, lemma_bit_and, lemma_bit_xor, lemma_bit_zero, lemma_fits_xor,
    lemma_anti_xor, lemma_no_bits_zero, lemma_parity_single, lemma_parity_xor, lemma_parity_zero, parity, single,
};
use vstd::prelude::*;

verus! {

/// One basis row: X mask, Z mask, whether the pivot is in the X mask, and the
/// pivot bit.
pub type BasisRow = (u128, u128, bool, u32);

/// Whether the pivot bit of `row` is set in the Pauli `(x, z)`.
pub open spec fn pivot_set(row: BasisRow, x: u128, z: u128) -> bool {
    if row.2 {
        bit(x, row.3 as u128)
    } else {
        bit(z, row.3 as u128)
    }
}

/// Reduction of `(x, z)` against the rows of `basis`, taken in order: each row
/// whose pivot bit is set in the running value is XORed in.
pub open spec fn reduce_spec(basis: Seq<BasisRow>, x: u128, z: u128) -> (u128, u128)
    decreases basis.len(),
{
    if basis.len() == 0 {
        (x, z)
    } else {
        let prev = reduce_spec(basis.drop_last(), x, z);
        let row = basis.last();
        if pivot_set(row, prev.0, prev.1) {
            (prev.0 ^ row.0, prev.1 ^ row.1)
        } else {
            prev
        }
    }
}

/// Every pivot names one of the 128 qubit positions.
pub open spec fn basis_ok(basis: Seq<BasisRow>) -> bool {
    forall|k: int| 0 <= k < basis.len() ==> (#[trigger] basis[k]).3 < 128
}

/// `p` commutes with every listed stabilizer.
pub open spec fn commutes_with_all(stabilizers: Seq<(u128, u128)>, p: (u128, u128)) -> bool {
    forall|i: int| 0 <= i < stabilizers.len() ==> !#[trigger] anti(p, stabilizers[i])
}

/// Both masks of `p` fit in `n` qubits.
pub open spec fn pauli_fits(p: (u128, u128), n: nat) -> bool {
    fits(p.0, n) && fits(p.1, n)
}

pub struct LogicalCheck {
    /// Row-reduced stabilizer basis.
    basis: Vec<BasisRow>,
    /// Anticommuting logical representatives.
    logical_x: (u128, u128),
    logical_z: (u128, u128),
}

impl LogicalCheck {
    /// The row-reduced basis the residuals are reduced against.
    pub closed spec fn basis_rows(&self) -> Seq<BasisRow> {
        self.basis@
    }

    /// The representative of logical X.
    pub closed spec fn lx(&self) -> (u128, u128) {
        self.logical_x
    }

    /// The representative of logical Z.
    pub closed spec fn lz(&self) -> (u128, u128) {
        self.logical_z
    }

    pub open spec fn wf(&self) -> bool {
        basis_ok(self.basis_rows())
    }

    /// What is left of `(x, z)` after reduction against the stabilizer basis.
    pub open spec fn reduced(&self, x: u128, z: u128) -> (u128, u128) {
        reduce_spec(self.basis_rows(), x, z)
    }

    /// The residual is not a product of stabilizers.
    pub open spec fn is_logical_spec(&self, x: u128, z: u128) -> bool {
        self.reduced(x, z) != (0u128, 0u128)
    }

    /// The logical class: bit 0 for a logical X (anticommutes with logical
    /// Z), bit 1 for a logical Z (anticommutes with logical X).
    pub open spec fn class_spec(&self, x: u128, z: u128) -> u8 {
        let r = self.reduced(x, z);
        let bx: u8 = if anti(r, self.lz()) {
            1
        } else {
            0
        };
        let bz: u8 = if anti(r, self.lx()) {
            2
        } else {
            0
        };
        (bx + bz) as u8
    }

    /// `stabilizers` are symplectic (x, z) bit patterns, one per generator.
    pub fn new(stabilizers: &[(u128, u128)], num_qubits: usize) -> (check: Self)
        requires
            num_qubits <= 128,
            forall|i: int|
                0 <= i < stabilizers@.len() ==> pauli_fits(#[trigger] stabilizers@[i], num_qubits as nat),
        ensures
            check.wf(),
            forall|i: int|
                0 <= i < stabilizers@.len() ==> !check.is_logical_spec(
                    (#[trigger] stabilizers@[i]).0,
                    stabilizers@[i].1,
                ),
            logical_pair_found(stabilizers@, check, check.lx(), check.lz()) || (check.lx() == (0u128, 0u128)
                && check.lz() == (0u128, 0u128)),
            forall|x: u128, z: u128| #[trigger] check.is_logical_spec(x, z) == !in_group(stabilizers@, (x, z)),
            forall|k: int|
                0 <= k < check.basis_rows().len() ==> in_group(stabilizers@, #[trigger] basis_paulis(check.basis_rows())[k]),
    {
        let n = num_qubits;
        let mut basis: Vec<BasisRow> = Vec::new();
        for idx in 0..stabilizers.len()
            invariant
                n == num_qubits,
                n <= 128,
                forall|i: int| 0 <= i < stabilizers@.len() ==> pauli_fits(#[trigger] stabilizers@[i], n as nat),
                basis_ok(basis@),
                forall|k: int| 0 <= k < basis@.len() ==> pauli_fits(((#[trigger] basis@[k]).0, basis@[k].1), n as nat),
                forall|i: int|
                    0 <= i < idx ==> reduce_spec(basis@, (#[trigger] stabilizers@[i]).0, stabilizers@[i].1) == (
                    0u128,
                    0u128,
                    ),
                forall|k: int| 0 <= k < basis@.len() ==> in_group(stabilizers@, #[trigger] basis_paulis(basis@)[k]),
        {
            let (x0, z0) = stabilizers[idx];
            let (x, z) = reduce_rows(&basis, x0, z0);
            proof {
                lemma_reduce_fits(basis@, x0, z0, n as nat);
            }
            if x != 0 || z != 0 {
                let (pivot_in_x, pbit) = find_pivot(x, z, n);
                let row: BasisRow = (x, z, pivot_in_x, pbit);
                let ghost old_basis = basis@;
                proof {
                    lemma_row_in_group(stabilizers@, old_basis, idx as int);
                }
                basis.push(row);
                proof {
                    assert forall|k: int| 0 <= k < basis@.len() implies in_group(
                        stabilizers@,
                        #[trigger] basis_paulis(basis@)[k],
                    ) by {
                        if k < old_basis.len() {
                            assert(basis_paulis(basis@)[k] == basis_paulis(old_basis)[k]);
                        }
                    }
                    assert(basis@.drop_last() =~= old_basis);
                    assert(x ^ x == 0) by (bit_vector);
                    assert(z ^ z == 0) by (bit_vector);
                    lemma_bit_zero(pbit as u128);
                    assert forall|i: int| 0 <= i <= idx implies reduce_spec(
                        basis@,
                        (#[trigger] stabilizers@[i]).0,
                        stabilizers@[i].1,
                    ) == (0u128, 0u128) by {
                        if i < idx {
                            assert(reduce_spec(old_basis, stabilizers@[i].0, stabilizers@[i].1) == (
                            0u128,
                            0u128,
                            ));
                        }
                    }
                }
            }
        }
        let mut check = LogicalCheck { basis, logical_x: (0, 0), logical_z: (0, 0) };
        let (lx, lz) = find_logical_pair(stabilizers, num_qubits, &check);
        check.logical_x = lx;
        check.logical_z = lz;
        proof {
            let b = check.basis_rows();
            assert forall|x: u128, z: u128| #[trigger] check.is_logical_spec(x, z) == !in_group(
                stabilizers@,
                (x, z),
            ) by {
                if in_group(stabilizers@, (x, z)) {
                    let pick = choose|pick: Seq<bool>|
                        pick.len() == stabilizers@.len() && #[trigger] product_of(
                            stabilizers@,
                            pick,
                            stabilizers@.len(),
                        ) == (x, z);
                    lemma_reduce_products(b, stabilizers@, pick, stabilizers@.len());
                }
                if reduce_spec(b, x, z) == (0u128, 0u128) {
                    lemma_reduce_zero_is_product(b, x, z);
                    let pick = choose|pick: Seq<bool>|
                        pick.len() == b.len() && #[trigger] product_of(basis_paulis(b), pick, b.len()) == (x, z);
                    lemma_group_products(stabilizers@, basis_paulis(b), pick, b.len());
                }
            }
        }
        check
    }

    /// True when the residual is not a product of stabilizers.
    pub fn is_logical(&self, x: u128, z: u128) -> (b: bool)
        requires
            self.wf(),
        ensures
            b == self.is_logical_spec(x, z),
    {
        let (rx, rz) = self.reduce(x, z);
        rx != 0 || rz != 0
    }

    /// Reduce a Pauli against the stabilizer basis, leaving its logical part.
    fn reduce(&self, x: u128, z: u128) -> (r: (u128, u128))
        requires
            self.wf(),
        ensures
            r == self.reduced(x, z),
    {
        reduce_rows(&self.basis, x, z)
    }

    /// The derived logical representatives: (logical X, logical Z).
    pub fn representatives(&self) -> (r: ((u128, u128), (u128, u128)))
        ensures
            r == (self.lx(), self.lz()),
    {
        (self.logical_x, self.logical_z)
    }

    /// Which logical Pauli the residual is, as a class: bit 0 set for a
    /// logical X, bit 1 for a logical Z, both for a Y, zero for success.
    pub fn classify(&self, x: u128, z: u128) -> (c: u8)
        requires
            self.wf(),
        ensures
            c == self.class_spec(x, z),
            c < 4,
    {
        let r = self.reduce(x, z);
        let bx: u8 = if anticommute(r, self.logical_z) {
            1
        } else {
            0
        };
        let bz: u8 = if anticommute(r, self.logical_x) {
            2
        } else {
            0
        };
        assert(bx | bz == bx + bz) by (bit_vector)
            requires
                bx == 0 || bx == 1,
                bz == 0 || bz == 2,
        ;
        bx | bz
    }
}

/// `lx` and `lz` commute with every stabilizer, anticommute with each other,
/// and neither is a product of stabilizers.
pub open spec fn logical_pair_found(
    stabilizers: Seq<(u128, u128)>,
    check: LogicalCheck,
    lx: (u128, u128),
    lz: (u128, u128),
) -> bool {
    &&& commutes_with_all(stabilizers, lx)
    &&& commutes_with_all(stabilizers, lz)
    &&& anti(lx, lz)
    &&& check.is_logical_spec(lx.0, lx.1)
    &&& check.is_logical_spec(lz.0, lz.1)
}

/// The pivot of a non-zero row: its lowest set X bit, or, when the X mask is
/// empty, its lowest set Z bit.
fn find_pivot(x: u128, z: u128, n: usize) -> (p: (bool, u32))
    requires
        n <= 128,
        fits(x, n as nat),
        fits(z, n as nat),
        x != 0 || z != 0,
    ensures
        p.1 < n,
        pivot_set((x, z, p.0, p.1), x, z),
        p.0 ==> forall|j: u128| j < p.1 ==> !#[trigger] bit(x, j),
        !p.0 ==> x == 0 && forall|j: u128| j < p.1 ==> !#[trigger] bit(z, j),
{
    let mut i: usize = 0;
    while i < n
        invariant
            i <= n,
            n <= 128,
            forall|j: u128| j < i ==> !#[trigger] bit(x, j),
        decreases n - i,
    {
        if get_bit(x, i as u32) {
            return (true, i as u32);
        }
        i += 1;
    }
    proof {
        assert forall|k: u128| k < 128 implies !#[trigger] bit(x, k) by {
            if k >= n {
                assert(fits(x, n as nat));
            }
        }
        lemma_no_bits_zero(x);
    }
    let mut j: usize = 0;
    while j < n
        invariant
            j <= n,
            n <= 128,
            x == 0,
            fits(z, n as nat),
            z != 0,
            forall|k: u128| k < j ==> !#[trigger] bit(z, k),
        decreases n - j,
    {
        if get_bit(z, j as u32) {
            return (false, j as u32);
        }
        j += 1;
    }
    proof {
        assert forall|k: u128| k < 128 implies !#[trigger] bit(z, k) by {
            if k >= n {
                assert(fits(z, n as nat));
            }
        }
        lemma_no_bits_zero(z);
    }
    (false, 0)
}

fn reduce_rows(basis: &Vec<BasisRow>, x0: u128, z0: u128) -> (r: (u128, u128))
    requires
        basis_ok(basis@),
    ensures
        r == reduce_spec(basis@, x0, z0),
{
    let mut x = x0;
    let mut z = z0;
    for k in 0..basis.len()
        invariant
            basis_ok(basis@),
            (x, z) == reduce_spec(basis@.subrange(0, k as int), x0, z0),
    {
        proof {
            assert(basis@.subrange(0, k + 1).drop_last() =~= basis@.subrange(0, k as int));
        }
        let (bx, bz, pivot_in_x, b) = basis[k];
        let set = if pivot_in_x {
            get_bit(x, b)
        } else {
            get_bit(z, b)
        };
        if set {
            x = x ^ bx;
            z = z ^ bz;
        }
    }
    proof {
        assert(basis@.subrange(0, basis@.len() as int) =~= basis@);
    }
    (x, z)
}

proof fn lemma_reduce_fits(basis: Seq<BasisRow>, x: u128, z: u128, n: nat)
    requires
        fits(x, n),
        fits(z, n),
        forall|k: int| 0 <= k < basis.len() ==> pauli_fits(((#[trigger] basis[k]).0, basis[k].1), n),
    ensures
        fits(reduce_spec(basis, x, z).0, n),
        fits(reduce_spec(basis, x, z).1, n),
    decreases basis.len(),
{
    if basis.len() > 0 {
        lemma_reduce_fits(basis.drop_last(), x, z, n);
        let prev = reduce_spec(basis.drop_last(), x, z);
        let row = basis.last();
        assert(pauli_fits((basis[basis.len() - 1].0, basis[basis.len() - 1].1), n));
        lemma_fits_xor(prev.0, row.0, n);
        lemma_fits_xor(prev.1, row.1, n);
    }
}

/// Reduction leaves the identity alone.
proof fn lemma_reduce_zero(basis: Seq<BasisRow>)
    ensures
        reduce_spec(basis, 0, 0) == (0u128, 0u128),
    decreases basis.len(),
{
    if basis.len() > 0 {
        lemma_reduce_zero(basis.drop_last());
        lemma_bit_zero(basis.last().3 as u128);
    }
}

/// XOR of two classes, bit by bit: bit 0 for logical X, bit 1 for logical Z.
pub open spec fn class_xor(a: u8, b: u8) -> u8 {
    ((if a % 2 != b % 2 {
        1u8
    } else {
        0u8
    }) + (if a / 2 != b / 2 {
        2u8
    } else {
        0u8
    })) as u8
}


/// A product of generators commutes with every Pauli that commutes with each
/// generator.
proof fn lemma_group_commutes(gens: Seq<(u128, u128)>, pick: Seq<bool>, k: nat, p: (u128, u128))
    requires
        k <= gens.len(),
        commutes_with_all(gens, p),
    ensures
        !anti(product_of(gens, pick, k), p),
    decreases k,
{
    if k == 0 {
        lemma_parity_zero();
        assert((0u128 & p.1) == 0 && (0u128 & p.0) == 0) by {
            lemma_xor_laws(p.0, p.1, 0);
            assert forall|i: u128| i < 128 implies !#[trigger] bit(0u128 & p.1, i) by {
                lemma_bit_and(0u128, p.1, i);
                lemma_bit_zero(i);
            }
            lemma_no_bits_zero(0u128 & p.1);
            assert forall|i: u128| i < 128 implies !#[trigger] bit(0u128 & p.0, i) by {
                lemma_bit_and(0u128, p.0, i);
                lemma_bit_zero(i);
            }
            lemma_no_bits_zero(0u128 & p.0);
        }
    } else {
        lemma_group_commutes(gens, pick, (k - 1) as nat, p);
        if pick[k - 1] {
            assert(!anti(p, gens[k - 1]));
            crate::bits::lemma_anti_symmetric(p, gens[k - 1]);
            lemma_anti_xor(product_of(gens, pick, (k - 1) as nat), gens[k - 1], p);
        }
    }
}

/// No Pauli anticommutes with itself.
proof fn lemma_anti_self(p: (u128, u128))
    ensures
        !anti(p, p),
{
    assert forall|i: u128| i < 128 implies #[trigger] bit(p.0 & p.1, i) == bit(p.1 & p.0, i) by {
        lemma_bit_and(p.0, p.1, i);
        lemma_bit_and(p.1, p.0, i);
    }
    lemma_bits_eq(p.0 & p.1, p.1 & p.0);
}

/// The representatives carry the classes they stand for: once found, logical
/// X reads as class 1 and logical Z as class 2.
pub proof fn lemma_representative_classes(stabilizers: Seq<(u128, u128)>, check: LogicalCheck)
    requires
        check.wf(),
        logical_pair_found(stabilizers, check, check.lx(), check.lz()),
        forall|k: int|
            0 <= k < check.basis_rows().len() ==> in_group(stabilizers, #[trigger] basis_paulis(check.basis_rows())[k]),
    ensures
        check.class_spec(check.lx().0, check.lx().1) == 1,
        check.class_spec(check.lz().0, check.lz().1) == 2,
{
    let lx = check.lx();
    let lz = check.lz();
    let basis = check.basis_rows();
    lemma_reduce_is_product(basis, lx.0, lx.1);
    let px = choose|pick: Seq<bool>|
        pick.len() == basis.len() && #[trigger] product_of(basis_paulis(basis), pick, basis.len()) == pauli_product(
            lx,
            reduce_spec(basis, lx.0, lx.1),
        );
    lemma_group_products(stabilizers, basis_paulis(basis), px, basis.len());
    lemma_reduce_is_product(basis, lz.0, lz.1);
    let pz = choose|pick: Seq<bool>|
        pick.len() == basis.len() && #[trigger] product_of(basis_paulis(basis), pick, basis.len()) == pauli_product(
            lz,
            reduce_spec(basis, lz.0, lz.1),
        );
    lemma_group_products(stabilizers, basis_paulis(basis), pz, basis.len());
    let gx = pauli_product(lx, reduce_spec(basis, lx.0, lx.1));
    let gz = pauli_product(lz, reduce_spec(basis, lz.0, lz.1));
    let wx = choose|pick: Seq<bool>| pick.len() == stabilizers.len() && #[trigger] product_of(stabilizers, pick, stabilizers.len()) == gx;
    let wz = choose|pick: Seq<bool>| pick.len() == stabilizers.len() && #[trigger] product_of(stabilizers, pick, stabilizers.len()) == gz;
    lemma_group_commutes(stabilizers, wx, stabilizers.len(), lx);
    lemma_group_commutes(stabilizers, wx, stabilizers.len(), lz);
    lemma_group_commutes(stabilizers, wz, stabilizers.len(), lx);
    lemma_group_commutes(stabilizers, wz, stabilizers.len(), lz);
    let rx = reduce_spec(basis, lx.0, lx.1);
    let rz = reduce_spec(basis, lz.0, lz.1);
    lemma_product_laws(lx, lx, rx);
    lemma_product_laws(lz, lz, rz);
    // rx = lx * gx, rz = lz * gz
    assert(pauli_product(lx, gx) == rx) by {
        lemma_product_laws(lx, lx, rx);
        lemma_product_laws(lx, rx, (0u128, 0u128));
        lemma_product_laws(rx, rx, rx);
    }
    assert(pauli_product(lz, gz) == rz) by {
        lemma_product_laws(lz, lz, rz);
        lemma_product_laws(lz, rz, (0u128, 0u128));
        lemma_product_laws(rz, rz, rz);
    }
    lemma_anti_xor(lx, gx, lz);
    lemma_anti_xor(lx, gx, lx);
    lemma_anti_xor(lz, gz, lz);
    lemma_anti_xor(lz, gz, lx);
    lemma_anti_self(lx);
    lemma_anti_self(lz);
    crate::bits::lemma_anti_symmetric(lx, lz);
}

/// Classification is linear: the class of a product of two residuals is the
/// bitwise XOR of their classes.
pub proof fn lemma_classify_linear(check: LogicalCheck, x1: u128, z1: u128, x2: u128, z2: u128)
    requires
        check.wf(),
    ensures
        check.class_spec(x1 ^ x2, z1 ^ z2) == class_xor(check.class_spec(x1, z1), check.class_spec(x2, z2)),
{
    lemma_reduce_linear(check.basis_rows(), (x1, z1), (x2, z2));
    let r1 = check.reduced(x1, z1);
    let r2 = check.reduced(x2, z2);
    lemma_anti_xor(r1, r2, check.lz());
    lemma_anti_xor(r1, r2, check.lx());
}

/// The identity is never a logical operator, and its class is 0.
pub proof fn lemma_identity_is_trivial(check: LogicalCheck)
    requires
        check.wf(),
    ensures
        !check.is_logical_spec(0, 0),
        check.class_spec(0, 0) == 0,
{
    lemma_reduce_zero(check.basis_rows());
    let lx = check.lx();
    let lz = check.lz();
    assert forall|v: u128| #![trigger (0u128 & v)] (0u128 & v) == 0 by {
        assert forall|i: u128| i < 128 implies !#[trigger] bit(0u128 & v, i) by {
            lemma_bit_and(0, v, i);
            lemma_bit_zero(i);
        }
        lemma_no_bits_zero(0u128 & v);
    }
    assert((0u128 & lz.1) == 0);
    assert((0u128 & lz.0) == 0);
    assert((0u128 & lx.1) == 0);
    assert((0u128 & lx.0) == 0);
    lemma_parity_zero();
    assert(!anti((0u128, 0u128), lz));
    assert(!anti((0u128, 0u128), lx));
}

/// Reduction is linear over GF(2): reducing a product is the product of the
/// reductions.
pub proof fn lemma_reduce_linear(basis: Seq<BasisRow>, a: (u128, u128), b: (u128, u128))
    requires
        basis_ok(basis),
    ensures
        reduce_spec(basis, a.0 ^ b.0, a.1 ^ b.1) == ({
            let ra = reduce_spec(basis, a.0, a.1);
            let rb = reduce_spec(basis, b.0, b.1);
            (ra.0 ^ rb.0, ra.1 ^ rb.1)
        }),
    decreases basis.len(),
{
    if basis.len() > 0 {
        let init = basis.drop_last();
        assert(basis_ok(init)) by {
            assert forall|k: int| 0 <= k < init.len() implies (#[trigger] init[k]).3 < 128 by {
                assert(init[k] == basis[k]);
            }
        }
        lemma_reduce_linear(init, a, b);
        let pa = reduce_spec(init, a.0, a.1);
        let pb = reduce_spec(init, b.0, b.1);
        let row = basis.last();
        assert(row.3 < 128) by {
            assert(basis[basis.len() - 1].3 < 128);
        }
        let p = row.3 as u128;
        lemma_bit_xor(pa.0, pb.0, p);
        lemma_bit_xor(pa.1, pb.1, p);
        let (xa, za) = pa;
        let (xb, zb) = pb;
        let (rx, rz) = (row.0, row.1);
        assert((xa ^ rx) ^ xb == (xa ^ xb) ^ rx) by (bit_vector);
        assert((za ^ rz) ^ zb == (za ^ zb) ^ rz) by (bit_vector);
        assert(xa ^ (xb ^ rx) == (xa ^ xb) ^ rx) by (bit_vector);
        assert(za ^ (zb ^ rz) == (za ^ zb) ^ rz) by (bit_vector);
        assert((xa ^ rx) ^ (xb ^ rx) == xa ^ xb) by (bit_vector);
        assert((za ^ rz) ^ (zb ^ rz) == za ^ zb) by (bit_vector);
    }
}

/// Multiplying a residual by anything that reduces to nothing (a product of
/// stabilizers) changes neither whether it is logical nor its class.
pub proof fn lemma_stabilizer_invariance(check: LogicalCheck, x: u128, z: u128, sx: u128, sz: u128)
    requires
        check.wf(),
        !check.is_logical_spec(sx, sz),
    ensures
        check.reduced(x ^ sx, z ^ sz) == check.reduced(x, z),
        check.is_logical_spec(x ^ sx, z ^ sz) == check.is_logical_spec(x, z),
        check.class_spec(x ^ sx, z ^ sz) == check.class_spec(x, z),
{
    lemma_reduce_linear(check.basis_rows(), (x, z), (sx, sz));
    let r = check.reduced(x, z);
    lemma_xor_laws(r.0, 0, 0);
    lemma_xor_laws(r.1, 0, 0);
}

/* ---------------------------------------------------------------------- */
/* Products of stabilizers                                                */
/* ---------------------------------------------------------------------- */

/// Two values with the same bits are equal.
pub proof fn lemma_bits_eq(a: u128, b: u128)
    requires
        forall|i: u128| i < 128 ==> #[trigger] bit(a, i) == bit(b, i),
    ensures
        a == b,
{
    assert forall|i: u128| i < 128 implies !#[trigger] bit(a ^ b, i) by {
        lemma_bit_xor(a, b, i);
    }
    lemma_no_bits_zero(a ^ b);
    assert(a ^ b == 0 ==> a == b) by (bit_vector);
}

/// The product of two Paulis, up to phase: their symplectic vectors XORed.
pub open spec fn pauli_product(a: (u128, u128), b: (u128, u128)) -> (u128, u128) {
    (a.0 ^ b.0, a.1 ^ b.1)
}

/// XOR is commutative and associative, 0 is its unit and every value its
/// own inverse.
pub(crate) proof fn lemma_xor_laws(a: u128, b: u128, c: u128)
    ensures
        a ^ b == b ^ a,
        (a ^ b) ^ c == a ^ (b ^ c),
        a ^ 0u128 == a,
        0u128 ^ a == a,
        a ^ a == 0u128,
{
    assert forall|i: u128| i < 128 implies #[trigger] bit(a ^ b, i) == bit(b ^ a, i) by {
        lemma_bit_xor(a, b, i);
        lemma_bit_xor(b, a, i);
    }
    lemma_bits_eq(a ^ b, b ^ a);
    assert forall|i: u128| i < 128 implies #[trigger] bit((a ^ b) ^ c, i) == bit(a ^ (b ^ c), i) by {
        lemma_bit_xor(a ^ b, c, i);
        lemma_bit_xor(a, b, i);
        lemma_bit_xor(a, b ^ c, i);
        lemma_bit_xor(b, c, i);
    }
    lemma_bits_eq((a ^ b) ^ c, a ^ (b ^ c));
    assert forall|i: u128| i < 128 implies #[trigger] bit(a ^ 0u128, i) == bit(a, i) by {
        lemma_bit_xor(a, 0, i);
        lemma_bit_zero(i);
    }
    lemma_bits_eq(a ^ 0u128, a);
    assert forall|i: u128| i < 128 implies #[trigger] bit(0u128 ^ a, i) == bit(a, i) by {
        lemma_bit_xor(0, a, i);
        lemma_bit_zero(i);
    }
    lemma_bits_eq(0u128 ^ a, a);
    assert forall|i: u128| i < 128 implies #[trigger] bit(a ^ a, i) == bit(0u128, i) by {
        lemma_bit_xor(a, a, i);
        lemma_bit_zero(i);
    }
    lemma_bits_eq(a ^ a, 0u128);
}

/// The same laws for Pauli products.
proof fn lemma_product_laws(a: (u128, u128), b: (u128, u128), c: (u128, u128))
    ensures
        pauli_product(a, b) == pauli_product(b, a),
        pauli_product(pauli_product(a, b), c) == pauli_product(a, pauli_product(b, c)),
        pauli_product(a, (0u128, 0u128)) == a,
        pauli_product((0u128, 0u128), a) == a,
        pauli_product(a, a) == (0u128, 0u128),
{
    lemma_xor_laws(a.0, b.0, c.0);
    lemma_xor_laws(a.1, b.1, c.1);
}

/// The product of the generators picked by `pick` among the first `k`.
pub open spec fn product_of(gens: Seq<(u128, u128)>, pick: Seq<bool>, k: nat) -> (u128, u128)
    decreases k,
{
    if k == 0 {
        (0u128, 0u128)
    } else {
        let p = product_of(gens, pick, (k - 1) as nat);
        if pick[k - 1] {
            pauli_product(p, gens[k - 1])
        } else {
            p
        }
    }
}

/// `p` is a product of the generators `gens`, up to phase.
pub open spec fn in_group(gens: Seq<(u128, u128)>, p: (u128, u128)) -> bool {
    exists|pick: Seq<bool>| pick.len() == gens.len() && #[trigger] product_of(gens, pick, gens.len()) == p
}

/// Products only look at the generators they may pick.
proof fn lemma_product_prefix(g1: Seq<(u128, u128)>, g2: Seq<(u128, u128)>, pick: Seq<bool>, k: nat)
    requires
        k <= g1.len(),
        k <= g2.len(),
        forall|j: int| 0 <= j < k ==> #[trigger] g1[j] == g2[j],
    ensures
        product_of(g1, pick, k) == product_of(g2, pick, k),
    decreases k,
{
    if k > 0 {
        lemma_product_prefix(g1, g2, pick, (k - 1) as nat);
    }
}

/// Picking nothing gives the identity.
proof fn lemma_product_none(gens: Seq<(u128, u128)>, pick: Seq<bool>, k: nat)
    requires
        forall|j: int| 0 <= j < k ==> !#[trigger] pick[j],
    ensures
        product_of(gens, pick, k) == (0u128, 0u128),
    decreases k,
{
    if k > 0 {
        lemma_product_none(gens, pick, (k - 1) as nat);
    }
}

/// Rearrangements of XOR used when combining picks.
proof fn lemma_xor_rearrange(a: u128, b: u128, g: u128)
    ensures
        (a ^ g) ^ (b ^ g) == a ^ b,
        (a ^ b) ^ g == (a ^ g) ^ b,
        (a ^ b) ^ g == a ^ (b ^ g),
{
    assert forall|i: u128| i < 128 implies #[trigger] bit((a ^ g) ^ (b ^ g), i) == bit(a ^ b, i) by {
        lemma_bit_xor(a ^ g, b ^ g, i);
        lemma_bit_xor(a, g, i);
        lemma_bit_xor(b, g, i);
        lemma_bit_xor(a, b, i);
    }
    lemma_bits_eq((a ^ g) ^ (b ^ g), a ^ b);
    assert forall|i: u128| i < 128 implies #[trigger] bit((a ^ b) ^ g, i) == bit((a ^ g) ^ b, i) by {
        lemma_bit_xor(a ^ b, g, i);
        lemma_bit_xor(a ^ g, b, i);
        lemma_bit_xor(a, g, i);
        lemma_bit_xor(a, b, i);
    }
    lemma_bits_eq((a ^ b) ^ g, (a ^ g) ^ b);
    lemma_xor_laws(a, b, g);
}

/// The product of two picks is the pick of their symmetric difference.
proof fn lemma_product_xor(gens: Seq<(u128, u128)>, pa: Seq<bool>, pb: Seq<bool>, k: nat)
    ensures
        product_of(gens, Seq::new(k, |j: int| pa[j] != pb[j]), k) == pauli_product(
            product_of(gens, pa, k),
            product_of(gens, pb, k),
        ),
    decreases k,
{
    let pc = Seq::new(k, |j: int| pa[j] != pb[j]);
    if k > 0 {
        let km = (k - 1) as nat;
        let pc0 = Seq::new(km, |j: int| pa[j] != pb[j]);
        lemma_product_xor(gens, pa, pb, km);
        assert forall|j: int| 0 <= j < km implies #[trigger] pc[j] == pc0[j] by {}
        lemma_product_pick_prefix(gens, pc, pc0, km);
        let a = product_of(gens, pa, km);
        let b = product_of(gens, pb, km);
        let g = gens[k - 1];
        assert(product_of(gens, pc, km) == pauli_product(a, b));
        lemma_xor_rearrange(a.0, b.0, g.0);
        lemma_xor_rearrange(a.1, b.1, g.1);
        let ca = pa[k - 1];
        let cb = pb[k - 1];
        assert(pc[k - 1] == (ca != cb));
        let lhs = product_of(gens, pc, k);
        let ra = product_of(gens, pa, k);
        let rb = product_of(gens, pb, k);
        if ca && cb {
            assert(lhs == pauli_product(a, b));
            assert(pauli_product(ra, rb) == pauli_product(pauli_product(a, g), pauli_product(b, g)));
        } else if ca {
            assert(lhs == pauli_product(pauli_product(a, b), g));
            assert(pauli_product(ra, rb) == pauli_product(pauli_product(a, g), b));
        } else if cb {
            assert(lhs == pauli_product(pauli_product(a, b), g));
            assert(pauli_product(ra, rb) == pauli_product(a, pauli_product(b, g)));
        } else {
            assert(lhs == pauli_product(a, b));
        }
    } else {
        lemma_xor_laws(0, 0, 0);
    }
}

/// Products agree when the picks agree on the generators they may pick.
proof fn lemma_product_pick_prefix(gens: Seq<(u128, u128)>, p1: Seq<bool>, p2: Seq<bool>, k: nat)
    requires
        forall|j: int| 0 <= j < k ==> #[trigger] p1[j] == p2[j],
    ensures
        product_of(gens, p1, k) == product_of(gens, p2, k),
    decreases k,
{
    if k > 0 {
        lemma_product_pick_prefix(gens, p1, p2, (k - 1) as nat);
    }
}

/// The identity is a product of stabilizers.
proof fn lemma_group_identity(gens: Seq<(u128, u128)>)
    ensures
        in_group(gens, (0u128, 0u128)),
{
    let pick = Seq::new(gens.len(), |j: int| false);
    lemma_product_none(gens, pick, gens.len());
    assert(product_of(gens, pick, gens.len()) == (0u128, 0u128));
}

/// Each generator is a product of generators.
proof fn lemma_group_generator(gens: Seq<(u128, u128)>, i: int)
    requires
        0 <= i < gens.len(),
    ensures
        in_group(gens, gens[i]),
{
    let pick = Seq::new(gens.len(), |j: int| j == i);
    lemma_generator_pick(gens, pick, i, gens.len());
    assert(product_of(gens, pick, gens.len()) == gens[i]);
}

proof fn lemma_generator_pick(gens: Seq<(u128, u128)>, pick: Seq<bool>, i: int, k: nat)
    requires
        0 <= i < gens.len(),
        k <= pick.len(),
        forall|j: int| 0 <= j < pick.len() ==> #[trigger] pick[j] == (j == i),
    ensures
        product_of(gens, pick, k) == if i < k {
            gens[i]
        } else {
            (0u128, 0u128)
        },
    decreases k,
{
    if k > 0 {
        lemma_generator_pick(gens, pick, i, (k - 1) as nat);
        lemma_product_laws(gens[i], gens[i], gens[i]);
    }
}

/// Products of products of generators are products of generators.
proof fn lemma_group_closed(gens: Seq<(u128, u128)>, a: (u128, u128), b: (u128, u128))
    requires
        in_group(gens, a),
        in_group(gens, b),
    ensures
        in_group(gens, pauli_product(a, b)),
{
    let pa = choose|pick: Seq<bool>| pick.len() == gens.len() && #[trigger] product_of(gens, pick, gens.len()) == a;
    let pb = choose|pick: Seq<bool>| pick.len() == gens.len() && #[trigger] product_of(gens, pick, gens.len()) == b;
    lemma_product_xor(gens, pa, pb, gens.len());
    let pc = Seq::new(gens.len(), |j: int| pa[j] != pb[j]);
    assert(product_of(gens, pc, gens.len()) == pauli_product(a, b));
}

/// A product of members of the group is in the group.
proof fn lemma_group_products(gens: Seq<(u128, u128)>, members: Seq<(u128, u128)>, pick: Seq<bool>, k: nat)
    requires
        k <= members.len(),
        forall|j: int| 0 <= j < members.len() ==> in_group(gens, #[trigger] members[j]),
    ensures
        in_group(gens, product_of(members, pick, k)),
    decreases k,
{
    if k == 0 {
        lemma_group_identity(gens);
    } else {
        lemma_group_products(gens, members, pick, (k - 1) as nat);
        if pick[k - 1] {
            lemma_group_closed(gens, product_of(members, pick, (k - 1) as nat), members[k - 1]);
        }
    }
}

/// The Pauli part of each basis row.
pub open spec fn basis_paulis(basis: Seq<BasisRow>) -> Seq<(u128, u128)> {
    Seq::new(basis.len(), |k: int| (basis[k].0, basis[k].1))
}

/// Reduction multiplies its input by some of the basis rows.
proof fn lemma_reduce_is_product(basis: Seq<BasisRow>, x: u128, z: u128)
    ensures
        exists|pick: Seq<bool>|
            pick.len() == basis.len() && #[trigger] product_of(basis_paulis(basis), pick, basis.len()) == pauli_product(
                (x, z),
                reduce_spec(basis, x, z),
            ),
    decreases basis.len(),
{
    let ps = basis_paulis(basis);
    if basis.len() == 0 {
        let pick = Seq::<bool>::empty();
        lemma_product_laws((x, z), (0u128, 0u128), (0u128, 0u128));
        lemma_product_laws((x, z), (x, z), (0u128, 0u128));
        assert(product_of(ps, pick, 0) == pauli_product((x, z), reduce_spec(basis, x, z)));
    } else {
        let init = basis.drop_last();
        lemma_reduce_is_product(init, x, z);
        let p0 = choose|pick: Seq<bool>|
            pick.len() == init.len() && #[trigger] product_of(basis_paulis(init), pick, init.len()) == pauli_product(
                (x, z),
                reduce_spec(init, x, z),
            );
        let prev = reduce_spec(init, x, z);
        let row = basis.last();
        let used = pivot_set(row, prev.0, prev.1);
        let pick = p0.push(used);
        assert forall|j: int| 0 <= j < init.len() implies #[trigger] basis_paulis(init)[j] == ps[j] by {}
        lemma_product_prefix(basis_paulis(init), ps, p0, init.len());
        assert forall|j: int| 0 <= j < init.len() implies #[trigger] pick[j] == p0[j] by {}
        lemma_product_pick_prefix(ps, pick, p0, init.len());
        let xz = (x, z);
        let r = (row.0, row.1);
        assert(ps[basis.len() - 1] == r);
        lemma_product_laws(xz, prev, r);
        assert(product_of(ps, pick, basis.len()) == pauli_product(xz, reduce_spec(basis, x, z)));
    }
}

/// Reducing a stabilizer against rows that are products of stabilizers
/// leaves a product of stabilizers.
proof fn lemma_row_in_group(gens: Seq<(u128, u128)>, basis: Seq<BasisRow>, i: int)
    requires
        0 <= i < gens.len(),
        forall|k: int| 0 <= k < basis.len() ==> in_group(gens, #[trigger] basis_paulis(basis)[k]),
    ensures
        in_group(gens, reduce_spec(basis, gens[i].0, gens[i].1)),
{
    let s = gens[i];
    let r = reduce_spec(basis, s.0, s.1);
    lemma_reduce_is_product(basis, s.0, s.1);
    let pick = choose|pick: Seq<bool>|
        pick.len() == basis.len() && #[trigger] product_of(basis_paulis(basis), pick, basis.len()) == pauli_product(
            s,
            r,
        );
    lemma_group_products(gens, basis_paulis(basis), pick, basis.len());
    lemma_group_generator(gens, i);
    lemma_group_closed(gens, s, pauli_product(s, r));
    lemma_product_laws(s, s, r);
    lemma_product_laws(r, r, r);
}

/// A Pauli reduces to nothing against the basis exactly when it is a
/// product of the basis rows' Paulis.
proof fn lemma_reduce_zero_is_product(basis: Seq<BasisRow>, x: u128, z: u128)
    requires
        reduce_spec(basis, x, z) == (0u128, 0u128),
    ensures
        exists|pick: Seq<bool>| pick.len() == basis.len() && #[trigger] product_of(basis_paulis(basis), pick, basis.len()) == (x, z),
{
    lemma_reduce_is_product(basis, x, z);
    lemma_product_laws((x, z), (0u128, 0u128), (0u128, 0u128));
}

/// A product of Paulis that each reduce to nothing reduces to nothing.
proof fn lemma_reduce_products(basis: Seq<BasisRow>, gens: Seq<(u128, u128)>, pick: Seq<bool>, k: nat)
    requires
        basis_ok(basis),
        k <= gens.len(),
        forall|j: int| 0 <= j < gens.len() ==> reduce_spec(basis, (#[trigger] gens[j]).0, gens[j].1) == (
            0u128,
            0u128,
        ),
    ensures
        reduce_spec(basis, product_of(gens, pick, k).0, product_of(gens, pick, k).1) == (0u128, 0u128),
    decreases k,
{
    if k == 0 {
        lemma_reduce_zero(basis);
    } else {
        lemma_reduce_products(basis, gens, pick, (k - 1) as nat);
        if pick[k - 1] {
            let p = product_of(gens, pick, (k - 1) as nat);
            lemma_reduce_linear(basis, p, gens[k - 1]);
            lemma_xor_laws(0, 0, 0);
        }
    }
}

/* ---------------------------------------------------------------------- */
/* Null space of the commutation map                                      */
/* ---------------------------------------------------------------------- */

/// Column `c` of a row over `2n` columns: columns `0..n` are the first word,
/// `n..2n` the second.
pub open spec fn col_bit(row: (u128, u128), n: nat, c: nat) -> bool {
    if c < n {
        bit(row.0, c as u128)
    } else {
        bit(row.1, (c - n) as u128)
    }
}

/// GF(2) inner product of a row with a vector of the same shape.
pub open spec fn dot(row: (u128, u128), v: (u128, u128)) -> bool {
    parity(row.0 & v.0) != parity(row.1 & v.1)
}

/// The unit vector of column `c`.
pub open spec fn unit(n: nat, c: nat) -> (u128, u128) {
    if c < n {
        (1u128 << (c as u128), 0u128)
    } else {
        (0u128, 1u128 << ((c - n) as u128))
    }
}

pub open spec fn orth(rows: Seq<(u128, u128)>, v: (u128, u128)) -> bool {
    forall|r: int| 0 <= r < rows.len() ==> !#[trigger] dot(rows[r], v)
}

/// Every vector orthogonal to `rows` is orthogonal to `orig`: the rows span
/// at least what `orig` spans.
pub open spec fn spans(rows: Seq<(u128, u128)>, orig: Seq<(u128, u128)>) -> bool {
    forall|v: (u128, u128)| #[trigger] orth(rows, v) ==> orth(orig, v)
}

pub open spec fn rows_fit(rows: Seq<(u128, u128)>, n: nat) -> bool {
    forall|r: int| 0 <= r < rows.len() ==> pauli_fits(#[trigger] rows[r], n)
}

proof fn lemma_dot_xor_row(a: (u128, u128), b: (u128, u128), v: (u128, u128))
    ensures
        dot((a.0 ^ b.0, a.1 ^ b.1), v) == (dot(a, v) != dot(b, v)),
{
    let (a0, a1) = a;
    let (b0, b1) = b;
    let (v0, v1) = v;
    assert((a0 ^ b0) & v0 == (a0 & v0) ^ (b0 & v0)) by (bit_vector);
    assert((a1 ^ b1) & v1 == (a1 & v1) ^ (b1 & v1)) by (bit_vector);
    lemma_parity_xor(a0 & v0, b0 & v0);
    lemma_parity_xor(a1 & v1, b1 & v1);
}

proof fn lemma_dot_xor_vec(a: (u128, u128), v: (u128, u128), w: (u128, u128))
    ensures
        dot(a, (v.0 ^ w.0, v.1 ^ w.1)) == (dot(a, v) != dot(a, w)),
{
    let (a0, a1) = a;
    let (v0, v1) = v;
    let (w0, w1) = w;
    assert(a0 & (v0 ^ w0) == (a0 & v0) ^ (a0 & w0)) by (bit_vector);
    assert(a1 & (v1 ^ w1) == (a1 & v1) ^ (a1 & w1)) by (bit_vector);
    lemma_parity_xor(a0 & v0, a0 & w0);
    lemma_parity_xor(a1 & v1, a1 & w1);
}

proof fn lemma_dot_unit(row: (u128, u128), n: nat, c: nat)
    requires
        n <= 128,
        c < 2 * n,
    ensures
        dot(row, unit(n, c)) == col_bit(row, n, c),
{
    let (r0, r1) = row;
    assert(r0 & 0u128 == 0u128) by (bit_vector);
    assert(r1 & 0u128 == 0u128) by (bit_vector);
    lemma_parity_zero();
    if c < n {
        lemma_parity_single(r0, c as u128);
    } else {
        lemma_parity_single(r1, (c - n) as u128);
    }
}

/// The inner product of a stabilizer's row `(z, x)` with `(px, pz)` is their
/// commutation.
proof fn lemma_dot_is_anti(s: (u128, u128), p: (u128, u128))
    ensures
        dot((s.1, s.0), p) == anti(p, s),
{
    let (sx, sz) = s;
    let (px, pz) = p;
    assert(sz & px == px & sz) by (bit_vector);
    assert(sx & pz == pz & sx) by (bit_vector);
}

/// A row with no set column, within its width, is zero and orthogonal to
/// everything.
proof fn lemma_empty_row(row: (u128, u128), n: nat, v: (u128, u128))
    requires
        n <= 128,
        pauli_fits(row, n),
        forall|c: nat| c < 2 * n ==> !#[trigger] col_bit(row, n, c),
    ensures
        !dot(row, v),
{
    assert forall|i: u128| i < 128 implies !#[trigger] bit(row.0, i) by {
        if (i as nat) < n {
            assert(!col_bit(row, n, i as nat));
        }
    }
    assert forall|i: u128| i < 128 implies !#[trigger] bit(row.1, i) by {
        if (i as nat) < n {
            assert(!col_bit(row, n, (n + i) as nat));
        }
    }
    lemma_no_bits_zero(row.0);
    lemma_no_bits_zero(row.1);
    let (v0, v1) = v;
    assert(0u128 & v0 == 0u128) by (bit_vector);
    assert(0u128 & v1 == 0u128) by (bit_vector);
    lemma_parity_zero();
}

fn col_bit_exec(row: (u128, u128), n: usize, c: usize) -> (b: bool)
    requires
        n <= 128,
        c < 2 * n,
    ensures
        b == col_bit(row, n as nat, c as nat),
{
    if c < n {
        get_bit(row.0, c as u32)
    } else {
        get_bit(row.1, (c - n) as u32)
    }
}

fn unit_exec(n: usize, c: usize) -> (u: (u128, u128))
    requires
        n <= 128,
        c < 2 * n,
    ensures
        u == unit(n as nat, c as nat),
{
    if c < n {
        (single(c as u32), 0)
    } else {
        (0, single((c - n) as u32))
    }
}

/// Row-reduce a GF(2) matrix over `2n` columns in place and return the pivot
/// column of each remaining row.
fn gf2_rref(rows: &mut Vec<(u128, u128)>, n: usize) -> (pivots: Vec<usize>)
    requires
        n <= 128,
        rows_fit(old(rows)@, n as nat),
    ensures
        final(rows)@.len() == pivots@.len(),
        pivots@.len() <= old(rows)@.len(),
        forall|a: int| 0 <= a < pivots@.len() ==> #[trigger] pivots@[a] < 2 * n,
        forall|a: int, b: int| 0 <= a < b < pivots@.len() ==> #[trigger] pivots@[a] < #[trigger] pivots@[b],
        forall|a: int, b: int|
            0 <= a < pivots@.len() && 0 <= b < pivots@.len() ==> #[trigger] col_bit(
                final(rows)@[b],
                n as nat,
                pivots@[a] as nat,
            ) == (a == b),
        rows_fit(final(rows)@, n as nat),
        spans(final(rows)@, old(rows)@),
{
    let ghost orig = rows@;
    let width = 2 * n;
    let len = rows.len();
    let mut pivots: Vec<usize> = Vec::new();
    let mut r: usize = 0;
    let mut col: usize = 0;
    while col < width && r < len
        invariant
            n <= 128,
            width == 2 * n,
            rows@.len() == len,
            orig.len() == len,
            r <= len,
            col <= width,
            pivots@.len() == r,
            forall|a: int| 0 <= a < r ==> #[trigger] pivots@[a] < col,
            forall|a: int, b: int| 0 <= a < b < r ==> #[trigger] pivots@[a] < #[trigger] pivots@[b],
            forall|a: int, b: int|
                0 <= a < r && 0 <= b < len ==> #[trigger] col_bit(rows@[b], n as nat, pivots@[a] as nat) == (a
                    == b),
            forall|b: int, c: nat| r <= b < len && c < col ==> !#[trigger] col_bit(rows@[b], n as nat, c),
            rows_fit(rows@, n as nat),
            spans(rows@, orig),
        decreases width - col,
    {
        let mut sel = r;
        while sel < len && !col_bit_exec(rows[sel], n, col)
            invariant
                n <= 128,
                col < 2 * n,
                rows@.len() == len,
                r <= sel <= len,
                forall|b: int| r <= b < sel ==> !#[trigger] col_bit(rows@[b], n as nat, col as nat),
            decreases len - sel,
        {
            sel += 1;
        }
        if sel < len {
            // Bring the pivot row up to position r.
            let ghost before_swap = rows@;
            let pr = rows[sel];
            let other = rows[r];
            rows.set(sel, other);
            rows.set(r, pr);
            proof {
                assert forall|v: (u128, u128)| #[trigger] orth(rows@, v) implies orth(orig, v) by {
                    assert forall|b: int| 0 <= b < len implies !#[trigger] dot(before_swap[b], v) by {
                        if b == r {
                            assert(!dot(rows@[sel as int], v));
                        } else if b == sel {
                            assert(!dot(rows@[r as int], v));
                        } else {
                            assert(!dot(rows@[b], v));
                        }
                    }
                    assert(orth(before_swap, v));
                }
                assert forall|a: int, b: int|
                    0 <= a < r && 0 <= b < len implies #[trigger] col_bit(rows@[b], n as nat, pivots@[a] as nat) == (a
                        == b) by {
                    if b == r {
                        assert(col_bit(before_swap[sel as int], n as nat, pivots@[a] as nat) == (a == sel));
                    } else if b == sel {
                        assert(col_bit(before_swap[r as int], n as nat, pivots@[a] as nat) == (a == r));
                    } else {
                        assert(col_bit(before_swap[b], n as nat, pivots@[a] as nat) == (a == b));
                    }
                }
                assert forall|b: int, c: nat| r <= b < len && c < col implies !#[trigger] col_bit(
                    rows@[b],
                    n as nat,
                    c,
                ) by {
                    if b == r {
                        assert(!col_bit(before_swap[sel as int], n as nat, c));
                    } else if b == sel {
                        assert(!col_bit(before_swap[r as int], n as nat, c));
                    } else {
                        assert(!col_bit(before_swap[b], n as nat, c));
                    }
                }
                assert(rows_fit(rows@, n as nat)) by {
                    assert forall|b: int| 0 <= b < len implies pauli_fits(#[trigger] rows@[b], n as nat) by {
                        if b == r {
                            assert(pauli_fits(before_swap[sel as int], n as nat));
                        } else if b == sel {
                            assert(pauli_fits(before_swap[r as int], n as nat));
                        } else {
                            assert(pauli_fits(before_swap[b], n as nat));
                        }
                    }
                }
            }
            // Clear the pivot column from every other row.
            for i in 0..len
                invariant
                    n <= 128,
                    width == 2 * n,
                    col < width,
                    r < len,
                    rows@.len() == len,
                    orig.len() == len,
                    rows@[r as int] == pr,
                    col_bit(pr, n as nat, col as nat),
                    pauli_fits(pr, n as nat),
                    pivots@.len() == r,
                    forall|a: int| 0 <= a < r ==> #[trigger] pivots@[a] < col,
                    forall|a: int, b: int|
                        0 <= a < r && 0 <= b < len ==> #[trigger] col_bit(rows@[b], n as nat, pivots@[a] as nat)
                            == (a == b),
                    forall|b: int, c: nat| r <= b < len && c < col ==> !#[trigger] col_bit(rows@[b], n as nat, c),
                    forall|b: int| 0 <= b < i && b != r ==> !#[trigger] col_bit(rows@[b], n as nat, col as nat),
                    rows_fit(rows@, n as nat),
                    spans(rows@, orig),
            {
                if i != r && col_bit_exec(rows[i], n, col) {
                    let ghost before = rows@;
                    let cur = rows[i];
                    let upd = (cur.0 ^ pr.0, cur.1 ^ pr.1);
                    rows.set(i, upd);
                    proof {
                        assert forall|c: nat| c < 2 * n implies #[trigger] col_bit(upd, n as nat, c) == (col_bit(
                            cur,
                            n as nat,
                            c,
                        ) != col_bit(pr, n as nat, c)) by {
                            if c < n {
                                lemma_bit_xor(cur.0, pr.0, c as u128);
                            } else {
                                lemma_bit_xor(cur.1, pr.1, (c - n) as u128);
                            }
                        }
                        lemma_fits_xor(cur.0, pr.0, n as nat);
                        lemma_fits_xor(cur.1, pr.1, n as nat);
                        assert forall|a: int, b: int|
                            0 <= a < r && 0 <= b < len implies #[trigger] col_bit(
                                rows@[b],
                                n as nat,
                                pivots@[a] as nat,
                            ) == (a == b) by {
                            if b == i {
                                assert(col_bit(before[r as int], n as nat, pivots@[a] as nat) == (a == r));
                                assert(col_bit(before[b], n as nat, pivots@[a] as nat) == (a == b));
                            } else {
                                assert(col_bit(before[b], n as nat, pivots@[a] as nat) == (a == b));
                            }
                        }
                        assert forall|b: int, c: nat| r <= b < len && c < col implies !#[trigger] col_bit(
                            rows@[b],
                            n as nat,
                            c,
                        ) by {
                            assert(!col_bit(before[b], n as nat, c));
                            if b == i {
                                assert(!col_bit(before[r as int], n as nat, c));
                            }
                        }
                        assert forall|b: int| 0 <= b < i + 1 && b != r implies !#[trigger] col_bit(
                            rows@[b],
                            n as nat,
                            col as nat,
                        ) by {
                            if b < i {
                                assert(!col_bit(before[b], n as nat, col as nat));
                            }
                        }
                        assert(rows_fit(rows@, n as nat)) by {
                            assert forall|b: int| 0 <= b < len implies pauli_fits(#[trigger] rows@[b], n as nat) by {
                                if b != i {
                                    assert(pauli_fits(before[b], n as nat));
                                }
                            }
                        }
                        assert forall|v: (u128, u128)| #[trigger] orth(rows@, v) implies orth(orig, v) by {
                            assert forall|b: int| 0 <= b < len implies !#[trigger] dot(before[b], v) by {
                                assert(!dot(rows@[b], v));
                                if b == i {
                                    assert(!dot(rows@[r as int], v));
                                    lemma_dot_xor_row(upd, pr, v);
                                    let (c0, c1) = cur;
                                    let (p0, p1) = pr;
                                    assert((c0 ^ p0) ^ p0 == c0) by (bit_vector);
                                    assert((c1 ^ p1) ^ p1 == c1) by (bit_vector);
                                }
                            }
                            assert(orth(before, v));
                        }
                    }
                }
            }
            let ghost before_push = pivots@;
            pivots.push(col);
            proof {
                assert forall|a: int, b: int|
                    0 <= a < r + 1 && 0 <= b < len implies #[trigger] col_bit(rows@[b], n as nat, pivots@[a] as nat)
                        == (a == b) by {
                    if a < r {
                        assert(pivots@[a] == before_push[a]);
                    }
                }
            }
            r += 1;
        }
        col += 1;
    }
    let ghost full = rows@;
    rows.truncate(r);
    proof {
        assert(rows@ =~= full.subrange(0, r as int));
        assert forall|v: (u128, u128)| #[trigger] orth(rows@, v) implies orth(orig, v) by {
            assert forall|b: int| 0 <= b < len implies !#[trigger] dot(full[b], v) by {
                if b < r {
                    assert(!dot(rows@[b], v));
                } else {
                    assert(col == width);
                    assert forall|c: nat| c < 2 * n implies !#[trigger] col_bit(full[b], n as nat, c) by {}
                    assert(pauli_fits(full[b], n as nat));
                    lemma_empty_row(full[b], n as nat, v);
                }
            }
            assert(orth(full, v));
        }
        assert(rows_fit(rows@, n as nat)) by {
            assert forall|b: int| 0 <= b < rows@.len() implies pauli_fits(#[trigger] rows@[b], n as nat) by {
                assert(pauli_fits(full[b], n as nat));
            }
        }
        assert forall|a: int, b: int|
            0 <= a < pivots@.len() && 0 <= b < pivots@.len() implies #[trigger] col_bit(
                rows@[b],
                n as nat,
                pivots@[a] as nat,
            ) == (a == b) by {
            assert(col_bit(full[b], n as nat, pivots@[a] as nat) == (a == b));
        }
    }
    pivots
}

/// A pair of anticommuting logical operators for the code, found rather than
/// assumed: logical operators are the vectors of the null space of the
/// commutation map that are not products of stabilizers, and the first
/// anticommuting pair of them, in a fixed enumeration order, is returned.
/// Returns `((0, 0), (0, 0))` when no such pair exists.
fn find_logical_pair(stabilizers: &[(u128, u128)], num_qubits: usize, reduced: &LogicalCheck) -> (pair: (
    (u128, u128),
    (u128, u128),
))
    requires
        num_qubits <= 128,
        reduced.wf(),
        forall|i: int| 0 <= i < stabilizers@.len() ==> pauli_fits(#[trigger] stabilizers@[i], num_qubits as nat),
    ensures
        logical_pair_found(stabilizers@, *reduced, pair.0, pair.1) || pair == ((0u128, 0u128), (0u128, 0u128)),
{
    let n = num_qubits;
    let width = 2 * n;

    // One row per generator: its Z mask weights the X part of the unknown,
    // its X mask the Z part.
    let mut rows: Vec<(u128, u128)> = Vec::new();
    for i in 0..stabilizers.len()
        invariant
            rows@.len() == i,
            forall|k: int| 0 <= k < i ==> #[trigger] rows@[k] == (stabilizers@[k].1, stabilizers@[k].0),
    {
        let (sx, sz) = stabilizers[i];
        rows.push((sz, sx));
    }
    let ghost orig = rows@;
    proof {
        assert forall|r: int| 0 <= r < orig.len() implies pauli_fits(#[trigger] orig[r], n as nat) by {
            assert(pauli_fits(stabilizers@[r], n as nat));
        }
    }
    let pivots = gf2_rref(&mut rows, n);
    let np = pivots.len();

    let mut is_pivot: Vec<bool> = Vec::new();
    for c in 0..width
        invariant
            is_pivot@.len() == c,
            forall|k: int| 0 <= k < c ==> #[trigger] is_pivot@[k] == exists|a: int| 0 <= a < np && pivots@[a] == k,
            pivots@.len() == np,
    {
        let mut hit = false;
        for a in 0..np
            invariant
                pivots@.len() == np,
                hit == exists|b: int| 0 <= b < a && pivots@[b] == c,
        {
            if pivots[a] == c {
                hit = true;
            }
        }
        is_pivot.push(hit);
    }

    // Null-space basis: one vector per free column.
    let mut null: Vec<(u128, u128)> = Vec::new();
    for free in 0..width
        invariant
            n <= 128,
            width == 2 * n,
            is_pivot@.len() == width,
            rows@.len() == np,
            pivots@.len() == np,
            forall|a: int| 0 <= a < np ==> #[trigger] pivots@[a] < 2 * n,
            forall|a: int, b: int|
                0 <= a < np && 0 <= b < np ==> #[trigger] col_bit(rows@[b], n as nat, pivots@[a] as nat) == (a
                    == b),
            spans(rows@, orig),
            forall|k: int| 0 <= k < null@.len() ==> orth(orig, #[trigger] null@[k]),
    {
        if !is_pivot[free] {
            let mut v = unit_exec(n, free);
            proof {
                assert forall|r0: int| 0 <= r0 < np implies #[trigger] dot(rows@[r0], v) == col_bit(
                    rows@[r0],
                    n as nat,
                    free as nat,
                ) by {
                    lemma_dot_unit(rows@[r0], n as nat, free as nat);
                }
            }
            for k in 0..np
                invariant
                    n <= 128,
                    free < 2 * n,
                    rows@.len() == np,
                    pivots@.len() == np,
                    forall|a: int| 0 <= a < np ==> #[trigger] pivots@[a] < 2 * n,
                    forall|a: int, b: int|
                        0 <= a < np && 0 <= b < np ==> #[trigger] col_bit(rows@[b], n as nat, pivots@[a] as nat)
                            == (a == b),
                    forall|r0: int|
                        0 <= r0 < np ==> #[trigger] dot(rows@[r0], v) == (if r0 < k {
                            false
                        } else {
                            col_bit(rows@[r0], n as nat, free as nat)
                        }),
            {
                if col_bit_exec(rows[k], n, free) {
                    let e = unit_exec(n, pivots[k]);
                    let ghost old_v = v;
                    v = (v.0 ^ e.0, v.1 ^ e.1);
                    proof {
                        assert forall|r0: int| 0 <= r0 < np implies #[trigger] dot(rows@[r0], v) == (if r0 < k + 1 {
                            false
                        } else {
                            col_bit(rows@[r0], n as nat, free as nat)
                        }) by {
                            lemma_dot_xor_vec(rows@[r0], old_v, e);
                            lemma_dot_unit(rows@[r0], n as nat, pivots@[k as int] as nat);
                            assert(col_bit(rows@[r0], n as nat, pivots@[k as int] as nat) == (k == r0));
                        }
                    }
                }
            }
            proof {
                assert(orth(rows@, v));
            }
            null.push(v);
        }
    }

    // Null-space vectors that are not products of stabilizers are logical.
    let mut logicals: Vec<(u128, u128)> = Vec::new();
    for k in 0..null.len()
        invariant
            reduced.wf(),
            forall|j: int| 0 <= j < null@.len() ==> orth(orig, #[trigger] null@[j]),
            forall|j: int|
                0 <= j < logicals@.len() ==> orth(orig, #[trigger] logicals@[j]) && reduced.is_logical_spec(
                    logicals@[j].0,
                    logicals@[j].1,
                ),
    {
        let v = null[k];
        if reduced.is_logical(v.0, v.1) {
            logicals.push(v);
        }
    }

    for i in 0..logicals.len()
        invariant
            orig.len() == stabilizers@.len(),
            forall|k: int| 0 <= k < orig.len() ==> #[trigger] orig[k] == (stabilizers@[k].1, stabilizers@[k].0),
            forall|j: int|
                0 <= j < logicals@.len() ==> orth(orig, #[trigger] logicals@[j]) && reduced.is_logical_spec(
                    logicals@[j].0,
                    logicals@[j].1,
                ),
    {
        for j in (i + 1)..logicals.len()
            invariant
                i < logicals@.len(),
                orig.len() == stabilizers@.len(),
                forall|k: int| 0 <= k < orig.len() ==> #[trigger] orig[k] == (stabilizers@[k].1, stabilizers@[k].0),
                forall|j: int|
                    0 <= j < logicals@.len() ==> orth(orig, #[trigger] logicals@[j]) && reduced.is_logical_spec(
                        logicals@[j].0,
                        logicals@[j].1,
                    ),
        {
            let a = logicals[i];
            let b = logicals[j];
            if anticommute(a, b) {
                proof {
                    assert(orth(orig, logicals@[i as int]));
                    assert(orth(orig, logicals@[j as int]));
                    assert forall|s: int| 0 <= s < stabilizers@.len() implies !#[trigger] anti(a, stabilizers@[s]) by {
                        lemma_dot_is_anti(stabilizers@[s], a);
                        assert(!dot(orig[s], a));
                    }
                    assert forall|s: int| 0 <= s < stabilizers@.len() implies !#[trigger] anti(b, stabilizers@[s]) by {
                        lemma_dot_is_anti(stabilizers@[s], b);
                        assert(!dot(orig[s], b));
                    }
                }
                return (a, b);
            }
        }
    }
    ((0, 0), (0, 0))
}

} // verus!
