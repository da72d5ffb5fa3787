//! 128-bit Pauli masks.
//!
//! A Pauli on at most 128 qubits is a pair of masks `(x, z)`: bit `q` of `x`
//! (of `z`) says that qubit `q` carries an X (a Z) component. Two Paulis
//! anticommute exactly when `popcount(x1 & z2) + popcount(z1 & x2)` is odd,
//! which only needs the parity of each popcount.
use vstd::prelude::*;

verus! {

/// Bit `i` of `v`.
pub open spec fn bit(v: u128, i: u128) -> bool {
    (v >> i) & 1u128 == 1u128
}

/// Parity of the bits of `v` below position `k`.
pub open spec fn parity_upto(v: u128, k: nat) -> bool
    decreases k,
{
    if k == 0 {
        false
    } else {
        parity_upto(v, (k - 1) as nat) != bit(v, (k - 1) as u128)
    }
}

/// Parity of the number of set bits of `v`.
pub open spec fn parity(v: u128) -> bool {
    parity_upto(v, 128)
}

/// True when the Paulis `p = (x, z)` and `q` anticommute.
pub open spec fn anti(p: (u128, u128), q: (u128, u128)) -> bool {
    parity(p.0 & q.1) != parity(p.1 & q.0)
}

/// Every set bit of `v` lies below position `n`.
pub open spec fn fits(v: u128, n: nat) -> bool {
    forall|i: u128| n <= i < 128 ==> !#[trigger] bit(v, i)
}

pub proof fn lemma_bit_xor(a: u128, b: u128, i: u128)
    requires
        i < 128,
    ensures
        bit(a ^ b, i) == (bit(a, i) != bit(b, i)),
{
    assert(((a ^ b) >> i) & 1u128 == 1u128 <==> (((a >> i) & 1u128 == 1u128) != ((b >> i) & 1u128
        == 1u128))) by (bit_vector)
        requires
            i < 128,
    ;
}

pub proof fn lemma_bit_or(a: u128, b: u128, i: u128)
    requires
        i < 128,
    ensures
        bit(a | b, i) == (bit(a, i) || bit(b, i)),
{
    assert(((a | b) >> i) & 1u128 == 1u128 <==> (((a >> i) & 1u128 == 1u128) || ((b >> i) & 1u128
        == 1u128))) by (bit_vector)
        requires
            i < 128,
    ;
}

pub proof fn lemma_bit_and(a: u128, b: u128, i: u128)
    requires
        i < 128,
    ensures
        bit(a & b, i) == (bit(a, i) && bit(b, i)),
{
    assert(((a & b) >> i) & 1u128 == 1u128 <==> (((a >> i) & 1u128 == 1u128) && ((b >> i) & 1u128
        == 1u128))) by (bit_vector)
        requires
            i < 128,
    ;
}

pub proof fn lemma_bit_zero(i: u128)
    ensures
        !bit(0, i),
{
    assert((0u128 >> i) & 1u128 != 1u128) by (bit_vector);
}

/// Bit `i` of `1 << c` is set exactly when `i == c`.
pub proof fn lemma_bit_single(c: u128, i: u128)
    requires
        c < 128,
        i < 128,
    ensures
        bit(1u128 << c, i) == (i == c),
{
    assert((((1u128 << c) >> i) & 1u128 == 1u128) <==> (i == c)) by (bit_vector)
        requires
            c < 128,
            i < 128,
    ;
}

/// Parity is additive: the parity of `a ^ b` is the XOR of the parities.
pub proof fn lemma_parity_upto_xor(a: u128, b: u128, k: nat)
    requires
        k <= 128,
    ensures
        parity_upto(a ^ b, k) == (parity_upto(a, k) != parity_upto(b, k)),
    decreases k,
{
    if k > 0 {
        lemma_parity_upto_xor(a, b, (k - 1) as nat);
        lemma_bit_xor(a, b, (k - 1) as u128);
    }
}

pub proof fn lemma_parity_xor(a: u128, b: u128)
    ensures
        parity(a ^ b) == (parity(a) != parity(b)),
{
    lemma_parity_upto_xor(a, b, 128);
}

/// A mask whose bits below `k` are all clear has even parity there.
pub proof fn lemma_parity_upto_clear(v: u128, k: nat)
    requires
        k <= 128,
        forall|i: u128| i < k ==> !#[trigger] bit(v, i),
    ensures
        !parity_upto(v, k),
    decreases k,
{
    if k > 0 {
        lemma_parity_upto_clear(v, (k - 1) as nat);
        assert(!bit(v, (k - 1) as u128));
    }
}

pub proof fn lemma_parity_zero()
    ensures
        !parity(0),
{
    assert forall|i: u128| i < 128 implies !#[trigger] bit(0, i) by {
        lemma_bit_zero(i);
    }
    lemma_parity_upto_clear(0, 128);
}

/// The parity of `v & (1 << c)` is bit `c` of `v`.
pub proof fn lemma_parity_single(v: u128, c: u128)
    requires
        c < 128,
    ensures
        parity(v & (1u128 << c)) == bit(v, c),
{
    let w = v & (1u128 << c);
    assert forall|i: u128| i < 128 implies #[trigger] bit(w, i) == (i == c && bit(v, c)) by {
        lemma_bit_and(v, 1u128 << c, i);
        lemma_bit_single(c, i);
    }
    lemma_parity_single_upto(w, c, 128);
}

proof fn lemma_parity_single_upto(w: u128, c: u128, k: nat)
    requires
        c < 128,
        k <= 128,
        forall|i: u128| i < 128 ==> #[trigger] bit(w, i) == (i == c && bit(w, c)),
    ensures
        parity_upto(w, k) == (c < k && bit(w, c)),
    decreases k,
{
    if k > 0 {
        lemma_parity_single_upto(w, c, (k - 1) as nat);
        assert(bit(w, (k - 1) as u128) == ((k - 1) as u128 == c && bit(w, c)));
    }
}

/// A mask with no set bit is zero.
pub proof fn lemma_no_bits_zero(v: u128)
    requires
        forall|i: u128| i < 128 ==> !#[trigger] bit(v, i),
    ensures
        v == 0,
{
    lemma_high_clear(v, 0);
    assert(v >> 0u128 == v) by (bit_vector);
}

/// If no bit at or above `k` is set, `v >> k` is zero.
proof fn lemma_high_clear(v: u128, k: u128)
    requires
        k <= 128,
        forall|i: u128| k <= i < 128 ==> !#[trigger] bit(v, i),
    ensures
        v >> k == 0,
    decreases 128 - k,
{
    if k == 128 {
        assert(v >> 128u128 == 0) by (bit_vector);
    } else {
        lemma_high_clear(v, (k + 1) as u128);
        assert(!bit(v, k));
        let k1 = (k + 1) as u128;
        assert((v >> k1) == 0 && ((v >> k) & 1u128) != 1u128 && k < 128 && k1 == k + 1 ==> v >> k
            == 0) by (bit_vector);
    }
}

pub proof fn lemma_fits_xor(a: u128, b: u128, n: nat)
    requires
        fits(a, n),
        fits(b, n),
    ensures
        fits(a ^ b, n),
{
    assert forall|i: u128| n <= i < 128 implies !#[trigger] bit(a ^ b, i) by {
        lemma_bit_xor(a, b, i);
    }
}

/// Bit `i` of `v`, computed.
pub fn get_bit(v: u128, i: u32) -> (b: bool)
    requires
        i < 128,
    ensures
        b == bit(v, i as u128),
{
    let s = i as u128;
    (v >> s) & 1u128 == 1u128
}

/// The mask with only bit `i` set.
pub fn single(i: u32) -> (m: u128)
    requires
        i < 128,
    ensures
        forall|j: u128| j < 128 ==> #[trigger] bit(m, j) == (j == i as u128),
        m == 1u128 << (i as u128),
{
    let s = i as u128;
    let m = 1u128 << s;
    proof {
        assert forall|j: u128| j < 128 implies #[trigger] bit(m, j) == (j == i as u128) by {
            lemma_bit_single(s, j);
        }
    }
    m
}

/// Parity of the number of set bits of `v`.
pub fn parity_of(v: u128) -> (p: bool)
    ensures
        p == parity(v),
{
    let mut p = false;
    let mut i: u32 = 0;
    while i < 128
        invariant
            i <= 128,
            p == parity_upto(v, i as nat),
        decreases 128 - i,
    {
        let b = get_bit(v, i);
        p = p != b;
        i = i + 1;
    }
    p
}

/// Whether two Paulis anticommute.
pub fn anticommute(p: (u128, u128), q: (u128, u128)) -> (a: bool)
    ensures
        a == anti(p, q),
{
    parity_of(p.0 & q.1) != parity_of(p.1 & q.0)
}

/// Anticommutation is symmetric.
pub proof fn lemma_anti_symmetric(p: (u128, u128), q: (u128, u128))
    ensures
        anti(p, q) == anti(q, p),
{
    let (a, b) = p;
    let (c, e) = q;
    assert(a & e == e & a) by (bit_vector);
    assert(b & c == c & b) by (bit_vector);
}

/// Anticommutation is bilinear: with `q` fixed it is additive in `p`.
pub proof fn lemma_anti_xor(p: (u128, u128), r: (u128, u128), q: (u128, u128))
    ensures
        anti((p.0 ^ r.0, p.1 ^ r.1), q) == (anti(p, q) != anti(r, q)),
{
    let a = p.0;
    let b = r.0;
    let c = q.1;
    assert((a ^ b) & c == (a & c) ^ (b & c)) by (bit_vector);
    let a1 = p.1;
    let b1 = r.1;
    let c1 = q.0;
    assert((a1 ^ b1) & c1 == (a1 & c1) ^ (b1 & c1)) by (bit_vector);
    lemma_parity_xor(a & c, b & c);
    lemma_parity_xor(a1 & c1, b1 & c1);
}

} // verus!
