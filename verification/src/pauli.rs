//! Signed Pauli strings in the binary symplectic picture, and the facts about
//! them that the tableau relies on.
//!
//! A Pauli string on `n` qubits is a pair of bit vectors `(x, z)` plus a sign
//! bit `r`: qubit `k` carries I, X, Z or Y according to `(x[k], z[k])`. Two
//! strings commute exactly when their symplectic product
//! `sum_k x_a[k] z_b[k] + z_a[k] x_b[k]` is even.
use vstd::prelude::*;

verus! {

/// One row of a stabilizer tableau: a signed Pauli string.
pub struct PauliRow {
    pub x: Seq<bool>,
    pub z: Seq<bool>,
    pub r: u8,
}

/// Parity (XOR) of `f(0), ..., f(k - 1)`.
pub open spec fn parity(f: spec_fn(int) -> bool, k: nat) -> bool
    decreases k,
{
    if k == 0 {
        false
    } else {
        parity(f, (k - 1) as nat) != f(k - 1)
    }
}

/// The contribution of qubit `k` to the symplectic product of `a` and `b`.
pub open spec fn sym_term(a: PauliRow, b: PauliRow, k: int) -> bool {
    (a.x[k] && b.z[k]) != (a.z[k] && b.x[k])
}

/// True when the two strings anticommute on their first `n` qubits.
pub open spec fn anticommutes(a: PauliRow, b: PauliRow, n: nat) -> bool {
    parity(|k: int| sym_term(a, b, k), n)
}

pub open spec fn b2i(b: bool) -> int {
    if b {
        1
    } else {
        0
    }
}

/// The exponent of `i` picked up when the single-qubit Pauli `(x1, z1)` is
/// multiplied by `(x2, z2)` (Aaronson and Gottesman's function `g`).
pub open spec fn g_spec(x1: bool, z1: bool, x2: bool, z2: bool) -> int {
    if !x1 && !z1 {
        0
    } else if x1 && z1 {
        b2i(z2) - b2i(x2)
    } else if x1 {
        b2i(z2) * (2 * b2i(x2) - 1)
    } else {
        b2i(x2) * (1 - 2 * b2i(z2))
    }
}

/// Sum of `g` over the first `k` qubits.
pub open spec fn g_sum(a: PauliRow, b: PauliRow, k: nat) -> int
    decreases k,
{
    if k == 0 {
        0
    } else {
        g_sum(a, b, (k - 1) as nat) + g_spec(a.x[k - 1], a.z[k - 1], b.x[k - 1], b.z[k - 1])
    }
}

/// `2 r_a + 2 r_b + sum g`: the power of `i` in front of the product, before
/// reduction modulo 4.
pub open spec fn phase_sum(a: PauliRow, b: PauliRow, n: nat) -> int {
    2 * (a.r as int) + 2 * (b.r as int) + g_sum(a, b, n)
}

/// The product `b * a` as a signed Pauli string on `n` qubits, for strings
/// that commute (so that the product is Hermitian and its sign is +1 or -1).
pub open spec fn product(a: PauliRow, b: PauliRow, n: nat) -> PauliRow {
    PauliRow {
        x: Seq::new(n, |k: int| a.x[k] != b.x[k]),
        z: Seq::new(n, |k: int| a.z[k] != b.z[k]),
        r: if phase_sum(a, b, n) % 4 == 0 {
            0
        } else {
            1
        },
    }
}

/// The identity string on `n` qubits with sign `+`.
pub open spec fn identity_row(n: nat) -> PauliRow {
    PauliRow { x: Seq::new(n, |k: int| false), z: Seq::new(n, |k: int| false), r: 0 }
}

/// `Z` on qubit `q` and identity elsewhere, with sign bit `r`.
pub open spec fn z_row(n: nat, q: int, r: u8) -> PauliRow {
    PauliRow { x: Seq::new(n, |k: int| false), z: Seq::new(n, |k: int| k == q), r }
}

/// `X` on qubit `q` and identity elsewhere.
pub open spec fn x_row(n: nat, q: int) -> PauliRow {
    PauliRow { x: Seq::new(n, |k: int| k == q), z: Seq::new(n, |k: int| false), r: 0 }
}

pub open spec fn flip(r: u8, b: bool) -> u8 {
    if b {
        r ^ 1u8
    } else {
        r
    }
}

impl PauliRow {
    pub open spec fn well_sized(self, n: nat) -> bool {
        self.x.len() == n && self.z.len() == n
    }

    /// Conjugation by a Hadamard on qubit `q`.
    pub open spec fn h(self, q: int) -> PauliRow {
        PauliRow {
            x: self.x.update(q, self.z[q]),
            z: self.z.update(q, self.x[q]),
            r: flip(self.r, self.x[q] && self.z[q]),
        }
    }

    /// Conjugation by a phase gate on qubit `q`.
    pub open spec fn s(self, q: int) -> PauliRow {
        PauliRow {
            x: self.x,
            z: self.z.update(q, self.z[q] != self.x[q]),
            r: flip(self.r, self.x[q] && self.z[q]),
        }
    }

    /// Conjugation by a CNOT from `c` to `t`.
    pub open spec fn cnot(self, c: int, t: int) -> PauliRow {
        PauliRow {
            x: self.x.update(t, self.x[t] != self.x[c]),
            z: self.z.update(c, self.z[c] != self.z[t]),
            r: flip(self.r, self.x[c] && self.z[t] && (self.x[t] == self.z[c])),
        }
    }

    /// Conjugation by a Pauli `X` on qubit `q`: the sign flips where `z` is set.
    pub open spec fn px(self, q: int) -> PauliRow {
        PauliRow { r: flip(self.r, self.z[q]), ..self }
    }

    /// Conjugation by a Pauli `Z` on qubit `q`: the sign flips where `x` is set.
    pub open spec fn pz(self, q: int) -> PauliRow {
        PauliRow { r: flip(self.r, self.x[q]), ..self }
    }

    /// Conjugation by a Pauli `Y` on qubit `q`.
    pub open spec fn py(self, q: int) -> PauliRow {
        PauliRow { r: flip(self.r, self.x[q] != self.z[q]), ..self }
    }
}

/* ---------------------------------------------------------------------- */
/* Lemmas                                                                 */
/* ---------------------------------------------------------------------- */

/// S applied twice is Z: conjugating a Pauli by the phase gate twice on
/// qubit `q` changes it exactly as conjugating by `Z` does (`Y` goes to `-X`
/// and back, `X` picks up a sign, `Z` is left alone).
pub proof fn lemma_s_twice_is_z(row: PauliRow, q: int)
    requires
        0 <= q < row.x.len(),
        q < row.z.len(),
    ensures
        row.s(q).s(q) == row.pz(q),
{
    let a = row.s(q);
    let b = a.s(q);
    assert(b.x =~= row.x);
    assert(b.z =~= row.z);
    assert(b.r == flip(row.r, row.x[q]));
}


/// Parity only depends on the values it reads.
pub proof fn lemma_parity_ext(f: spec_fn(int) -> bool, g: spec_fn(int) -> bool, k: nat)
    requires
        forall|i: int| 0 <= i < k ==> #[trigger] f(i) == g(i),
    ensures
        parity(f, k) == parity(g, k),
    decreases k,
{
    if k > 0 {
        lemma_parity_ext(f, g, (k - 1) as nat);
    }
}

/// Parity is linear.
pub proof fn lemma_parity_xor(f: spec_fn(int) -> bool, g: spec_fn(int) -> bool, k: nat)
    ensures
        parity(|i: int| f(i) != g(i), k) == (parity(f, k) != parity(g, k)),
    decreases k,
{
    if k > 0 {
        lemma_parity_xor(f, g, (k - 1) as nat);
    }
}

/// The parity of a function that is false everywhere is false.
pub proof fn lemma_parity_zero(f: spec_fn(int) -> bool, k: nat)
    requires
        forall|i: int| 0 <= i < k ==> !#[trigger] f(i),
    ensures
        !parity(f, k),
    decreases k,
{
    if k > 0 {
        lemma_parity_zero(f, (k - 1) as nat);
    }
}

/// The parity of a function that is set at most at `c` is its value there.
pub proof fn lemma_parity_single(f: spec_fn(int) -> bool, c: int, k: nat)
    requires
        0 <= c < k,
        forall|i: int| 0 <= i < k && i != c ==> !#[trigger] f(i),
    ensures
        parity(f, k) == f(c),
    decreases k,
{
    if k - 1 == c {
        lemma_parity_zero(f, (k - 1) as nat);
    } else {
        lemma_parity_single(f, c, (k - 1) as nat);
    }
}

/// If `f` and `g` differ at most at `c` and `t`, and the differences cancel,
/// their parities agree.
pub proof fn lemma_parity_two(f: spec_fn(int) -> bool, g: spec_fn(int) -> bool, c: int, t: int, k: nat)
    requires
        0 <= c < k,
        0 <= t < k,
        forall|i: int| 0 <= i < k && i != c && i != t ==> #[trigger] f(i) == g(i),
        c == t ==> f(c) == g(c),
        (f(c) != g(c)) == (f(t) != g(t)),
    ensures
        parity(f, k) == parity(g, k),
{
    let d = |i: int| f(i) != g(i);
    if c == t {
        lemma_parity_ext(f, g, k);
    } else {
        lemma_parity_xor(f, d, k);
        // parity(d) is the parity of two equal values, hence false.
        let d1 = |i: int| i == c && d(i);
        let d2 = |i: int| i == t && d(i);
        lemma_parity_single(d1, c, k);
        lemma_parity_single(d2, t, k);
        lemma_parity_xor(d1, d2, k);
        lemma_parity_ext(|i: int| d1(i) != d2(i), d, k);
        lemma_parity_ext(|i: int| f(i) != d(i), g, k);
    }
}

/// The symplectic product is symmetric.
pub proof fn lemma_anticommutes_sym(a: PauliRow, b: PauliRow, n: nat)
    ensures
        anticommutes(a, b, n) == anticommutes(b, a, n),
{
    lemma_parity_ext(|k: int| sym_term(a, b, k), |k: int| sym_term(b, a, k), n);
}

/// Every string commutes with itself.
pub proof fn lemma_anticommutes_self(a: PauliRow, n: nat)
    ensures
        !anticommutes(a, a, n),
{
    lemma_parity_zero(|k: int| sym_term(a, a, k), n);
}

/// The symplectic product is linear in its first argument.
pub proof fn lemma_anticommutes_product(a: PauliRow, b: PauliRow, c: PauliRow, n: nat)
    requires
        a.well_sized(n),
        b.well_sized(n),
    ensures
        anticommutes(product(a, b, n), c, n) == (anticommutes(a, c, n) != anticommutes(b, c, n)),
{
    let m = product(a, b, n);
    let fa = |k: int| sym_term(a, c, k);
    let fb = |k: int| sym_term(b, c, k);
    let fm = |k: int| sym_term(m, c, k);
    let fab = |k: int| fa(k) != fb(k);
    lemma_parity_xor(fa, fb, n);
    assert forall|k: int| 0 <= k < n implies #[trigger] fm(k) == fab(k) by {}
    lemma_parity_ext(fm, fab, n);
}

/// `g` agrees with the symplectic term modulo 2, and lies in `[-1, 1]`.
pub proof fn lemma_g_mod2(x1: bool, z1: bool, x2: bool, z2: bool)
    ensures
        -1 <= g_spec(x1, z1, x2, z2) <= 1,
        (g_spec(x1, z1, x2, z2) % 2 == 1) == ((x1 && z2) != (z1 && x2)),
{
}

/// The sum of `g` over the string agrees with the symplectic product modulo 2.
pub proof fn lemma_g_sum_parity(a: PauliRow, b: PauliRow, k: nat)
    ensures
        (g_sum(a, b, k) % 2 == 1) == parity(|i: int| sym_term(a, b, i), k),
        -k <= g_sum(a, b, k) <= k,
    decreases k,
{
    if k > 0 {
        lemma_g_sum_parity(a, b, (k - 1) as nat);
        lemma_g_mod2(a.x[k - 1], a.z[k - 1], b.x[k - 1], b.z[k - 1]);
    }
}

/// The phase of a product of two strings is even exactly when they commute.
pub proof fn lemma_phase_even_iff_commute(a: PauliRow, b: PauliRow, n: nat)
    ensures
        (phase_sum(a, b, n) % 2 == 0) == !anticommutes(a, b, n),
{
    lemma_g_sum_parity(a, b, n);
}

} // verus!
