//! Phase-space regions: a centre with basis vectors spanning a
//! parallelepiped, and the enumeration of its vertices, one for each subset
//! of the basis.  Volumes and transformed regions are numerical and are
//! computed over these shapes.

use vstd::prelude::*;
use crate::phase_space::PhasePoint;

verus! {

/// 2 to the power `k`.
pub open spec fn two_pow(k: nat) -> nat
    decreases k,
{
    if k == 0 {
        1
    } else {
        2 * two_pow((k - 1) as nat)
    }
}

/// Bit `i` of `m`.
pub open spec fn bit_of(m: nat, i: nat) -> bool {
    (m / two_pow(i)) % 2 == 1
}

/// The subset of the first `k` basis vectors selected by the bits of `m`:
/// entry `i` says whether basis vector `i` is added to the centre.
pub open spec fn selection_of(m: nat, k: nat) -> Seq<bool> {
    Seq::new(k, |i: int| bit_of(m, i as nat))
}

/// Every basis vector has 2n entries, n being the centre's dimension.
pub open spec fn basis_fits<T>(center: PhasePoint<T>, basis: Seq<Vec<T>>) -> bool {
    forall|j: int| 0 <= j < basis.len() ==> (#[trigger] basis[j])@.len() == 2 * center.q@.len()
}

/// For a point whose positions and momenta have the same length, the basis
/// fits exactly when every basis vector has as many entries as the point's
/// flat vector [q; p].
pub proof fn lemma_basis_fits_flat<T>(center: PhasePoint<T>, basis: Seq<Vec<T>>)
    requires
        center.well_formed(),
    ensures
        basis_fits(center, basis) <==> forall|j: int|
            0 <= j < basis.len() ==> (#[trigger] basis[j])@.len() == center.flat().len(),
{
}

/// A region of phase space: the parallelepiped spanned by basis vectors
/// (deviations from the centre, each of the full phase dimension 2n).
#[derive(Debug, Clone)]
pub struct PhaseRegion<T> {
    /// Centre of the region.
    pub center: PhasePoint<T>,
    /// Basis vectors spanning the region.
    pub basis: Vec<Vec<T>>,
}

impl<T> PhaseRegion<T> {
    /// Whether `basis` may span a region around `center`: each basis
    /// vector has the centre's total dimension.
    pub fn fits(center: &PhasePoint<T>, basis: &Vec<Vec<T>>) -> (ok: bool)
        requires
            2 * center.q@.len() <= usize::MAX,
        ensures
            ok == basis_fits(*center, basis@),
            // Accepted: every basis vector has exactly 2n entries.
            ok ==> forall|j: int|
                0 <= j < basis@.len() ==> (#[trigger] basis@[j])@.len() == 2 * center.q@.len(),
            // Rejected: some basis vector has another number of entries.
            !ok ==> exists|j: int|
                0 <= j < basis@.len() && (#[trigger] basis@[j])@.len() != 2 * center.q@.len(),
    {
        let total_dim = 2 * center.q.len();
        let mut j: usize = 0;
        while j < basis.len()
            invariant
                total_dim == 2 * center.q@.len(),
                j <= basis@.len(),
                forall|i: int| 0 <= i < j ==> (#[trigger] basis@[i])@.len() == total_dim,
            decreases basis@.len() - j,
        {
            if basis[j].len() != total_dim {
                return false;
            }
            j = j + 1;
        }
        true
    }

    /// The region around `center` spanned by `basis`; every basis vector
    /// must have the centre's total dimension.
    pub fn new(center: PhasePoint<T>, basis: Vec<Vec<T>>) -> (region: Self)
        requires
            basis_fits(center, basis@),
        ensures
            region.center == center,
            region.basis@ == basis@,
            forall|j: int|
                0 <= j < region.basis@.len() ==> (#[trigger] region.basis@[j])@.len() == 2
                    * region.center.q@.len(),
    {
        PhaseRegion { center, basis }
    }

    /// Dimension of the region: the number of basis vectors.
    pub fn region_dim(&self) -> (k: usize)
        ensures
            k == self.basis@.len(),
    {
        self.basis.len()
    }

    /// For each vertex of the parallelepiped, which basis vectors are added
    /// to the centre to reach it.  Vertex `m` takes basis vector `i` when
    /// bit `i` of `m` is set, so there are 2^k vertices for k basis vectors
    /// and vertex 0 is the centre.
    pub fn vertex_selections(&self) -> (sel: Vec<Vec<bool>>)
        requires
            self.basis@.len() < usize::BITS,
        ensures
            sel@.len() == two_pow(self.basis@.len()),
            forall|m: int|
                0 <= m < sel@.len() ==> (#[trigger] sel@[m])@ == selection_of(
                    m as nat,
                    self.basis@.len(),
                ),
            // Vertex m takes basis vector i exactly when bit i of m is set.
            forall|m: int, i: int|
                0 <= m < sel@.len() && 0 <= i < self.basis@.len() ==> (#[trigger] sel@[m]@[i])
                    == ((m / two_pow(i as nat) as int) % 2 == 1),
    {
        let k = self.basis.len();
        proof {
            lemma_two_pow_fits(k as nat);
        }
        let mut n_combos: usize = 1;
        let mut e: usize = 0;
        while e < k
            invariant
                e <= k,
                k < usize::BITS,
                n_combos == two_pow(e as nat),
                two_pow(k as nat) <= usize::MAX,
            decreases k - e,
        {
            proof {
                lemma_two_pow_monotonic((e + 1) as nat, k as nat);
            }
            n_combos = n_combos * 2;
            e = e + 1;
        }
        let mut sel: Vec<Vec<bool>> = Vec::new();
        for mask in 0..n_combos
            invariant
                n_combos == two_pow(k as nat),
                k == self.basis@.len(),
                sel@.len() == mask,
                forall|m: int|
                    0 <= m < mask ==> (#[trigger] sel@[m])@ == selection_of(m as nat, k as nat),
        {
            let mut row: Vec<bool> = Vec::new();
            let mut rest: usize = mask;
            assert(two_pow(0) == 1);
            assert(mask as nat / two_pow(0) == mask as nat);
            assert(row@ =~= selection_of(mask as nat, 0));
            for i in 0..k
                invariant
                    rest == mask as nat / two_pow(i as nat),
                    row@ == selection_of(mask as nat, i as nat),
            {
                proof {
                    lemma_next_bit(mask as nat, i as nat);
                }
                row.push(rest % 2 == 1);
                rest = rest / 2;
                assert(row@ =~= selection_of(mask as nat, (i + 1) as nat));
            }
            sel.push(row);
        }
        sel
    }
}

proof fn lemma_two_pow_positive(k: nat)
    ensures
        two_pow(k) >= 1,
    decreases k,
{
    if k > 0 {
        lemma_two_pow_positive((k - 1) as nat);
    }
}

proof fn lemma_two_pow_monotonic(a: nat, b: nat)
    requires
        a <= b,
    ensures
        two_pow(a) <= two_pow(b),
    decreases b,
{
    if a < b {
        lemma_two_pow_monotonic(a, (b - 1) as nat);
        lemma_two_pow_positive((b - 1) as nat);
    }
}

proof fn lemma_two_pow_fits(k: nat)
    requires
        k < usize::BITS,
    ensures
        two_pow(k) <= usize::MAX,
{
    lemma_two_pow_monotonic(k, (usize::BITS - 1) as nat);
    assert(usize::BITS == 32 || usize::BITS == 64);
    reveal_with_fuel(two_pow, 64);
    if usize::BITS == 32 {
        assert(two_pow(31) == 0x8000_0000);
    } else {
        assert(two_pow(63) == 0x8000_0000_0000_0000);
    }
}

/// Dividing by 2^i and then by 2 is dividing by 2^(i+1).
proof fn lemma_next_bit(m: nat, i: nat)
    ensures
        (m / two_pow(i)) / 2 == m / two_pow(i + 1),
        two_pow(i + 1) == two_pow(i) * 2,
{
    lemma_two_pow_positive(i);
    vstd::arithmetic::div_mod::lemma_div_denominator(m as int, two_pow(i) as int, 2);
}

/// Bit 0 of `m` is its parity.
proof fn lemma_bit_zero(m: nat)
    ensures
        bit_of(m, 0) == (m % 2 == 1),
{
    assert(two_pow(0) == 1);
    assert(m / 1 == m);
}

/// Bit `i + 1` of `m` is bit `i` of `m / 2`.
proof fn lemma_bit_shift(m: nat, i: nat)
    ensures
        bit_of(m, i + 1) == bit_of(m / 2, i),
{
    lemma_two_pow_positive(i);
    assert(two_pow(i + 1) == 2 * two_pow(i));
    vstd::arithmetic::div_mod::lemma_div_denominator(m as int, 2, two_pow(i) as int);
}

/// Distinct masks below 2^k select distinct subsets.
proof fn lemma_selections_distinct(k: nat, m1: nat, m2: nat)
    requires
        m1 < two_pow(k),
        m2 < two_pow(k),
        m1 != m2,
    ensures
        selection_of(m1, k) != selection_of(m2, k),
    decreases k,
{
    if k == 0 {
        assert(two_pow(0) == 1);
    } else {
        let s1 = selection_of(m1, k);
        let s2 = selection_of(m2, k);
        lemma_bit_zero(m1);
        lemma_bit_zero(m2);
        if m1 % 2 == m2 % 2 {
            let h1 = m1 / 2;
            let h2 = m2 / 2;
            assert(h1 != h2);
            assert(two_pow(k) == 2 * two_pow((k - 1) as nat));
            lemma_selections_distinct((k - 1) as nat, h1, h2);
            if s1 == s2 {
                assert forall|i: int| 0 <= i < k - 1 implies #[trigger] selection_of(h1, (k - 1) as nat)[i]
                    == selection_of(h2, (k - 1) as nat)[i] by {
                    lemma_bit_shift(m1, i as nat);
                    lemma_bit_shift(m2, i as nat);
                    assert(s1[i + 1] == s2[i + 1]);
                }
                assert(selection_of(h1, (k - 1) as nat) =~= selection_of(h2, (k - 1) as nat));
            }
        } else {
            assert(s1[0] != s2[0]);
        }
    }
}

/// The mask that selects exactly the basis vectors marked in `s`.
pub open spec fn mask_of(s: Seq<bool>) -> nat
    decreases s.len(),
{
    if s.len() == 0 {
        0
    } else {
        (if s[0] {
            1nat
        } else {
            0nat
        }) + 2 * mask_of(s.drop_first())
    }
}

/// `mask_of(s)` is below 2^len and selects `s`.
proof fn lemma_mask_of(s: Seq<bool>)
    ensures
        mask_of(s) < two_pow(s.len()),
        selection_of(mask_of(s), s.len()) == s,
    decreases s.len(),
{
    if s.len() == 0 {
        assert(two_pow(0) == 1);
        assert(selection_of(0, 0) =~= s);
    } else {
        let t = s.drop_first();
        lemma_mask_of(t);
        let x = mask_of(t);
        let b: nat = if s[0] {
            1
        } else {
            0
        };
        let m = b + 2 * x;
        assert(m == mask_of(s));
        assert(two_pow(s.len()) == 2 * two_pow(t.len()));
        assert(m / 2 == x);
        assert(m % 2 == b);
        lemma_bit_zero(m);
        assert forall|i: int| 0 <= i < s.len() implies #[trigger] selection_of(m, s.len())[i]
            == s[i] by {
            if i > 0 {
                lemma_bit_shift(m, (i - 1) as nat);
                assert(selection_of(x, t.len())[i - 1] == t[i - 1]);
            }
        }
        assert(selection_of(m, s.len()) =~= s);
    }
}

/// The vertices of a parallelepiped with k basis vectors are exactly the
/// subsets of its basis: the 2^k masks select pairwise distinct subsets,
/// every subset of the k basis vectors is selected by one of them, and
/// mask 0 (the first vertex) selects none, so it is the centre.
pub proof fn lemma_vertices_are_the_subsets(k: nat)
    ensures
        forall|m1: nat, m2: nat|
            m1 < two_pow(k) && m2 < two_pow(k) && m1 != m2 ==> #[trigger] selection_of(m1, k)
                != #[trigger] selection_of(m2, k),
        forall|s: Seq<bool>|
            s.len() == k ==> exists|m: nat| m < two_pow(k) && #[trigger] selection_of(m, k) == s,
        forall|i: int| 0 <= i < k ==> !#[trigger] selection_of(0, k)[i],
{
    assert forall|m1: nat, m2: nat|
        m1 < two_pow(k) && m2 < two_pow(k) && m1 != m2 implies #[trigger] selection_of(m1, k)
        != #[trigger] selection_of(m2, k) by {
        lemma_selections_distinct(k, m1, m2);
    }
    assert forall|s: Seq<bool>| s.len() == k implies exists|m: nat|
        m < two_pow(k) && #[trigger] selection_of(m, k) == s by {
        lemma_mask_of(s);
    }
    assert forall|i: int| 0 <= i < k implies !#[trigger] selection_of(0, k)[i] by {
        lemma_two_pow_positive(i as nat);
        assert(0nat / two_pow(i as nat) == 0);
    }
}

/// Vertex 2^i is the centre plus basis vector i alone: its selection marks
/// basis vector i and no other.
pub proof fn lemma_single_vector_vertex(k: nat, i: nat)
    requires
        i < k,
    ensures
        two_pow(i) < two_pow(k),
        forall|j: int|
            0 <= j < k ==> #[trigger] selection_of(two_pow(i), k)[j] == (j == i),
{
    lemma_two_pow_positive(i);
    lemma_two_pow_monotonic(i + 1, k);
    assert(two_pow(i + 1) == 2 * two_pow(i));
    assert forall|j: int| 0 <= j < k implies #[trigger] selection_of(two_pow(i), k)[j] == (j
        == i) by {
        let jn = j as nat;
        lemma_two_pow_positive(jn);
        if jn == i {
            vstd::arithmetic::div_mod::lemma_div_by_self(two_pow(i) as int);
        } else if jn < i {
            let d = (i - jn) as nat;
            lemma_two_pow_adds(jn, d);
            lemma_two_pow_positive(d);
            assert(two_pow(i) == two_pow(jn) * two_pow(d));
            vstd::arithmetic::div_mod::lemma_div_multiples_vanish(two_pow(d) as int, two_pow(jn) as int);
            assert(two_pow(i) / two_pow(jn) == two_pow(d)) by {
                vstd::arithmetic::mul::lemma_mul_is_commutative(two_pow(jn) as int, two_pow(d) as int);
            }
            assert(two_pow(d) == 2 * two_pow((d - 1) as nat));
            assert(two_pow(d) % 2 == 0);
        } else {
            lemma_two_pow_monotonic(i + 1, jn);
            vstd::arithmetic::div_mod::lemma_basic_div(two_pow(i) as int, two_pow(jn) as int);
        }
    }
}

proof fn lemma_two_pow_adds(a: nat, b: nat)
    ensures
        two_pow(a + b) == two_pow(a) * two_pow(b),
    decreases b,
{
    if b == 0 {
        assert(two_pow(0) == 1);
        assert(a + b == a);
    } else {
        lemma_two_pow_adds(a, (b - 1) as nat);
        let x = two_pow(a) as int;
        let y = two_pow((b - 1) as nat) as int;
        assert(two_pow(a + b) == 2 * two_pow((a + b - 1) as nat));
        assert(two_pow((a + b - 1) as nat) == x * y);
        assert(two_pow(b) == 2 * y);
        assert(2 * (x * y) == x * (2 * y)) by (nonlinear_arith);
    }
}

} // verus!
