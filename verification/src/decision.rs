//! Canonical transformations of phase space: a 2n x 2n matrix with an
//! optional offset.  Applying, composing, inverting and validating them is
//! numerical and is done over this shape.  The exact group laws of the
//! matrices that preserve J (closure under products and inverses) are
//! proved here over exact entries.

use vstd::prelude::*;
use crate::phase_space::{
    canonical_matrix, identity_entry, identity_matrix, lemma_sum_single, lemma_sum_zero,
    mat_product, preserves_canonical_form, sum_to, transpose, PhasePoint,
};

verus! {

/// `rows` is a `size` x `size` matrix.
pub open spec fn is_square<T>(rows: Seq<Vec<T>>, size: int) -> bool {
    &&& rows.len() == size
    &&& forall|r: int| 0 <= r < size ==> (#[trigger] rows[r])@.len() == size
}

/// A square matrix has as many entries in each row as it has rows, so any
/// two of its rows have the same length.
pub proof fn lemma_square_rows<T>(rows: Seq<Vec<T>>, size: int)
    requires
        is_square(rows, size),
    ensures
        rows.len() == size,
        forall|r1: int, r2: int|
            0 <= r1 < rows.len() && 0 <= r2 < rows.len() ==> (#[trigger] rows[r1])@.len()
                == (#[trigger] rows[r2])@.len() && rows[r1]@.len() == rows.len(),
{
}

/// A canonical (symplectic) transformation of a 2n-dimensional phase
/// space: x ↦ M x (+ offset).  M is always 2n x 2n, and the offset, when
/// there is one, has n positions.
#[derive(Debug)]
pub struct CanonicalTransformation<T> {
    matrix: Vec<Vec<T>>,
    offset: Option<PhasePoint<T>>,
    dim: usize,
}

impl<T> CanonicalTransformation<T> {
    #[verifier::type_invariant]
    spec fn shape_ok(&self) -> bool {
        &&& is_square(self.matrix@, 2 * self.dim)
        &&& (self.offset matches Some(off) ==> off.q@.len() == self.dim)
    }

    /// The shape every transformation has: M is 2n x 2n, and the offset,
    /// if any, has n positions.
    pub open spec fn has_shape(&self) -> bool {
        &&& is_square(self.rows(), 2 * self.transform_dim() as int)
        &&& (self.offset_of() matches Some(off) ==> off.q@.len() == self.transform_dim())
    }

    /// The rows of the matrix M.
    pub closed spec fn rows(&self) -> Seq<Vec<T>> {
        self.matrix@
    }

    /// The offset added after M, if any.
    pub closed spec fn offset_of(&self) -> Option<PhasePoint<T>> {
        self.offset
    }

    /// The number n of degrees of freedom.
    pub closed spec fn transform_dim(&self) -> nat {
        self.dim as nat
    }

    /// Whether `matrix` is 2n x 2n for n = `dim`.
    pub fn fits(matrix: &Vec<Vec<T>>, dim: usize) -> (ok: bool)
        ensures
            ok == (2 * dim <= usize::MAX && is_square(matrix@, 2 * dim)),
            // Accepted: exactly 2n rows, each of exactly 2n entries.
            ok ==> matrix@.len() == 2 * dim,
            ok ==> forall|r: int| 0 <= r < matrix@.len() ==> (#[trigger] matrix@[r])@.len() == 2 * dim,
            // Rejected: 2n overflows, or the row count or some row length is not 2n.
            !ok ==> 2 * dim > usize::MAX || matrix@.len() != 2 * dim || exists|r: int|
                0 <= r < matrix@.len() && (#[trigger] matrix@[r])@.len() != 2 * dim,
    {
        if dim > usize::MAX / 2 {
            return false;
        }
        let size = 2 * dim;
        if matrix.len() != size {
            return false;
        }
        let mut r: usize = 0;
        while r < size
            invariant
                size == 2 * dim,
                size == matrix@.len(),
                r <= size,
                forall|i: int| 0 <= i < r ==> (#[trigger] matrix@[i])@.len() == size,
            decreases size - r,
        {
            if matrix[r].len() != size {
                return false;
            }
            r = r + 1;
        }
        true
    }

    /// The transformation with matrix `matrix` (2n x 2n for n = `dim`) and
    /// no offset.  Whether the matrix is symplectic is not checked here.
    pub fn new(matrix: Vec<Vec<T>>, dim: usize) -> (t: Self)
        requires
            is_square(matrix@, 2 * dim),
        ensures
            t.rows() == matrix@,
            t.offset_of() is None,
            t.transform_dim() == dim,
            t.has_shape(),
    {
        CanonicalTransformation { matrix, offset: None, dim }
    }

    /// The same transformation followed by a shift by `offset`, which must
    /// have the transformation's number of positions.
    pub fn with_offset(self, offset: PhasePoint<T>) -> (t: Self)
        requires
            offset.q@.len() == self.transform_dim(),
        ensures
            t.rows() == self.rows(),
            t.offset_of() == Some(offset),
            t.transform_dim() == self.transform_dim(),
            t.has_shape(),
    {
        proof {
            use_type_invariant(&self);
        }
        CanonicalTransformation { matrix: self.matrix, offset: Some(offset), dim: self.dim }
    }

    /// The matrix M.
    pub fn matrix(&self) -> (m: &Vec<Vec<T>>)
        ensures
            m@ == self.rows(),
            self.has_shape(),
            m@.len() == 2 * self.transform_dim(),
            forall|r: int| 0 <= r < m@.len() ==> (#[trigger] m@[r])@.len() == 2 * self.transform_dim(),
    {
        proof {
            use_type_invariant(self);
        }
        &self.matrix
    }

    /// The offset, if any.
    pub fn offset(&self) -> (o: &Option<PhasePoint<T>>)
        ensures
            *o == self.offset_of(),
            self.has_shape(),
    {
        proof {
            use_type_invariant(self);
        }
        &self.offset
    }

    /// The number n of degrees of freedom.
    pub fn dim(&self) -> (n: usize)
        ensures
            n == self.transform_dim(),
            self.has_shape(),
    {
        proof {
            use_type_invariant(self);
        }
        self.dim
    }
}

/// `b` is a clone of `a`: the same numbers of positions and momenta, each
/// coordinate of `b` a clone of the one of `a` in the same place.
pub open spec fn point_cloned<T: Clone>(a: PhasePoint<T>, b: PhasePoint<T>) -> bool {
    &&& b.q@.len() == a.q@.len()
    &&& b.p@.len() == a.p@.len()
    &&& forall|k: int| 0 <= k < a.q@.len() ==> cloned::<T>(a.q@[k], #[trigger] b.q@[k])
    &&& forall|k: int| 0 <= k < a.p@.len() ==> cloned::<T>(a.p@[k], #[trigger] b.p@[k])
}

impl<T: Clone> Clone for CanonicalTransformation<T> {
    /// A copy with the same dimension and shape, each matrix entry and
    /// offset coordinate a clone of the one in the same place.
    fn clone(&self) -> (t: Self)
        ensures
            t.transform_dim() == self.transform_dim(),
            t.rows().len() == self.rows().len(),
            forall|i: int|
                0 <= i < t.rows().len() ==> (#[trigger] t.rows()[i])@.len() == self.rows()[i]@.len(),
            forall|i: int, j: int|
                0 <= i < t.rows().len() && 0 <= j < t.rows()[i]@.len() ==> j < self.rows()[i]@.len()
                    && cloned::<T>(self.rows()[i]@[j], #[trigger] t.rows()[i]@[j]),
            match (self.offset_of(), t.offset_of()) {
                (Some(a), Some(b)) => point_cloned(a, b),
                (None, None) => true,
                _ => false,
            },
    {
        proof {
            use_type_invariant(self);
        }
        let size = self.matrix.len();
        let mut rows: Vec<Vec<T>> = Vec::new();
        for r in 0..size
            invariant
                size == self.matrix@.len(),
                size == 2 * self.dim,
                is_square(self.matrix@, 2 * self.dim),
                rows@.len() == r,
                forall|i: int| 0 <= i < r ==> (#[trigger] rows@[i])@.len() == size,
                forall|i: int, j: int|
                    0 <= i < r && 0 <= j < size ==> cloned::<T>(
                        self.matrix@[i]@[j],
                        #[trigger] rows@[i]@[j],
                    ),
        {
            let row = self.matrix[r].clone();
            rows.push(row);
            assert(rows@[r as int] == row);
        }
        let offset = match &self.offset {
            Some(off) => Some(PhasePoint { q: off.q.clone(), p: off.p.clone() }),
            None => None,
        };
        CanonicalTransformation { matrix: rows, offset, dim: self.dim }
    }
}

// ---------------------------------------------------------------------------
// The canonical transformations form a group.
// ---------------------------------------------------------------------------

/// `a` and `b` agree on the `size` x `size` entries.
pub open spec fn mat_eq(a: spec_fn(int, int) -> int, b: spec_fn(int, int) -> int, size: nat) -> bool {
    forall|r: int, c: int|
        #![trigger a(r, c)]
        #![trigger b(r, c)]
        0 <= r < size && 0 <= c < size ==> a(r, c) == b(r, c)
}

proof fn lemma_sum_congruent(f: spec_fn(int) -> int, g: spec_fn(int) -> int, m: nat)
    requires
        forall|k: int| 0 <= k < m ==> #[trigger] f(k) == g(k),
    ensures
        sum_to(f, m) == sum_to(g, m),
    decreases m,
{
    if m > 0 {
        lemma_sum_congruent(f, g, (m - 1) as nat);
    }
}

proof fn lemma_sum_add(f: spec_fn(int) -> int, g: spec_fn(int) -> int, h: spec_fn(int) -> int, m: nat)
    requires
        forall|k: int| 0 <= k < m ==> #[trigger] h(k) == f(k) + g(k),
    ensures
        sum_to(h, m) == sum_to(f, m) + sum_to(g, m),
    decreases m,
{
    if m > 0 {
        lemma_sum_add(f, g, h, (m - 1) as nat);
    }
}

proof fn lemma_sum_scale_right(f: spec_fn(int) -> int, g: spec_fn(int) -> int, x: int, m: nat)
    requires
        forall|k: int| 0 <= k < m ==> #[trigger] g(k) == f(k) * x,
    ensures
        sum_to(g, m) == sum_to(f, m) * x,
    decreases m,
{
    if m > 0 {
        lemma_sum_scale_right(f, g, x, (m - 1) as nat);
        vstd::arithmetic::mul::lemma_mul_is_distributive_add_other_way(
            x,
            sum_to(f, (m - 1) as nat),
            f(m - 1),
        );
    }
}

proof fn lemma_sum_scale_left(x: int, f: spec_fn(int) -> int, g: spec_fn(int) -> int, m: nat)
    requires
        forall|k: int| 0 <= k < m ==> #[trigger] g(k) == x * f(k),
    ensures
        sum_to(g, m) == x * sum_to(f, m),
    decreases m,
{
    if m > 0 {
        lemma_sum_scale_left(x, f, g, (m - 1) as nat);
        vstd::arithmetic::mul::lemma_mul_is_distributive_add(x, sum_to(f, (m - 1) as nat), f(m - 1));
    }
}

/// The two orders of summing a double sum agree.
proof fn lemma_sum_swap(h: spec_fn(int, int) -> int, m1: nat, m2: nat)
    ensures
        sum_to(|l: int| sum_to(|k: int| h(k, l), m1), m2) == sum_to(
            |k: int| sum_to(|l: int| h(k, l), m2),
            m1,
        ),
    decreases m1,
{
    if m1 == 0 {
        let zero = |l: int| sum_to(|k: int| h(k, l), 0);
        assert forall|l: int| 0 <= l < m2 implies #[trigger] zero(l) == 0 by {}
        lemma_sum_zero(zero, m2);
    } else {
        let m = (m1 - 1) as nat;
        lemma_sum_swap(h, m, m2);
        let inner_prev = |l: int| sum_to(|k: int| h(k, l), m);
        let last = |l: int| h(m as int, l);
        let inner = |l: int| sum_to(|k: int| h(k, l), m1);
        assert forall|l: int| 0 <= l < m2 implies #[trigger] inner(l) == inner_prev(l) + last(l) by {}
        lemma_sum_add(inner_prev, last, inner, m2);
    }
}

/// (A B) C = A (B C) on the `size` x `size` entries.
proof fn lemma_product_assoc(
    a: spec_fn(int, int) -> int,
    b: spec_fn(int, int) -> int,
    c: spec_fn(int, int) -> int,
    size: nat,
)
    ensures
        mat_eq(mat_product(mat_product(a, b, size), c, size), mat_product(a, mat_product(b, c, size), size), size),
{
    assert forall|r: int, col: int| 0 <= r < size && 0 <= col < size implies #[trigger] mat_product(
        mat_product(a, b, size),
        c,
        size,
    )(r, col) == mat_product(a, mat_product(b, c, size), size)(r, col) by {
        let h = |k: int, l: int| a(r, k) * b(k, l) * c(l, col);
        // Left side: sum over l of (sum over k of a b) c.
        let left = |l: int| mat_product(a, b, size)(r, l) * c(l, col);
        assert forall|l: int| 0 <= l < size implies #[trigger] left(l) == sum_to(
            |k: int| h(k, l),
            size,
        ) by {
            let ab = |k: int| a(r, k) * b(k, l);
            assert(left(l) == sum_to(ab, size) * c(l, col));
            lemma_sum_scale_right(ab, |k: int| h(k, l), c(l, col), size);
        }
        lemma_sum_congruent(left, |l: int| sum_to(|k: int| h(k, l), size), size);
        // Right side: sum over k of a (sum over l of b c).
        let right = |k: int| a(r, k) * mat_product(b, c, size)(k, col);
        assert forall|k: int| 0 <= k < size implies #[trigger] right(k) == sum_to(
            |l: int| h(k, l),
            size,
        ) by {
            let bc = |l: int| b(k, l) * c(l, col);
            let hk = |l: int| h(k, l);
            assert(right(k) == a(r, k) * sum_to(bc, size));
            assert forall|l: int| 0 <= l < size implies #[trigger] hk(l) == a(r, k) * bc(l) by {
                vstd::arithmetic::mul::lemma_mul_is_associative(a(r, k), b(k, l), c(l, col));
            }
            lemma_sum_scale_left(a(r, k), bc, hk, size);
        }
        lemma_sum_congruent(right, |k: int| sum_to(|l: int| h(k, l), size), size);
        lemma_sum_swap(h, size, size);
    }
}

/// (A B)^T = B^T A^T on the `size` x `size` entries.
proof fn lemma_transpose_product(a: spec_fn(int, int) -> int, b: spec_fn(int, int) -> int, size: nat)
    ensures
        mat_eq(transpose(mat_product(a, b, size)), mat_product(transpose(b), transpose(a), size), size),
{
    assert forall|r: int, c: int| 0 <= r < size && 0 <= c < size implies #[trigger] transpose(
        mat_product(a, b, size),
    )(r, c) == mat_product(transpose(b), transpose(a), size)(r, c) by {
        let f = |k: int| a(c, k) * b(k, r);
        let g = |k: int| transpose(b)(r, k) * transpose(a)(k, c);
        assert forall|k: int| 0 <= k < size implies #[trigger] f(k) == g(k) by {
            vstd::arithmetic::mul::lemma_mul_is_commutative(a(c, k), b(k, r));
        }
        lemma_sum_congruent(f, g, size);
    }
}

/// Products of matrices that agree entrywise agree entrywise.
proof fn lemma_product_congruent(
    a: spec_fn(int, int) -> int,
    a2: spec_fn(int, int) -> int,
    b: spec_fn(int, int) -> int,
    b2: spec_fn(int, int) -> int,
    size: nat,
)
    requires
        mat_eq(a, a2, size),
        mat_eq(b, b2, size),
    ensures
        mat_eq(mat_product(a, b, size), mat_product(a2, b2, size), size),
{
    assert forall|r: int, c: int| 0 <= r < size && 0 <= c < size implies #[trigger] mat_product(
        a,
        b,
        size,
    )(r, c) == mat_product(a2, b2, size)(r, c) by {
        let f = |k: int| a(r, k) * b(k, c);
        let g = |k: int| a2(r, k) * b2(k, c);
        assert forall|k: int| 0 <= k < size implies #[trigger] f(k) == g(k) by {
            assert(a(r, k) == a2(r, k));
            assert(b(k, c) == b2(k, c));
        }
        lemma_sum_congruent(f, g, size);
    }
}

/// Transposes of matrices that agree entrywise agree entrywise.
proof fn lemma_transpose_congruent(a: spec_fn(int, int) -> int, a2: spec_fn(int, int) -> int, size: nat)
    requires
        mat_eq(a, a2, size),
    ensures
        mat_eq(transpose(a), transpose(a2), size),
{
    assert forall|r: int, c: int| 0 <= r < size && 0 <= c < size implies #[trigger] transpose(a)(
        r,
        c,
    ) == transpose(a2)(r, c) by {
        assert(a(c, r) == a2(c, r));
    }
}

/// `preserves_canonical_form` as an entrywise equality.
proof fn lemma_preserves_as_eq(m: spec_fn(int, int) -> int, n: nat)
    ensures
        preserves_canonical_form(m, n) <==> mat_eq(
            mat_product(mat_product(transpose(m), canonical_matrix(n as int), 2 * n), m, 2 * n),
            canonical_matrix(n as int),
            2 * n,
        ),
{
}

/// The composition of two canonical transformations is canonical: if
/// A^T J A = J and B^T J B = J then (A B)^T J (A B) = J.
pub proof fn lemma_product_preserves_form(a: spec_fn(int, int) -> int, b: spec_fn(int, int) -> int, n: nat)
    requires
        preserves_canonical_form(a, n),
        preserves_canonical_form(b, n),
    ensures
        preserves_canonical_form(mat_product(a, b, 2 * n), n),
{
    let s = 2 * n;
    let j = canonical_matrix(n as int);
    let p = mat_product(a, b, s);
    let at = transpose(a);
    let bt = transpose(b);
    let y = mat_product(at, j, s);
    lemma_preserves_as_eq(a, n);
    lemma_preserves_as_eq(b, n);
    lemma_preserves_as_eq(p, n);
    // P^T = B^T A^T.
    lemma_transpose_product(a, b, s);
    // P^T J = B^T (A^T J).
    lemma_product_congruent(transpose(p), mat_product(bt, at, s), j, j, s);
    lemma_product_assoc(bt, at, j, s);
    // (B^T Y) P = B^T (Y P).
    lemma_product_congruent(
        mat_product(transpose(p), j, s),
        mat_product(bt, y, s),
        p,
        p,
        s,
    );
    lemma_product_assoc(bt, y, p, s);
    // Y (A B) = (Y A) B = J B.
    lemma_product_assoc(y, a, b, s);
    lemma_product_congruent(mat_product(y, a, s), j, b, b, s);
    lemma_product_congruent(bt, bt, mat_product(y, p, s), mat_product(j, b, s), s);
    // B^T (J B) = (B^T J) B = J.
    lemma_product_assoc(bt, j, b, s);
}

/// Products with the identity leave a matrix unchanged.
proof fn lemma_identity_products(m: spec_fn(int, int) -> int, size: nat)
    ensures
        mat_eq(mat_product(identity_matrix(), m, size), m, size),
        mat_eq(mat_product(m, identity_matrix(), size), m, size),
        mat_eq(transpose(identity_matrix()), identity_matrix(), size),
{
    let id = identity_matrix();
    assert forall|r: int, c: int| 0 <= r < size && 0 <= c < size implies #[trigger] mat_product(
        id,
        m,
        size,
    )(r, c) == m(r, c) by {
        let f = |k: int| id(r, k) * m(k, c);
        assert forall|k: int| 0 <= k < size && k != r implies #[trigger] f(k) == 0 by {}
        lemma_sum_single(f, size, r);
    }
    assert forall|r: int, c: int| 0 <= r < size && 0 <= c < size implies #[trigger] mat_product(
        m,
        id,
        size,
    )(r, c) == m(r, c) by {
        let f = |k: int| m(r, k) * id(k, c);
        assert forall|k: int| 0 <= k < size && k != c implies #[trigger] f(k) == 0 by {}
        lemma_sum_single(f, size, c);
    }
    assert forall|r: int, c: int| 0 <= r < size && 0 <= c < size implies #[trigger] transpose(id)(
        r,
        c,
    ) == id(r, c) by {
        assert(identity_entry(c, r) == identity_entry(r, c));
    }
}

/// The inverse of a canonical transformation is canonical: if
/// M^T J M = J and M N = I then N^T J N = J.
pub proof fn lemma_inverse_preserves_form(m: spec_fn(int, int) -> int, inv: spec_fn(int, int) -> int, n: nat)
    requires
        preserves_canonical_form(m, n),
        mat_eq(mat_product(m, inv, 2 * n), identity_matrix(), 2 * n),
    ensures
        preserves_canonical_form(inv, n),
{
    let s = 2 * n;
    let j = canonical_matrix(n as int);
    let id = identity_matrix();
    let mt = transpose(m);
    let nt = transpose(inv);
    let q = mat_product(m, inv, s);
    let y = mat_product(mt, j, s);
    lemma_preserves_as_eq(m, n);
    lemma_preserves_as_eq(inv, n);
    // J = (M^T J) M, so N^T J = N^T (Y M) = (N^T Y) M ... regrouped below.
    assert(mat_eq(j, mat_product(y, m, s), s));
    lemma_product_congruent(nt, nt, j, mat_product(y, m, s), s);
    // N^T (Y M) = (N^T Y) M, and N^T Y = (N^T M^T) J.
    lemma_product_assoc(nt, y, m, s);
    lemma_product_assoc(nt, mt, j, s);
    // N^T M^T = (M N)^T = I^T = I.
    lemma_transpose_product(m, inv, s);
    lemma_transpose_congruent(q, id, s);
    lemma_identity_products(j, s);
    lemma_identity_products(m, s);
    let ntmt = mat_product(nt, mt, s);
    assert(mat_eq(ntmt, id, s));
    lemma_product_congruent(ntmt, id, j, j, s);
    // So N^T J = J M up to grouping; then (N^T J) N = J (M N) = J.
    lemma_product_congruent(mat_product(nt, y, s), j, m, m, s);
    let ntj = mat_product(nt, j, s);
    assert(mat_eq(ntj, mat_product(j, m, s), s));
    lemma_product_congruent(ntj, mat_product(j, m, s), inv, inv, s);
    lemma_product_assoc(j, m, inv, s);
    lemma_product_congruent(j, j, q, id, s);
    lemma_identity_products(j, s);
}

} // verus!
