//! Agent phase space: points (q, p) with beliefs q and action tendencies p,
//! their flat [q; p] layout, and the canonical symplectic form
//! J = [[0, I], [-I, 0]].
//!
//! The coordinates of a point are kept generic: the layout of a point does
//! not depend on what kind of number its coordinates are.  The entries of
//! the canonical form are the exact integers -1, 0 and 1.

use vstd::prelude::*;

verus! {

/// A point in the agent's phase space: positions `q` (beliefs) and
/// momenta `p` (action tendencies).
#[derive(Debug, Clone)]
pub struct PhasePoint<T> {
    /// Belief positions (generalized coordinates).
    pub q: Vec<T>,
    /// Action momenta (generalized momenta).
    pub p: Vec<T>,
}

impl<T> PhasePoint<T> {
    /// Positions and momenta have the same number of components.
    pub open spec fn well_formed(&self) -> bool {
        self.q@.len() == self.p@.len()
    }

    /// The flat vector [q; p] of this point.
    pub open spec fn flat(&self) -> Seq<T> {
        self.q@ + self.p@
    }
}

impl<T: Copy> PhasePoint<T> {
    /// A point from its positions and momenta, which must have the same
    /// dimension.
    pub fn new(q: Vec<T>, p: Vec<T>) -> (pt: Self)
        requires
            q@.len() == p@.len(),
        ensures
            pt.q@ == q@,
            pt.p@ == p@,
            pt.well_formed(),
    {
        PhasePoint { q, p }
    }

    /// Degrees of freedom: the number of position components.
    pub fn dim(&self) -> (n: usize)
        ensures
            n == self.q@.len(),
    {
        self.q.len()
    }

    /// Dimension of the whole phase space, 2n for n degrees of freedom.
    pub fn total_dim(&self) -> (n: usize)
        requires
            2 * self.q@.len() <= usize::MAX,
        ensures
            n == 2 * self.q@.len(),
    {
        2 * self.q.len()
    }

    /// The point as one vector: positions first, then momenta.
    pub fn to_vector(&self) -> (v: Vec<T>)
        requires
            self.well_formed(),
        ensures
            v@ == self.flat(),
    {
        let n = self.q.len();
        let mut v: Vec<T> = Vec::new();
        for i in 0..n
            invariant
                n == self.q@.len(),
                v@ == self.q@.subrange(0, i as int),
        {
            v.push(self.q[i]);
        }
        assert(self.q@.subrange(0, n as int) =~= self.q@);
        for j in 0..n
            invariant
                n == self.q@.len(),
                n == self.p@.len(),
                v@ == self.q@ + self.p@.subrange(0, j as int),
        {
            v.push(self.p[j]);
            assert(self.q@ + self.p@.subrange(0, j + 1) =~= (self.q@ + self.p@.subrange(
                0,
                j as int,
            )).push(self.p@[j as int]));
        }
        assert(self.p@.subrange(0, n as int) =~= self.p@);
        v
    }

    /// The point whose positions are the first `dim` entries of `v` and
    /// whose momenta are the `dim` entries after them.
    pub fn from_vector(v: &Vec<T>, dim: usize) -> (pt: Self)
        requires
            2 * dim <= v@.len(),
        ensures
            pt.q@ == v@.subrange(0, dim as int),
            pt.p@ == v@.subrange(dim as int, 2 * dim as int),
            pt.well_formed(),
    {
        let len = v.len();
        let mut q: Vec<T> = Vec::new();
        let mut p: Vec<T> = Vec::new();
        for i in 0..dim
            invariant
                len == v@.len(),
                2 * dim <= v@.len(),
                q@ == v@.subrange(0, i as int),
                p@ == v@.subrange(dim as int, dim + i),
        {
            q.push(v[i]);
            p.push(v[dim + i]);
            assert(v@.subrange(0, i + 1) =~= v@.subrange(0, i as int).push(v@[i as int]));
            assert(v@.subrange(dim as int, dim + i + 1) =~= v@.subrange(dim as int, dim + i).push(
                v@[dim + i],
            ));
        }
        PhasePoint { q, p }
    }
}

impl<T: Copy + Default> PhasePoint<T> {
    /// The point of dimension `dim` whose coordinates are all the default
    /// value of `T` (zero for numbers).
    pub fn zeros(dim: usize) -> (pt: Self)
        ensures
            pt.q@.len() == dim,
            pt.p@ == pt.q@,
            forall|i: int| 0 <= i < dim ==> call_ensures(T::default, (), #[trigger] pt.q@[i]),
    {
        let z = T::default();
        let mut q: Vec<T> = Vec::new();
        let mut p: Vec<T> = Vec::new();
        for i in 0..dim
            invariant
                q@.len() == i,
                p@ == q@,
                call_ensures(T::default, (), z),
                forall|j: int| 0 <= j < i ==> #[trigger] q@[j] == z,
        {
            q.push(z);
            p.push(z);
        }
        PhasePoint { q, p }
    }
}

/// Flattening a point to [q; p] and splitting the result at the point's
/// dimension gives the point back: `from_vector(&pt.to_vector(), pt.dim())`
/// has the positions and momenta of `pt`, and the flat vector has
/// `total_dim()` entries.
pub proof fn lemma_flatten_then_split<T>(pt: PhasePoint<T>)
    requires
        pt.well_formed(),
    ensures
        pt.flat().len() == 2 * pt.q@.len(),
        pt.flat().subrange(0, pt.q@.len() as int) == pt.q@,
        pt.flat().subrange(pt.q@.len() as int, 2 * pt.q@.len() as int) == pt.p@,
{
    assert(pt.flat().subrange(0, pt.q@.len() as int) =~= pt.q@);
    assert(pt.flat().subrange(pt.q@.len() as int, 2 * pt.q@.len() as int) =~= pt.p@);
}

/// Splitting a vector of 2n entries at n and flattening the resulting
/// point gives the vector back.
pub proof fn lemma_split_then_flatten<T>(v: Seq<T>, dim: nat)
    requires
        v.len() == 2 * dim,
    ensures
        v.subrange(0, dim as int) + v.subrange(dim as int, 2 * dim as int) == v,
{
    assert(v.subrange(0, dim as int) + v.subrange(dim as int, 2 * dim as int) =~= v);
}

/// Entry (r, c) of the canonical symplectic matrix J = [[0, I], [-I, 0]]
/// for `n` degrees of freedom.
pub open spec fn canonical_entry(n: int, r: int, c: int) -> int {
    if 0 <= r < n && c == r + n {
        1
    } else if n <= r < 2 * n && c == r - n {
        -1
    } else {
        0
    }
}

/// `rows` is the 2n x 2n canonical symplectic matrix.
pub open spec fn is_canonical_matrix(rows: Seq<Vec<i8>>, n: int) -> bool {
    &&& rows.len() == 2 * n
    &&& forall|r: int| 0 <= r < 2 * n ==> (#[trigger] rows[r])@.len() == 2 * n
    &&& forall|r: int, c: int|
        0 <= r < 2 * n && 0 <= c < 2 * n ==> (#[trigger] rows[r]@[c]) as int == canonical_entry(
            n,
            r,
            c,
        )
}

/// The symplectic form ω of a 2n-dimensional phase space, held as the
/// canonical matrix J = [[0, I], [-I, 0]].
#[derive(Debug)]
pub struct SymplecticForm {
    dim: usize,
    matrix: Vec<Vec<i8>>,
}

impl SymplecticForm {
    #[verifier::type_invariant]
    spec fn inv(&self) -> bool {
        &&& 2 * self.dim <= usize::MAX
        &&& is_canonical_matrix(self.matrix@, self.dim as int)
    }

    /// The number n of degrees of freedom of this form.
    pub closed spec fn form_dim(&self) -> nat {
        self.dim as nat
    }

    /// The canonical form for `dim` degrees of freedom.
    pub fn canonical(dim: usize) -> (form: Self)
        requires
            2 * dim <= usize::MAX,
        ensures
            form.form_dim() == dim,
    {
        let n = dim;
        let size = 2 * n;
        let mut mat: Vec<Vec<i8>> = Vec::new();
        for r in 0..size
            invariant
                size == 2 * n,
                mat@.len() == r,
                forall|i: int| 0 <= i < r ==> (#[trigger] mat@[i])@.len() == size,
                forall|i: int, c: int|
                    0 <= i < r && 0 <= c < size ==> (#[trigger] mat@[i]@[c]) as int
                        == canonical_entry(n as int, i, c),
        {
            let mut row: Vec<i8> = Vec::new();
            for c in 0..size
                invariant
                    size == 2 * n,
                    r < size,
                    row@.len() == c,
                    forall|j: int|
                        0 <= j < c ==> (#[trigger] row@[j]) as int == canonical_entry(
                            n as int,
                            r as int,
                            j,
                        ),
            {
                // Top-right block I_n, bottom-left block -I_n.
                let entry: i8 = if r < n && c == r + n {
                    1
                } else if r >= n && c == r - n {
                    -1
                } else {
                    0
                };
                row.push(entry);
            }
            mat.push(row);
        }
        SymplecticForm { dim: n, matrix: mat }
    }

    /// The number n of degrees of freedom.
    pub fn dim(&self) -> (n: usize)
        ensures
            n == self.form_dim(),
    {
        self.dim
    }

    /// The matrix J: 2n rows of 2n entries, entry (r, c) being
    /// `canonical_entry(n, r, c)`.
    pub fn matrix(&self) -> (m: &Vec<Vec<i8>>)
        ensures
            2 * self.form_dim() <= usize::MAX,
            is_canonical_matrix(m@, self.form_dim() as int),
            m@.len() == 2 * self.form_dim(),
            forall|r: int| 0 <= r < m@.len() ==> (#[trigger] m@[r])@.len() == m@.len(),
            // The top-right block is I_n and the bottom-left block is -I_n ...
            forall|i: int|
                0 <= i < self.form_dim() ==> #[trigger] m@[i]@[i + self.form_dim()] == 1 && m@[i
                    + self.form_dim()]@[i] == -1,
            // ... and every other entry is zero.
            forall|r: int, c: int|
                0 <= r < m@.len() && 0 <= c < m@.len() && c != r + self.form_dim() && r != c
                    + self.form_dim() ==> #[trigger] m@[r]@[c] == 0,
    {
        proof {
            use_type_invariant(self);
            lemma_canonical_blocks(self.dim as int);
        }
        &self.matrix
    }
}

impl Clone for SymplecticForm {
    fn clone(&self) -> (form: Self)
        ensures
            form.form_dim() == self.form_dim(),
    {
        proof {
            use_type_invariant(self);
        }
        SymplecticForm::canonical(self.dim)
    }
}

/// The agent's phase space: n degrees of freedom with the symplectic form ω.
#[derive(Debug, Clone)]
pub struct PhaseSpace {
    /// Number of degrees of freedom.
    pub dim: usize,
    /// The symplectic form.
    pub omega: SymplecticForm,
}

impl PhaseSpace {
    /// The phase space with `dim` degrees of freedom and its canonical form.
    pub fn new(dim: usize) -> (ps: Self)
        requires
            2 * dim <= usize::MAX,
        ensures
            ps.dim == dim,
            ps.omega.form_dim() == dim,
    {
        PhaseSpace { dim, omega: SymplecticForm::canonical(dim) }
    }

    /// The origin of this space: the point with all coordinates zero.
    pub fn origin<T: Copy + Default>(&self) -> (pt: PhasePoint<T>)
        ensures
            pt.q@.len() == self.dim,
            pt.p@ == pt.q@,
            forall|i: int| 0 <= i < self.dim ==> call_ensures(T::default, (), #[trigger] pt.q@[i]),
    {
        PhasePoint::zeros(self.dim)
    }
}

// ---------------------------------------------------------------------------
// Matrix algebra over the exact entries, and the laws of the canonical form.
// ---------------------------------------------------------------------------

/// Sum of `f(k)` for `0 <= k < m`.
pub open spec fn sum_to(f: spec_fn(int) -> int, m: nat) -> int
    decreases m,
{
    if m == 0 {
        0
    } else {
        sum_to(f, (m - 1) as nat) + f(m - 1)
    }
}

/// The canonical matrix J for `n` degrees of freedom, as a function of
/// (row, column).
pub open spec fn canonical_matrix(n: int) -> spec_fn(int, int) -> int {
    |r: int, c: int| canonical_entry(n, r, c)
}

/// Entry (r, c) of the identity matrix.
pub open spec fn identity_entry(r: int, c: int) -> int {
    if r == c {
        1
    } else {
        0
    }
}

/// The identity matrix as a function of (row, column).
pub open spec fn identity_matrix() -> spec_fn(int, int) -> int {
    |r: int, c: int| identity_entry(r, c)
}

/// The transpose of `a`.
pub open spec fn transpose(a: spec_fn(int, int) -> int) -> spec_fn(int, int) -> int {
    |r: int, c: int| a(c, r)
}

/// The product of two `size` x `size` matrices.
pub open spec fn mat_product(
    a: spec_fn(int, int) -> int,
    b: spec_fn(int, int) -> int,
    size: nat,
) -> spec_fn(int, int) -> int {
    |r: int, c: int| sum_to(|k: int| a(r, k) * b(k, c), size)
}

/// `m` preserves the canonical form of `n` degrees of freedom:
/// M^T J M = J on the 2n x 2n entries.
pub open spec fn preserves_canonical_form(m: spec_fn(int, int) -> int, n: nat) -> bool {
    forall|r: int, c: int|
        0 <= r < 2 * n && 0 <= c < 2 * n ==> #[trigger] mat_product(
            mat_product(transpose(m), canonical_matrix(n as int), 2 * n),
            m,
            2 * n,
        )(r, c) == canonical_entry(n as int, r, c)
}

/// The index paired with `r` by J: r + n in the top half, r - n in the
/// bottom half.
pub open spec fn partner(n: int, r: int) -> int {
    if r < n {
        r + n
    } else {
        r - n
    }
}

pub(crate) proof fn lemma_sum_zero(f: spec_fn(int) -> int, m: nat)
    requires
        forall|k: int| 0 <= k < m ==> #[trigger] f(k) == 0,
    ensures
        sum_to(f, m) == 0,
    decreases m,
{
    if m > 0 {
        lemma_sum_zero(f, (m - 1) as nat);
    }
}

pub(crate) proof fn lemma_sum_single(f: spec_fn(int) -> int, m: nat, k0: int)
    requires
        0 <= k0 < m,
        forall|k: int| 0 <= k < m && k != k0 ==> #[trigger] f(k) == 0,
    ensures
        sum_to(f, m) == f(k0),
    decreases m,
{
    if m - 1 == k0 {
        lemma_sum_zero(f, (m - 1) as nat);
    } else {
        lemma_sum_single(f, (m - 1) as nat, k0);
    }
}

/// In each row and in each column of J exactly one entry is non-zero: the
/// one at the partner index.
proof fn lemma_canonical_single_entry(n: int, r: int, k: int)
    requires
        0 <= r < 2 * n,
        k != partner(n, r),
    ensures
        canonical_entry(n, r, k) == 0,
        canonical_entry(n, k, r) == 0,
{
}

/// J = [[0, I], [-I, 0]]: for each degree of freedom i < n, entry
/// (i, i + n) is 1 and entry (i + n, i) is -1, and every other entry of the
/// 2n x 2n matrix is 0.
pub proof fn lemma_canonical_blocks(n: int)
    ensures
        forall|i: int|
            0 <= i < n ==> #[trigger] canonical_entry(n, i, i + n) == 1 && canonical_entry(
                n,
                i + n,
                i,
            ) == -1,
        forall|r: int, c: int|
            0 <= r < 2 * n && 0 <= c < 2 * n && c != r + n && r != c + n ==> #[trigger] canonical_entry(
                n,
                r,
                c,
            ) == 0,
{
}

/// J is antisymmetric: J^T = -J.
pub proof fn lemma_canonical_antisymmetric(n: int)
    ensures
        forall|r: int, c: int| #[trigger]
            canonical_entry(n, r, c) == -canonical_entry(n, c, r),
{
}

/// J squared is minus the identity: J J = -I.
pub proof fn lemma_canonical_square_is_minus_identity(n: nat)
    ensures
        forall|r: int, c: int|
            0 <= r < 2 * n && 0 <= c < 2 * n ==> #[trigger] mat_product(
                canonical_matrix(n as int),
                canonical_matrix(n as int),
                2 * n,
            )(r, c) == -identity_entry(r, c),
{
    let j = canonical_matrix(n as int);
    assert forall|r: int, c: int|
        0 <= r < 2 * n && 0 <= c < 2 * n implies #[trigger] mat_product(j, j, 2 * n)(r, c)
        == -identity_entry(r, c) by {
        let f = |k: int| j(r, k) * j(k, c);
        let k0 = partner(n as int, r);
        assert forall|k: int| 0 <= k < 2 * n && k != k0 implies #[trigger] f(k) == 0 by {
            lemma_canonical_single_entry(n as int, r, k);
        }
        lemma_sum_single(f, 2 * n, k0);
    }
}

/// J is orthogonal, J^T J = I, so the form is non-degenerate and J has the
/// inverse J^T = -J.
pub proof fn lemma_canonical_transpose_product(n: nat)
    ensures
        forall|r: int, c: int|
            0 <= r < 2 * n && 0 <= c < 2 * n ==> #[trigger] mat_product(
                transpose(canonical_matrix(n as int)),
                canonical_matrix(n as int),
                2 * n,
            )(r, c) == identity_entry(r, c),
{
    let j = canonical_matrix(n as int);
    assert forall|r: int, c: int|
        0 <= r < 2 * n && 0 <= c < 2 * n implies #[trigger] mat_product(transpose(j), j, 2 * n)(
        r,
        c,
    ) == identity_entry(r, c) by {
        let f = |k: int| transpose(j)(r, k) * j(k, c);
        let k0 = partner(n as int, r);
        assert forall|k: int| 0 <= k < 2 * n && k != k0 implies #[trigger] f(k) == 0 by {
            lemma_canonical_single_entry(n as int, r, k);
        }
        lemma_sum_single(f, 2 * n, k0);
    }
}

/// J is itself a canonical transformation: J^T J J = J.
pub proof fn lemma_canonical_is_symplectic(n: nat)
    ensures
        preserves_canonical_form(canonical_matrix(n as int), n),
{
    let j = canonical_matrix(n as int);
    let jtj = mat_product(transpose(j), j, 2 * n);
    lemma_canonical_transpose_product(n);
    assert forall|r: int, c: int| 0 <= r < 2 * n && 0 <= c < 2 * n implies #[trigger] mat_product(
        jtj,
        j,
        2 * n,
    )(r, c) == canonical_entry(n as int, r, c) by {
        let f = |l: int| jtj(r, l) * j(l, c);
        assert forall|l: int| 0 <= l < 2 * n && l != r implies #[trigger] f(l) == 0 by {
            assert(jtj(r, l) == identity_entry(r, l));
        }
        assert(jtj(r, r) == 1);
        lemma_sum_single(f, 2 * n, r);
    }
}

/// The identity is a canonical transformation: I^T J I = J.
pub proof fn lemma_identity_is_symplectic(n: nat)
    ensures
        preserves_canonical_form(identity_matrix(), n),
{
    let j = canonical_matrix(n as int);
    let id = identity_matrix();
    let itj = mat_product(transpose(id), j, 2 * n);
    assert forall|r: int, l: int| 0 <= r < 2 * n && 0 <= l < 2 * n implies #[trigger] itj(r, l)
        == canonical_entry(n as int, r, l) by {
        let f = |k: int| transpose(id)(r, k) * j(k, l);
        assert forall|k: int| 0 <= k < 2 * n && k != r implies #[trigger] f(k) == 0 by {}
        lemma_sum_single(f, 2 * n, r);
    }
    assert forall|r: int, c: int| 0 <= r < 2 * n && 0 <= c < 2 * n implies #[trigger] mat_product(
        itj,
        id,
        2 * n,
    )(r, c) == canonical_entry(n as int, r, c) by {
        let f = |l: int| itj(r, l) * id(l, c);
        assert forall|l: int| 0 <= l < 2 * n && l != c implies #[trigger] f(l) == 0 by {}
        assert(itj(r, c) == canonical_entry(n as int, r, c));
        lemma_sum_single(f, 2 * n, c);
    }
}

} // verus!
