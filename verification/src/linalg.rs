//! The array side of linear algebra: which shapes the matrix routines
//! accept, the row-major data they work on, the shapes of their results,
//! and the result holders of the decompositions.
use vstd::prelude::*;
use vstd::slice::{slice_subrange, slice_to_vec};
use crate::array::{
    array_elems, array_shape, lemma_flat_2d, matrix_at, nd_from_parts, well_formed, NDArrayF64,
};
use crate::broadcast::{broadcast_result, broadcast_shape, broadcastable, stretches_to};
use crate::elementwise::{bcast_elem, broadcast_view};
use crate::reduce::nz;
use crate::shape::{
    flat_index, lemma_nonzero_size_pos, lemma_nonzero_size_prefix_monotone, nonzero_size, shape_fits,
    shape_size, size_of_shape_checked, unravel,
};

verus! {

/// The element count and the non-zero product of an `n`-by-`m` shape.
proof fn lemma_size_2d(n: usize, m: usize)
    ensures
        shape_size(seq![n, m]) == n * m,
        nonzero_size(seq![n, m]) == (if n == 0 {
            1
        } else {
            n as nat
        }) * (if m == 0 {
            1
        } else {
            m as nat
        }),
{
    let s = seq![n, m];
    let s1 = seq![n];
    let e = Seq::<usize>::empty();
    assert(s.drop_last() =~= s1);
    assert(s1.drop_last() =~= e);
    assert(shape_size(e) == 1);
    assert(nonzero_size(e) == 1);
    assert(shape_size(s1) == shape_size(e) * (n as nat));
    assert(shape_size(s1) == n);
    assert(nonzero_size(s1) == nonzero_size(e) * (if n == 0 { 1nat } else { n as nat }));
    assert(shape_size(s) == shape_size(s1) * (m as nat));
    assert(nonzero_size(s) == nonzero_size(s1) * (if m == 0 { 1nat } else { m as nat }));
}

/// The rows, the columns and the row-major elements of a two-dimensional
/// array; `None` for any other number of axes.
pub fn matrix_parts(a: &NDArrayF64) -> (r: Option<(usize, usize, Vec<u64>)>)
    ensures
        r is Some <==> array_shape(*a).len() == 2,
        r matches Some((rows, cols, data)) ==> {
            &&& array_shape(*a) == seq![rows, cols]
            &&& data@ == array_elems(*a)
            &&& data@.len() == rows * cols
        },
{
    let s = a.shape();
    if s.len() != 2 {
        return None;
    }
    let rows = s[0];
    let cols = s[1];
    proof {
        assert(s@ =~= seq![rows, cols]);
        lemma_size_2d(rows, cols);
    }
    Some((rows, cols, a.to_vec()))
}

/// The side and the row-major elements of a square matrix; `None` unless the
/// array has two axes of equal length.
pub fn square_matrix_parts(a: &NDArrayF64) -> (r: Option<(usize, Vec<u64>)>)
    ensures
        r is Some <==> (array_shape(*a).len() == 2 && array_shape(*a)[0] == array_shape(*a)[1]),
        r matches Some((n, data)) ==> {
            &&& array_shape(*a) == seq![n, n]
            &&& data@ == array_elems(*a)
        },
{
    match matrix_parts(a) {
        Some((rows, cols, data)) => {
            if rows != cols {
                return None;
            }
            Some((rows, data))
        },
        None => None,
    }
}

/// The elements of a one-dimensional array; `None` for any other number of
/// axes.
pub fn vector_parts(a: &NDArrayF64) -> (r: Option<Vec<u64>>)
    ensures
        r is Some <==> array_shape(*a).len() == 1,
        r matches Some(data) ==> (data@ == array_elems(*a) && array_shape(*a) == seq![
            data@.len() as usize,
        ] && data@.len() <= isize::MAX),
{
    let s = a.shape();
    if s.len() != 1 {
        return None;
    }
    proof {
        crate::shape::lemma_fits_size(s@);
        assert(s@ =~= seq![s@[0]]);
        assert(s@.drop_last() =~= Seq::<usize>::empty());
        assert(shape_size(Seq::<usize>::empty()) == 1);
        let e = shape_size(Seq::<usize>::empty());
        assert(shape_size(s@) == e * s@[0]);
        assert(shape_size(s@) == s@[0]) by (nonlinear_arith)
            requires
                shape_size(s@) == e * s@[0],
                e == 1,
        ;
    }
    let data = a.to_vec();
    assert(data@.len() == s@[0]);
    Some(data)
}

/// The `rows`-by-`cols` array whose element `[i, j]` is `col_major[i + j * rows]`
/// (the column-major storage of a matrix).
pub fn dmatrix_to_nd(rows: usize, cols: usize, col_major: &[u64]) -> (r: NDArrayF64)
    requires
        col_major@.len() == rows * cols,
        shape_fits(seq![rows, cols]),
    ensures
        array_shape(r) == seq![rows, cols],
        well_formed(r),
        forall|i: usize, j: usize|
            i < rows && j < cols ==> #[trigger] matrix_at(r, i, j) == col_major@[i + j * rows],
{
    let mut flat: Vec<u64> = Vec::new();
    let mut i: usize = 0;
    proof {
        lemma_size_2d(rows, cols);
        crate::shape::lemma_fits_size(seq![rows, cols]);
    }
    while i < rows
        invariant
            col_major@.len() == rows * cols,
            rows * cols <= isize::MAX,
            i <= rows,
            flat@.len() == i * cols,
            forall|a: int, b: int|
                0 <= a < i && 0 <= b < cols ==> #[trigger] flat@[a * cols + b] == col_major@[a + b
                    * rows],
        decreases rows - i,
    {
        let ghost prev = flat@;
        let mut j: usize = 0;
        assert(i * cols + cols <= rows * cols) by (nonlinear_arith)
            requires
                i < rows,
        ;
        while j < cols
            invariant
                col_major@.len() == rows * cols,
                rows * cols <= isize::MAX,
                i < rows,
                prev.len() == i * cols,
                i * cols + cols <= rows * cols,
                j <= cols,
                flat@.len() == prev.len() + j,
                forall|p: int| 0 <= p < prev.len() ==> #[trigger] flat@[p] == prev[p],
                forall|b: int| 0 <= b < j ==> #[trigger] flat@[prev.len() + b] == col_major@[i + b * rows],
            decreases cols - j,
        {
            assert(i + j * rows < rows * cols) by (nonlinear_arith)
                requires
                    i < rows,
                    j < cols,
            ;
            flat.push(col_major[i + j * rows]);
            j = j + 1;
        }
        proof {
            assert forall|a: int, b: int| 0 <= a < i + 1 && 0 <= b < cols implies #[trigger] flat@[a
                * cols + b] == col_major@[a + b * rows] by {
                if a == i {
                    assert(flat@[prev.len() + b] == col_major@[i + b * rows]);
                } else {
                    assert(a * cols + b < i * cols) by (nonlinear_arith)
                        requires
                            a < i,
                            b < cols,
                    ;
                    assert(flat@[a * cols + b] == prev[a * cols + b]);
                }
            }
        }
        i = i + 1;
        assert(flat@.len() == i * cols) by (nonlinear_arith)
            requires
                flat@.len() == (i - 1) * cols + cols,
        ;
    }
    let mut shape: Vec<usize> = Vec::new();
    shape.push(rows);
    shape.push(cols);
    assert(shape@ =~= seq![rows, cols]);
    let r = nd_from_parts(&shape, flat);
    proof {
        assert forall|i: usize, j: usize| i < rows && j < cols implies #[trigger] matrix_at(r, i, j)
            == col_major@[i + j * rows] by {
            lemma_flat_2d(rows, cols, i, j);
        }
    }
    r
}

/// The one-dimensional array holding `v`.
pub fn dvector_to_nd(v: Vec<u64>) -> (r: NDArrayF64)
    requires
        v@.len() <= isize::MAX,
    ensures
        array_shape(r) == seq![v@.len() as usize],
        array_elems(r) == v@,
{
    NDArrayF64::from_vec(v)
}

/// How `matmul` combines its operands, by their numbers of axes, with the
/// inner dimensions checked. Operands with more than two axes are stacks of
/// matrices over their leading axes.
#[derive(Debug, Clone, Copy, PartialEq, Eq)]
pub enum MatmulPlan {
    /// `m`-by-`k` times `k`-by-`n`: an `m`-by-`n` matrix.
    MatMat { m: usize, k: usize, n: usize },
    /// `m`-by-`k` times a vector of `k`: a vector of `m`.
    MatVec { m: usize, k: usize },
    /// A vector of `k` times `k`-by-`n`: a vector of `n`.
    VecMat { k: usize, n: usize },
    /// Two vectors of `k`: a scalar (shape `[]`).
    VecVec { k: usize },
    /// Stacks of `m`-by-`k` and `k`-by-`n` matrices whose leading axes
    /// broadcast together: one `m`-by-`n` product per leading index.
    Batched { m: usize, k: usize, n: usize },
}

/// The leading axes of a stack of matrices (all but the last two).
pub open spec fn lead(s: Seq<usize>) -> Seq<usize> {
    s.subrange(0, s.len() - 2)
}

/// The plan for multiplying arrays of shapes `a` and `b`, if any.
pub open spec fn spec_matmul_plan(a: Seq<usize>, b: Seq<usize>) -> Option<MatmulPlan> {
    if a.len() >= 2 && b.len() >= 2 && (a.len() > 2 || b.len() > 2) {
        if a[a.len() - 1] == b[b.len() - 2] && broadcastable(lead(a), lead(b)) {
            Some(MatmulPlan::Batched { m: a[a.len() - 2], k: a[a.len() - 1], n: b[b.len() - 1] })
        } else {
            None
        }
    } else if a.len() == 2 && b.len() == 2 {
        if a[1] == b[0] {
            Some(MatmulPlan::MatMat { m: a[0], k: a[1], n: b[1] })
        } else {
            None
        }
    } else if a.len() == 2 && b.len() == 1 {
        if a[1] == b[0] {
            Some(MatmulPlan::MatVec { m: a[0], k: a[1] })
        } else {
            None
        }
    } else if a.len() == 1 && b.len() == 2 {
        if a[0] == b[0] {
            Some(MatmulPlan::VecMat { k: a[0], n: b[1] })
        } else {
            None
        }
    } else if a.len() == 1 && b.len() == 1 {
        if a[0] == b[0] {
            Some(MatmulPlan::VecVec { k: a[0] })
        } else {
            None
        }
    } else {
        None
    }
}

/// Which matrix product `a` and `b` call for (matrix-matrix, matrix-vector,
/// vector-matrix, inner product, or a batch of matrix products over
/// broadcast leading axes), or `None` when a vector meets a stack of more
/// than two axes, the inner lengths differ, or the leading axes do not
/// broadcast.
pub fn matmul_plan(a: &NDArrayF64, b: &NDArrayF64) -> (r: Option<MatmulPlan>)
    ensures
        r == spec_matmul_plan(array_shape(*a), array_shape(*b)),
{
    let sa = a.shape();
    let sb = b.shape();
    if sa.len() >= 2 && sb.len() >= 2 && (sa.len() > 2 || sb.len() > 2) {
        let la = slice_subrange(sa.as_slice(), 0, sa.len() - 2);
        let lb = slice_subrange(sb.as_slice(), 0, sb.len() - 2);
        if sa[sa.len() - 1] != sb[sb.len() - 2] {
            return None;
        }
        match broadcast_shape(la, lb) {
            Some(_) => Some(MatmulPlan::Batched { m: sa[sa.len() - 2], k: sa[sa.len() - 1], n: sb[sb.len() - 1] }),
            None => None,
        }
    } else if sa.len() == 2 && sb.len() == 2 {
        if sa[1] == sb[0] {
            Some(MatmulPlan::MatMat { m: sa[0], k: sa[1], n: sb[1] })
        } else {
            None
        }
    } else if sa.len() == 2 && sb.len() == 1 {
        if sa[1] == sb[0] {
            Some(MatmulPlan::MatVec { m: sa[0], k: sa[1] })
        } else {
            None
        }
    } else if sa.len() == 1 && sb.len() == 2 {
        if sa[0] == sb[0] {
            Some(MatmulPlan::VecMat { k: sa[0], n: sb[1] })
        } else {
            None
        }
    } else if sa.len() == 1 && sb.len() == 1 {
        if sa[0] == sb[0] {
            Some(MatmulPlan::VecVec { k: sa[0] })
        } else {
            None
        }
    } else {
        None
    }
}

/// A shape followed by two more axis lengths.
pub open spec fn with_tail(s: Seq<usize>, x: usize, y: usize) -> Seq<usize> {
    s.push(x).push(y)
}

/// The element count and the non-zero product of `s` followed by `x`, `y`;
/// when that shape fits, so does `s`, and `x * y` is at most `isize::MAX`.
proof fn lemma_with_tail(s: Seq<usize>, x: usize, y: usize)
    ensures
        shape_size(with_tail(s, x, y)) == shape_size(s) * (x * y),
        nonzero_size(with_tail(s, x, y)) == nonzero_size(s) * (nz(x) * nz(y)),
        shape_fits(with_tail(s, x, y)) ==> shape_fits(s) && x * y <= isize::MAX,
{
    let s1 = s.push(x);
    let s2 = s1.push(y);
    assert(s2.drop_last() =~= s1);
    assert(s1.drop_last() =~= s);
    let a = shape_size(s);
    let b = nonzero_size(s);
    assert(shape_size(s1) == a * x);
    assert(shape_size(s2) == shape_size(s1) * y);
    assert(a * x * y == a * (x * y)) by (nonlinear_arith);
    assert(nonzero_size(s1) == b * nz(x));
    assert(nonzero_size(s2) == nonzero_size(s1) * nz(y));
    assert(b * nz(x) * nz(y) == b * (nz(x) * nz(y))) by (nonlinear_arith);
    lemma_nonzero_size_pos(s);
    let p = nz(x) * nz(y);
    assert(p >= 1) by (nonlinear_arith)
        requires
            nz(x) >= 1,
            nz(y) >= 1,
            p == nz(x) * nz(y),
    ;
    assert(x * y <= p) by (nonlinear_arith)
        requires
            x as nat <= nz(x),
            y as nat <= nz(y),
            p == nz(x) * nz(y),
            x <= nz(x),
            y <= nz(y),
            p == nz(x) * nz(y),
    ;
    assert(b <= b * p && p <= b * p) by (nonlinear_arith)
        requires
            b >= 1,
            p >= 1,
    ;
}

/// The batch shape of a batched product: the broadcast of the leading axes.
pub open spec fn batch_shape(a: Seq<usize>, b: Seq<usize>) -> Seq<usize> {
    broadcast_result(lead(a), lead(b))
}

/// The operands of a batched product of arrays of shapes `a` and `b` can be
/// stretched to full stacks over the batch shape, and the stacks and the
/// result shape fit.
pub open spec fn batched_ok(a: Seq<usize>, b: Seq<usize>) -> bool {
    match spec_matmul_plan(a, b) {
        Some(MatmulPlan::Batched { m, k, n }) => {
            let bt = batch_shape(a, b);
            &&& shape_fits(with_tail(bt, m, k))
            &&& shape_fits(with_tail(bt, k, n))
            &&& shape_fits(with_tail(bt, m, n))
            &&& stretches_to(a, with_tail(bt, m, k))
            &&& stretches_to(b, with_tail(bt, k, n))
        },
        _ => false,
    }
}

/// The operands of a batched matrix product, one row-major matrix of each
/// per index of the batch shape (in row-major order of the batch).
pub struct BatchedOperands {
    /// The batch shape.
    pub batch: Vec<usize>,
    /// Rows of each left matrix and of each product.
    pub m: usize,
    /// Columns of each left matrix, rows of each right matrix.
    pub k: usize,
    /// Columns of each right matrix and of each product.
    pub n: usize,
    /// The `m`-by-`k` left matrices.
    pub a_mats: Vec<Vec<u64>>,
    /// The `k`-by-`n` right matrices.
    pub b_mats: Vec<Vec<u64>>,
}

/// `s` followed by `x` and `y`.
fn push_two(s: &[usize], x: usize, y: usize) -> (r: Vec<usize>)
    ensures
        r@ == with_tail(s@, x, y),
{
    let mut r: Vec<usize> = Vec::new();
    let mut i: usize = 0;
    while i < s.len()
        invariant
            i <= s@.len(),
            r@ == s@.take(i as int),
        decreases s@.len() - i,
    {
        r.push(s[i]);
        i = i + 1;
        assert(r@ =~= s@.take(i as int));
    }
    assert(s@.take(s@.len() as int) =~= s@);
    r.push(x);
    r.push(y);
    r
}

/// `flat` cut into `count` consecutive pieces of `size` entries.
fn pieces(flat: &Vec<u64>, count: usize, size: usize) -> (r: Vec<Vec<u64>>)
    requires
        flat@.len() == count * size,
    ensures
        r@.len() == count,
        forall|p: int| 0 <= p < count ==> #[trigger] r@[p]@ == flat@.subrange(p * size, p * size + size),
{
    let total = flat.len();
    let mut r: Vec<Vec<u64>> = Vec::new();
    let mut p: usize = 0;
    while p < count
        invariant
            flat@.len() == count * size,
            total == count * size,
            p <= count,
            r@.len() == p,
            forall|q: int| 0 <= q < p ==> #[trigger] r@[q]@ == flat@.subrange(q * size, q * size + size),
        decreases count - p,
    {
        assert(p * size + size <= count * size) by (nonlinear_arith)
            requires
                p < count,
        ;
        let start = p * size;
        let mut piece: Vec<u64> = Vec::new();
        let mut q: usize = 0;
        while q < size
            invariant
                flat@.len() == count * size,
                total == count * size,
                start + size <= count * size,
                q <= size,
                piece@ == flat@.subrange(start as int, start + q),
            decreases size - q,
        {
            piece.push(flat[start + q]);
            q = q + 1;
            assert(piece@ =~= flat@.subrange(start as int, start + q));
        }
        r.push(piece);
        p = p + 1;
    }
    r
}

/// The matrices of a batched product of `a` and `b`: both stretched over the
/// batch shape (the broadcast of their leading axes) and cut into one
/// row-major matrix per batch index. `None` unless the plan is batched, the
/// operands stretch to the full stacks and the stacks and the result fit.
pub fn batched_operands(a: &NDArrayF64, b: &NDArrayF64) -> (r: Option<BatchedOperands>)
    ensures
        r is Some <==> batched_ok(array_shape(*a), array_shape(*b)),
        r matches Some(o) ==> {
            let ta = with_tail(o.batch@, o.m, o.k);
            let tb = with_tail(o.batch@, o.k, o.n);
            &&& spec_matmul_plan(array_shape(*a), array_shape(*b)) == Some(
                MatmulPlan::Batched { m: o.m, k: o.k, n: o.n },
            )
            &&& o.batch@ == batch_shape(array_shape(*a), array_shape(*b))
            &&& shape_fits(with_tail(o.batch@, o.m, o.n))
            &&& o.a_mats@.len() == shape_size(o.batch@)
            &&& o.b_mats@.len() == shape_size(o.batch@)
            &&& forall|p: int|
                0 <= p < shape_size(o.batch@) ==> (#[trigger] o.a_mats@[p])@.len() == o.m * o.k
                    && forall|q: int|
                    0 <= q < o.m * o.k ==> o.a_mats@[p]@[q] == bcast_elem(
                        *a,
                        ta,
                        unravel(ta, (p * (o.m * o.k) + q) as nat),
                    )
            &&& forall|p: int|
                0 <= p < shape_size(o.batch@) ==> (#[trigger] o.b_mats@[p])@.len() == o.k * o.n
                    && forall|q: int|
                    0 <= q < o.k * o.n ==> o.b_mats@[p]@[q] == bcast_elem(
                        *b,
                        tb,
                        unravel(tb, (p * (o.k * o.n) + q) as nat),
                    )
        },
{
    let (m, k, n) = match matmul_plan(a, b) {
        Some(MatmulPlan::Batched { m, k, n }) => (m, k, n),
        _ => return None,
    };
    let sa = a.shape();
    let sb = b.shape();
    let la = slice_subrange(sa.as_slice(), 0, sa.len() - 2);
    let lb = slice_subrange(sb.as_slice(), 0, sb.len() - 2);
    assert(la@ == lead(sa@));
    assert(lb@ == lead(sb@));
    let bt = match broadcast_shape(la, lb) {
        Some(t) => t,
        None => return None,
    };
    let ta = push_two(bt.as_slice(), m, k);
    let tb = push_two(bt.as_slice(), k, n);
    let tc = push_two(bt.as_slice(), m, n);
    if size_of_shape_checked(tc.as_slice()).is_none() {
        return None;
    }
    let av = match broadcast_view(a, &ta) {
        Some(v) => v,
        None => return None,
    };
    let bv = match broadcast_view(b, &tb) {
        Some(v) => v,
        None => return None,
    };
    proof {
        lemma_with_tail(bt@, m, k);
        lemma_with_tail(bt@, k, n);
    }
    let nb = size_of_shape_checked(bt.as_slice()).unwrap();
    let mk = m * k;
    let kn = k * n;
    let fa = av.to_vec();
    let fb = bv.to_vec();
    let a_mats = pieces(&fa, nb, mk);
    let b_mats = pieces(&fb, nb, kn);
    let ghost tas = ta@;
    let ghost tbs = tb@;
    proof {
        assert forall|p: int| 0 <= p < nb implies (#[trigger] a_mats@[p])@.len() == mk && forall|q: int|
            0 <= q < mk ==> a_mats@[p]@[q] == bcast_elem(*a, tas, unravel(tas, (p * mk + q) as nat)) by {
            assert(p * mk + mk <= nb * mk && 0 <= p * mk) by (nonlinear_arith)
                requires
                    0 <= p < nb,
            ;
            assert forall|q: int| 0 <= q < mk implies a_mats@[p]@[q] == bcast_elem(
                *a,
                tas,
                unravel(tas, (p * mk + q) as nat),
            ) by {
                assert(p * mk + q < nb * mk && p * mk + mk <= nb * mk && 0 <= p * mk) by (nonlinear_arith)
                    requires
                        0 <= p < nb,
                        0 <= q < mk,
                ;
                assert(a_mats@[p]@[q] == fa@[p * mk + q]);
            }
        }
        assert forall|p: int| 0 <= p < nb implies (#[trigger] b_mats@[p])@.len() == kn && forall|q: int|
            0 <= q < kn ==> b_mats@[p]@[q] == bcast_elem(*b, tbs, unravel(tbs, (p * kn + q) as nat)) by {
            assert(p * kn + kn <= nb * kn && 0 <= p * kn) by (nonlinear_arith)
                requires
                    0 <= p < nb,
            ;
            assert forall|q: int| 0 <= q < kn implies b_mats@[p]@[q] == bcast_elem(
                *b,
                tbs,
                unravel(tbs, (p * kn + q) as nat),
            ) by {
                assert(p * kn + q < nb * kn && p * kn + kn <= nb * kn && 0 <= p * kn) by (nonlinear_arith)
                    requires
                        0 <= p < nb,
                        0 <= q < kn,
                ;
                assert(b_mats@[p]@[q] == fb@[p * kn + q]);
            }
        }
    }
    Some(BatchedOperands { batch: bt, m, k, n, a_mats, b_mats })
}

/// The stack of `m`-by-`n` row-major matrices `prods`, one per index of the
/// batch shape `batch` (in row-major order), as an array of shape
/// `batch` followed by `m`, `n`.
pub fn assemble_batched(batch: &Vec<usize>, m: usize, n: usize, prods: &Vec<Vec<u64>>) -> (r: NDArrayF64)
    requires
        shape_fits(with_tail(batch@, m, n)),
        prods@.len() == shape_size(batch@),
        forall|p: int| 0 <= p < prods@.len() ==> (#[trigger] prods@[p])@.len() == m * n,
    ensures
        array_shape(r) == with_tail(batch@, m, n),
        array_elems(r).len() == shape_size(batch@) * (m * n),
        forall|p: int, q: int|
            0 <= p < prods@.len() && 0 <= q < m * n ==> array_elems(r)[p * (m * n) + q]
                == #[trigger] prods@[p]@[q],
{
    proof {
        lemma_with_tail(batch@, m, n);
        crate::shape::lemma_fits_size(with_tail(batch@, m, n));
    }
    let mn = m * n;
    let count = prods.len();
    let mut flat: Vec<u64> = Vec::new();
    let mut p: usize = 0;
    while p < count
        invariant
            count == prods@.len(),
            count * mn <= isize::MAX,
            forall|x: int| 0 <= x < count ==> (#[trigger] prods@[x])@.len() == mn,
            p <= count,
            flat@.len() == p * mn,
            forall|x: int, q: int|
                0 <= x < p && 0 <= q < mn ==> flat@[x * mn + q] == #[trigger] prods@[x]@[q],
        decreases count - p,
    {
        let ghost prev = flat@;
        assert(p * mn + mn <= count * mn) by (nonlinear_arith)
            requires
                p < count,
        ;
        let piece = &prods[p];
        let mut q: usize = 0;
        while q < mn
            invariant
                piece@.len() == mn,
                q <= mn,
                prev.len() == p * mn,
                flat@.len() == prev.len() + q,
                forall|i: int| 0 <= i < prev.len() ==> #[trigger] flat@[i] == prev[i],
                forall|i: int| 0 <= i < q ==> #[trigger] flat@[prev.len() + i] == piece@[i],
            decreases mn - q,
        {
            flat.push(piece[q]);
            q = q + 1;
        }
        proof {
            assert forall|x: int, q2: int| 0 <= x < p + 1 && 0 <= q2 < mn implies flat@[x * mn + q2]
                == #[trigger] prods@[x]@[q2] by {
                if x == p {
                    assert(flat@[prev.len() + q2] == piece@[q2]);
                } else {
                    assert(x * mn + q2 < p * mn) by (nonlinear_arith)
                        requires
                            x < p,
                            q2 < mn,
                    ;
                    assert(flat@[x * mn + q2] == prev[x * mn + q2]);
                }
            }
        }
        p = p + 1;
        assert(flat@.len() == p * mn) by (nonlinear_arith)
            requires
                flat@.len() == (p - 1) * mn + mn,
        ;
    }
    let shape = push_two(batch.as_slice(), m, n);
    nd_from_parts(&shape, flat)
}

/// The elements of two one-dimensional arrays of one length (the operands
/// of an inner product, or the real and imaginary parts of a signal); `None`
/// otherwise.
pub fn paired_vectors(a: &NDArrayF64, b: &NDArrayF64) -> (r: Option<(Vec<u64>, Vec<u64>)>)
    ensures
        r is Some <==> (array_shape(*a).len() == 1 && array_shape(*b).len() == 1
            && array_elems(*a).len() == array_elems(*b).len()),
        r matches Some((x, y)) ==> (x@ == array_elems(*a) && y@ == array_elems(*b) && x@.len()
            <= isize::MAX),
{
    let x = match vector_parts(a) {
        Some(x) => x,
        None => return None,
    };
    let y = match vector_parts(b) {
        Some(y) => y,
        None => return None,
    };
    if x.len() != y.len() {
        return None;
    }
    Some((x, y))
}

/// The right-hand side of a linear system with `rows` equations.
#[derive(Debug)]
pub enum Rhs {
    /// One right-hand side: a vector of `rows` elements.
    Vector(Vec<u64>),
    /// Several right-hand sides: a `rows`-by-`cols` matrix, row-major.
    Matrix(usize, Vec<u64>),
}

/// The right-hand side `b` of a system with `rows` equations: a vector of
/// length `rows` or a matrix with `rows` rows; `None` otherwise.
pub fn rhs_parts(rows: usize, b: &NDArrayF64) -> (r: Option<Rhs>)
    ensures
        r is Some <==> ((array_shape(*b).len() == 1 || array_shape(*b).len() == 2)
            && array_shape(*b)[0] == rows),
        r matches Some(Rhs::Vector(v)) ==> (array_shape(*b) == seq![rows] && v@ == array_elems(*b)),
        r matches Some(Rhs::Matrix(cols, m)) ==> (array_shape(*b) == seq![rows, cols] && m@
            == array_elems(*b)),
{
    let s = b.shape();
    if s.len() == 1 {
        if s[0] != rows {
            return None;
        }
        assert(s@ =~= seq![rows]);
        return Some(Rhs::Vector(b.to_vec()));
    }
    if s.len() == 2 {
        if s[0] != rows {
            return None;
        }
        assert(s@ =~= seq![rows, s@[1]]);
        return Some(Rhs::Matrix(s[1], b.to_vec()));
    }
    None
}

/// The diagonal `a[0, 0], a[1, 1], ...` of a two-dimensional array (as many
/// entries as the shorter side); `None` for any other number of axes.
pub fn diagonal(a: &NDArrayF64) -> (r: Option<Vec<u64>>)
    ensures
        r is Some <==> array_shape(*a).len() == 2,
        r matches Some(d) ==> {
            &&& d@.len() == if array_shape(*a)[0] <= array_shape(*a)[1] {
                array_shape(*a)[0]
            } else {
                array_shape(*a)[1]
            }
            &&& forall|i: int| 0 <= i < d@.len() ==> #[trigger] d@[i] == matrix_at(*a, i as usize, i as usize)
        },
{
    let (rows, cols, data) = match matrix_parts(a) {
        Some(p) => p,
        None => return None,
    };
    let n = if rows <= cols {
        rows
    } else {
        cols
    };
    let total = data.len();
    let mut d: Vec<u64> = Vec::new();
    let mut i: usize = 0;
    while i < n
        invariant
            n <= rows && n <= cols,
            total == rows * cols,
            data@.len() == rows * cols,
            data@ == array_elems(*a),
            array_shape(*a) == seq![rows, cols],
            i <= n,
            d@.len() == i,
            forall|k: int| 0 <= k < i ==> #[trigger] d@[k] == matrix_at(*a, k as usize, k as usize),
        decreases n - i,
    {
        assert(i * cols + i < rows * cols) by (nonlinear_arith)
            requires
                i < rows,
                i < cols,
        ;
        proof {
            lemma_flat_2d(rows, cols, i, i);
        }
        d.push(data[i * cols + i]);
        i = i + 1;
    }
    Some(d)
}

/// The factors of a QR decomposition.
pub struct QrHandle {
    q: NDArrayF64,
    r: NDArrayF64,
}

impl QrHandle {
    /// The orthogonal factor.
    pub closed spec fn q_spec(&self) -> NDArrayF64 {
        self.q
    }

    /// The triangular factor.
    pub closed spec fn r_spec(&self) -> NDArrayF64 {
        self.r
    }

    /// Holds the factors `q` and `r`.
    pub fn new(q: NDArrayF64, r: NDArrayF64) -> (h: QrHandle)
        ensures
            h.q_spec() == q,
            h.r_spec() == r,
    {
        QrHandle { q, r }
    }
}

/// A copy of the orthogonal factor.
pub fn np_qr_q_f64(h: &QrHandle) -> (r: NDArrayF64)
    ensures
        array_shape(r) == array_shape(h.q_spec()),
        array_elems(r) == array_elems(h.q_spec()),
{
    crate::array::np_array_copy_f64(&h.q)
}

/// A copy of the triangular factor.
pub fn np_qr_r_f64(h: &QrHandle) -> (r: NDArrayF64)
    ensures
        array_shape(r) == array_shape(h.r_spec()),
        array_elems(r) == array_elems(h.r_spec()),
{
    crate::array::np_array_copy_f64(&h.r)
}

/// The parts of a singular value decomposition.
pub struct SvdHandle {
    u: NDArrayF64,
    s: NDArrayF64,
    vt: NDArrayF64,
}

impl SvdHandle {
    /// The left singular vectors.
    pub closed spec fn u_spec(&self) -> NDArrayF64 {
        self.u
    }

    /// The singular values.
    pub closed spec fn s_spec(&self) -> NDArrayF64 {
        self.s
    }

    /// The transposed right singular vectors.
    pub closed spec fn vt_spec(&self) -> NDArrayF64 {
        self.vt
    }

    /// Holds `u`, the singular values `s` and `vt`.
    pub fn new(u: NDArrayF64, s: NDArrayF64, vt: NDArrayF64) -> (h: SvdHandle)
        ensures
            h.u_spec() == u,
            h.s_spec() == s,
            h.vt_spec() == vt,
    {
        SvdHandle { u, s, vt }
    }
}

/// A copy of `u`.
pub fn np_svd_u_f64(h: &SvdHandle) -> (r: NDArrayF64)
    ensures
        array_shape(r) == array_shape(h.u_spec()),
        array_elems(r) == array_elems(h.u_spec()),
{
    crate::array::np_array_copy_f64(&h.u)
}

/// A copy of the singular values.
pub fn np_svd_s_f64(h: &SvdHandle) -> (r: NDArrayF64)
    ensures
        array_shape(r) == array_shape(h.s_spec()),
        array_elems(r) == array_elems(h.s_spec()),
{
    crate::array::np_array_copy_f64(&h.s)
}

/// A copy of `vt`.
pub fn np_svd_vt_f64(h: &SvdHandle) -> (r: NDArrayF64)
    ensures
        array_shape(r) == array_shape(h.vt_spec()),
        array_elems(r) == array_elems(h.vt_spec()),
{
    crate::array::np_array_copy_f64(&h.vt)
}

/// The eigenvalues of an `n`-by-`n` matrix, split into real and imaginary
/// parts.
pub struct EigHandle {
    vals_re: Vec<u64>,
    vals_im: Vec<u64>,
    n: usize,
}

impl EigHandle {
    /// Both parts hold `n` values, which an allocation can hold.
    #[verifier::type_invariant]
    spec fn inv(self) -> bool {
        &&& self.vals_re@.len() == self.n
        &&& self.vals_im@.len() == self.n
        &&& self.n <= isize::MAX
    }

    /// The real parts.
    pub closed spec fn re_spec(&self) -> Seq<u64> {
        self.vals_re@
    }

    /// The imaginary parts.
    pub closed spec fn im_spec(&self) -> Seq<u64> {
        self.vals_im@
    }

    /// Holds `n` eigenvalues given by their real and imaginary parts.
    pub fn new(vals_re: Vec<u64>, vals_im: Vec<u64>) -> (h: EigHandle)
        requires
            vals_re@.len() == vals_im@.len(),
            vals_re@.len() <= isize::MAX,
        ensures
            h.re_spec() == vals_re@,
            h.im_spec() == vals_im@,
    {
        let n = vals_re.len();
        EigHandle { vals_re, vals_im, n }
    }
}

/// The real parts of the eigenvalues as a one-dimensional array.
pub fn np_eig_vals_re_f64(h: &EigHandle) -> (r: NDArrayF64)
    ensures
        array_shape(r) == seq![h.re_spec().len() as usize],
        array_elems(r) == h.re_spec(),
{
    proof {
        use_type_invariant(h);
    }
    NDArrayF64::from_vec(slice_to_vec(h.vals_re.as_slice()))
}

/// The imaginary parts of the eigenvalues as a one-dimensional array.
pub fn np_eig_vals_im_f64(h: &EigHandle) -> (r: NDArrayF64)
    ensures
        array_shape(r) == seq![h.im_spec().len() as usize],
        array_elems(r) == h.im_spec(),
{
    proof {
        use_type_invariant(h);
    }
    NDArrayF64::from_vec(slice_to_vec(h.vals_im.as_slice()))
}

} // verus!
