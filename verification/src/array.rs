//! The n-dimensional `f64` array, held by `ndarray` as the bit patterns of its
//! elements (`f64::to_bits`), and the structural operations on it: shape
//! queries, element access, reshaping, transposition, slicing, selection
//! along an axis and broadcasting.
use vstd::prelude::*;
use ndarray::{ArrayD, Axis, IxDyn};
use crate::shape::{
    clamp_dim, flat_index, in_bounds, lemma_fits_size, lemma_flat_index_bounds, lemma_unravel,
    nonzero_size, read_dims, shape_fits, shape_size, size_of_shape_checked, unravel,
};
use crate::broadcast::{stretch_source, stretches_to};

verus! {

/// An n-dimensional, row-major array of `f64` values, each stored as its
/// IEEE-754 bit pattern.
#[verifier::external_body]
pub struct NDArrayF64 {
    inner: ArrayD<u64>,
}

/// The axis lengths of an array.
pub uninterp spec fn array_shape(a: NDArrayF64) -> Seq<usize>;

/// The elements of an array in row-major (logical) order.
pub uninterp spec fn array_elems(a: NDArrayF64) -> Seq<u64>;

/// Whether an array lies in memory contiguously in row-major order
/// (`ndarray`'s `is_standard_layout`).
pub uninterp spec fn array_standard(a: NDArrayF64) -> bool;

/// What every array satisfies: its shape fits and it has one element per
/// position of its shape.
pub open spec fn well_formed(a: NDArrayF64) -> bool {
    &&& shape_fits(array_shape(a))
    &&& array_elems(a).len() == shape_size(array_shape(a))
}

/// The element of `a` at index `idx`.
pub open spec fn elem_at(a: NDArrayF64, idx: Seq<usize>) -> u64 {
    array_elems(a)[flat_index(array_shape(a), idx)]
}

/// Length of the range `start, start + step, ...` below `end`.
pub open spec fn stepped_len(start: usize, end: usize, step: usize) -> nat {
    if end <= start {
        0
    } else {
        (((end - start) + step - 1) / (step as int)) as nat
    }
}

/// The index of `a` reached from index `idx` of a slice with the given
/// per-axis starts and steps.
pub open spec fn slice_source(starts: Seq<usize>, steps: Seq<usize>, idx: Seq<usize>) -> Seq<usize> {
    Seq::new(idx.len(), |i: int| (starts[i] + idx[i] * steps[i]) as usize)
}

// ---------------------------------------------------------------------------
// The calls into `ndarray`.
/// `ArrayD::from_shape_vec` with the default (row-major) layout: succeeds
/// exactly when the product of the non-zero axis lengths is at most
/// `isize::MAX` and the vector has one element per position; the vector
/// then holds the elements in row-major order.
#[verifier::external_body]
fn nd_from_shape_vec(shape: &Vec<usize>, data: Vec<u64>) -> (r: Option<NDArrayF64>)
    ensures
        r is Some <==> (shape_fits(shape@) && shape_size(shape@) == data@.len()),
        r matches Some(a) ==> (array_shape(a) == shape@ && array_elems(a) == data@),
{
    match ArrayD::from_shape_vec(IxDyn(shape), data) {
        Ok(inner) => Some(NDArrayF64 { inner }),
        Err(_) => None,
    }
}

/// `ArrayD::zeros`: every element is zero (the bit pattern of `0.0`).
/// It panics unless the shape fits.
#[verifier::external_body]
fn nd_zeros(shape: &Vec<usize>) -> (r: NDArrayF64)
    requires
        shape_fits(shape@),
    ensures
        array_shape(r) == shape@,
        array_elems(r) == Seq::new(shape_size(shape@), |i: int| 0u64),
{
    NDArrayF64 { inner: ArrayD::zeros(IxDyn(shape)) }
}

/// `ArrayD::from_elem`: every element is `v`. It panics unless the shape fits.
#[verifier::external_body]
fn nd_from_elem(shape: &Vec<usize>, v: u64) -> (r: NDArrayF64)
    requires
        shape_fits(shape@),
    ensures
        array_shape(r) == shape@,
        array_elems(r) == Seq::new(shape_size(shape@), |i: int| v),
{
    NDArrayF64 { inner: ArrayD::from_elem(IxDyn(shape), v) }
}

/// `ArrayBase::shape`: the axis lengths. Every array of `ndarray` has a
/// shape that fits and one element per position; the lengths come back in a
/// `Vec`, which never holds more than `isize::MAX` bytes.
#[verifier::external_body]
fn nd_shape(a: &NDArrayF64) -> (r: Vec<usize>)
    ensures
        r@ == array_shape(*a),
        r@.len() <= isize::MAX,
        shape_fits(r@),
        array_elems(*a).len() == shape_size(r@),
{
    a.inner.shape().to_vec()
}

/// `ArrayBase::iter`, collected: the elements in row-major order.
#[verifier::external_body]
fn nd_to_vec(a: &NDArrayF64) -> (r: Vec<u64>)
    ensures
        r@ == array_elems(*a),
{
    a.inner.iter().copied().collect()
}

/// `ArrayBase::as_slice`: the elements in memory exactly when the array has
/// the standard layout (`is_standard_layout`: contiguous, in row-major
/// order); they are then the elements in row-major order.
#[verifier::external_body]
fn nd_as_slice(a: &NDArrayF64) -> (r: Option<&[u64]>)
    ensures
        r is Some <==> array_standard(*a),
        r matches Some(s) ==> s@ == array_elems(*a),
{
    a.inner.as_slice()
}

/// Indexing with an in-bounds index reads the element at its row-major
/// position.
#[verifier::external_body]
fn nd_get(a: &NDArrayF64, idx: &Vec<usize>) -> (r: u64)
    requires
        in_bounds(array_shape(*a), idx@),
    ensures
        r == elem_at(*a, idx@),
{
    a.inner[IxDyn(idx)]
}

/// Indexing with an in-bounds index writes the element at its row-major
/// position and leaves the shape and the other elements unchanged.
#[verifier::external_body]
fn nd_set(a: &mut NDArrayF64, idx: &Vec<usize>, v: u64)
    requires
        in_bounds(array_shape(*old(a)), idx@),
    ensures
        array_shape(*final(a)) == array_shape(*old(a)),
        array_elems(*final(a)) == array_elems(*old(a)).update(
            flat_index(array_shape(*old(a)), idx@),
            v,
        ),
{
    a.inner[IxDyn(idx)] = v;
}

/// `Clone::clone` on the array: same shape, same elements.
#[verifier::external_body]
fn nd_clone(a: &NDArrayF64) -> (r: NDArrayF64)
    ensures
        array_shape(r) == array_shape(*a),
        array_elems(r) == array_elems(*a),
{
    NDArrayF64 { inner: a.inner.clone() }
}

/// `ArrayBase::t` (all axes reversed), copied out in standard (row-major)
/// layout by `as_standard_layout`: the element at `idx` is the element of
/// `a` at `idx` reversed.
#[verifier::external_body]
fn nd_transpose(a: &NDArrayF64) -> (r: NDArrayF64)
    ensures
        array_shape(r) == array_shape(*a).reverse(),
        array_standard(r),
        forall|idx: Seq<usize>|
            in_bounds(array_shape(r), idx) ==> #[trigger] elem_at(r, idx) == elem_at(
                *a,
                idx.reverse(),
            ),
{
    NDArrayF64 { inner: a.inner.t().as_standard_layout().into_owned() }
}

/// `ArrayBase::slice_each_axis` with `Slice { start, end, step }` on every
/// axis, copied out in standard layout: axis `i` keeps `start[i], start[i] + step[i], ...`
/// below `end[i]`. It panics unless `start <= end <= len` and `step > 0`.
#[verifier::external_body]
fn nd_slice(a: &NDArrayF64, starts: &Vec<usize>, ends: &Vec<usize>, steps: &Vec<usize>) -> (r:
    NDArrayF64)
    requires
        starts@.len() == array_shape(*a).len(),
        ends@.len() == array_shape(*a).len(),
        steps@.len() == array_shape(*a).len(),
        forall|i: int|
            0 <= i < array_shape(*a).len() ==> #[trigger] starts@[i] <= ends@[i] <= array_shape(
                *a,
            )[i] && 0 < steps@[i] <= isize::MAX,
    ensures
        array_shape(r) == Seq::new(
            array_shape(*a).len(),
            |i: int| stepped_len(starts@[i], ends@[i], steps@[i]) as usize,
        ),
        array_standard(r),
        forall|idx: Seq<usize>|
            in_bounds(array_shape(r), idx) ==> #[trigger] elem_at(r, idx) == elem_at(
                *a,
                slice_source(starts@, steps@, idx),
            ),
{
    let slices: Vec<ndarray::Slice> = (0..starts.len())
        .map(|i| ndarray::Slice::new(starts[i] as isize, Some(ends[i] as isize), steps[i] as isize))
        .collect();
    let view = a.inner.slice_each_axis(|ax| slices[ax.axis.index()]);
    NDArrayF64 { inner: view.as_standard_layout().into_owned() }
}

/// `ArrayBase::select`: along `axis`, the sub-arrays at `picks`, in order.
/// It panics when `axis` or a pick is out of bounds, or when the result's
/// shape does not fit.
#[verifier::external_body]
fn nd_select(a: &NDArrayF64, axis: usize, picks: &Vec<usize>) -> (r: NDArrayF64)
    requires
        axis < array_shape(*a).len(),
        forall|k: int| 0 <= k < picks@.len() ==> #[trigger] picks@[k] < array_shape(*a)[axis as int],
        shape_fits(array_shape(*a).update(axis as int, picks@.len() as usize)),
    ensures
        array_shape(r) == array_shape(*a).update(axis as int, picks@.len() as usize),
        forall|idx: Seq<usize>|
            in_bounds(array_shape(r), idx) ==> #[trigger] elem_at(r, idx) == elem_at(
                *a,
                idx.update(axis as int, picks@[idx[axis as int] as int]),
            ),
{
    NDArrayF64 { inner: a.inner.select(Axis(axis), picks) }
}

/// `ArrayBase::broadcast` to `target`, materialised: succeeds exactly when
/// the target shape fits and the array's shape stretches to it; the element
/// at `idx` is then the element of `a` that `idx` maps back to.
#[verifier::external_body]
pub(crate) fn nd_broadcast(a: &NDArrayF64, target: &Vec<usize>) -> (r: Option<NDArrayF64>)
    ensures
        r is Some <==> (shape_fits(target@) && stretches_to(array_shape(*a), target@)),
        r matches Some(b) ==> {
            &&& array_shape(b) == target@
            &&& forall|idx: Seq<usize>|
                in_bounds(target@, idx) ==> #[trigger] elem_at(b, idx) == elem_at(
                    *a,
                    stretch_source(array_shape(*a), target@, idx),
                )
        },
{
    match a.inner.broadcast(IxDyn(target)) {
        Some(view) => Some(NDArrayF64 { inner: view.as_standard_layout().into_owned() }),
        None => None,
    }
}


// ---------------------------------------------------------------------------
// Shape queries and element access.
/// The bit pattern of `1.0`.
pub const F64_ONE_BITS: u64 = 0x3FF0_0000_0000_0000;

/// Every non-zero axis length of a shape that fits is at most `isize::MAX`.
pub proof fn lemma_fits_dims(s: Seq<usize>)
    requires
        shape_fits(s),
    ensures
        forall|i: int| 0 <= i < s.len() ==> #[trigger] s[i] <= isize::MAX,
    decreases s.len(),
{
    if s.len() > 0 {
        let s0 = s.drop_last();
        crate::shape::lemma_nonzero_size_pos(s0);
        let a = nonzero_size(s0);
        let l: nat = if s.last() == 0 {
            1nat
        } else {
            s.last() as nat
        };
        assert(a <= a * l && l <= a * l) by (nonlinear_arith)
            requires
                a >= 1,
                l >= 1,
        ;
        lemma_fits_dims(s0);
        assert forall|i: int| 0 <= i < s.len() implies #[trigger] s[i] <= isize::MAX by {
            if i < s.len() - 1 {
                assert(s0[i] == s[i]);
            }
        }
    }
}

impl NDArrayF64 {
    /// The axis lengths.
    pub fn shape(&self) -> (r: Vec<usize>)
        ensures
            r@ == array_shape(*self),
            r@.len() <= isize::MAX,
            well_formed(*self),
    {
        nd_shape(self)
    }

    /// The elements in row-major order.
    pub fn to_vec(&self) -> (r: Vec<u64>)
        ensures
            r@ == array_elems(*self),
    {
        nd_to_vec(self)
    }

    /// The elements as stored, when they lie contiguously in row-major
    /// order (`None` otherwise).
    pub fn as_slice(&self) -> (r: Option<&[u64]>)
        ensures
            r is Some <==> array_standard(*self),
            r matches Some(s) ==> s@ == array_elems(*self),
    {
        nd_as_slice(self)
    }

    /// A one-dimensional array holding `v` (a vector of at most
    /// `isize::MAX` elements, as every allocation is).
    pub fn from_vec(v: Vec<u64>) -> (r: NDArrayF64)
        requires
            v@.len() <= isize::MAX,
        ensures
            array_shape(r) == seq![v@.len() as usize],
            array_elems(r) == v@,
    {
        let ghost data = v@;
        let mut shape: Vec<usize> = Vec::new();
        shape.push(v.len());
        proof {
            assert(shape@.drop_last() =~= Seq::<usize>::empty());
            assert(shape_size(Seq::<usize>::empty()) == 1);
            assert(nonzero_size(Seq::<usize>::empty()) == 1);
            assert(shape@ =~= seq![data.len() as usize]);
            assert(shape@.len() == 1 && shape@.last() == data.len());
            assert(shape_size(shape@) == shape_size(shape@.drop_last()) * data.len());
            assert(shape_size(shape@) == data.len());
        }
        let r = nd_from_shape_vec(&shape, v);
        r.unwrap()
    }
}

/// The requested shape read from signed axis lengths (negative counts as 0).
pub open spec fn clamped_shape(dims: Seq<i64>) -> Seq<usize> {
    dims.map_values(|d: i64| clamp_dim(d))
}

/// A new array of zeros with the requested shape; `None` when `rank` is
/// negative. (A shape that does not fit makes `ndarray` panic.)
pub fn np_array_zeros_f64(rank: i64, dims: &[i64]) -> (r: Option<NDArrayF64>)
    requires
        rank >= 0 ==> dims@.len() == rank && shape_fits(clamped_shape(dims@)),
    ensures
        r is None <==> rank < 0,
        r matches Some(a) ==> (array_shape(a) == clamped_shape(dims@) && array_elems(a) == Seq::new(
            shape_size(clamped_shape(dims@)),
            |i: int| 0u64,
        )),
{
    let d = match read_dims(rank, dims) {
        Some(d) => d,
        None => return None,
    };
    Some(nd_zeros(&d))
}

/// A new array with every element `value` (a bit pattern) and the requested
/// shape; `None` when `rank` is negative.
pub fn np_array_full_f64(rank: i64, dims: &[i64], value: u64) -> (r: Option<NDArrayF64>)
    requires
        rank >= 0 ==> dims@.len() == rank && shape_fits(clamped_shape(dims@)),
    ensures
        r is None <==> rank < 0,
        r matches Some(a) ==> (array_shape(a) == clamped_shape(dims@) && array_elems(a) == Seq::new(
            shape_size(clamped_shape(dims@)),
            |i: int| value,
        )),
{
    let d = match read_dims(rank, dims) {
        Some(d) => d,
        None => return None,
    };
    Some(nd_from_elem(&d, value))
}

/// A new array of ones with the requested shape; `None` when `rank` is
/// negative.
pub fn np_array_ones_f64(rank: i64, dims: &[i64]) -> (r: Option<NDArrayF64>)
    requires
        rank >= 0 ==> dims@.len() == rank && shape_fits(clamped_shape(dims@)),
    ensures
        r is None <==> rank < 0,
        r matches Some(a) ==> (array_shape(a) == clamped_shape(dims@) && array_elems(a) == Seq::new(
            shape_size(clamped_shape(dims@)),
            |i: int| F64_ONE_BITS,
        )),
{
    np_array_full_f64(rank, dims, F64_ONE_BITS)
}

/// The number of elements.
pub fn np_array_len(a: &NDArrayF64) -> (r: i64)
    ensures
        r == array_elems(*a).len(),
{
    let s = a.shape();
    let n = size_of_shape_checked(s.as_slice()).unwrap();
    proof {
        lemma_fits_size(s@);
    }
    n as i64
}

/// The number of axes.
pub fn np_array_rank(a: &NDArrayF64) -> (r: i64)
    ensures
        r == array_shape(*a).len(),
{
    let s = a.shape();
    s.len() as i64
}

/// The length of axis `axis`, or -1 when there is no such axis.
pub fn np_array_dim(a: &NDArrayF64, axis: i64) -> (r: i64)
    ensures
        (0 <= axis < array_shape(*a).len()) ==> r == array_shape(*a)[axis as int],
        !(0 <= axis < array_shape(*a).len()) ==> r == -1,
{
    let s = a.shape();
    if axis < 0 || (axis as u64) >= (s.len() as u64) {
        return -1;
    }
    proof {
        lemma_fits_dims(s@);
    }
    s[axis as usize] as i64
}

/// The signed index `idxs` as an index of `a`, when every entry is within
/// its axis.
pub open spec fn index_valid(a: NDArrayF64, idxs: Seq<i64>) -> bool {
    forall|i: int| 0 <= i < idxs.len() ==> 0 <= #[trigger] idxs[i] < array_shape(a)[i]
}

/// The signed index read as an unsigned one (entry by entry).
pub open spec fn index_of(idxs: Seq<i64>) -> Seq<usize> {
    idxs.map_values(|v: i64| v as usize)
}

/// Checks a signed index (one entry per axis) against the shape of `a`.
pub fn ixdyn_from(a: &NDArrayF64, idxs: &[i64]) -> (r: Option<Vec<usize>>)
    requires
        idxs@.len() == array_shape(*a).len(),
    ensures
        r is Some <==> index_valid(*a, idxs@),
        r matches Some(v) ==> (v@ == index_of(idxs@) && in_bounds(array_shape(*a), v@)),
{
    let shape = a.shape();
    let mut ix: Vec<usize> = Vec::new();
    let mut i: usize = 0;
    while i < idxs.len()
        invariant
            shape@ == array_shape(*a),
            idxs@.len() == shape@.len(),
            i <= idxs@.len(),
            ix@ == index_of(idxs@.take(i as int)),
            forall|k: int| 0 <= k < i ==> 0 <= #[trigger] idxs@[k] < shape@[k],
        decreases idxs@.len() - i,
    {
        let v = idxs[i];
        if v < 0 || (v as u64) >= (shape[i] as u64) {
            return None;
        }
        ix.push(v as usize);
        i = i + 1;
        assert(index_of(idxs@.take(i as int)) =~= index_of(idxs@.take(i - 1)).push(v as usize));
    }
    assert(idxs@.take(idxs@.len() as int) =~= idxs@);
    Some(ix)
}

/// The element (bit pattern) at a signed index; 0 (the bits of `0.0`) when
/// the index is out of range.
pub fn np_array_get_f64(a: &NDArrayF64, idxs: &[i64]) -> (r: u64)
    requires
        idxs@.len() == array_shape(*a).len(),
    ensures
        index_valid(*a, idxs@) ==> r == elem_at(*a, index_of(idxs@)),
        !index_valid(*a, idxs@) ==> r == 0,
{
    match ixdyn_from(a, idxs) {
        Some(ix) => nd_get(a, &ix),
        None => 0,
    }
}

/// Writes the element (bit pattern) at a signed index: 0 on success, -1 when
/// the index is out of range (the array is then unchanged).
pub fn np_array_set_f64(a: &mut NDArrayF64, idxs: &[i64], v: u64) -> (r: i32)
    requires
        idxs@.len() == array_shape(*old(a)).len(),
    ensures
        r == 0 <==> index_valid(*old(a), idxs@),
        r == 0 || r == -1,
        array_shape(*final(a)) == array_shape(*old(a)),
        r == 0 ==> array_elems(*final(a)) == array_elems(*old(a)).update(
            flat_index(array_shape(*old(a)), index_of(idxs@)),
            v,
        ),
        r == -1 ==> array_elems(*final(a)) == array_elems(*old(a)),
{
    match ixdyn_from(a, idxs) {
        Some(ix) => {
            nd_set(a, &ix, v);
            0
        },
        None => -1,
    }
}

/// Writing an element changes exactly that element: afterwards it reads
/// back as the written value, and every other element reads as before.
pub proof fn law_set_then_get(a: NDArrayF64, b: NDArrayF64, idx: Seq<usize>, v: u64, other: Seq<usize>)
    requires
        well_formed(a),
        in_bounds(array_shape(a), idx),
        in_bounds(array_shape(a), other),
        array_shape(b) == array_shape(a),
        array_elems(b) == array_elems(a).update(flat_index(array_shape(a), idx), v),
    ensures
        elem_at(b, idx) == v,
        other != idx ==> elem_at(b, other) == elem_at(a, other),
{
    lemma_flat_index_bounds(array_shape(a), idx);
    lemma_flat_index_bounds(array_shape(a), other);
    if other != idx && flat_index(array_shape(a), other) == flat_index(array_shape(a), idx) {
        crate::shape::lemma_flat_index_injective(array_shape(a), other, idx);
    }
}

/// The element at row `i`, column `j` of a two-dimensional array.
pub open spec fn matrix_at(a: NDArrayF64, i: usize, j: usize) -> u64 {
    elem_at(a, seq![i, j])
}

/// Row-major position of `[r, c]` in an `n`-by-`m` matrix.
pub(crate) proof fn lemma_flat_2d(n: usize, m: usize, r: usize, c: usize)
    ensures
        flat_index(seq![n, m], seq![r, c]) == r * m + c,
{
    let s = seq![n, m];
    let x = seq![r, c];
    assert(s.drop_last() =~= seq![n]);
    assert(x.drop_last() =~= seq![r]);
    assert(seq![n].drop_last() =~= Seq::<usize>::empty());
    assert(seq![r].drop_last() =~= Seq::<usize>::empty());
    assert(flat_index(seq![n], seq![r]) == flat_index(Seq::<usize>::empty(), Seq::<usize>::empty())
        * (n as int) + (r as int));
    assert(flat_index(seq![n], seq![r]) == r);
}

/// The `n`-by-`n` identity matrix; `None` when `n` is negative.
pub fn np_array_eye_f64(n: i64) -> (r: Option<NDArrayF64>)
    requires
        n >= 0 ==> n <= usize::MAX && shape_fits(seq![n as usize, n as usize]),
    ensures
        r is None <==> n < 0,
        r matches Some(a) ==> {
            &&& array_shape(a) == seq![n as usize, n as usize]
            &&& well_formed(a)
            &&& forall|i: usize, j: usize|
                i < n && j < n ==> #[trigger] matrix_at(a, i, j) == if i == j {
                    F64_ONE_BITS
                } else {
                    0u64
                }
        },
{
    if n < 0 {
        return None;
    }
    let m = n as usize;
    let mut shape: Vec<usize> = Vec::new();
    shape.push(m);
    shape.push(m);
    assert(shape@ =~= seq![m, m]);
    let mut a = nd_zeros(&shape);
    let s = a.shape();
    proof {
        assert forall|r: usize, c: usize| r < m && c < m implies #[trigger] matrix_at(a, r, c) == if r
            == c && r < 0 {
            F64_ONE_BITS
        } else {
            0u64
        } by {
            assert(in_bounds(seq![m, m], seq![r, c]));
            lemma_flat_index_bounds(seq![m, m], seq![r, c]);
        }
    }
    let mut i: usize = 0;
    while i < m
        invariant
            i <= m,
            array_shape(a) == seq![m, m],
            well_formed(a),
            forall|r: usize, c: usize|
                r < m && c < m ==> #[trigger] matrix_at(a, r, c) == if r == c && r < i {
                    F64_ONE_BITS
                } else {
                    0u64
                },
        decreases m - i,
    {
        let mut ix: Vec<usize> = Vec::new();
        ix.push(i);
        ix.push(i);
        assert(ix@ =~= seq![i, i]);
        let ghost before = a;
        assert(in_bounds(seq![m, m], ix@));
        proof {
            lemma_flat_index_bounds(seq![m, m], ix@);
        }
        nd_set(&mut a, &ix, F64_ONE_BITS);
        assert(array_elems(a).len() == array_elems(before).len());
        proof {
            assert forall|r: usize, c: usize| r < m && c < m implies #[trigger] matrix_at(a, r, c) == if r == c && r < i + 1 {
                F64_ONE_BITS
            } else {
                0u64
            } by {
                assert(in_bounds(seq![m, m], seq![r, c]));
                law_set_then_get(before, a, seq![i, i], F64_ONE_BITS, seq![r, c]);
                assert(matrix_at(before, r, c) == if r == c && r < i {
                    F64_ONE_BITS
                } else {
                    0u64
                });
            }
        }
        i = i + 1;
    }
    proof {
        assert forall|i: usize, j: usize| i < n && j < n implies #[trigger] matrix_at(a, i, j) == if i == j {
            F64_ONE_BITS
        } else {
            0u64
        } by {
            assert(matrix_at(a, i, j) == if i == j && i < m {
                F64_ONE_BITS
            } else {
                0u64
            });
        }
    }
    Some(a)
}

/// The array of shape `shape` holding `data` (values drawn for it) in
/// row-major order; `None` when the shape does not fit or `data` does not
/// have one element per position.
pub fn fill_array(shape: &Vec<usize>, data: Vec<u64>) -> (r: Option<NDArrayF64>)
    ensures
        r is Some <==> (shape_fits(shape@) && shape_size(shape@) == data@.len()),
        r matches Some(a) ==> (array_shape(a) == shape@ && array_elems(a) == data@),
{
    nd_from_shape_vec(shape, data)
}

/// A new array with the requested shape holding `data` in row-major order;
/// `None` when `rank` is negative, when the shape does not fit, or when
/// `data` does not have one element per position.
pub fn np_array_from_data_f64(rank: i64, dims: &[i64], data: Vec<u64>) -> (r: Option<NDArrayF64>)
    requires
        rank >= 0 ==> dims@.len() == rank,
    ensures
        r is None <==> (rank < 0 || !shape_fits(clamped_shape(dims@)) || shape_size(
            clamped_shape(dims@),
        ) != data@.len()),
        r matches Some(a) ==> (array_shape(a) == clamped_shape(dims@) && array_elems(a) == data@),
{
    let d = match read_dims(rank, dims) {
        Some(d) => d,
        None => return None,
    };
    nd_from_shape_vec(&d, data)
}

/// The elements in row-major order.
pub fn np_array_to_data_f64(a: &NDArrayF64) -> (r: Vec<u64>)
    ensures
        r@ == array_elems(*a),
{
    a.to_vec()
}

/// The same elements in row-major order under a new shape; `None` when
/// `rank` is negative or the new shape does not fit or does not have the
/// same number of elements.
pub fn np_array_reshape_f64(a: &NDArrayF64, rank: i64, dims: &[i64]) -> (r: Option<NDArrayF64>)
    requires
        rank >= 0 ==> dims@.len() == rank,
    ensures
        r is None <==> (rank < 0 || !shape_fits(clamped_shape(dims@)) || shape_size(
            clamped_shape(dims@),
        ) != array_elems(*a).len()),
        r matches Some(b) ==> (array_shape(b) == clamped_shape(dims@) && array_elems(b)
            == array_elems(*a)),
{
    let d = match read_dims(rank, dims) {
        Some(d) => d,
        None => return None,
    };
    let total = match size_of_shape_checked(d.as_slice()) {
        Some(t) => t,
        None => return None,
    };
    let flat = a.to_vec();
    if total != flat.len() {
        return None;
    }
    nd_from_shape_vec(&d, flat)
}

/// `r` is the transpose of `a`: the axes reversed, the element at `idx`
/// being the element of `a` at `idx` reversed.
pub open spec fn is_transpose(r: NDArrayF64, a: NDArrayF64) -> bool {
    &&& array_shape(r) == array_shape(a).reverse()
    &&& forall|idx: Seq<usize>|
        in_bounds(array_shape(r), idx) ==> #[trigger] elem_at(r, idx) == elem_at(a, idx.reverse())
}

/// A row-major copy with all axes reversed (`.T` for matrices), stored
/// contiguously.
pub fn np_array_transpose_f64(a: &NDArrayF64) -> (r: NDArrayF64)
    ensures
        is_transpose(r, *a),
        well_formed(r),
        array_standard(r),
{
    let t = nd_transpose(a);
    let _ = t.shape();
    t
}

/// Reversing a shape and an index in bounds of it keeps the index in bounds.
proof fn lemma_in_bounds_reverse(s: Seq<usize>, idx: Seq<usize>)
    requires
        in_bounds(s, idx),
    ensures
        in_bounds(s.reverse(), idx.reverse()),
        idx.reverse().reverse() == idx,
        s.reverse().reverse() == s,
{
    assert forall|i: int| 0 <= i < s.len() implies #[trigger] idx.reverse()[i] < s.reverse()[i] by {
        assert(idx[s.len() - 1 - i] < s[s.len() - 1 - i]);
    }
    assert(idx.reverse().reverse() =~= idx);
    assert(s.reverse().reverse() =~= s);
}

/// Transposing twice gives back the array: same shape, same elements.
pub proof fn law_transpose_involutive(a: NDArrayF64, t: NDArrayF64, tt: NDArrayF64)
    requires
        well_formed(a),
        well_formed(tt),
        is_transpose(t, a),
        is_transpose(tt, t),
    ensures
        array_shape(tt) == array_shape(a),
        array_elems(tt) == array_elems(a),
{
    let s = array_shape(a);
    assert(s.reverse().reverse() =~= s);
    assert forall|p: int| 0 <= p < array_elems(a).len() implies #[trigger] array_elems(tt)[p]
        == array_elems(a)[p] by {
        lemma_unravel(s, p as nat);
        let idx = unravel(s, p as nat);
        lemma_in_bounds_reverse(s, idx);
        assert(elem_at(tt, idx) == elem_at(t, idx.reverse()));
        assert(elem_at(t, idx.reverse()) == elem_at(a, idx.reverse().reverse()));
    }
    assert(array_elems(tt) =~= array_elems(a));
}

/// An independent copy: same shape, same elements.
pub fn np_array_copy_f64(a: &NDArrayF64) -> (r: NDArrayF64)
    ensures
        array_shape(r) == array_shape(*a),
        array_elems(r) == array_elems(*a),
{
    nd_clone(a)
}

/// Start of a slice along an axis of length `dim` after Python-style
/// normalisation: a negative start counts from the end, then it is kept
/// within `0..=dim`.
pub open spec fn norm_start(st: i64, dim: int) -> int {
    let s = if st < 0 {
        st + dim
    } else {
        st as int
    };
    if s < 0 {
        0
    } else if s > dim {
        dim
    } else {
        s
    }
}

/// End of a slice after normalisation: a negative end counts from the end,
/// it is lowered to `dim`, then raised to the (normalised) start.
pub open spec fn norm_end(en: i64, start: int, dim: int) -> int {
    let e = if en < 0 {
        en + dim
    } else {
        en as int
    };
    let e2 = if e > dim {
        dim
    } else {
        e
    };
    if e2 < start {
        start
    } else {
        e2
    }
}

/// Python-style indices along an axis of length `dim`: a start or end `e`
/// with `-dim <= e < 0` stands for `dim + e`, one with `0 <= e <= dim` for
/// itself; the end is then raised to the start. So the slice from `st` to
/// `en` by `step` keeps exactly the positions `s + k * step` below the end:
/// for a negative end, those below `dim + en`.
pub proof fn law_slice_python_indices(st: i64, en: i64, dim: usize, step: usize)
    requires
        -(dim as int) <= st <= dim,
        -(dim as int) <= en <= dim,
        step > 0,
    ensures
        norm_start(st, dim as int) == if st < 0 {
            dim + st
        } else {
            st as int
        },
        ({
            let s = norm_start(st, dim as int);
            let e0 = if en < 0 {
                dim + en
            } else {
                en as int
            };
            &&& norm_end(en, s, dim as int) == if e0 < s {
                s
            } else {
                e0
            }
            &&& forall|k: nat|
                #![trigger k * step]
                k < stepped_len(s as usize, norm_end(en, s, dim as int) as usize, step as usize) <==> s
                    + k * step < e0
        }),
{
    let s = norm_start(st, dim as int);
    let e0 = if en < 0 {
        dim + en
    } else {
        en as int
    };
    let e = norm_end(en, s, dim as int);
    assert(0 <= s <= dim && s <= e <= dim);
    assert forall|k: nat| #![trigger k * step]
        k < stepped_len(s as usize, e as usize, step as usize) <==> s + k * step < e0 by {
        if e <= s {
            assert(s + k * step >= s) by (nonlinear_arith)
                requires
                    step > 0,
            ;
        } else {
            let d = e - s;
            let q = (d + step - 1) / (step as int);
            assert(stepped_len(s as usize, e as usize, step as usize) == q);
            assert(k < q <==> k * step < d) by (nonlinear_arith)
                requires
                    d > 0,
                    step > 0,
                    q == (d + step - 1) / (step as int),
            ;
        }
    }
}

/// The normalised starts of a slice request.
pub open spec fn norm_starts(a: NDArrayF64, starts: Seq<i64>) -> Seq<usize> {
    Seq::new(starts.len(), |i: int| norm_start(starts[i], array_shape(a)[i] as int) as usize)
}

/// The normalised ends of a slice request.
pub open spec fn norm_ends(a: NDArrayF64, starts: Seq<i64>, ends: Seq<i64>) -> Seq<usize> {
    Seq::new(
        ends.len(),
        |i: int|
            norm_end(
                ends[i],
                norm_start(starts[i], array_shape(a)[i] as int),
                array_shape(a)[i] as int,
            ) as usize,
    )
}

/// Every step of a slice request is positive.
pub open spec fn steps_positive(steps: Seq<i64>) -> bool {
    forall|i: int| 0 <= i < steps.len() ==> #[trigger] steps[i] > 0
}

/// The strided slice `starts[i]..ends[i]` by `steps[i]` of every axis, as a
/// new array stored contiguously in row-major order. Negative starts and ends count from the end of the
/// axis, and a start or end beyond the axis stops at its end (so that the
/// axis of the result is empty); `None` when `rank` is negative, differs
/// from the number of axes, or a step is not positive.
pub fn np_array_slice_f64(a: &NDArrayF64, rank: i64, starts: &[i64], ends: &[i64], steps: &[i64]) -> (r:
    Option<NDArrayF64>)
    requires
        rank >= 0 && rank == array_shape(*a).len() ==> {
            &&& starts@.len() == rank
            &&& ends@.len() == rank
            &&& steps@.len() == rank
            &&& steps_positive(steps@) ==> forall|i: int|
                0 <= i < rank ==> #[trigger] steps@[i] <= isize::MAX
        },
    ensures
        r is None <==> (rank < 0 || rank != array_shape(*a).len() || !steps_positive(steps@)),
        r matches Some(b) ==> {
            &&& array_shape(b) == Seq::new(
                array_shape(*a).len(),
                |i: int|
                    stepped_len(
                        norm_starts(*a, starts@)[i],
                        norm_ends(*a, starts@, ends@)[i],
                        steps@[i] as usize,
                    ) as usize,
            )
            &&& array_standard(b)
            &&& forall|idx: Seq<usize>|
                in_bounds(array_shape(b), idx) ==> #[trigger] elem_at(b, idx) == elem_at(
                    *a,
                    slice_source(norm_starts(*a, starts@), index_of(steps@), idx),
                )
        },
{
    let shape = a.shape();
    if rank < 0 || (rank as u64) != (shape.len() as u64) {
        return None;
    }
    proof {
        lemma_fits_dims(shape@);
    }
    let r = shape.len();
    let mut st_v: Vec<usize> = Vec::new();
    let mut en_v: Vec<usize> = Vec::new();
    let mut sp_v: Vec<usize> = Vec::new();
    let mut i: usize = 0;
    while i < r
        invariant
            r == shape@.len(),
            shape@ == array_shape(*a),
            starts@.len() == r && ends@.len() == r && steps@.len() == r,
            forall|k: int| 0 <= k < r ==> #[trigger] shape@[k] <= isize::MAX,
            steps_positive(steps@) ==> forall|k: int| 0 <= k < r ==> #[trigger] steps@[k] <= isize::MAX,
            i <= r,
            st_v@ == norm_starts(*a, starts@).take(i as int),
            en_v@ == norm_ends(*a, starts@, ends@).take(i as int),
            sp_v@ == index_of(steps@).take(i as int),
            forall|k: int| 0 <= k < i ==> #[trigger] steps@[k] > 0,
        decreases r - i,
    {
        let dim = shape[i] as i64;
        let mut st = starts[i];
        let mut en = ends[i];
        if st < 0 {
            st = st + dim;
        }
        if en < 0 {
            en = en + dim;
        }
        if st < 0 {
            st = 0;
        }
        if st > dim {
            st = dim;
        }
        if en > dim {
            en = dim;
        }
        if en < st {
            en = st;
        }
        let step = steps[i];
        if step <= 0 {
            assert(!steps_positive(steps@));
            return None;
        }
        assert(st == norm_start(starts@[i as int], shape@[i as int] as int));
        assert(en == norm_end(ends@[i as int], st as int, shape@[i as int] as int));
        st_v.push(st as usize);
        en_v.push(en as usize);
        sp_v.push(step as usize);
        i = i + 1;
        assert(st_v@ =~= norm_starts(*a, starts@).take(i as int));
        assert(en_v@ =~= norm_ends(*a, starts@, ends@).take(i as int));
        assert(sp_v@ =~= index_of(steps@).take(i as int));
    }
    assert(steps_positive(steps@));
    assert(st_v@ =~= norm_starts(*a, starts@));
    assert(en_v@ =~= norm_ends(*a, starts@, ends@));
    assert(sp_v@ =~= index_of(steps@));
    let b = nd_slice(a, &st_v, &en_v, &sp_v);
    Some(b)
}

/// The entries of `idxs` as picks along an axis of length `len`, when all
/// of them are within `0..len`.
pub open spec fn picks_valid(idxs: Seq<i64>, len: usize) -> bool {
    forall|k: int| 0 <= k < idxs.len() ==> 0 <= #[trigger] idxs[k] < len
}

/// Along `axis`, the sub-arrays at the listed positions, in order (fancy
/// indexing); `None` when the axis does not exist or a position is out of
/// range. (A result whose shape does not fit makes `ndarray` panic.)
pub fn np_array_take_f64(a: &NDArrayF64, axis: i64, idxs: &[i64]) -> (r: Option<NDArrayF64>)
    requires
        0 <= axis < array_shape(*a).len() && picks_valid(idxs@, array_shape(*a)[axis as int])
            ==> shape_fits(array_shape(*a).update(axis as int, idxs@.len() as usize)),
    ensures
        r is None <==> !(0 <= axis < array_shape(*a).len() && picks_valid(
            idxs@,
            array_shape(*a)[axis as int],
        )),
        r matches Some(b) ==> {
            &&& array_shape(b) == array_shape(*a).update(axis as int, idxs@.len() as usize)
            &&& forall|idx: Seq<usize>|
                in_bounds(array_shape(b), idx) ==> #[trigger] elem_at(b, idx) == elem_at(
                    *a,
                    idx.update(axis as int, idxs@[idx[axis as int] as int] as usize),
                )
        },
{
    let shape = a.shape();
    if axis < 0 || (axis as u64) >= (shape.len() as u64) {
        return None;
    }
    let ax = axis as usize;
    let dim_len = shape[ax];
    let mut picks: Vec<usize> = Vec::new();
    let mut k: usize = 0;
    while k < idxs.len()
        invariant
            ax < shape@.len(),
            ax == axis,
            shape@ == array_shape(*a),
            dim_len == shape@[ax as int],
            k <= idxs@.len(),
            picks@ == index_of(idxs@.take(k as int)),
            forall|t: int| 0 <= t < k ==> 0 <= #[trigger] idxs@[t] < dim_len,
        decreases idxs@.len() - k,
    {
        let i = idxs[k];
        if i < 0 || (i as u64) >= (dim_len as u64) {
            assert(!(0 <= idxs@[k as int] < dim_len));
            assert(!picks_valid(idxs@, dim_len));
            return None;
        }
        picks.push(i as usize);
        k = k + 1;
        assert(picks@ =~= index_of(idxs@.take(k as int)));
    }
    assert(idxs@.take(idxs@.len() as int) =~= idxs@);
    assert(picks@.len() == idxs@.len());
    let b = nd_select(a, ax, &picks);
    Some(b)
}

/// An array of shape `shape` holding `data` in row-major order, for a shape
/// that fits and a vector with one element per position.
pub(crate) fn nd_from_parts(shape: &Vec<usize>, data: Vec<u64>) -> (r: NDArrayF64)
    requires
        shape_fits(shape@),
        shape_size(shape@) == data@.len(),
    ensures
        array_shape(r) == shape@,
        array_elems(r) == data@,
        well_formed(r),
{
    nd_from_shape_vec(shape, data).unwrap()
}

/// The lane of `a` along `axis` at position `j` of the remaining axes (in
/// row-major order): the elements whose other indices are those of `j`.
pub open spec fn lane(a: NDArrayF64, axis: int, j: nat) -> Seq<u64> {
    Seq::new(
        array_shape(a)[axis] as nat,
        |k: int| elem_at(a, unravel(array_shape(a).remove(axis), j).insert(axis, k as usize)),
    )
}

/// `ArrayBase::map_axis` collecting each lane: one vector per position of
/// the other axes, in row-major order, holding the elements along `axis`.
/// It panics when `axis` is out of bounds.
#[verifier::external_body]
pub(crate) fn nd_lanes(a: &NDArrayF64, axis: usize) -> (r: Vec<Vec<u64>>)
    requires
        axis < array_shape(*a).len(),
    ensures
        r@.len() == shape_size(array_shape(*a).remove(axis as int)),
        forall|j: int| 0 <= j < r@.len() ==> #[trigger] r@[j]@ == lane(*a, axis as int, j as nat),
{
    a.inner.map_axis(Axis(axis), |l| l.to_vec()).into_iter().collect()
}

} // verus!
