//! Reductions along one axis.
use vstd::prelude::*;
use crate::array::{array_elems, array_shape, lane, nd_from_parts, nd_lanes, well_formed, NDArrayF64};
use crate::shape::{nonzero_size, shape_fits, shape_size};

verus! {

/// An axis length, with zero counted as 1 (as in the non-zero product).
pub open spec fn nz(d: usize) -> nat {
    if d == 0 {
        1nat
    } else {
        d as nat
    }
}

/// Removing axis `i` divides the element count by its length, and the
/// product of the non-zero lengths by its non-zero length.
pub proof fn lemma_remove_axis_size(s: Seq<usize>, i: int)
    requires
        0 <= i < s.len(),
    ensures
        shape_size(s) == shape_size(s.remove(i)) * (s[i] as nat),
        nonzero_size(s) == nonzero_size(s.remove(i)) * nz(s[i]),
    decreases s.len(),
{
    if i == s.len() - 1 {
        assert(s.remove(i) =~= s.drop_last());
    } else {
        let d = s.drop_last();
        lemma_remove_axis_size(d, i);
        assert(s.remove(i).drop_last() =~= d.remove(i));
        assert(s.remove(i).last() == s.last());
        let a = shape_size(d.remove(i));
        let b = s[i] as nat;
        let l = s.last() as nat;
        assert(a * b * l == a * l * b) by (nonlinear_arith);
        let na = nonzero_size(d.remove(i));
        let nb = nz(s[i]);
        let nl = nz(s.last());
        assert(na * nb * nl == na * nl * nb) by (nonlinear_arith);
        assert(d[i] == s[i]);
    }
}

/// Setting axis `i` to length 1 has the element counts of removing it.
pub proof fn lemma_keep_axis_size(s: Seq<usize>, i: int)
    requires
        0 <= i < s.len(),
    ensures
        shape_size(s.update(i, 1)) == shape_size(s.remove(i)),
        nonzero_size(s.update(i, 1)) == nonzero_size(s.remove(i)),
{
    let u = s.update(i, 1usize);
    lemma_remove_axis_size(u, i);
    assert(u.remove(i) =~= s.remove(i));
    assert(u[i] == 1usize);
    assert(nz(u[i]) == 1);
    let x = nonzero_size(u.remove(i));
    assert(x * nz(u[i]) == x) by (nonlinear_arith)
        requires
            nz(u[i]) == 1,
    ;
}

/// Removing an axis keeps a shape that fits.
pub proof fn lemma_remove_axis_fits(s: Seq<usize>, i: int)
    requires
        0 <= i < s.len(),
        shape_fits(s),
    ensures
        shape_fits(s.remove(i)),
{
    lemma_remove_axis_size(s, i);
    let a = nonzero_size(s.remove(i));
    let b = nz(s[i]);
    assert(a <= a * b) by (nonlinear_arith)
        requires
            b >= 1,
    ;
}

/// `f` sends some vector holding `l` to `out`.
pub open spec fn reduces_to<F: Fn(&Vec<u64>) -> u64>(f: F, l: Seq<u64>, out: u64) -> bool {
    exists|v: Vec<u64>| #[trigger] f.ensures((&v,), out) && v@ == l
}

/// The shape of a reduction along `axis`: the axis removed, or kept with
/// length 1.
pub open spec fn reduced_shape(s: Seq<usize>, axis: int, keepdims: bool) -> Seq<usize> {
    if keepdims {
        s.update(axis, 1usize)
    } else {
        s.remove(axis)
    }
}

/// Reduces every lane along `axis` with `f` (one result per position of the
/// other axes, in row-major order), dropping the axis or keeping it with
/// length 1; `None` when the axis does not exist.
pub fn np_reduce_axis_f64<F: Fn(&Vec<u64>) -> u64>(a: &NDArrayF64, axis: i64, keepdims: bool, f: F) -> (r:
    Option<NDArrayF64>)
    requires
        forall|v: &Vec<u64>| f.requires((v,)),
    ensures
        r is None <==> !(0 <= axis < array_shape(*a).len()),
        r matches Some(b) ==> {
            &&& array_shape(b) == reduced_shape(array_shape(*a), axis as int, keepdims)
            &&& well_formed(b)
            &&& array_elems(b).len() == shape_size(array_shape(*a).remove(axis as int))
            &&& forall|j: int|
                0 <= j < array_elems(b).len() ==> reduces_to(
                    f,
                    lane(*a, axis as int, j as nat),
                    #[trigger] array_elems(b)[j],
                )
        },
{
    let s = a.shape();
    if axis < 0 || (axis as u64) >= (s.len() as u64) {
        return None;
    }
    let ax = axis as usize;
    let lanes = nd_lanes(a, ax);
    let n = lanes.len();
    let mut out: Vec<u64> = Vec::new();
    let mut j: usize = 0;
    while j < n
        invariant
            n == lanes@.len(),
            forall|v: &Vec<u64>| f.requires((v,)),
            j <= n,
            out@.len() == j,
            forall|q: int| 0 <= q < j ==> f.ensures((&lanes@[q],), #[trigger] out@[q]),
        decreases n - j,
    {
        let v = f(&lanes[j]);
        out.push(v);
        j = j + 1;
    }
    let mut shape: Vec<usize> = Vec::new();
    let mut i: usize = 0;
    while i < s.len()
        invariant
            ax < s@.len(),
            i <= s@.len(),
            shape@ == if keepdims {
                s@.update(ax as int, 1usize).take(i as int)
            } else if i <= ax {
                s@.take(i as int)
            } else {
                s@.remove(ax as int).take(i - 1)
            },
        decreases s@.len() - i,
    {
        if i == ax {
            if keepdims {
                shape.push(1);
            }
        } else {
            shape.push(s[i]);
        }
        i = i + 1;
        proof {
            if keepdims {
                assert(shape@ =~= s@.update(ax as int, 1usize).take(i as int));
            } else if i <= ax {
                assert(shape@ =~= s@.take(i as int));
            } else if i == ax + 1 {
                assert(shape@ =~= s@.remove(ax as int).take(i - 1));
            } else {
                assert(shape@ =~= s@.remove(ax as int).take(i - 1));
            }
        }
    }
    proof {
        if keepdims {
            assert(shape@ =~= s@.update(ax as int, 1usize));
        } else {
            assert(shape@ =~= s@.remove(ax as int));
        }
        lemma_remove_axis_fits(s@, ax as int);
        lemma_keep_axis_size(s@, ax as int);
    }
    let b = nd_from_parts(&shape, out);
    proof {
        assert forall|q: int| 0 <= q < array_elems(b).len() implies reduces_to(
            f,
            lane(*a, axis as int, q as nat),
            #[trigger] array_elems(b)[q],
        ) by {
            assert(f.ensures((&lanes@[q],), array_elems(b)[q]));
            assert(lanes@[q]@ == lane(*a, axis as int, q as nat));
        }
    }
    Some(b)
}

/// Whether a value (as a bit pattern) is non-zero: it is neither `0.0` nor
/// `-0.0` (NaN counts as non-zero).
pub open spec fn nonzero(b: u64) -> bool {
    b & 0x7fff_ffff_ffff_ffffu64 != 0
}

/// Whether a value (as a bit pattern) is non-zero.
pub fn is_nonzero(b: u64) -> (r: bool)
    ensures
        r == nonzero(b),
        r == (b != 0 && b != 0x8000_0000_0000_0000u64),
{
    proof {
        law_nonzero(b);
    }
    b & 0x7fff_ffff_ffff_ffffu64 != 0
}

/// Exactly the bit patterns of `0.0` and `-0.0` are zero: every other one
/// (a finite non-zero value, an infinity or a NaN) is non-zero.
pub proof fn law_nonzero(b: u64)
    ensures
        nonzero(b) <==> (b != 0 && b != 0x8000_0000_0000_0000u64),
{
    assert((b & 0x7fff_ffff_ffff_ffffu64 != 0) <==> (b != 0 && b != 0x8000_0000_0000_0000u64))
        by (bit_vector);
}

/// Whether some element of the lane is non-zero; false for an empty lane.
pub fn any_nonzero(v: &[u64]) -> (r: bool)
    ensures
        r <==> exists|i: int| 0 <= i < v@.len() && #[trigger] nonzero(v@[i]),
        r <==> exists|i: int|
            0 <= i < v@.len() && #[trigger] v@[i] != 0 && v@[i] != 0x8000_0000_0000_0000u64,
{
    let mut i: usize = 0;
    while i < v.len()
        invariant
            i <= v@.len(),
            forall|k: int| 0 <= k < i ==> !#[trigger] nonzero(v@[k]),
            forall|k: int| 0 <= k < i ==> #[trigger] v@[k] == 0 || v@[k] == 0x8000_0000_0000_0000u64,
        decreases v@.len() - i,
    {
        if is_nonzero(v[i]) {
            return true;
        }
        i = i + 1;
    }
    false
}

/// Whether every element of the lane is non-zero; true for an empty lane.
pub fn all_nonzero(v: &[u64]) -> (r: bool)
    ensures
        r <==> forall|i: int| 0 <= i < v@.len() ==> #[trigger] nonzero(v@[i]),
        r <==> forall|i: int|
            0 <= i < v@.len() ==> #[trigger] v@[i] != 0 && v@[i] != 0x8000_0000_0000_0000u64,
{
    let mut i: usize = 0;
    while i < v.len()
        invariant
            i <= v@.len(),
            forall|k: int| 0 <= k < i ==> #[trigger] nonzero(v@[k]),
            forall|k: int| 0 <= k < i ==> #[trigger] v@[k] != 0 && v@[k] != 0x8000_0000_0000_0000u64,
        decreases v@.len() - i,
    {
        if !is_nonzero(v[i]) {
            return false;
        }
        i = i + 1;
    }
    true
}

} // verus!
