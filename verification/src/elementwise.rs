//! Element-wise kernels with NumPy broadcasting: binary operations, maps,
//! in-place updates and the mask kernels `where`, `copyto` and
//! `masked_assign`.
//!
//! The arithmetic itself is supplied by the caller as a closure on element
//! bit patterns; the kernels fix which elements meet and where results go.
use vstd::prelude::*;
use crate::array::{
    array_elems, array_shape, elem_at, nd_broadcast, nd_from_parts, well_formed, NDArrayF64,
};
use crate::broadcast::{
    broadcast_left3, broadcast_shape, lemma_broadcast_stretches, spec_broadcast_shape,
    stretch_source, stretches_to,
};
use crate::shape::{flat_index, in_bounds, lemma_flat_index_bounds, lemma_unravel, shape_fits, unravel};

verus! {

/// The element of `a` seen at index `idx` of its stretched copy of shape `t`.
pub open spec fn bcast_elem(a: NDArrayF64, t: Seq<usize>, idx: Seq<usize>) -> u64 {
    elem_at(a, stretch_source(array_shape(a), t, idx))
}

/// Whether a mask element is true: its value is neither zero (of either
/// sign) nor NaN. In IEEE-754 binary64 the magnitude bits (all but the
/// sign) are zero exactly for `±0.0` and exceed `0x7ff0_0000_0000_0000`
/// exactly for NaN.
pub open spec fn mask_true(b: u64) -> bool {
    let mag = b & 0x7fff_ffff_ffff_ffffu64;
    mag != 0 && mag <= 0x7ff0_0000_0000_0000u64
}

/// `b` is the bit pattern of `0.0` or `-0.0`.
pub open spec fn is_zero_bits(b: u64) -> bool {
    b == 0 || b == 0x8000_0000_0000_0000u64
}

/// `b` is the bit pattern of a NaN: all exponent bits set and a non-zero
/// fraction.
pub open spec fn is_nan_bits(b: u64) -> bool {
    b & 0x7ff0_0000_0000_0000u64 == 0x7ff0_0000_0000_0000u64 && b & 0x000f_ffff_ffff_ffffu64 != 0
}

/// A mask element is true exactly when its value is neither zero (of either
/// sign) nor NaN: every other finite value and both infinities are true.
pub proof fn law_mask_true(b: u64)
    ensures
        mask_true(b) <==> (!is_zero_bits(b) && !is_nan_bits(b)),
{
    assert(((b & 0x7fff_ffff_ffff_ffffu64) != 0 && (b & 0x7fff_ffff_ffff_ffffu64)
        <= 0x7ff0_0000_0000_0000u64) <==> (!(b == 0 || b == 0x8000_0000_0000_0000u64) && !(b
        & 0x7ff0_0000_0000_0000u64 == 0x7ff0_0000_0000_0000u64 && b & 0x000f_ffff_ffff_ffffu64
        != 0))) by (bit_vector);
}

/// Whether a mask element (as a bit pattern) counts as true.
pub fn is_true(b: u64) -> (r: bool)
    ensures
        r == mask_true(b),
        r == (!is_zero_bits(b) && !is_nan_bits(b)),
{
    proof {
        law_mask_true(b);
    }
    let mag = b & 0x7fff_ffff_ffff_ffffu64;
    mag != 0 && mag <= 0x7ff0_0000_0000_0000u64
}

/// Stretching composes: if `s` stretches to `t` and `t` to `u`, then `s`
/// stretches to `u`.
pub proof fn lemma_stretch_transitive(s: Seq<usize>, t: Seq<usize>, u: Seq<usize>)
    requires
        stretches_to(s, t),
        stretches_to(t, u),
    ensures
        stretches_to(s, u),
{
    assert forall|j: int| 0 <= j < s.len() implies #[trigger] s[j] == u[j + u.len() - s.len()]
        || s[j] == 1 by {
        let k = j + t.len() - s.len();
        assert(s[j] == t[k] || s[j] == 1);
        assert(t[k] == u[k + u.len() - t.len()] || t[k] == 1);
    }
}

/// The array `a` stretched to shape `t`, when `t` fits and `a`'s shape
/// stretches to it.
pub fn broadcast_view(a: &NDArrayF64, t: &Vec<usize>) -> (r: Option<NDArrayF64>)
    ensures
        r is Some <==> (shape_fits(t@) && stretches_to(array_shape(*a), t@)),
        r matches Some(b) ==> {
            &&& array_shape(b) == t@
            &&& well_formed(b)
            &&& forall|p: int|
                0 <= p < array_elems(b).len() ==> #[trigger] array_elems(b)[p] == bcast_elem(
                    *a,
                    t@,
                    unravel(t@, p as nat),
                )
        },
{
    match nd_broadcast(a, t) {
        Some(b) => {
            let _ = b.shape();
            proof {
                assert forall|p: int| 0 <= p < array_elems(b).len() implies #[trigger] array_elems(
                    b,
                )[p] == bcast_elem(*a, t@, unravel(t@, p as nat)) by {
                    lemma_unravel(t@, p as nat);
                    let idx = unravel(t@, p as nat);
                    assert(in_bounds(t@, idx));
                    assert(elem_at(b, idx) == bcast_elem(*a, t@, idx));
                }
            }
            Some(b)
        },
        None => None,
    }
}

/// For a result built position by position over shape `t`, a fact stated at
/// each row-major position holds at each index.
proof fn lemma_positions_to_indices(t: Seq<usize>, idx: Seq<usize>)
    requires
        in_bounds(t, idx),
    ensures
        unravel(t, flat_index(t, idx) as nat) == idx,
        0 <= flat_index(t, idx) < crate::shape::shape_size(t),
{
    lemma_flat_index_bounds(t, idx);
    let p = flat_index(t, idx) as nat;
    lemma_unravel(t, p);
    crate::shape::lemma_flat_index_injective(t, unravel(t, p), idx);
}

/// The shape `a` and `b` broadcast to, when they are broadcastable and it fits.
pub open spec fn zip_shape_ok(a: NDArrayF64, b: NDArrayF64) -> bool {
    match spec_broadcast_shape(array_shape(a), array_shape(b)) {
        Some(t) => shape_fits(t),
        None => false,
    }
}

/// `f` applied to the elements of `a` and `b` that meet under broadcasting;
/// `None` when their shapes cannot be broadcast together or the common
/// shape does not fit.
pub fn binop_broadcast<F: Fn(u64, u64) -> u64>(a: &NDArrayF64, b: &NDArrayF64, f: F) -> (r: Option<
    NDArrayF64,
>)
    requires
        forall|x: u64, y: u64| f.requires((x, y)),
    ensures
        r is Some <==> zip_shape_ok(*a, *b),
        r matches Some(c) ==> {
            &&& spec_broadcast_shape(array_shape(*a), array_shape(*b)) == Some(array_shape(c))
            &&& well_formed(c)
            &&& forall|idx: Seq<usize>|
                in_bounds(array_shape(c), idx) ==> f.ensures(
                    (
                        bcast_elem(*a, array_shape(c), idx),
                        bcast_elem(*b, array_shape(c), idx),
                    ),
                    #[trigger] elem_at(c, idx),
                )
        },
{
    let sa = a.shape();
    let sb = b.shape();
    let t = match broadcast_shape(sa.as_slice(), sb.as_slice()) {
        Some(t) => t,
        None => return None,
    };
    proof {
        lemma_broadcast_stretches(sa@, sb@);
    }
    let av = match broadcast_view(a, &t) {
        Some(v) => v,
        None => return None,
    };
    let bv = match broadcast_view(b, &t) {
        Some(v) => v,
        None => return None,
    };
    let x = av.to_vec();
    let y = bv.to_vec();
    let n = x.len();
    let mut out: Vec<u64> = Vec::new();
    let mut p: usize = 0;
    while p < n
        invariant
            n == x@.len(),
            x@.len() == y@.len(),
            forall|x0: u64, y0: u64| f.requires((x0, y0)),
            p <= n,
            out@.len() == p,
            forall|q: int| 0 <= q < p ==> f.ensures((x@[q], y@[q]), #[trigger] out@[q]),
        decreases n - p,
    {
        let v = f(x[p], y[p]);
        out.push(v);
        p = p + 1;
    }
    let c = nd_from_parts(&t, out);
    proof {
        assert forall|idx: Seq<usize>| in_bounds(array_shape(c), idx) implies f.ensures(
            (bcast_elem(*a, array_shape(c), idx), bcast_elem(*b, array_shape(c), idx)),
            #[trigger] elem_at(c, idx),
        ) by {
            lemma_positions_to_indices(t@, idx);
            let q = flat_index(t@, idx);
            assert(x@[q] == array_elems(av)[q]);
        }
    }
    Some(c)
}

/// `f` applied to every element, in row-major order; same shape.
pub fn map_elements<F: Fn(u64) -> u64>(a: &NDArrayF64, f: F) -> (r: NDArrayF64)
    requires
        forall|x: u64| f.requires((x,)),
    ensures
        array_shape(r) == array_shape(*a),
        well_formed(r),
        array_elems(r).len() == array_elems(*a).len(),
        forall|p: int|
            0 <= p < array_elems(*a).len() ==> f.ensures(
                (array_elems(*a)[p],),
                #[trigger] array_elems(r)[p],
            ),
{
    let s = a.shape();
    let x = a.to_vec();
    let n = x.len();
    let mut out: Vec<u64> = Vec::new();
    let mut p: usize = 0;
    while p < n
        invariant
            n == x@.len(),
            forall|x0: u64| f.requires((x0,)),
            p <= n,
            out@.len() == p,
            forall|q: int| 0 <= q < p ==> f.ensures((x@[q],), #[trigger] out@[q]),
        decreases n - p,
    {
        let v = f(x[p]);
        out.push(v);
        p = p + 1;
    }
    nd_from_parts(&s, out)
}

/// In place, `dst[i] = f(dst[i], src[i])` with `src` stretched to the shape
/// of `dst`: 0 on success, -1 (with `dst` unchanged) when `src` cannot be
/// stretched to it.
pub fn np_binop_inplace_f64<F: Fn(u64, u64) -> u64>(dst: &mut NDArrayF64, src: &NDArrayF64, f: F) -> (r:
    i32)
    requires
        forall|x: u64, y: u64| f.requires((x, y)),
    ensures
        r == 0 <==> stretches_to(array_shape(*src), array_shape(*old(dst))),
        r == 0 || r == -1,
        array_shape(*final(dst)) == array_shape(*old(dst)),
        r == -1 ==> array_elems(*final(dst)) == array_elems(*old(dst)),
        r == 0 ==> forall|idx: Seq<usize>|
            in_bounds(array_shape(*old(dst)), idx) ==> f.ensures(
                (elem_at(*old(dst), idx), bcast_elem(*src, array_shape(*old(dst)), idx)),
                #[trigger] elem_at(*final(dst), idx),
            ),
{
    let target = dst.shape();
    let sv = match broadcast_view(src, &target) {
        Some(v) => v,
        None => return -1,
    };
    let d = dst.to_vec();
    let s = sv.to_vec();
    let n = d.len();
    let mut out: Vec<u64> = Vec::new();
    let mut p: usize = 0;
    while p < n
        invariant
            n == d@.len(),
            d@.len() == s@.len(),
            forall|x0: u64, y0: u64| f.requires((x0, y0)),
            p <= n,
            out@.len() == p,
            forall|q: int| 0 <= q < p ==> f.ensures((d@[q], s@[q]), #[trigger] out@[q]),
        decreases n - p,
    {
        let v = f(d[p], s[p]);
        out.push(v);
        p = p + 1;
    }
    let ghost old_dst = *dst;
    *dst = nd_from_parts(&target, out);
    proof {
        assert forall|idx: Seq<usize>| in_bounds(array_shape(old_dst), idx) implies f.ensures(
            (elem_at(old_dst, idx), bcast_elem(*src, array_shape(old_dst), idx)),
            #[trigger] elem_at(*dst, idx),
        ) by {
            lemma_positions_to_indices(target@, idx);
        }
    }
    0
}

/// In place, `dst[i] = f(dst[i])` for every element; always 0.
pub fn np_binop_inplace_scalar_f64<F: Fn(u64) -> u64>(dst: &mut NDArrayF64, f: F) -> (r: i32)
    requires
        forall|x: u64| f.requires((x,)),
    ensures
        r == 0,
        array_shape(*final(dst)) == array_shape(*old(dst)),
        array_elems(*final(dst)).len() == array_elems(*old(dst)).len(),
        forall|p: int|
            0 <= p < array_elems(*old(dst)).len() ==> f.ensures(
                (array_elems(*old(dst))[p],),
                #[trigger] array_elems(*final(dst))[p],
            ),
{
    let m = map_elements(dst, f);
    *dst = m;
    0
}

/// The shape that `mask`, `x` and `y` broadcast to, when there is one and it
/// fits.
pub open spec fn where_shape_ok(m: NDArrayF64, x: NDArrayF64, y: NDArrayF64) -> bool {
    match broadcast_left3(array_shape(m), array_shape(x), array_shape(y)) {
        Some(t) => shape_fits(t),
        None => false,
    }
}

/// Element-wise `mask ? x : y` over the common broadcast shape of the three;
/// `None` when they cannot be broadcast together or that shape does not fit.
pub fn np_where_f64(m: &NDArrayF64, x: &NDArrayF64, y: &NDArrayF64) -> (r: Option<NDArrayF64>)
    ensures
        r is Some <==> where_shape_ok(*m, *x, *y),
        r matches Some(c) ==> {
            &&& broadcast_left3(array_shape(*m), array_shape(*x), array_shape(*y)) == Some(
                array_shape(c),
            )
            &&& well_formed(c)
            &&& forall|idx: Seq<usize>|
                in_bounds(array_shape(c), idx) ==> #[trigger] elem_at(c, idx) == if mask_true(
                    bcast_elem(*m, array_shape(c), idx),
                ) {
                    bcast_elem(*x, array_shape(c), idx)
                } else {
                    bcast_elem(*y, array_shape(c), idx)
                }
        },
{
    let sm = m.shape();
    let sx = x.shape();
    let sy = y.shape();
    let s1 = match broadcast_shape(sm.as_slice(), sx.as_slice()) {
        Some(s) => s,
        None => return None,
    };
    let t = match broadcast_shape(s1.as_slice(), sy.as_slice()) {
        Some(s) => s,
        None => return None,
    };
    proof {
        lemma_broadcast_stretches(sm@, sx@);
        lemma_broadcast_stretches(s1@, sy@);
        lemma_stretch_transitive(sm@, s1@, t@);
        lemma_stretch_transitive(sx@, s1@, t@);
    }
    let mv = match broadcast_view(m, &t) {
        Some(v) => v,
        None => return None,
    };
    let xv = match broadcast_view(x, &t) {
        Some(v) => v,
        None => return None,
    };
    let yv = match broadcast_view(y, &t) {
        Some(v) => v,
        None => return None,
    };
    let mm = mv.to_vec();
    let xx = xv.to_vec();
    let yy = yv.to_vec();
    let n = mm.len();
    let mut out: Vec<u64> = Vec::new();
    let mut p: usize = 0;
    while p < n
        invariant
            n == mm@.len(),
            mm@.len() == xx@.len(),
            mm@.len() == yy@.len(),
            p <= n,
            out@.len() == p,
            forall|q: int|
                0 <= q < p ==> #[trigger] out@[q] == if mask_true(mm@[q]) {
                    xx@[q]
                } else {
                    yy@[q]
                },
        decreases n - p,
    {
        let v = if is_true(mm[p]) {
            xx[p]
        } else {
            yy[p]
        };
        out.push(v);
        p = p + 1;
    }
    let c = nd_from_parts(&t, out);
    proof {
        assert forall|idx: Seq<usize>| in_bounds(array_shape(c), idx) implies #[trigger] elem_at(
            c,
            idx,
        ) == if mask_true(bcast_elem(*m, array_shape(c), idx)) {
            bcast_elem(*x, array_shape(c), idx)
        } else {
            bcast_elem(*y, array_shape(c), idx)
        } by {
            lemma_positions_to_indices(t@, idx);
        }
    }
    Some(c)
}

/// In place, `dst[i] = src[i]` wherever the mask is true, with `src` and
/// `mask` stretched to the shape of `dst`: 0 on success, -2 (with `dst`
/// unchanged) when either cannot be stretched to it.
pub fn np_copyto_f64(dst: &mut NDArrayF64, src: &NDArrayF64, mask: &NDArrayF64) -> (r: i32)
    ensures
        r == 0 <==> (stretches_to(array_shape(*src), array_shape(*old(dst))) && stretches_to(
            array_shape(*mask),
            array_shape(*old(dst)),
        )),
        r == 0 || r == -2,
        array_shape(*final(dst)) == array_shape(*old(dst)),
        r == -2 ==> array_elems(*final(dst)) == array_elems(*old(dst)),
        r == 0 ==> forall|idx: Seq<usize>|
            in_bounds(array_shape(*old(dst)), idx) ==> #[trigger] elem_at(*final(dst), idx) == if mask_true(
                bcast_elem(*mask, array_shape(*old(dst)), idx),
            ) {
                bcast_elem(*src, array_shape(*old(dst)), idx)
            } else {
                elem_at(*old(dst), idx)
            },
{
    let target = dst.shape();
    let sv = match broadcast_view(src, &target) {
        Some(v) => v,
        None => return -2,
    };
    let mv = match broadcast_view(mask, &target) {
        Some(v) => v,
        None => return -2,
    };
    let d = dst.to_vec();
    let s = sv.to_vec();
    let mm = mv.to_vec();
    let n = d.len();
    let mut out: Vec<u64> = Vec::new();
    let mut p: usize = 0;
    while p < n
        invariant
            n == d@.len(),
            d@.len() == s@.len(),
            d@.len() == mm@.len(),
            p <= n,
            out@.len() == p,
            forall|q: int|
                0 <= q < p ==> #[trigger] out@[q] == if mask_true(mm@[q]) {
                    s@[q]
                } else {
                    d@[q]
                },
        decreases n - p,
    {
        let v = if is_true(mm[p]) {
            s[p]
        } else {
            d[p]
        };
        out.push(v);
        p = p + 1;
    }
    let ghost old_dst = *dst;
    *dst = nd_from_parts(&target, out);
    proof {
        assert forall|idx: Seq<usize>| in_bounds(array_shape(old_dst), idx) implies #[trigger] elem_at(
            *dst,
            idx,
        ) == if mask_true(bcast_elem(*mask, array_shape(old_dst), idx)) {
            bcast_elem(*src, array_shape(old_dst), idx)
        } else {
            elem_at(old_dst, idx)
        } by {
            lemma_positions_to_indices(target@, idx);
        }
    }
    0
}

/// In place, `dst[i] = value` wherever the mask (stretched to the shape of
/// `dst`) is true: 0 on success, -2 (with `dst` unchanged) when the mask
/// cannot be stretched to it.
pub fn np_masked_assign_scalar_f64(dst: &mut NDArrayF64, mask: &NDArrayF64, value: u64) -> (r: i32)
    ensures
        r == 0 <==> stretches_to(array_shape(*mask), array_shape(*old(dst))),
        r == 0 || r == -2,
        array_shape(*final(dst)) == array_shape(*old(dst)),
        r == -2 ==> array_elems(*final(dst)) == array_elems(*old(dst)),
        r == 0 ==> forall|idx: Seq<usize>|
            in_bounds(array_shape(*old(dst)), idx) ==> #[trigger] elem_at(*final(dst), idx) == if mask_true(
                bcast_elem(*mask, array_shape(*old(dst)), idx),
            ) {
                value
            } else {
                elem_at(*old(dst), idx)
            },
{
    let target = dst.shape();
    let mv = match broadcast_view(mask, &target) {
        Some(v) => v,
        None => return -2,
    };
    let d = dst.to_vec();
    let mm = mv.to_vec();
    let n = d.len();
    let mut out: Vec<u64> = Vec::new();
    let mut p: usize = 0;
    while p < n
        invariant
            n == d@.len(),
            d@.len() == mm@.len(),
            p <= n,
            out@.len() == p,
            forall|q: int|
                0 <= q < p ==> #[trigger] out@[q] == if mask_true(mm@[q]) {
                    value
                } else {
                    d@[q]
                },
        decreases n - p,
    {
        let v = if is_true(mm[p]) {
            value
        } else {
            d[p]
        };
        out.push(v);
        p = p + 1;
    }
    let ghost old_dst = *dst;
    *dst = nd_from_parts(&target, out);
    proof {
        assert forall|idx: Seq<usize>| in_bounds(array_shape(old_dst), idx) implies #[trigger] elem_at(
            *dst,
            idx,
        ) == if mask_true(bcast_elem(*mask, array_shape(old_dst), idx)) {
            value
        } else {
            elem_at(old_dst, idx)
        } by {
            lemma_positions_to_indices(target@, idx);
        }
    }
    0
}

} // verus!
