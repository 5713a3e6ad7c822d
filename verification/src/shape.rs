//! Shapes, sizes and row-major (C order) index arithmetic.
//!
//! A shape is a sequence of axis lengths. An index into an array of shape
//! `s` is a sequence of the same length whose `i`-th entry is below `s[i]`.
//! Elements are laid out row-major: the last axis varies fastest.
use vstd::prelude::*;

verus! {

/// Number of elements of an array of shape `s`: the product of its axis lengths.
pub open spec fn shape_size(s: Seq<usize>) -> nat
    decreases s.len(),
{
    if s.len() == 0 {
        1
    } else {
        shape_size(s.drop_last()) * (s.last() as nat)
    }
}

/// Product of the non-zero axis lengths of `s` (zero-length axes count as 1).
pub open spec fn nonzero_size(s: Seq<usize>) -> nat
    decreases s.len(),
{
    if s.len() == 0 {
        1
    } else {
        nonzero_size(s.drop_last()) * (if s.last() == 0 {
            1nat
        } else {
            s.last() as nat
        })
    }
}

/// A shape that an array can have: the product of its non-zero axis lengths
/// does not exceed `isize::MAX`.
pub open spec fn shape_fits(s: Seq<usize>) -> bool {
    nonzero_size(s) <= isize::MAX
}

/// `idx` addresses an element of an array of shape `s`.
pub open spec fn in_bounds(s: Seq<usize>, idx: Seq<usize>) -> bool {
    &&& idx.len() == s.len()
    &&& forall|i: int| 0 <= i < s.len() ==> #[trigger] idx[i] < s[i]
}

/// Row-major position of the index `idx` in an array of shape `s`.
pub open spec fn flat_index(s: Seq<usize>, idx: Seq<usize>) -> int
    decreases s.len(),
{
    if s.len() == 0 || idx.len() == 0 {
        0
    } else {
        flat_index(s.drop_last(), idx.drop_last()) * (s.last() as int) + (idx.last() as int)
    }
}

/// The index whose row-major position in shape `s` is `p`.
pub open spec fn unravel(s: Seq<usize>, p: nat) -> Seq<usize>
    decreases s.len(),
{
    if s.len() == 0 {
        Seq::empty()
    } else {
        unravel(s.drop_last(), p / (s.last() as nat)).push((p % (s.last() as nat)) as usize)
    }
}

/// A negative requested axis length counts as zero.
pub open spec fn clamp_dim(d: i64) -> usize {
    if d < 0 {
        0usize
    } else {
        d as usize
    }
}

/// The element count is either zero or the non-zero product, and never
/// exceeds the non-zero product.
pub proof fn lemma_shape_size_nonneg_prefix(s: Seq<usize>)
    ensures
        shape_size(s) == 0 || nonzero_size(s) == shape_size(s),
        shape_size(s) <= nonzero_size(s),
    decreases s.len(),
{
    if s.len() > 0 {
        lemma_shape_size_nonneg_prefix(s.drop_last());
        let a = shape_size(s.drop_last());
        let b = nonzero_size(s.drop_last());
        let l = s.last() as nat;
        if l == 0 {
            assert(a * l == 0) by (nonlinear_arith)
                requires
                    l == 0,
            ;
        } else {
            assert(a * l <= b * l) by (nonlinear_arith)
                requires
                    a <= b,
            ;
            assert(a * l == 0 || a * l == b * l) by (nonlinear_arith)
                requires
                    a == 0 || a == b,
            ;
        }
    }
}

/// An array shape that fits has at most `isize::MAX` elements.
pub proof fn lemma_fits_size(s: Seq<usize>)
    requires
        shape_fits(s),
    ensures
        shape_size(s) <= isize::MAX,
{
    lemma_shape_size_nonneg_prefix(s);
}

/// Every in-bounds index has a row-major position below the element count.
pub proof fn lemma_flat_index_bounds(s: Seq<usize>, idx: Seq<usize>)
    requires
        in_bounds(s, idx),
    ensures
        0 <= flat_index(s, idx) < shape_size(s),
    decreases s.len(),
{
    if s.len() > 0 {
        let s0 = s.drop_last();
        let i0 = idx.drop_last();
        assert(in_bounds(s0, i0)) by {
            assert forall|i: int| 0 <= i < s0.len() implies #[trigger] i0[i] < s0[i] by {
                assert(idx[i] < s[i]);
            }
        }
        lemma_flat_index_bounds(s0, i0);
        let f = flat_index(s0, i0);
        let n = shape_size(s0) as int;
        let l = s.last() as int;
        let x = idx.last() as int;
        assert(idx[s.len() - 1] < s[s.len() - 1]);
        assert(f * l + x < n * l) by (nonlinear_arith)
            requires
                0 <= f < n,
                0 <= x < l,
        ;
        assert(f * l + x >= 0) by (nonlinear_arith)
            requires
                0 <= f,
                0 <= x,
                0 <= l,
        ;
    }
}

/// `unravel` inverts `flat_index` on the positions of an array of shape `s`.
pub proof fn lemma_unravel(s: Seq<usize>, p: nat)
    requires
        p < shape_size(s),
    ensures
        in_bounds(s, unravel(s, p)),
        flat_index(s, unravel(s, p)) == p,
    decreases s.len(),
{
    if s.len() > 0 {
        let s0 = s.drop_last();
        let l = s.last() as nat;
        let n0 = shape_size(s0);
        if l == 0 {
            assert(n0 * l == 0) by (nonlinear_arith)
                requires
                    l == 0,
            ;
            assert(shape_size(s) == 0);
        }
        assert(l > 0);
        let q = p / l;
        let r = p % l;
        assert(p == l * q + r) by {
            vstd::arithmetic::div_mod::lemma_fundamental_div_mod(p as int, l as int);
        }
        assert(r < l) by {
            vstd::arithmetic::div_mod::lemma_mod_bound(p as int, l as int);
        }
        assert(q < n0) by (nonlinear_arith)
            requires
                p < n0 * l,
                p == l * q + r,
                0 <= r,
                l > 0,
        ;
        lemma_unravel(s0, q);
        let u = unravel(s, p);
        assert(u.drop_last() =~= unravel(s0, q));
        assert forall|i: int| 0 <= i < s.len() implies #[trigger] u[i] < s[i] by {
            if i < s.len() - 1 {
                assert(u[i] == unravel(s0, q)[i]);
            }
        }
        assert(flat_index(s, u) == flat_index(s0, unravel(s0, q)) * (l as int) + (r as int));
        assert(q * l == l * q) by (nonlinear_arith);
    }
}

/// Two in-bounds indices with the same row-major position are equal.
pub proof fn lemma_flat_index_injective(s: Seq<usize>, a: Seq<usize>, b: Seq<usize>)
    requires
        in_bounds(s, a),
        in_bounds(s, b),
        flat_index(s, a) == flat_index(s, b),
    ensures
        a == b,
    decreases s.len(),
{
    if s.len() > 0 {
        let s0 = s.drop_last();
        let a0 = a.drop_last();
        let b0 = b.drop_last();
        assert(in_bounds(s0, a0)) by {
            assert forall|i: int| 0 <= i < s0.len() implies #[trigger] a0[i] < s0[i] by {
                assert(a[i] < s[i]);
            }
        }
        assert(in_bounds(s0, b0)) by {
            assert forall|i: int| 0 <= i < s0.len() implies #[trigger] b0[i] < s0[i] by {
                assert(b[i] < s[i]);
            }
        }
        let l = s.last() as int;
        let fa = flat_index(s0, a0);
        let fb = flat_index(s0, b0);
        let xa = a.last() as int;
        let xb = b.last() as int;
        assert(a[s.len() - 1] < s[s.len() - 1]);
        assert(b[s.len() - 1] < s[s.len() - 1]);
        lemma_flat_index_bounds(s0, a0);
        lemma_flat_index_bounds(s0, b0);
        assert(fa == fb && xa == xb) by (nonlinear_arith)
            requires
                fa * l + xa == fb * l + xb,
                0 <= xa < l,
                0 <= xb < l,
                0 <= fa,
                0 <= fb,
        ;
        lemma_flat_index_injective(s0, a0, b0);
        assert(a =~= a0.push(a.last()));
        assert(b =~= b0.push(b.last()));
    }
}

/// Reads the requested axis lengths of a new array: a negative rank gives
/// no shape; a negative axis length counts as zero.
pub fn read_dims(rank: i64, raw: &[i64]) -> (r: Option<Vec<usize>>)
    requires
        rank >= 0 ==> raw@.len() == rank,
    ensures
        rank < 0 <==> r is None,
        r matches Some(v) ==> v@ == raw@.map_values(|d: i64| clamp_dim(d)),
{
    if rank < 0 {
        return None;
    }
    Some(clamped_dims(raw))
}

/// Reads the requested shape of a random sample: a rank of zero or less
/// gives the empty shape; a negative axis length counts as zero.
pub fn dims_vec(rank: i64, raw: &[i64]) -> (r: Vec<usize>)
    requires
        rank > 0 ==> raw@.len() == rank,
    ensures
        rank <= 0 ==> r@.len() == 0,
        rank > 0 ==> r@ == raw@.map_values(|d: i64| clamp_dim(d)),
{
    if rank <= 0 {
        return Vec::new();
    }
    clamped_dims(raw)
}

/// Each requested length, negative ones counted as zero.
fn clamped_dims(raw: &[i64]) -> (r: Vec<usize>)
    ensures
        r@ == raw@.map_values(|d: i64| clamp_dim(d)),
{
    let mut out: Vec<usize> = Vec::new();
    let mut i: usize = 0;
    while i < raw.len()
        invariant
            i <= raw@.len(),
            out@ == raw@.subrange(0, i as int).map_values(|d: i64| clamp_dim(d)),
        decreases raw@.len() - i,
    {
        let d = raw[i];
        let v: usize = if d < 0 {
            0
        } else {
            d as usize
        };
        out.push(v);
        i = i + 1;
        assert(raw@.subrange(0, i as int).map_values(|d: i64| clamp_dim(d)) =~= raw@.subrange(
            0,
            (i - 1) as int,
        ).map_values(|d: i64| clamp_dim(d)).push(clamp_dim(d)));
    }
    assert(raw@.subrange(0, raw@.len() as int) =~= raw@);
    out
}

/// The element count of shape `s` when the shape fits (the product of its
/// non-zero axis lengths is at most `isize::MAX`), `None` otherwise.
pub fn size_of_shape_checked(s: &[usize]) -> (r: Option<usize>)
    ensures
        r is Some <==> shape_fits(s@),
        r matches Some(n) ==> n == shape_size(s@),
{
    let mut nz: usize = 1;
    let mut full: usize = 1;
    let mut i: usize = 0;
    while i < s.len()
        invariant
            i <= s@.len(),
            nz == nonzero_size(s@.subrange(0, i as int)),
            full == shape_size(s@.subrange(0, i as int)),
            nz <= isize::MAX,
        decreases s@.len() - i,
    {
        let ghost pre = s@.subrange(0, i as int);
        let ghost next = s@.subrange(0, i + 1);
        assert(next.drop_last() =~= pre);
        proof {
            lemma_shape_size_nonneg_prefix(pre);
        }
        let d = s[i];
        if d != 0 {
            if nz > (isize::MAX as usize) / d {
                proof {
                    assert(nz * d > isize::MAX) by (nonlinear_arith)
                        requires
                            nz > (isize::MAX as usize) / d,
                            d > 0,
                    ;
                    lemma_nonzero_size_prefix_monotone(s@, (i + 1) as int);
                }
                return None;
            }
            assert(nz * d <= isize::MAX) by (nonlinear_arith)
                requires
                    nz <= (isize::MAX as usize) / d,
                    d > 0,
            ;
            assert(full * d <= nz * d) by (nonlinear_arith)
                requires
                    full <= nz,
                    d > 0,
            ;
            nz = nz * d;
            full = full * d;
        } else {
            assert(full * d == 0) by (nonlinear_arith)
                requires
                    d == 0,
            ;
            full = 0;
        }
        i = i + 1;
    }
    assert(s@.subrange(0, s@.len() as int) =~= s@);
    Some(full)
}

/// The non-zero product of a prefix never exceeds that of a longer prefix.
pub proof fn lemma_nonzero_size_prefix_monotone(s: Seq<usize>, k: int)
    requires
        0 <= k <= s.len(),
    ensures
        nonzero_size(s.subrange(0, k)) <= nonzero_size(s),
    decreases s.len() - k,
{
    if k < s.len() {
        lemma_nonzero_size_prefix_monotone(s, k + 1);
        let a = s.subrange(0, k);
        let b = s.subrange(0, k + 1);
        assert(b.drop_last() =~= a);
        lemma_nonzero_size_pos(a);
        let na = nonzero_size(a);
        let f: nat = if b.last() == 0 {
            1nat
        } else {
            b.last() as nat
        };
        assert(na <= na * f) by (nonlinear_arith)
            requires
                f >= 1,
        ;
    } else {
        assert(s.subrange(0, k) =~= s);
    }
}

/// The non-zero product is at least 1.
pub proof fn lemma_nonzero_size_pos(s: Seq<usize>)
    ensures
        nonzero_size(s) >= 1,
    decreases s.len(),
{
    if s.len() > 0 {
        lemma_nonzero_size_pos(s.drop_last());
        let a = nonzero_size(s.drop_last());
        let f: nat = if s.last() == 0 {
            1nat
        } else {
            s.last() as nat
        };
        assert(a * f >= 1) by (nonlinear_arith)
            requires
                a >= 1,
                f >= 1,
        ;
    }
}

} // verus!
