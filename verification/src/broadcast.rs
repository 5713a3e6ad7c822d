//! NumPy broadcasting of shapes.
//!
//! Shapes are aligned on the right (last axis first); a missing leading axis
//! counts as length 1. Two axis lengths are compatible when they are equal or
//! one of them is 1, and the result takes the other one (so a length-1 axis
//! meeting a zero-length one gives 0).
use vstd::prelude::*;

verus! {

/// Length of axis `i` of shape `s` once it is aligned right into rank `r`.
pub open spec fn aligned_dim(s: Seq<usize>, r: int, i: int) -> usize {
    if i + s.len() < r {
        1usize
    } else {
        s[i + s.len() - r]
    }
}

/// Two axis lengths can be broadcast together.
pub open spec fn dims_compatible(x: usize, y: usize) -> bool {
    x == y || x == 1 || y == 1
}

/// The broadcast length of two compatible axis lengths: their common length,
/// or the length that is not 1.
pub open spec fn merge_dim(x: usize, y: usize) -> usize {
    if x == y {
        x
    } else if x == 1 {
        y
    } else {
        x
    }
}

/// The larger of the two ranks.
pub open spec fn max_rank(a: Seq<usize>, b: Seq<usize>) -> int {
    if a.len() >= b.len() {
        a.len() as int
    } else {
        b.len() as int
    }
}

/// Every right-aligned pair of axis lengths of `a` and `b` is compatible.
pub open spec fn broadcastable(a: Seq<usize>, b: Seq<usize>) -> bool {
    forall|i: int|
        0 <= i < max_rank(a, b) ==> dims_compatible(
            #[trigger] aligned_dim(a, max_rank(a, b), i),
            aligned_dim(b, max_rank(a, b), i),
        )
}

/// The shape that `a` and `b` broadcast to, when they are broadcastable.
pub open spec fn broadcast_result(a: Seq<usize>, b: Seq<usize>) -> Seq<usize> {
    Seq::new(
        max_rank(a, b) as nat,
        |i: int| merge_dim(aligned_dim(a, max_rank(a, b), i), aligned_dim(b, max_rank(a, b), i)),
    )
}

/// The common shape of `a` and `b` under broadcasting, or `None` when some
/// pair of aligned axis lengths differs and neither is 1.
pub open spec fn spec_broadcast_shape(a: Seq<usize>, b: Seq<usize>) -> Option<Seq<usize>> {
    if broadcastable(a, b) {
        Some(broadcast_result(a, b))
    } else {
        None
    }
}

/// An array of shape `s` can be stretched to shape `t` (the rule of
/// `ndarray`'s `broadcast`): `t` has at least the rank of `s`, and each axis
/// of `s` equals the right-aligned axis of `t` or is 1.
pub open spec fn stretches_to(s: Seq<usize>, t: Seq<usize>) -> bool {
    &&& s.len() <= t.len()
    &&& forall|j: int|
        0 <= j < s.len() ==> #[trigger] s[j] == t[j + t.len() - s.len()] || s[j] == 1
}

/// The index of the element of an array of shape `s` that sits at index
/// `idx` of its stretched copy of shape `t`.
pub open spec fn stretch_source(s: Seq<usize>, t: Seq<usize>, idx: Seq<usize>) -> Seq<usize> {
    Seq::new(
        s.len(),
        |j: int|
            if s[j] == 1 {
                0usize
            } else {
                idx[j + t.len() - s.len()]
            },
    )
}

/// The broadcast shape of `a` and `b`, `None` when they cannot be broadcast
/// together.
pub fn broadcast_shape(a: &[usize], b: &[usize]) -> (r: Option<Vec<usize>>)
    ensures
        r is None <==> spec_broadcast_shape(a@, b@) is None,
        r matches Some(v) ==> spec_broadcast_shape(a@, b@) == Some(v@),
{
    let r: usize = if a.len() >= b.len() {
        a.len()
    } else {
        b.len()
    };
    let ghost rr = max_rank(a@, b@);
    let mut out: Vec<usize> = Vec::new();
    let mut i: usize = 0;
    while i < r
        invariant
            r == rr,
            rr == max_rank(a@, b@),
            a@.len() <= r,
            b@.len() <= r,
            i <= r,
            out@.len() == i,
            forall|k: int| 0 <= k < i ==> dims_compatible(#[trigger] aligned_dim(a@, rr, k), aligned_dim(b@, rr, k)),
            forall|k: int|
                0 <= k < i ==> #[trigger] out@[k] == merge_dim(aligned_dim(a@, rr, k), aligned_dim(b@, rr, k)),
        decreases r - i,
    {
        let da: usize = if i < r - a.len() {
            1
        } else {
            a[i - (r - a.len())]
        };
        let db: usize = if i < r - b.len() {
            1
        } else {
            b[i - (r - b.len())]
        };
        assert(da == aligned_dim(a@, rr, i as int));
        assert(db == aligned_dim(b@, rr, i as int));
        if da == db {
            out.push(da);
        } else if da == 1 {
            out.push(db);
        } else if db == 1 {
            out.push(da);
        } else {
            assert(!dims_compatible(
                aligned_dim(a@, max_rank(a@, b@), i as int),
                aligned_dim(b@, max_rank(a@, b@), i as int),
            ));
            assert(!broadcastable(a@, b@));
            return None;
        }
        i = i + 1;
    }
    assert(out@ =~= broadcast_result(a@, b@));
    Some(out)
}

/// Broadcasting is symmetric: `a` with `b` gives what `b` with `a` gives.
pub proof fn lemma_broadcast_commutative(a: Seq<usize>, b: Seq<usize>)
    ensures
        spec_broadcast_shape(a, b) == spec_broadcast_shape(b, a),
{
    assert(max_rank(a, b) == max_rank(b, a));
    let r = max_rank(a, b);
    if broadcastable(a, b) {
        assert forall|i: int| 0 <= i < max_rank(b, a) implies dims_compatible(
            #[trigger] aligned_dim(b, max_rank(b, a), i),
            aligned_dim(a, max_rank(b, a), i),
        ) by {
            assert(dims_compatible(aligned_dim(a, r, i), aligned_dim(b, r, i)));
        }
        assert(broadcast_result(a, b) =~= broadcast_result(b, a));
    } else if broadcastable(b, a) {
        assert forall|i: int| 0 <= i < max_rank(a, b) implies dims_compatible(
            #[trigger] aligned_dim(a, max_rank(a, b), i),
            aligned_dim(b, max_rank(a, b), i),
        ) by {
            assert(dims_compatible(aligned_dim(b, r, i), aligned_dim(a, r, i)));
        }
    }
}

/// A shape broadcast with itself, or with the empty (scalar) shape, is
/// unchanged.
pub proof fn lemma_broadcast_identity(a: Seq<usize>)
    ensures
        spec_broadcast_shape(a, a) == Some(a),
        spec_broadcast_shape(a, Seq::<usize>::empty()) == Some(a),
        spec_broadcast_shape(Seq::<usize>::empty(), a) == Some(a),
{
    let e = Seq::<usize>::empty();
    assert(broadcastable(a, a));
    assert(broadcast_result(a, a) =~= a);
    assert(broadcastable(a, e));
    assert(broadcast_result(a, e) =~= a);
    lemma_broadcast_commutative(a, e);
}

/// Aligning the broadcast of `a` and `b` into any rank at least as large
/// gives the merge of their own aligned axis lengths.
proof fn lemma_aligned_of_result(a: Seq<usize>, b: Seq<usize>, r: int, i: int)
    requires
        broadcastable(a, b),
        r >= max_rank(a, b),
        0 <= i < r,
    ensures
        aligned_dim(broadcast_result(a, b), r, i) == merge_dim(aligned_dim(a, r, i), aligned_dim(b, r, i)),
        dims_compatible(aligned_dim(a, r, i), aligned_dim(b, r, i)),
{
    let m = max_rank(a, b);
    let j = i + m - r;
    if j >= 0 {
        assert(aligned_dim(a, m, j) == aligned_dim(a, r, i));
        assert(aligned_dim(b, m, j) == aligned_dim(b, r, i));
        assert(dims_compatible(aligned_dim(a, m, j), aligned_dim(b, m, j)));
    }
}

/// The result of broadcasting when the first two shapes are combined first.
pub open spec fn broadcast_left3(a: Seq<usize>, b: Seq<usize>, c: Seq<usize>) -> Option<Seq<usize>> {
    match spec_broadcast_shape(a, b) {
        Some(ab) => spec_broadcast_shape(ab, c),
        None => None,
    }
}

/// The result of broadcasting when the last two shapes are combined first.
pub open spec fn broadcast_right3(a: Seq<usize>, b: Seq<usize>, c: Seq<usize>) -> Option<Seq<usize>> {
    match spec_broadcast_shape(b, c) {
        Some(bc) => spec_broadcast_shape(a, bc),
        None => None,
    }
}

/// Three shapes broadcast together give the same result whichever pair is
/// combined first.
pub proof fn lemma_broadcast_associative(a: Seq<usize>, b: Seq<usize>, c: Seq<usize>)
    ensures
        broadcast_left3(a, b, c) == broadcast_right3(a, b, c),
{
    let mab = max_rank(a, b);
    let mbc = max_rank(b, c);
    let r = if mab >= c.len() {
        mab
    } else {
        c.len() as int
    };
    assert(r >= a.len() && r >= b.len() && r >= c.len());
    // all three aligned at rank r are pairwise compatible
    let ok3 = forall|i: int|
        #![trigger aligned_dim(a, r, i)]
        #![trigger aligned_dim(b, r, i)]
        0 <= i < r ==> {
            &&& dims_compatible(aligned_dim(a, r, i), aligned_dim(b, r, i))
            &&& dims_compatible(aligned_dim(a, r, i), aligned_dim(c, r, i))
            &&& dims_compatible(aligned_dim(b, r, i), aligned_dim(c, r, i))
        };
    if broadcast_left3(a, b, c) is Some {
        let ab = broadcast_result(a, b);
        assert(broadcastable(a, b));
        assert(ab.len() == mab);
        assert(max_rank(ab, c) == r);
        assert(broadcastable(ab, c));
        assert forall|i: int| 0 <= i < r implies {
            &&& dims_compatible(#[trigger] aligned_dim(a, r, i), aligned_dim(b, r, i))
            &&& dims_compatible(aligned_dim(a, r, i), aligned_dim(c, r, i))
            &&& dims_compatible(aligned_dim(b, r, i), aligned_dim(c, r, i))
        } by {
            lemma_aligned_of_result(a, b, r, i);
            assert(dims_compatible(aligned_dim(ab, r, i), aligned_dim(c, r, i)));
        }
    }
    if broadcast_right3(a, b, c) is Some {
        let bc = broadcast_result(b, c);
        assert(broadcastable(b, c));
        assert(bc.len() == mbc);
        assert(max_rank(a, bc) == r);
        assert(broadcastable(a, bc));
        assert forall|i: int| 0 <= i < r implies {
            &&& dims_compatible(#[trigger] aligned_dim(a, r, i), aligned_dim(b, r, i))
            &&& dims_compatible(aligned_dim(a, r, i), aligned_dim(c, r, i))
            &&& dims_compatible(aligned_dim(b, r, i), aligned_dim(c, r, i))
        } by {
            lemma_aligned_of_result(b, c, r, i);
            assert(dims_compatible(aligned_dim(a, r, i), aligned_dim(bc, r, i)));
        }
    }
    if ok3 {
        assert forall|i: int| 0 <= i < mab implies dims_compatible(
            #[trigger] aligned_dim(a, mab, i),
            aligned_dim(b, mab, i),
        ) by {
            let k = i + r - mab;
            assert(aligned_dim(a, r, k) == aligned_dim(a, mab, i));
            assert(aligned_dim(b, r, k) == aligned_dim(b, mab, i));
        }
        assert forall|i: int| 0 <= i < mbc implies dims_compatible(
            #[trigger] aligned_dim(b, mbc, i),
            aligned_dim(c, mbc, i),
        ) by {
            let k = i + r - mbc;
            assert(aligned_dim(b, r, k) == aligned_dim(b, mbc, i));
            assert(aligned_dim(c, r, k) == aligned_dim(c, mbc, i));
        }
        let ab = broadcast_result(a, b);
        let bc = broadcast_result(b, c);
        assert(max_rank(ab, c) == r);
        assert(max_rank(a, bc) == r);
        assert forall|i: int| 0 <= i < r implies dims_compatible(
            #[trigger] aligned_dim(ab, max_rank(ab, c), i),
            aligned_dim(c, max_rank(ab, c), i),
        ) by {
            lemma_aligned_of_result(a, b, r, i);
        }
        assert forall|i: int| 0 <= i < r implies dims_compatible(
            #[trigger] aligned_dim(a, max_rank(a, bc), i),
            aligned_dim(bc, max_rank(a, bc), i),
        ) by {
            lemma_aligned_of_result(b, c, r, i);
        }
        assert forall|i: int| 0 <= i < r implies #[trigger] broadcast_result(ab, c)[i]
            == broadcast_result(a, bc)[i] by {
            lemma_aligned_of_result(a, b, r, i);
            lemma_aligned_of_result(b, c, r, i);
        }
        assert(broadcast_result(ab, c) =~= broadcast_result(a, bc));
    }
}

/// Each of two broadcastable shapes stretches to their broadcast shape.
pub proof fn lemma_broadcast_stretches(a: Seq<usize>, b: Seq<usize>)
    requires
        broadcastable(a, b),
    ensures
        stretches_to(a, broadcast_result(a, b)),
        stretches_to(b, broadcast_result(a, b)),
{
    let r = max_rank(a, b);
    let t = broadcast_result(a, b);
    assert forall|j: int| 0 <= j < a.len() implies #[trigger] a[j] == t[j + t.len() - a.len()]
        || a[j] == 1 by {
        let i = j + r - a.len();
        assert(aligned_dim(a, r, i) == a[j]);
        assert(dims_compatible(aligned_dim(a, r, i), aligned_dim(b, r, i)));
    }
    assert forall|j: int| 0 <= j < b.len() implies #[trigger] b[j] == t[j + t.len() - b.len()]
        || b[j] == 1 by {
        let i = j + r - b.len();
        assert(aligned_dim(b, r, i) == b[j]);
        assert(dims_compatible(aligned_dim(a, r, i), aligned_dim(b, r, i)));
    }
}

} // verus!
