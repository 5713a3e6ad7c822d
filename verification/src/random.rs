//! Sampling from the elements of a one-dimensional array with a seeded
//! generator: in-place Fisher–Yates shuffling and drawing with or without
//! replacement.
use vstd::prelude::*;
use rand::rngs::StdRng;
use rand::Rng;
use crate::array::{array_elems, array_shape, NDArrayF64};
use crate::linalg::vector_parts;

verus! {

#[verifier::external_type_specification]
#[verifier::external_body]
pub struct ExStdRng(StdRng);

/// `rand::Rng::gen_range` on the range `lo..hi`: an integer drawn from
/// `[lo, hi)`. Which one depends on the generator's state, so nothing more is
/// said of it. (For integers `rand` draws from `lo..hi` exactly as from
/// `lo..=hi - 1`; it panics on an empty range.)
#[verifier::external_body]
fn gen_index(rng: &mut StdRng, lo: usize, hi: usize) -> (r: usize)
    requires
        lo < hi,
    ensures
        lo <= r < hi,
{
    rng.gen_range(lo..hi)
}

/// Exchanges the entries at `i` and `j`.
fn swap_entries<T: Copy>(v: &mut Vec<T>, i: usize, j: usize)
    requires
        i < old(v)@.len(),
        j < old(v)@.len(),
    ensures
        final(v)@ == old(v)@.update(i as int, old(v)@[j as int]).update(j as int, old(v)@[i as int]),
        final(v)@.to_multiset() == old(v)@.to_multiset(),
{
    let ghost s = v@;
    let a = v[i];
    let b = v[j];
    v.set(i, b);
    v.set(j, a);
    proof {
        lemma_swap_multiset(s, i as int, j as int);
    }
}

/// Exchanging two entries keeps the multiset of entries.
proof fn lemma_swap_multiset<T>(s: Seq<T>, i: int, j: int)
    requires
        0 <= i < s.len(),
        0 <= j < s.len(),
    ensures
        s.update(i, s[j]).update(j, s[i]).to_multiset() == s.to_multiset(),
{
    broadcast use vstd::seq_lib::to_multiset_update;
    broadcast use vstd::multiset::group_multiset_axioms;

    let s1 = s.update(i, s[j]);
    if i == j {
        assert(s1 =~= s);
        assert(s1.update(j, s[i]) =~= s);
    } else {
        assert(s1[j] == s[j]);
        let m = s.to_multiset();
        vstd::seq_lib::to_multiset_contains(s, s[i]);
        assert(s.contains(s[i]));
        assert(m.count(s[i]) > 0);
        assert(s1.to_multiset() == m.insert(s[j]).remove(s[i]));
        assert(s1.update(j, s[i]).to_multiset() == s1.to_multiset().insert(s[i]).remove(s[j]));
        assert(m.insert(s[j]).remove(s[i]).insert(s[i]).remove(s[j]) =~= m);
    }
}

/// The entries of `s` are pairwise different.
pub open spec fn no_repeats(s: Seq<usize>) -> bool {
    forall|a: int, b: int| 0 <= a < b < s.len() ==> s[a] != s[b]
}

/// Exchanging two entries keeps them pairwise different.
proof fn lemma_swap_no_repeats(s: Seq<usize>, i: int, j: int)
    requires
        0 <= i < s.len(),
        0 <= j < s.len(),
        no_repeats(s),
    ensures
        no_repeats(s.update(i, s[j]).update(j, s[i])),
{
    let t = s.update(i, s[j]).update(j, s[i]);
    assert forall|a: int, b: int| 0 <= a < b < t.len() implies t[a] != t[b] by {
        let sa = if a == j {
            i
        } else if a == i {
            j
        } else {
            a
        };
        let sb = if b == j {
            i
        } else if b == i {
            j
        } else {
            b
        };
        assert(t[a] == s[sa]);
        assert(t[b] == s[sb]);
        assert(sa != sb);
        if sa < sb {
            assert(s[sa] != s[sb]);
        } else {
            assert(s[sb] != s[sa]);
        }
    }
}

/// `s` with the entries at `i` and `j` exchanged.
pub open spec fn swap_at<T>(s: Seq<T>, i: int, j: int) -> Seq<T> {
    s.update(i, s[j]).update(j, s[i])
}

/// `out` is made of entries of `src`: `out[t]` is `src[picks[t]]`.
pub open spec fn drawn_from(out: Seq<u64>, src: Seq<u64>, picks: Seq<usize>) -> bool {
    &&& picks.len() == out.len()
    &&& forall|t: int| 0 <= t < picks.len() ==> #[trigger] picks[t] < src.len()
    &&& forall|t: int| 0 <= t < picks.len() ==> out[t] == src[#[trigger] picks[t] as int]
}

// ---------------------------------------------------------------------------
// Shuffling.
/// Draws for a Fisher–Yates pass over `len` entries: step `t` exchanges
/// position `len - 1 - t` with `draws[t]`, drawn from `0..=len - 1 - t`; a
/// pass over fewer than two entries draws nothing.
pub open spec fn shuffle_draws_ok(len: nat, draws: Seq<usize>) -> bool {
    &&& draws.len() == if len < 2 {
        0
    } else {
        len - 1
    }
    &&& forall|t: int| 0 <= t < draws.len() ==> #[trigger] draws[t] < len - t
}

/// `s` after the first `k` steps of the Fisher–Yates pass driven by `draws`.
pub open spec fn fisher_yates(s: Seq<u64>, draws: Seq<usize>, k: nat) -> Seq<u64>
    decreases k,
{
    if k == 0 {
        s
    } else {
        swap_at(fisher_yates(s, draws, (k - 1) as nat), s.len() - k, draws[k - 1] as int)
    }
}

/// Every step of a pass keeps the length and the multiset of entries.
proof fn lemma_fisher_yates_permutes(s: Seq<u64>, draws: Seq<usize>, k: nat)
    requires
        k <= draws.len(),
        shuffle_draws_ok(s.len(), draws),
    ensures
        fisher_yates(s, draws, k).len() == s.len(),
        fisher_yates(s, draws, k).to_multiset() == s.to_multiset(),
    decreases k,
{
    if k > 0 {
        lemma_fisher_yates_permutes(s, draws, (k - 1) as nat);
        let prev = fisher_yates(s, draws, (k - 1) as nat);
        assert(draws[k - 1] < s.len() - (k - 1));
        lemma_swap_multiset(prev, s.len() - k, draws[k - 1] as int);
    }
}

/// Runs the Fisher–Yates pass driven by `draws` over `v` in place.
pub fn shuffle_with(v: &mut Vec<u64>, draws: &[usize])
    requires
        shuffle_draws_ok(old(v)@.len(), draws@),
    ensures
        final(v)@ == fisher_yates(old(v)@, draws@, draws@.len()),
        final(v)@.to_multiset() == old(v)@.to_multiset(),
{
    let ghost s = v@;
    let len = v.len();
    let mut t: usize = 0;
    while t < draws.len()
        invariant
            len == s.len(),
            shuffle_draws_ok(s.len(), draws@),
            t <= draws@.len(),
            v@ == fisher_yates(s, draws@, t as nat),
            v@.len() == len,
        decreases draws@.len() - t,
    {
        let i = len - 1 - t;
        let j = draws[t];
        swap_entries(v, i, j);
        t = t + 1;
    }
    proof {
        lemma_fisher_yates_permutes(s, draws@, draws@.len());
    }
}

/// Draws the exchanges of a Fisher–Yates pass over `len` entries, from the
/// last position down to position 1.
fn draw_shuffle(rng: &mut StdRng, len: usize) -> (draws: Vec<usize>)
    ensures
        shuffle_draws_ok(len as nat, draws@),
{
    let mut draws: Vec<usize> = Vec::new();
    if len < 2 {
        return draws;
    }
    let mut i: usize = len - 1;
    while i >= 1
        invariant
            len >= 2,
            i < len,
            draws@.len() == len - 1 - i,
            forall|t: int| 0 <= t < draws@.len() ==> #[trigger] draws@[t] < len - t,
        decreases i,
    {
        let j = gen_index(rng, 0, i + 1);
        draws.push(j);
        i = i - 1;
    }
    draws
}

/// Shuffles a one-dimensional array in place (Fisher–Yates: for `i` from the
/// last position down to 1, exchange entry `i` with an entry drawn from
/// `0..=i`) and returns 0; returns -2 and leaves the array alone when it does
/// not have exactly one axis. Whatever the draws, the result is a
/// rearrangement of the elements.
pub fn np_random_shuffle_f64(rng: &mut StdRng, a: &mut NDArrayF64) -> (r: i32)
    ensures
        array_shape(*old(a)).len() != 1 ==> r == -2 && *final(a) == *old(a),
        array_shape(*old(a)).len() == 1 ==> {
            &&& r == 0
            &&& array_shape(*final(a)) == array_shape(*old(a))
            &&& array_elems(*final(a)).to_multiset() == array_elems(*old(a)).to_multiset()
            &&& exists|draws: Seq<usize>|
                #![trigger fisher_yates(array_elems(*old(a)), draws, draws.len())]
                shuffle_draws_ok(array_elems(*old(a)).len(), draws) && array_elems(*final(a))
                    == fisher_yates(array_elems(*old(a)), draws, draws.len())
        },
{
    let mut v = match vector_parts(a) {
        Some(v) => v,
        None => return -2,
    };
    let ghost orig = v@;
    let draws = draw_shuffle(rng, v.len());
    shuffle_with(&mut v, draws.as_slice());
    proof {
        vstd::seq_lib::to_multiset_len(v@);
        vstd::seq_lib::to_multiset_len(orig);
    }
    let ghost d = draws@;
    *a = NDArrayF64::from_vec(v);
    assert(shuffle_draws_ok(orig.len(), d) && array_elems(*a) == fisher_yates(orig, d, d.len()));
    0
}

// ---------------------------------------------------------------------------
// Drawing entries.
/// Draws with replacement from `len` entries: each one below `len`.
pub open spec fn replace_draws_ok(len: nat, draws: Seq<usize>) -> bool {
    forall|t: int| 0 <= t < draws.len() ==> #[trigger] draws[t] < len
}

/// The entries of `src` at the drawn positions, in the order drawn.
pub fn pick_with(src: &Vec<u64>, draws: &[usize]) -> (out: Vec<u64>)
    requires
        replace_draws_ok(src@.len(), draws@),
    ensures
        drawn_from(out@, src@, draws@),
{
    let mut out: Vec<u64> = Vec::new();
    let mut t: usize = 0;
    while t < draws.len()
        invariant
            t <= draws@.len(),
            replace_draws_ok(src@.len(), draws@),
            drawn_from(out@, src@, draws@.take(t as int)),
        decreases draws@.len() - t,
    {
        out.push(src[draws[t]]);
        t = t + 1;
        assert(draws@.take(t as int) =~= draws@.take(t - 1).push(draws@[t - 1]));
    }
    assert(draws@.take(draws@.len() as int) =~= draws@);
    out
}

/// Draws for a partial Fisher–Yates pass over `len` positions: step `t`
/// exchanges position `t` with `draws[t]`, drawn from `t..len`.
pub open spec fn pick_draws_ok(len: nat, draws: Seq<usize>) -> bool {
    &&& draws.len() <= len
    &&& forall|t: int| 0 <= t < draws.len() ==> t <= #[trigger] draws[t] < len
}

/// The positions `0..len` after the first `k` steps of the partial pass
/// driven by `draws`.
pub open spec fn pool_after(len: nat, draws: Seq<usize>, k: nat) -> Seq<usize>
    decreases k,
{
    if k == 0 {
        Seq::new(len, |i: int| i as usize)
    } else {
        swap_at(pool_after(len, draws, (k - 1) as nat), k - 1, draws[k - 1] as int)
    }
}

/// The positions stay a list of `len` different positions below `len`, and
/// a step leaves the positions before it alone.
proof fn lemma_pool_after(len: nat, draws: Seq<usize>, k: nat)
    requires
        pick_draws_ok(len, draws),
        k <= draws.len(),
        len <= usize::MAX,
    ensures
        pool_after(len, draws, k).len() == len,
        no_repeats(pool_after(len, draws, k)),
        forall|p: int| 0 <= p < len ==> #[trigger] pool_after(len, draws, k)[p] < len,
    decreases k,
{
    if k > 0 {
        lemma_pool_after(len, draws, (k - 1) as nat);
        let prev = pool_after(len, draws, (k - 1) as nat);
        lemma_swap_no_repeats(prev, k - 1, draws[k - 1] as int);
        let cur = pool_after(len, draws, k);
        assert forall|p: int| 0 <= p < len implies #[trigger] cur[p] < len by {
            if p == draws[k - 1] {
                assert(cur[p] == prev[k - 1]);
            } else if p == k - 1 {
                assert(cur[p] == prev[draws[k - 1] as int]);
            } else {
                assert(cur[p] == prev[p]);
            }
        }
    } else {
        let s = Seq::new(len, |i: int| i as usize);
        assert forall|a: int, b: int| 0 <= a < b < s.len() implies s[a] != s[b] by {}
    }
}

/// Steps after position `q` leave position `q` alone.
proof fn lemma_pool_stable(len: nat, draws: Seq<usize>, q: int, k1: nat, k2: nat)
    requires
        pick_draws_ok(len, draws),
        0 <= q < k1 <= k2 <= draws.len(),
        len <= usize::MAX,
    ensures
        pool_after(len, draws, k2)[q] == pool_after(len, draws, k1)[q],
    decreases k2,
{
    if k2 > k1 {
        lemma_pool_stable(len, draws, q, k1, (k2 - 1) as nat);
        lemma_pool_after(len, draws, (k2 - 1) as nat);
        assert(draws[k2 - 1] >= k2 - 1);
    }
}

/// The entries of `src` at the first `draws.len()` positions of the pool
/// once the partial pass driven by `draws` is done; no position is drawn
/// twice.
pub fn pick_without(src: &Vec<u64>, draws: &[usize]) -> (out: Vec<u64>)
    requires
        pick_draws_ok(src@.len(), draws@),
    ensures
        out@ == Seq::new(
            draws@.len(),
            |t: int| src@[pool_after(src@.len(), draws@, draws@.len())[t] as int],
        ),
        drawn_from(out@, src@, pool_after(src@.len(), draws@, draws@.len()).take(draws@.len() as int)),
        no_repeats(pool_after(src@.len(), draws@, draws@.len()).take(draws@.len() as int)),
{
    let len = src.len();
    let ghost n = draws@.len();
    let mut pool: Vec<usize> = Vec::new();
    let mut k: usize = 0;
    while k < len
        invariant
            k <= len,
            pool@.len() == k,
            forall|p: int| 0 <= p < k ==> #[trigger] pool@[p] == p,
        decreases len - k,
    {
        pool.push(k);
        k = k + 1;
    }
    assert(pool@ =~= pool_after(len as nat, draws@, 0));
    let mut out: Vec<u64> = Vec::new();
    let mut t: usize = 0;
    while t < draws.len()
        invariant
            len == src@.len(),
            pick_draws_ok(len as nat, draws@),
            t <= draws@.len(),
            pool@ == pool_after(len as nat, draws@, t as nat),
            out@.len() == t,
            forall|q: int| 0 <= q < t ==> #[trigger] out@[q] == src@[pool_after(len as nat, draws@, (q + 1) as nat)[q] as int],
        decreases draws@.len() - t,
    {
        proof {
            lemma_pool_after(len as nat, draws@, t as nat);
        }
        let j = draws[t];
        swap_entries(&mut pool, t, j);
        proof {
            lemma_pool_after(len as nat, draws@, (t + 1) as nat);
        }
        out.push(src[pool[t]]);
        t = t + 1;
    }
    proof {
        let fin = pool_after(len as nat, draws@, n);
        lemma_pool_after(len as nat, draws@, n);
        assert forall|q: int| 0 <= q < n implies #[trigger] out@[q] == src@[fin[q] as int] by {
            lemma_pool_stable(len as nat, draws@, q, (q + 1) as nat, n);
        }
        assert(out@ =~= Seq::new(n, |t: int| src@[fin[t] as int]));
        let picks = fin.take(n as int);
        assert forall|a: int, b: int| 0 <= a < b < picks.len() implies picks[a] != picks[b] by {
            assert(picks[a] == fin[a] && picks[b] == fin[b]);
        }
        assert forall|q: int| 0 <= q < picks.len() implies #[trigger] picks[q] < src@.len() by {
            assert(picks[q] == fin[q]);
        }
        assert forall|q: int| 0 <= q < picks.len() implies out@[q] == src@[#[trigger] picks[q] as int] by {
            assert(picks[q] == fin[q]);
        }
    }
    out
}

/// Draws `n` positions below `len` with replacement.
fn draw_with(rng: &mut StdRng, len: usize, n: usize) -> (draws: Vec<usize>)
    requires
        len > 0,
    ensures
        draws@.len() == n,
        replace_draws_ok(len as nat, draws@),
{
    let mut draws: Vec<usize> = Vec::new();
    let mut t: usize = 0;
    while t < n
        invariant
            len > 0,
            t <= n,
            draws@.len() == t,
            replace_draws_ok(len as nat, draws@),
        decreases n - t,
    {
        draws.push(gen_index(rng, 0, len));
        t = t + 1;
    }
    draws
}

/// Draws the `n` exchanges of a partial Fisher–Yates pass over `len`
/// positions: step `t` draws from `t..len`.
fn draw_without(rng: &mut StdRng, len: usize, n: usize) -> (draws: Vec<usize>)
    requires
        n <= len,
    ensures
        draws@.len() == n,
        pick_draws_ok(len as nat, draws@),
{
    let mut draws: Vec<usize> = Vec::new();
    let mut t: usize = 0;
    while t < n
        invariant
            t <= n <= len,
            draws@.len() == t,
            forall|q: int| 0 <= q < t ==> q <= #[trigger] draws@[q] < len,
        decreases n - t,
    {
        draws.push(gen_index(rng, t, len));
        t = t + 1;
    }
    draws
}

/// Draws `n` entries of a non-empty one-dimensional array: with replacement
/// (each draw from the whole array) or without (a partial Fisher–Yates
/// shuffle of the positions, so that no position is drawn twice). `None`
/// when the array does not have exactly one axis or is empty, when `n` is
/// negative, or when `n` exceeds the length without replacement. Whatever
/// the draws, the result is made of elements of the array, each position
/// at most once without replacement.
pub fn np_random_choice_f64(rng: &mut StdRng, a: &NDArrayF64, n: i64, replace: bool) -> (r: Option<
    NDArrayF64,
>)
    requires
        array_shape(*a).len() == 1 && n >= 0 && array_elems(*a).len() > 0 ==> 8 * n <= isize::MAX,
    ensures
        r is Some <==> (array_shape(*a).len() == 1 && n >= 0 && array_elems(*a).len() > 0 && (replace
            || n <= array_elems(*a).len())),
        r matches Some(out) ==> {
            &&& array_shape(out) == seq![n as usize]
            &&& exists|picks: Seq<usize>|
                #[trigger] drawn_from(array_elems(out), array_elems(*a), picks) && (!replace
                    ==> no_repeats(picks))
            &&& replace ==> exists|draws: Seq<usize>|
                #[trigger] replace_draws_ok(array_elems(*a).len(), draws) && draws.len() == n
                    && drawn_from(array_elems(out), array_elems(*a), draws)
            &&& !replace ==> exists|draws: Seq<usize>|
                #[trigger] pick_draws_ok(array_elems(*a).len(), draws) && draws.len() == n
                    && array_elems(out) == Seq::new(
                    n as nat,
                    |t: int|
                        array_elems(*a)[pool_after(array_elems(*a).len(), draws, n as nat)[t] as int],
                )
        },
{
    let src = match vector_parts(a) {
        Some(v) => v,
        None => return None,
    };
    if n < 0 {
        return None;
    }
    let len = src.len();
    if len == 0 {
        return None;
    }
    let count = n as usize;
    if replace {
        let draws = draw_with(rng, len, count);
        let out = pick_with(&src, draws.as_slice());
        let ghost d = draws@;
        let r = NDArrayF64::from_vec(out);
        assert(array_shape(r) == seq![n as usize]);
        assert(drawn_from(array_elems(r), array_elems(*a), d));
        assert(replace_draws_ok(array_elems(*a).len(), d) && d.len() == n && drawn_from(
            array_elems(r),
            array_elems(*a),
            d,
        ));
        Some(r)
    } else {
        if count > len {
            return None;
        }
        let draws = draw_without(rng, len, count);
        let out = pick_without(&src, draws.as_slice());
        let ghost d = draws@;
        let ghost picks = pool_after(len as nat, d, count as nat).take(count as int);
        let r = NDArrayF64::from_vec(out);
        assert(array_shape(r) == seq![n as usize]);
        assert(drawn_from(array_elems(r), array_elems(*a), picks) && no_repeats(picks));
        assert(src@ == array_elems(*a));
        assert(d.len() == n);
        assert(array_elems(r) =~= Seq::new(
            n as nat,
            |t: int| array_elems(*a)[pool_after(array_elems(*a).len(), d, n as nat)[t] as int],
        ));
        assert(pick_draws_ok(array_elems(*a).len(), d) && d.len() == n && array_elems(r)
            == Seq::new(
            n as nat,
            |t: int| array_elems(*a)[pool_after(array_elems(*a).len(), d, n as nat)[t] as int],
        ));
        Some(r)
    }
}

} // verus!
