//! Character-level text helpers with the semantics of `str::find`,
//! `str::trim`, `str::split(',')` and `usize::from_str`.
use vstd::prelude::*;

verus! {

/// `p` occurs in `h` starting at position `i`.
pub open spec fn matches_at(h: Seq<char>, p: Seq<char>, i: int) -> bool {
    0 <= i && i + p.len() <= h.len() && h.subrange(i, i + p.len()) == p
}

/// Position of the first occurrence of `p` in `h` at or after `i`
/// (the semantics of `str::find` for `i == 0`).
pub open spec fn find_from(h: Seq<char>, p: Seq<char>, i: int) -> Option<int>
    decreases h.len() + 1 - i,
{
    if i < 0 || i + p.len() > h.len() {
        None
    } else if matches_at(h, p, i) {
        Some(i)
    } else {
        find_from(h, p, i + 1)
    }
}

/// Position of the first occurrence of `p` in `h`.
pub open spec fn find(h: Seq<char>, p: Seq<char>) -> Option<int> {
    find_from(h, p, 0)
}

/// Characters with the Unicode `White_Space` property (`char::is_whitespace`).
pub open spec fn is_ws(c: char) -> bool {
    ||| ('\u{9}' <= c && c <= '\u{d}')
    ||| c == ' '
    ||| c == '\u{85}'
    ||| c == '\u{a0}'
    ||| c == '\u{1680}'
    ||| ('\u{2000}' <= c && c <= '\u{200a}')
    ||| c == '\u{2028}'
    ||| c == '\u{2029}'
    ||| c == '\u{202f}'
    ||| c == '\u{205f}'
    ||| c == '\u{3000}'
}

/// `s` without its leading whitespace.
pub open spec fn trim_start(s: Seq<char>) -> Seq<char>
    decreases s.len(),
{
    if s.len() > 0 && is_ws(s[0]) {
        trim_start(s.drop_first())
    } else {
        s
    }
}

/// `s` without its trailing whitespace.
pub open spec fn trim_end(s: Seq<char>) -> Seq<char>
    decreases s.len(),
{
    if s.len() > 0 && is_ws(s.last()) {
        trim_end(s.drop_last())
    } else {
        s
    }
}

/// `s` without leading and trailing whitespace.
pub open spec fn trim(s: Seq<char>) -> Seq<char> {
    trim_end(trim_start(s))
}

/// `s` begins with `p`.
pub open spec fn starts_with(s: Seq<char>, p: Seq<char>) -> bool {
    p.len() <= s.len() && s.subrange(0, p.len() as int) == p
}

/// An ASCII decimal digit.
pub open spec fn is_digit(c: char) -> bool {
    '0' <= c && c <= '9'
}

/// The value of an ASCII decimal digit.
pub open spec fn digit_value(c: char) -> nat {
    ((c as int) - ('0' as int)) as nat
}

/// The character of the decimal digit `d` (below 10).
pub open spec fn digit_char(d: nat) -> char {
    if d == 0 {
        '0'
    } else if d == 1 {
        '1'
    } else if d == 2 {
        '2'
    } else if d == 3 {
        '3'
    } else if d == 4 {
        '4'
    } else if d == 5 {
        '5'
    } else if d == 6 {
        '6'
    } else if d == 7 {
        '7'
    } else if d == 8 {
        '8'
    } else {
        '9'
    }
}

/// Value of a string of decimal digits.
pub open spec fn decimal_value(ds: Seq<char>) -> nat
    decreases ds.len(),
{
    if ds.len() == 0 {
        0
    } else {
        decimal_value(ds.drop_last()) * 10 + digit_value(ds.last())
    }
}

/// The decimal representation of `n` without leading zeros.
pub open spec fn decimal_chars(n: nat) -> Seq<char>
    decreases n,
{
    if n < 10 {
        seq![digit_char(n)]
    } else {
        decimal_chars(n / 10).push(digit_char(n % 10))
    }
}

/// Every character is an ASCII decimal digit.
pub open spec fn all_digits(ds: Seq<char>) -> bool {
    forall|i: int| 0 <= i < ds.len() ==> is_digit(#[trigger] ds[i])
}

/// `usize::from_str`: an optional `+` followed by at least one decimal digit,
/// and a value that fits in `usize`.
pub open spec fn parse_usize(t: Seq<char>) -> Option<usize> {
    let ds = if t.len() > 0 && t[0] == '+' {
        t.drop_first()
    } else {
        t
    };
    if ds.len() == 0 || !all_digits(ds) || decimal_value(ds) > usize::MAX {
        None
    } else {
        Some(decimal_value(ds) as usize)
    }
}

/// The pieces of `s` between commas (`str::split(',')`): `k` commas give
/// `k + 1` pieces.
pub open spec fn split_commas(s: Seq<char>) -> Seq<Seq<char>>
    decreases s.len(),
{
    if s.len() == 0 {
        seq![Seq::<char>::empty()]
    } else {
        let rest = split_commas(s.drop_last());
        if s.last() == ',' {
            rest.push(Seq::<char>::empty())
        } else {
            rest.update(rest.len() - 1, rest.last().push(s.last()))
        }
    }
}

/// Axis lengths read from comma-separated pieces: each piece is trimmed,
/// empty pieces are skipped, and every other piece must parse as a `usize`.
pub open spec fn parse_pieces(pieces: Seq<Seq<char>>) -> Option<Seq<usize>>
    decreases pieces.len(),
{
    if pieces.len() == 0 {
        Some(Seq::empty())
    } else {
        match parse_pieces(pieces.drop_last()) {
            None => None,
            Some(ds) => {
                let t = trim(pieces.last());
                if t.len() == 0 {
                    Some(ds)
                } else {
                    match parse_usize(t) {
                        None => None,
                        Some(d) => Some(ds.push(d)),
                    }
                }
            },
        }
    }
}

/// Collects the characters of `s`.
pub fn collect_chars(s: &str) -> (v: Vec<char>)
    ensures
        v@ == s@,
{
    broadcast use vstd::string::group_string_axioms;

    let mut v: Vec<char> = Vec::new();
    for c in it: s.chars()
        invariant
            v@ == it.seq().take(it.index() as int),
            it.seq() == s@,
    {
        v.push(c);
    }
    v
}

/// Whether `c` is a whitespace character (`char::is_whitespace`).
pub fn char_is_ws(c: char) -> (b: bool)
    ensures
        b == is_ws(c),
{
    ('\u{9}' <= c && c <= '\u{d}') || c == ' ' || c == '\u{85}' || c == '\u{a0}' || c
        == '\u{1680}' || ('\u{2000}' <= c && c <= '\u{200a}') || c == '\u{2028}' || c
        == '\u{2029}' || c == '\u{202f}' || c == '\u{205f}' || c == '\u{3000}'
}

/// Position of the first occurrence of `p` in `h[from..]`, relative to `from`.
pub fn find_rel(h: &Vec<char>, from: usize, p: &Vec<char>) -> (r: Option<usize>)
    requires
        from <= h@.len(),
    ensures
        match find(h@.skip(from as int), p@) {
            Some(i) => r == Some(i as usize),
            None => r is None,
        },
{
    let ghost hs = h@.skip(from as int);
    let n = h.len() - from;
    let m = p.len();
    let mut i: usize = 0;
    while i <= n && m <= n - i
        invariant
            hs == h@.skip(from as int),
            n == hs.len(),
            n + from == h@.len(),
            h@.len() <= usize::MAX,
            m == p@.len(),
            from <= h@.len(),
            find_from(hs, p@, 0) == find_from(hs, p@, i as int),
        decreases n + 1 - i,
    {
        let mut k: usize = 0;
        let mut ok = true;
        while ok && k < m
            invariant
                hs == h@.skip(from as int),
                n == hs.len(),
                n + from == h@.len(),
                m == p@.len(),
                i + m <= n,
                k <= m,
                h@.len() <= usize::MAX,
                ok ==> forall|t: int| 0 <= t < k ==> hs[i + t] == p@[t],
                !ok ==> k < m && hs[i + k] != p@[k as int],
            decreases m - k, (if ok { 1int } else { 0int }),
        {
            if h[from + i + k] != p[k] {
                ok = false;
            } else {
                k = k + 1;
            }
        }
        if ok {
            assert(hs.subrange(i as int, i + m) =~= p@);
            return Some(i);
        }
        assert(!matches_at(hs, p@, i as int)) by {
            assert(hs.subrange(i as int, i + m)[k as int] == hs[i + k]);
        }
        i = i + 1;
    }
    None
}

/// Start of `v[lo..hi]` once leading whitespace is removed.
pub fn skip_ws_start(v: &Vec<char>, lo: usize, hi: usize) -> (r: usize)
    requires
        lo <= hi <= v@.len(),
    ensures
        lo <= r <= hi,
        trim_start(v@.subrange(lo as int, hi as int)) == v@.subrange(r as int, hi as int),
{
    let mut i = lo;
    while i < hi && char_is_ws(v[i])
        invariant
            lo <= i <= hi <= v@.len(),
            trim_start(v@.subrange(lo as int, hi as int)) == trim_start(
                v@.subrange(i as int, hi as int),
            ),
        decreases hi - i,
    {
        assert(v@.subrange(i as int, hi as int).drop_first() =~= v@.subrange(i + 1, hi as int));
        i = i + 1;
    }
    i
}

/// End of `v[lo..hi]` once trailing whitespace is removed.
pub fn skip_ws_end(v: &Vec<char>, lo: usize, hi: usize) -> (r: usize)
    requires
        lo <= hi <= v@.len(),
    ensures
        lo <= r <= hi,
        trim_end(v@.subrange(lo as int, hi as int)) == v@.subrange(lo as int, r as int),
{
    let mut j = hi;
    while j > lo && char_is_ws(v[j - 1])
        invariant
            lo <= j <= hi <= v@.len(),
            trim_end(v@.subrange(lo as int, hi as int)) == trim_end(
                v@.subrange(lo as int, j as int),
            ),
        decreases j - lo,
    {
        assert(v@.subrange(lo as int, j as int).drop_last() =~= v@.subrange(lo as int, j - 1));
        j = j - 1;
    }
    j
}

/// `decimal_value` never shrinks when a digit string is extended.
pub proof fn lemma_decimal_value_prefix(ds: Seq<char>, k: int)
    requires
        0 <= k <= ds.len(),
    ensures
        decimal_value(ds.take(k)) <= decimal_value(ds),
    decreases ds.len() - k,
{
    if k < ds.len() {
        lemma_decimal_value_prefix(ds, k + 1);
        assert(ds.take(k + 1).drop_last() =~= ds.take(k));
    } else {
        assert(ds.take(k) =~= ds);
    }
}

/// `usize::from_str` on `v[lo..hi]`.
pub fn parse_usize_at(v: &Vec<char>, lo: usize, hi: usize) -> (r: Option<usize>)
    requires
        lo <= hi <= v@.len(),
    ensures
        r == parse_usize(v@.subrange(lo as int, hi as int)),
{
    let ghost t = v@.subrange(lo as int, hi as int);
    let ghost sd = if t.len() > 0 && t[0] == '+' {
        t.drop_first()
    } else {
        t
    };
    let mut start = lo;
    if lo < hi && v[lo] == '+' {
        start = lo + 1;
        assert(t[0] == v@[lo as int]);
        assert(t.drop_first() =~= v@.subrange(start as int, hi as int));
    } else {
        assert(t.len() > 0 ==> t[0] == v@[lo as int]);
        assert(t =~= v@.subrange(start as int, hi as int));
    }
    let ghost ds = v@.subrange(start as int, hi as int);
    assert(sd == ds);
    let ghost outcome = if ds.len() == 0 || !all_digits(ds) || decimal_value(ds) > usize::MAX {
        None
    } else {
        Some(decimal_value(ds) as usize)
    };
    assert(parse_usize(t) == outcome);
    if start == hi {
        return None;
    }
    let mut acc: usize = 0;
    let mut i = start;
    while i < hi
        invariant
            lo <= start <= i <= hi <= v@.len(),
            ds == v@.subrange(start as int, hi as int),
            t == v@.subrange(lo as int, hi as int),
            ds.len() > 0,
            parse_usize(t) == (if ds.len() == 0 || !all_digits(ds) || decimal_value(ds) > usize::MAX {
                None
            } else {
                Some(decimal_value(ds) as usize)
            }),
            all_digits(ds.take(i - start)),
            acc == decimal_value(ds.take(i - start)),
        decreases hi - i,
    {
        let c = v[i];
        let ghost pre = ds.take(i - start);
        let ghost next = ds.take(i + 1 - start);
        assert(next.drop_last() =~= pre);
        assert(next.last() == c);
        if !('0' <= c && c <= '9') {
            assert(!is_digit(ds[i - start]));
            return None;
        }
        let d: usize = (c as u32 - '0' as u32) as usize;
        assert(d == digit_value(c));
        if acc > (usize::MAX - d) / 10 {
            proof {
                assert(acc * 10 + d > usize::MAX) by (nonlinear_arith)
                    requires
                        acc > (usize::MAX - d) / 10,
                        d <= 9,
                ;
                lemma_decimal_value_prefix(ds, i + 1 - start);
                assert(decimal_value(next) == acc * 10 + d);
            }
            return None;
        }
        assert(acc * 10 + d <= usize::MAX) by (nonlinear_arith)
            requires
                acc <= (usize::MAX - d) / 10,
                d <= 9,
        ;
        acc = acc * 10 + d;
        i = i + 1;
        assert forall|j: int| 0 <= j < i - start implies is_digit(#[trigger] ds.take(i - start)[j]) by {
            if j < i - 1 - start {
                assert(ds.take(i - start)[j] == pre[j]);
            }
        }
    }
    assert(ds.take(hi - start) =~= ds);
    Some(acc)
}

} // verus!
