//! The NumPy `.npy` header (format 1.0 on write; 1.0, 2.0 and 3.0 on read).
//!
//! The header is an ASCII dictionary such as
//! `{'descr': '<f8', 'fortran_order': False, 'shape': (2, 3), }`, padded with
//! spaces and a final newline so that the magic string, the version, the
//! header length and the header together fill a multiple of 16 bytes.
use vstd::prelude::*;
use vstd::utf8::*;
use vstd::bytes::{
    lemma_auto_spec_u16_to_from_le_bytes, lemma_auto_spec_u32_to_from_le_bytes,
    lemma_auto_spec_u64_to_from_le_bytes, spec_u16_from_le_bytes, spec_u16_to_le_bytes,
    spec_u32_from_le_bytes, spec_u64_from_le_bytes, spec_u64_to_le_bytes, u16_from_le_bytes,
    u16_to_le_bytes, u32_from_le_bytes, u64_from_le_bytes, u64_to_le_bytes,
};
use vstd::slice::slice_subrange;
use vstd::string::StringSliceAdditionalSpecFns;
use crate::array::{array_elems, array_shape, nd_from_parts, well_formed, NDArrayF64};
use crate::shape::{shape_fits, shape_size, size_of_shape_checked};
use crate::text::{
    all_digits, collect_chars, decimal_chars, decimal_value, digit_char, digit_value, find,
    find_from, find_rel, is_digit, is_ws, matches_at, parse_pieces, parse_usize, parse_usize_at,
    skip_ws_end, skip_ws_start, split_commas, starts_with, trim, trim_end, trim_start,
};

verus! {

/// The text of the axis lengths `s[0], s[1], ...` separated by `", "`.
pub open spec fn dims_text(s: Seq<usize>) -> Seq<char>
    decreases s.len(),
{
    if s.len() == 0 {
        Seq::empty()
    } else if s.len() == 1 {
        decimal_chars(s[0] as nat)
    } else {
        dims_text(s.drop_last()) + seq![',', ' '] + decimal_chars(s.last() as nat)
    }
}

/// The Python tuple for shape `s`: `()`, `(n,)` or `(a, b, ...)`.
pub open spec fn shape_text(s: Seq<usize>) -> Seq<char> {
    if s.len() == 0 {
        seq!['(', ')']
    } else if s.len() == 1 {
        seq!['('] + decimal_chars(s[0] as nat) + seq![',', ')']
    } else {
        seq!['('] + dims_text(s) + seq![')']
    }
}

/// The opening of every header this library writes.
pub open spec fn dict_open() -> Seq<char> {
    "{'descr': '<f8', 'fortran_order': False, 'shape': "@
}

/// The closing of every header this library writes.
pub open spec fn dict_close() -> Seq<char> {
    ", }"@
}

/// The header dictionary for an array of shape `s`.
pub open spec fn header_dict(s: Seq<usize>) -> Seq<char> {
    dict_open() + shape_text(s) + dict_close()
}

/// Spaces needed after a dictionary of `n` characters so that the 10-byte
/// prefix, the dictionary, the spaces and the newline fill a multiple of 16.
pub open spec fn header_padding(n: nat) -> nat {
    ((16 - ((10 + n + 1) % 16)) % 16) as nat
}

/// The full header text for shape `s`: dictionary, padding, newline.
pub open spec fn npy_header_chars(s: Seq<usize>) -> Seq<char> {
    header_dict(s) + Seq::new(header_padding(header_dict(s).len()), |i: int| ' ') + seq!['\n']
}

/// The accepted element types: little-endian or native `f64`.
pub open spec fn descr_ok(d: Seq<char>) -> bool {
    d == "<f8"@ || d == "=f8"@ || d == "|f8"@
}

/// The shape and the `fortran_order` flag read from a header, following the
/// header's keys in order: `'descr':` and its quoted value, which must be
/// `<f8`, `=f8` or `|f8`; `'fortran_order':`, true when the value after it
/// starts with `True`; `'shape':` and the text between the first `(` after it
/// and the first `)` after that, split at commas.
pub open spec fn spec_parse_npy_header(h: Seq<char>) -> Result<(Seq<usize>, bool), ()> {
    let dk = "'descr':"@;
    let fk = "'fortran_order':"@;
    let sk = "'shape':"@;
    match find(h, dk) {
        None => Err(()),
        Some(i) => {
            let rest = h.skip(i + dk.len());
            match find(rest, seq!['\'']) {
                None => Err(()),
                Some(q1) => {
                    let after = rest.skip(q1 + 1);
                    match find(after, seq!['\'']) {
                        None => Err(()),
                        Some(q2) => {
                            if !descr_ok(after.take(q2)) {
                                Err(())
                            } else {
                                match find(h, fk) {
                                    None => Err(()),
                                    Some(j) => {
                                        let fortran = starts_with(
                                            trim_start(h.skip(j + fk.len())),
                                            "True"@,
                                        );
                                        match find(h, sk) {
                                            None => Err(()),
                                            Some(k) => {
                                                let after_sh = h.skip(k + sk.len());
                                                match find(after_sh, seq!['(']) {
                                                    None => Err(()),
                                                    Some(lp) => {
                                                        match find(after_sh.skip(lp), seq![')']) {
                                                            None => Err(()),
                                                            Some(rp) => {
                                                                match parse_pieces(
                                                                    split_commas(
                                                                        after_sh.subrange(
                                                                            lp + 1,
                                                                            lp + rp,
                                                                        ),
                                                                    ),
                                                                ) {
                                                                    None => Err(()),
                                                                    Some(dims) => Ok(
                                                                        (dims, fortran),
                                                                    ),
                                                                }
                                                            },
                                                        }
                                                    },
                                                }
                                            },
                                        }
                                    },
                                }
                            }
                        },
                    }
                },
            }
        },
    }
}

/// UTF-8 of a concatenation is the concatenation of the UTF-8 of the parts.
pub proof fn lemma_encode_concat(a: Seq<char>, b: Seq<char>)
    ensures
        encode_utf8(a + b) == encode_utf8(a) + encode_utf8(b),
    decreases a.len(),
{
    if a.len() == 0 {
        assert(a + b =~= b);
    } else {
        assert((a + b).drop_first() =~= a.drop_first() + b);
        lemma_encode_concat(a.drop_first(), b);
        assert((a + b)[0] == a[0]);
    }
}

/// An ASCII character is encoded as its own code.
pub proof fn lemma_encode_ascii_char(c: char)
    requires
        (c as u32) < 128,
    ensures
        encode_utf8(seq![c]) == seq![c as u8],
{
    assert(is_ascii_chars(seq![c]));
    is_ascii_chars_encode_utf8(seq![c]);
    assert(encode_utf8(seq![c]) =~= seq![c as u8]);
}

/// Appends the UTF-8 bytes of `s`.
fn push_str(out: &mut Vec<u8>, s: &str)
    ensures
        final(out)@ == old(out)@ + encode_utf8(s@),
{
    let b = s.as_bytes();
    let mut i: usize = 0;
    let ghost start = out@;
    while i < b.len()
        invariant
            i <= b@.len(),
            b@ == encode_utf8(s@),
            out@ == start + b@.take(i as int),
        decreases b@.len() - i,
    {
        out.push(b[i]);
        i = i + 1;
        assert(b@.take(i as int) =~= b@.take(i - 1).push(b@[i - 1]));
    }
    assert(b@.take(b@.len() as int) =~= b@);
}

/// Appends one ASCII character.
fn push_ascii(out: &mut Vec<u8>, c: char)
    requires
        (c as u32) < 128,
    ensures
        final(out)@ == old(out)@ + encode_utf8(seq![c]),
{
    proof {
        lemma_encode_ascii_char(c);
    }
    out.push(c as u8);
}

/// The character of the decimal digit `d`.
fn digit_to_char(d: usize) -> (c: char)
    requires
        d < 10,
    ensures
        c == digit_char(d as nat),
        (c as u32) < 128,
{
    if d == 0 {
        '0'
    } else if d == 1 {
        '1'
    } else if d == 2 {
        '2'
    } else if d == 3 {
        '3'
    } else if d == 4 {
        '4'
    } else if d == 5 {
        '5'
    } else if d == 6 {
        '6'
    } else if d == 7 {
        '7'
    } else if d == 8 {
        '8'
    } else {
        '9'
    }
}

/// Appends the decimal representation of `n`.
fn push_decimal(out: &mut Vec<u8>, n: usize)
    ensures
        final(out)@ == old(out)@ + encode_utf8(decimal_chars(n as nat)),
    decreases n,
{
    if n >= 10 {
        push_decimal(out, n / 10);
        let c = digit_to_char(n % 10);
        push_ascii(out, c);
        proof {
            lemma_encode_concat(decimal_chars((n / 10) as nat), seq![c]);
            assert(decimal_chars(n as nat) == decimal_chars((n / 10) as nat) + seq![c]);
        }
    } else {
        let c = digit_to_char(n);
        push_ascii(out, c);
    }
}

/// The header block of a `.npy` file for an array of shape `shape`: the
/// dictionary `{'descr': '<f8', 'fortran_order': False, 'shape': (...), }`
/// padded with spaces and a newline so that the 10-byte prefix plus the
/// header fill a multiple of 16 bytes.
pub fn build_npy_header(shape: &[usize]) -> (r: Vec<u8>)
    ensures
        r@ == encode_utf8(npy_header_chars(shape@)),
        (10 + r@.len()) % 16 == 0,
        r@.last() == 0x0Au8,
{
    let mut out: Vec<u8> = Vec::new();
    push_str(&mut out, "{'descr': '<f8', 'fortran_order': False, 'shape': ");
    let ghost c0 = dict_open();
    assert(out@ == encode_utf8(c0));
    let ghost mut chars = c0;
    if shape.len() == 0 {
        push_ascii(&mut out, '(');
        push_ascii(&mut out, ')');
        proof {
            lemma_encode_concat(c0, seq!['(']);
            lemma_encode_concat(c0 + seq!['('], seq![')']);
            chars = c0 + seq!['('] + seq![')'];
            assert(chars =~= c0 + shape_text(shape@));
        }
    } else if shape.len() == 1 {
        push_ascii(&mut out, '(');
        push_decimal(&mut out, shape[0]);
        push_ascii(&mut out, ',');
        push_ascii(&mut out, ')');
        proof {
            let d = decimal_chars(shape@[0] as nat);
            lemma_encode_concat(c0, seq!['(']);
            lemma_encode_concat(c0 + seq!['('], d);
            lemma_encode_concat(c0 + seq!['('] + d, seq![',']);
            lemma_encode_concat(c0 + seq!['('] + d + seq![','], seq![')']);
            chars = c0 + seq!['('] + d + seq![','] + seq![')'];
            assert(chars =~= c0 + shape_text(shape@));
        }
    } else {
        push_ascii(&mut out, '(');
        proof {
            lemma_encode_concat(c0, seq!['(']);
        }
        let mut i: usize = 0;
        while i < shape.len()
            invariant
                shape@.len() >= 2,
                i <= shape@.len(),
                out@ == encode_utf8(
                    c0 + seq!['('] + dims_text(shape@.take(i as int)),
                ),
            decreases shape@.len() - i,
        {
            let ghost pre = c0 + seq!['('] + dims_text(shape@.take(i as int));
            let ghost d = decimal_chars(shape@[i as int] as nat);
            assert(shape@.take(i + 1).drop_last() =~= shape@.take(i as int));
            if i > 0 {
                push_ascii(&mut out, ',');
                push_ascii(&mut out, ' ');
                push_decimal(&mut out, shape[i]);
                proof {
                    lemma_encode_concat(pre, seq![',']);
                    lemma_encode_concat(pre + seq![','], seq![' ']);
                    lemma_encode_concat(pre + seq![','] + seq![' '], d);
                    assert(dims_text(shape@.take(i + 1)) == dims_text(shape@.take(i as int))
                        + seq![',', ' '] + d);
                    assert(pre + seq![','] + seq![' '] + d =~= c0 + seq!['('] + dims_text(
                        shape@.take(i + 1),
                    ));
                }
            } else {
                push_decimal(&mut out, shape[i]);
                proof {
                    lemma_encode_concat(pre, d);
                    assert(dims_text(shape@.take(1)) == d);
                    assert(pre + d =~= c0 + seq!['('] + dims_text(shape@.take(i + 1)));
                }
            }
            i = i + 1;
        }
        push_ascii(&mut out, ')');
        proof {
            assert(shape@.take(shape@.len() as int) =~= shape@);
            lemma_encode_concat(c0 + seq!['('] + dims_text(shape@), seq![')']);
            chars = c0 + seq!['('] + dims_text(shape@) + seq![')'];
            assert(chars =~= c0 + shape_text(shape@));
        }
    }
    push_str(&mut out, ", }");
    proof {
        lemma_encode_concat(chars, dict_close());
        chars = chars + dict_close();
        assert(chars =~= header_dict(shape@));
        lemma_header_dict_ascii(shape@);
        is_ascii_chars_encode_utf8(chars);
    }
    assert(out@.len() == header_dict(shape@).len());
    let unpadded_mod = (out.len() % 16 + 11) % 16;
    assert(unpadded_mod == (10 + out@.len() + 1) % 16) by (nonlinear_arith)
        requires
            unpadded_mod == (out@.len() % 16 + 11) % 16,
    ;
    let pad = (16 - unpadded_mod) % 16;
    let mut k: usize = 0;
    while k < pad
        invariant
            k <= pad,
            pad == header_padding(header_dict(shape@).len()),
            out@ == encode_utf8(header_dict(shape@) + Seq::new(k as nat, |i: int| ' ')),
        decreases pad - k,
    {
        push_ascii(&mut out, ' ');
        proof {
            lemma_encode_concat(header_dict(shape@) + Seq::new(k as nat, |i: int| ' '), seq![' ']);
            assert(header_dict(shape@) + Seq::new(k as nat, |i: int| ' ') + seq![' ']
                =~= header_dict(shape@) + Seq::new((k + 1) as nat, |i: int| ' '));
        }
        k = k + 1;
    }
    push_ascii(&mut out, '\n');
    proof {
        let body = header_dict(shape@) + Seq::new(pad as nat, |i: int| ' ');
        lemma_encode_concat(body, seq!['\n']);
        lemma_header_dict_ascii(shape@);
        assert(is_ascii_chars(npy_header_chars(shape@)));
        is_ascii_chars_encode_utf8(npy_header_chars(shape@));
        assert(out@.len() == header_dict(shape@).len() + pad + 1);
    }
    out
}

/// A decimal digit is an ASCII digit character with that value.
proof fn lemma_digit_char(d: nat)
    requires
        d < 10,
    ensures
        is_digit(digit_char(d)),
        digit_value(digit_char(d)) == d,
        (digit_char(d) as u32) < 128,
{
}

/// The decimal text of `n` is a non-empty string of ASCII digits whose
/// value is `n`.
pub proof fn lemma_decimal_chars(n: nat)
    ensures
        decimal_chars(n).len() > 0,
        all_digits(decimal_chars(n)),
        decimal_value(decimal_chars(n)) == n,
        is_ascii_chars(decimal_chars(n)),
    decreases n,
{
    if n < 10 {
        lemma_digit_char(n);
        assert(decimal_chars(n).drop_last() =~= Seq::<char>::empty());
        assert(decimal_value(Seq::<char>::empty()) == 0);
    } else {
        lemma_decimal_chars(n / 10);
        lemma_digit_char(n % 10);
        let d = decimal_chars(n);
        assert(d.drop_last() =~= decimal_chars(n / 10));
        assert(d.last() == digit_char(n % 10));
        assert(n == (n / 10) * 10 + n % 10) by (nonlinear_arith);
        assert forall|i: int| 0 <= i < d.len() implies is_digit(#[trigger] d[i]) by {
            if i < d.len() - 1 {
                assert(d[i] == decimal_chars(n / 10)[i]);
            }
        }
        assert forall|i: int| 0 <= i < d.len() implies '\0' <= #[trigger] d[i] <= '\u{7f}' by {
            assert(is_digit(d[i]));
        }
    }
}

/// The text of the axis lengths is ASCII.
proof fn lemma_dims_text_ascii(s: Seq<usize>)
    ensures
        is_ascii_chars(dims_text(s)),
    decreases s.len(),
{
    if s.len() == 1 {
        lemma_decimal_chars(s[0] as nat);
    } else if s.len() > 1 {
        lemma_dims_text_ascii(s.drop_last());
        lemma_decimal_chars(s.last() as nat);
        is_ascii_chars_concat(
            dims_text(s.drop_last()) + seq![',', ' '],
            dims_text(s.drop_last()),
            seq![',', ' '],
        );
        is_ascii_chars_concat(
            dims_text(s),
            dims_text(s.drop_last()) + seq![',', ' '],
            decimal_chars(s.last() as nat),
        );
    }
}

/// The header dictionary is ASCII.
proof fn lemma_header_dict_ascii(s: Seq<usize>)
    ensures
        is_ascii_chars(header_dict(s)),
        is_ascii_chars(npy_header_chars(s)),
{
    reveal_strlit("{'descr': '<f8', 'fortran_order': False, 'shape': ");
    reveal_strlit(", }");
    let st = shape_text(s);
    if s.len() == 1 {
        lemma_decimal_chars(s[0] as nat);
    } else if s.len() > 1 {
        lemma_dims_text_ascii(s);
    }
    assert(is_ascii_chars(st)) by {
        if s.len() == 1 {
            let d = decimal_chars(s[0] as nat);
            assert forall|i: int| 0 <= i < st.len() implies '\0' <= #[trigger] st[i] <= '\u{7f}' by {
                if 1 <= i < st.len() - 2 {
                    assert(st[i] == d[i - 1]);
                }
            }
        } else if s.len() > 1 {
            let d = dims_text(s);
            assert forall|i: int| 0 <= i < st.len() implies '\0' <= #[trigger] st[i] <= '\u{7f}' by {
                if 1 <= i < st.len() - 1 {
                    assert(st[i] == d[i - 1]);
                }
            }
        }
    }
    let h = header_dict(s);
    assert forall|i: int| 0 <= i < h.len() implies '\0' <= #[trigger] h[i] <= '\u{7f}' by {
        if i < dict_open().len() {
            assert(h[i] == dict_open()[i]);
        } else if i < dict_open().len() + st.len() {
            assert(h[i] == st[i - dict_open().len()]);
        } else {
            assert(h[i] == dict_close()[i - dict_open().len() - st.len()]);
        }
    }
    let full = npy_header_chars(s);
    assert forall|i: int| 0 <= i < full.len() implies '\0' <= #[trigger] full[i] <= '\u{7f}' by {
        if i < h.len() {
            assert(full[i] == h[i]);
        }
    }
}

/// A position returned by `find_from` is a match, at or after the start.
pub proof fn lemma_find_sound(h: Seq<char>, p: Seq<char>, j: int)
    ensures
        find_from(h, p, j) matches Some(i) ==> matches_at(h, p, i) && j <= i,
    decreases h.len() + 1 - j,
{
    if !(j < 0 || j + p.len() > h.len()) && !matches_at(h, p, j) {
        lemma_find_sound(h, p, j + 1);
    }
}

/// Whether `v[lo..hi]` equals `p`.
fn range_equals(v: &Vec<char>, lo: usize, hi: usize, p: &Vec<char>) -> (b: bool)
    requires
        lo <= hi <= v@.len(),
    ensures
        b == (v@.subrange(lo as int, hi as int) == p@),
{
    if hi - lo != p.len() {
        return false;
    }
    let mut k: usize = 0;
    while k < p.len()
        invariant
            lo <= hi <= v@.len(),
            hi - lo == p@.len(),
            k <= p@.len(),
            forall|t: int| 0 <= t < k ==> v@[lo + t] == p@[t],
        decreases p@.len() - k,
    {
        if v[lo + k] != p[k] {
            assert(v@.subrange(lo as int, hi as int)[k as int] != p@[k as int]);
            return false;
        }
        k = k + 1;
    }
    assert(v@.subrange(lo as int, hi as int) =~= p@);
    true
}

/// Whether `v[lo..hi]` starts with `p`.
fn range_starts_with(v: &Vec<char>, lo: usize, hi: usize, p: &Vec<char>) -> (b: bool)
    requires
        lo <= hi <= v@.len(),
    ensures
        b == starts_with(v@.subrange(lo as int, hi as int), p@),
{
    if hi - lo < p.len() {
        return false;
    }
    let r = range_equals(v, lo, lo + p.len(), p);
    assert(v@.subrange(lo as int, hi as int).subrange(0, p@.len() as int) =~= v@.subrange(
        lo as int,
        lo + p@.len(),
    ));
    r
}

/// What one comma-separated piece `v[lo..hi]` contributes: `Some(None)` when
/// it is blank, `Some(Some(d))` when it reads as the axis length `d`, `None`
/// when it is not a number.
fn token_value(v: &Vec<char>, lo: usize, hi: usize) -> (r: Option<Option<usize>>)
    requires
        lo <= hi <= v@.len(),
    ensures
        ({
            let t = trim(v@.subrange(lo as int, hi as int));
            if t.len() == 0 {
                r == Some(None::<usize>)
            } else {
                match parse_usize(t) {
                    None => r is None,
                    Some(d) => r == Some(Some(d)),
                }
            }
        }),
{
    let a = skip_ws_start(v, lo, hi);
    let b = skip_ws_end(v, a, hi);
    assert(trim(v@.subrange(lo as int, hi as int)) == v@.subrange(a as int, b as int));
    if a == b {
        return Some(None);
    }
    match parse_usize_at(v, a, b) {
        None => None,
        Some(d) => Some(Some(d)),
    }
}

/// Parsing extra pieces after a failure still fails.
proof fn lemma_parse_pieces_none(x: Seq<Seq<char>>, y: Seq<char>)
    requires
        parse_pieces(x) is None,
    ensures
        parse_pieces(x.push(y)) is None,
{
    assert(x.push(y).drop_last() =~= x);
}

/// Axis lengths read from the comma-separated text `v[lo..hi]`.
fn parse_dims_range(v: &Vec<char>, lo: usize, hi: usize) -> (r: Option<Vec<usize>>)
    requires
        lo <= hi <= v@.len(),
    ensures
        match parse_pieces(split_commas(v@.subrange(lo as int, hi as int))) {
            Some(ds) => r matches Some(x) && x@ == ds,
            None => r is None,
        },
{
    let ghost body = v@.subrange(lo as int, hi as int);
    let mut dims: Vec<usize> = Vec::new();
    let mut failed = false;
    let mut tok = lo;
    let mut i = lo;
    let ghost mut done: Seq<Seq<char>> = Seq::empty();
    assert(body.take(0) =~= Seq::<char>::empty());
    assert(v@.subrange(lo as int, lo as int) =~= Seq::<char>::empty());
    assert(split_commas(body.take(0)) == seq![Seq::<char>::empty()]);
    assert(split_commas(body.take(0)) =~= done.push(v@.subrange(tok as int, i as int)));
    while i < hi
        invariant
            lo <= tok <= i <= hi <= v@.len(),
            body == v@.subrange(lo as int, hi as int),
            split_commas(body.take(i - lo)) == done.push(v@.subrange(tok as int, i as int)),
            failed ==> parse_pieces(done) is None,
            !failed ==> parse_pieces(done) == Some(dims@),
        decreases hi - i,
    {
        let ghost pre = body.take(i - lo);
        assert(body.take(i + 1 - lo).drop_last() =~= pre);
        assert(body.take(i + 1 - lo).last() == v@[i as int]);
        if v[i] == ',' {
            let ghost piece = v@.subrange(tok as int, i as int);
            proof {
                assert(done.push(piece).drop_last() =~= done);
                assert(done.push(piece).last() == piece);
            }
            if failed {
                proof {
                    lemma_parse_pieces_none(done, piece);
                }
            } else {
                match token_value(v, tok, i) {
                    None => {
                        failed = true;
                    },
                    Some(t) => {
                        if let Some(d) = t {
                            dims.push(d);
                        }
                    },
                }
            }
            proof {
                done = done.push(piece);
            }
            tok = i + 1;
            assert(v@.subrange(tok as int, (i + 1) as int) =~= Seq::<char>::empty());
        } else {
            assert(v@.subrange(tok as int, (i + 1) as int) =~= v@.subrange(tok as int, i as int).push(
                v@[i as int],
            ));
            assert(done.push(v@.subrange(tok as int, i as int)).update(
                done.len() as int,
                v@.subrange(tok as int, (i + 1) as int),
            ) =~= done.push(v@.subrange(tok as int, (i + 1) as int)));
        }
        i = i + 1;
    }
    assert(body.take(hi - lo) =~= body);
    let ghost piece = v@.subrange(tok as int, hi as int);
    assert(done.push(piece).drop_last() =~= done);
    assert(done.push(piece).last() == piece);
    if failed {
        proof {
            lemma_parse_pieces_none(done, piece);
        }
        return None;
    }
    match token_value(v, tok, hi) {
        None => None,
        Some(t) => {
            if let Some(d) = t {
                dims.push(d);
            }
            Some(dims)
        },
    }
}

/// Reads the shape and the `fortran_order` flag of a `.npy` header. Fails
/// when a key or a delimiter is missing, when the element type is not `<f8`,
/// `=f8` or `|f8`, or when an axis length is not a `usize`.
pub fn parse_npy_header(h: &str) -> (r: Result<(Vec<usize>, bool), ()>)
    ensures
        match spec_parse_npy_header(h@) {
            Ok((dims, fortran)) => r matches Ok((v, f)) && v@ == dims && f == fortran,
            Err(_) => r is Err,
        },
{
    let v = collect_chars(h);
    let n = v.len();
    assert(v@.skip(0) =~= v@);
    let dk = collect_chars("'descr':");
    let fk = collect_chars("'fortran_order':");
    let sk = collect_chars("'shape':");
    let quote = collect_chars("'");
    let lparen = collect_chars("(");
    let rparen = collect_chars(")");
    let truth = collect_chars("True");
    let f8_le = collect_chars("<f8");
    let f8_native = collect_chars("=f8");
    let f8_any = collect_chars("|f8");
    proof {
        reveal_strlit("'");
        reveal_strlit("(");
        reveal_strlit(")");
        assert(quote@ =~= seq!['\'']);
        assert(lparen@ =~= seq!['(']);
        assert(rparen@ =~= seq![')']);
    }
    let ghost hv = v@;
    // 'descr': followed by a quoted element type
    let i = match find_rel(&v, 0, &dk) {
        Some(i) => i,
        None => return Err(()),
    };
    proof {
        lemma_find_sound(hv, dk@, 0);
    }
    let a = i + dk.len();
    let q1 = match find_rel(&v, a, &quote) {
        Some(q) => q,
        None => return Err(()),
    };
    proof {
        lemma_find_sound(hv.skip(a as int), quote@, 0);
    }
    let b = a + q1 + 1;
    assert(hv.skip(a as int).skip(q1 + 1) =~= hv.skip(b as int));
    let q2 = match find_rel(&v, b, &quote) {
        Some(q) => q,
        None => return Err(()),
    };
    proof {
        lemma_find_sound(hv.skip(b as int), quote@, 0);
    }
    assert(hv.skip(b as int).take(q2 as int) =~= hv.subrange(b as int, (b + q2) as int));
    let e = b + q2;
    let ok = range_equals(&v, b, e, &f8_le) || range_equals(&v, b, e, &f8_native)
        || range_equals(&v, b, e, &f8_any);
    if !ok {
        assert(!descr_ok(hv.skip(a as int).skip(q1 + 1).take(q2 as int)));
        return Err(());
    }
    // 'fortran_order': followed by True or something else
    let j = match find_rel(&v, 0, &fk) {
        Some(j) => j,
        None => return Err(()),
    };
    proof {
        lemma_find_sound(hv, fk@, 0);
    }
    let fo = j + fk.len();
    let t = skip_ws_start(&v, fo, v.len());
    assert(hv.skip(fo as int) =~= hv.subrange(fo as int, hv.len() as int));
    let fortran_order = range_starts_with(&v, t, v.len(), &truth);
    // 'shape': followed by a parenthesised tuple
    let k = match find_rel(&v, 0, &sk) {
        Some(k) => k,
        None => return Err(()),
    };
    proof {
        lemma_find_sound(hv, sk@, 0);
    }
    let c = k + sk.len();
    let lp = match find_rel(&v, c, &lparen) {
        Some(p) => p,
        None => return Err(()),
    };
    proof {
        lemma_find_sound(hv.skip(c as int), lparen@, 0);
    }
    let ghost after_sh = hv.skip(c as int);
    assert(after_sh.skip(lp as int) =~= hv.skip((c + lp) as int));
    let rp = match find_rel(&v, c + lp, &rparen) {
        Some(p) => p,
        None => return Err(()),
    };
    proof {
        lemma_find_sound(hv.skip((c + lp) as int), rparen@, 0);
        assert(after_sh.subrange(lp as int, lp + 1)[0] == '(');
        if rp == 0 {
            assert(hv.skip((c + lp) as int).subrange(0, 1)[0] == ')');
            assert(hv[c + lp] == ')');
            assert(false);
        }
    }
    assert(after_sh.subrange(lp + 1, lp + rp) =~= hv.subrange(c + lp + 1, (c + lp + rp) as int));
    match parse_dims_range(&v, c + lp + 1, c + lp + rp) {
        Some(dims) => Ok((dims, fortran_order)),
        None => Err(()),
    }
}

/// A match at `i` with no match in `[j, i)` is what `find_from` reports from `j`.
proof fn lemma_find_first_from(h: Seq<char>, p: Seq<char>, j: int, i: int)
    requires
        0 <= j <= i,
        matches_at(h, p, i),
        forall|k: int| j <= k < i ==> !matches_at(h, p, k),
    ensures
        find_from(h, p, j) == Some(i),
    decreases i - j,
{
    if j < i {
        lemma_find_first_from(h, p, j + 1, i);
    }
}

/// A match at `i` with no earlier match is what `find` reports.
proof fn lemma_find_first(h: Seq<char>, p: Seq<char>, i: int)
    requires
        0 <= i,
        matches_at(h, p, i),
        forall|k: int| 0 <= k < i ==> !matches_at(h, p, k),
    ensures
        find(h, p) == Some(i),
{
    lemma_find_first_from(h, p, 0, i);
}

/// `split_commas` always yields at least one piece.
proof fn lemma_split_commas_nonempty(s: Seq<char>)
    ensures
        split_commas(s).len() >= 1,
    decreases s.len(),
{
    if s.len() > 0 {
        lemma_split_commas_nonempty(s.drop_last());
    }
}

/// `y` holds no comma.
pub open spec fn comma_free(y: Seq<char>) -> bool {
    forall|i: int| 0 <= i < y.len() ==> #[trigger] y[i] != ','
}

/// Appending comma-free text extends the last piece.
proof fn lemma_split_append_comma_free(x: Seq<char>, y: Seq<char>)
    requires
        comma_free(y),
    ensures
        split_commas(x + y) == split_commas(x).update(
            split_commas(x).len() - 1,
            split_commas(x).last() + y,
        ),
    decreases y.len(),
{
    lemma_split_commas_nonempty(x);
    if y.len() == 0 {
        assert(x + y =~= x);
        assert(split_commas(x).last() + y =~= split_commas(x).last());
        assert(split_commas(x).update(split_commas(x).len() - 1, split_commas(x).last())
            =~= split_commas(x));
    } else {
        let y0 = y.drop_last();
        assert(comma_free(y0)) by {
            assert forall|i: int| 0 <= i < y0.len() implies #[trigger] y0[i] != ',' by {
                assert(y0[i] == y[i]);
            }
        }
        lemma_split_append_comma_free(x, y0);
        assert((x + y).drop_last() =~= x + y0);
        assert((x + y).last() == y.last());
        assert(y.last() != ',') by {
            assert(y[y.len() - 1] != ',');
        }
        lemma_split_commas_nonempty(x + y0);
        let sx = split_commas(x);
        let r0 = split_commas(x + y0);
        assert(r0.len() == sx.len());
        assert(r0.last() == sx.last() + y0);
        assert((sx.last() + y0).push(y.last()) =~= sx.last() + y);
        assert(r0.update(r0.len() - 1, r0.last().push(y.last())) =~= sx.update(
            sx.len() - 1,
            sx.last() + y,
        ));
    }
}

/// Digits are neither commas, nor brackets, nor white space.
proof fn lemma_digits_not_special(d: Seq<char>)
    requires
        all_digits(d),
    ensures
        comma_free(d),
        forall|i: int| 0 <= i < d.len() ==> #[trigger] d[i] != ')' && d[i] != '(' && !is_ws(d[i]),
{
    assert forall|i: int| 0 <= i < d.len() implies #[trigger] d[i] != ',' by {
        assert(is_digit(d[i]));
    }
    assert forall|i: int| 0 <= i < d.len() implies #[trigger] d[i] != ')' && d[i] != '(' && !is_ws(
        d[i],
    ) by {
        assert(is_digit(d[i]));
    }
}

/// The decimal text of `n` is trimmed already, and reads back as `n`.
proof fn lemma_decimal_reads_back(n: usize)
    ensures
        trim(decimal_chars(n as nat)) == decimal_chars(n as nat),
        trim(seq![' '] + decimal_chars(n as nat)) == decimal_chars(n as nat),
        parse_usize(decimal_chars(n as nat)) == Some(n),
{
    let d = decimal_chars(n as nat);
    lemma_decimal_chars(n as nat);
    lemma_digits_not_special(d);
    assert(!is_ws(d[0]));
    assert(!is_ws(d.last()));
    assert(trim_start(d) == d);
    assert(trim_end(d) == d);
    let sd = seq![' '] + d;
    assert(sd.drop_first() =~= d);
    assert(is_ws(sd[0]));
    assert(trim_start(sd) == trim_start(d));
    assert(is_digit(d[0]));
    assert(d[0] != '+');
}

/// The pieces of the text of two or more axis lengths read back as them.
proof fn lemma_dims_text_reads_back(s: Seq<usize>)
    requires
        s.len() >= 1,
    ensures
        parse_pieces(split_commas(dims_text(s))) == Some(s),
        forall|i: int|
            0 <= i < dims_text(s).len() ==> #[trigger] dims_text(s)[i] != ')' && dims_text(
                s,
            )[i] != '(',
    decreases s.len(),
{
    if s.len() == 1 {
        let d = decimal_chars(s[0] as nat);
        lemma_decimal_chars(s[0] as nat);
        lemma_digits_not_special(d);
        lemma_decimal_reads_back(s[0]);
        lemma_split_append_comma_free(Seq::<char>::empty(), d);
        assert(Seq::<char>::empty() + d =~= d);
        assert(split_commas(Seq::<char>::empty()) == seq![Seq::<char>::empty()]);
        assert(Seq::<char>::empty() + d =~= d);
        assert(split_commas(d) =~= seq![d]);
        assert(seq![d].drop_last() =~= Seq::<Seq<char>>::empty());
        assert(parse_pieces(Seq::<Seq<char>>::empty()) == Some(Seq::<usize>::empty()));
        assert(trim(d) == d);
        assert(parse_pieces(seq![d]) == Some(Seq::<usize>::empty().push(s[0])));
        assert(Seq::<usize>::empty().push(s[0]) =~= s);
    } else {
        let s0 = s.drop_last();
        let n = s.last();
        let d = decimal_chars(n as nat);
        lemma_dims_text_reads_back(s0);
        lemma_decimal_chars(n as nat);
        lemma_digits_not_special(d);
        lemma_decimal_reads_back(n);
        let x = dims_text(s0);
        let y = seq![' '] + d;
        assert(comma_free(y)) by {
            assert forall|i: int| 0 <= i < y.len() implies #[trigger] y[i] != ',' by {
                if i > 0 {
                    assert(y[i] == d[i - 1]);
                }
            }
        }
        assert(dims_text(s) =~= x.push(',') + y);
        lemma_split_append_comma_free(x.push(','), y);
        assert(x.push(',').drop_last() =~= x);
        assert(split_commas(x.push(',')) == split_commas(x).push(Seq::<char>::empty()));
        let px = split_commas(x);
        assert(px.push(Seq::<char>::empty()).update(px.len() as int, Seq::<char>::empty() + y)
            =~= px.push(y));
        assert(Seq::<char>::empty() + y =~= y);
        assert(split_commas(dims_text(s)) == px.push(y));
        assert(px.push(y).drop_last() =~= px);
        assert(trim(y) == d);
        assert(parse_pieces(px.push(y)) == Some(s0.push(n)));
        assert(s0.push(n) =~= s);
        let t = dims_text(s);
        assert forall|i: int| 0 <= i < t.len() implies #[trigger] t[i] != ')' && t[i] != '(' by {
            if i < x.len() {
                assert(t[i] == x[i]);
            } else if i >= x.len() + 2 {
                assert(t[i] == d[i - x.len() - 2]);
            }
        }
    }
}

/// The text between the parentheses of `shape_text(s)` reads back as `s`.
proof fn lemma_shape_inner_reads_back(s: Seq<usize>)
    ensures
        parse_pieces(split_commas(shape_text(s).subrange(1, shape_text(s).len() - 1))) == Some(s),
        shape_text(s).len() >= 2,
        shape_text(s)[0] == '(',
        shape_text(s).last() == ')',
        forall|i: int| 0 <= i < shape_text(s).len() - 1 ==> #[trigger] shape_text(s)[i] != ')',
{
    let st = shape_text(s);
    if s.len() == 0 {
        let inner = st.subrange(1, 1);
        assert(inner =~= Seq::<char>::empty());
        assert(split_commas(inner) == seq![Seq::<char>::empty()]);
        assert(seq![Seq::<char>::empty()].drop_last() =~= Seq::<Seq<char>>::empty());
        assert(trim(Seq::<char>::empty()) == Seq::<char>::empty());
        assert(parse_pieces(Seq::<Seq<char>>::empty()) == Some(Seq::<usize>::empty()));
        assert(parse_pieces(seq![Seq::<char>::empty()]) == Some(Seq::<usize>::empty()));
        assert(s =~= Seq::<usize>::empty());
    } else if s.len() == 1 {
        let d = decimal_chars(s[0] as nat);
        lemma_decimal_chars(s[0] as nat);
        lemma_digits_not_special(d);
        lemma_decimal_reads_back(s[0]);
        let inner = st.subrange(1, st.len() - 1);
        assert(inner =~= d.push(','));
        assert(d.push(',').drop_last() =~= d);
        lemma_split_append_comma_free(Seq::<char>::empty(), d);
        assert(Seq::<char>::empty() + d =~= d);
        assert(split_commas(d) =~= seq![d]);
        assert(split_commas(inner) == seq![d].push(Seq::<char>::empty()));
        let pieces = seq![d].push(Seq::<char>::empty());
        assert(pieces.drop_last() =~= seq![d]);
        assert(seq![d].drop_last() =~= Seq::<Seq<char>>::empty());
        assert(trim(Seq::<char>::empty()) == Seq::<char>::empty());
        assert(parse_pieces(Seq::<Seq<char>>::empty()) == Some(Seq::<usize>::empty()));
        assert(trim(d) == d);
        assert(parse_pieces(seq![d]) == Some(Seq::<usize>::empty().push(s[0])));
        assert(parse_pieces(pieces) == Some(Seq::<usize>::empty().push(s[0])));
        assert(Seq::<usize>::empty().push(s[0]) =~= s);
        assert forall|i: int| 0 <= i < st.len() - 1 implies #[trigger] st[i] != ')' by {
            if 1 <= i < st.len() - 2 {
                assert(st[i] == d[i - 1]);
            }
        }
    } else {
        let d = dims_text(s);
        lemma_dims_text_reads_back(s);
        let inner = st.subrange(1, st.len() - 1);
        assert(inner =~= d);
        assert forall|i: int| 0 <= i < st.len() - 1 implies #[trigger] st[i] != ')' by {
            if 1 <= i {
                assert(st[i] == d[i - 1]);
            }
        }
    }
}

/// Every header this library writes reads back as its shape, in C order.
pub proof fn lemma_header_round_trip(s: Seq<usize>)
    ensures
        spec_parse_npy_header(npy_header_chars(s)) == Ok::<(Seq<usize>, bool), ()>((s, false)),
{
    reveal_strlit("{'descr': '<f8', 'fortran_order': False, 'shape': ");
    reveal_strlit("'descr':");
    reveal_strlit("'fortran_order':");
    reveal_strlit("'shape':");
    reveal_strlit("True");
    reveal_strlit("<f8");
    let p = dict_open();
    let st = shape_text(s);
    let rest = st + dict_close() + Seq::new(header_padding(header_dict(s).len()), |i: int| ' ')
        + seq!['\n'];
    let h = npy_header_chars(s);
    assert(h =~= p + rest);
    assert(p.len() == 50);
    assert forall|i: int| 0 <= i < 50 implies #[trigger] h[i] == p[i] by {}
    assert forall|i: int| 0 <= i < rest.len() implies #[trigger] h[50 + i] == rest[i] by {}
    lemma_shape_inner_reads_back(s);
    // 'descr':
    let dk = "'descr':"@;
    assert(h.subrange(1, 9) =~= dk);
    assert(!matches_at(h, dk, 0)) by {
        assert(h.subrange(0, 8)[0] == h[0]);
    }
    lemma_find_first(h, dk, 1);
    let r1 = h.skip(9);
    assert(r1.subrange(1, 2) =~= seq!['\'']);
    assert(!matches_at(r1, seq!['\''], 0)) by {
        assert(r1.subrange(0, 1)[0] == h[9]);
    }
    lemma_find_first(r1, seq!['\''], 1);
    let a1 = r1.skip(2);
    assert(a1.subrange(3, 4) =~= seq!['\'']);
    assert forall|k: int| 0 <= k < 3 implies !matches_at(a1, seq!['\''], k) by {
        assert(a1.subrange(k, k + 1)[0] == h[11 + k]);
    }
    lemma_find_first(a1, seq!['\''], 3);
    assert(a1.take(3) =~= "<f8"@);
    // 'fortran_order':
    let fk = "'fortran_order':"@;
    assert(h.subrange(17, 33) =~= fk);
    assert forall|k: int| 0 <= k < 17 implies !matches_at(h, fk, k) by {
        assert(h.subrange(k, k + 16)[0] == h[k]);
        assert(h.subrange(k, k + 16)[1] == h[k + 1]);
    }
    lemma_find_first(h, fk, 17);
    let fo = h.skip(33);
    assert(fo[0] == ' ');
    assert(fo.drop_first() =~= h.skip(34));
    assert(h.skip(34)[0] == 'F');
    assert(!is_ws(h.skip(34)[0]));
    assert(trim_start(h.skip(34)) == h.skip(34));
    assert(is_ws(fo[0]));
    assert(trim_start(fo) == h.skip(34));
    assert(!starts_with(h.skip(34), "True"@)) by {
        assert(h.skip(34).subrange(0, 4)[0] == 'F');
    }
    // 'shape':
    let sk = "'shape':"@;
    assert(h.subrange(41, 49) =~= sk);
    assert forall|k: int| 0 <= k < 41 implies !matches_at(h, sk, k) by {
        assert(h.subrange(k, k + 8)[0] == h[k]);
        assert(h.subrange(k, k + 8)[1] == h[k + 1]);
    }
    lemma_find_first(h, sk, 41);
    let after_sh = h.skip(49);
    assert(after_sh.subrange(1, 2) =~= seq!['(']);
    assert(!matches_at(after_sh, seq!['('], 0)) by {
        assert(after_sh.subrange(0, 1)[0] == h[49]);
    }
    lemma_find_first(after_sh, seq!['('], 1);
    let tail = after_sh.skip(1);
    assert forall|i: int| 0 <= i < st.len() implies #[trigger] tail[i] == st[i] by {
        assert(tail[i] == h[50 + i]);
        assert(rest[i] == st[i]);
    }
    let rp = st.len() - 1;
    assert(tail.subrange(rp, rp + 1) =~= seq![')']);
    assert forall|k: int| 0 <= k < rp implies !matches_at(tail, seq![')'], k) by {
        assert(tail.subrange(k, k + 1)[0] == tail[k]);
    }
    lemma_find_first(tail, seq![')'], rp);
    assert(after_sh.subrange(2, 1 + rp) =~= st.subrange(1, st.len() - 1));
}

/// Why a `.npy` byte stream could not be read.
#[derive(Debug, Clone, Copy, PartialEq, Eq)]
pub enum NpyError {
    /// The stream ends before the prefix, the header or the data does.
    Truncated,
    /// The stream does not start with `\x93NUMPY`.
    BadMagic,
    /// The header is not valid UTF-8.
    HeaderNotUtf8,
    /// The header lacks a key or a delimiter, has an element type other than
    /// `f64`, or an axis length that is not a `usize`.
    HeaderParse,
    /// The data is stored in Fortran (column-major) order.
    FortranOrder,
    /// The product of the non-zero axis lengths exceeds `isize::MAX`.
    ShapeMismatch,
}

/// The magic string `\x93NUMPY` that opens every `.npy` stream.
pub open spec fn npy_magic() -> Seq<u8> {
    seq![0x93u8, 0x4eu8, 0x55u8, 0x4du8, 0x50u8, 0x59u8]
}

/// The little-endian bytes of the elements, one after the other.
pub open spec fn data_bytes(e: Seq<u64>) -> Seq<u8>
    decreases e.len(),
{
    if e.len() == 0 {
        Seq::empty()
    } else {
        data_bytes(e.drop_last()) + spec_u64_to_le_bytes(e.last())
    }
}

/// The bytes of a format 1.0 `.npy` stream for an array of shape `shape` with
/// the row-major elements `elems` (as bit patterns): magic, version `1 0`,
/// the header length as a little-endian `u16` (taken modulo 65536), the
/// header, the data.
pub open spec fn npy_file_bytes(shape: Seq<usize>, elems: Seq<u64>) -> Seq<u8> {
    let h = encode_utf8(npy_header_chars(shape));
    npy_magic() + seq![1u8, 0u8] + spec_u16_to_le_bytes((h.len() % 65536) as u16) + h + data_bytes(
        elems,
    )
}

/// The elements read from `n` consecutive 8-byte little-endian words of `b`
/// starting at `d`.
pub open spec fn read_words(b: Seq<u8>, d: int, n: nat) -> Seq<u64> {
    Seq::new(n, |i: int| spec_u64_from_le_bytes(b.subrange(d + 8 * i, d + 8 * i + 8)))
}

/// What reading the `.npy` stream `b` gives: the shape and the row-major
/// element bit patterns, or the first failure met in stream order. Version
/// 2 and later carry a 4-byte header length, earlier versions a 2-byte one;
/// bytes after the data are ignored.
pub open spec fn spec_read_npy(b: Seq<u8>) -> Result<(Seq<usize>, Seq<u64>), NpyError> {
    if b.len() < 10 {
        Err(NpyError::Truncated)
    } else if b.subrange(0, 6) != npy_magic() {
        Err(NpyError::BadMagic)
    } else {
        let wide = b[6] >= 2;
        let hstart: int = if wide {
            12
        } else {
            10
        };
        if b.len() < hstart {
            Err(NpyError::Truncated)
        } else {
            let hlen: int = if wide {
                spec_u32_from_le_bytes(b.subrange(8, 12)) as int
            } else {
                spec_u16_from_le_bytes(b.subrange(8, 10)) as int
            };
            if b.len() < hstart + hlen {
                Err(NpyError::Truncated)
            } else {
                let hb = b.subrange(hstart, hstart + hlen);
                if !valid_utf8(hb) {
                    Err(NpyError::HeaderNotUtf8)
                } else {
                    match spec_parse_npy_header(decode_utf8(hb)) {
                        Err(_) => Err(NpyError::HeaderParse),
                        Ok((shape, fortran)) => {
                            if fortran {
                                Err(NpyError::FortranOrder)
                            } else if !shape_fits(shape) {
                                Err(NpyError::ShapeMismatch)
                            } else {
                                let n = shape_size(shape);
                                let d = hstart + hlen;
                                if b.len() < d + 8 * n {
                                    Err(NpyError::Truncated)
                                } else {
                                    Ok((shape, read_words(b, d, n)))
                                }
                            }
                        },
                    }
                }
            }
        }
    }
}

/// `std::str::from_utf8`: the text of `b` when `b` is valid UTF-8.
#[verifier::external_body]
fn str_from_utf8(b: &[u8]) -> (r: Option<&str>)
    ensures
        r is Some <==> valid_utf8(b@),
        r matches Some(s) ==> s.spec_bytes() == b@,
{
    std::str::from_utf8(b).ok()
}

/// Appends all of `b`.
fn push_all(out: &mut Vec<u8>, b: &[u8])
    ensures
        final(out)@ == old(out)@ + b@,
{
    let ghost start = out@;
    let mut i: usize = 0;
    while i < b.len()
        invariant
            i <= b@.len(),
            out@ == start + b@.take(i as int),
        decreases b@.len() - i,
    {
        out.push(b[i]);
        i = i + 1;
        assert(b@.take(i as int) =~= b@.take(i - 1).push(b@[i - 1]));
    }
    assert(b@.take(b@.len() as int) =~= b@);
}

/// Appends a format 1.0 `.npy` stream for an array of shape `shape` whose
/// row-major elements have the bit patterns `data`.
pub fn write_npy_parts(out: &mut Vec<u8>, shape: &[usize], data: &[u64])
    ensures
        final(out)@ == old(out)@ + npy_file_bytes(shape@, data@),
{
    let ghost start = out@;
    let header = build_npy_header(shape);
    out.push(0x93u8);
    push_str(out, "NUMPY");
    proof {
        reveal_strlit("NUMPY");
        is_ascii_chars_encode_utf8("NUMPY"@);
        assert(encode_utf8("NUMPY"@) =~= seq![0x4eu8, 0x55u8, 0x4du8, 0x50u8, 0x59u8]);
    }
    out.push(1u8);
    out.push(0u8);
    let hlen: u16 = (header.len() % 65536) as u16;
    let hl = u16_to_le_bytes(hlen);
    push_all(out, hl.as_slice());
    push_all(out, header.as_slice());
    let ghost before_data = out@;
    assert(before_data =~= start + npy_magic() + seq![1u8, 0u8] + spec_u16_to_le_bytes(hlen)
        + encode_utf8(npy_header_chars(shape@)));
    let mut i: usize = 0;
    while i < data.len()
        invariant
            i <= data@.len(),
            out@ == before_data + data_bytes(data@.take(i as int)),
        decreases data@.len() - i,
    {
        let w = u64_to_le_bytes(data[i]);
        push_all(out, w.as_slice());
        proof {
            assert(data@.take(i + 1).drop_last() =~= data@.take(i as int));
            assert(data@.take(i + 1).last() == data@[i as int]);
        }
        i = i + 1;
    }
    assert(data@.take(data@.len() as int) =~= data@);
}

/// Reads the shape and the row-major element bit patterns of the `.npy`
/// stream `b` (format 1.0, 2.0 or 3.0, little-endian `f64`, C order).
pub fn read_npy_parts(b: &[u8]) -> (r: Result<(Vec<usize>, Vec<u64>), NpyError>)
    ensures
        match spec_read_npy(b@) {
            Ok((shape, elems)) => r matches Ok((s, e)) && s@ == shape && e@ == elems,
            Err(err) => r == Err::<(Vec<usize>, Vec<u64>), NpyError>(err),
        },
{
    let len = b.len();
    if len < 10 {
        return Err(NpyError::Truncated);
    }
    let magic_ok = b[0] == 0x93u8 && b[1] == 0x4eu8 && b[2] == 0x55u8 && b[3] == 0x4du8 && b[4]
        == 0x50u8 && b[5] == 0x59u8;
    if !magic_ok {
        assert(b@.subrange(0, 6) != npy_magic()) by {
            if b@.subrange(0, 6) == npy_magic() {
                assert(b@[0] == b@.subrange(0, 6)[0]);
                assert(b@[1] == b@.subrange(0, 6)[1]);
                assert(b@[2] == b@.subrange(0, 6)[2]);
                assert(b@[3] == b@.subrange(0, 6)[3]);
                assert(b@[4] == b@.subrange(0, 6)[4]);
                assert(b@[5] == b@.subrange(0, 6)[5]);
            }
        }
        return Err(NpyError::BadMagic);
    }
    assert(b@.subrange(0, 6) =~= npy_magic());
    let wide = b[6] >= 2;
    let hstart: usize = if wide {
        12
    } else {
        10
    };
    if len < hstart {
        return Err(NpyError::Truncated);
    }
    let hlen: usize = if wide {
        u32_from_le_bytes(slice_subrange(b, 8, 12)) as usize
    } else {
        u16_from_le_bytes(slice_subrange(b, 8, 10)) as usize
    };
    if len - hstart < hlen {
        return Err(NpyError::Truncated);
    }
    let hend = hstart + hlen;
    let hb = slice_subrange(b, hstart, hend);
    let text = match str_from_utf8(hb) {
        Some(t) => t,
        None => return Err(NpyError::HeaderNotUtf8),
    };
    proof {
        encode_utf8_decode_utf8(text@);
    }
    assert(text@ == decode_utf8(hb@));
    let (shape, fortran) = match parse_npy_header(text) {
        Ok(p) => p,
        Err(_) => return Err(NpyError::HeaderParse),
    };
    if fortran {
        return Err(NpyError::FortranOrder);
    }
    let n = match size_of_shape_checked(shape.as_slice()) {
        Some(n) => n,
        None => return Err(NpyError::ShapeMismatch),
    };
    if (len - hend) / 8 < n {
        assert(len < hend + 8 * n) by (nonlinear_arith)
            requires
                (len - hend) / 8 < n,
                hend <= len,
        ;
        return Err(NpyError::Truncated);
    }
    assert(hend + 8 * n <= len) by (nonlinear_arith)
        requires
            (len - hend) / 8 >= n,
            hend <= len,
    ;
    let mut data: Vec<u64> = Vec::new();
    let mut i: usize = 0;
    while i < n
        invariant
            i <= n,
            hend + 8 * n <= len,
            len == b@.len(),
            data@ =~= read_words(b@, hend as int, i as nat),
        decreases n - i,
    {
        let at = hend + 8 * i;
        let w = u64_from_le_bytes(slice_subrange(b, at, at + 8));
        data.push(w);
        i = i + 1;
    }
    Ok((shape, data))
}

/// The data section of `e` has 8 bytes per element, the `i`-th 8-byte word
/// being the little-endian encoding of `e[i]`.
pub proof fn lemma_data_bytes(e: Seq<u64>)
    ensures
        data_bytes(e).len() == 8 * e.len(),
        forall|i: int|
            0 <= i < e.len() ==> #[trigger] data_bytes(e).subrange(8 * i, 8 * i + 8)
                == spec_u64_to_le_bytes(e[i]),
    decreases e.len(),
{
    lemma_auto_spec_u64_to_from_le_bytes();
    if e.len() > 0 {
        let e0 = e.drop_last();
        lemma_data_bytes(e0);
        let d0 = data_bytes(e0);
        let w = spec_u64_to_le_bytes(e.last());
        assert(w.len() == 8);
        assert forall|i: int| 0 <= i < e.len() implies #[trigger] data_bytes(e).subrange(
            8 * i,
            8 * i + 8,
        ) == spec_u64_to_le_bytes(e[i]) by {
            if i < e0.len() {
                assert(data_bytes(e).subrange(8 * i, 8 * i + 8) =~= d0.subrange(8 * i, 8 * i + 8));
                assert(e0[i] == e[i]);
            } else {
                assert(data_bytes(e).subrange(8 * i, 8 * i + 8) =~= w);
            }
        }
    }
}

/// Reading what this library writes gives back the shape and the elements:
/// for an array whose shape fits and whose header is shorter than 65536
/// bytes, the stream decodes to exactly its shape and element bit patterns.
pub proof fn lemma_npy_round_trip(shape: Seq<usize>, elems: Seq<u64>)
    requires
        shape_fits(shape),
        elems.len() == shape_size(shape),
        encode_utf8(npy_header_chars(shape)).len() < 65536,
    ensures
        spec_read_npy(npy_file_bytes(shape, elems)) == Ok::<(Seq<usize>, Seq<u64>), NpyError>(
            (shape, elems),
        ),
{
    lemma_auto_spec_u16_to_from_le_bytes();
    lemma_auto_spec_u64_to_from_le_bytes();
    let chars = npy_header_chars(shape);
    let h = encode_utf8(chars);
    let hl = spec_u16_to_le_bytes((h.len() % 65536) as u16);
    let d = data_bytes(elems);
    let b = npy_file_bytes(shape, elems);
    let pre = npy_magic() + seq![1u8, 0u8] + hl;
    assert(hl.len() == 2);
    assert(b =~= pre + h + d);
    assert(pre.len() == 10);
    assert(b.subrange(0, 6) =~= npy_magic());
    assert(b[6] == 1u8);
    assert(b.subrange(8, 10) =~= hl);
    assert((h.len() % 65536) as u16 == h.len());
    assert(spec_u16_from_le_bytes(b.subrange(8, 10)) == h.len());
    assert(b.subrange(10, 10 + h.len() as int) =~= h);
    encode_utf8_valid_utf8(chars);
    encode_utf8_decode_utf8(chars);
    lemma_header_round_trip(shape);
    lemma_data_bytes(elems);
    let start: int = 10 + h.len() as int;
    let n = shape_size(shape);
    assert(b.len() == start + 8 * n);
    assert forall|i: int| 0 <= i < n implies #[trigger] read_words(b, start, n)[i] == elems[i] by {
        assert(b.subrange(start + 8 * i, start + 8 * i + 8) =~= d.subrange(8 * i, 8 * i + 8));
    }
    assert(read_words(b, start, n) =~= elems);
}

/// Appends the format 1.0 `.npy` stream of `a`: its shape, then its
/// elements in row-major order as little-endian `f64`.
pub fn write_npy_to(out: &mut Vec<u8>, a: &NDArrayF64)
    ensures
        final(out)@ == old(out)@ + npy_file_bytes(array_shape(*a), array_elems(*a)),
{
    let shape = a.shape();
    let data = a.to_vec();
    write_npy_parts(out, shape.as_slice(), data.as_slice());
}

/// Reads an array from the `.npy` stream `b`, or says why it cannot.
pub fn read_npy_from(b: &[u8]) -> (r: Result<NDArrayF64, NpyError>)
    ensures
        match spec_read_npy(b@) {
            Ok((shape, elems)) => r matches Ok(a) && array_shape(a) == shape && array_elems(a)
                == elems,
            Err(err) => r matches Err(e) && e == err,
        },
{
    match read_npy_parts(b) {
        Ok((shape, data)) => Ok(nd_from_parts(&shape, data)),
        Err(e) => Err(e),
    }
}

/// An array written by [`write_npy_to`] reads back by [`read_npy_from`] with
/// its shape and its elements, whenever its header is shorter than 65536
/// bytes (the format 1.0 header length is a 16-bit field).
pub proof fn law_npy_array_round_trip(a: NDArrayF64)
    requires
        well_formed(a),
        encode_utf8(npy_header_chars(array_shape(a))).len() < 65536,
    ensures
        spec_read_npy(npy_file_bytes(array_shape(a), array_elems(a))) == Ok::<
            (Seq<usize>, Seq<u64>),
            NpyError,
        >((array_shape(a), array_elems(a))),
{
    lemma_npy_round_trip(array_shape(a), array_elems(a));
}

} // verus!
