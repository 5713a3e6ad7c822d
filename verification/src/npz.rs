//! Names in an `.npz` archive: each array is stored as the entry
//! `<name>.npy`, and the names shown to callers have that suffix removed.
use vstd::prelude::*;
use vstd::string::{StrSliceExecFns, StringExecFns};

verus! {

/// The suffix `.npy` of every entry name.
pub open spec fn npy_suffix() -> Seq<char> {
    seq!['.', 'n', 'p', 'y']
}

/// `s` ends with `.npy`.
pub open spec fn ends_with_npy(s: Seq<char>) -> bool {
    s.len() >= 4 && s.subrange(s.len() - 4, s.len() as int) == npy_suffix()
}

/// The name shown for the entry `s`: `s` without a final `.npy`.
pub open spec fn spec_display_name(s: Seq<char>) -> Seq<char> {
    if ends_with_npy(s) {
        s.subrange(0, s.len() - 4)
    } else {
        s
    }
}

/// The archive entry that stores the array called `name`: `name` followed by
/// `.npy`.
pub fn npz_entry_name(name: &str) -> (r: String)
    ensures
        r@ == name@ + npy_suffix(),
{
    proof {
        reveal_strlit(".npy");
        assert(".npy"@ =~= npy_suffix());
    }
    String::from_str(name).concat(".npy")
}

/// The name shown for the archive entry `entry`: the entry name without a
/// final `.npy`, or the whole entry name when it has no such ending.
pub fn npz_display_name(entry: &str) -> (r: String)
    ensures
        r@ == spec_display_name(entry@),
{
    let n = entry.unicode_len();
    if n >= 4 && entry.get_char(n - 4) == '.' && entry.get_char(n - 3) == 'n' && entry.get_char(n - 2)
        == 'p' && entry.get_char(n - 1) == 'y' {
        assert(entry@.subrange(n - 4, n as int) =~= npy_suffix());
        String::from_str(entry.substring_char(0, n - 4))
    } else {
        proof {
            if ends_with_npy(entry@) {
                assert(entry@.subrange(n - 4, n as int)[0] == entry@[n - 4]);
                assert(entry@.subrange(n - 4, n as int)[1] == entry@[n - 3]);
                assert(entry@.subrange(n - 4, n as int)[2] == entry@[n - 2]);
                assert(entry@.subrange(n - 4, n as int)[3] == entry@[n - 1]);
            }
        }
        String::from_str(entry)
    }
}

/// The names shown for the entries of an archive, in archive order.
pub fn npz_display_names(entries: &Vec<String>) -> (r: Vec<String>)
    ensures
        r@.len() == entries@.len(),
        forall|i: int| 0 <= i < entries@.len() ==> #[trigger] r@[i]@ == spec_display_name(
            entries@[i]@,
        ),
{
    let mut r: Vec<String> = Vec::new();
    let mut i: usize = 0;
    while i < entries.len()
        invariant
            i <= entries@.len(),
            r@.len() == i,
            forall|k: int| 0 <= k < i ==> #[trigger] r@[k]@ == spec_display_name(entries@[k]@),
        decreases entries@.len() - i,
    {
        let d = npz_display_name(entries[i].as_str());
        r.push(d);
        i = i + 1;
    }
    r
}

/// The `i`-th of the names; `None` when `i` is negative or past the end.
pub fn npz_name_at(names: &Vec<String>, i: i64) -> (r: Option<String>)
    ensures
        r is Some <==> 0 <= i < names@.len(),
        r matches Some(s) ==> s@ == names@[i as int]@,
{
    if i < 0 {
        return None;
    }
    if i as u64 >= names.len() as u64 {
        return None;
    }
    let k = i as usize;
    Some(names[k].clone())
}

/// The name under which an array is stored in an archive is shown back as
/// the name it was stored under.
pub proof fn law_npz_name_round_trip(name: Seq<char>)
    ensures
        spec_display_name(name + npy_suffix()) == name,
{
    let s = name + npy_suffix();
    assert(s.subrange(s.len() - 4, s.len() as int) =~= npy_suffix());
    assert(s.subrange(0, s.len() - 4) =~= name);
}

} // verus!
