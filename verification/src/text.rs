//! Cutting cell text to a preview length at a character boundary.
use vstd::prelude::*;
use vstd::string::StringSliceAdditionalSpecFns;
use vstd::utf8::{encode_utf8, is_char_boundary};

verus! {

broadcast use vstd::utf8::group_utf8_lib;

/// Whether `part` is a contiguous stretch of `whole`.
pub open spec fn is_part_of(part: Seq<char>, whole: Seq<char>) -> bool {
    exists|i: int, j: int| 0 <= i <= j <= whole.len() && part == #[trigger] whole.subrange(i, j)
}

/// The text of a path after its last `/` (all of it when there is none).
pub open spec fn last_component(path: Seq<char>) -> Seq<char>
    decreases path.len(),
{
    if path.len() == 0 || path.last() == '/' {
        Seq::empty()
    } else {
        last_component(path.drop_last()).push(path.last())
    }
}

/// A path whose file name reads the same on every platform: it holds no
/// `\` and no `:` (so no Windows prefix and `/` as the only separator), and
/// its text after the last `/` is a name (not empty, `.` or `..`).
pub open spec fn plain_path(path: Seq<char>) -> bool {
    let name = last_component(path);
    &&& !path.contains('\\')
    &&& !path.contains(':')
    &&& name.len() > 0
    &&& name != seq!['.']
    &&& name != seq!['.', '.']
}

/// The position of the last `.` in `name`, or -1 when there is none.
pub open spec fn last_dot(name: Seq<char>) -> int
    decreases name.len(),
{
    if name.len() == 0 {
        -1
    } else if name.last() == '.' {
        name.len() - 1
    } else {
        last_dot(name.drop_last())
    }
}

/// The stem of a file name, as `Path::file_stem` documents it: the whole
/// name when it has no `.` or its only `.` leads it, else the part before
/// the last `.`.
pub open spec fn stem_of(name: Seq<char>) -> Seq<char> {
    if last_dot(name) <= 0 {
        name
    } else {
        name.take(last_dot(name))
    }
}


/// `str::len`: the length of a string slice in bytes, which never exceeds
/// `isize::MAX` (the most any allocation holds).
#[verifier::external_body]
pub(crate) fn byte_len(s: &str) -> (r: usize)
    ensures
        r == s.spec_bytes().len(),
        r <= isize::MAX,
{
    s.len()
}

/// The largest character boundary of `bytes` at or below `max`.
pub open spec fn boundary_at_or_below(bytes: Seq<u8>, max: int) -> int
    decreases max,
{
    if max <= 0 || is_char_boundary(bytes, max) {
        if max <= 0 { 0 } else { max }
    } else {
        boundary_at_or_below(bytes, max - 1)
    }
}

/// The byte length of a text cut to at most `max_len` bytes without
/// splitting a character.
pub open spec fn spec_truncate_len(bytes: Seq<u8>, max_len: int) -> int {
    if bytes.len() > max_len {
        boundary_at_or_below(bytes, max_len)
    } else {
        bytes.len() as int
    }
}

/// A text cut to at most `max_len` bytes, ending on a character boundary.
pub fn truncate_cell(text: &str, max_len: usize) -> (r: String)
    ensures
        encode_utf8(r@) == text.spec_bytes().take(spec_truncate_len(text.spec_bytes(), max_len as int)),
{
    let ghost b = text.spec_bytes();
    proof {
        vstd::utf8::encode_utf8_valid_utf8(text@);
    }
    if byte_len(text) > max_len {
        let mut end = max_len;
        while !text.is_char_boundary(end)
            invariant
                end <= max_len,
                max_len < b.len(),
                b == text.spec_bytes(),
                vstd::utf8::valid_utf8(b),
                boundary_at_or_below(b, end as int) == boundary_at_or_below(b, max_len as int),
            decreases end,
        {
            end -= 1;
        }
        let (head, _) = text.split_at(end);
        let r = head.to_owned();
        assert(b.subrange(0, end as int) =~= b.take(end as int));
        r
    } else {
        assert(b.take(b.len() as int) =~= b);
        text.to_owned()
    }
}

} // verus!
