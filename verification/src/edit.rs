//! What an edited file reads back as: the record index of a file after one
//! record was replaced, and the records it then holds.
use vstd::prelude::*;
use vstd::utf8::{
    encode_scalar, encode_utf8, has_width_1_encoding, has_width_2_encoding, has_width_3_encoding,
    has_width_4_encoding, leading_byte_width_1, leading_byte_width_2, leading_byte_width_3,
    leading_byte_width_4, last_continuation_byte, second_last_continuation_byte,
    third_last_continuation_byte,
};
use crate::csv_line::{escape_quotes, join_row, needs_quotes, parse_line, quote_value, lemma_parse_formatted_row_with_breaks};
use crate::index::{
    is_unit, offset_if_inside, scan_bytes, scan_units, unit_start, lemma_scan_bytes_inside, lemma_scan_units_inside,
    spec_build_index, law_index_ascending,
};
use crate::engine::{edited_cells, row_end, row_text_of, CsvEngine};
use crate::encoding::{
    char_utf16, lemma_char_units, lemma_encode_utf16_injective, spec_decode_row, spec_encode_text, spec_encode_utf16, spec_line_ending_len, unit_bytes, units_of, utf8_label,
    utf16le_label, utf16be_label,
};

verus! {

/// Each offset of `s` moved by `delta`.
pub open spec fn shifted(s: Seq<u64>, delta: int) -> Seq<u64> {
    Seq::new(s.len(), |i: int| (s[i] + delta) as u64)
}

proof fn lemma_shifted_concat(a: Seq<u64>, b: Seq<u64>, delta: int)
    ensures
        shifted(a + b, delta) == shifted(a, delta) + shifted(b, delta),
{
    assert(shifted(a + b, delta) =~= shifted(a, delta) + shifted(b, delta));
}

proof fn lemma_shift_offset(l1: int, p1: int, l2: int, p2: int, k: int)
    requires
        l1 - p1 == l2 - p2,
        0 <= p1,
        0 <= p2,
        l1 <= u64::MAX,
        l2 <= u64::MAX,
        k >= 0,
    ensures
        shifted(offset_if_inside(l1, p1 + k), p2 - p1) == offset_if_inside(l2, p2 + k),
{
    assert(shifted(offset_if_inside(l1, p1 + k), p2 - p1) =~= offset_if_inside(l2, p2 + k));
}

/// A scan sees only the bytes from where it starts: two files that end in
/// the same bytes give the same record starts there, moved by the difference.
pub proof fn lemma_scan_shift(d1: Seq<u8>, p1: int, d2: Seq<u8>, p2: int, q: bool)
    requires
        0 <= p1 <= d1.len(),
        0 <= p2 <= d2.len(),
        d1.len() - p1 == d2.len() - p2,
        d1.len() <= u64::MAX,
        d2.len() <= u64::MAX,
        forall|i: int| p1 <= i < d1.len() ==> #[trigger] d1[i] == d2[i + (p2 - p1)],
    ensures
        scan_bytes(d2, p2, q) == shifted(scan_bytes(d1, p1, q), p2 - p1),
    decreases d1.len() - p1,
{
    let delta = p2 - p1;
    let l1 = d1.len() as int;
    let l2 = d2.len() as int;
    if p1 >= l1 {
        assert(shifted(scan_bytes(d1, p1, q), delta) =~= Seq::<u64>::empty());
    } else {
        assert(d1[p1] == d2[p1 + delta]);
        let ch = d1[p1];
        if p1 + 1 < l1 {
            assert(d1[p1 + 1] == d2[p1 + 1 + delta]);
        }
        lemma_shift_offset(l1, p1, l2, p2, 1);
        lemma_shift_offset(l1, p1, l2, p2, 2);
        if ch == 0x22 {
            if q && p1 + 1 < l1 && d1[p1 + 1] == 0x22 {
                lemma_scan_shift(d1, p1 + 2, d2, p2 + 2, q);
            } else {
                lemma_scan_shift(d1, p1 + 1, d2, p2 + 1, !q);
            }
        } else if ch == 0x0A && !q {
            lemma_scan_shift(d1, p1 + 1, d2, p2 + 1, q);
            lemma_shifted_concat(offset_if_inside(l1, p1 + 1), scan_bytes(d1, p1 + 1, q), delta);
        } else if ch == 0x0D && !q {
            if p1 + 1 < l1 && d1[p1 + 1] == 0x0A {
                lemma_scan_shift(d1, p1 + 2, d2, p2 + 2, q);
                lemma_shifted_concat(offset_if_inside(l1, p1 + 2), scan_bytes(d1, p1 + 2, q), delta);
            } else {
                lemma_scan_shift(d1, p1 + 1, d2, p2 + 1, q);
                lemma_shifted_concat(offset_if_inside(l1, p1 + 1), scan_bytes(d1, p1 + 1, q), delta);
            }
        } else {
            lemma_scan_shift(d1, p1 + 1, d2, p2 + 1, q);
        }
    }
}

/// A scan that reaches the record start `m` in one file reaches it in the
/// same way in any file with the same bytes before `m` (unless a carriage
/// return just before `m` would there be followed by a line feed), and the
/// starts before `m` are the same.
#[verifier::spinoff_prover]
#[verifier::rlimit(60)]
pub proof fn lemma_scan_prefix(d1: Seq<u8>, d2: Seq<u8>, p: int, q: bool, m: int) -> (a: Seq<u64>)
    requires
        0 <= p <= m,
        m < d1.len(),
        m < d2.len(),
        d1.len() <= u64::MAX,
        d2.len() <= u64::MAX,
        forall|i: int| 0 <= i < m ==> #[trigger] d1[i] == d2[i],
        scan_bytes(d1, p, q).contains(m as u64),
        m >= 1 && d1[m - 1] == 0x0D ==> d2[m] != 0x0A,
    ensures
        scan_bytes(d1, p, q) == a + seq![m as u64] + scan_bytes(d1, m, false),
        scan_bytes(d2, p, q) == a + seq![m as u64] + scan_bytes(d2, m, false),
    decreases m - p,
{
    let l1 = d1.len() as int;
    let l2 = d2.len() as int;
    let s1 = scan_bytes(d1, p, q);
    let k = choose|k: int| 0 <= k < s1.len() && s1[k] == m as u64;
    // a scan from `x` only finds starts after `x`
    assert forall|x: int, qq: bool| #![trigger scan_bytes(d1, x, qq)] x >= m implies !scan_bytes(d1, x, qq).contains(m as u64) by {
        lemma_scan_bytes_inside(d1, x, qq);
        if scan_bytes(d1, x, qq).contains(m as u64) {
            let j = choose|j: int| 0 <= j < scan_bytes(d1, x, qq).len() && scan_bytes(d1, x, qq)[j] == m as u64;
            assert(scan_bytes(d1, x, qq)[j] > x);
        }
    }
    assert(p < l1);
    let ch = d1[p];
    assert(ch == d2[p]) by { assert(p < m); }
    if ch == 0x22 {
        if q && p + 1 < l1 && d1[p + 1] == 0x22 {
            assert(s1 == scan_bytes(d1, p + 2, q));
            assert(p + 1 < m);
            assert(d2[p + 1] == d1[p + 1]);
            lemma_scan_prefix(d1, d2, p + 2, q, m)
        } else {
            assert(s1 == scan_bytes(d1, p + 1, !q));
            assert(p + 1 < m);
            assert(d2[p + 1] == d1[p + 1]);
            lemma_scan_prefix(d1, d2, p + 1, !q, m)
        }
    } else if ch == 0x0A && !q {
        let head = offset_if_inside(l1, p + 1);
        assert(head == offset_if_inside(l2, p + 1));
        if p + 1 == m {
            assert(head =~= seq![m as u64]);
            assert(seq![m as u64] =~= Seq::<u64>::empty() + seq![m as u64]);
            Seq::<u64>::empty()
        } else {
            assert(head =~= seq![(p + 1) as u64]);
            let tail = scan_bytes(d1, p + 1, q);
            assert(s1 == head + tail);
            assert(tail.contains(m as u64)) by {
                assert(k >= 1);
                assert(tail[k - 1] == m as u64);
            }
            let rest = lemma_scan_prefix(d1, d2, p + 1, q, m);
            assert(head + (rest + seq![m as u64] + scan_bytes(d1, m, false)) =~= (head + rest) + seq![m as u64] + scan_bytes(d1, m, false));
            assert(head + (rest + seq![m as u64] + scan_bytes(d2, m, false)) =~= (head + rest) + seq![m as u64] + scan_bytes(d2, m, false));
            head + rest
        }
    } else if ch == 0x0D && !q {
        if p + 1 < l1 && d1[p + 1] == 0x0A {
            assert(p + 1 < m) by {
                if p + 1 == m {
                    assert(s1 == offset_if_inside(l1, p + 2) + scan_bytes(d1, p + 2, q));
                    assert(offset_if_inside(l1, p + 2).len() <= 1);
                    if k == 0 && offset_if_inside(l1, p + 2).len() == 1 {
                        assert(offset_if_inside(l1, p + 2)[0] == (p + 2) as u64);
                    } else {
                        let t = scan_bytes(d1, p + 2, q);
                        assert(t[k - offset_if_inside(l1, p + 2).len()] == m as u64);
                        assert(t.contains(m as u64));
                    }
                }
            }
            assert(d2[p + 1] == d1[p + 1]);
            let head = offset_if_inside(l1, p + 2);
            assert(head == offset_if_inside(l2, p + 2));
            if p + 2 == m {
                assert(head =~= seq![m as u64]);
                assert(seq![m as u64] =~= Seq::<u64>::empty() + seq![m as u64]);
                Seq::<u64>::empty()
            } else {
                assert(p + 2 < m) by {
                    if p + 2 > m {
                        assert(s1 == head + scan_bytes(d1, p + 2, q));
                        if p + 2 < l1 {
                            assert(head =~= seq![(p + 2) as u64]);
                        }
                        if k < head.len() {
                            assert(head[k] == (p + 2) as u64);
                        } else {
                            let t = scan_bytes(d1, p + 2, q);
                            assert(t[k - head.len()] == m as u64);
                            assert(t.contains(m as u64));
                        }
                    }
                }
                assert(head =~= seq![(p + 2) as u64]);
                let tail = scan_bytes(d1, p + 2, q);
                assert(s1 == head + tail);
                assert(tail.contains(m as u64)) by {
                    assert(k >= 1);
                    assert(tail[k - 1] == m as u64);
                }
                let rest = lemma_scan_prefix(d1, d2, p + 2, q, m);
                assert(head + (rest + seq![m as u64] + scan_bytes(d1, m, false)) =~= (head + rest) + seq![m as u64] + scan_bytes(d1, m, false));
                assert(head + (rest + seq![m as u64] + scan_bytes(d2, m, false)) =~= (head + rest) + seq![m as u64] + scan_bytes(d2, m, false));
                head + rest
            }
        } else {
            let head = offset_if_inside(l1, p + 1);
            assert(head == offset_if_inside(l2, p + 1));
            if p + 1 == m {
                assert(!(p + 1 < l2 && d2[p + 1] == 0x0A));
                assert(head =~= seq![m as u64]);
                assert(seq![m as u64] =~= Seq::<u64>::empty() + seq![m as u64]);
                Seq::<u64>::empty()
            } else {
                assert(d2[p + 1] == d1[p + 1]);
                assert(head =~= seq![(p + 1) as u64]);
                let tail = scan_bytes(d1, p + 1, q);
                assert(s1 == head + tail);
                assert(tail.contains(m as u64)) by {
                    assert(k >= 1);
                    assert(tail[k - 1] == m as u64);
                }
                let rest = lemma_scan_prefix(d1, d2, p + 1, q, m);
                assert(head + (rest + seq![m as u64] + scan_bytes(d1, m, false)) =~= (head + rest) + seq![m as u64] + scan_bytes(d1, m, false));
                assert(head + (rest + seq![m as u64] + scan_bytes(d2, m, false)) =~= (head + rest) + seq![m as u64] + scan_bytes(d2, m, false));
                head + rest
            }
        }
    } else {
        assert(s1 == scan_bytes(d1, p + 1, q));
        assert(p + 1 < m);
        lemma_scan_prefix(d1, d2, p + 1, q, m)
    }
}

/// Every record start a scan finds lies inside the file, right after a line
/// feed or a carriage return; after a carriage return, no line feed follows.
pub proof fn lemma_scan_found_after_break(d: Seq<u8>, p: int, q: bool, m: int)
    requires
        d.len() <= u64::MAX,
        scan_bytes(d, p, q).contains(m as u64),
        0 <= m <= u64::MAX,
    ensures
        1 <= m < d.len(),
        d[m - 1] == 0x0A || d[m - 1] == 0x0D,
        d[m - 1] == 0x0D ==> d[m] != 0x0A,
    decreases d.len() - p,
{
    let l = d.len() as int;
    let s = scan_bytes(d, p, q);
    let k = choose|k: int| 0 <= k < s.len() && s[k] == m as u64;
    lemma_scan_bytes_inside(d, p, q);
    assert(p < l && p >= 0);
    let ch = d[p];
    if ch == 0x22 {
        if q && p + 1 < l && d[p + 1] == 0x22 {
            lemma_scan_found_after_break(d, p + 2, q, m);
        } else {
            lemma_scan_found_after_break(d, p + 1, !q, m);
        }
    } else if ch == 0x0A && !q {
        let head = offset_if_inside(l, p + 1);
        if k < head.len() {
            assert(head[k] == (p + 1) as u64);
        } else {
            assert(scan_bytes(d, p + 1, q)[k - head.len()] == m as u64);
            lemma_scan_found_after_break(d, p + 1, q, m);
        }
    } else if ch == 0x0D && !q {
        if p + 1 < l && d[p + 1] == 0x0A {
            let head = offset_if_inside(l, p + 2);
            if k < head.len() {
                assert(head[k] == (p + 2) as u64);
            } else {
                assert(scan_bytes(d, p + 2, q)[k - head.len()] == m as u64);
                lemma_scan_found_after_break(d, p + 2, q, m);
            }
        } else {
            let head = offset_if_inside(l, p + 1);
            if k < head.len() {
                assert(head[k] == (p + 1) as u64);
            } else {
                assert(scan_bytes(d, p + 1, q)[k - head.len()] == m as u64);
                lemma_scan_found_after_break(d, p + 1, q, m);
            }
        }
    } else {
        lemma_scan_found_after_break(d, p + 1, q, m);
    }
}

/// Whether scanning the text `t` from the state `q` (inside quotes or not)
/// finds no line break outside quotes and ends in the state `q2`.
pub open spec fn passes(t: Seq<char>, q: bool, q2: bool) -> bool
    decreases t.len(),
{
    if t.len() == 0 {
        q == q2
    } else if t[0] == '"' {
        if q && t.len() > 1 && t[1] == '"' {
            passes(t.skip(2), q, q2)
        } else {
            passes(t.skip(1), !q, q2)
        }
    } else if (t[0] == '\n' || t[0] == '\r') && !q {
        false
    } else {
        passes(t.skip(1), q, q2)
    }
}

proof fn lemma_passes_plain(c: Seq<char>, b: Seq<char>, delimiter: char, q2: bool)
    requires
        !needs_quotes(c, delimiter),
    ensures
        passes(c + b, false, q2) == passes(b, false, q2),
    decreases c.len(),
{
    if c.len() == 0 {
        assert(c + b =~= b);
    } else {
        assert((c + b)[0] == c[0]);
        assert((c + b).skip(1) =~= c.skip(1) + b);
        assert(c[0] != '"' && c[0] != '\n' && c[0] != '\r') by {
            assert(c.contains(c[0]));
        }
        assert(!needs_quotes(c.skip(1), delimiter)) by {
            if c.skip(1).contains(delimiter) {
                let j = choose|j: int| 0 <= j < c.skip(1).len() && c.skip(1)[j] == delimiter;
                assert(c[j + 1] == delimiter);
            }
            if c.skip(1).contains('"') {
                let j = choose|j: int| 0 <= j < c.skip(1).len() && c.skip(1)[j] == '"';
                assert(c[j + 1] == '"');
            }
            if c.skip(1).contains('\n') {
                let j = choose|j: int| 0 <= j < c.skip(1).len() && c.skip(1)[j] == '\n';
                assert(c[j + 1] == '\n');
            }
            if c.skip(1).contains('\r') {
                let j = choose|j: int| 0 <= j < c.skip(1).len() && c.skip(1)[j] == '\r';
                assert(c[j + 1] == '\r');
            }
        }
        lemma_passes_plain(c.skip(1), b, delimiter, q2);
    }
}

proof fn lemma_passes_escaped(c: Seq<char>, b: Seq<char>, q2: bool)
    requires
        b.len() == 0 || b[0] != '"',
    ensures
        passes(escape_quotes(c) + seq!['"'] + b, true, q2) == passes(b, false, q2),
    decreases c.len(),
{
    let s = escape_quotes(c) + seq!['"'] + b;
    if c.len() == 0 {
        assert(s =~= seq!['"'] + b);
        assert(s.skip(1) =~= b);
    } else {
        let rest = c.skip(1);
        lemma_passes_escaped(rest, b, q2);
        if c[0] == '"' {
            assert(s =~= seq!['"', '"'] + (escape_quotes(rest) + seq!['"'] + b));
            assert(s.skip(2) =~= escape_quotes(rest) + seq!['"'] + b);
        } else {
            assert(s =~= seq![c[0]] + (escape_quotes(rest) + seq!['"'] + b));
            assert(s.skip(1) =~= escape_quotes(rest) + seq!['"'] + b);
        }
    }
}

proof fn lemma_passes_cell(c: Seq<char>, b: Seq<char>, delimiter: char, q2: bool)
    requires
        b.len() == 0 || b[0] != '"',
    ensures
        passes(quote_value(c, delimiter) + b, false, q2) == passes(b, false, q2),
{
    if needs_quotes(c, delimiter) {
        let s = seq!['"'] + escape_quotes(c) + seq!['"'] + b;
        assert(quote_value(c, delimiter) + b =~= s);
        assert(s.skip(1) =~= escape_quotes(c) + seq!['"'] + b);
        lemma_passes_escaped(c, b, q2);
    } else {
        lemma_passes_plain(c, b, delimiter, q2);
    }
}

/// A written record has no line break outside quotes and closes every quote.
pub proof fn lemma_passes_join(cells: Seq<Seq<char>>, delimiter: char)
    requires
        cells.len() >= 1,
        delimiter != '"' && delimiter != '\r' && delimiter != '\n',
    ensures
        passes(join_row(cells, delimiter), false, false),
    decreases cells.len(),
{
    if cells.len() == 1 {
        lemma_passes_cell(cells[0], Seq::empty(), delimiter, false);
        assert(quote_value(cells[0], delimiter) + Seq::<char>::empty() =~= quote_value(cells[0], delimiter));
    } else {
        let rest = join_row(cells.skip(1), delimiter);
        let b = seq![delimiter] + rest;
        assert(join_row(cells, delimiter) =~= quote_value(cells[0], delimiter) + b);
        lemma_passes_cell(cells[0], b, delimiter, false);
        assert(b.skip(1) =~= rest);
        lemma_passes_join(cells.skip(1), delimiter);
    }
}

/// The UTF-8 bytes of a character: the character itself when it is ASCII,
/// otherwise two to four bytes of `0x80` or more.
pub proof fn lemma_encode_scalar_bytes(c: char)
    ensures
        1 <= encode_scalar(c as u32).len() <= 4,
        (c as u32) < 0x80 ==> encode_scalar(c as u32) == seq![(c as u32) as u8],
        (c as u32) < 0x80 ==> ((c as u32) as u8) as u32 == c as u32,
        (c as u32) >= 0x80 ==> forall|i: int| 0 <= i < encode_scalar(c as u32).len() ==> #[trigger] encode_scalar(c as u32)[i] >= 0x80,
        (c as u32 == 0x22) <==> c == '"',
        (c as u32 == 0x0A) <==> c == '\n',
        (c as u32 == 0x0D) <==> c == '\r',
{
    let v = c as u32;
    vstd::utf8::char_is_scalar(c);
    vstd::utf8::char_u32_cast(c, v);
    assert('"' as u32 == 0x22 && '\n' as u32 == 0x0A && '\r' as u32 == 0x0D);
    if v == 0x22 {
        vstd::utf8::char_u32_cast('"', v);
    }
    if v == 0x0A {
        vstd::utf8::char_u32_cast('\n', v);
    }
    if v == 0x0D {
        vstd::utf8::char_u32_cast('\r', v);
    }
    if has_width_1_encoding(v) {
        assert(leading_byte_width_1(v) == v as u8 && (v as u8) as u32 == v) by (bit_vector)
            requires v <= 0x7F;
    } else if has_width_2_encoding(v) {
        assert(leading_byte_width_2(v) >= 0x80 && last_continuation_byte(v) >= 0x80) by (bit_vector);
    } else if has_width_3_encoding(v) {
        assert(leading_byte_width_3(v) >= 0x80 && second_last_continuation_byte(v) >= 0x80
            && last_continuation_byte(v) >= 0x80) by (bit_vector);
    } else {
        assert(has_width_4_encoding(v));
        assert(leading_byte_width_4(v) >= 0x80 && third_last_continuation_byte(v) >= 0x80
            && second_last_continuation_byte(v) >= 0x80 && last_continuation_byte(v) >= 0x80) by (bit_vector);
    }
}

/// Bytes of `0x80` or more are passed over by a scan.
proof fn lemma_scan_skips_high(d: Seq<u8>, a: int, k: int, q: bool)
    requires
        0 <= a,
        0 <= k,
        a + k <= d.len(),
        forall|i: int| a <= i < a + k ==> #[trigger] d[i] >= 0x80,
    ensures
        scan_bytes(d, a, q) == scan_bytes(d, a + k, q),
    decreases k,
{
    if k > 0 {
        assert(d[a] >= 0x80);
        lemma_scan_skips_high(d, a + 1, k - 1, q);
    }
}

/// Where the UTF-8 bytes of a text that [`passes`] lie in a file, a scan
/// crosses them without finding a record start and leaves them in the state
/// the text ends in (provided no quote follows them).
pub proof fn lemma_scan_crosses_text(d: Seq<u8>, a: int, t: Seq<char>, q: bool, q2: bool)
    requires
        passes(t, q, q2),
        0 <= a,
        a + encode_utf8(t).len() <= d.len(),
        d.len() <= u64::MAX,
        d.subrange(a, a + encode_utf8(t).len()) == encode_utf8(t),
        a + encode_utf8(t).len() == d.len() || d[a + encode_utf8(t).len()] != 0x22,
    ensures
        scan_bytes(d, a, q) == scan_bytes(d, a + encode_utf8(t).len(), q2),
    decreases t.len(),
{
    let e = encode_utf8(t);
    let n = e.len() as int;
    if t.len() > 0 {
        let c = t[0];
        let e0 = encode_scalar(c as u32);
        let r = t.drop_first();
        assert(e == e0 + encode_utf8(r));
        lemma_encode_scalar_bytes(c);
        let k = e0.len() as int;
        assert forall|i: int| 0 <= i < n implies #[trigger] d[a + i] == e[i] by {
            assert(d.subrange(a, a + n)[i] == d[a + i]);
        }
        // the bytes after the first character
        assert(d.subrange(a + k, a + k + encode_utf8(r).len()) =~= encode_utf8(r)) by {
            assert forall|i: int| 0 <= i < encode_utf8(r).len() implies
                d.subrange(a + k, a + k + encode_utf8(r).len())[i] == encode_utf8(r)[i] by {
                assert(d[a + (k + i)] == e[k + i]);
            }
        }
        assert(r =~= t.skip(1));
        if (c as u32) < 0x80 {
            assert(k == 1);
            assert(d[a] == e[0]);
            assert(d[a] == (c as u32) as u8);
            if c == '"' {
                assert(d[a] == 0x22);
                if q && t.len() > 1 && t[1] == '"' {
                    let r2 = t.skip(2);
                    lemma_encode_scalar_bytes(t[1]);
                    assert(encode_utf8(r) == encode_scalar(r[0] as u32) + encode_utf8(r.drop_first()));
                    assert(r.drop_first() =~= r2);
                    assert(r[0] == t[1]);
                    assert(d[a + 1] == e[1]);
                    assert(d[a + 1] == 0x22);
                    assert(d.subrange(a + 2, a + 2 + encode_utf8(r2).len()) =~= encode_utf8(r2)) by {
                        assert forall|i: int| 0 <= i < encode_utf8(r2).len() implies
                            d.subrange(a + 2, a + 2 + encode_utf8(r2).len())[i] == encode_utf8(r2)[i] by {
                            assert(d[a + (2 + i)] == e[2 + i]);
                        }
                    }
                    lemma_scan_crosses_text(d, a + 2, r2, q, q2);
                } else {
                    if q && a + 1 < d.len() {
                        if t.len() > 1 {
                            lemma_encode_scalar_bytes(t[1]);
                            assert(encode_utf8(r) == encode_scalar(r[0] as u32) + encode_utf8(r.drop_first()));
                            assert(r[0] == t[1]);
                            assert(d[a + 1] == e[1]);
                            assert(e[1] == encode_scalar(t[1] as u32)[0]);
                            assert(d[a + 1] != 0x22);
                        } else {
                            assert(n == 1);
                        }
                    }
                    lemma_scan_crosses_text(d, a + 1, r, !q, q2);
                }
            } else {
                assert(d[a] != 0x22);
                if !q {
                    assert(c != '\n' && c != '\r');
                    assert(d[a] != 0x0A && d[a] != 0x0D);
                }
                lemma_scan_crosses_text(d, a + 1, r, q, q2);
            }
        } else {
            assert forall|i: int| a <= i < a + k implies #[trigger] d[i] >= 0x80 by {
                assert(d[a + (i - a)] == e[i - a]);
                assert(e[i - a] == e0[i - a]);
            }
            lemma_scan_skips_high(d, a, k, q);
            assert(c != '"' && c != '\n' && c != '\r');
            lemma_scan_crosses_text(d, a + k, r, q, q2);
        }
    }
}

/// `d` with the bytes `start..end` replaced by `middle`.
pub open spec fn edited_bytes(d: Seq<u8>, start: int, end: int, middle: Seq<u8>) -> Seq<u8> {
    d.subrange(0, start) + middle + d.subrange(end, d.len() as int)
}

/// The line ending that record `row` of `d` ends with (see
/// [`spec_line_ending_len`]).
pub open spec fn record_ending(d: Seq<u8>, offsets: Seq<u64>, row: int, encoding: Seq<char>) -> Seq<u8> {
    let start = offsets[row] as int;
    let end = row_end(offsets, row, d.len() as int);
    d.subrange(end - spec_line_ending_len(d.subrange(start, end), encoding), end)
}

proof fn lemma_encode_utf8_concat(a: Seq<char>, b: Seq<char>)
    ensures
        encode_utf8(a + b) == encode_utf8(a) + encode_utf8(b),
    decreases a.len(),
{
    if a.len() == 0 {
        assert(a + b =~= b);
        assert(encode_utf8(a) + encode_utf8(b) =~= encode_utf8(b));
    } else {
        assert((a + b)[0] == a[0]);
        assert((a + b).drop_first() =~= a.drop_first() + b);
        lemma_encode_utf8_concat(a.drop_first(), b);
        assert(encode_utf8(a + b) =~= encode_utf8(a) + encode_utf8(b));
    }
}

/// The index of a UTF-8 file after record `row` was replaced by the UTF-8
/// bytes of a text that [`passes`] (such as a written record) followed by the
/// record's old line ending: as many records as before, the same starts up
/// to the edited record, and the later starts moved by the change in length.
#[verifier::spinoff_prover]
#[verifier::rlimit(60)]
pub proof fn lemma_edited_index(d: Seq<u8>, bom: u64, row: int, text: Seq<char>)
    requires
        d.len() <= usize::MAX / 8,
        1 <= row < spec_build_index(d, bom, utf8_label()).len(),
        passes(text, false, false),
        text.len() > 0,
        ({
            let old = spec_build_index(d, bom, utf8_label());
            let start = old[row] as int;
            let end = row_end(old, row, d.len() as int);
            edited_bytes(d, start, end, encode_utf8(text) + record_ending(d, old, row, utf8_label())).len() <= usize::MAX / 8
        }),
    ensures
        ({
            let old = spec_build_index(d, bom, utf8_label());
            let start = old[row] as int;
            let end = row_end(old, row, d.len() as int);
            let ending = record_ending(d, old, row, utf8_label());
            let d2 = edited_bytes(d, start, end, encode_utf8(text) + ending);
            let new = spec_build_index(d2, bom, utf8_label());
            let delta = d2.len() - d.len();
            &&& new.len() == old.len()
            &&& forall|k: int| 0 <= k <= row ==> new[k] == old[k]
            &&& forall|k: int| row < k < old.len() ==> new[k] == old[k] + delta
            &&& start < end <= d.len()
            &&& row_end(new, row, d2.len() as int) == start + encode_utf8(text).len() + ending.len()
            &&& forall|i: int| 0 <= i < ending.len() ==> #[trigger] ending[i] == 0x0A || ending[i] == 0x0D
            &&& ending.len() <= 2
            &&& (ending.len() == 2 ==> ending[0] == 0x0D && ending[1] == 0x0A)
        }),
{
    let len = d.len() as int;
    let old = spec_build_index(d, bom, utf8_label());
    let start = old[row] as int;
    let end = row_end(old, row, len);
    let rb = d.subrange(start, end);
    let n = spec_line_ending_len(rb, utf8_label());
    let ending = record_ending(d, old, row, utf8_label());
    let e = encode_utf8(text);
    let mid = e + ending;
    let d2 = edited_bytes(d, start, end, mid);
    let len2 = d2.len() as int;
    let delta = len2 - len;
    let c0 = start + e.len();
    let c1 = c0 + n;
    assert(utf8_label() != utf16le_label()) by { assert(utf8_label()[4 - 1] != utf16le_label()[3]); }
    assert(utf8_label() != utf16be_label()) by { assert(utf8_label()[3] != utf16be_label()[3]); }
    law_index_ascending(d, bom, utf8_label());
    assert(bom < len);
    let scan1 = scan_bytes(d, bom as int, false);
    assert(old == seq![bom] + scan1);
    lemma_scan_bytes_inside(d, bom as int, false);
    assert(start == scan1[row - 1]);
    assert(scan1.contains(start as u64));
    assert(start < len);
    if row + 1 < old.len() {
        assert(end == old[row + 1]);
        assert(end == scan1[row]);
        assert(old[row] < old[row + 1]);
    }
    assert(start < end <= len);
    // the replacement's first byte is no line feed
    assert(text[0] != '\n' && text[0] != '\r');
    lemma_encode_scalar_bytes(text[0]);
    assert(e == encode_scalar(text[0] as u32) + encode_utf8(text.drop_first()));
    assert(e.len() >= 1);
    assert(e[0] != 0x0A);
    // the line ending
    assert(rb.len() == end - start);
    assert(n == 0 || n == 1 || n == 2);
    assert(ending == d.subrange(end - n, end));
    if end < len {
        assert(scan1.contains(end as u64));
        lemma_scan_found_after_break(d, bom as int, false, end);
        assert(rb[rb.len() - 1] == d[end - 1]);
        assert(n >= 1);
    }
    if n == 2 {
        assert(rb.subrange(rb.len() - 2, rb.len() as int) == seq![0x0Du8, 0x0Au8]);
        assert(ending[0] == rb[rb.len() - 2]);
        assert(ending[1] == rb[rb.len() - 1]);
    }
    if n == 1 {
        assert(ending[0] == rb[rb.len() - 1]);
        assert(ending[0] == d[end - 1]);
    }
    assert(len2 == start + e.len() + n + (len - end));
    assert(d2.len() <= u64::MAX);
    // bytes of the edited file
    assert forall|i: int| 0 <= i < start implies #[trigger] d2[i] == d[i] by {}
    assert forall|i: int| end <= i < len implies #[trigger] d[i] == d2[i + (c1 - end)] by {
        assert(d2[i + (c1 - end)] == d.subrange(end, len)[i - end]);
    }
    assert(d2.subrange(start, c0) =~= e);
    assert forall|i: int| 0 <= i < n implies #[trigger] d2[c0 + i] == ending[i] by {}
    assert(d2[start] == e[0]);
    // the scan up to the edited record
    assert(bom < len2);
    assert(bom as int <= start);
    if start >= 1 && d[start - 1] == 0x0D {
        assert(d2[start] != 0x0A);
    }
    let a = lemma_scan_prefix(d, d2, bom as int, false, start);
    let scan2 = scan_bytes(d2, bom as int, false);
    let new = spec_build_index(d2, bom, utf8_label());
    assert(new == seq![bom] + scan2);
    assert(a.len() == row - 1) by {
        assert(scan1[a.len() as int] == start as u64);
        if a.len() != row - 1 {
            assert(a.len() < scan1.len());
        }
    }
    // across the replacement
    if n == 0 {
        assert(end == len);
        assert(c0 == len2);
    } else {
        assert(d2[c0] == ending[0]);
    }
    lemma_scan_crosses_text(d2, start, text, false, false);
    assert(scan_bytes(d2, start, false) == scan_bytes(d2, c0, false));
    // across the line ending
    let tail2 = scan_bytes(d2, c1, false);
    if n == 0 {
        assert(scan_bytes(d2, c0, false) =~= Seq::<u64>::empty());
    } else if n == 1 {
        if ending[0] == 0x0D {
            if c1 < len2 {
                assert(end < len);
                assert(d2[c1] == d[end]);
            }
        }
        assert(scan_bytes(d2, c0, false) == offset_if_inside(len2, c1) + tail2);
    } else {
        assert(d2[c0 + 1] == 0x0A);
        assert(scan_bytes(d2, c0, false) == offset_if_inside(len2, c1) + tail2);
    }
    lemma_scan_shift(d, end, d2, c1, false);
    assert(c1 - end == delta);
    let t1 = scan_bytes(d, end, false);
    assert(tail2 == shifted(t1, delta));
    lemma_scan_bytes_inside(d, end, false);
    // the old scan after the edited record's start
    assert(scan1 == a + seq![start as u64] + scan_bytes(d, start, false));
    assert(scan2 == a + seq![start as u64] + scan_bytes(d2, start, false));
    if end < len {
        let a2 = lemma_scan_prefix(d, d, bom as int, false, end);
        assert(a2.len() == row) by {
            assert(scan1[a2.len() as int] == end as u64);
            assert(scan1[row] == end as u64);
            if a2.len() != row {
                assert(a2.len() < scan1.len());
            }
        }
        assert(scan_bytes(d, start, false) =~= seq![end as u64] + t1) by {
            assert(scan1.skip(row) =~= scan_bytes(d, start, false));
            assert(scan1.skip(row) =~= seq![end as u64] + t1);
        }
        assert(c1 < len2);
        assert(offset_if_inside(len2, c1) =~= seq![c1 as u64]);
        assert(scan_bytes(d2, start, false) == seq![c1 as u64] + shifted(t1, delta));
        assert(new.len() == old.len());
        assert forall|k: int| 0 <= k <= row implies new[k] == old[k] by {
            if k >= 1 {
                assert(new[k] == scan2[k - 1]);
                assert(old[k] == scan1[k - 1]);
            }
        }
        assert forall|k: int| row < k < old.len() implies new[k] == old[k] + delta by {
            assert(new[k] == scan2[k - 1]);
            assert(old[k] == scan1[k - 1]);
            if k == row + 1 {
                assert(scan2[k - 1] == c1 as u64);
                assert(scan1[k - 1] == end as u64);
            } else {
                assert(scan2[k - 1] == shifted(t1, delta)[k - row - 2]);
                assert(scan1[k - 1] == t1[k - row - 2]);
                assert(t1[k - row - 2] < len);
            }
        }
        assert(row_end(new, row, len2) == new[row + 1]);
    } else {
        assert(row + 1 == old.len()) by {
            if row + 1 < old.len() {
                assert(old[row + 1] < len);
            }
        }
        assert(scan_bytes(d, start, false).len() == 0) by {
            assert(scan1.len() == row);
        }
        assert(t1 =~= Seq::<u64>::empty());
        assert(c1 == len2);
        assert(offset_if_inside(len2, c1) =~= Seq::<u64>::empty());
        assert(shifted(t1, delta) =~= Seq::<u64>::empty());
        assert(scan_bytes(d2, start, false) =~= Seq::<u64>::empty());
        assert(new.len() == old.len());
        assert forall|k: int| 0 <= k <= row implies new[k] == old[k] by {
            if k >= 1 {
                assert(new[k] == scan2[k - 1]);
                assert(old[k] == scan1[k - 1]);
            }
        }
    }
}

/// The bytes an edit writes for record `row`: the record holding `value` in
/// column `col`, written in the file's encoding (see [`spec_encode_text`]).
pub open spec fn edit_replacement(e: CsvEngine, row: int, col: int, value: Seq<char>) -> Seq<u8> {
    let text = join_row(edited_cells(e.spec_row_cells(row), col, value), e.spec_delimiter());
    match spec_encode_text(text, e.spec_encoding()) {
        Ok(bytes) => bytes,
        Err(_) => Seq::empty(),
    }
}

/// The file an edit writes: the file's bytes with record `row` replaced by
/// [`edit_replacement`] followed by the record's old line ending (what
/// [`CsvEngine::prepare_cell_update`] asks to be written).
pub open spec fn edited_file(e: CsvEngine, row: int, col: int, value: Seq<char>) -> Seq<u8> {
    let d = e.spec_bytes();
    let old = e.spec_offsets();
    edited_bytes(
        d,
        old[row] as int,
        row_end(old, row, d.len() as int),
        edit_replacement(e, row, col, value) + record_ending(d, old, row, e.spec_encoding()),
    )
}

/// The records other than `row` read alike in a file and in the file with
/// record `row` replaced, given how the index of the edited file relates to
/// the old one.
#[verifier::spinoff_prover]
#[verifier::rlimit(60)]
proof fn lemma_other_records_read_alike(d: Seq<u8>, bom: u64, enc: Seq<char>, row: int, mid: Seq<u8>)
    requires
        d.len() <= u64::MAX,
        1 <= row < spec_build_index(d, bom, enc).len(),
        ({
            let old = spec_build_index(d, bom, enc);
            let start = old[row] as int;
            let end = row_end(old, row, d.len() as int);
            let d2 = edited_bytes(d, start, end, mid);
            let new = spec_build_index(d2, bom, enc);
            &&& d2.len() <= u64::MAX
            &&& start < end <= d.len()
            &&& new.len() == old.len()
            &&& forall|k: int| 0 <= k <= row ==> new[k] == old[k]
            &&& forall|k: int| row < k < old.len() ==> new[k] == old[k] + (d2.len() - d.len())
        }),
    ensures
        ({
            let old = spec_build_index(d, bom, enc);
            let start = old[row] as int;
            let end = row_end(old, row, d.len() as int);
            let d2 = edited_bytes(d, start, end, mid);
            let new = spec_build_index(d2, bom, enc);
            forall|k: int| 0 <= k < old.len() && k != row
                ==> #[trigger] row_text_of(d2, new, k, d2.len() as int, enc) == row_text_of(d, old, k, d.len() as int, enc)
        }),
{
    let len = d.len() as int;
    let old = spec_build_index(d, bom, enc);
    let start = old[row] as int;
    let end = row_end(old, row, len);
    let d2 = edited_bytes(d, start, end, mid);
    let len2 = d2.len() as int;
    let delta = len2 - len;
    let new = spec_build_index(d2, bom, enc);
    law_index_ascending(d, bom, enc);
    assert(len2 == start + mid.len() + (len - end));
    assert forall|k: int| 0 <= k < old.len() && k != row
        implies #[trigger] row_text_of(d2, new, k, len2, enc) == row_text_of(d, old, k, len, enc) by {
        if k < row {
            assert(new[k] == old[k]);
            assert(new[k + 1] == old[k + 1]);
            assert(row_end(new, k, len2) == old[k + 1]);
            assert(row_end(old, k, len) == old[k + 1]);
            assert(old[k + 1] <= old[row]);
            let x = old[k] as int;
            let y = old[k + 1] as int;
            if x < y {
                assert(d2.subrange(x, y) =~= d.subrange(x, y));
            }
        } else {
            assert(new[k] == old[k] + delta);
            assert(row + 1 <= k);
            assert(old[row + 1] <= old[k]);
            assert(end == old[row + 1]);
            let x = old[k] as int;
            let y = row_end(old, k, len);
            if k + 1 < old.len() {
                assert(new[k + 1] == old[k + 1] + delta);
                assert(row_end(new, k, len2) == y + delta);
            } else {
                assert(row_end(new, k, len2) == y + delta);
            }
            assert(y <= len);
            if x < y {
                assert(d2.subrange(x + delta, y + delta) =~= d.subrange(x, y)) by {
                    assert forall|i: int| 0 <= i < y - x implies d2.subrange(x + delta, y + delta)[i] == d.subrange(x, y)[i] by {
                        assert(d2[x + delta + i] == d.subrange(end, len)[x + i - end]);
                    }
                }
            }
        }
    }
}

/// Reading a file back after a cell edit: the edited file has as many
/// records as before, each record other than the edited one reads as before,
/// and the edited record reads as the record's cells padded to the column
/// and holding the new value there. Record starts up to the edited record
/// stay, later ones move by the change in length. This holds for UTF-8 and
/// UTF-16 files whenever the written record is not empty.
pub proof fn law_edited_file_reads_back(e: CsvEngine, row: int, col: int, value: Seq<char>)
    requires
        e.wf(),
        e.spec_open(),
        e.spec_encoding() == utf8_label() || e.spec_encoding() == utf16le_label() || e.spec_encoding() == utf16be_label(),
        1 <= row < e.spec_offsets().len(),
        0 <= col,
        join_row(edited_cells(e.spec_row_cells(row), col, value), e.spec_delimiter()).len() > 0,
        edited_file(e, row, col, value).len() <= usize::MAX / 8,
    ensures
        ({
            let d2 = edited_file(e, row, col, value);
            let old = e.spec_offsets();
            let new = spec_build_index(d2, e.spec_bom(), e.spec_encoding());
            &&& new.len() == old.len()
            &&& forall|k: int| 0 <= k <= row ==> new[k] == old[k]
            &&& forall|k: int| row < k < old.len() ==> new[k] == old[k] + (d2.len() - e.spec_bytes().len())
            &&& forall|k: int| 0 <= k < old.len() && k != row
                ==> #[trigger] row_text_of(d2, new, k, d2.len() as int, e.spec_encoding()) == e.spec_row_text(k)
            &&& parse_line(row_text_of(d2, new, row, d2.len() as int, e.spec_encoding()), e.spec_delimiter())
                == edited_cells(e.spec_row_cells(row), col, value)
        }),
{
    e.lemma_open_file();
    let d = e.spec_bytes();
    let bom = e.spec_bom();
    let enc = e.spec_encoding();
    let delim = e.spec_delimiter();
    let old = e.spec_offsets();
    let cells = edited_cells(e.spec_row_cells(row), col, value);
    let text = join_row(cells, delim);
    assert(cells.len() >= 1);
    lemma_passes_join(cells, delim);
    let start = old[row] as int;
    let end = row_end(old, row, d.len() as int);
    let ending = record_ending(d, old, row, enc);
    assert(utf8_label() != utf16le_label()) by { assert(utf8_label()[3] != utf16le_label()[3]); }
    assert(utf8_label() != utf16be_label()) by { assert(utf8_label()[3] != utf16be_label()[3]); }
    assert(utf16le_label() != utf16be_label()) by { assert(utf16le_label()[5] != utf16be_label()[5]); }
    let d2 = edited_file(e, row, col, value);
    let new = spec_build_index(d2, bom, enc);
    if enc == utf8_label() {
        lemma_edited_index(d, bom, row, text);
        let eb = encode_utf8(text);
        assert(edit_replacement(e, row, col, value) == eb);
        let n = ending.len() as int;
        let lc = Seq::new(n as nat, |i: int| if ending[i] == 0x0A { '\n' } else { '\r' });
        assert(encode_utf8(lc) == ending) by {
            if n == 0 {
                assert(ending =~= Seq::<u8>::empty());
            } else {
                lemma_encode_scalar_bytes(lc[0]);
                assert(encode_utf8(lc) == encode_scalar(lc[0] as u32) + encode_utf8(lc.drop_first()));
                if n == 1 {
                    assert(lc.drop_first().len() == 0);
                    assert(encode_utf8(lc) =~= ending);
                } else {
                    let r = lc.drop_first();
                    lemma_encode_scalar_bytes(r[0]);
                    assert(encode_utf8(r) == encode_scalar(r[0] as u32) + encode_utf8(r.drop_first()));
                    assert(r.drop_first().len() == 0);
                    assert(encode_utf8(lc) =~= ending);
                }
            }
        }
        lemma_encode_utf8_concat(text, lc);
        vstd::utf8::encode_utf8_valid_utf8(text + lc);
        vstd::utf8::encode_utf8_decode_utf8(text + lc);
        assert(spec_decode_row(eb + ending, enc) == text + lc);
        assert(d2 == edited_bytes(d, start, end, eb + ending));
        lemma_other_records_read_alike(d, bom, enc, row, eb + ending);
        let c1 = start + eb.len() + ending.len();
        assert(new[row] == start);
        assert(row_end(new, row, d2.len() as int) == c1);
        assert(d2.subrange(start, c1) =~= eb + ending);
        assert(row_text_of(d2, new, row, d2.len() as int, enc) == text + lc);
        assert forall|i: int| 0 <= i < lc.len() implies #[trigger] lc[i] == '\r' || lc[i] == '\n' by {}
        lemma_parse_formatted_row_with_breaks(cells, delim, lc);
    } else {
        let be = enc == utf16be_label();
        assert(enc == utf16_label(be));
        lemma_edited_index_utf16(d, bom, be, row, text);
        let eb = unit_bytes(spec_encode_utf16(text), be);
        assert(edit_replacement(e, row, col, value) == eb);
        let lc: Seq<char> = if ending.len() == 0 {
            Seq::empty()
        } else if ending.len() == 4 {
            seq!['\r', '\n']
        } else if ending == unit_bytes(seq![0x0Au16], be) {
            seq!['\n']
        } else {
            seq!['\r']
        };
        assert(spec_encode_utf16(seq!['\n']) =~= seq![0x0Au16]) by {
            assert(seq!['\n'].drop_last() =~= Seq::<char>::empty());
            assert(spec_encode_utf16(Seq::<char>::empty()) == Seq::<u16>::empty());
            assert(('\n' as u32) == 0x0A);
        }
        assert(spec_encode_utf16(seq!['\r']) =~= seq![0x0Du16]) by {
            assert(seq!['\r'].drop_last() =~= Seq::<char>::empty());
            assert(spec_encode_utf16(Seq::<char>::empty()) == Seq::<u16>::empty());
            assert(('\r' as u32) == 0x0D);
        }
        assert(spec_encode_utf16(seq!['\r', '\n']) =~= seq![0x0Du16, 0x0Au16]) by {
            assert(seq!['\r', '\n'].drop_last() =~= seq!['\r']);
            assert(('\n' as u32) == 0x0A);
        }
        assert(spec_encode_utf16(Seq::<char>::empty()) =~= Seq::<u16>::empty());
        assert(unit_bytes(Seq::<u16>::empty(), be) =~= Seq::<u8>::empty());
        assert(unit_bytes(spec_encode_utf16(lc), be) == ending);
        lemma_encode_utf16_concat(text, lc);
        lemma_unit_bytes_concat(spec_encode_utf16(text), spec_encode_utf16(lc), be);
        let us = spec_encode_utf16(text + lc);
        assert(eb + ending == unit_bytes(us, be));
        lemma_units_of_unit_bytes(us, be);
        lemma_unit_bytes_len(us, be);
        lemma_unit_bytes_len(spec_encode_utf16(text), be);
        assert(units_of(eb + ending, be) == us);
        assert(exists|t: Seq<char>| us == spec_encode_utf16(t));
        let t = choose|t: Seq<char>| us == spec_encode_utf16(t);
        lemma_encode_utf16_injective(t, text + lc);
        assert(spec_decode_row(eb + ending, enc) == text + lc);
        assert(d2 == edited_bytes(d, start, end, eb + ending));
        lemma_other_records_read_alike(d, bom, enc, row, eb + ending);
        let c1 = start + eb.len() + ending.len();
        assert(new[row] == start);
        assert(row_end(new, row, d2.len() as int) == c1);
        assert(d2.subrange(start, c1) =~= eb + ending);
        assert(row_text_of(d2, new, row, d2.len() as int, enc) == text + lc);
        assert forall|i: int| 0 <= i < lc.len() implies #[trigger] lc[i] == '\r' || lc[i] == '\n' by {}
        lemma_parse_formatted_row_with_breaks(cells, delim, lc);
    }
}

// ─── UTF-16 files ───────────────────────────────────────────────────────────

/// A UTF-16 scan sees only the bytes from where it starts (see
/// [`lemma_scan_shift`]).
#[verifier::spinoff_prover]
#[verifier::rlimit(60)]
pub proof fn lemma_scan_units_shift(d1: Seq<u8>, p1: int, d2: Seq<u8>, p2: int, be: bool, q: bool)
    requires
        0 <= p1 <= d1.len(),
        0 <= p2 <= d2.len(),
        d1.len() - p1 == d2.len() - p2,
        d1.len() <= u64::MAX,
        d2.len() <= u64::MAX,
        forall|i: int| p1 <= i < d1.len() ==> #[trigger] d1[i] == d2[i + (p2 - p1)],
    ensures
        scan_units(d2, p2, be, q) == shifted(scan_units(d1, p1, be, q), p2 - p1),
    decreases d1.len() - p1,
{
    let delta = p2 - p1;
    let l1 = d1.len() as int;
    let l2 = d2.len() as int;
    if p1 + 1 >= l1 {
        assert(shifted(scan_units(d1, p1, be, q), delta) =~= Seq::<u64>::empty());
    } else {
        assert(d1[p1] == d2[p1 + delta]);
        assert(d1[p1 + 1] == d2[p1 + 1 + delta]);
        if p1 + 3 < l1 {
            assert(d1[p1 + 2] == d2[p1 + 2 + delta]);
            assert(d1[p1 + 3] == d2[p1 + 3 + delta]);
        }
        lemma_shift_offset(l1, p1, l2, p2, 2);
        lemma_shift_offset(l1, p1, l2, p2, 4);
        if is_unit(d1, p1, be, 0x22) {
            if q && p1 + 3 < l1 && is_unit(d1, p1 + 2, be, 0x22) {
                lemma_scan_units_shift(d1, p1 + 4, d2, p2 + 4, be, q);
            } else {
                lemma_scan_units_shift(d1, p1 + 2, d2, p2 + 2, be, !q);
            }
        } else if is_unit(d1, p1, be, 0x0A) && !q {
            lemma_scan_units_shift(d1, p1 + 2, d2, p2 + 2, be, q);
            lemma_shifted_concat(offset_if_inside(l1, p1 + 2), scan_units(d1, p1 + 2, be, q), delta);
        } else if is_unit(d1, p1, be, 0x0D) && !q {
            if p1 + 3 < l1 && is_unit(d1, p1 + 2, be, 0x0A) {
                lemma_scan_units_shift(d1, p1 + 4, d2, p2 + 4, be, q);
                lemma_shifted_concat(offset_if_inside(l1, p1 + 4), scan_units(d1, p1 + 4, be, q), delta);
            } else {
                lemma_scan_units_shift(d1, p1 + 2, d2, p2 + 2, be, q);
                lemma_shifted_concat(offset_if_inside(l1, p1 + 2), scan_units(d1, p1 + 2, be, q), delta);
            }
        } else {
            lemma_scan_units_shift(d1, p1 + 2, d2, p2 + 2, be, q);
        }
    }
}

/// Every record start a UTF-16 scan finds lies an even number of bytes
/// after where the scan began, inside the file, right after a line feed or a
/// carriage return unit; after a carriage return, no line feed follows.
#[verifier::spinoff_prover]
#[verifier::rlimit(60)]
pub proof fn lemma_scan_units_found_after_break(d: Seq<u8>, p: int, be: bool, q: bool, m: int)
    requires
        d.len() <= u64::MAX,
        scan_units(d, p, be, q).contains(m as u64),
        0 <= m <= u64::MAX,
    ensures
        p + 2 <= m < d.len(),
        (m - p) % 2 == 0,
        is_unit(d, m - 2, be, 0x0A) || is_unit(d, m - 2, be, 0x0D),
        is_unit(d, m - 2, be, 0x0D) ==> !(m + 1 < d.len() && is_unit(d, m, be, 0x0A)),
    decreases d.len() - p,
{
    let l = d.len() as int;
    let s = scan_units(d, p, be, q);
    let k = choose|k: int| 0 <= k < s.len() && s[k] == m as u64;
    lemma_scan_units_inside(d, p, be, q);
    assert(p + 1 < l && p >= 0);
    if is_unit(d, p, be, 0x22) {
        if q && p + 3 < l && is_unit(d, p + 2, be, 0x22) {
            lemma_scan_units_found_after_break(d, p + 4, be, q, m);
        } else {
            lemma_scan_units_found_after_break(d, p + 2, be, !q, m);
        }
    } else if is_unit(d, p, be, 0x0A) && !q {
        let head = offset_if_inside(l, p + 2);
        if k < head.len() {
            assert(head[k] == (p + 2) as u64);
        } else {
            assert(scan_units(d, p + 2, be, q)[k - head.len()] == m as u64);
            lemma_scan_units_found_after_break(d, p + 2, be, q, m);
        }
    } else if is_unit(d, p, be, 0x0D) && !q {
        if p + 3 < l && is_unit(d, p + 2, be, 0x0A) {
            let head = offset_if_inside(l, p + 4);
            if k < head.len() {
                assert(head[k] == (p + 4) as u64);
            } else {
                assert(scan_units(d, p + 4, be, q)[k - head.len()] == m as u64);
                lemma_scan_units_found_after_break(d, p + 4, be, q, m);
            }
        } else {
            let head = offset_if_inside(l, p + 2);
            if k < head.len() {
                assert(head[k] == (p + 2) as u64);
            } else {
                assert(scan_units(d, p + 2, be, q)[k - head.len()] == m as u64);
                lemma_scan_units_found_after_break(d, p + 2, be, q, m);
            }
        }
    } else {
        lemma_scan_units_found_after_break(d, p + 2, be, q, m);
    }
}

/// A UTF-16 scan that reaches the record start `m` in one file reaches it
/// in the same way in any file with the same bytes before `m` (unless a
/// carriage return unit just before `m` would there be followed by a line
/// feed unit); see [`lemma_scan_prefix`].
#[verifier::spinoff_prover]
#[verifier::rlimit(60)]
pub proof fn lemma_scan_units_prefix(d1: Seq<u8>, d2: Seq<u8>, p: int, be: bool, q: bool, m: int) -> (a: Seq<u64>)
    requires
        0 <= p <= m,
        (m - p) % 2 == 0,
        m < d1.len(),
        m < d2.len(),
        d1.len() <= u64::MAX,
        d2.len() <= u64::MAX,
        forall|i: int| 0 <= i < m ==> #[trigger] d1[i] == d2[i],
        scan_units(d1, p, be, q).contains(m as u64),
        m >= 2 && is_unit(d1, m - 2, be, 0x0D) ==> !(m + 1 < d2.len() && is_unit(d2, m, be, 0x0A)),
    ensures
        scan_units(d1, p, be, q) == a + seq![m as u64] + scan_units(d1, m, be, false),
        scan_units(d2, p, be, q) == a + seq![m as u64] + scan_units(d2, m, be, false),
    decreases m - p,
{
    let l1 = d1.len() as int;
    let l2 = d2.len() as int;
    let s1 = scan_units(d1, p, be, q);
    let k = choose|k: int| 0 <= k < s1.len() && s1[k] == m as u64;
    assert forall|x: int, qq: bool| #![trigger scan_units(d1, x, be, qq)] x >= m implies !scan_units(d1, x, be, qq).contains(m as u64) by {
        lemma_scan_units_inside(d1, x, be, qq);
        if scan_units(d1, x, be, qq).contains(m as u64) {
            let j = choose|j: int| 0 <= j < scan_units(d1, x, be, qq).len() && scan_units(d1, x, be, qq)[j] == m as u64;
            assert(scan_units(d1, x, be, qq)[j] > x);
        }
    }
    assert(p < m);
    assert(p + 1 < m);
    assert(d1[p] == d2[p] && d1[p + 1] == d2[p + 1]);
    assert(is_unit(d1, p, be, 0x22) == is_unit(d2, p, be, 0x22));
    assert(is_unit(d1, p, be, 0x0A) == is_unit(d2, p, be, 0x0A));
    assert(is_unit(d1, p, be, 0x0D) == is_unit(d2, p, be, 0x0D));
    if p + 2 < m {
        assert(p + 3 < m);
        assert(d1[p + 2] == d2[p + 2] && d1[p + 3] == d2[p + 3]);
        assert(is_unit(d1, p + 2, be, 0x22) == is_unit(d2, p + 2, be, 0x22));
        assert(is_unit(d1, p + 2, be, 0x0A) == is_unit(d2, p + 2, be, 0x0A));
    }
    if is_unit(d1, p, be, 0x22) {
        if q && p + 3 < l1 && is_unit(d1, p + 2, be, 0x22) {
            assert(s1 == scan_units(d1, p + 4, be, q));
            assert(p + 4 <= m);
            lemma_scan_units_prefix(d1, d2, p + 4, be, q, m)
        } else {
            assert(s1 == scan_units(d1, p + 2, be, !q));
            assert(p + 2 < m);
            lemma_scan_units_prefix(d1, d2, p + 2, be, !q, m)
        }
    } else if is_unit(d1, p, be, 0x0A) && !q {
        let head = offset_if_inside(l1, p + 2);
        assert(head == offset_if_inside(l2, p + 2));
        if p + 2 == m {
            assert(head =~= seq![m as u64]);
            assert(seq![m as u64] =~= Seq::<u64>::empty() + seq![m as u64]);
            Seq::<u64>::empty()
        } else {
            assert(head =~= seq![(p + 2) as u64]);
            let tail = scan_units(d1, p + 2, be, q);
            assert(s1 == head + tail);
            assert(tail.contains(m as u64)) by {
                assert(k >= 1);
                assert(tail[k - 1] == m as u64);
            }
            let rest = lemma_scan_units_prefix(d1, d2, p + 2, be, q, m);
            assert(head + (rest + seq![m as u64] + scan_units(d1, m, be, false)) =~= (head + rest) + seq![m as u64] + scan_units(d1, m, be, false));
            assert(head + (rest + seq![m as u64] + scan_units(d2, m, be, false)) =~= (head + rest) + seq![m as u64] + scan_units(d2, m, be, false));
            head + rest
        }
    } else if is_unit(d1, p, be, 0x0D) && !q {
        if p + 3 < l1 && is_unit(d1, p + 2, be, 0x0A) {
            assert(p + 2 < m) by {
                if p + 2 == m {
                    let t = scan_units(d1, p + 4, be, q);
                    let head = offset_if_inside(l1, p + 4);
                    assert(s1 == head + t);
                    if k < head.len() {
                        assert(head[k] == (p + 4) as u64);
                    } else {
                        assert(t[k - head.len()] == m as u64);
                        assert(t.contains(m as u64));
                    }
                }
            }
            let head = offset_if_inside(l1, p + 4);
            assert(head == offset_if_inside(l2, p + 4));
            if p + 4 == m {
                assert(head =~= seq![m as u64]);
                assert(seq![m as u64] =~= Seq::<u64>::empty() + seq![m as u64]);
                Seq::<u64>::empty()
            } else {
                assert(p + 4 < m) by {
                    if p + 4 > m {
                        assert(p + 3 == m);
                    }
                }
                assert(head =~= seq![(p + 4) as u64]);
                let tail = scan_units(d1, p + 4, be, q);
                assert(s1 == head + tail);
                assert(tail.contains(m as u64)) by {
                    assert(k >= 1);
                    assert(tail[k - 1] == m as u64);
                }
                let rest = lemma_scan_units_prefix(d1, d2, p + 4, be, q, m);
                assert(head + (rest + seq![m as u64] + scan_units(d1, m, be, false)) =~= (head + rest) + seq![m as u64] + scan_units(d1, m, be, false));
                assert(head + (rest + seq![m as u64] + scan_units(d2, m, be, false)) =~= (head + rest) + seq![m as u64] + scan_units(d2, m, be, false));
                head + rest
            }
        } else {
            let head = offset_if_inside(l1, p + 2);
            assert(head == offset_if_inside(l2, p + 2));
            if p + 2 == m {
                assert(!(p + 3 < l2 && is_unit(d2, p + 2, be, 0x0A)));
                assert(head =~= seq![m as u64]);
                assert(seq![m as u64] =~= Seq::<u64>::empty() + seq![m as u64]);
                Seq::<u64>::empty()
            } else {
                assert(head =~= seq![(p + 2) as u64]);
                let tail = scan_units(d1, p + 2, be, q);
                assert(s1 == head + tail);
                assert(tail.contains(m as u64)) by {
                    assert(k >= 1);
                    assert(tail[k - 1] == m as u64);
                }
                let rest = lemma_scan_units_prefix(d1, d2, p + 2, be, q, m);
                assert(head + (rest + seq![m as u64] + scan_units(d1, m, be, false)) =~= (head + rest) + seq![m as u64] + scan_units(d1, m, be, false));
                assert(head + (rest + seq![m as u64] + scan_units(d2, m, be, false)) =~= (head + rest) + seq![m as u64] + scan_units(d2, m, be, false));
                head + rest
            }
        }
    } else {
        assert(s1 == scan_units(d1, p + 2, be, q));
        assert(p + 2 < m);
        lemma_scan_units_prefix(d1, d2, p + 2, be, q, m)
    }
}

proof fn lemma_unit_bytes_concat(a: Seq<u16>, b: Seq<u16>, be: bool)
    ensures
        unit_bytes(a + b, be) == unit_bytes(a, be) + unit_bytes(b, be),
    decreases b.len(),
{
    if b.len() == 0 {
        assert(a + b =~= a);
        assert(unit_bytes(b, be) =~= Seq::<u8>::empty());
        assert(unit_bytes(a, be) + unit_bytes(b, be) =~= unit_bytes(a, be));
    } else {
        assert((a + b).drop_last() =~= a + b.drop_last());
        assert((a + b).last() == b.last());
        lemma_unit_bytes_concat(a, b.drop_last(), be);
        let u = b.last();
        let tail: Seq<u8> = if be { seq![(u / 256) as u8, (u % 256) as u8] } else { seq![(u % 256) as u8, (u / 256) as u8] };
        assert(unit_bytes(a + b, be) == unit_bytes(a + b.drop_last(), be) + tail);
        assert(unit_bytes(b, be) == unit_bytes(b.drop_last(), be) + tail);
        assert(unit_bytes(a + b, be) =~= unit_bytes(a, be) + unit_bytes(b, be));
    }
}

proof fn lemma_unit_bytes_len(us: Seq<u16>, be: bool)
    ensures
        unit_bytes(us, be).len() == 2 * us.len(),
    decreases us.len(),
{
    if us.len() > 0 {
        lemma_unit_bytes_len(us.drop_last(), be);
    }
}

proof fn lemma_encode_utf16_concat(a: Seq<char>, b: Seq<char>)
    ensures
        spec_encode_utf16(a + b) == spec_encode_utf16(a) + spec_encode_utf16(b),
    decreases b.len(),
{
    if b.len() == 0 {
        assert(a + b =~= a);
        assert(spec_encode_utf16(a) + spec_encode_utf16(b) =~= spec_encode_utf16(a));
    } else {
        assert((a + b).drop_last() =~= a + b.drop_last());
        assert((a + b).last() == b.last());
        lemma_encode_utf16_concat(a, b.drop_last());
        assert(spec_encode_utf16(a + b) =~= spec_encode_utf16(a) + spec_encode_utf16(b));
    }
}

/// The UTF-16 units of a text: those of its first character, then the rest.
proof fn lemma_encode_utf16_first(t: Seq<char>)
    requires
        t.len() > 0,
    ensures
        spec_encode_utf16(t) == char_utf16(t[0]) + spec_encode_utf16(t.drop_first()),
{
    lemma_encode_utf16_concat(seq![t[0]], t.drop_first());
    assert(seq![t[0]] + t.drop_first() =~= t);
    let one = seq![t[0]];
    assert(one.drop_last() =~= Seq::<char>::empty());
    assert(one.last() == t[0]);
    assert(spec_encode_utf16(one.drop_last()) == Seq::<u16>::empty());
    assert(spec_encode_utf16(one) == spec_encode_utf16(one.drop_last()) + char_utf16(t[0]));
    assert(spec_encode_utf16(one) =~= char_utf16(t[0]));
}

/// The two bytes of a unit spell the unit `0x00 v` exactly when the unit is `v`.
proof fn lemma_unit_is(u: u16, be: bool, v: u8)
    ensures
        unit_bytes(seq![u], be).len() == 2,
        (if be {
            unit_bytes(seq![u], be)[0] == 0 && unit_bytes(seq![u], be)[1] == v
        } else {
            unit_bytes(seq![u], be)[0] == v && unit_bytes(seq![u], be)[1] == 0
        }) <==> u == v as u16,
{
    let one = seq![u];
    assert(one.drop_last() =~= Seq::<u16>::empty());
    assert(one.last() == u);
    assert(unit_bytes(one.drop_last(), be) == Seq::<u8>::empty());
    let lo = (u % 256) as u8;
    let hi = (u / 256) as u8;
    assert(unit_bytes(seq![u], be) =~= if be { seq![hi, lo] } else { seq![lo, hi] });
    assert(u % 256 < 256 && u / 256 < 256);
    assert(u == (u / 256) * 256 + u % 256);
}

/// Two bytes of `d` at `pos` that hold the unit `u`: they spell `0x00 v`
/// exactly when `u` is `v`.
proof fn lemma_unit_at(d: Seq<u8>, pos: int, u: u16, be: bool)
    requires
        0 <= pos,
        pos + 2 <= d.len(),
        d.subrange(pos, pos + 2) == unit_bytes(seq![u], be),
    ensures
        is_unit(d, pos, be, 0x22) <==> u == 0x22,
        is_unit(d, pos, be, 0x0A) <==> u == 0x0A,
        is_unit(d, pos, be, 0x0D) <==> u == 0x0D,
{
    lemma_unit_is(u, be, 0x22);
    lemma_unit_is(u, be, 0x0A);
    lemma_unit_is(u, be, 0x0D);
    assert(d[pos] == d.subrange(pos, pos + 2)[0]);
    assert(d[pos + 1] == d.subrange(pos, pos + 2)[1]);
}

/// Where the UTF-16 bytes of a text that [`passes`] lie in a file, a scan
/// crosses them without finding a record start and leaves them in the state
/// the text ends in (provided no quote unit follows them).
#[verifier::spinoff_prover]
#[verifier::rlimit(80)]
pub proof fn lemma_scan_units_crosses_text(d: Seq<u8>, a: int, t: Seq<char>, be: bool, q: bool, q2: bool)
    requires
        passes(t, q, q2),
        0 <= a,
        a + unit_bytes(spec_encode_utf16(t), be).len() <= d.len(),
        d.len() <= u64::MAX,
        d.subrange(a, a + unit_bytes(spec_encode_utf16(t), be).len()) == unit_bytes(spec_encode_utf16(t), be),
        a + unit_bytes(spec_encode_utf16(t), be).len() + 1 >= d.len()
            || !is_unit(d, a + unit_bytes(spec_encode_utf16(t), be).len(), be, 0x22),
    ensures
        scan_units(d, a, be, q) == scan_units(d, a + unit_bytes(spec_encode_utf16(t), be).len(), be, q2),
    decreases t.len(),
{
    let e = unit_bytes(spec_encode_utf16(t), be);
    let n = e.len() as int;
    if t.len() > 0 {
        let c = t[0];
        let r = t.drop_first();
        let cu = char_utf16(c);
        let er = unit_bytes(spec_encode_utf16(r), be);
        lemma_encode_utf16_first(t);
        lemma_unit_bytes_concat(cu, spec_encode_utf16(r), be);
        assert(e == unit_bytes(cu, be) + er);
        lemma_unit_bytes_len(cu, be);
        lemma_char_units(c);
        lemma_encode_scalar_bytes(c);
        let k = 2 * cu.len();
        assert forall|i: int| 0 <= i < n implies #[trigger] d[a + i] == e[i] by {
            assert(d.subrange(a, a + n)[i] == d[a + i]);
        }
        assert(d.subrange(a + k, a + k + er.len()) =~= er) by {
            assert forall|i: int| 0 <= i < er.len() implies d.subrange(a + k, a + k + er.len())[i] == er[i] by {
                assert(d[a + (k + i)] == e[k + i]);
            }
        }
        assert(r =~= t.skip(1));
        // the first unit
        let u0 = cu[0];
        assert(cu =~= seq![u0] + cu.drop_first());
        lemma_unit_bytes_concat(seq![u0], cu.drop_first(), be);
        lemma_unit_is(u0, be, 0x22);
        assert(d.subrange(a, a + 2) =~= unit_bytes(seq![u0], be)) by {
            assert forall|i: int| 0 <= i < 2 implies d.subrange(a, a + 2)[i] == unit_bytes(seq![u0], be)[i] by {
                assert(d[a + i] == e[i]);
            }
        }
        lemma_unit_at(d, a, u0, be);
        assert(a + 1 < d.len());
        if (c as u32) < 0x10000 {
            assert(k == 2);
            assert(u0 as u32 == c as u32);
            if c == '"' {
                assert(is_unit(d, a, be, 0x22));
                if q && t.len() > 1 && t[1] == '"' {
                    let r2 = t.skip(2);
                    let c1 = t[1];
                    lemma_char_units(c1);
                    lemma_encode_scalar_bytes(c1);
                    lemma_encode_utf16_first(r);
                    assert(r[0] == c1);
                    assert(r.drop_first() =~= r2);
                    let cu1 = char_utf16(c1);
                    lemma_unit_bytes_concat(cu1, spec_encode_utf16(r2), be);
                    lemma_unit_bytes_len(cu1, be);
                    assert(cu1 == seq![0x22u16]);
                    let e2 = unit_bytes(spec_encode_utf16(r2), be);
                    assert(er == unit_bytes(cu1, be) + e2);
                    assert(d.subrange(a + 2, a + 4) =~= unit_bytes(seq![0x22u16], be)) by {
                        assert forall|i: int| 0 <= i < 2 implies d.subrange(a + 2, a + 4)[i] == unit_bytes(seq![0x22u16], be)[i] by {
                            assert(d[a + (2 + i)] == e[2 + i]);
                        }
                    }
                    lemma_unit_at(d, a + 2, 0x22u16, be);
                    assert(a + 3 < d.len());
                    assert(d.subrange(a + 4, a + 4 + e2.len()) =~= e2) by {
                        assert forall|i: int| 0 <= i < e2.len() implies d.subrange(a + 4, a + 4 + e2.len())[i] == e2[i] by {
                            assert(d[a + (4 + i)] == e[4 + i]);
                        }
                    }
                    lemma_scan_units_crosses_text(d, a + 4, r2, be, q, q2);
                } else {
                    if q && a + 3 < d.len() {
                        if t.len() > 1 {
                            let c1 = t[1];
                            lemma_char_units(c1);
                            lemma_encode_scalar_bytes(c1);
                            lemma_encode_utf16_first(r);
                            assert(r[0] == c1);
                            let cu1 = char_utf16(c1);
                            let u1 = cu1[0];
                            assert(cu1 =~= seq![u1] + cu1.drop_first());
                            lemma_unit_bytes_concat(seq![u1], cu1.drop_first(), be);
                            lemma_unit_bytes_concat(cu1, spec_encode_utf16(r.drop_first()), be);
                            lemma_unit_is(u1, be, 0x22);
                            assert(d.subrange(a + 2, a + 4) =~= unit_bytes(seq![u1], be)) by {
                                assert forall|i: int| 0 <= i < 2 implies d.subrange(a + 2, a + 4)[i] == unit_bytes(seq![u1], be)[i] by {
                                    assert(d[a + (2 + i)] == e[2 + i]);
                                }
                            }
                            lemma_unit_at(d, a + 2, u1, be);
                            assert(u1 != 0x22);
                        } else {
                            assert(n == 2);
                        }
                    }
                    lemma_scan_units_crosses_text(d, a + 2, r, be, !q, q2);
                }
            } else {
                assert(!is_unit(d, a, be, 0x22));
                if !q {
                    assert(c != '\n' && c != '\r');
                    assert(!is_unit(d, a, be, 0x0A) && !is_unit(d, a, be, 0x0D));
                }
                lemma_scan_units_crosses_text(d, a + 2, r, be, q, q2);
            }
        } else {
            assert(k == 4);
            let u1 = cu[1];
            assert(cu.drop_first() =~= seq![u1]);
            assert(d.subrange(a + 2, a + 4) =~= unit_bytes(seq![u1], be)) by {
                assert forall|i: int| 0 <= i < 2 implies d.subrange(a + 2, a + 4)[i] == unit_bytes(seq![u1], be)[i] by {
                    assert(d[a + (2 + i)] == e[2 + i]);
                }
            }
            lemma_unit_at(d, a + 2, u1, be);
            assert(c != '"' && c != '\n' && c != '\r');
            assert(scan_units(d, a, be, q) == scan_units(d, a + 2, be, q));
            assert(scan_units(d, a + 2, be, q) == scan_units(d, a + 4, be, q));
            lemma_scan_units_crosses_text(d, a + 4, r, be, q, q2);
        }
    }
}

/// The label of UTF-16 in the given byte order.
pub open spec fn utf16_label(be: bool) -> Seq<char> {
    if be { utf16be_label() } else { utf16le_label() }
}

/// The index of a UTF-16 file after record `row` was replaced by the UTF-16
/// bytes of a text that [`passes`] followed by the record's old line ending
/// (see [`lemma_edited_index`]).
#[verifier::rlimit(80)]
#[verifier::spinoff_prover]
pub proof fn lemma_edited_index_utf16(d: Seq<u8>, bom: u64, be: bool, row: int, text: Seq<char>)
    requires
        d.len() <= usize::MAX / 8,
        1 <= row < spec_build_index(d, bom, utf16_label(be)).len(),
        passes(text, false, false),
        text.len() > 0,
        ({
            let old = spec_build_index(d, bom, utf16_label(be));
            let start = old[row] as int;
            let end = row_end(old, row, d.len() as int);
            edited_bytes(d, start, end, unit_bytes(spec_encode_utf16(text), be) + record_ending(d, old, row, utf16_label(be))).len()
                <= usize::MAX / 8
        }),
    ensures
        ({
            let enc = utf16_label(be);
            let old = spec_build_index(d, bom, enc);
            let start = old[row] as int;
            let end = row_end(old, row, d.len() as int);
            let ending = record_ending(d, old, row, enc);
            let eb = unit_bytes(spec_encode_utf16(text), be);
            let d2 = edited_bytes(d, start, end, eb + ending);
            let new = spec_build_index(d2, bom, enc);
            let delta = d2.len() - d.len();
            &&& new.len() == old.len()
            &&& forall|k: int| 0 <= k <= row ==> new[k] == old[k]
            &&& forall|k: int| row < k < old.len() ==> new[k] == old[k] + delta
            &&& start < end <= d.len()
            &&& row_end(new, row, d2.len() as int) == start + eb.len() + ending.len()
            &&& (ending.len() == 0 || ending.len() == 2 || ending.len() == 4)
            &&& (ending.len() == 2 ==> ending == unit_bytes(seq![0x0Au16], be) || ending == unit_bytes(seq![0x0Du16], be))
            &&& (ending.len() == 4 ==> ending == unit_bytes(seq![0x0Du16, 0x0Au16], be))
        }),
{
    let enc = utf16_label(be);
    let len = d.len() as int;
    let old = spec_build_index(d, bom, enc);
    let start = old[row] as int;
    let end = row_end(old, row, len);
    let rb = d.subrange(start, end);
    let n = spec_line_ending_len(rb, enc);
    let ending = record_ending(d, old, row, enc);
    let eb = unit_bytes(spec_encode_utf16(text), be);
    let mid = eb + ending;
    let d2 = edited_bytes(d, start, end, mid);
    let len2 = d2.len() as int;
    let delta = len2 - len;
    let c0 = start + eb.len();
    let c1 = c0 + n;
    assert(utf16le_label() != utf16be_label()) by { assert(utf16le_label()[5] != utf16be_label()[5]); }
    law_index_ascending(d, bom, enc);
    assert(bom < len);
    let s0 = unit_start(len, bom as int);
    let scan1 = scan_units(d, s0, be, false);
    assert(old == seq![bom] + scan1);
    lemma_scan_units_inside(d, s0, be, false);
    assert(start == scan1[row - 1]);
    assert(scan1.contains(start as u64));
    lemma_scan_units_found_after_break(d, s0, be, false, start);
    if row + 1 < old.len() {
        assert(end == old[row + 1]);
        assert(end == scan1[row]);
        assert(old[row] < old[row + 1]);
    }
    assert(start < end <= len);
    // the replacement's first unit is no line feed
    assert(text[0] != '\n' && text[0] != '\r');
    lemma_encode_utf16_first(text);
    lemma_char_units(text[0]);
    lemma_encode_scalar_bytes(text[0]);
    let u0 = char_utf16(text[0])[0];
    assert(u0 != 0x0A);
    lemma_unit_bytes_len(spec_encode_utf16(text), be);
    lemma_unit_bytes_concat(char_utf16(text[0]), spec_encode_utf16(text.drop_first()), be);
    assert(char_utf16(text[0]) =~= seq![u0] + char_utf16(text[0]).drop_first());
    lemma_unit_bytes_concat(seq![u0], char_utf16(text[0]).drop_first(), be);
    lemma_unit_is(u0, be, 0x0A);
    assert(eb.len() >= 2);
    // the line ending
    assert(rb.len() == end - start);
    assert(n == 0 || n == 2 || n == 4);
    assert(ending == d.subrange(end - n, end));
    lemma_unit_is(0x0Au16, be, 0x0A);
    lemma_unit_is(0x0Du16, be, 0x0D);
    lemma_unit_bytes_concat(seq![0x0Du16], seq![0x0Au16], be);
    assert(seq![0x0Du16] + seq![0x0Au16] =~= seq![0x0Du16, 0x0Au16]);
    let lf = unit_bytes(seq![0x0Au16], be);
    let cr = unit_bytes(seq![0x0Du16], be);
    assert(lf =~= if be { seq![0x00u8, 0x0Au8] } else { seq![0x0Au8, 0x00u8] });
    assert(cr =~= if be { seq![0x00u8, 0x0Du8] } else { seq![0x0Du8, 0x00u8] });
    if end < len {
        assert(scan1.contains(end as u64));
        lemma_scan_units_found_after_break(d, s0, be, false, end);
        assert(end >= start + 2);
        assert(rb.subrange(rb.len() - 2, rb.len() as int) =~= d.subrange(end - 2, end));
        if is_unit(d, end - 2, be, 0x0A) {
            assert(d.subrange(end - 2, end) =~= lf);
        } else {
            assert(d.subrange(end - 2, end) =~= cr);
        }
        assert(n >= 2);
    }
    if n == 4 {
        assert(ending =~= rb.subrange(rb.len() - 4, rb.len() as int));
        assert(ending =~= cr + lf);
    }
    if n == 2 {
        assert(ending =~= rb.subrange(rb.len() - 2, rb.len() as int));
        assert(ending == lf || ending == cr);
    }
    assert(len2 == start + eb.len() + n + (len - end));
    // bytes of the edited file
    assert forall|i: int| 0 <= i < start implies #[trigger] d2[i] == d[i] by {}
    assert forall|i: int| end <= i < len implies #[trigger] d[i] == d2[i + (c1 - end)] by {
        assert(d2[i + (c1 - end)] == d.subrange(end, len)[i - end]);
    }
    assert(d2.subrange(start, c0) =~= eb);
    assert forall|i: int| 0 <= i < n implies #[trigger] d2[c0 + i] == ending[i] by {}
    assert(d2[start] == eb[0] && d2[start + 1] == eb[1]);
    assert(!is_unit(d2, start, be, 0x0A));
    // the scan up to the edited record
    assert(unit_start(len2, bom as int) == s0);
    let a = lemma_scan_units_prefix(d, d2, s0, be, false, start);
    let scan2 = scan_units(d2, s0, be, false);
    let new = spec_build_index(d2, bom, enc);
    assert(new == seq![bom] + scan2);
    assert(a.len() == row - 1) by {
        assert(scan1[a.len() as int] == start as u64);
        if a.len() != row - 1 {
            assert(a.len() < scan1.len());
        }
    }
    // across the replacement
    if n == 0 {
        assert(end == len);
        assert(c0 == len2);
    } else {
        assert(d2[c0] == ending[0] && d2[c0 + 1] == ending[1]);
        assert(!is_unit(d2, c0, be, 0x22));
    }
    lemma_scan_units_crosses_text(d2, start, text, be, false, false);
    assert(scan_units(d2, start, be, false) == scan_units(d2, c0, be, false));
    // across the line ending
    let tail2 = scan_units(d2, c1, be, false);
    if n == 0 {
        assert(scan_units(d2, c0, be, false) =~= Seq::<u64>::empty());
    } else if n == 2 {
        if ending == cr {
            assert(is_unit(d2, c0, be, 0x0D));
            if c1 + 1 < len2 {
                assert(end + 1 < len);
                assert(d2[c1] == d[end] && d2[c1 + 1] == d[end + 1]);
                assert(is_unit(d, end - 2, be, 0x0D)) by {
                    assert(d[end - 2] == ending[0] && d[end - 1] == ending[1]);
                }
            }
        } else {
            assert(is_unit(d2, c0, be, 0x0A));
        }
        assert(scan_units(d2, c0, be, false) == offset_if_inside(len2, c1) + tail2);
    } else {
        assert(is_unit(d2, c0, be, 0x0D));
        assert(d2[c0 + 2] == ending[2] && d2[c0 + 3] == ending[3]);
        assert(is_unit(d2, c0 + 2, be, 0x0A));
        assert(scan_units(d2, c0, be, false) == offset_if_inside(len2, c1) + tail2);
    }
    lemma_scan_units_shift(d, end, d2, c1, be, false);
    assert(c1 - end == delta);
    let t1 = scan_units(d, end, be, false);
    assert(tail2 == shifted(t1, delta));
    lemma_scan_units_inside(d, end, be, false);
    assert(scan1 == a + seq![start as u64] + scan_units(d, start, be, false));
    assert(scan2 == a + seq![start as u64] + scan_units(d2, start, be, false));
    if end < len {
        assert((end - s0) % 2 == 0);
        let a2 = lemma_scan_units_prefix(d, d, s0, be, false, end);
        assert(a2.len() == row) by {
            assert(scan1[a2.len() as int] == end as u64);
            assert(scan1[row] == end as u64);
            if a2.len() != row {
                assert(a2.len() < scan1.len());
            }
        }
        assert(scan_units(d, start, be, false) =~= seq![end as u64] + t1) by {
            assert(scan1.skip(row) =~= scan_units(d, start, be, false));
            assert(scan1.skip(row) =~= seq![end as u64] + t1);
        }
        assert(c1 < len2);
        assert(offset_if_inside(len2, c1) =~= seq![c1 as u64]);
        assert(scan_units(d2, start, be, false) == seq![c1 as u64] + shifted(t1, delta));
        assert(new.len() == old.len());
        assert forall|k: int| 0 <= k <= row implies new[k] == old[k] by {
            if k >= 1 {
                assert(new[k] == scan2[k - 1]);
                assert(old[k] == scan1[k - 1]);
            }
        }
        assert forall|k: int| row < k < old.len() implies new[k] == old[k] + delta by {
            assert(new[k] == scan2[k - 1]);
            assert(old[k] == scan1[k - 1]);
            if k == row + 1 {
                assert(scan2[k - 1] == c1 as u64);
                assert(scan1[k - 1] == end as u64);
            } else {
                assert(scan2[k - 1] == shifted(t1, delta)[k - row - 2]);
                assert(scan1[k - 1] == t1[k - row - 2]);
                assert(t1[k - row - 2] < len);
            }
        }
        assert(row_end(new, row, len2) == new[row + 1]);
    } else {
        assert(row + 1 == old.len()) by {
            if row + 1 < old.len() {
                assert(old[row + 1] < len);
            }
        }
        assert(scan_units(d, start, be, false).len() == 0) by {
            assert(scan1.len() == row);
        }
        assert(t1 =~= Seq::<u64>::empty());
        assert(c1 == len2);
        assert(offset_if_inside(len2, c1) =~= Seq::<u64>::empty());
        assert(shifted(t1, delta) =~= Seq::<u64>::empty());
        assert(scan_units(d2, start, be, false) =~= Seq::<u64>::empty());
        assert(new.len() == old.len());
        assert forall|k: int| 0 <= k <= row implies new[k] == old[k] by {
            if k >= 1 {
                assert(new[k] == scan2[k - 1]);
                assert(old[k] == scan1[k - 1]);
            }
        }
    }
}

/// Reading the units back from their bytes gives the units.
proof fn lemma_units_of_unit_bytes(us: Seq<u16>, be: bool)
    ensures
        units_of(unit_bytes(us, be), be) == us,
    decreases us.len(),
{
    lemma_unit_bytes_len(us, be);
    if us.len() > 0 {
        let init = us.drop_last();
        let u = us.last();
        lemma_units_of_unit_bytes(init, be);
        lemma_unit_bytes_len(init, be);
        let b = unit_bytes(us, be);
        let bi = unit_bytes(init, be);
        assert(us =~= init + seq![u]);
        lemma_unit_bytes_concat(init, seq![u], be);
        lemma_unit_is(u, be, 0);
        let tail = unit_bytes(seq![u], be);
        assert(b == bi + tail);
        let lo = (u % 256) as u8;
        let hi = (u / 256) as u8;
        assert(seq![u].drop_last() =~= Seq::<u16>::empty());
        assert(unit_bytes(Seq::<u16>::empty(), be) == Seq::<u8>::empty());
        assert(tail =~= if be { seq![hi, lo] } else { seq![lo, hi] });
        assert(u == (u / 256) * 256 + u % 256);
        assert(units_of(b, be) =~= us) by {
            assert forall|k: int| 0 <= k < us.len() implies units_of(b, be)[k] == us[k] by {
                if k < init.len() {
                    assert(b[2 * k] == bi[2 * k] && b[2 * k + 1] == bi[2 * k + 1]);
                    assert(units_of(bi, be)[k] == init[k]);
                } else {
                    assert(k == init.len());
                    assert(b[2 * k] == tail[0] && b[2 * k + 1] == tail[1]);
                }
            }
        }
    }
}

} // verus!
