//! Splitting one CSV record into cells, choosing a file's delimiter, and
//! writing cells back with the quoting the parser reads.
use vstd::prelude::*;
use crate::chars::{push_char, str_to_chars};

verus! {

/// The cells read from `s`, given the parser's state: whether it is inside
/// a quoted section, the cell collected so far, and the finished cells.
///
/// A `"` outside quotes opens a quoted section; inside one, `""` stands for
/// a literal quote and a lone `"` closes it. Outside quotes the delimiter ends
/// a cell, and carriage returns and line feeds are dropped.
pub open spec fn parse_from(
    s: Seq<char>,
    delimiter: char,
    in_quotes: bool,
    cur: Seq<char>,
    done: Seq<Seq<char>>,
) -> Seq<Seq<char>>
    decreases s.len(),
{
    if s.len() == 0 {
        done.push(cur)
    } else {
        let ch = s[0];
        if in_quotes {
            if ch == '"' {
                if s.len() > 1 && s[1] == '"' {
                    parse_from(s.skip(2), delimiter, true, cur.push('"'), done)
                } else {
                    parse_from(s.skip(1), delimiter, false, cur, done)
                }
            } else {
                parse_from(s.skip(1), delimiter, true, cur.push(ch), done)
            }
        } else if ch == '"' {
            parse_from(s.skip(1), delimiter, true, cur, done)
        } else if ch == delimiter {
            parse_from(s.skip(1), delimiter, false, Seq::empty(), done.push(cur))
        } else if ch != '\r' && ch != '\n' {
            parse_from(s.skip(1), delimiter, false, cur.push(ch), done)
        } else {
            parse_from(s.skip(1), delimiter, false, cur, done)
        }
    }
}

/// The cells of one CSV record.
pub open spec fn parse_line(s: Seq<char>, delimiter: char) -> Seq<Seq<char>> {
    parse_from(s, delimiter, false, Seq::empty(), Seq::empty())
}

/// Whether a value must be written inside quotes.
pub open spec fn needs_quotes(val: Seq<char>, delimiter: char) -> bool {
    val.contains(delimiter) || val.contains('"') || val.contains('\n') || val.contains('\r')
}

/// `val` with every `"` doubled.
pub open spec fn escape_quotes(val: Seq<char>) -> Seq<char>
    decreases val.len(),
{
    if val.len() == 0 {
        Seq::empty()
    } else if val[0] == '"' {
        seq!['"', '"'] + escape_quotes(val.skip(1))
    } else {
        seq![val[0]] + escape_quotes(val.skip(1))
    }
}

/// A value as written in a CSV file.
pub open spec fn quote_value(val: Seq<char>, delimiter: char) -> Seq<char> {
    if needs_quotes(val, delimiter) {
        seq!['"'] + escape_quotes(val) + seq!['"']
    } else {
        val
    }
}

/// A record: the quoted cells joined by the delimiter.
pub open spec fn join_row(cells: Seq<Seq<char>>, delimiter: char) -> Seq<char>
    decreases cells.len(),
{
    if cells.len() == 0 {
        Seq::empty()
    } else if cells.len() == 1 {
        quote_value(cells[0], delimiter)
    } else {
        quote_value(cells[0], delimiter) + seq![delimiter] + join_row(cells.skip(1), delimiter)
    }
}

/// Splits one record into its cells (see [`parse_line`]).
pub fn parse_csv_line(text: &str, delimiter: char) -> (cells: Vec<String>)
    ensures
        cells.deep_view() == parse_line(text@, delimiter),
{
    let chars = str_to_chars(text);
    let n = chars.len();
    let mut result: Vec<String> = Vec::new();
    let mut current = String::new();
    let mut in_quotes = false;
    let mut i: usize = 0;
    assert(chars@.skip(0) =~= chars@);
    assert(result.deep_view() =~= Seq::<Seq<char>>::empty());
    while i < n
        invariant
            n == chars@.len(),
            chars@ == text@,
            i <= n,
            parse_from(chars@.skip(i as int), delimiter, in_quotes, current@, result.deep_view())
                == parse_line(text@, delimiter),
        decreases n - i,
    {
        let ghost rest = chars@.skip(i as int);
        let ch = chars[i];
        if in_quotes {
            if ch == '"' {
                if i + 1 < n && chars[i + 1] == '"' {
                    push_char(&mut current, '"');
                    assert(rest.skip(2) =~= chars@.skip(i as int + 2));
                    i += 2;
                } else {
                    in_quotes = false;
                    assert(rest.skip(1) =~= chars@.skip(i as int + 1));
                    i += 1;
                }
            } else {
                push_char(&mut current, ch);
                assert(rest.skip(1) =~= chars@.skip(i as int + 1));
                i += 1;
            }
        } else if ch == '"' {
            in_quotes = true;
            assert(rest.skip(1) =~= chars@.skip(i as int + 1));
            i += 1;
        } else if ch == delimiter {
            let ghost old_result = result.deep_view();
            result.push(current);
            assert(result.deep_view() =~= old_result.push(current@));
            current = String::new();
            assert(rest.skip(1) =~= chars@.skip(i as int + 1));
            i += 1;
        } else {
            if ch != '\r' && ch != '\n' {
                push_char(&mut current, ch);
            }
            assert(rest.skip(1) =~= chars@.skip(i as int + 1));
            i += 1;
        }
    }
    let ghost old_result = result.deep_view();
    result.push(current);
    assert(result.deep_view() =~= old_result.push(current@));
    result
}


/// Writes a value the way a CSV reader reads it back: values holding the
/// delimiter, a quote or a line break are quoted, with inner quotes doubled.
pub fn csv_quote_value(val: &str, delimiter: char) -> (r: String)
    ensures
        r@ == quote_value(val@, delimiter),
{
    let chars = str_to_chars(val);
    let n = chars.len();
    let mut needs = false;
    let mut i: usize = 0;
    while i < n
        invariant
            n == chars@.len(),
            chars@ == val@,
            i <= n,
            needs == (exists|j: int|
                0 <= j < i && (chars@[j] == delimiter || chars@[j] == '"' || chars@[j] == '\n'
                    || chars@[j] == '\r')),
        decreases n - i,
    {
        let ch = chars[i];
        if ch == delimiter || ch == '"' || ch == '\n' || ch == '\r' {
            needs = true;
        }
        i += 1;
    }
    assert(needs == needs_quotes(val@, delimiter)) by {
        if needs {
            let j = choose|j: int|
                0 <= j < n && (chars@[j] == delimiter || chars@[j] == '"' || chars@[j] == '\n'
                    || chars@[j] == '\r');
            assert(val@[j] == chars@[j]);
        }
        if needs_quotes(val@, delimiter) {
            if val@.contains(delimiter) {
                let j = choose|j: int| 0 <= j < val@.len() && val@[j] == delimiter;
                assert(chars@[j] == delimiter);
            } else if val@.contains('"') {
                let j = choose|j: int| 0 <= j < val@.len() && val@[j] == '"';
                assert(chars@[j] == '"');
            } else if val@.contains('\n') {
                let j = choose|j: int| 0 <= j < val@.len() && val@[j] == '\n';
                assert(chars@[j] == '\n');
            } else {
                let j = choose|j: int| 0 <= j < val@.len() && val@[j] == '\r';
                assert(chars@[j] == '\r');
            }
        }
    }
    let mut r = String::new();
    if !needs {
        let mut k: usize = 0;
        while k < n
            invariant
                n == chars@.len(),
                chars@ == val@,
                k <= n,
                r@ == chars@.take(k as int),
            decreases n - k,
        {
            push_char(&mut r, chars[k]);
            assert(chars@.take(k as int + 1) =~= chars@.take(k as int).push(chars@[k as int]));
            k += 1;
        }
        assert(chars@.take(n as int) =~= chars@);
        return r;
    }
    push_char(&mut r, '"');
    let mut k: usize = 0;
    assert(chars@.skip(0) =~= chars@);
    while k < n
        invariant
            n == chars@.len(),
            chars@ == val@,
            k <= n,
            r@ + escape_quotes(chars@.skip(k as int)) == seq!['"'] + escape_quotes(val@),
        decreases n - k,
    {
        let ghost rest = chars@.skip(k as int);
        let ch = chars[k];
        assert(rest.skip(1) =~= chars@.skip(k as int + 1));
        if ch == '"' {
            push_char(&mut r, '"');
            push_char(&mut r, '"');
            assert(escape_quotes(rest) == seq!['"', '"'] + escape_quotes(rest.skip(1)));
        } else {
            push_char(&mut r, ch);
            assert(escape_quotes(rest) == seq![ch] + escape_quotes(rest.skip(1)));
        }
        k += 1;
    }
    assert(chars@.skip(n as int) =~= Seq::<char>::empty());
    assert(escape_quotes(Seq::<char>::empty()) =~= Seq::<char>::empty());
    push_char(&mut r, '"');
    r
}

/// Writes a record: every cell quoted as needed, joined by the delimiter.
pub fn format_csv_row(cells: &[String], delimiter: char) -> (r: String)
    ensures
        r@ == join_row(cells.deep_view(), delimiter),
{
    let n = cells.len();
    let mut r = String::new();
    let mut i: usize = 0;
    while i < n
        invariant
            n == cells@.len(),
            i <= n,
            r@ == join_row(cells.deep_view().take(i as int), delimiter),
        decreases n - i,
    {
        let quoted = csv_quote_value(cells[i].as_str(), delimiter);
        proof {
            lemma_join_row_push(cells.deep_view(), i as int, delimiter);
        }
        if i > 0 {
            push_char(&mut r, delimiter);
        }
        r.append(quoted.as_str());
        i += 1;
    }
    assert(cells.deep_view().take(n as int) =~= cells.deep_view());
    r
}

/// Appending one cell to a record appends the delimiter and the quoted cell.
proof fn lemma_join_row_push(cells: Seq<Seq<char>>, i: int, delimiter: char)
    requires
        0 <= i < cells.len(),
    ensures
        join_row(cells.take(i + 1), delimiter) == if i == 0 {
            quote_value(cells[i], delimiter)
        } else {
            join_row(cells.take(i), delimiter) + seq![delimiter] + quote_value(cells[i], delimiter)
        },
    decreases i,
{
    let d = seq![delimiter];
    if i == 0 {
        assert(cells.take(1)[0] == cells[0]);
        assert(cells.take(1).len() == 1);
        assert(join_row(cells.take(i + 1), delimiter) == quote_value(cells[i], delimiter));
    } else if i == 1 {
        assert(cells.take(2).skip(1) =~= seq![cells[1]]);
        assert(cells.take(2)[0] == cells[0]);
        assert(cells.take(1)[0] == cells[0]);
        assert(join_row(cells.take(2).skip(1), delimiter) == quote_value(cells[1], delimiter));
        assert(join_row(cells.take(2), delimiter) == quote_value(cells[0], delimiter) + d + quote_value(cells[1], delimiter));
        assert(join_row(cells.take(1), delimiter) == quote_value(cells[0], delimiter));
    } else {
        lemma_join_row_push(cells.skip(1), i - 1, delimiter);
        assert(cells.take(i + 1).skip(1) =~= cells.skip(1).take(i));
        assert(cells.take(i).skip(1) =~= cells.skip(1).take(i - 1));
        assert(cells.skip(1)[i - 1] == cells[i]);
        assert(cells.take(i + 1)[0] == cells[0]);
        assert(cells.take(i)[0] == cells[0]);
        let a = quote_value(cells[0], delimiter);
        let b = join_row(cells.skip(1).take(i - 1), delimiter);
        let c = quote_value(cells[i], delimiter);
        assert(join_row(cells.take(i + 1), delimiter) == a + d + (b + d + c));
        assert(join_row(cells.take(i), delimiter) == a + d + b);
        assert(a + d + (b + d + c) =~= a + d + b + d + c);
    }
}


/// Cells that need no quoting are read back character for character.
proof fn lemma_parse_plain(c: Seq<char>, b: Seq<char>, delimiter: char, cur: Seq<char>, done: Seq<Seq<char>>)
    requires
        !needs_quotes(c, delimiter),
    ensures
        parse_from(c + b, delimiter, false, cur, done) == parse_from(b, delimiter, false, cur + c, done),
    decreases c.len(),
{
    if c.len() == 0 {
        assert(c + b =~= b);
        assert(cur + c =~= cur);
    } else {
        let c0 = c[0];
        assert((c + b)[0] == c0);
        assert((c + b).skip(1) =~= c.skip(1) + b);
        assert(!needs_quotes(c.skip(1), delimiter)) by {
            if c.skip(1).contains(delimiter) {
                let j = choose|j: int| 0 <= j < c.skip(1).len() && c.skip(1)[j] == delimiter;
                assert(c[j + 1] == delimiter);
            }
            if c.skip(1).contains('"') {
                let j = choose|j: int| 0 <= j < c.skip(1).len() && c.skip(1)[j] == '"';
                assert(c[j + 1] == '"');
            }
            if c.skip(1).contains('\n') {
                let j = choose|j: int| 0 <= j < c.skip(1).len() && c.skip(1)[j] == '\n';
                assert(c[j + 1] == '\n');
            }
            if c.skip(1).contains('\r') {
                let j = choose|j: int| 0 <= j < c.skip(1).len() && c.skip(1)[j] == '\r';
                assert(c[j + 1] == '\r');
            }
        }
        assert(c0 != delimiter && c0 != '"' && c0 != '\n' && c0 != '\r') by {
            assert(c[0] == c0);
        }
        lemma_parse_plain(c.skip(1), b, delimiter, cur.push(c0), done);
        assert(cur.push(c0) + c.skip(1) =~= cur + c);
    }
}

/// Inside quotes, the escaped text and the closing quote read back as the text.
proof fn lemma_parse_escaped(c: Seq<char>, b: Seq<char>, delimiter: char, cur: Seq<char>, done: Seq<Seq<char>>)
    requires
        b.len() == 0 || b[0] != '"',
    ensures
        parse_from(escape_quotes(c) + seq!['"'] + b, delimiter, true, cur, done)
            == parse_from(b, delimiter, false, cur + c, done),
    decreases c.len(),
{
    let s = escape_quotes(c) + seq!['"'] + b;
    if c.len() == 0 {
        assert(escape_quotes(c) =~= Seq::<char>::empty());
        assert(s =~= seq!['"'] + b);
        assert(s.skip(1) =~= b);
        assert(cur + c =~= cur);
    } else {
        let rest = c.skip(1);
        lemma_parse_escaped(rest, b, delimiter, if c[0] == '"' { cur.push('"') } else { cur.push(c[0]) }, done);
        if c[0] == '"' {
            assert(s =~= seq!['"', '"'] + (escape_quotes(rest) + seq!['"'] + b));
            assert(s.skip(2) =~= escape_quotes(rest) + seq!['"'] + b);
            assert(cur.push('"') + rest =~= cur + c);
        } else {
            assert(s =~= seq![c[0]] + (escape_quotes(rest) + seq!['"'] + b));
            assert(s.skip(1) =~= escape_quotes(rest) + seq!['"'] + b);
            assert(cur.push(c[0]) + rest =~= cur + c);
        }
    }
}

/// A quoted cell followed by a delimiter or the end of the record reads back as itself.
proof fn lemma_parse_cell(c: Seq<char>, b: Seq<char>, delimiter: char, done: Seq<Seq<char>>)
    requires
        delimiter != '"' && delimiter != '\r' && delimiter != '\n',
        b.len() == 0 || b[0] == delimiter || b[0] == '\r' || b[0] == '\n',
    ensures
        parse_from(quote_value(c, delimiter) + b, delimiter, false, Seq::empty(), done)
            == parse_from(b, delimiter, false, c, done),
{
    if needs_quotes(c, delimiter) {
        let s = seq!['"'] + escape_quotes(c) + seq!['"'] + b;
        assert(quote_value(c, delimiter) + b =~= s);
        assert(s.skip(1) =~= escape_quotes(c) + seq!['"'] + b);
        lemma_parse_escaped(c, b, delimiter, Seq::empty(), done);
        assert(Seq::<char>::empty() + c =~= c);
    } else {
        lemma_parse_plain(c, b, delimiter, Seq::empty(), done);
        assert(Seq::<char>::empty() + c =~= c);
    }
}

proof fn lemma_parse_join(cells: Seq<Seq<char>>, delimiter: char, done: Seq<Seq<char>>)
    requires
        cells.len() >= 1,
        delimiter != '"' && delimiter != '\r' && delimiter != '\n',
    ensures
        parse_from(join_row(cells, delimiter), delimiter, false, Seq::empty(), done) == done + cells,
    decreases cells.len(),
{
    if cells.len() == 1 {
        lemma_parse_cell(cells[0], Seq::empty(), delimiter, done);
        assert(quote_value(cells[0], delimiter) + Seq::<char>::empty() =~= quote_value(cells[0], delimiter));
        assert(done.push(cells[0]) =~= done + cells);
    } else {
        let rest = join_row(cells.skip(1), delimiter);
        let b = seq![delimiter] + rest;
        assert(join_row(cells, delimiter) =~= quote_value(cells[0], delimiter) + b);
        lemma_parse_cell(cells[0], b, delimiter, done);
        assert(b.skip(1) =~= rest);
        lemma_parse_join(cells.skip(1), delimiter, done.push(cells[0]));
        assert(done.push(cells[0]) + cells.skip(1) =~= done + cells);
    }
}

/// Line breaks outside quotes end the record's last cell and nothing more.
proof fn lemma_parse_breaks(b: Seq<char>, delimiter: char, cur: Seq<char>, done: Seq<Seq<char>>)
    requires
        delimiter != '\r' && delimiter != '\n',
        forall|i: int| 0 <= i < b.len() ==> #[trigger] b[i] == '\r' || b[i] == '\n',
    ensures
        parse_from(b, delimiter, false, cur, done) == done.push(cur),
    decreases b.len(),
{
    if b.len() > 0 {
        assert(b[0] == '\r' || b[0] == '\n');
        lemma_parse_breaks(b.skip(1), delimiter, cur, done);
    }
}

proof fn lemma_parse_join_breaks(cells: Seq<Seq<char>>, delimiter: char, b: Seq<char>, done: Seq<Seq<char>>)
    requires
        cells.len() >= 1,
        delimiter != '"' && delimiter != '\r' && delimiter != '\n',
        forall|i: int| 0 <= i < b.len() ==> #[trigger] b[i] == '\r' || b[i] == '\n',
    ensures
        parse_from(join_row(cells, delimiter) + b, delimiter, false, Seq::empty(), done) == done + cells,
    decreases cells.len(),
{
    if cells.len() == 1 {
        if b.len() > 0 {
            assert(b[0] == '\r' || b[0] == '\n');
        }
        lemma_parse_cell(cells[0], b, delimiter, done);
        lemma_parse_breaks(b, delimiter, cells[0], done);
        assert(done.push(cells[0]) =~= done + cells);
    } else {
        let rest = join_row(cells.skip(1), delimiter) + b;
        let tail = seq![delimiter] + rest;
        assert(join_row(cells, delimiter) + b =~= quote_value(cells[0], delimiter) + tail);
        lemma_parse_cell(cells[0], tail, delimiter, done);
        assert(tail.skip(1) =~= rest);
        lemma_parse_join_breaks(cells.skip(1), delimiter, b, done.push(cells[0]));
        assert(done.push(cells[0]) + cells.skip(1) =~= done + cells);
    }
}

/// A written record followed by line breaks reads back as its cells.
pub proof fn lemma_parse_formatted_row_with_breaks(cells: Seq<Seq<char>>, delimiter: char, b: Seq<char>)
    requires
        cells.len() >= 1,
        delimiter != '"' && delimiter != '\r' && delimiter != '\n',
        forall|i: int| 0 <= i < b.len() ==> #[trigger] b[i] == '\r' || b[i] == '\n',
    ensures
        parse_line(join_row(cells, delimiter) + b, delimiter) == cells,
{
    lemma_parse_join_breaks(cells, delimiter, b, Seq::empty());
    assert(Seq::<Seq<char>>::empty() + cells =~= cells);
}

/// Reading a written record gives back its cells: for every non-empty list of
/// cells and every delimiter other than a quote or a line break,
/// `parse_csv_line(format_csv_row(cells))` equals `cells`.
pub proof fn law_parse_reads_formatted_row(cells: Seq<Seq<char>>, delimiter: char)
    requires
        cells.len() >= 1,
        delimiter != '"' && delimiter != '\r' && delimiter != '\n',
    ensures
        parse_line(join_row(cells, delimiter), delimiter) == cells,
{
    lemma_parse_join(cells, delimiter, Seq::empty());
    assert(Seq::<Seq<char>>::empty() + cells =~= cells);
}


/// The delimiters a file may use, in order of preference.
pub open spec fn delimiter_candidates() -> Seq<char> {
    seq![',', '\t', ';', '|']
}

/// How often `c` occurs outside quoted sections of `s`.
pub open spec fn count_outside_quotes(s: Seq<char>, in_quotes: bool, c: char) -> nat
    decreases s.len(),
{
    if s.len() == 0 {
        0
    } else if s[0] == '"' {
        if in_quotes && s.len() > 1 && s[1] == '"' {
            count_outside_quotes(s.skip(2), in_quotes, c)
        } else {
            count_outside_quotes(s.skip(1), !in_quotes, c)
        }
    } else if !in_quotes && s[0] == c {
        1 + count_outside_quotes(s.skip(1), in_quotes, c)
    } else {
        count_outside_quotes(s.skip(1), in_quotes, c)
    }
}

/// The index of the first largest of `counts[0..=k]`.
pub open spec fn first_max_index(counts: Seq<nat>, k: int) -> int
    decreases k,
{
    if k <= 0 {
        0
    } else {
        let b = first_max_index(counts, k - 1);
        if counts[k] > counts[b] {
            k
        } else {
            b
        }
    }
}

/// The delimiter of a header line: the candidate that occurs most often
/// outside quotes (the earlier one on a tie), or a comma when none occurs.
pub open spec fn spec_detect_delimiter(s: Seq<char>) -> char {
    let counts = Seq::new(4, |k: int| count_outside_quotes(s, false, delimiter_candidates()[k]));
    let best = first_max_index(counts, 3);
    if counts[best] == 0 {
        ','
    } else {
        delimiter_candidates()[best]
    }
}

proof fn lemma_count_bound(s: Seq<char>, in_quotes: bool, c: char)
    ensures
        count_outside_quotes(s, in_quotes, c) <= s.len(),
    decreases s.len(),
{
    if s.len() > 0 {
        if s[0] == '"' && in_quotes && s.len() > 1 && s[1] == '"' {
            lemma_count_bound(s.skip(2), in_quotes, c);
        } else if s[0] == '"' {
            lemma_count_bound(s.skip(1), !in_quotes, c);
        } else {
            lemma_count_bound(s.skip(1), in_quotes, c);
        }
    }
}

/// Fields each written inside quotes (quotes in them doubled) and joined by
/// `delimiter`, as spreadsheet exports write a header.
pub open spec fn quote_all(cells: Seq<Seq<char>>, delimiter: char) -> Seq<char>
    decreases cells.len(),
{
    if cells.len() == 0 {
        Seq::empty()
    } else if cells.len() == 1 {
        seq!['"'] + escape_quotes(cells[0]) + seq!['"']
    } else {
        seq!['"'] + escape_quotes(cells[0]) + seq!['"'] + seq![delimiter] + quote_all(cells.skip(1), delimiter)
    }
}

/// Inside quotes, an escaped text and its closing quote hold nothing that
/// counts: counting goes on after them outside quotes.
proof fn lemma_count_escaped(v: Seq<char>, b: Seq<char>, c: char)
    requires
        b.len() == 0 || b[0] != '"',
    ensures
        count_outside_quotes(escape_quotes(v) + seq!['"'] + b, true, c) == count_outside_quotes(b, false, c),
    decreases v.len(),
{
    let s = escape_quotes(v) + seq!['"'] + b;
    if v.len() == 0 {
        assert(s =~= seq!['"'] + b);
        assert(s.skip(1) =~= b);
    } else {
        let rest = v.skip(1);
        lemma_count_escaped(rest, b, c);
        if v[0] == '"' {
            assert(s =~= seq!['"', '"'] + (escape_quotes(rest) + seq!['"'] + b));
            assert(s.skip(2) =~= escape_quotes(rest) + seq!['"'] + b);
        } else {
            assert(s =~= seq![v[0]] + (escape_quotes(rest) + seq!['"'] + b));
            assert(s.skip(1) =~= escape_quotes(rest) + seq!['"'] + b);
        }
    }
}

/// Outside quoted fields, a header of quoted fields holds its delimiter
/// once between each two fields and no other character: a character after
/// the closing quote of one field counts.
pub proof fn law_quoted_fields_count_their_delimiters(cells: Seq<Seq<char>>, delimiter: char, c: char)
    requires
        cells.len() >= 1,
        delimiter != '"',
        c != '"',
    ensures
        count_outside_quotes(quote_all(cells, delimiter), false, c) == if c == delimiter { cells.len() - 1 } else { 0 },
    decreases cells.len(),
{
    let s = quote_all(cells, delimiter);
    if cells.len() == 1 {
        lemma_count_escaped(cells[0], Seq::empty(), c);
        assert(s.skip(1) =~= escape_quotes(cells[0]) + seq!['"'] + Seq::<char>::empty());
        assert(count_outside_quotes(Seq::<char>::empty(), false, c) == 0);
    } else {
        let rest = quote_all(cells.skip(1), delimiter);
        let b = seq![delimiter] + rest;
        assert(s =~= seq!['"'] + (escape_quotes(cells[0]) + seq!['"'] + b));
        assert(s.skip(1) =~= escape_quotes(cells[0]) + seq!['"'] + b);
        lemma_count_escaped(cells[0], b, c);
        assert(b.skip(1) =~= rest);
        law_quoted_fields_count_their_delimiters(cells.skip(1), delimiter, c);
    }
}

/// A header of two or more quoted fields joined by one of the candidate
/// delimiters is read with that delimiter.
pub proof fn law_quoted_header_picks_its_delimiter(cells: Seq<Seq<char>>, delimiter: char)
    requires
        cells.len() >= 2,
        delimiter_candidates().contains(delimiter),
    ensures
        spec_detect_delimiter(quote_all(cells, delimiter)) == delimiter,
{
    let s = quote_all(cells, delimiter);
    let cands = delimiter_candidates();
    let k = choose|k: int| 0 <= k < cands.len() && cands[k] == delimiter;
    assert(delimiter != '"');
    let counts = Seq::new(4, |j: int| count_outside_quotes(s, false, cands[j]));
    assert forall|j: int| 0 <= j < 4 implies #[trigger] counts[j] == if j == k { cells.len() - 1 } else { 0 } by {
        law_quoted_fields_count_their_delimiters(cells, delimiter, cands[j]);
    }
    reveal_with_fuel(first_max_index, 4);
    assert(first_max_index(counts, 3) == k);
}

/// Chooses the delimiter of a file from its header line (see
/// [`spec_detect_delimiter`]).
pub fn detect_delimiter(text: &str) -> (d: char)
    ensures
        d == spec_detect_delimiter(text@),
{
    let chars = str_to_chars(text);
    let n = chars.len();
    let mut comma: u64 = 0;
    let mut tab: u64 = 0;
    let mut semicolon: u64 = 0;
    let mut pipe: u64 = 0;
    let mut in_quotes = false;
    let mut i: usize = 0;
    let ghost s = text@;
    assert(chars@.skip(0) =~= s);
    while i < n
        invariant
            n == chars@.len(),
            chars@ == s,
            i <= n,
            comma + count_outside_quotes(chars@.skip(i as int), in_quotes, ',')
                == count_outside_quotes(s, false, ','),
            tab + count_outside_quotes(chars@.skip(i as int), in_quotes, '\t')
                == count_outside_quotes(s, false, '\t'),
            semicolon + count_outside_quotes(chars@.skip(i as int), in_quotes, ';')
                == count_outside_quotes(s, false, ';'),
            pipe + count_outside_quotes(chars@.skip(i as int), in_quotes, '|')
                == count_outside_quotes(s, false, '|'),
        decreases n - i,
    {
        let ghost rest = chars@.skip(i as int);
        proof {
            lemma_count_bound(s, false, ',');
            lemma_count_bound(s, false, '\t');
            lemma_count_bound(s, false, ';');
            lemma_count_bound(s, false, '|');
        }
        let ch = chars[i];
        if ch == '"' {
            if in_quotes && i + 1 < n && chars[i + 1] == '"' {
                assert(rest.skip(2) =~= chars@.skip(i as int + 2));
                i += 2;
            } else {
                in_quotes = !in_quotes;
                assert(rest.skip(1) =~= chars@.skip(i as int + 1));
                i += 1;
            }
        } else {
            if !in_quotes {
                if ch == ',' {
                    comma += 1;
                } else if ch == '\t' {
                    tab += 1;
                } else if ch == ';' {
                    semicolon += 1;
                } else if ch == '|' {
                    pipe += 1;
                }
            }
            assert(rest.skip(1) =~= chars@.skip(i as int + 1));
            i += 1;
        }
    }
    let ghost counts = Seq::new(4, |k: int| count_outside_quotes(s, false, delimiter_candidates()[k]));
    assert(counts[0] == comma && counts[1] == tab && counts[2] == semicolon && counts[3] == pipe);
    let mut best: usize = 0;
    let mut best_count = comma;
    if tab > best_count {
        best = 1;
        best_count = tab;
    }
    if semicolon > best_count {
        best = 2;
        best_count = semicolon;
    }
    if pipe > best_count {
        best = 3;
        best_count = pipe;
    }
    assert(first_max_index(counts, 0) == 0);
    assert(first_max_index(counts, 1) == if tab > comma { 1int } else { 0int });
    assert(first_max_index(counts, 2) == if semicolon > counts[first_max_index(counts, 1)] { 2int } else { first_max_index(counts, 1) });
    assert(best as int == first_max_index(counts, 3) && best_count == counts[best as int]);
    if best_count == 0 {
        ','
    } else if best == 0 {
        ','
    } else if best == 1 {
        '\t'
    } else if best == 2 {
        ';'
    } else {
        '|'
    }
}

} // verus!
