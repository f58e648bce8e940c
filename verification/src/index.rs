//! The byte-offset index of a CSV file: where each record starts.
use vstd::prelude::*;
use crate::chars::str_eq;
use crate::encoding::{utf16be_label, utf16le_label, ENCODING_UTF16_BE, ENCODING_UTF16_LE};

verus! {

/// The start offsets of a file's records, stored in 32 bits for files that
/// fit in 4 GiB and in 64 bits otherwise.
#[derive(Debug)]
pub enum RowOffsets {
    U32(Vec<u32>),
    U64(Vec<u64>),
}

impl View for RowOffsets {
    type V = Seq<u64>;

    open spec fn view(&self) -> Seq<u64> {
        match self {
            RowOffsets::U32(v) => v@.map_values(|x: u32| x as u64),
            RowOffsets::U64(v) => v@,
        }
    }
}

impl RowOffsets {
    /// No offsets.
    pub fn empty() -> (r: Self)
        ensures
            r@ == Seq::<u64>::empty(),
            r is U32,
    {
        RowOffsets::U32(Vec::new())
    }

    /// No offsets, in the compact form when `file_size` fits in 32 bits.
    pub fn with_capacity(file_size: usize, capacity: usize) -> (r: Self)
        ensures
            r@ == Seq::<u64>::empty(),
            r is U32 <==> file_size <= u32::MAX,
    {
        if file_size <= u32::MAX as usize {
            RowOffsets::U32(Vec::with_capacity(capacity))
        } else {
            RowOffsets::U64(Vec::with_capacity(capacity))
        }
    }

    pub fn len(&self) -> (r: usize)
        ensures
            r == self@.len(),
    {
        match self {
            RowOffsets::U32(offsets) => offsets.len(),
            RowOffsets::U64(offsets) => offsets.len(),
        }
    }

    pub fn is_empty(&self) -> (r: bool)
        ensures
            r == (self@.len() == 0),
    {
        self.len() == 0
    }

    pub fn get(&self, index: usize) -> (r: u64)
        requires
            index < self@.len(),
        ensures
            r == self@[index as int],
    {
        match self {
            RowOffsets::U32(offsets) => offsets[index] as u64,
            RowOffsets::U64(offsets) => offsets[index],
        }
    }

    /// Appends an offset; the compact form keeps its low 32 bits.
    pub fn push(&mut self, offset: u64)
        ensures
            final(self)@ == old(self)@.push(if *old(self) is U32 { (offset as u32) as u64 } else { offset }),
            *final(self) is U32 <==> *old(self) is U32,
    {
        match self {
            RowOffsets::U32(offsets) => {
                let ghost before = offsets@;
                offsets.push(offset as u32);
                assert(offsets@.map_values(|x: u32| x as u64) =~= before.map_values(|x: u32| x as u64).push((offset as u32) as u64));
            }
            RowOffsets::U64(offsets) => offsets.push(offset),
        }
    }

    pub fn pop(&mut self)
        ensures
            final(self)@ == if old(self)@.len() == 0 { old(self)@ } else { old(self)@.drop_last() },
            *final(self) is U32 <==> *old(self) is U32,
    {
        match self {
            RowOffsets::U32(offsets) => {
                let ghost before = offsets@;
                offsets.pop();
                assert(offsets@.map_values(|x: u32| x as u64) =~= if before.len() == 0 {
                    before.map_values(|x: u32| x as u64)
                } else {
                    before.map_values(|x: u32| x as u64).drop_last()
                });
            }
            RowOffsets::U64(offsets) => {
                offsets.pop();
            }
        }
    }

    pub fn last(&self) -> (r: Option<u64>)
        ensures
            r == if self@.len() == 0 { None } else { Some(self@.last()) },
    {
        let n = self.len();
        if n == 0 {
            None
        } else {
            Some(self.get(n - 1))
        }
    }
}

/// The offset `o` as a one-element list when it lies inside the file.
pub open spec fn offset_if_inside(len: int, o: int) -> Seq<u64> {
    if o < len {
        seq![o as u64]
    } else {
        Seq::empty()
    }
}

/// The record starts found by scanning single-byte text from `pos` on: after
/// every line feed, carriage return, or CR LF pair that lies outside quotes.
pub open spec fn scan_bytes(d: Seq<u8>, pos: int, in_quotes: bool) -> Seq<u64>
    decreases d.len() - pos,
{
    if pos < 0 || pos >= d.len() {
        Seq::empty()
    } else {
        let ch = d[pos];
        if ch == 0x22 {
            if in_quotes && pos + 1 < d.len() && d[pos + 1] == 0x22 {
                scan_bytes(d, pos + 2, in_quotes)
            } else {
                scan_bytes(d, pos + 1, !in_quotes)
            }
        } else if ch == 0x0A && !in_quotes {
            offset_if_inside(d.len() as int, pos + 1) + scan_bytes(d, pos + 1, in_quotes)
        } else if ch == 0x0D && !in_quotes {
            if pos + 1 < d.len() && d[pos + 1] == 0x0A {
                offset_if_inside(d.len() as int, pos + 2) + scan_bytes(d, pos + 2, in_quotes)
            } else {
                offset_if_inside(d.len() as int, pos + 1) + scan_bytes(d, pos + 1, in_quotes)
            }
        } else {
            scan_bytes(d, pos + 1, in_quotes)
        }
    }
}

/// Whether the two bytes at `pos` are the UTF-16 code unit `0x00 value`.
pub open spec fn is_unit(d: Seq<u8>, pos: int, big_endian: bool, value: u8) -> bool {
    if big_endian {
        d[pos] == 0 && d[pos + 1] == value
    } else {
        d[pos] == value && d[pos + 1] == 0
    }
}

/// The record starts found by scanning UTF-16 text two bytes at a time from `pos`.
pub open spec fn scan_units(d: Seq<u8>, pos: int, big_endian: bool, in_quotes: bool) -> Seq<u64>
    decreases d.len() - pos,
{
    if pos < 0 || pos + 1 >= d.len() {
        Seq::empty()
    } else if is_unit(d, pos, big_endian, 0x22) {
        if in_quotes && pos + 3 < d.len() && is_unit(d, pos + 2, big_endian, 0x22) {
            scan_units(d, pos + 4, big_endian, in_quotes)
        } else {
            scan_units(d, pos + 2, big_endian, !in_quotes)
        }
    } else if is_unit(d, pos, big_endian, 0x0A) && !in_quotes {
        offset_if_inside(d.len() as int, pos + 2) + scan_units(d, pos + 2, big_endian, in_quotes)
    } else if is_unit(d, pos, big_endian, 0x0D) && !in_quotes {
        if pos + 3 < d.len() && is_unit(d, pos + 2, big_endian, 0x0A) {
            offset_if_inside(d.len() as int, pos + 4) + scan_units(d, pos + 4, big_endian, in_quotes)
        } else {
            offset_if_inside(d.len() as int, pos + 2) + scan_units(d, pos + 2, big_endian, in_quotes)
        }
    } else {
        scan_units(d, pos + 2, big_endian, in_quotes)
    }
}

/// Where a UTF-16 scan starts: the first even offset at or after `start`
/// (an odd start is moved on only when a full code unit follows).
pub open spec fn unit_start(len: int, start: int) -> int {
    if start % 2 != 0 && start + 1 < len {
        start + 1
    } else {
        start
    }
}

/// The index of a file: the first record starts after the byte-order mark,
/// the others are found by scanning in the file's encoding. (A mark offset
/// past the end of a file under 4 GiB is kept in its low 32 bits.)
pub open spec fn spec_build_index(d: Seq<u8>, bom: u64, encoding: Seq<char>) -> Seq<u64> {
    let first = if d.len() <= u32::MAX { (bom as u32) as u64 } else { bom };
    if bom >= d.len() {
        seq![first]
    } else if encoding == utf16le_label() {
        seq![bom] + scan_units(d, unit_start(d.len() as int, bom as int), false, false)
    } else if encoding == utf16be_label() {
        seq![bom] + scan_units(d, unit_start(d.len() as int, bom as int), true, false)
    } else {
        seq![bom] + scan_bytes(d, bom as int, false)
    }
}

/// Offsets that strictly increase and lie strictly between `lo` and `hi`.
pub open spec fn ascending_within(s: Seq<u64>, lo: int, hi: int) -> bool {
    &&& forall|k: int| 0 <= k < s.len() ==> lo < #[trigger] s[k] < hi
    &&& forall|i: int, j: int| 0 <= i < j < s.len() ==> #[trigger] s[i] < #[trigger] s[j]
}

proof fn lemma_offset_if_inside(len: int, o: int, lo: int)
    requires
        0 <= lo < o,
        len <= u64::MAX,
    ensures
        ascending_within(offset_if_inside(len, o), lo, len),
        forall|k: int| 0 <= k < offset_if_inside(len, o).len() ==> offset_if_inside(len, o)[k] == o,
{
    if o < len {
        assert(offset_if_inside(len, o)[0] == o as u64);
        assert((o as u64) as int == o);
    }
}

/// A list of offsets up to `m`, followed by offsets past `m`, is ascending.
proof fn lemma_concat_ascending(a: Seq<u64>, b: Seq<u64>, lo: int, m: int, hi: int)
    requires
        lo <= m,
        ascending_within(a, lo, hi),
        forall|k: int| 0 <= k < a.len() ==> a[k] <= m,
        ascending_within(b, m, hi),
    ensures
        ascending_within(a + b, lo, hi),
{
    let c = a + b;
    assert forall|k: int| 0 <= k < c.len() implies lo < #[trigger] c[k] < hi by {
        if k < a.len() {
            assert(c[k] == a[k]);
        } else {
            assert(c[k] == b[k - a.len()]);
        }
    }
    assert forall|i: int, j: int| 0 <= i < j < c.len() implies #[trigger] c[i] < #[trigger] c[j] by {
        if j < a.len() {
            assert(c[i] == a[i] && c[j] == a[j]);
        } else if i < a.len() {
            assert(c[i] == a[i] && c[j] == b[j - a.len()]);
        } else {
            assert(c[i] == b[i - a.len()] && c[j] == b[j - a.len()]);
        }
    }
}

/// Offsets found by a scan from `pos` increase and lie after `pos`, inside the file.
pub proof fn lemma_scan_bytes_inside(d: Seq<u8>, pos: int, in_quotes: bool)
    requires
        d.len() <= u64::MAX,
    ensures
        ascending_within(scan_bytes(d, pos, in_quotes), pos, d.len() as int),
    decreases d.len() - pos,
{
    let s = scan_bytes(d, pos, in_quotes);
    let len = d.len() as int;
    if pos >= 0 && pos < d.len() {
        let ch = d[pos];
        if ch == 0x22 {
            if in_quotes && pos + 1 < d.len() && d[pos + 1] == 0x22 {
                lemma_scan_bytes_inside(d, pos + 2, in_quotes);
                assert(s == scan_bytes(d, pos + 2, in_quotes));
            } else {
                lemma_scan_bytes_inside(d, pos + 1, !in_quotes);
                assert(s == scan_bytes(d, pos + 1, !in_quotes));
            }
        } else if ch == 0x0A && !in_quotes {
            lemma_scan_bytes_inside(d, pos + 1, in_quotes);
            lemma_offset_if_inside(len, pos + 1, pos);
            lemma_concat_ascending(offset_if_inside(len, pos + 1), scan_bytes(d, pos + 1, in_quotes), pos, pos + 1, len);
            assert(s == offset_if_inside(len, pos + 1) + scan_bytes(d, pos + 1, in_quotes));
        } else if ch == 0x0D && !in_quotes {
            if pos + 1 < d.len() && d[pos + 1] == 0x0A {
                lemma_scan_bytes_inside(d, pos + 2, in_quotes);
                lemma_offset_if_inside(len, pos + 2, pos);
                lemma_concat_ascending(offset_if_inside(len, pos + 2), scan_bytes(d, pos + 2, in_quotes), pos, pos + 2, len);
                assert(s == offset_if_inside(len, pos + 2) + scan_bytes(d, pos + 2, in_quotes));
            } else {
                lemma_scan_bytes_inside(d, pos + 1, in_quotes);
                lemma_offset_if_inside(len, pos + 1, pos);
                lemma_concat_ascending(offset_if_inside(len, pos + 1), scan_bytes(d, pos + 1, in_quotes), pos, pos + 1, len);
                assert(s == offset_if_inside(len, pos + 1) + scan_bytes(d, pos + 1, in_quotes));
            }
        } else {
            lemma_scan_bytes_inside(d, pos + 1, in_quotes);
            assert(s == scan_bytes(d, pos + 1, in_quotes));
        }
    } else {
        assert(s.len() == 0);
    }
}

/// Offsets found by a UTF-16 scan from `pos` increase and lie after `pos`,
/// inside the file.
pub proof fn lemma_scan_units_inside(d: Seq<u8>, pos: int, big_endian: bool, in_quotes: bool)
    requires
        d.len() <= u64::MAX,
    ensures
        ascending_within(scan_units(d, pos, big_endian, in_quotes), pos, d.len() as int),
    decreases d.len() - pos,
{
    let s = scan_units(d, pos, big_endian, in_quotes);
    let len = d.len() as int;
    if pos >= 0 && pos + 1 < d.len() {
        if is_unit(d, pos, big_endian, 0x22) {
            if in_quotes && pos + 3 < d.len() && is_unit(d, pos + 2, big_endian, 0x22) {
                lemma_scan_units_inside(d, pos + 4, big_endian, in_quotes);
                assert(s == scan_units(d, pos + 4, big_endian, in_quotes));
            } else {
                lemma_scan_units_inside(d, pos + 2, big_endian, !in_quotes);
                assert(s == scan_units(d, pos + 2, big_endian, !in_quotes));
            }
        } else if is_unit(d, pos, big_endian, 0x0A) && !in_quotes {
            lemma_scan_units_inside(d, pos + 2, big_endian, in_quotes);
            lemma_offset_if_inside(len, pos + 2, pos);
            lemma_concat_ascending(offset_if_inside(len, pos + 2), scan_units(d, pos + 2, big_endian, in_quotes), pos, pos + 2, len);
            assert(s == offset_if_inside(len, pos + 2) + scan_units(d, pos + 2, big_endian, in_quotes));
        } else if is_unit(d, pos, big_endian, 0x0D) && !in_quotes {
            if pos + 3 < d.len() && is_unit(d, pos + 2, big_endian, 0x0A) {
                lemma_scan_units_inside(d, pos + 4, big_endian, in_quotes);
                lemma_offset_if_inside(len, pos + 4, pos);
                lemma_concat_ascending(offset_if_inside(len, pos + 4), scan_units(d, pos + 4, big_endian, in_quotes), pos, pos + 4, len);
                assert(s == offset_if_inside(len, pos + 4) + scan_units(d, pos + 4, big_endian, in_quotes));
            } else {
                lemma_scan_units_inside(d, pos + 2, big_endian, in_quotes);
                lemma_offset_if_inside(len, pos + 2, pos);
                lemma_concat_ascending(offset_if_inside(len, pos + 2), scan_units(d, pos + 2, big_endian, in_quotes), pos, pos + 2, len);
                assert(s == offset_if_inside(len, pos + 2) + scan_units(d, pos + 2, big_endian, in_quotes));
            }
        } else {
            lemma_scan_units_inside(d, pos + 2, big_endian, in_quotes);
            assert(s == scan_units(d, pos + 2, big_endian, in_quotes));
        }
    } else {
        assert(s.len() == 0);
    }
}

/// The index of a file strictly increases, and every record start after the
/// first lies inside the file; when the file reaches past its byte-order
/// mark, the first record starts right after the mark.
pub proof fn law_index_ascending(d: Seq<u8>, bom: u64, encoding: Seq<char>)
    requires
        d.len() <= u64::MAX,
    ensures
        spec_build_index(d, bom, encoding).len() >= 1,
        bom < d.len() ==> spec_build_index(d, bom, encoding)[0] == bom,
        forall|k: int| 1 <= k < spec_build_index(d, bom, encoding).len()
            ==> #[trigger] spec_build_index(d, bom, encoding)[k] < d.len(),
        forall|i: int, j: int| 0 <= i < j < spec_build_index(d, bom, encoding).len()
            ==> #[trigger] spec_build_index(d, bom, encoding)[i] < #[trigger] spec_build_index(d, bom, encoding)[j],
{
    let len = d.len() as int;
    if bom < d.len() {
        let start = unit_start(len, bom as int);
        let scan = if encoding == utf16le_label() {
            lemma_scan_units_inside(d, start, false, false);
            scan_units(d, start, false, false)
        } else if encoding == utf16be_label() {
            lemma_scan_units_inside(d, start, true, false);
            scan_units(d, start, true, false)
        } else {
            lemma_scan_bytes_inside(d, bom as int, false);
            scan_bytes(d, bom as int, false)
        };
        let lo = if encoding == utf16le_label() || encoding == utf16be_label() { start } else { bom as int };
        assert(ascending_within(scan, lo, len));
        assert(ascending_within(seq![bom], bom as int - 1, len));
        lemma_concat_ascending(seq![bom], scan, bom as int - 1, lo, len);
        assert(spec_build_index(d, bom, encoding) == seq![bom] + scan);
    }
}

fn build_index_utf8(data: &[u8], start: usize, offsets: &mut RowOffsets, file_size: usize)
    requires
        file_size == data@.len(),
        file_size <= isize::MAX,
        start < file_size,
        *old(offsets) is U32 <==> file_size <= u32::MAX,
    ensures
        final(offsets)@ == old(offsets)@ + scan_bytes(data@, start as int, false),
        *final(offsets) is U32 <==> *old(offsets) is U32,
{
    let ghost d = data@;
    let ghost initial = offsets@;
    let mut in_quotes = false;
    let mut pos = start;
    proof {
        lemma_scan_bytes_inside(d, start as int, false);
    }
    while pos < file_size
        invariant
            file_size == d.len(),
            file_size <= isize::MAX,
            d == data@,
            *offsets is U32 <==> file_size <= u32::MAX,
            pos <= file_size + 1,
            offsets@ + scan_bytes(d, pos as int, in_quotes) == initial + scan_bytes(d, start as int, false),
        decreases file_size + 1 - pos,
    {
        let ch = data[pos];
        if ch == 0x22u8 {
            if in_quotes && pos + 1 < file_size && data[pos + 1] == 0x22u8 {
                pos += 1;
            } else {
                in_quotes = !in_quotes;
            }
        } else if ch == 0x0Au8 && !in_quotes {
            let offset = (pos + 1) as u64;
            if offset < file_size as u64 {
                offsets.push(offset);
            }
        } else if ch == 0x0Du8 && !in_quotes {
            if pos + 1 < file_size && data[pos + 1] == 0x0Au8 {
                pos += 1;
                let offset = (pos + 1) as u64;
                if offset < file_size as u64 {
                    offsets.push(offset);
                }
            } else {
                let offset = (pos + 1) as u64;
                if offset < file_size as u64 {
                    offsets.push(offset);
                }
            }
        }
        pos += 1;
        assert(offsets@ + scan_bytes(d, pos as int, in_quotes) =~= initial + scan_bytes(d, start as int, false));
    }
}

fn build_index_utf16le(data: &[u8], start: usize, offsets: &mut RowOffsets, file_size: usize)
    requires
        file_size == data@.len(),
        file_size <= isize::MAX,
        start < file_size,
        *old(offsets) is U32 <==> file_size <= u32::MAX,
    ensures
        final(offsets)@ == old(offsets)@ + scan_units(data@, unit_start(file_size as int, start as int), false, false),
        *final(offsets) is U32 <==> *old(offsets) is U32,
{
    let ghost d = data@;
    let ghost initial = offsets@;
    let mut pos = start;
    let mut in_quotes = false;
    if pos % 2 != 0 && pos + 1 < file_size {
        pos += 1;
    }
    let ghost first = pos as int;
    assert(first == unit_start(file_size as int, start as int));
    while pos + 1 < file_size
        invariant
            file_size == d.len(),
            file_size <= isize::MAX,
            d == data@,
            *offsets is U32 <==> file_size <= u32::MAX,
            pos <= file_size + 2,
            offsets@ + scan_units(d, pos as int, false, in_quotes) == initial + scan_units(d, first, false, false),
        decreases file_size + 2 - pos,
    {
        proof {
            lemma_scan_units_inside(d, pos as int, false, in_quotes);
        }
        let ghost old_offsets = offsets@;
        let ghost old_pos = pos as int;
        let ghost old_quotes = in_quotes;
        let (lo, hi) = (data[pos], data[pos + 1]);
        if lo == 0x22u8 && hi == 0x00u8 {
            if in_quotes && pos + 3 < file_size && data[pos + 2] == 0x22u8 && data[pos + 3] == 0x00u8 {
                pos += 2;
            } else {
                in_quotes = !in_quotes;
            }
        } else if lo == 0x0Au8 && hi == 0x00u8 && !in_quotes {
            let offset = (pos + 2) as u64;
            if offset < file_size as u64 {
                offsets.push(offset);
            }
        } else if lo == 0x0Du8 && hi == 0x00u8 && !in_quotes {
            if pos + 3 < file_size && data[pos + 2] == 0x0Au8 && data[pos + 3] == 0x00u8 {
                pos += 2;
                let offset = (pos + 2) as u64;
                if offset < file_size as u64 {
                    offsets.push(offset);
                }
            } else {
                let offset = (pos + 2) as u64;
                if offset < file_size as u64 {
                    offsets.push(offset);
                }
            }
        }
        pos += 2;
        assert(offsets@ + scan_units(d, pos as int, false, in_quotes) =~= old_offsets + scan_units(d, old_pos, false, old_quotes));
    }
    assert(scan_units(d, pos as int, false, in_quotes) =~= Seq::<u64>::empty());
    assert(offsets@ =~= initial + scan_units(d, first, false, false));
}

fn build_index_utf16be(data: &[u8], start: usize, offsets: &mut RowOffsets, file_size: usize)
    requires
        file_size == data@.len(),
        file_size <= isize::MAX,
        start < file_size,
        *old(offsets) is U32 <==> file_size <= u32::MAX,
    ensures
        final(offsets)@ == old(offsets)@ + scan_units(data@, unit_start(file_size as int, start as int), true, false),
        *final(offsets) is U32 <==> *old(offsets) is U32,
{
    let ghost d = data@;
    let ghost initial = offsets@;
    let mut pos = start;
    let mut in_quotes = false;
    if pos % 2 != 0 && pos + 1 < file_size {
        pos += 1;
    }
    let ghost first = pos as int;
    assert(first == unit_start(file_size as int, start as int));
    while pos + 1 < file_size
        invariant
            file_size == d.len(),
            file_size <= isize::MAX,
            d == data@,
            *offsets is U32 <==> file_size <= u32::MAX,
            pos <= file_size + 2,
            offsets@ + scan_units(d, pos as int, true, in_quotes) == initial + scan_units(d, first, true, false),
        decreases file_size + 2 - pos,
    {
        proof {
            lemma_scan_units_inside(d, pos as int, true, in_quotes);
        }
        let ghost old_offsets = offsets@;
        let ghost old_pos = pos as int;
        let ghost old_quotes = in_quotes;
        let (hi, lo) = (data[pos], data[pos + 1]);
        if hi == 0x00u8 && lo == 0x22u8 {
            if in_quotes && pos + 3 < file_size && data[pos + 2] == 0x00u8 && data[pos + 3] == 0x22u8 {
                pos += 2;
            } else {
                in_quotes = !in_quotes;
            }
        } else if hi == 0x00u8 && lo == 0x0Au8 && !in_quotes {
            let offset = (pos + 2) as u64;
            if offset < file_size as u64 {
                offsets.push(offset);
            }
        } else if hi == 0x00u8 && lo == 0x0Du8 && !in_quotes {
            if pos + 3 < file_size && data[pos + 2] == 0x00u8 && data[pos + 3] == 0x0Au8 {
                pos += 2;
                let offset = (pos + 2) as u64;
                if offset < file_size as u64 {
                    offsets.push(offset);
                }
            } else {
                let offset = (pos + 2) as u64;
                if offset < file_size as u64 {
                    offsets.push(offset);
                }
            }
        }
        pos += 2;
        assert(offsets@ + scan_units(d, pos as int, true, in_quotes) =~= old_offsets + scan_units(d, old_pos, true, old_quotes));
    }
    assert(scan_units(d, pos as int, true, in_quotes) =~= Seq::<u64>::empty());
    assert(offsets@ =~= initial + scan_units(d, first, true, false));
}

/// Whether the last offset lies at or past `end`.
fn last_at_or_past(offsets: &RowOffsets, end: u64) -> (r: bool)
    ensures
        r == (offsets@.len() > 0 && offsets@.last() >= end),
{
    match offsets.last() {
        Some(offset) => offset >= end,
        None => false,
    }
}

/// Builds the index of a file's records (see [`spec_build_index`]). The
/// offsets are stored in 32 bits exactly when the file fits in 4 GiB.
pub fn build_index(data: &[u8], bom_offset: u64, encoding: &str) -> (offsets: RowOffsets)
    requires
        data@.len() <= isize::MAX,
    ensures
        offsets@ == spec_build_index(data@, bom_offset, encoding@),
        offsets is U32 <==> data@.len() <= u32::MAX,
        forall|k: int| 1 <= k < offsets@.len() ==> offsets@[k] < data@.len(),
        forall|i: int, j: int| 0 <= i < j < offsets@.len() ==> offsets@[i] < offsets@[j],
{
    proof { law_index_ascending(data@, bom_offset, encoding@); }
    let file_size = data.len();
    let mut offsets = RowOffsets::with_capacity(file_size, 65536);
    offsets.push(bom_offset);
    let bom = bom_offset;
    if bom >= file_size as u64 {
        return offsets;
    }
    let bom = bom as usize;
    let ghost d = data@;
    proof {
        crate::encoding::lemma_label_constants();
    }
    if str_eq(encoding, ENCODING_UTF16_LE) {
        build_index_utf16le(data, bom, &mut offsets, file_size);
        proof { lemma_scan_units_inside(d, unit_start(d.len() as int, bom as int), false, false); }
    } else if str_eq(encoding, ENCODING_UTF16_BE) {
        build_index_utf16be(data, bom, &mut offsets, file_size);
        proof { lemma_scan_units_inside(d, unit_start(d.len() as int, bom as int), true, false); }
    } else {
        build_index_utf8(data, bom, &mut offsets, file_size);
        proof { lemma_scan_bytes_inside(d, bom as int, false); }
    }
    let ghost built = offsets@;
    assert(forall|k: int| 1 <= k < built.len() ==> built[k] < d.len());
    while offsets.len() > 1 && last_at_or_past(&offsets, file_size as u64)
        invariant
            offsets@ == built,
            built.len() >= 1,
            forall|k: int| 1 <= k < built.len() ==> built[k] < d.len(),
            file_size == d.len(),
            offsets is U32 <==> file_size <= u32::MAX,
        decreases offsets@.len(),
    {
        offsets.pop();
    }
    offsets
}

} // verus!
