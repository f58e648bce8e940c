//! The engine behind the viewer: one open file, the index of its records, a
//! bounded cache of parsed records, and the reads, edits, exports and searches
//! built on them. Opening, mapping and writing files is left to the caller,
//! which hands the engine a file's bytes and acts on what it returns.
use vstd::prelude::*;
use vstd::slice::slice_subrange;
use vstd::utf8::encode_utf8;
use std::collections::HashMap;
use memmap2::Mmap;
use crate::csv_line::{format_csv_row, join_row, parse_csv_line, parse_line, detect_delimiter, spec_detect_delimiter};
use crate::encoding::{decode_row, detect_encoding, encoding_display_name, spec_decode_row, spec_detect_encoding, spec_display_name};
use crate::index::{build_index, law_index_ascending, spec_build_index, RowOffsets};
use crate::text::{byte_len, is_part_of, last_component, plain_path, spec_truncate_len, truncate_cell};
use crate::search::{
    ascii_ci_occurs_at, contains_ascii_case_insensitive, contains_text, extract_match_context, lowercase,
    memmem_find, seq_contains, spec_match_context, str_to_lowercase, text_contains,
};
use crate::encoding::{utf8_lossy, utf8_label};

verus! {

broadcast use vstd::std_specs::hash::group_hash_axioms;

/// The most bytes of a cell that a row read shows.
pub const MAX_CELL_PREVIEW: usize = 500;
/// The most records the cache holds.
pub const CACHE_MAX_ROWS: usize = 500;
/// The most bytes the cached records may take.
pub const CACHE_MAX_BYTES: usize = 16 * 1024 * 1024;

// ─── File contents ──────────────────────────────────────────────────────────

#[verifier::external_type_specification]
#[verifier::external_body]
pub struct ExMmap(Mmap);

/// The bytes a read-only memory map shows: those of the mapped file, which
/// stays unchanged while it is mapped (the promise `Mmap::map` asks of its
/// caller).
pub uninterp spec fn mapped_bytes(map: Mmap) -> Seq<u8>;

/// `Mmap`'s dereference to a byte slice.
#[verifier::external_body]
fn mapped_slice(map: &Mmap) -> (r: &[u8])
    ensures
        r@ == mapped_bytes(*map),
{
    &map[..]
}

/// The bytes of an open file: a memory map, or bytes already in memory.
pub enum FileData {
    Mapped(Mmap),
    Owned(Vec<u8>),
}

impl FileData {
    pub open spec fn bytes(&self) -> Seq<u8> {
        match self {
            FileData::Mapped(map) => mapped_bytes(*map),
            FileData::Owned(bytes) => bytes@,
        }
    }

    pub fn as_slice(&self) -> (r: &[u8])
        ensures
            r@ == self.bytes(),
    {
        match self {
            FileData::Mapped(map) => mapped_slice(map),
            FileData::Owned(bytes) => bytes.as_slice(),
        }
    }

    pub fn len(&self) -> (r: usize)
        ensures
            r == self.bytes().len(),
    {
        self.as_slice().len()
    }
}

// ─── Public data types ──────────────────────────────────────────────────────

/// What opening a file reports.
#[derive(Debug, Clone)]
pub struct OpenResult {
    pub file_path: String,
    pub file_name: String,
    pub file_size: u64,
    pub row_count: u32,
    pub column_count: u32,
    pub headers: Vec<String>,
    pub encoding: String,
}

/// The visible cells of one record, each cut to a preview, with the full
/// byte length of each.
#[derive(Debug, Clone)]
pub struct RowData {
    pub cells: Vec<String>,
    pub lengths: Vec<u32>,
}

/// A record that matched a search, with the cells that matched.
#[derive(Debug, Clone)]
pub struct SearchResult {
    pub row_index: u32,
    pub matches: Vec<CellMatch>,
}

/// A cell that matched a search, with its column's name and the text around
/// the match.
#[derive(Debug, Clone)]
pub struct CellMatch {
    pub col_index: u32,
    pub col_name: String,
    pub cell_text: String,
}

/// How far a search has come.
#[derive(Debug, Clone)]
pub struct SearchProgress {
    pub done: u32,
    pub total: u32,
}

// ─── Records ────────────────────────────────────────────────────────────────

/// Where record `row` ends: at the next record's start, or at the end of the
/// file for the last record.
pub open spec fn row_end(offsets: Seq<u64>, row: int, file_size: int) -> int {
    if row + 1 < offsets.len() {
        offsets[row + 1] as int
    } else {
        file_size
    }
}

/// The text of record `row`, decoded in the file's encoding; empty for a
/// record that does not exist or has no bytes.
pub open spec fn row_text_of(d: Seq<u8>, offsets: Seq<u64>, row: int, file_size: int, encoding: Seq<char>) -> Seq<char> {
    if row < 0 || row >= offsets.len() {
        Seq::empty()
    } else {
        let start = offsets[row] as int;
        let end = row_end(offsets, row, file_size);
        if end <= start {
            Seq::empty()
        } else {
            spec_decode_row(d.subrange(start, end), encoding)
        }
    }
}

/// Reads and decodes record `row_index` (see [`row_text_of`]).
fn read_row_text(data: &[u8], offsets: &RowOffsets, row_index: usize, file_size: u64, encoding: &str) -> (r: String)
    requires
        data@.len() <= usize::MAX / 8,
        file_size == data@.len(),
        forall|k: int| 1 <= k < offsets@.len() ==> offsets@[k] <= file_size,
        offsets@.len() == 0 || offsets@[0] <= usize::MAX,
    ensures
        r@ == row_text_of(data@, offsets@, row_index as int, file_size as int, encoding@),
{
    if row_index >= offsets.len() {
        return String::new();
    }
    let start = offsets.get(row_index) as usize;
    let end = if row_index + 1 < offsets.len() {
        offsets.get(row_index + 1) as usize
    } else {
        file_size as usize
    };
    if end <= start {
        return String::new();
    }
    let bytes = slice_subrange(data, start, end);
    decode_row(bytes, encoding)
}

/// The part of a record that a row read shows: columns
/// `col_start .. col_start + col_count`, as far as the record reaches.
pub open spec fn visible_range(n: int, col_start: int, col_count: int) -> (int, int) {
    let start = if col_start < n { col_start } else { n };
    let end = if start + col_count < n { start + col_count } else { n };
    (start, end)
}

/// Whether `r` shows the columns `col_start .. col_start + col_count` of
/// `cells`: each cut to [`MAX_CELL_PREVIEW`] bytes at a character boundary,
/// with its full byte length (in 32 bits).
pub open spec fn shows_columns(r: RowData, cells: Seq<Seq<char>>, col_start: int, col_count: int) -> bool {
    let (start, end) = visible_range(cells.len() as int, col_start, col_count);
    &&& r.cells@.len() == end - start
    &&& r.lengths@.len() == end - start
    &&& forall|j: int| 0 <= j < end - start ==> {
        let full = #[trigger] encode_utf8(cells[start + j]);
        &&& encode_utf8(r.cells@[j]@) == full.take(spec_truncate_len(full, MAX_CELL_PREVIEW as int))
        &&& r.lengths@[j] == (full.len() as u32)
    }
}

/// The visible part of a record (see [`shows_columns`]).
pub fn row_data_for_columns(cells: &[String], col_start: u32, col_count: u32) -> (r: RowData)
    ensures
        shows_columns(r, cells.deep_view(), col_start as int, col_count as int),
{
    let n = cells.len();
    let start = if (col_start as usize) < n { col_start as usize } else { n };
    let wanted = start.saturating_add(col_count as usize);
    let end = if wanted < n { wanted } else { n };
    let mut shown: Vec<String> = Vec::new();
    let mut lengths: Vec<u32> = Vec::new();
    let mut i = start;
    while i < end
        invariant
            start <= i <= end <= n,
            n == cells@.len(),
            shown@.len() == i - start,
            lengths@.len() == i - start,
            (start as int, end as int) == visible_range(n as int, col_start as int, col_count as int),
            forall|j: int| 0 <= j < i - start ==> {
                let full = #[trigger] encode_utf8(cells.deep_view()[start + j]);
                &&& encode_utf8(shown@[j]@) == full.take(spec_truncate_len(full, MAX_CELL_PREVIEW as int))
                &&& lengths@[j] == (full.len() as u32)
            },
        decreases end - i,
    {
        let cell = cells[i].as_str();
        assert(cells.deep_view()[i as int] == cell@);
        shown.push(truncate_cell(cell, MAX_CELL_PREVIEW));
        lengths.push(byte_len(cell) as u32);
        i += 1;
    }
    RowData { cells: shown, lengths }
}

// ─── The cache model ────────────────────────────────────────────────────────

/// The bytes counted for a cached key (nothing for a key without an entry).
pub open spec fn size_of_key(sizes: Map<u32, nat>, key: u32) -> nat {
    if sizes.contains_key(key) {
        sizes[key]
    } else {
        0
    }
}

/// The bytes counted for the keys of `order`.
pub open spec fn total_size(order: Seq<u32>, sizes: Map<u32, nat>) -> nat
    decreases order.len(),
{
    if order.len() == 0 {
        0
    } else {
        total_size(order.drop_last(), sizes) + size_of_key(sizes, order.last())
    }
}

/// The use order without `key`.
pub open spec fn without_key(order: Seq<u32>, key: u32) -> Seq<u32> {
    if order.contains(key) {
        order.remove(order.index_of(key))
    } else {
        order
    }
}

/// The use order after the least recently used keys have been dropped until
/// the cache holds at most [`CACHE_MAX_ROWS`] keys and
/// [`CACHE_MAX_BYTES`] bytes.
pub open spec fn evict(order: Seq<u32>, sizes: Map<u32, nat>) -> Seq<u32>
    decreases order.len(),
{
    if order.len() > 0 && (order.len() > CACHE_MAX_ROWS || total_size(order, sizes) > CACHE_MAX_BYTES) {
        evict(order.skip(1), sizes)
    } else {
        order
    }
}

proof fn lemma_total_concat(a: Seq<u32>, b: Seq<u32>, sizes: Map<u32, nat>)
    ensures
        total_size(a + b, sizes) == total_size(a, sizes) + total_size(b, sizes),
    decreases b.len(),
{
    if b.len() == 0 {
        assert(a + b =~= a);
    } else {
        lemma_total_concat(a, b.drop_last(), sizes);
        assert((a + b).drop_last() =~= a + b.drop_last());
        assert((a + b).last() == b.last());
    }
}

proof fn lemma_total_agree(order: Seq<u32>, s1: Map<u32, nat>, s2: Map<u32, nat>)
    requires
        forall|k: u32| #[trigger] order.contains(k) ==> size_of_key(s1, k) == size_of_key(s2, k),
    ensures
        total_size(order, s1) == total_size(order, s2),
    decreases order.len(),
{
    if order.len() > 0 {
        assert forall|k: u32| #[trigger] order.drop_last().contains(k) implies size_of_key(s1, k) == size_of_key(s2, k) by {
            let i = choose|i: int| 0 <= i < order.drop_last().len() && order.drop_last()[i] == k;
            assert(order[i] == k);
            assert(order.contains(k));
        }
        lemma_total_agree(order.drop_last(), s1, s2);
        assert(order[order.len() - 1] == order.last());
        assert(order.contains(order.last()));
    }
}

/// Removing the key at `pos` takes its bytes off the total.
proof fn lemma_total_remove(order: Seq<u32>, pos: int, sizes: Map<u32, nat>)
    requires
        0 <= pos < order.len(),
    ensures
        total_size(order, sizes) == total_size(order.remove(pos), sizes) + size_of_key(sizes, order[pos]),
{
    let a = order.take(pos);
    let b = order.skip(pos + 1);
    lemma_total_concat(a, seq![order[pos]], sizes);
    lemma_total_concat(a + seq![order[pos]], b, sizes);
    assert(order =~= a + seq![order[pos]] + b);
    assert(order.remove(pos) =~= a + b);
    lemma_total_concat(a, b, sizes);
    let x = order[pos];
    assert(seq![x].drop_last() =~= Seq::<u32>::empty());
    assert(seq![x].last() == x);
    assert(total_size(Seq::<u32>::empty(), sizes) == 0);
    assert(total_size(seq![x], sizes) == size_of_key(sizes, x));
}

/// The key at the front of a list of distinct keys is not among the rest.
proof fn lemma_skip_first_distinct(order: Seq<u32>)
    requires
        order.len() > 0,
        order.no_duplicates(),
    ensures
        !order.skip(1).contains(order[0]),
        order.skip(1).no_duplicates(),
{
    if order.skip(1).contains(order[0]) {
        let i = choose|i: int| 0 <= i < order.skip(1).len() && order.skip(1)[i] == order[0];
        assert(order[i + 1] == order[0]);
    }
}

/// A key whose bytes alone exceed the budget takes every key with it.
proof fn lemma_evict_oversized(order: Seq<u32>, sizes: Map<u32, nat>)
    requires
        order.len() > 0,
        size_of_key(sizes, order.last()) > CACHE_MAX_BYTES,
    ensures
        evict(order, sizes) == Seq::<u32>::empty(),
    decreases order.len(),
{
    lemma_total_concat(order.drop_last(), seq![order.last()], sizes);
    assert(order.drop_last() + seq![order.last()] =~= order);
    assert(seq![order.last()].drop_last() =~= Seq::<u32>::empty());
    assert(total_size(seq![order.last()], sizes) == size_of_key(sizes, order.last()));
    assert(total_size(order, sizes) > CACHE_MAX_BYTES);
    assert(evict(order, sizes) == evict(order.skip(1), sizes));
    if order.len() > 1 {
        assert(order.skip(1).last() == order.last());
        lemma_evict_oversized(order.skip(1), sizes);
    } else {
        assert(order.skip(1) =~= Seq::<u32>::empty());
    }
}

/// Eviction keeps a suffix of the use order.
proof fn lemma_evict_suffix(order: Seq<u32>, sizes: Map<u32, nat>)
    ensures
        evict(order, sizes).len() <= order.len(),
        evict(order, sizes) == order.skip(order.len() - evict(order, sizes).len()),
        evict(order, sizes).len() <= CACHE_MAX_ROWS,
        total_size(evict(order, sizes), sizes) <= CACHE_MAX_BYTES,
    decreases order.len(),
{
    if order.len() > 0 && (order.len() > CACHE_MAX_ROWS || total_size(order, sizes) > CACHE_MAX_BYTES) {
        lemma_evict_suffix(order.skip(1), sizes);
        let e = evict(order, sizes);
        assert(order.skip(1).skip(order.skip(1).len() - e.len()) =~= order.skip(order.len() - e.len()));
    } else {
        assert(order.skip(0) =~= order);
    }
}

// ─── The engine ─────────────────────────────────────────────────────────────

/// Whether `c` is one of the delimiters a file may use.
pub open spec fn is_delimiter_candidate(c: char) -> bool {
    c == ',' || c == '\t' || c == ';' || c == '|'
}

/// The delimiter chosen for a header is one of the candidates.
proof fn lemma_detected_delimiter(s: Seq<char>)
    ensures
        is_delimiter_candidate(spec_detect_delimiter(s)),
{
    let counts = Seq::new(4, |k: int| crate::csv_line::count_outside_quotes(s, false, crate::csv_line::delimiter_candidates()[k]));
    let b1 = crate::csv_line::first_max_index(counts, 1);
    let b2 = crate::csv_line::first_max_index(counts, 2);
    let b3 = crate::csv_line::first_max_index(counts, 3);
    assert(crate::csv_line::first_max_index(counts, 0) == 0);
    assert(0 <= b1 <= 1);
    assert(0 <= b2 <= 2);
    assert(0 <= b3 <= 3);
}

/// A parsed record kept in the cache, with the bytes it was counted at.
struct CachedRow {
    cells: Vec<String>,
    size: usize,
}

/// One open CSV file: its bytes, the index of its records, its header and
/// delimiter, its encoding, and a cache of recently read records kept within
/// a row budget and a byte budget, least recently used first out.
pub struct CsvEngine {
    data: Option<FileData>,
    file_path: String,
    file_size: u64,
    offsets: RowOffsets,
    headers: Vec<String>,
    delimiter: char,
    encoding: String,
    bom_offset: u64,
    cache: HashMap<u32, CachedRow>,
    cache_order: Vec<u32>,
    cache_bytes: usize,
}

impl CsvEngine {
    pub closed spec fn spec_open(&self) -> bool {
        self.data is Some
    }

    /// The bytes of the open file (none when no file is open).
    pub closed spec fn spec_bytes(&self) -> Seq<u8> {
        match self.data {
            Some(d) => d.bytes(),
            None => Seq::empty(),
        }
    }

    pub closed spec fn spec_file_path(&self) -> Seq<char> {
        self.file_path@
    }

    pub closed spec fn spec_file_size(&self) -> u64 {
        self.file_size
    }

    /// The start offsets of the file's records; the first is the header.
    pub closed spec fn spec_offsets(&self) -> Seq<u64> {
        self.offsets@
    }

    pub closed spec fn spec_headers(&self) -> Seq<Seq<char>> {
        self.headers.deep_view()
    }

    pub closed spec fn spec_delimiter(&self) -> char {
        self.delimiter
    }

    pub closed spec fn spec_encoding(&self) -> Seq<char> {
        self.encoding@
    }

    pub closed spec fn spec_bom(&self) -> u64 {
        self.bom_offset
    }

    /// The keys of the cached records, least recently used first.
    pub closed spec fn cache_order(&self) -> Seq<u32> {
        self.cache_order@
    }

    /// The cells of each cached record.
    pub closed spec fn cached_cells(&self) -> Map<u32, Seq<Seq<char>>> {
        Map::new(|k: u32| self.cache@.contains_key(k), |k: u32| self.cache@[k].cells.deep_view())
    }

    /// The bytes each cached record was counted at.
    pub closed spec fn cached_sizes(&self) -> Map<u32, nat> {
        Map::new(|k: u32| self.cache@.contains_key(k), |k: u32| self.cache@[k].size as nat)
    }

    pub closed spec fn spec_cache_bytes(&self) -> nat {
        self.cache_bytes as nat
    }

    /// The text of record `row` of the open file.
    pub open spec fn spec_row_text(&self, row: int) -> Seq<char> {
        row_text_of(self.spec_bytes(), self.spec_offsets(), row, self.spec_file_size() as int, self.spec_encoding())
    }

    /// The cells of record `row` of the open file.
    pub open spec fn spec_row_cells(&self, row: int) -> Seq<Seq<char>> {
        parse_line(self.spec_row_text(row), self.spec_delimiter())
    }

    /// The cache's own invariant: keys are used at most once, every cached
    /// record has its key in the use order, at most [`CACHE_MAX_ROWS`]
    /// records are cached, and the byte count is the sum of the cached
    /// records' sizes, within [`CACHE_MAX_BYTES`].
    pub closed spec fn cache_wf(&self) -> bool {
        &&& self.cache_order@.no_duplicates()
        &&& forall|k: u32| #[trigger] self.cache@.contains_key(k) ==> self.cache_order@.contains(k)
        &&& self.cache@.dom().len() <= CACHE_MAX_ROWS
        &&& self.cache_bytes as nat == total_size(self.cache_order@, self.cached_sizes())
        &&& self.cache_bytes <= CACHE_MAX_BYTES
    }

    /// The engine's invariant: the index, header and delimiter are those of
    /// the open file's bytes in its encoding, and every cached record holds
    /// the cells of its record.
    pub closed spec fn wf(&self) -> bool {
        &&& self.bom_offset <= 3
        &&& is_delimiter_candidate(self.delimiter)
        &&& self.cache_wf()
        &&& match self.data {
            Some(d) => {
                &&& d.bytes().len() <= usize::MAX / 8
                &&& self.file_size == d.bytes().len()
                &&& self.offsets@ == spec_build_index(d.bytes(), self.bom_offset, self.encoding@)
                &&& forall|k: u32| #[trigger] self.cache@.contains_key(k)
                    ==> 1 <= k < self.offsets@.len() && self.cache@[k].cells.deep_view() == self.spec_row_cells(k as int)
            },
            None => true,
        }
    }

    /// The open file, its path, index, header, delimiter and encoding are
    /// those of `other`.
    pub open spec fn same_file(&self, other: &CsvEngine) -> bool {
        &&& self.spec_open() == other.spec_open()
        &&& self.spec_bytes() == other.spec_bytes()
        &&& self.spec_file_path() == other.spec_file_path()
        &&& self.spec_file_size() == other.spec_file_size()
        &&& self.spec_offsets() == other.spec_offsets()
        &&& self.spec_headers() == other.spec_headers()
        &&& self.spec_delimiter() == other.spec_delimiter()
        &&& self.spec_encoding() == other.spec_encoding()
        &&& self.spec_bom() == other.spec_bom()
    }

    /// The state with no file open and nothing cached: no path, no bytes, no
    /// records or header, a comma as delimiter and UTF-8 as encoding.
    pub open spec fn is_closed(&self) -> bool {
        &&& !self.spec_open()
        &&& self.spec_bytes() == Seq::<u8>::empty()
        &&& self.spec_file_path() == Seq::<char>::empty()
        &&& self.spec_file_size() == 0
        &&& self.spec_offsets() == Seq::<u64>::empty()
        &&& self.spec_headers() == Seq::<Seq<char>>::empty()
        &&& self.spec_delimiter() == ','
        &&& self.spec_encoding() == crate::encoding::utf8_label()
        &&& self.spec_bom() == 0
        &&& self.cache_order() == Seq::<u32>::empty()
        &&& self.cached_cells() == Map::<u32, Seq<Seq<char>>>::empty()
        &&& self.cached_sizes() == Map::<u32, nat>::empty()
        &&& self.spec_cache_bytes() == 0
    }

    proof fn lemma_empty_cache_wf(&self)
        requires
            self.cache@.dom() == Set::<u32>::empty(),
            self.cache_order@ == Seq::<u32>::empty(),
            self.cache_bytes == 0,
        ensures
            self.cache_wf(),
            self.cached_cells() == Map::<u32, Seq<Seq<char>>>::empty(),
            self.cached_sizes() == Map::<u32, nat>::empty(),
    {
        assert(self.cached_cells() =~= Map::<u32, Seq<Seq<char>>>::empty());
        assert(self.cached_sizes() =~= Map::<u32, nat>::empty());
    }

    /// An engine with no file open.
    pub fn new() -> (r: Self)
        ensures
            r.wf(),
            r.is_closed(),
    {
        proof { crate::encoding::lemma_label_constants(); }
        let r = CsvEngine {
            data: None,
            file_path: String::new(),
            file_size: 0,
            offsets: RowOffsets::empty(),
            headers: Vec::new(),
            delimiter: ',',
            encoding: crate::encoding::ENCODING_UTF8.to_owned(),
            bom_offset: 0,
            cache: HashMap::with_capacity(CACHE_MAX_ROWS),
            cache_order: Vec::with_capacity(CACHE_MAX_ROWS),
            cache_bytes: 0,
        };
        proof {
            r.lemma_empty_cache_wf();
            assert(r.spec_headers() =~= Seq::<Seq<char>>::empty());
        }
        r
    }

    /// Empties the cache.
    fn clear_cache(&mut self)
        requires
            old(self).wf(),
        ensures
            final(self).wf(),
            final(self).same_file(old(self)),
            final(self).cache@ == Map::<u32, CachedRow>::empty(),
            final(self).cache_order@ == Seq::<u32>::empty(),
            final(self).cache_bytes == 0,
    {
        self.cache.clear();
        self.cache_order.clear();
        self.cache_bytes = 0;
        proof { self.lemma_empty_cache_wf(); }
    }

    /// Closes the file and forgets everything about it.
    pub fn close(&mut self)
        requires
            old(self).wf(),
        ensures
            final(self).wf(),
            final(self).is_closed(),
    {
        proof { crate::encoding::lemma_label_constants(); }
        self.data = None;
        self.cache.clear();
        self.cache_order.clear();
        self.cache_bytes = 0;
        self.offsets = RowOffsets::empty();
        self.headers.clear();
        self.file_path = String::new();
        self.file_size = 0;
        self.delimiter = ',';
        self.encoding = crate::encoding::ENCODING_UTF8.to_owned();
        self.bom_offset = 0;
        proof {
            self.lemma_empty_cache_wf();
            assert(self.spec_headers() =~= Seq::<Seq<char>>::empty());
        }
    }
}

/// The position of `key` in the use order, if it is there.
fn position_of(order: &Vec<u32>, key: u32) -> (r: Option<usize>)
    requires
        order@.no_duplicates(),
    ensures
        match r {
            Some(pos) => pos < order@.len() && order@[pos as int] == key && order@.index_of(key) == pos,
            None => !order@.contains(key),
        },
{
    let mut i: usize = 0;
    while i < order.len()
        invariant
            i <= order@.len(),
            order@.no_duplicates(),
            forall|j: int| 0 <= j < i ==> order@[j] != key,
        decreases order@.len() - i,
    {
        if order[i] == key {
            proof {
                assert(order@.contains(key));
                let p = order@.index_of(key);
                assert(order@[p] == key);
                assert(p == i as int);
            }
            return Some(i);
        }
        i += 1;
    }
    None
}

/// `String::capacity`: the bytes the string has room for, at least its length.
#[verifier::external_body]
fn string_capacity(s: &String) -> (r: usize)
    ensures
        r >= encode_utf8(s@).len(),
{
    s.capacity()
}

/// `std::mem::size_of_val` of a slice of strings: its length times the size
/// of one `String`.
#[verifier::external_body]
fn strings_size(cells: &[String]) -> (r: usize)
    ensures
        r == cells@.len() * vstd::layout::size_of::<String>(),
{
    std::mem::size_of_val(cells)
}

/// The sum of `caps`.
pub open spec fn sum_of(caps: Seq<usize>) -> int
    decreases caps.len(),
{
    if caps.len() == 0 {
        0
    } else {
        sum_of(caps.drop_last()) + caps.last()
    }
}

/// `n`, or `usize::MAX` where `n` is larger.
pub open spec fn saturated(n: int) -> int {
    if n > usize::MAX {
        usize::MAX as int
    } else {
        n
    }
}

/// Whether `caps` can be the room the strings of `cells` have: one entry per
/// string, each at least that string's length in UTF-8 bytes.
pub open spec fn room_for(caps: Seq<usize>, cells: Seq<String>) -> bool {
    &&& caps.len() == cells.len()
    &&& forall|i: int| 0 <= i < caps.len() ==> #[trigger] caps[i] >= encode_utf8(cells[i]@).len()
}

/// The bytes a record of `cells` is counted at when its strings have room
/// `caps`: the vector, its strings, and that room, added up and held at
/// `usize::MAX`.
pub open spec fn entry_size(caps: Seq<usize>, cells: Seq<String>) -> int {
    saturated(vstd::layout::size_of::<Vec<String>>() + cells.len() * vstd::layout::size_of::<String>() + sum_of(caps))
}

/// The bytes of the text of `cells` in UTF-8.
pub open spec fn text_bytes(cells: Seq<String>) -> int
    decreases cells.len(),
{
    if cells.len() == 0 {
        0
    } else {
        text_bytes(cells.drop_last()) + encode_utf8(cells.last()@).len()
    }
}

/// A record is counted at no fewer bytes than its text takes in UTF-8 (or at
/// `usize::MAX`).
pub proof fn lemma_entry_size_covers_text(caps: Seq<usize>, cells: Seq<String>)
    requires
        room_for(caps, cells),
    ensures
        entry_size(caps, cells) >= saturated(text_bytes(cells)),
        sum_of(caps) >= text_bytes(cells),
    decreases cells.len(),
{
    if cells.len() > 0 {
        let c2 = caps.drop_last();
        let s2 = cells.drop_last();
        assert(room_for(c2, s2)) by {
            assert forall|i: int| 0 <= i < c2.len() implies #[trigger] c2[i] >= encode_utf8(s2[i]@).len() by {
                assert(caps[i] >= encode_utf8(cells[i]@).len());
            }
        }
        lemma_entry_size_covers_text(c2, s2);
        assert(caps.last() >= encode_utf8(cells.last()@).len()) by {
            assert(caps[caps.len() - 1] >= encode_utf8(cells[cells.len() - 1]@).len());
        }
    }
}

/// The bytes a cached record is counted at (see [`entry_size`]); the room
/// each string has is decided by the allocator.
fn cache_entry_size(cells: &[String]) -> (r: usize)
    ensures
        exists|caps: Seq<usize>| #[trigger] room_for(caps, cells@) && r == entry_size(caps, cells@),
{
    let vec_size = std::mem::size_of::<Vec<String>>();
    let slots = strings_size(cells);
    let mut size = vec_size.saturating_add(slots);
    let ghost base: int = vec_size + slots;
    let ghost mut caps: Seq<usize> = Seq::empty();
    let mut i: usize = 0;
    while i < cells.len()
        invariant
            0 <= i <= cells@.len(),
            base == vstd::layout::size_of::<Vec<String>>() + cells@.len() * vstd::layout::size_of::<String>(),
            base >= 0,
            caps.len() == i,
            forall|j: int| 0 <= j < i ==> #[trigger] caps[j] >= encode_utf8(cells@[j]@).len(),
            size == saturated(base + sum_of(caps)),
        decreases cells@.len() - i,
    {
        let room = string_capacity(&cells[i]);
        proof {
            let next = caps.push(room);
            assert(next.drop_last() =~= caps);
            assert(sum_of(next) == sum_of(caps) + room);
            assert(sum_of(caps) >= 0) by { lemma_sum_of_nonnegative(caps); }
        }
        size = size.saturating_add(room);
        proof {
            caps = caps.push(room);
        }
        i += 1;
    }
    assert(room_for(caps, cells@));
    size
}

proof fn lemma_sum_of_nonnegative(caps: Seq<usize>)
    ensures
        sum_of(caps) >= 0,
    decreases caps.len(),
{
    if caps.len() > 0 {
        lemma_sum_of_nonnegative(caps.drop_last());
    }
}

/// The cache after `row_cells` was stored under `key` at `size` bytes: the
/// key becomes the most recently used, then the least recently used keys
/// leave until both budgets hold.
pub open spec fn cache_after_insert(
    order: Seq<u32>,
    sizes: Map<u32, nat>,
    cells: Map<u32, Seq<Seq<char>>>,
    key: u32,
    row_cells: Seq<Seq<char>>,
    size: nat,
) -> (Seq<u32>, Map<u32, nat>, Map<u32, Seq<Seq<char>>>) {
    let order1 = without_key(order, key).push(key);
    let sizes1 = sizes.insert(key, size);
    let kept = evict(order1, sizes1);
    (kept, sizes1.restrict(kept.to_set()), cells.insert(key, row_cells).restrict(kept.to_set()))
}

impl CsvEngine {
    /// The cached records' keys and sizes follow the map of cached rows.
    proof fn lemma_cache_views(&self)
        ensures
            self.cached_sizes().dom() == self.cache@.dom(),
            self.cached_cells().dom() == self.cache@.dom(),
    {
        assert(self.cached_sizes().dom() =~= self.cache@.dom());
        assert(self.cached_cells().dom() =~= self.cache@.dom());
    }

    /// Marks `key` as the most recently used.
    fn touch_cache(&mut self, key: u32)
        requires
            old(self).wf(),
        ensures
            final(self).wf(),
            final(self).same_file(old(self)),
            final(self).cache_order() == without_key(old(self).cache_order(), key).push(key),
            final(self).cache@ == old(self).cache@,
            final(self).cache_bytes == old(self).cache_bytes,
    {
        let ghost order0 = self.cache_order@;
        let ghost sizes = self.cached_sizes();
        match position_of(&self.cache_order, key) {
            Some(pos) => {
                self.cache_order.remove(pos);
                proof {
                    lemma_total_remove(order0, pos as int, sizes);
                }
            },
            None => {},
        }
        let ghost order1 = self.cache_order@;
        assert(order1 == without_key(order0, key));
        self.cache_order.push(key);
        proof {
            let order2 = self.cache_order@;
            assert(order2.drop_last() =~= order1);
            assert(order2.last() == key);
            // the key is now present exactly once
            assert(!order1.contains(key)) by {
                if order1.contains(key) {
                    let i = choose|i: int| 0 <= i < order1.len() && order1[i] == key;
                    if order0.contains(key) {
                        let p = order0.index_of(key);
                        if i < p {
                            assert(order0[i] == key);
                        } else {
                            assert(order0[i + 1] == key);
                        }
                    } else {
                        assert(order0[i] == key);
                    }
                }
            }
            assert forall|a: int, b: int| 0 <= a < b < order2.len() implies order2[a] != order2[b] by {
                if b == order2.len() - 1 {
                    assert(order1[a] == order2[a]);
                    assert(order1.contains(order2[a]));
                } else if order0.contains(key) {
                    let p = order0.index_of(key);
                    let a0 = if a < p { a } else { a + 1 };
                    let b0 = if b < p { b } else { b + 1 };
                    assert(order0[a0] == order2[a] && order0[b0] == order2[b]);
                } else {
                    assert(order0[a] == order2[a] && order0[b] == order2[b]);
                }
            }
            assert forall|k: u32| #[trigger] self.cache@.contains_key(k) implies order2.contains(k) by {
                assert(order0.contains(k));
                let i = choose|i: int| 0 <= i < order0.len() && order0[i] == k;
                if k == key {
                    assert(order2[order2.len() - 1] == k);
                } else if order0.contains(key) {
                    let p = order0.index_of(key);
                    if i < p {
                        assert(order2[i] == k);
                    } else {
                        assert(i != p);
                        assert(order2[i - 1] == k);
                    }
                } else {
                    assert(order2[i] == k);
                }
            }
            assert(total_size(order2, sizes) == total_size(order1, sizes) + size_of_key(sizes, key));
            if !order0.contains(key) {
                assert(!self.cache@.contains_key(key));
                assert(!sizes.contains_key(key));
            }
        }
    }

    /// Stores the cells of record `key` as the most recently used, then
    /// drops the least recently used records until at most
    /// [`CACHE_MAX_ROWS`] are kept within [`CACHE_MAX_BYTES`] bytes (see
    /// [`cache_after_insert`]). The record is counted at [`entry_size`]
    /// bytes, never fewer than its text takes in UTF-8 (see
    /// [`lemma_entry_size_covers_text`]); a record larger than the whole byte
    /// budget leaves the cache empty.
    pub fn add_to_cache(&mut self, key: u32, data: Vec<String>)
        requires
            old(self).wf(),
            old(self).spec_open() ==> 1 <= key < old(self).spec_offsets().len()
                && data.deep_view() == old(self).spec_row_cells(key as int),
        ensures
            final(self).wf(),
            final(self).same_file(old(self)),
            exists|caps: Seq<usize>| #[trigger] room_for(caps, data@)
                && (final(self).cache_order(), final(self).cached_sizes(), final(self).cached_cells())
                == cache_after_insert(
                    old(self).cache_order(),
                    old(self).cached_sizes(),
                    old(self).cached_cells(),
                    key,
                    data.deep_view(),
                    entry_size(caps, data@) as nat,
                ),
    {
        let data_size = cache_entry_size(data.as_slice());
        let ghost caps = choose|caps: Seq<usize>| #[trigger] room_for(caps, data@) && data_size == entry_size(caps, data@);
        assert(room_for(caps, data@) && data_size == entry_size(caps, data@));
        let ghost row_cells = data.deep_view();
        let ghost order0 = self.cache_order@;
        let ghost sizes0 = self.cached_sizes();
        let ghost cells0 = self.cached_cells();
        let ghost sizes1 = sizes0.insert(key, data_size as nat);
        let ghost cells1 = cells0.insert(key, row_cells);
        let ghost order1 = without_key(order0, key).push(key);
        let ghost target = evict(order1, sizes1);
        // the key's previous record leaves first
        let previous = self.cache.remove(&key);
        match previous {
            Some(prev) => {
                proof {
                    assert(order0.contains(key));
                    let p = order0.index_of(key);
                    lemma_total_remove(order0, p, sizes0);
                    lemma_total_remove(order0, p, self.cached_sizes());
                    assert forall|k: u32| #[trigger] order0.remove(p).contains(k)
                        implies size_of_key(sizes0, k) == size_of_key(self.cached_sizes(), k) by {
                        let i = choose|i: int| 0 <= i < order0.remove(p).len() && order0.remove(p)[i] == k;
                        if i < p {
                            assert(order0[i] == k);
                        } else {
                            assert(order0[i + 1] == k);
                        }
                        assert(k != key);
                    }
                    lemma_total_agree(order0.remove(p), sizes0, self.cached_sizes());
                    assert(!self.cached_sizes().contains_key(key));
                    self.lemma_cache_views();
                    assert(self.cache@.dom() =~= old(self).cache@.dom().remove(key));
                    vstd::set_lib::lemma_len_subset(self.cache@.dom(), old(self).cache@.dom());
                }
                self.cache_bytes = self.cache_bytes - prev.size;
            },
            None => {
                proof {
                    assert(self.cache@ == old(self).cache@);
                }
            },
        }
        assert(self.cached_sizes() =~= sizes0.remove(key));
        self.touch_cache(key);
        assert(self.cache_order@ == order1);
        if data_size > CACHE_MAX_BYTES {
            proof {
                assert(order1.last() == key);
                lemma_evict_oversized(order1, sizes1);
            }
            self.clear_cache();
            proof {
                assert(target.to_set() =~= Set::<u32>::empty());
                assert(self.cached_sizes() =~= sizes1.restrict(target.to_set()));
                assert(self.cached_cells() =~= cells1.restrict(target.to_set()));
                assert(self.cache_order@ =~= target);
                assert((self.cache_order(), self.cached_sizes(), self.cached_cells())
                    == cache_after_insert(old(self).cache_order(), old(self).cached_sizes(), old(self).cached_cells(), key, row_cells, data_size as nat));
            }
            return;
        }
        let ghost before_insert = self.cache@;
        self.cache.insert(key, CachedRow { cells: data, size: data_size });
        proof {
            let base = order1.drop_last();
            assert(order1.last() == key);
            assert(!base.contains(key)) by {
                let w = without_key(order0, key);
                assert(base =~= w);
                if w.contains(key) {
                    let i = choose|i: int| 0 <= i < w.len() && w[i] == key;
                    if order0.contains(key) {
                        let p = order0.index_of(key);
                        if i < p { assert(order0[i] == key); } else { assert(order0[i + 1] == key); }
                    } else {
                        assert(order0[i] == key);
                    }
                }
            }
            assert forall|k: u32| #[trigger] base.contains(k)
                implies size_of_key(sizes0.remove(key), k) == size_of_key(sizes1, k) by {}
            lemma_total_agree(base, sizes0.remove(key), sizes1);
            assert(self.cached_sizes() =~= sizes1);
            assert(self.cached_cells() =~= cells1);
        }
        self.cache_bytes = self.cache_bytes + data_size;
        let ghost map1 = self.cache@;
        proof {
            lemma_evict_suffix(order1, sizes1);
        }
        while self.cache_order.len() > CACHE_MAX_ROWS || self.cache_bytes > CACHE_MAX_BYTES
            invariant
                self.same_file(old(self)),
                self.bom_offset <= 3,
                self.cache_order@.no_duplicates(),
                self.cache_order@.len() <= order1.len(),
                self.cache_order@ == order1.skip(order1.len() - self.cache_order@.len()),
                evict(self.cache_order@, sizes1) == target,
                self.cache_bytes as nat == total_size(self.cache_order@, sizes1),
                forall|k: u32| #[trigger] self.cache@.contains_key(k)
                    <==> (map1.contains_key(k) && self.cache_order@.contains(k)),
                forall|k: u32| #[trigger] self.cache@.contains_key(k) ==> self.cache@[k] == map1[k],
                forall|k: u32| #[trigger] map1.contains_key(k) ==> sizes1.contains_key(k) && map1[k].size == sizes1[k]
                    && map1[k].cells.deep_view() == cells1[k],
                forall|k: u32| #[trigger] sizes1.contains_key(k) ==> map1.contains_key(k),
            decreases self.cache_order@.len(),
        {
            let ghost order = self.cache_order@;
            let oldest = self.cache_order[0];
            self.cache_order.remove(0);
            proof {
                lemma_skip_first_distinct(order);
                assert(self.cache_order@ =~= order.skip(1));
                assert(order.remove(0) =~= order.skip(1));
                lemma_total_remove(order, 0, sizes1);
                assert(order1.skip(order1.len() - order.skip(1).len()) =~= order.skip(1));
                assert(evict(order, sizes1) == evict(order.skip(1), sizes1));
            }
            let removed = self.cache.remove(&oldest);
            match removed {
                Some(r) => {
                    assert(map1.contains_key(oldest));
                    self.cache_bytes = self.cache_bytes - r.size;
                },
                None => {
                    assert(!sizes1.contains_key(oldest));
                },
            }
            proof {
                assert forall|k: u32| #[trigger] self.cache@.contains_key(k)
                    <==> (map1.contains_key(k) && self.cache_order@.contains(k)) by {
                    if order.skip(1).contains(k) {
                        let i = choose|i: int| 0 <= i < order.skip(1).len() && order.skip(1)[i] == k;
                        assert(order[i + 1] == k);
                        assert(order.contains(k));
                    }
                    if order.contains(k) && k != oldest {
                        let i = choose|i: int| 0 <= i < order.len() && order[i] == k;
                        assert(i != 0);
                        assert(order.skip(1)[i - 1] == k);
                    }
                }
            }
        }
        proof {
            let kept = self.cache_order@;
            assert(kept == target);
            assert forall|k: u32| self.cached_sizes().contains_key(k) <==> sizes1.restrict(target.to_set()).contains_key(k) by {}
            assert(self.cached_sizes() =~= sizes1.restrict(target.to_set()));
            assert(self.cached_cells() =~= cells1.restrict(target.to_set()));
            lemma_evict_suffix(order1, sizes1);
            assert forall|k: u32| #[trigger] self.cache_order@.contains(k)
                implies size_of_key(self.cached_sizes(), k) == size_of_key(sizes1, k) by {}
            lemma_total_agree(kept, self.cached_sizes(), sizes1);
            assert(self.cache@.dom().subset_of(kept.to_set()));
            kept.lemma_cardinality_of_set();
            vstd::set_lib::lemma_len_subset(self.cache@.dom(), kept.to_set());
            assert forall|k: u32| #[trigger] self.cache@.contains_key(k) implies self.cache_order@.contains(k) by {}
            assert((self.cache_order(), self.cached_sizes(), self.cached_cells())
                == cache_after_insert(old(self).cache_order(), old(self).cached_sizes(), old(self).cached_cells(), key, row_cells, data_size as nat));
        }
    }
}

// ─── Reading records ────────────────────────────────────────────────────────

/// How many records a read of `count` records from data row `start_row` on
/// returns, in a file whose index has `slots` entries (the header first).
pub open spec fn rows_shown(start_row: int, count: int, slots: int) -> int {
    if start_row + 1 >= slots {
        0
    } else if count < slots - 1 - start_row {
        count
    } else {
        slots - 1 - start_row
    }
}

/// Whether counting data rows from `start_row` stays within 32 bits until a
/// read of `count` records stops (at its count or at the last record).
pub open spec fn rows_countable(start_row: int, count: int, slots: int) -> bool {
    ||| count == 0
    ||| start_row + count <= u32::MAX
    ||| (start_row < u32::MAX && slots <= u32::MAX)
}

/// `cells` with `value` in column `col`, padded with empty cells as needed.
pub open spec fn edited_cells(cells: Seq<Seq<char>>, col: int, value: Seq<char>) -> Seq<Seq<char>> {
    let padded = if cells.len() > col {
        cells
    } else {
        cells + Seq::new((col + 1 - cells.len()) as nat, |i: int| Seq::<char>::empty())
    };
    padded.update(col, value)
}

/// The cells of the chosen columns, empty for a column the record lacks.
pub open spec fn selected_cells(cells: Seq<Seq<char>>, cols: Seq<u32>) -> Seq<Seq<char>> {
    Seq::new(cols.len(), |k: int| if cols[k] < cells.len() { cells[cols[k] as int] } else { Seq::empty() })
}

/// One line of an export: the chosen columns, quoted as needed and joined by
/// commas.
pub open spec fn export_line(cells: Seq<Seq<char>>, cols: Seq<u32>) -> Seq<char> {
    join_row(selected_cells(cells, cols), ',')
}

/// What an edit of one cell writes into the file: the record's byte range,
/// the record written anew, and the line ending it had.
pub struct CellEdit {
    pub row_start: usize,
    pub row_end: usize,
    pub replacement: String,
    pub line_ending: Vec<u8>,
}

/// A copy of some strings.
fn copy_strings(cells: &[String]) -> (r: Vec<String>)
    ensures
        r.deep_view() == cells.deep_view(),
{
    let mut r: Vec<String> = Vec::new();
    let mut i: usize = 0;
    while i < cells.len()
        invariant
            i <= cells@.len(),
            r.deep_view() == cells.deep_view().take(i as int),
        decreases cells@.len() - i,
    {
        let copy = cells[i].as_str().to_owned();
        assert(copy@ == cells.deep_view()[i as int]);
        let ghost before = r.deep_view();
        r.push(copy);
        assert(r.deep_view() =~= before.push(copy@));
        assert(r.deep_view() =~= cells.deep_view().take(i as int + 1));
        i += 1;
    }
    assert(cells.deep_view().take(cells@.len() as int) =~= cells.deep_view());
    r
}

/// `Path::file_name`, read as text: the last component of a path (a stretch
/// of the path's own text), or nothing when the path ends in `..` or is a
/// root. For a [`plain_path`] it is the text after the last `/`; for other
/// paths, where the platform's separators and prefixes decide the
/// components, which stretch it is is not stated.
#[verifier::external_body]
fn path_file_name(path: &str) -> (r: Option<String>)
    ensures
        r matches Some(name) ==> is_part_of(name@, path@),
        plain_path(path@) ==> r is Some && r->0@ == last_component(path@),
{
    std::path::Path::new(path).file_name().map(|name| name.to_string_lossy().into_owned())
}

/// `slice::sort_by_key` on the data row of (position, row) pairs, which is
/// stable: equal rows keep the order of their positions.
#[verifier::external_body]
fn sort_by_row(pairs: &mut Vec<(usize, u32)>)
    requires
        forall|i: int| 0 <= i < old(pairs)@.len() ==> #[trigger] old(pairs)@[i].0 == i,
    ensures
        final(pairs)@.to_multiset() == old(pairs)@.to_multiset(),
        forall|i: int, j: int| 0 <= i < j < final(pairs)@.len()
            ==> #[trigger] final(pairs)@[i].1 <= #[trigger] final(pairs)@[j].1,
        forall|i: int, j: int| 0 <= i < j < final(pairs)@.len() && final(pairs)@[i].1 == final(pairs)@[j].1
            ==> #[trigger] final(pairs)@[i].0 < #[trigger] final(pairs)@[j].0,
{
    pairs.sort_by_key(|pair| pair.1);
}

/// A cache update: mark a record used, or store its parsed cells.
pub type CacheUpdate = (u32, Option<Vec<String>>);

/// One cache update applied to the cache's use order, sizes and cells: a
/// stored record goes in as by [`cache_after_insert`], at the size its entry
/// is counted at ([`entry_size`]); a used record becomes the most recently
/// used.
pub open spec fn cache_step(
    before: (Seq<u32>, Map<u32, nat>, Map<u32, Seq<Seq<char>>>),
    update: CacheUpdate,
    after: (Seq<u32>, Map<u32, nat>, Map<u32, Seq<Seq<char>>>),
) -> bool {
    match update.1 {
        Some(cells) => exists|caps: Seq<usize>| #[trigger] room_for(caps, cells@) && after == cache_after_insert(
            before.0, before.1, before.2, update.0, cells.deep_view(), entry_size(caps, cells@) as nat),
        None => after == (without_key(before.0, update.0).push(update.0), before.1, before.2),
    }
}

/// The cache after `updates` were applied to `start` in order.
pub open spec fn cache_after_updates(
    start: (Seq<u32>, Map<u32, nat>, Map<u32, Seq<Seq<char>>>),
    updates: Seq<CacheUpdate>,
    end: (Seq<u32>, Map<u32, nat>, Map<u32, Seq<Seq<char>>>),
) -> bool
    decreases updates.len(),
{
    if updates.len() == 0 {
        end == start
    } else {
        exists|mid: (Seq<u32>, Map<u32, nat>, Map<u32, Seq<Seq<char>>>)|
            cache_after_updates(start, updates.drop_last(), mid) && #[trigger] cache_step(mid, updates.last(), end)
    }
}

impl CsvEngine {
    /// What the engine's invariant says of an open file: its index is the
    /// index of its bytes from the mark on in its encoding, its size is its
    /// length, and its delimiter is one of the candidates.
    pub proof fn lemma_open_file(&self)
        requires
            self.wf(),
            self.spec_open(),
        ensures
            self.spec_offsets() == spec_build_index(self.spec_bytes(), self.spec_bom(), self.spec_encoding()),
            self.spec_file_size() == self.spec_bytes().len(),
            self.spec_bytes().len() <= usize::MAX / 8,
            is_delimiter_candidate(self.spec_delimiter()),
    {
    }

    /// The facts about the index of an open file that reads rely on.
    proof fn lemma_open_offsets(&self)
        requires
            self.wf(),
            self.spec_open(),
        ensures
            self.offsets@.len() >= 1,
            self.file_size <= usize::MAX / 8,
            self.file_size == self.spec_bytes().len(),
            forall|k: int| 1 <= k < self.offsets@.len() ==> #[trigger] self.offsets@[k] <= self.file_size,
            forall|k: int| 1 <= k < self.offsets@.len() ==> #[trigger] self.offsets@[k] < self.file_size,
            forall|i: int, j: int| 0 <= i < j < self.offsets@.len() ==> #[trigger] self.offsets@[i] < #[trigger] self.offsets@[j],
            self.offsets@[0] == self.bom_offset,
    {
        law_index_ascending(self.spec_bytes(), self.bom_offset, self.encoding@);
    }

    /// Applies cache updates in order: a stored record is added, a used one
    /// is marked most recently used.
    fn apply_cache_updates(&mut self, updates: &mut std::collections::VecDeque<CacheUpdate>)
        requires
            old(self).wf(),
            old(self).spec_open(),
            forall|j: int| 0 <= j < old(updates)@.len() ==> match #[trigger] old(updates)@[j].1 {
                Some(cells) => 1 <= old(updates)@[j].0 < old(self).spec_offsets().len()
                    && cells.deep_view() == old(self).spec_row_cells(old(updates)@[j].0 as int),
                None => true,
            },
        ensures
            final(self).wf(),
            final(self).same_file(old(self)),
            final(updates)@.len() == 0,
            cache_after_updates(
                (old(self).cache_order(), old(self).cached_sizes(), old(self).cached_cells()),
                old(updates)@,
                (final(self).cache_order(), final(self).cached_sizes(), final(self).cached_cells()),
            ),
    {
        let ghost start = (self.cache_order(), self.cached_sizes(), self.cached_cells());
        let ghost mut done: Seq<CacheUpdate> = Seq::empty();
        assert(cache_after_updates(start, done, start));
        while updates.len() > 0
            invariant
                self.wf(),
                self.spec_open(),
                self.same_file(old(self)),
                start == (old(self).cache_order(), old(self).cached_sizes(), old(self).cached_cells()),
                old(updates)@ == done + updates@,
                cache_after_updates(start, done, (self.cache_order(), self.cached_sizes(), self.cached_cells())),
                forall|j: int| 0 <= j < updates@.len() ==> match #[trigger] updates@[j].1 {
                    Some(cells) => 1 <= updates@[j].0 < self.spec_offsets().len()
                        && cells.deep_view() == self.spec_row_cells(updates@[j].0 as int),
                    None => true,
                },
            decreases updates@.len(),
        {
            let ghost before = updates@;
            let ghost mid = (self.cache_order(), self.cached_sizes(), self.cached_cells());
            let next = updates.pop_front();
            match next {
                Some((key, Some(cells))) => {
                    assert(before[0].1 is Some);
                    let ghost row_cells = cells.deep_view();
                    let ghost cells_view = cells@;
                    self.add_to_cache(key, cells);
                    proof {
                        let caps = choose|caps: Seq<usize>| #[trigger] room_for(caps, cells_view)
                            && (self.cache_order(), self.cached_sizes(), self.cached_cells())
                            == cache_after_insert(mid.0, mid.1, mid.2, key, row_cells, entry_size(caps, cells_view) as nat);
                        assert(room_for(caps, cells_view));
                    }
                },
                Some((key, None)) => {
                    self.touch_cache(key);
                    proof {
                        self.lemma_cache_views();
                        assert(self.cached_sizes() =~= mid.1);
                        assert(self.cached_cells() =~= mid.2);
                    }
                },
                None => {},
            }
            proof {
                let now = (self.cache_order(), self.cached_sizes(), self.cached_cells());
                assert(cache_step(mid, before[0], now));
                let done2 = done.push(before[0]);
                assert(done2.drop_last() =~= done);
                assert(done2.last() == before[0]);
                assert(cache_after_updates(start, done2.drop_last(), mid) && cache_step(mid, done2.last(), now));
                assert(cache_after_updates(start, done2, now));
                assert(old(updates)@ =~= done2 + updates@);
                done = done2;
            }
            assert forall|j: int| 0 <= j < updates@.len() implies match #[trigger] updates@[j].1 {
                Some(cells) => 1 <= updates@[j].0 < self.spec_offsets().len()
                    && cells.deep_view() == self.spec_row_cells(updates@[j].0 as int),
                None => true,
            } by {
                assert(updates@[j] == before[j + 1]);
            }
        }
    }

    /// Reads `count` data rows from `start_row` on (data row `r` is record
    /// `r + 1`; the header is record 0), showing columns
    /// `col_start .. col_start + col_count` of each (see [`shows_columns`]).
    /// The read stops at the last record. Records read from the file are
    /// cached; cached ones are marked used.
    pub fn get_rows(&mut self, start_row: u32, count: u32, col_start: u32, col_count: u32) -> (r: Result<Vec<RowData>, String>)
        requires
            old(self).wf(),
            rows_countable(start_row as int, count as int, old(self).spec_offsets().len() as int),
        ensures
            final(self).wf(),
            final(self).same_file(old(self)),
            !old(self).spec_open() ==> (r matches Err(e) && e@ == "No file open"@),
            old(self).spec_open() ==> (r matches Ok(rows) && rows@.len() == rows_shown(
                start_row as int,
                count as int,
                old(self).spec_offsets().len() as int,
            ) && forall|i: int| 0 <= i < rows@.len() ==> shows_columns(
                #[trigger] rows@[i],
                old(self).spec_row_cells(start_row + i + 1),
                col_start as int,
                col_count as int,
            )),
            old(self).spec_open() ==> exists|updates: Seq<CacheUpdate>| #[trigger] reads_rows(
                updates,
                start_row + 1,
                old(self).cached_cells().dom(),
                *old(self),
            ) && updates.len() == rows_shown(start_row as int, count as int, old(self).spec_offsets().len() as int)
                && cache_after_updates(
                (old(self).cache_order(), old(self).cached_sizes(), old(self).cached_cells()),
                updates,
                (final(self).cache_order(), final(self).cached_sizes(), final(self).cached_cells()),
            ),
            !old(self).spec_open() ==> *final(self) == *old(self),
    {
        let delimiter = self.delimiter;
        let mut results: Vec<RowData> = Vec::new();
        let mut updates: std::collections::VecDeque<CacheUpdate> = std::collections::VecDeque::new();
        let data = match &self.data {
            Some(d) => d.as_slice(),
            None => {
                return Err("No file open".to_owned());
            },
        };
        proof { self.lemma_open_offsets(); }
        let slots = self.offsets.len();
        let mut i: u32 = 0;
        while i < count && (start_row as u64 + i as u64 + 1) < slots as u64
            invariant
                self.wf(),
                self.spec_open(),
                data@ == self.spec_bytes(),
                slots == self.offsets@.len(),
                self.offsets@.len() >= 1,
                self.file_size == data@.len(),
                data@.len() <= usize::MAX / 8,
                forall|k: int| 1 <= k < self.offsets@.len() ==> #[trigger] self.offsets@[k] <= self.file_size,
                self.offsets@[0] == self.bom_offset,
                self.bom_offset <= 3,
                delimiter == self.delimiter,
                rows_countable(start_row as int, count as int, slots as int),
                i <= count,
                i > 0 ==> start_row + i < slots,
                results@.len() == i,
                updates@.len() == i,
                forall|j: int| 0 <= j < i ==> shows_columns(
                    #[trigger] results@[j],
                    self.spec_row_cells(start_row + j + 1),
                    col_start as int,
                    col_count as int,
                ),
                forall|j: int| 0 <= j < i ==> (#[trigger] updates@[j]).0 == start_row + j + 1 && match updates@[j].1 {
                    Some(cells) => cells.deep_view() == self.spec_row_cells(start_row + j + 1),
                    None => true,
                },
                *self == *old(self),
                reads_rows(updates@, start_row + 1, old(self).cached_cells().dom(), *old(self)),
            decreases count - i,
        {
            let row_idx = start_row + i + 1;
            proof { self.lemma_cache_views(); }
            match self.cache.get(&row_idx) {
                Some(cached) => {
                    updates.push_back((row_idx, None));
                    results.push(row_data_for_columns(cached.cells.as_slice(), col_start, col_count));
                },
                None => {
                    let text = read_row_text(data, &self.offsets, row_idx as usize, self.file_size, self.encoding.as_str());
                    let parsed = parse_csv_line(text.as_str(), delimiter);
                    let row_data = row_data_for_columns(parsed.as_slice(), col_start, col_count);
                    updates.push_back((row_idx, Some(parsed)));
                    results.push(row_data);
                },
            }
            i += 1;
        }
        proof {
            assert forall|j: int| 0 <= j < updates@.len() implies match #[trigger] updates@[j].1 {
                Some(cells) => 1 <= updates@[j].0 < self.spec_offsets().len()
                    && cells.deep_view() == self.spec_row_cells(updates@[j].0 as int),
                None => true,
            } by {
                assert(updates@[j].0 == start_row + j + 1);
                assert(j + 1 <= i);
            }
            assert(updates@.len() == rows_shown(start_row as int, count as int, slots as int));
        }
        let ghost made = updates@;
        self.apply_cache_updates(&mut updates);
        proof {
            assert(reads_rows(made, start_row + 1, old(self).cached_cells().dom(), *old(self)));
        }
        Ok(results)
    }
}

/// A read returns every row asked for that exists: when data rows
/// `start_row .. start_row + count` all exist (data row `r` is record
/// `r + 1`, after the header), exactly `count` rows; when the file ends
/// first, every row from `start_row` to the last one; and none past the end.
pub proof fn law_read_returns_every_row_asked(e: CsvEngine, start_row: int, count: int)
    requires
        0 <= start_row,
        0 <= count,
        e.spec_offsets().len() >= 1,
    ensures
        ({
            let data_rows = e.spec_offsets().len() - 1;
            &&& start_row + count <= data_rows ==> rows_shown(start_row, count, e.spec_offsets().len() as int) == count
            &&& start_row < data_rows < start_row + count
                ==> rows_shown(start_row, count, e.spec_offsets().len() as int) == data_rows - start_row
            &&& data_rows <= start_row ==> rows_shown(start_row, count, e.spec_offsets().len() as int) == 0
        }),
{
}

/// Whether `updates` are the cache updates a read of the records
/// `first, first + 1, ...` makes: a record that `cached` holds is marked
/// used, any other is stored with its cells.
pub open spec fn reads_rows(updates: Seq<CacheUpdate>, first: int, cached: Set<u32>, e: CsvEngine) -> bool {
    forall|j: int| 0 <= j < updates.len() ==> {
        &&& (#[trigger] updates[j]).0 == first + j
        &&& (updates[j].1 is None <==> cached.contains(updates[j].0))
        &&& (updates[j].1 matches Some(cells) ==> cells.deep_view() == e.spec_row_cells(first + j))
    }
}

/// Whether `updates` are the cache updates a read of the data rows
/// `indices` makes: one for each requested row inside the file (record
/// `row + 1`), in row order, and none for a record not requested; a record
/// that `cached` holds is marked used, any other is stored with its cells.
pub open spec fn reads_indexed_rows(
    updates: Seq<CacheUpdate>,
    indices: Seq<u32>,
    cached: Set<u32>,
    e: CsvEngine,
) -> bool {
    &&& forall|j: int| 0 <= j < updates.len() ==> {
        &&& (#[trigger] updates[j]).0 < e.spec_offsets().len()
        &&& exists|m: int| 0 <= m < indices.len() && updates[j].0 == indices[m] + 1
        &&& (updates[j].1 is None <==> cached.contains(updates[j].0))
        &&& (updates[j].1 matches Some(cells) ==> cells.deep_view() == e.spec_row_cells(updates[j].0 as int))
    }
    &&& forall|i: int, j: int| 0 <= i < j < updates.len() ==> (#[trigger] updates[i]).0 <= (#[trigger] updates[j]).0
    &&& forall|m: int| 0 <= m < indices.len() && indices[m] + 1 < e.spec_offsets().len()
        ==> exists|j: int| 0 <= j < updates.len() && #[trigger] updates[j].0 == indices[m] + 1
}

/// The cells a lookup by data row gives: those of record `row + 1`, or none
/// past the last record.
pub open spec fn cells_or_empty(e: CsvEngine, row: u32) -> Seq<Seq<char>> {
    if row + 1 < e.spec_offsets().len() {
        e.spec_row_cells(row + 1)
    } else {
        Seq::empty()
    }
}

impl CsvEngine {
    /// Reads the data rows at `indices` (data row `r` is record `r + 1`),
    /// all columns; a row past the last record gives no cells. Records are
    /// visited in row order, so the cache learns them in that order.
    pub fn get_rows_by_index(&mut self, indices: &[u32]) -> (r: Result<Vec<Vec<String>>, String>)
        requires
            old(self).wf(),
            old(self).spec_open() ==> forall|k: int| 0 <= k < indices@.len() ==> #[trigger] indices@[k] < u32::MAX,
        ensures
            final(self).wf(),
            final(self).same_file(old(self)),
            indices@.len() == 0 ==> (r matches Ok(rows) && rows@.len() == 0),
            indices@.len() > 0 && !old(self).spec_open() ==> (r matches Err(e) && e@ == "No file open"@),
            indices@.len() > 0 && old(self).spec_open() ==> (r matches Ok(rows) && rows@.len() == indices@.len()
                && forall|k: int| 0 <= k < rows@.len() ==> #[trigger] rows@[k].deep_view() == cells_or_empty(*old(self), indices@[k])),
            indices@.len() > 0 && old(self).spec_open() ==> exists|updates: Seq<CacheUpdate>| #[trigger] reads_indexed_rows(
                updates,
                indices@,
                old(self).cached_cells().dom(),
                *old(self),
            ) && cache_after_updates(
                (old(self).cache_order(), old(self).cached_sizes(), old(self).cached_cells()),
                updates,
                (final(self).cache_order(), final(self).cached_sizes(), final(self).cached_cells()),
            ),
            indices@.len() == 0 || !old(self).spec_open() ==> *final(self) == *old(self),
    {
        if indices.len() == 0 {
            return Ok(Vec::new());
        }
        let delimiter = self.delimiter;
        let n = indices.len();
        let mut sorted: Vec<(usize, u32)> = Vec::new();
        let mut k: usize = 0;
        while k < n
            invariant
                k <= n,
                n == indices@.len(),
                sorted@.len() == k,
                forall|j: int| 0 <= j < k ==> #[trigger] sorted@[j] == (j as usize, indices@[j]),
            decreases n - k,
        {
            sorted.push((k, indices[k]));
            k += 1;
        }
        let ghost unsorted = sorted@;
        sort_by_row(&mut sorted);
        proof {
            assert forall|j: int| 0 <= j < sorted@.len() implies #[trigger] sorted@[j].0 < n
                && sorted@[j].1 == indices@[sorted@[j].0 as int] by {
                broadcast use vstd::seq_lib::group_to_multiset_ensures;
                assert(sorted@.contains(sorted@[j]));
                assert(sorted@.to_multiset().count(sorted@[j]) > 0);
                assert(unsorted.contains(sorted@[j]));
            }
        }
        let mut results: Vec<Option<Vec<String>>> = Vec::new();
        let mut k: usize = 0;
        while k < n
            invariant
                k <= n,
                results@.len() == k,
                forall|j: int| 0 <= j < k ==> #[trigger] results@[j] is None,
            decreases n - k,
        {
            results.push(None);
            k += 1;
        }
        let mut updates: std::collections::VecDeque<CacheUpdate> = std::collections::VecDeque::new();
        let data = match &self.data {
            Some(d) => d.as_slice(),
            None => {
                return Err("No file open".to_owned());
            },
        };
        proof { self.lemma_open_offsets(); }
        let slots = self.offsets.len();
        let mut t: usize = 0;
        let ghost mut src: Seq<int> = Seq::empty();
        let ghost mut pos: Seq<int> = Seq::empty();
        while t < sorted.len()
            invariant
                self.wf(),
                self.spec_open(),
                data@ == self.spec_bytes(),
                slots == self.offsets@.len(),
                self.offsets@.len() >= 1,
                self.file_size == data@.len(),
                data@.len() <= usize::MAX / 8,
                forall|k: int| 1 <= k < self.offsets@.len() ==> #[trigger] self.offsets@[k] <= self.file_size,
                self.offsets@[0] == self.bom_offset,
                self.bom_offset <= 3,
                delimiter == self.delimiter,
                t <= sorted@.len(),
                n == indices@.len(),
                results@.len() == n,
                forall|j: int| 0 <= j < indices@.len() ==> #[trigger] indices@[j] < u32::MAX,
                forall|j: int| 0 <= j < sorted@.len() ==> #[trigger] sorted@[j].0 < n
                    && sorted@[j].1 == indices@[sorted@[j].0 as int],
                forall|j: int| 0 <= j < n ==> match #[trigger] results@[j] {
                    Some(cells) => indices@[j] + 1 < slots && cells.deep_view() == self.spec_row_cells(indices@[j] + 1),
                    None => true,
                },
                forall|j: int| 0 <= j < updates@.len() ==> match #[trigger] updates@[j].1 {
                    Some(cells) => 1 <= updates@[j].0 < slots
                        && cells.deep_view() == self.spec_row_cells(updates@[j].0 as int),
                    None => true,
                },
                forall|t2: int| 0 <= t2 < t ==> (#[trigger] sorted@[t2]).1 + 1 >= slots
                    || results@[sorted@[t2].0 as int] is Some,
                *self == *old(self),
                forall|i: int, j: int| 0 <= i < j < sorted@.len() ==> #[trigger] sorted@[i].1 <= #[trigger] sorted@[j].1,
                src.len() == updates@.len(),
                forall|j: int| 0 <= j < updates@.len() ==> 0 <= #[trigger] src[j] < t
                    && updates@[j].0 == sorted@[src[j]].1 + 1,
                pos.len() == t,
                forall|t2: int| 0 <= t2 < t && (#[trigger] sorted@[t2]).1 + 1 < slots ==> 0 <= pos[t2] < updates@.len()
                    && updates@[pos[t2]].0 == sorted@[t2].1 + 1,
                forall|j: int| 0 <= j < updates@.len() ==> (#[trigger] updates@[j]).0 < slots
                    && (updates@[j].1 is None <==> old(self).cached_cells().dom().contains(updates@[j].0)),
                forall|i: int, j: int| 0 <= i < j < updates@.len() ==> (#[trigger] updates@[i]).0 <= (#[trigger] updates@[j]).0,
            decreases sorted@.len() - t,
        {
            let (orig_idx, data_row) = sorted[t];
            let offset_idx = data_row + 1;
            proof { self.lemma_cache_views(); }
            let ghost before = updates@;
            if (offset_idx as usize) < slots {
                proof {
                    assert forall|j: int| 0 <= j < before.len() implies before[j].0 <= offset_idx by {
                        assert(src[j] < t);
                        assert(sorted@[src[j]].1 <= sorted@[t as int].1);
                    }
                }
                match self.cache.get(&offset_idx) {
                    Some(cached) => {
                        updates.push_back((offset_idx, None));
                        results.set(orig_idx, Some(copy_strings(cached.cells.as_slice())));
                    },
                    None => {
                        let text = read_row_text(data, &self.offsets, offset_idx as usize, self.file_size, self.encoding.as_str());
                        let parsed = parse_csv_line(text.as_str(), delimiter);
                        let kept = copy_strings(parsed.as_slice());
                        updates.push_back((offset_idx, Some(kept)));
                        results.set(orig_idx, Some(parsed));
                    },
                }
                proof {
                    src = src.push(t as int);
                    pos = pos.push(before.len() as int);
                    assert(updates@ =~= before.push(updates@[before.len() as int]));
                }
            } else {
                proof {
                    pos = pos.push(0);
                }
            }
            t += 1;
        }
        proof {
            broadcast use vstd::seq_lib::group_to_multiset_ensures;
            assert forall|j: int| 0 <= j < n implies #[trigger] results@[j] is Some || indices@[j] + 1 >= slots by {
                assert(unsorted[j] == (j as usize, indices@[j]));
                assert(unsorted.contains(unsorted[j]));
                assert(unsorted.to_multiset().count(unsorted[j]) > 0);
                assert(sorted@.contains(unsorted[j]));
                let t2 = choose|t2: int| 0 <= t2 < sorted@.len() && sorted@[t2] == unsorted[j];
                assert(sorted@[t2].0 == j);
            }
            assert forall|m: int| 0 <= m < indices@.len() && indices@[m] + 1 < self.spec_offsets().len()
                implies exists|j: int| 0 <= j < updates@.len() && #[trigger] updates@[j].0 == indices@[m] + 1 by {
                assert(unsorted[m] == (m as usize, indices@[m]));
                assert(unsorted.contains(unsorted[m]));
                assert(unsorted.to_multiset().count(unsorted[m]) > 0);
                assert(sorted@.contains(unsorted[m]));
                let t2 = choose|t2: int| 0 <= t2 < sorted@.len() && sorted@[t2] == unsorted[m];
                assert(sorted@[t2].1 + 1 < slots);
                assert(updates@[pos[t2]].0 == indices@[m] + 1);
            }
            assert forall|j: int| 0 <= j < updates@.len() implies
                exists|m: int| 0 <= m < indices@.len() && (#[trigger] updates@[j]).0 == indices@[m] + 1 by {
                let m = sorted@[src[j]].0 as int;
                assert(updates@[j].0 == indices@[m] + 1);
            }
            assert(reads_indexed_rows(updates@, indices@, old(self).cached_cells().dom(), *old(self)));
        }
        let ghost made = updates@;
        self.apply_cache_updates(&mut updates);
        let mut rows: Vec<Vec<String>> = Vec::new();
        let mut k: usize = 0;
        while k < n
            invariant
                k <= n,
                n == indices@.len(),
                results@.len() == n,
                rows@.len() == k,
                forall|j: int| k <= j < n ==> match #[trigger] results@[j] {
                    Some(cells) => indices@[j] + 1 < old(self).spec_offsets().len()
                        && cells.deep_view() == old(self).spec_row_cells(indices@[j] + 1),
                    None => indices@[j] + 1 >= old(self).spec_offsets().len(),
                },
                forall|j: int| 0 <= j < k ==> #[trigger] rows@[j].deep_view() == cells_or_empty(*old(self), indices@[j]),
            decreases n - k,
        {
            let mut taken: Option<Vec<String>> = None;
            results.set_and_swap(k, &mut taken);
            match taken {
                Some(cells) => rows.push(cells),
                None => {
                    rows.push(Vec::new());
                    assert(rows@[k as int].deep_view() =~= Seq::<Seq<char>>::empty());
                },
            }
            k += 1;
        }
        Ok(rows)
    }
}

/// The bytes of a string followed by a line feed.
fn line_bytes(line: &str) -> (r: Vec<u8>)
    ensures
        r@ == encode_utf8(line@) + seq![0x0Au8],
{
    let bytes = line.as_bytes();
    let mut r: Vec<u8> = Vec::new();
    let mut i: usize = 0;
    while i < bytes.len()
        invariant
            i <= bytes@.len(),
            r@ == bytes@.take(i as int),
        decreases bytes@.len() - i,
    {
        r.push(bytes[i]);
        i += 1;
        assert(r@ =~= bytes@.take(i as int));
    }
    assert(bytes@.take(bytes@.len() as int) =~= bytes@);
    r.push(0x0A);
    r
}

/// The chosen columns of some cells, empty for a column they lack.
fn select_cells(cells: &[String], cols: &[u32]) -> (r: Vec<String>)
    ensures
        r.deep_view() == selected_cells(cells.deep_view(), cols@),
{
    let mut r: Vec<String> = Vec::new();
    let mut k: usize = 0;
    while k < cols.len()
        invariant
            k <= cols@.len(),
            r.deep_view() == selected_cells(cells.deep_view(), cols@).take(k as int),
        decreases cols@.len() - k,
    {
        let i = cols[k] as usize;
        let value = if i < cells.len() { cells[i].as_str().to_owned() } else { String::new() };
        let ghost before = r.deep_view();
        r.push(value);
        assert(r.deep_view() =~= before.push(value@));
        assert(r.deep_view() =~= selected_cells(cells.deep_view(), cols@).take(k as int + 1));
        k += 1;
    }
    assert(selected_cells(cells.deep_view(), cols@).take(cols@.len() as int) =~= selected_cells(cells.deep_view(), cols@));
    r
}

impl CsvEngine {
    /// The text of one cell of data row `row_index` (record `row_index + 1`);
    /// empty past the last record or the record's last cell.
    pub fn get_cell_content(&mut self, row_index: u32, col_index: u32) -> (r: Result<String, String>)
        requires
            old(self).wf(),
            old(self).spec_open() ==> row_index < u32::MAX,
        ensures
            *final(self) == *old(self),
            !old(self).spec_open() ==> (r matches Err(e) && e@ == "No file open"@),
            old(self).spec_open() ==> (r matches Ok(text) && text@ == {
                let cells = cells_or_empty(*old(self), row_index);
                if col_index < cells.len() { cells[col_index as int] } else { Seq::<char>::empty() }
            }),
    {
        let delimiter = self.delimiter;
        let data = match &self.data {
            Some(d) => d.as_slice(),
            None => {
                return Err("No file open".to_owned());
            },
        };
        proof { self.lemma_open_offsets(); }
        let data_row = row_index + 1;
        if data_row as usize >= self.offsets.len() {
            return Ok(String::new());
        }
        let text = read_row_text(data, &self.offsets, data_row as usize, self.file_size, self.encoding.as_str());
        let parsed = parse_csv_line(text.as_str(), delimiter);
        if (col_index as usize) < parsed.len() {
            Ok(parsed[col_index as usize].as_str().to_owned())
        } else {
            Ok(String::new())
        }
    }

    /// What editing cell `col_index` of data row `row_index` to `new_content`
    /// writes: the record is read, padded with empty cells up to the column,
    /// changed, and written anew with [`join_row`]; it replaces the record's
    /// bytes, and the record keeps its line ending. The caller writes the
    /// file: the bytes before `row_start`, the new record in the file's
    /// encoding, the line ending, and the bytes from `row_end` on.
    pub fn prepare_cell_update(&self, row_index: u32, col_index: u32, new_content: &str) -> (r: Result<CellEdit, String>)
        requires
            self.wf(),
            row_index < u32::MAX,
        ensures
            row_index + 1 >= self.spec_offsets().len() ==> (r matches Err(e) && e@ == "Row out of range"@),
            row_index + 1 < self.spec_offsets().len() && !self.spec_open() ==> (r matches Err(e) && e@ == "No file open"@),
            row_index + 1 < self.spec_offsets().len() && self.spec_open() ==> (r matches Ok(edit) && {
                let row = row_index + 1;
                let start = self.spec_offsets()[row as int] as int;
                let end = row_end(self.spec_offsets(), row as int, self.spec_file_size() as int);
                let bytes = self.spec_bytes();
                let ending = crate::encoding::spec_line_ending_len(bytes.subrange(start, end), self.spec_encoding());
                &&& edit.row_start == start
                &&& edit.row_end == end
                &&& start < end <= bytes.len()
                &&& edit.replacement@ == join_row(
                    edited_cells(self.spec_row_cells(row as int), col_index as int, new_content@),
                    self.spec_delimiter(),
                )
                &&& edit.line_ending@ == bytes.subrange(end - ending, end)
            }),
    {
        let delimiter = self.delimiter;
        let data_row = (row_index + 1) as usize;
        if data_row >= self.offsets.len() {
            return Err("Row out of range".to_owned());
        }
        let data = match &self.data {
            Some(d) => d.as_slice(),
            None => {
                return Err("No file open".to_owned());
            },
        };
        proof { self.lemma_open_offsets(); }
        let row_start = self.offsets.get(data_row) as usize;
        let row_end = if data_row + 1 < self.offsets.len() {
            self.offsets.get(data_row + 1) as usize
        } else {
            self.file_size as usize
        };
        let text = read_row_text(data, &self.offsets, data_row, self.file_size, self.encoding.as_str());
        let mut parsed = parse_csv_line(text.as_str(), delimiter);
        let ghost cells = parsed.deep_view();
        while parsed.len() <= col_index as usize
            invariant
                cells.len() <= parsed@.len(),
                parsed.deep_view() == if cells.len() > col_index {
                    cells
                } else {
                    cells + Seq::new((parsed@.len() - cells.len()) as nat, |i: int| Seq::<char>::empty())
                },
                parsed.deep_view().len() <= col_index + 1 || cells.len() > col_index,
            decreases col_index + 1 - parsed@.len(),
        {
            let ghost before = parsed.deep_view();
            let empty = String::new();
            assert(empty@ == Seq::<char>::empty());
            parsed.push(empty);
            assert(!(cells.len() > col_index));
            assert(parsed.deep_view() =~= before.push(Seq::<char>::empty()));
            assert(parsed.deep_view() =~= cells + Seq::new((parsed@.len() - cells.len()) as nat, |i: int| Seq::<char>::empty()));
        }
        assert(parsed.deep_view() =~= if cells.len() > col_index {
            cells
        } else {
            cells + Seq::new((col_index + 1 - cells.len()) as nat, |i: int| Seq::<char>::empty())
        });
        let ghost padded = parsed.deep_view();
        parsed.set(col_index as usize, new_content.to_owned());
        assert(parsed.deep_view() =~= padded.update(col_index as int, new_content@));
        let replacement = format_csv_row(parsed.as_slice(), delimiter);
        let row_bytes = slice_subrange(data, row_start, row_end);
        let ending_len = crate::encoding::line_ending_len(row_bytes, self.encoding.as_str());
        let ending = slice_subrange(data, row_end - ending_len, row_end);
        let mut line_ending: Vec<u8> = Vec::new();
        let mut i: usize = 0;
        while i < ending.len()
            invariant
                i <= ending@.len(),
                line_ending@ == ending@.take(i as int),
            decreases ending@.len() - i,
        {
            line_ending.push(ending[i]);
            i += 1;
            assert(line_ending@ =~= ending@.take(i as int));
        }
        assert(ending@.take(ending@.len() as int) =~= ending@);
        Ok(CellEdit { row_start, row_end, replacement, line_ending })
    }

    /// The start of an export: a UTF-8 byte-order mark, then the names of the
    /// chosen columns as one line (see [`export_line`]).
    pub fn export_preamble(&self, col_indices: &[u32]) -> (r: Result<Vec<u8>, String>)
        ensures
            !self.spec_open() ==> (r matches Err(e) && e@ == "No file open"@),
            self.spec_open() ==> (r matches Ok(bytes) && bytes@ == seq![0xEFu8, 0xBBu8, 0xBFu8]
                + encode_utf8(export_line(self.spec_headers(), col_indices@)) + seq![0x0Au8]),
    {
        if self.data.is_none() {
            return Err("No file open".to_owned());
        }
        let selected = select_cells(self.headers.as_slice(), col_indices);
        let line = format_csv_row(selected.as_slice(), ',');
        let body = line_bytes(line.as_str());
        let mut bytes: Vec<u8> = Vec::new();
        bytes.push(0xEF);
        bytes.push(0xBB);
        bytes.push(0xBF);
        let mut i: usize = 0;
        while i < body.len()
            invariant
                i <= body@.len(),
                bytes@ == seq![0xEFu8, 0xBBu8, 0xBFu8] + body@.take(i as int),
            decreases body@.len() - i,
        {
            bytes.push(body[i]);
            i += 1;
            assert(bytes@ =~= seq![0xEFu8, 0xBBu8, 0xBFu8] + body@.take(i as int));
        }
        assert(body@.take(body@.len() as int) =~= body@);
        assert(bytes@ =~= seq![0xEFu8, 0xBBu8, 0xBFu8] + encode_utf8(export_line(self.spec_headers(), col_indices@)) + seq![0x0Au8]);
        Ok(bytes)
    }

    /// One exported line: the chosen columns of data row `r` (record
    /// `r + 1`), then a line feed; nothing past the last record.
    pub fn export_row(&self, r: u32, col_indices: &[u32]) -> (line: Option<Vec<u8>>)
        requires
            self.wf(),
            self.spec_open(),
            r < u32::MAX,
        ensures
            r + 1 >= self.spec_offsets().len() ==> line is None,
            r + 1 < self.spec_offsets().len() ==> (line matches Some(bytes)
                && bytes@ == encode_utf8(export_line(self.spec_row_cells(r + 1), col_indices@)) + seq![0x0Au8]),
    {
        let delimiter = self.delimiter;
        let data_row = (r + 1) as usize;
        if data_row >= self.offsets.len() {
            return None;
        }
        let data = match &self.data {
            Some(d) => d.as_slice(),
            None => {
                return None;
            },
        };
        proof { self.lemma_open_offsets(); }
        let text = read_row_text(data, &self.offsets, data_row, self.file_size, self.encoding.as_str());
        let parsed = parse_csv_line(text.as_str(), delimiter);
        let selected = select_cells(parsed.as_slice(), col_indices);
        let line = format_csv_row(selected.as_slice(), ',');
        Some(line_bytes(line.as_str()))
    }
}

/// The text of a file's header record, in the encoding it is detected in.
pub open spec fn header_text_of(d: Seq<u8>) -> Seq<char> {
    let (encoding, bom) = spec_detect_encoding(d);
    row_text_of(d, spec_build_index(d, bom, encoding), 0, d.len() as int, encoding)
}

impl CsvEngine {
    /// Opens a file whose bytes the caller has mapped or read: detects its
    /// encoding and byte-order mark, indexes its records, and reads its
    /// header with the delimiter it uses most. Whatever was open before is
    /// closed.
    pub fn open_data(&mut self, file_path: &str, data: FileData) -> (r: OpenResult)
        requires
            old(self).wf(),
            data.bytes().len() <= usize::MAX / 8,
        ensures
            final(self).wf(),
            final(self).spec_open(),
            final(self).spec_bytes() == data.bytes(),
            final(self).spec_file_path() == file_path@,
            final(self).spec_file_size() == data.bytes().len(),
            (final(self).spec_encoding(), final(self).spec_bom()) == spec_detect_encoding(data.bytes()),
            final(self).spec_offsets() == spec_build_index(data.bytes(), final(self).spec_bom(), final(self).spec_encoding()),
            final(self).spec_delimiter() == spec_detect_delimiter(header_text_of(data.bytes())),
            final(self).spec_headers() == parse_line(header_text_of(data.bytes()), final(self).spec_delimiter()),
            final(self).cache_order() == Seq::<u32>::empty(),
            final(self).cached_cells() == Map::<u32, Seq<Seq<char>>>::empty(),
            r.file_path@ == file_path@,
            is_part_of(r.file_name@, file_path@),
            plain_path(file_path@) ==> r.file_name@ == last_component(file_path@),
            r.file_size == data.bytes().len(),
            r.row_count == (final(self).spec_offsets().len() - 1) as u32,
            r.column_count == final(self).spec_headers().len() as u32,
            r.headers.deep_view() == final(self).spec_headers(),
            r.encoding@ == spec_display_name(final(self).spec_encoding()),
    {
        self.close();
        let bytes = data.as_slice();
        let file_size = bytes.len() as u64;
        let (encoding, bom_offset) = detect_encoding(bytes);
        let offsets = build_index(bytes, bom_offset, encoding.as_str());
        proof {
            law_index_ascending(bytes@, bom_offset, encoding@);
        }
        // The index always holds the header's start.
        let header_text = read_row_text(bytes, &offsets, 0, file_size, encoding.as_str());
        let delimiter = detect_delimiter(header_text.as_str());
        proof { lemma_detected_delimiter(header_text@); }
        let headers = parse_csv_line(header_text.as_str(), delimiter);
        let row_count = (offsets.len() - 1) as u32;
        let column_count = headers.len() as u32;
        let header_copy = copy_strings(headers.as_slice());
        self.data = Some(data);
        self.file_path = file_path.to_owned();
        self.file_size = file_size;
        self.offsets = offsets;
        self.headers = headers;
        self.delimiter = delimiter;
        self.encoding = encoding;
        self.bom_offset = bom_offset;
        proof {
            self.lemma_cache_views();
            self.lemma_empty_cache_wf();
        }
        OpenResult {
            file_path: file_path.to_owned(),
            file_name: match path_file_name(file_path) {
                Some(name) => name,
                None => {
                    let empty = String::new();
                    assert(empty@ == file_path@.subrange(0, 0));
                    empty
                },
            },
            file_size,
            row_count,
            column_count,
            headers: header_copy,
            encoding: encoding_display_name(self.encoding.as_str()),
        }
    }

    /// Takes up the file's bytes again after the file was written: the cache
    /// is emptied and the records indexed anew, in the encoding and past the
    /// byte-order mark found when the file was opened.
    pub fn reload(&mut self, data: FileData)
        requires
            old(self).wf(),
            data.bytes().len() <= usize::MAX / 8,
        ensures
            final(self).wf(),
            final(self).spec_open(),
            final(self).spec_bytes() == data.bytes(),
            final(self).spec_file_size() == data.bytes().len(),
            final(self).spec_offsets() == spec_build_index(data.bytes(), old(self).spec_bom(), old(self).spec_encoding()),
            final(self).spec_file_path() == old(self).spec_file_path(),
            final(self).spec_headers() == old(self).spec_headers(),
            final(self).spec_delimiter() == old(self).spec_delimiter(),
            final(self).spec_encoding() == old(self).spec_encoding(),
            final(self).spec_bom() == old(self).spec_bom(),
            final(self).cache_order() == Seq::<u32>::empty(),
    {
        self.clear_cache();
        let bytes = data.as_slice();
        self.file_size = bytes.len() as u64;
        self.offsets = build_index(bytes, self.bom_offset, self.encoding.as_str());
        self.data = Some(data);
        proof { self.lemma_empty_cache_wf(); }
    }

    /// Lets go of the file's bytes (so that the file can be replaced); the
    /// rest of what is known of the file stays.
    pub fn release_data(&mut self)
        requires
            old(self).wf(),
        ensures
            final(self).wf(),
            !final(self).spec_open(),
            final(self).spec_offsets() == old(self).spec_offsets(),
            final(self).spec_file_path() == old(self).spec_file_path(),
            final(self).spec_headers() == old(self).spec_headers(),
            final(self).spec_delimiter() == old(self).spec_delimiter(),
            final(self).spec_encoding() == old(self).spec_encoding(),
            final(self).spec_bom() == old(self).spec_bom(),
            final(self).spec_file_size() == old(self).spec_file_size(),
    {
        self.data = None;
    }

    /// The bytes of the open file.
    pub fn file_bytes(&self) -> (r: Option<&[u8]>)
        ensures
            self.spec_open() ==> (r matches Some(b) && b@ == self.spec_bytes()),
            !self.spec_open() ==> r is None,
    {
        match &self.data {
            Some(d) => Some(d.as_slice()),
            None => None,
        }
    }

    pub fn is_open(&self) -> (r: bool)
        ensures
            r == self.spec_open(),
    {
        self.data.is_some()
    }

    pub fn file_path(&self) -> (r: &str)
        ensures
            r@ == self.spec_file_path(),
    {
        self.file_path.as_str()
    }

    pub fn file_size(&self) -> (r: u64)
        ensures
            r == self.spec_file_size(),
    {
        self.file_size
    }

    pub fn headers(&self) -> (r: &[String])
        ensures
            r.deep_view() == self.spec_headers(),
    {
        self.headers.as_slice()
    }

    /// The label of the file's encoding (such as `utf8` or `gbk`).
    pub fn encoding(&self) -> (r: &str)
        ensures
            r@ == self.spec_encoding(),
    {
        self.encoding.as_str()
    }

    /// The number of records the index holds, the header included.
    pub fn record_count(&self) -> (r: usize)
        ensures
            r == self.spec_offsets().len(),
    {
        self.offsets.len()
    }

    /// The number of data rows: the records after the header.
    pub fn row_count(&self) -> (r: u32)
        ensures
            r == (if self.spec_offsets().len() == 0 { 0 } else { self.spec_offsets().len() - 1 }) as u32,
    {
        self.offsets.len().saturating_sub(1) as u32
    }

    /// The number of columns: the cells of the header.
    pub fn column_count(&self) -> (r: u32)
        ensures
            r == self.spec_headers().len() as u32,
    {
        self.headers.len() as u32
    }

    /// How many records the cache holds.
    pub fn cached_row_count(&self) -> (r: usize)
        requires
            self.wf(),
        ensures
            r == self.cached_cells().dom().len(),
            r <= CACHE_MAX_ROWS,
    {
        proof { self.lemma_cache_views(); }
        self.cache.len()
    }

    /// The bytes the cached records are counted at.
    pub fn cache_byte_count(&self) -> (r: usize)
        requires
            self.wf(),
        ensures
            r == self.spec_cache_bytes(),
            r == total_size(self.cache_order(), self.cached_sizes()),
            r <= CACHE_MAX_BYTES,
    {
        self.cache_bytes
    }

    /// Whether record `key` is cached.
    pub fn is_cached(&self, key: u32) -> (r: bool)
        ensures
            r == self.cached_cells().contains_key(key),
    {
        self.cache.contains_key(&key)
    }
}

/// Every state the engine's operations leave holds the cache's budgets: at
/// most [`CACHE_MAX_ROWS`] records within [`CACHE_MAX_BYTES`] bytes, counted
/// exactly, each record under one key at most once in the use order.
pub proof fn law_cache_within_budgets(e: CsvEngine)
    requires
        e.wf(),
    ensures
        e.cached_cells().dom().len() <= CACHE_MAX_ROWS,
        e.spec_cache_bytes() <= CACHE_MAX_BYTES,
        e.spec_cache_bytes() == total_size(e.cache_order(), e.cached_sizes()),
        e.cache_order().no_duplicates(),
        forall|k: u32| #[trigger] e.cached_cells().contains_key(k) ==> e.cache_order().contains(k),
{
    e.lemma_cache_views();
}

/// A record whose text takes more than [`CACHE_MAX_BYTES`] bytes in UTF-8 is
/// not kept: storing it leaves the cache empty, whatever room its strings
/// were given.
pub proof fn law_oversized_record_empties_cache(
    order: Seq<u32>,
    sizes: Map<u32, nat>,
    cells: Map<u32, Seq<Seq<char>>>,
    key: u32,
    data: Seq<String>,
    caps: Seq<usize>,
)
    requires
        room_for(caps, data),
        text_bytes(data) > CACHE_MAX_BYTES,
    ensures
        ({
            let after = cache_after_insert(order, sizes, cells, key, data.map_values(|c: String| c@), entry_size(caps, data) as nat);
            &&& after.0 == Seq::<u32>::empty()
            &&& after.1 == Map::<u32, nat>::empty()
            &&& after.2 == Map::<u32, Seq<Seq<char>>>::empty()
        }),
{
    lemma_entry_size_covers_text(caps, data);
    let size = entry_size(caps, data) as nat;
    let order1 = without_key(order, key).push(key);
    let sizes1 = sizes.insert(key, size);
    assert(order1.last() == key);
    lemma_evict_oversized(order1, sizes1);
    let after = cache_after_insert(order, sizes, cells, key, data.map_values(|c: String| c@), size);
    assert(after.0.to_set() =~= Set::<u32>::empty());
    assert(after.1 =~= Map::<u32, nat>::empty());
    assert(after.2 =~= Map::<u32, Seq<Seq<char>>>::empty());
}

/// Every cached record holds the cells of its record in the open file.
pub proof fn law_cache_holds_parsed_rows(e: CsvEngine, key: u32)
    requires
        e.wf(),
        e.spec_open(),
        e.cached_cells().contains_key(key),
    ensures
        1 <= key < e.spec_offsets().len(),
        e.cached_cells()[key] == e.spec_row_cells(key as int),
{
}

// ─── Searching ──────────────────────────────────────────────────────────────

/// What a search looks for, fixed once for all records: the query, its
/// lower case when the search ignores case, the column it is limited to,
/// and how records are scanned.
pub struct SearchPlan {
    query: String,
    query_lower: Option<String>,
    case_sensitive: bool,
    col_filter: Option<u32>,
    is_utf8: bool,
    query_is_ascii: bool,
    total: u32,
}

impl SearchPlan {
    #[verifier::type_invariant]
    spec fn inv(self) -> bool {
        &&& self.query@.len() > 0
        &&& self.query_is_ascii == vstd::utf8::is_ascii_chars(self.query@)
        &&& self.case_sensitive ==> self.query_lower is None
        &&& !self.case_sensitive ==> (self.query_lower matches Some(l) && l@ == lowercase(self.query@))
    }

    pub closed spec fn spec_query(&self) -> Seq<char> {
        self.query@
    }

    /// The lower-cased query when the search ignores case.
    pub closed spec fn spec_lower(&self) -> Option<Seq<char>> {
        match self.query_lower {
            Some(l) => Some(l@),
            None => None,
        }
    }

    pub closed spec fn spec_case_sensitive(&self) -> bool {
        self.case_sensitive
    }

    pub closed spec fn spec_col_filter(&self) -> Option<u32> {
        self.col_filter
    }

    pub closed spec fn spec_is_utf8(&self) -> bool {
        self.is_utf8
    }

    pub closed spec fn spec_query_is_ascii(&self) -> bool {
        self.query_is_ascii
    }

    pub closed spec fn spec_total(&self) -> u32 {
        self.total
    }

    /// How many data rows the search goes through.
    pub fn total(&self) -> (r: u32)
        ensures
            r == self.spec_total(),
    {
        self.total
    }
}

/// What scanning one record gives.
pub enum RowScan {
    /// The record has no bytes (or no text), so it does not count as scanned.
    Skipped,
    /// The record was scanned; it matched if a result is given.
    Scanned(Option<SearchResult>),
}

/// The bytes of record `i` as a search scans them.
pub open spec fn scanned_bytes(e: CsvEngine, i: int) -> Seq<u8> {
    let d = e.spec_bytes();
    let start = e.spec_offsets()[i] as int;
    let end = row_end(e.spec_offsets(), i, e.spec_file_size() as int);
    d.subrange(start, if end < d.len() { end } else { d.len() as int })
}

/// Whether record `i` holds the query (`None` when it is skipped): UTF-8
/// records are scanned as bytes for an ASCII query (ignoring ASCII case
/// unless the search is case-sensitive), and as text otherwise; records in
/// other encodings are decoded first, and skipped when they decode to
/// nothing.
pub open spec fn spec_row_contains(e: CsvEngine, plan: SearchPlan, i: int) -> Option<bool> {
    let d = e.spec_bytes();
    let start = e.spec_offsets()[i] as int;
    let end = row_end(e.spec_offsets(), i, e.spec_file_size() as int);
    let query_bytes = encode_utf8(plan.spec_query());
    if end <= start || start >= d.len() {
        None
    } else if plan.spec_is_utf8() && plan.spec_query_is_ascii() && plan.spec_case_sensitive() {
        Some(seq_contains(scanned_bytes(e, i), query_bytes))
    } else if plan.spec_is_utf8() && plan.spec_query_is_ascii() {
        Some(exists|k: int| ascii_ci_occurs_at(scanned_bytes(e, i), query_bytes, k))
    } else if plan.spec_is_utf8() {
        Some(text_contains(utf8_lossy(scanned_bytes(e, i)), plan.spec_query(), plan.spec_lower()))
    } else if e.spec_row_text(i).len() == 0 {
        None
    } else {
        Some(text_contains(e.spec_row_text(i), plan.spec_query(), plan.spec_lower()))
    }
}

/// The columns among the first `n` of `cells` that hold the query, in order.
pub open spec fn matching_columns(cells: Seq<Seq<char>>, plan: SearchPlan, n: int) -> Seq<int>
    decreases n,
{
    if n <= 0 {
        Seq::empty()
    } else {
        let before = matching_columns(cells, plan, n - 1);
        if text_contains(cells[n - 1], plan.spec_query(), plan.spec_lower()) {
            before.push(n - 1)
        } else {
            before
        }
    }
}

/// The columns of a record that a search reports: the filtered column if it
/// holds the query, or every column that does.
pub open spec fn reported_columns(cells: Seq<Seq<char>>, plan: SearchPlan) -> Seq<int> {
    match plan.spec_col_filter() {
        Some(ci) => if ci < cells.len() && text_contains(cells[ci as int], plan.spec_query(), plan.spec_lower()) {
            seq![ci as int]
        } else {
            Seq::empty()
        },
        None => matching_columns(cells, plan, cells.len() as int),
    }
}

/// Whether `m` reports column `col` of a record with cells `cells`: its
/// index, its header (empty past the last header) and the text around the
/// match.
pub open spec fn reports_cell(m: CellMatch, col: int, headers: Seq<Seq<char>>, cells: Seq<Seq<char>>, plan: SearchPlan) -> bool {
    &&& m.col_index == col as u32
    &&& m.col_name@ == if col < headers.len() { headers[col] } else { Seq::empty() }
    &&& encode_utf8(m.cell_text@) == spec_match_context(cells[col], plan.spec_query(), plan.spec_lower())
}

/// Whether `r` is what a search reports for record `i`.
pub open spec fn reports_row(r: SearchResult, e: CsvEngine, plan: SearchPlan, i: int) -> bool {
    let cells = e.spec_row_cells(i);
    let cols = reported_columns(cells, plan);
    &&& r.row_index == (i - 1) as u32
    &&& r.matches@.len() == cols.len()
    &&& forall|k: int| 0 <= k < cols.len() ==> reports_cell(#[trigger] r.matches@[k], cols[k], e.spec_headers(), cells, plan)
}

/// Whether record `i` is found: it holds the query and some reported
/// column does too.
pub open spec fn row_found(e: CsvEngine, plan: SearchPlan, i: int) -> bool {
    spec_row_contains(e, plan, i) == Some(true) && reported_columns(e.spec_row_cells(i), plan).len() > 0
}

/// The records among `1..n` that a search finds, in order.
pub open spec fn found_rows(e: CsvEngine, plan: SearchPlan, n: int) -> Seq<int>
    decreases n,
{
    if n <= 1 {
        Seq::empty()
    } else if row_found(e, plan, n - 1) {
        found_rows(e, plan, n - 1).push(n - 1)
    } else {
        found_rows(e, plan, n - 1)
    }
}

/// Whether `plan` searches for `query` as a search with these settings does:
/// the query lower-cased when case is ignored, limited to `col_filter`, and
/// scanning bytes only in a UTF-8 file.
pub open spec fn plan_for(plan: SearchPlan, query: Seq<char>, col_filter: Option<u32>, case_sensitive: bool, is_utf8: bool) -> bool {
    &&& plan.spec_query() == query
    &&& plan.spec_lower() == if case_sensitive { None } else { Some(lowercase(query)) }
    &&& plan.spec_case_sensitive() == case_sensitive
    &&& plan.spec_col_filter() == col_filter
    &&& plan.spec_is_utf8() == is_utf8
    &&& plan.spec_query_is_ascii() == vstd::utf8::is_ascii_chars(query)
}

/// Whether `r` is what a search reports: the first `max_results` records
/// it finds, in order.
pub open spec fn reports_first_found(r: Seq<SearchResult>, e: CsvEngine, plan: SearchPlan, max_results: u32) -> bool {
    let found = found_rows(e, plan, e.spec_offsets().len() as int);
    &&& r.len() == if found.len() < max_results { found.len() as int } else { max_results as int }
    &&& forall|k: int| 0 <= k < r.len() ==> reports_row(#[trigger] r[k], e, plan, found[k])
}

/// Whether `r` is what a search of the file for `query` with these settings
/// reports (see [`plan_for`] and [`reports_first_found`]).
pub open spec fn search_reports(
    r: Seq<SearchResult>,
    e: CsvEngine,
    query: Seq<char>,
    col_filter: Option<u32>,
    case_sensitive: bool,
    max_results: u32,
) -> bool {
    exists|plan: SearchPlan|
        plan_for(plan, query, col_filter, case_sensitive, e.spec_encoding() == utf8_label())
        && #[trigger] reports_first_found(r, e, plan, max_results)
}

impl CsvEngine {
    /// The text of record `row` of the open file.
    fn row_text(&self, data: &[u8], row: usize) -> (r: String)
        requires
            self.wf(),
            self.spec_open(),
            data@ == self.spec_bytes(),
        ensures
            r@ == self.spec_row_text(row as int),
    {
        proof { self.lemma_open_offsets(); }
        read_row_text(data, &self.offsets, row, self.file_size, self.encoding.as_str())
    }

    /// Fixes what a search looks for. Fails when no file is open; gives no
    /// plan when there is nothing to search (no data rows, or an empty query).
    pub fn prepare_search(&self, query: &str, col_filter: Option<u32>, case_sensitive: bool) -> (r: Result<Option<SearchPlan>, String>)
        requires
            self.wf(),
        ensures
            !self.spec_open() ==> (r matches Err(e) && e@ == "No file open"@),
            self.spec_open() && (self.spec_offsets().len() <= 1 || query@.len() == 0) ==> (r matches Ok(p) && p is None),
            self.spec_open() && self.spec_offsets().len() > 1 && query@.len() > 0 ==> (r matches Ok(p) && p matches Some(plan)
                && plan_for(plan, query@, col_filter, case_sensitive, self.spec_encoding() == utf8_label())
                && plan.spec_total() == (self.spec_offsets().len() - 1) as u32),
    {
        if self.data.is_none() {
            return Err("No file open".to_owned());
        }
        if self.offsets.len() <= 1 || query.is_empty() {
            return Ok(None);
        }
        proof { crate::encoding::lemma_label_constants(); }
        let total = (self.offsets.len() - 1) as u32;
        let is_utf8 = crate::chars::str_eq(self.encoding.as_str(), crate::encoding::ENCODING_UTF8);
        let query_is_ascii = query.is_ascii();
        let query_lower = if case_sensitive { None } else { Some(str_to_lowercase(query)) };
        let plan = SearchPlan {
            query: query.to_owned(),
            query_lower,
            case_sensitive,
            col_filter,
            is_utf8,
            query_is_ascii,
            total,
        };
        Ok(Some(plan))
    }

    /// Scans record `i` (1 for the first data row) for a search: whether it
    /// counts as scanned, and the cells it reports if it matches (see
    /// [`spec_row_contains`] and [`reports_row`]).
    pub fn scan_row(&self, plan: &SearchPlan, i: usize) -> (r: RowScan)
        requires
            self.wf(),
            self.spec_open(),
            1 <= i < self.spec_offsets().len(),
            plan.spec_is_utf8() == (self.spec_encoding() == utf8_label()),
        ensures
            spec_row_contains(*self, *plan, i as int) is None ==> r is Skipped,
            spec_row_contains(*self, *plan, i as int) == Some(false) ==> (r matches RowScan::Scanned(found) && found is None),
            spec_row_contains(*self, *plan, i as int) == Some(true) ==> (r matches RowScan::Scanned(found) && (match found {
                Some(result) => row_found(*self, *plan, i as int) && reports_row(result, *self, *plan, i as int),
                None => !row_found(*self, *plan, i as int),
            })),
    {
        proof {
            use_type_invariant(plan);
            self.lemma_open_offsets();
        }
        let data = match &self.data {
            Some(d) => d.as_slice(),
            None => {
                return RowScan::Skipped;
            },
        };
        let len = data.len();
        let slots = self.offsets.len();
        let start = self.offsets.get(i) as usize;
        let end = if i + 1 < slots {
            self.offsets.get(i + 1) as usize
        } else {
            self.file_size as usize
        };
        if end <= start || start >= len {
            return RowScan::Skipped;
        }
        let row_bytes = slice_subrange(data, start, if end < len { end } else { len });
        let query = plan.query.as_str();
        let lower: Option<&str> = match &plan.query_lower {
            Some(l) => Some(l.as_str()),
            None => None,
        };
        assert(match lower { Some(l) => Some(l@), None => None } == plan.spec_lower());
        let ghost lower_view = plan.spec_lower();
        let ghost qb = encode_utf8(plan.spec_query());
        assert(row_bytes@ == scanned_bytes(*self, i as int));
        let row_contains = if plan.is_utf8 && plan.query_is_ascii && plan.case_sensitive {
            match memmem_find(row_bytes, query.as_bytes()) {
                Some(p) => {
                    assert(crate::search::occurs_at(row_bytes@, qb, p as int));
                    true
                },
                None => false,
            }
        } else if plan.is_utf8 && plan.query_is_ascii {
            contains_ascii_case_insensitive(row_bytes, query.as_bytes())
        } else if plan.is_utf8 {
            let text = crate::encoding::decode_utf8_lossy(row_bytes);
            contains_text(text.as_str(), query, lower)
        } else {
            let text = self.row_text(data, i);
            if text.as_str().is_empty() {
                return RowScan::Skipped;
            }
            contains_text(text.as_str(), query, lower)
        };
        assert(spec_row_contains(*self, *plan, i as int) == Some(row_contains));
        if !row_contains {
            return RowScan::Scanned(None);
        }
        let text = self.row_text(data, i);
        let cells = parse_csv_line(text.as_str(), self.delimiter);
        let ghost cv = cells.deep_view();
        let mut matches: Vec<CellMatch> = Vec::new();
        match plan.col_filter {
            Some(ci) => {
                let c = ci as usize;
                if c < cells.len() {
                    let cell = cells[c].as_str();
                    assert(cell@ == cv[c as int]);
                    if contains_text(cell, query, lower) {
                        matches.push(self.cell_match(c, cell, query, lower));
                    }
                }
            },
            None => {
                let mut c: usize = 0;
                while c < cells.len()
                    invariant
                        c <= cells@.len(),
                        cv == cells.deep_view(),
                        matches@.len() == matching_columns(cv, *plan, c as int).len(),
                        forall|k: int| 0 <= k < matches@.len() ==> reports_cell(
                            #[trigger] matches@[k],
                            matching_columns(cv, *plan, c as int)[k],
                            self.spec_headers(),
                            cv,
                            *plan,
                        ),
                        query@ == plan.spec_query(),
                        match lower { Some(l) => Some(l@), None => None } == plan.spec_lower(),
                    decreases cells@.len() - c,
                {
                    let cell = cells[c].as_str();
                    assert(cell@ == cv[c as int]);
                    if contains_text(cell, query, lower) {
                        matches.push(self.cell_match(c, cell, query, lower));
                    }
                    c += 1;
                }
            },
        }
        if matches.len() == 0 {
            return RowScan::Scanned(None);
        }
        RowScan::Scanned(Some(SearchResult { row_index: (i - 1) as u32, matches }))
    }

    /// The report of one matching cell.
    fn cell_match(&self, c: usize, cell: &str, query: &str, lower: Option<&str>) -> (m: CellMatch)
        ensures
            m.col_index == c as u32,
            m.col_name@ == if c < self.spec_headers().len() { self.spec_headers()[c as int] } else { Seq::<char>::empty() },
            encode_utf8(m.cell_text@) == spec_match_context(cell@, query@, match lower { Some(l) => Some(l@), None => None }),
    {
        let col_name = if c < self.headers.len() { self.headers[c].as_str().to_owned() } else { String::new() };
        CellMatch { col_index: c as u32, col_name, cell_text: extract_match_context(cell, query, lower) }
    }
}

/// Found records stay found, in the same places, as more records are read.
proof fn lemma_found_rows_prefix(e: CsvEngine, plan: SearchPlan, a: int, b: int)
    requires
        a <= b,
    ensures
        found_rows(e, plan, a).len() <= found_rows(e, plan, b).len(),
        forall|k: int| 0 <= k < found_rows(e, plan, a).len() ==> #[trigger] found_rows(e, plan, b)[k] == found_rows(e, plan, a)[k],
    decreases b - a,
{
    if a < b {
        lemma_found_rows_prefix(e, plan, a, b - 1);
    }
}

impl CsvEngine {
    /// Searches the data rows in order and returns what is reported for the
    /// first `max_results` records found (see [`found_rows`] and
    /// [`reports_row`]).
    pub fn search_rows(&self, plan: &SearchPlan, max_results: u32) -> (r: Vec<SearchResult>)
        requires
            self.wf(),
            self.spec_open(),
            plan.spec_is_utf8() == (self.spec_encoding() == utf8_label()),
        ensures
            reports_first_found(r@, *self, *plan, max_results),
    {
        let slots = self.offsets.len();
        let mut results: Vec<SearchResult> = Vec::new();
        let mut i: usize = 1;
        while i < slots
            invariant
                self.wf(),
                self.spec_open(),
                plan.spec_is_utf8() == (self.spec_encoding() == utf8_label()),
                slots == self.spec_offsets().len(),
                1 <= i <= slots || slots == 0,
                ({
                    let found = found_rows(*self, *plan, i as int);
                    &&& results@.len() == if found.len() < max_results { found.len() as int } else { max_results as int }
                    &&& forall|k: int| 0 <= k < results@.len() ==> reports_row(#[trigger] results@[k], *self, *plan, found[k])
                }),
            decreases slots - i,
        {
            let ghost before = found_rows(*self, *plan, i as int);
            let scan = self.scan_row(plan, i);
            let ghost after = found_rows(*self, *plan, i as int + 1);
            match scan {
                RowScan::Scanned(Some(result)) => {
                    assert(after == before.push(i as int));
                    if results.len() >= max_results as usize {
                        proof { lemma_found_rows_prefix(*self, *plan, i as int + 1, slots as int); }
                        assert(forall|k: int| 0 <= k < results@.len() ==> #[trigger] results@[k] == results@[k]);
                        let ghost full = found_rows(*self, *plan, slots as int);
                        assert(forall|k: int| 0 <= k < results@.len() ==> full[k] == before[k]);
                        return results;
                    }
                    results.push(result);
                },
                _ => {
                    assert(after == before);
                },
            }
            i += 1;
        }
        results
    }

    /// Searches the whole file (see [`search_rows`] and [`prepare_search`]):
    /// fails when no file is open, and finds nothing when there are no data
    /// rows or the query is empty.
    pub fn search(&self, query: &str, col_filter: Option<u32>, case_sensitive: bool, max_results: u32) -> (r: Result<Vec<SearchResult>, String>)
        requires
            self.wf(),
        ensures
            !self.spec_open() ==> (r matches Err(e) && e@ == "No file open"@),
            self.spec_open() && (self.spec_offsets().len() <= 1 || query@.len() == 0) ==> (r matches Ok(v) && v@.len() == 0),
            self.spec_open() && self.spec_offsets().len() > 1 && query@.len() > 0 ==> (r matches Ok(v)
                && search_reports(v@, *self, query@, col_filter, case_sensitive, max_results)),
    {
        match self.prepare_search(query, col_filter, case_sensitive) {
            Err(e) => Err(e),
            Ok(None) => Ok(Vec::new()),
            Ok(Some(plan)) => {
                let found = self.search_rows(&plan, max_results);
                proof {
                    if self.spec_open() && self.spec_offsets().len() > 1 && query@.len() > 0 {
                        assert(plan_for(plan, query@, col_filter, case_sensitive, self.spec_encoding() == utf8_label()));
                        assert(reports_first_found(found@, *self, plan, max_results));
                        assert(search_reports(found@, *self, query@, col_filter, case_sensitive, max_results));
                    }
                }
                Ok(found)
            },
        }
    }
}

/// An edited record reads back as the record with the new value: the
/// replacement text parses, with the file's delimiter, to the record's cells
/// padded to the column and holding the new value there.
pub proof fn law_edit_reads_back(e: CsvEngine, row: int, col: int, value: Seq<char>)
    requires
        e.wf(),
        0 <= col,
    ensures
        parse_line(join_row(edited_cells(e.spec_row_cells(row), col, value), e.spec_delimiter()), e.spec_delimiter())
            == edited_cells(e.spec_row_cells(row), col, value),
        edited_cells(e.spec_row_cells(row), col, value)[col] == value,
        forall|k: int| 0 <= k < e.spec_row_cells(row).len() && k != col
            ==> #[trigger] edited_cells(e.spec_row_cells(row), col, value)[k] == e.spec_row_cells(row)[k],
{
    let cells = edited_cells(e.spec_row_cells(row), col, value);
    assert(cells.len() >= 1);
    crate::csv_line::law_parse_reads_formatted_row(cells, e.spec_delimiter());
}

/// An exported line reads back, split at commas, as the chosen cells.
pub proof fn law_export_line_reads_back(cells: Seq<Seq<char>>, cols: Seq<u32>)
    requires
        cols.len() >= 1,
    ensures
        parse_line(export_line(cells, cols), ',') == selected_cells(cells, cols),
{
    crate::csv_line::law_parse_reads_formatted_row(selected_cells(cells, cols), ',');
}

} // verus!
