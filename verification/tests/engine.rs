use csv_reader::encoding::encode_text;
use csv_reader::engine::{row_data_for_columns, CellEdit, CsvEngine, FileData, RowScan, CACHE_MAX_BYTES, CACHE_MAX_ROWS};
use encoding_rs::{BIG5, GBK};

fn legacy_fixture(text: &str, encoding: &'static encoding_rs::Encoding) -> Vec<u8> {
    let (bytes, _, had_errors) = encoding.encode(text);
    assert!(!had_errors, "fixture must be representable");
    bytes.into_owned()
}

fn utf16_fixture(text: &str, little_endian: bool) -> Vec<u8> {
    let mut bytes = if little_endian { vec![0xFF, 0xFE] } else { vec![0xFE, 0xFF] };
    for unit in text.encode_utf16() {
        bytes.extend(if little_endian { unit.to_le_bytes() } else { unit.to_be_bytes() });
    }
    bytes
}

/// The file's bytes after an edit: what precedes the record, the record
/// written anew in the file's encoding, its line ending, and the rest.
fn apply_edit(engine: &CsvEngine, edit: &CellEdit) -> Vec<u8> {
    let data = engine.file_bytes().expect("a file is open");
    let mut out = data[..edit.row_start].to_vec();
    out.extend(encode_text(&edit.replacement, engine.encoding()).expect("text should be representable"));
    out.extend(&edit.line_ending);
    out.extend(&data[edit.row_end..]);
    out
}

fn edit_cell(engine: &mut CsvEngine, row: u32, col: u32, value: &str) -> Vec<u8> {
    let edit = engine.prepare_cell_update(row, col, value).expect("cell should be editable");
    let bytes = apply_edit(engine, &edit);
    engine.reload(FileData::Owned(bytes.clone()));
    bytes
}

fn export(engine: &CsvEngine, cols: &[u32], from: u32, to: u32) -> Vec<u8> {
    let mut out = engine.export_preamble(cols).expect("a file is open");
    for r in from..=to {
        match engine.export_row(r, cols) {
            Some(line) => out.extend(line),
            None => break,
        }
    }
    out
}

#[test]
fn cache_respects_row_and_byte_budgets() {
    let mut engine = CsvEngine::new();
    for key in 0..CACHE_MAX_ROWS as u32 + 10 {
        engine.add_to_cache(key, vec![String::new()]);
    }
    assert_eq!(engine.cached_row_count(), CACHE_MAX_ROWS);
    assert!(engine.cache_byte_count() <= CACHE_MAX_BYTES);

    engine.add_to_cache(u32::MAX, vec!["x".repeat(CACHE_MAX_BYTES)]);
    assert!(engine.cache_byte_count() <= CACHE_MAX_BYTES);
    assert!(!engine.is_cached(u32::MAX));
}

#[test]
fn row_data_contains_only_requested_columns() {
    let cells = vec!["zero".to_string(), "one".to_string(), "two".to_string(), "three".to_string()];
    let row = row_data_for_columns(&cells, 1, 2);
    assert_eq!(row.cells, ["one", "two"]);
    assert_eq!(row.lengths, [3, 3]);
}

#[test]
fn row_data_cuts_long_cells_and_keeps_their_length() {
    let cells = vec!["é".repeat(300), "x".to_string()];
    let row = row_data_for_columns(&cells, 0, u32::MAX);
    assert_eq!(row.cells, ["é".repeat(250), "x".to_string()]);
    assert_eq!(row.lengths, [600, 1]);
    assert!(row_data_for_columns(&cells, 5, 2).cells.is_empty());
}

#[test]
fn opens_searches_edits_and_exports_gbk_csv() {
    let mut engine = CsvEngine::new();
    let info = engine.open_data("/tmp/gbk.csv", FileData::Owned(legacy_fixture("姓名,城市\r\n张三,北京\r\n李四,上海", GBK)));
    assert_eq!(info.encoding, "GBK");
    assert_eq!(info.headers, ["姓名", "城市"]);
    assert_eq!(engine.get_rows(0, 2, 0, 2).expect("GBK rows should decode")[0].cells, ["张三", "北京"]);

    let results = engine.search("上海", None, false, 10).expect("GBK text should be searchable");
    assert_eq!(results.len(), 1);
    assert_eq!(results[0].row_index, 1);

    let source_bytes = edit_cell(&mut engine, 0, 1, "广州");
    assert!(std::str::from_utf8(&source_bytes).is_err());
    assert_eq!(GBK.decode_without_bom_handling(&source_bytes).0, "姓名,城市\r\n张三,广州\r\n李四,上海");

    let exported = export(&engine, &[0, 1], 0, 1);
    assert!(exported.starts_with(&[0xEF, 0xBB, 0xBF]));
    assert_eq!(std::str::from_utf8(&exported[3..]).expect("export should be UTF-8"), "姓名,城市\n张三,广州\n李四,上海\n");

    engine.close();
    assert!(!engine.is_open());
}

#[test]
fn opens_and_edits_big5_csv() {
    let mut engine = CsvEngine::new();
    let info = engine.open_data(
        "big5.csv",
        FileData::Owned(legacy_fixture("姓名,城市,備註\r\n陳大文,臺北,繁體中文資料\r\n林美玲,高雄,測試內容", BIG5)),
    );
    assert_eq!(info.encoding, BIG5.name());
    assert_eq!(info.headers, ["姓名", "城市", "備註"]);
    assert_eq!(engine.get_rows(0, 1, 0, 3).expect("Big5 row should decode")[0].cells, ["陳大文", "臺北", "繁體中文資料"]);

    let edited = edit_cell(&mut engine, 0, 1, "臺中");
    assert_eq!(BIG5.decode_without_bom_handling(&edited).0, "姓名,城市,備註\r\n陳大文,臺中,繁體中文資料\r\n林美玲,高雄,測試內容");
}

#[test]
fn filtered_search_counts_only_matching_column() {
    let mut engine = CsvEngine::new();
    engine.open_data("search.csv", FileData::Owned(b"target,other\nnone,needle\nneedle,value\n".to_vec()));
    let results = engine.search("needle", Some(0), false, 1).expect("search should succeed");
    assert_eq!(results.len(), 1);
    assert_eq!(results[0].row_index, 1);
}

#[test]
fn csv_engine_filtered_search_counts_only_matching_column() {
    let mut engine = CsvEngine::new();
    engine.open_data("search.csv", FileData::Owned(b"target,other\nnone,needle\nneedle,value\n".to_vec()));
    let results = engine.search("needle", Some(0), false, 1).expect("search should succeed");
    assert_eq!(results.len(), 1);
    assert_eq!(results[0].row_index, 1);
}

#[test]
fn update_cell_streams_utf8_and_preserves_line_endings() {
    let mut engine = CsvEngine::new();
    engine.open_data("update.csv", FileData::Owned(b"first,second\r\none,two\r\nthree,four".to_vec()));
    let bytes = edit_cell(&mut engine, 0, 1, "new,value");
    assert_eq!(bytes, b"first,second\r\none,\"new,value\"\r\nthree,four");
}

#[test]
fn update_cell_preserves_utf16_endianness_and_bom() {
    for little_endian in [true, false] {
        let mut engine = CsvEngine::new();
        engine.open_data("utf16.csv", FileData::Owned(utf16_fixture("first,second\r\n一,二\r\n三,四", little_endian)));
        let bytes = edit_cell(&mut engine, 0, 1, "新,值");
        assert_eq!(bytes, utf16_fixture("first,second\r\n一,\"新,值\"\r\n三,四", little_endian));
    }
}

#[test]
fn closed_engine_refuses_reads() {
    let mut engine = CsvEngine::new();
    assert_eq!(engine.get_rows(0, 1, 0, 1).err(), Some("No file open".to_string()));
    assert_eq!(engine.get_cell_content(0, 0), Err("No file open".to_string()));
    assert_eq!(engine.search("x", None, true, 5).err(), Some("No file open".to_string()));
    assert_eq!(engine.export_preamble(&[0]).err(), Some("No file open".to_string()));
    assert_eq!(engine.prepare_cell_update(0, 0, "x").err(), Some("Row out of range".to_string()));
    assert_eq!(engine.get_rows_by_index(&[]).map(|rows| rows.len()), Ok(0));
    assert_eq!(engine.get_rows_by_index(&[0]).err(), Some("No file open".to_string()));
}

#[test]
fn released_file_reports_no_file_open_for_edits() {
    let mut engine = CsvEngine::new();
    engine.open_data("a.csv", FileData::Owned(b"h\n1\n2".to_vec()));
    engine.release_data();
    assert_eq!(engine.prepare_cell_update(0, 0, "x").err(), Some("No file open".to_string()));
    assert_eq!(engine.prepare_cell_update(5, 0, "x").err(), Some("Row out of range".to_string()));
}

#[test]
fn reads_rows_cells_and_rows_by_index() {
    let mut engine = CsvEngine::new();
    let info = engine.open_data("/data/people.csv", FileData::Owned(b"name;age\nann;31\nbob;\"4;2\"\ncy;7".to_vec()));
    assert_eq!((info.row_count, info.column_count, info.file_size), (3, 2, 30));
    assert_eq!(info.file_name, "people.csv");
    assert_eq!(info.encoding, "UTF-8");
    assert_eq!(engine.row_count(), 3);
    assert_eq!(engine.headers(), ["name", "age"]);

    let rows = engine.get_rows(1, 10, 1, 1).expect("rows should read");
    assert_eq!(rows.len(), 2);
    assert_eq!(rows[0].cells, ["4;2"]);
    assert_eq!(rows[1].cells, ["7"]);
    assert!(engine.is_cached(2) && engine.is_cached(3) && !engine.is_cached(1));

    assert_eq!(engine.get_cell_content(0, 0), Ok("ann".to_string()));
    assert_eq!(engine.get_cell_content(0, 9), Ok(String::new()));
    assert_eq!(engine.get_cell_content(7, 0), Ok(String::new()));

    let picked = engine.get_rows_by_index(&[2, 9, 0, 2]).expect("rows should read");
    assert_eq!(picked, vec![vec!["cy".to_string(), "7".to_string()], vec![], vec!["ann".to_string(), "31".to_string()], vec!["cy".to_string(), "7".to_string()]]);
}

#[test]
fn scans_rows_for_a_search_plan() {
    let mut engine = CsvEngine::new();
    engine.open_data("s.csv", FileData::Owned(b"a,b\nApple,pear\n\nplum,APPLE\n".to_vec()));
    let plan = engine.prepare_search("apple", None, false).expect("file is open").expect("there is a query");
    assert_eq!(plan.total(), 3);
    match engine.scan_row(&plan, 1) {
        RowScan::Scanned(Some(result)) => {
            assert_eq!(result.row_index, 0);
            assert_eq!(result.matches.len(), 1);
            assert_eq!((result.matches[0].col_index, result.matches[0].col_name.as_str()), (0, "a"));
            assert_eq!(result.matches[0].cell_text, "Apple");
        }
        _ => panic!("row 1 should match"),
    }
    assert!(matches!(engine.scan_row(&plan, 2), RowScan::Scanned(None)));
    let results = engine.search("apple", None, false, 10).expect("search should succeed");
    assert_eq!(results.iter().map(|r| r.row_index).collect::<Vec<_>>(), vec![0, 2]);
    assert!(engine.search("apple", None, true, 10).expect("search should succeed").is_empty());
    assert!(engine.search("", None, true, 10).expect("search should succeed").is_empty());
    assert_eq!(engine.search("APPLE", Some(1), true, 10).expect("search should succeed").len(), 1);
}

#[test]
fn exports_chosen_columns_with_quotes() {
    let mut engine = CsvEngine::new();
    engine.open_data("e.csv", FileData::Owned(b"a;b;c\n1;x,y;3\n4;5;6".to_vec()));
    let bytes = export(&engine, &[2, 1, 7], 0, 5);
    assert_eq!(std::str::from_utf8(&bytes[3..]).unwrap(), "c,b,\n3,\"x,y\",\n6,5,\n");
    assert_eq!(engine.export_row(2, &[0]), None);
}

#[test]
fn edit_pads_short_records_and_keeps_the_last_line_without_ending() {
    let mut engine = CsvEngine::new();
    engine.open_data("p.csv", FileData::Owned(b"a,b,c\n1\n2,3".to_vec()));
    let edit = engine.prepare_cell_update(0, 2, "z").expect("row exists");
    assert_eq!((edit.row_start, edit.row_end), (6, 8));
    assert_eq!(edit.replacement, "1,,z");
    assert_eq!(edit.line_ending, b"\n");
    let last = engine.prepare_cell_update(1, 0, "q").expect("row exists");
    assert_eq!(last.replacement, "q,3");
    assert!(last.line_ending.is_empty());
    assert_eq!(engine.prepare_cell_update(2, 0, "q").err(), Some("Row out of range".to_string()));
}

#[test]
fn empty_and_mark_only_files_open() {
    let mut engine = CsvEngine::new();
    let info = engine.open_data("empty.csv", FileData::Owned(Vec::new()));
    assert_eq!((info.row_count, info.column_count), (0, 1));
    assert_eq!(info.headers, [""]);
    let info = engine.open_data("bom.csv", FileData::Owned(vec![0xEF, 0xBB, 0xBF]));
    assert_eq!((info.row_count, info.encoding.as_str()), (0, "UTF-8"));
    assert_eq!(engine.get_rows(0, 5, 0, 5).unwrap().len(), 0);
}

#[test]
fn reads_leave_the_rows_read_in_the_cache() {
    let mut engine = CsvEngine::new();
    engine.open_data("cache.csv", FileData::Owned(b"h\n1\n2\n3\n4\n".to_vec()));
    engine.get_rows(1, 2, 0, 1).expect("rows should read");
    assert_eq!(engine.cached_row_count(), 2);
    assert!(engine.is_cached(2) && engine.is_cached(3) && !engine.is_cached(1) && !engine.is_cached(4));
    engine.get_rows_by_index(&[3, 0, 3, 9]).expect("rows should read");
    assert!(engine.is_cached(1) && engine.is_cached(4));
    assert_eq!(engine.cached_row_count(), 4);
}

#[test]
fn an_edited_file_keeps_its_other_records() {
    let mut engine = CsvEngine::new();
    engine.open_data("edit.csv", FileData::Owned(b"a,b\n1,2\n\"x\ny\",3\n4,5".to_vec()));
    let before = engine.row_count();
    edit_cell(&mut engine, 0, 1, "line\nbreak");
    assert_eq!(engine.row_count(), before);
    assert_eq!(engine.get_cell_content(0, 1).expect("cell should read"), "line\nbreak");
    assert_eq!(engine.get_cell_content(1, 0).expect("cell should read"), "x\ny");
    assert_eq!(engine.get_cell_content(2, 1).expect("cell should read"), "5");
    assert_eq!(engine.headers(), ["a", "b"]);
}
