use csv_reader::encoding::{
    codec_for_encoding, contains_gb18030_four_byte_sequence, decode_row, detect_bom, detect_encoding, encode_text,
    encoding_display_name, line_ending_len, ENCODING_GB18030, ENCODING_GBK, ENCODING_UTF16_LE, ENCODING_UTF8,
};
use csv_reader::index::{build_index, RowOffsets};
use encoding_rs::{BIG5, EUC_JP, EUC_KR, GB18030, GBK, SHIFT_JIS, WINDOWS_1252};

fn utf16_fixture(text: &str, little_endian: bool) -> Vec<u8> {
    let mut bytes = if little_endian { vec![0xFF, 0xFE] } else { vec![0xFE, 0xFF] };
    for unit in text.encode_utf16() {
        bytes.extend(if little_endian { unit.to_le_bytes() } else { unit.to_be_bytes() });
    }
    bytes
}

fn legacy_fixture(text: &str, encoding: &'static encoding_rs::Encoding) -> Vec<u8> {
    let (bytes, _, had_errors) = encoding.encode(text);
    assert!(!had_errors, "fixture must be representable");
    bytes.into_owned()
}

fn decode_row_bytes(bytes: &[u8], offsets: &RowOffsets, row_index: usize, encoding: &str) -> String {
    let start = offsets.get(row_index) as usize;
    let end = if row_index + 1 < offsets.len() { offsets.get(row_index + 1) as usize } else { bytes.len() };
    let units: Vec<u16> = bytes[start..end]
        .chunks_exact(2)
        .map(|chunk| {
            if encoding == "utf16le" {
                u16::from_le_bytes([chunk[0], chunk[1]])
            } else {
                u16::from_be_bytes([chunk[0], chunk[1]])
            }
        })
        .collect();
    String::from_utf16(&units).expect("fixture should contain valid UTF-16")
}

#[test]
fn detects_common_csv_encodings_without_manual_selection() {
    assert_eq!(detect_encoding("姓名,城市\n张三,北京".as_bytes()), (ENCODING_UTF8.to_string(), 0));

    let gbk = legacy_fixture("姓名,城市\n张三,北京", GBK);
    assert_eq!(detect_encoding(&gbk), (ENCODING_GBK.to_string(), 0));

    let utf16_le: Vec<u8> = "name,城市\nvalue,北京".encode_utf16().flat_map(u16::to_le_bytes).collect();
    assert_eq!(detect_encoding(&utf16_le), (ENCODING_UTF16_LE.to_string(), 0));

    let gb18030 = legacy_fixture("name,value\nemoji,😀", GB18030);
    assert!(contains_gb18030_four_byte_sequence(&gb18030));
    assert_eq!(detect_encoding(&gb18030), (ENCODING_GB18030.to_string(), 0));
}

#[test]
fn detects_additional_legacy_encodings() {
    let samples = [
        (BIG5, "姓名,城市,備註\n陳大文,臺北,繁體中文資料\n林美玲,高雄,測試內容\n王小明,臺中,聯絡資訊\n"),
        (SHIFT_JIS, "名前,都市,備考\n山田太郎,東京,日本語データ\n鈴木花子,大阪,テスト内容\n佐藤一郎,京都,連絡情報\n"),
        (EUC_JP, "名前,都市,備考\n山田太郎,東京,日本語データ\n鈴木花子,大阪,テスト内容\n佐藤一郎,京都,連絡情報\n"),
        (EUC_KR, "이름,도시,비고\n김민수,서울,한국어 자료\n이영희,부산,테스트 내용\n박철수,대구,연락 정보\n"),
        (WINDOWS_1252, "name,city,notes\nAndré,Paris,résumé\nJürgen,München,größer\nFrançois,Zürich,élève\n"),
    ];

    for (encoding, text) in samples {
        let bytes = legacy_fixture(text, encoding);
        let (detected, bom_offset) = detect_encoding(&bytes);
        assert_eq!(bom_offset, 0);
        assert_eq!(
            codec_for_encoding(&detected).encoding(),
            encoding,
            "failed to detect {} (reported {detected})",
            encoding.name()
        );
        assert_eq!(codec_for_encoding(&detected).encoding().decode_without_bom_handling(&bytes).0, text);
    }
}

#[test]
fn uses_compact_offsets_for_files_up_to_four_gibibytes() {
    let offsets = build_index(b"header\none\ntwo\n", 0, "utf8");
    assert!(matches!(offsets, RowOffsets::U32(_)));
    assert_eq!(offsets.get(2), 11);

    if usize::BITS > 32 {
        let offsets = RowOffsets::with_capacity(u32::MAX as usize + 1, 0);
        assert!(matches!(offsets, RowOffsets::U64(_)));
    }
}

#[test]
fn utf16_index_ignores_newlines_inside_quotes() {
    for (little_endian, encoding) in [(true, "utf16le"), (false, "utf16be")] {
        let bytes = utf16_fixture("first,second\r\n\"multi\r\nline\",value\r\nlast,row", little_endian);
        let offsets = build_index(&bytes, 2, encoding);
        assert_eq!(offsets.len(), 3);
        assert_eq!(
            csv_reader::csv_line::parse_csv_line(&decode_row_bytes(&bytes, &offsets, 1, encoding), ','),
            ["multi\r\nline", "value"]
        );
    }
}

#[test]
fn index_records_start_after_each_line_break_outside_quotes() {
    let offsets = build_index(b"a,b\r\n\"x\ny\",z\rlast\n", 0, "utf8");
    let found: Vec<u64> = (0..offsets.len()).map(|k| offsets.get(k)).collect();
    assert_eq!(found, vec![0, 5, 13]);
    let empty = build_index(b"", 0, "utf8");
    assert_eq!(empty.len(), 1);
    let only_mark = build_index(&[0xEF, 0xBB, 0xBF], 3, "utf8");
    assert_eq!((only_mark.len(), only_mark.get(0)), (1, 3));
}

#[test]
fn index_offsets_increase_and_stay_inside_the_file() {
    let data = b"h1,h2\n1,2\n\n3,\"4\n5\"\n6,7";
    let offsets = build_index(data, 0, "utf8");
    for k in 1..offsets.len() {
        assert!(offsets.get(k - 1) < offsets.get(k));
        assert!((offsets.get(k) as usize) < data.len());
    }
}

#[test]
fn detects_byte_order_marks() {
    assert_eq!(detect_encoding(&[0xEF, 0xBB, 0xBF, b'a']), ("utf8".to_string(), 3));
    assert_eq!(detect_encoding(&[0xFF, 0xFE, b'a', 0]), ("utf16le".to_string(), 2));
    assert_eq!(detect_encoding(&[0xFE, 0xFF, 0, b'a']), ("utf16be".to_string(), 2));
    let be: Vec<u8> = "name,value\nx,y".encode_utf16().flat_map(u16::to_be_bytes).collect();
    assert_eq!(detect_encoding(&be), ("utf16be".to_string(), 0));
}

#[test]
fn decodes_rows_in_their_encoding() {
    assert_eq!(decode_row("张三,北京".as_bytes(), "utf8"), "张三,北京");
    assert_eq!(decode_row(&legacy_fixture("张三,北京", GBK), "gbk"), "张三,北京");
    assert_eq!(decode_row(&legacy_fixture("😀", GB18030), "gb18030"), "😀");
    let le: Vec<u8> = "一,二".encode_utf16().flat_map(u16::to_le_bytes).collect();
    assert_eq!(decode_row(&le, "utf16le"), "一,二");
    assert_eq!(decode_row(&[0x41], "utf16le"), "");
    assert_eq!(decode_row(&[0x66, 0x6F, 0xFF], "utf8"), "fo\u{FFFD}");
}

#[test]
fn encodes_text_in_the_file_encoding_or_reports_why_not() {
    assert_eq!(encode_text("新,值", "utf16le").unwrap(), vec![0xB0, 0x65, 0x2C, 0x00, 0x3C, 0x50]);
    assert_eq!(encode_text("新,值", "utf16be").unwrap(), vec![0x65, 0xB0, 0x00, 0x2C, 0x50, 0x3C]);
    assert_eq!(encode_text("广州", "gbk").unwrap(), legacy_fixture("广州", GBK));
    assert_eq!(encode_text("ok", "utf8").unwrap(), b"ok".to_vec());
    assert_eq!(
        encode_text("😀", "gbk"),
        Err("Text contains characters that cannot be represented in GBK".to_string())
    );
}

#[test]
fn names_encodings_for_display() {
    assert_eq!(encoding_display_name("utf8"), "UTF-8");
    assert_eq!(encoding_display_name("utf16le"), "UTF-16 LE");
    assert_eq!(encoding_display_name("utf16be"), "UTF-16 BE");
    assert_eq!(encoding_display_name("gbk"), "GBK");
    assert_eq!(encoding_display_name("gb18030"), "GB18030");
    assert_eq!(encoding_display_name("Big5"), "Big5");
}

#[test]
fn measures_line_endings() {
    assert_eq!(line_ending_len(b"a,b\r\n", "utf8"), 2);
    assert_eq!(line_ending_len(b"a,b\n", "utf8"), 1);
    assert_eq!(line_ending_len(b"a,b\r", "gbk"), 1);
    assert_eq!(line_ending_len(b"a,b", "utf8"), 0);
    assert_eq!(line_ending_len(&[0x61, 0, 0x0D, 0, 0x0A, 0], "utf16le"), 4);
    assert_eq!(line_ending_len(&[0, 0x61, 0, 0x0A], "utf16be"), 2);
}

#[test]
fn reads_byte_order_marks_alone() {
    assert_eq!(detect_bom(&[0xEF, 0xBB, 0xBF, b'x']), ("utf8".to_string(), 3));
    assert_eq!(detect_bom(&[0xFF, 0xFE]), ("utf16le".to_string(), 2));
    assert_eq!(detect_bom(&[0xFE, 0xFF, 0, 1]), ("utf16be".to_string(), 2));
    assert_eq!(detect_bom(b"a,b"), ("utf8".to_string(), 0));
    assert_eq!(detect_bom(&[0xEF, 0xBB]), ("utf8".to_string(), 0));
}
