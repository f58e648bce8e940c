use csv_reader::engine::RowData;
use csv_reader::view::{
    color_to_hex, default_export_name, export_file_name, export_form_defaults, format_bytes, missing_row_ranges,
    parse_color, parse_u32, prefetched_row_range, trim_rows, validate_export, ColumnSelection, ExportFormError,
    Language, Rgb, RowSelection,
};
use std::collections::BTreeMap;

fn held_rows(rows: &[u32]) -> BTreeMap<u32, RowData> {
    rows.iter().map(|&r| (r, RowData { cells: vec![r.to_string()], lengths: vec![1] })).collect()
}

#[test]
fn language_storage_values_round_trip() {
    for language in [Language::English, Language::Chinese] {
        assert_eq!(Language::parse(language.storage_value()), Some(language));
    }
    assert_eq!(Language::parse("unsupported"), None);
}

#[test]
fn accent_color_hex_round_trips() {
    let color = Rgb { r: 12, g: 128, b: 254 };
    assert_eq!(color_to_hex(color), "#0C80FE");
    assert_eq!(parse_color(&color_to_hex(color)), Some(color));
    assert_eq!(parse_color("#XYZ123"), None);
}

#[test]
fn row_prefetch_range_changes_by_pages() {
    assert_eq!(prefetched_row_range(0, 20, 1_000), (0, 48));
    assert_eq!(prefetched_row_range(10, 30, 1_000), (0, 48));
    assert_eq!(prefetched_row_range(24, 44, 1_000), (0, 72));
    assert_eq!(prefetched_row_range(990, 1_010, 1_000), (960, 1_000));
}

#[test]
fn prefetch_past_the_end_is_empty_and_large_views_use_larger_pages() {
    assert_eq!(prefetched_row_range(1_000, 1_020, 1_000), (1_000, 1_000));
    assert_eq!(prefetched_row_range(120, 300, 10_000), (60, 300));
    assert_eq!(prefetched_row_range(5, 5, 100), (0, 48));
}

#[test]
fn language_texts_follow_the_language() {
    assert_eq!(Language::English.text("Open", "打开"), "Open");
    assert_eq!(Language::Chinese.text("Open", "打开"), "打开");
    assert!(Language::Chinese.is_chinese());
    assert!(!Language::English.is_chinese());
    assert_eq!(Language::parse("zh-CN"), Some(Language::Chinese));
}

#[test]
fn colors_accept_an_optional_hash_and_plus_signs() {
    assert_eq!(parse_color("0c80fe"), Some(Rgb { r: 12, g: 128, b: 254 }));
    assert_eq!(parse_color("#+F+F+F"), Some(Rgb { r: 15, g: 15, b: 15 }));
    assert_eq!(parse_color("#12345"), None);
    assert_eq!(parse_color("#-12345"), None);
    assert_eq!(color_to_hex(Rgb { r: 0, g: 255, b: 16 }), "#00FF10");
}

#[test]
fn formats_sizes_like_the_float_formatter() {
    assert_eq!(format_bytes(0), "0 B");
    assert_eq!(format_bytes(1023), "1023 B");
    assert_eq!(format_bytes(1024), "1.0 KB");
    assert_eq!(format_bytes(1536), "1.5 KB");
    assert_eq!(format_bytes(1126), "1.1 KB");
    assert_eq!(format_bytes(1075), "1.0 KB");
    assert_eq!(format_bytes(10 * 1024 * 1024 + 512 * 1024), "10.5 MB");
    assert_eq!(format_bytes(3 * 1024 * 1024 * 1024), "3.0 GB");
    for bytes in [1025u64, 1177, 1638, 104_857, 987_654_321, 5_000_000_000, u64::MAX, (1 << 53) + 1] {
        let value = bytes as f64;
        let (value, unit) = if value < 1024.0 {
            (value, "B")
        } else if value < 1024.0 * 1024.0 {
            (value / 1024.0, "KB")
        } else if value < 1024.0 * 1024.0 * 1024.0 {
            (value / (1024.0 * 1024.0), "MB")
        } else {
            (value / (1024.0 * 1024.0 * 1024.0), "GB")
        };
        assert_eq!(format_bytes(bytes), format!("{value:.1} {unit}"));
    }
}

#[test]
fn row_selection_clicks() {
    let mut rows = RowSelection::new();
    assert_eq!(rows.bounds(10), None);
    rows.click(3, false, false);
    assert!(rows.contains(3) && !rows.contains(4));
    rows.click(6, true, false);
    assert!((3..=6).all(|r| rows.contains(r)) && !rows.contains(7));
    assert_eq!(rows.bounds(10), Some((3, 6)));
    assert_eq!(rows.bounds(5), Some((3, 4)));
    rows.click(8, false, true);
    assert!(rows.contains(8) && rows.contains(3));
    rows.click(1, false, true);
    assert_eq!(rows.bounds(100), Some((1, 8)));
    rows.click(8, false, true);
    assert_eq!(rows.bounds(100), Some((1, 6)));
    rows.click(4, false, true);
    assert!(!rows.contains(4) && rows.contains(5) && rows.contains(3));
    rows.clear();
    assert!(!rows.contains(1));
    assert_eq!(rows.bounds(0), None);
}

#[test]
fn ctrl_clicks_keep_the_rest_of_the_selection() {
    let mut rows = RowSelection::new();
    rows.click(5, false, false);
    rows.click(2, false, true);
    assert!(rows.contains(5) && rows.contains(2) && !rows.contains(3));
    rows.click(5, false, true);
    assert!(!rows.contains(5) && rows.contains(2));
    assert!(rows.has_selection());
    assert_eq!(rows.bounds(10), Some((2, 2)));
    rows.click(2, false, true);
    assert!(!rows.has_selection());
    assert_eq!(rows.bounds(10), None);
    rows.click(7, true, false);
    assert!(rows.contains(7));
    assert_eq!(rows.bounds(10), Some((2, 7)));
}

#[test]
fn column_selection_counts() {
    let mut cols = ColumnSelection::new();
    assert!(!cols.has_selection());
    assert_eq!(cols.count(), 0);
    cols.click(4, false, false);
    cols.click(2, true, false);
    assert_eq!(cols.count(), 3);
    assert!(cols.contains(2) && cols.contains(4) && !cols.contains(5));
    cols.click(9, false, true);
    cols.click(11, false, true);
    assert_eq!(cols.count(), 5);
    cols.click(3, false, true);
    assert_eq!(cols.count(), 4);
    assert!(!cols.contains(3) && cols.contains(2) && cols.contains(4));
    cols.clear();
    assert_eq!(cols.count(), 0);
}

#[test]
fn parses_numbers_like_from_str() {
    assert_eq!(parse_u32("42"), Some(42));
    assert_eq!(parse_u32("+7"), Some(7));
    assert_eq!(parse_u32("007"), Some(7));
    assert_eq!(parse_u32("4294967295"), Some(u32::MAX));
    assert_eq!(parse_u32("4294967296"), None);
    assert_eq!(parse_u32(""), None);
    assert_eq!(parse_u32("+"), None);
    assert_eq!(parse_u32("-1"), None);
    assert_eq!(parse_u32("1 "), None);
}

#[test]
fn validates_the_export_form() {
    assert_eq!(validate_export(&[false, false], "1", "2", 5), Err(ExportFormError::NoColumns));
    assert_eq!(validate_export(&[true], "0", "2", 5), Err(ExportFormError::InvalidRange));
    assert_eq!(validate_export(&[true], "x", "2", 5), Err(ExportFormError::InvalidRange));
    assert_eq!(validate_export(&[true], "3", "2", 5), Err(ExportFormError::OutsideFile));
    assert_eq!(validate_export(&[true], "1", "6", 5), Err(ExportFormError::OutsideFile));
    assert_eq!(validate_export(&[false, true, true], "2", "5", 5), Ok((vec![1, 2], 1, 4)));
    assert_eq!(ExportFormError::NoColumns.message(Language::English), "Select at least one column.");
    assert_eq!(ExportFormError::OutsideFile.message(Language::Chinese), "行范围超出文件内容。");
}

#[test]
fn export_form_starts_from_the_selections() {
    let cols = ColumnSelection::new();
    let rows = RowSelection::new();
    assert_eq!(export_form_defaults(&cols, &rows, 3, 40), (vec![true, true, true], "1".to_string(), "40".to_string()));
    let mut cols = ColumnSelection::new();
    cols.click(1, false, true);
    let mut rows = RowSelection::new();
    rows.click(4, false, false);
    rows.click(9, true, false);
    assert_eq!(export_form_defaults(&cols, &rows, 3, 40), (vec![false, true, false], "5".to_string(), "10".to_string()));
}

#[test]
fn names_exports_after_the_file() {
    assert_eq!(default_export_name("/home/me/report.csv"), "report_export.csv");
    assert_eq!(export_file_name(Some("data")), "data_export.csv");
    assert_eq!(export_file_name(None), "export.csv");
}

#[test]
fn finds_rows_not_held_yet() {
    let held = held_rows(&[2, 3, 7]);
    assert_eq!(missing_row_ranges(&held, 0, 10), vec![(0, 2), (4, 7), (8, 10)]);
    assert_eq!(missing_row_ranges(&held, 2, 4), vec![]);
    assert_eq!(missing_row_ranges(&held, 5, 5), vec![]);
    assert_eq!(missing_row_ranges(&held, 3, 8), vec![(4, 7)]);
}

#[test]
fn trims_rows_furthest_from_the_centre_first() {
    let mut held = held_rows(&(0..10).collect::<Vec<u32>>());
    trim_rows(&mut held, 4, 5);
    assert_eq!(held.keys().copied().collect::<Vec<_>>(), vec![2, 3, 4, 5, 6]);
    assert_eq!(held[&3].cells, ["3"]);
    let mut few = held_rows(&[1, 2]);
    trim_rows(&mut few, 0, 5);
    assert_eq!(few.len(), 2);
}

#[test]
fn toggle_clicks_select_columns_clicked_an_odd_number_of_times() {
    let mut cols = ColumnSelection::new();
    for col in [3, 7, 3, 5, 7, 7] {
        cols.click(col, false, true);
    }
    assert!(!cols.contains(3));
    assert!(cols.contains(5));
    assert!(cols.contains(7));
    assert_eq!(cols.count(), 2);
    assert_eq!((0..20).filter(|&c| cols.contains(c)).count(), 2);
}
