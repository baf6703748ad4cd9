//! Checks of the merge engine and the CSV adapter.

use po_mo_catalog::csv::{parse_csv_line, CsvConverter};
use po_mo_catalog::errors::CatalogError;
use po_mo_catalog::merge::merge_po_files;
use po_mo_catalog::po::parse_po_text;

fn find_translation(po_text: &str, src: &str) -> Option<String> {
    let c = parse_po_text(po_text, false).expect("merged output parses");
    c.entries
        .iter()
        .find(|e| e.source_text == src && e.context.is_none())
        .map(|e| e.translated_text.clone())
}

#[test]
fn merge_overlay_overwrites_main() {
    let main = "msgid \"OK\"\nmsgstr \"确定\"\n\n".to_string();
    let overlay = "msgid \"OK\"\nmsgstr \"好\"\n\n".to_string();
    let out = merge_po_files(&vec![main, overlay], false).expect("merges");
    assert_eq!(find_translation(&out, "OK").as_deref(), Some("好"));
}

#[test]
fn merge_ignore_main_keeps_main() {
    let main = "msgid \"OK\"\nmsgstr \"确定\"\n\n".to_string();
    let overlay = "msgid \"OK\"\nmsgstr \"好\"\n\n".to_string();
    let out = merge_po_files(&vec![main, overlay], true).expect("merges");
    assert_eq!(find_translation(&out, "OK").as_deref(), Some("确定"));
}

#[test]
fn merge_fuzzy_entry_blocks_non_main_override() {
    // A fuzzy existing entry is kept against a later non-main source.
    let main = "#, fuzzy\nmsgid \"OK\"\nmsgstr \"确定\"\n\n".to_string();
    let overlay = "msgid \"OK\"\nmsgstr \"好\"\n\n".to_string();
    let out = merge_po_files(&vec![main, overlay], false).expect("merges");
    assert_eq!(find_translation(&out, "OK").as_deref(), Some("确定"));
}

#[test]
fn merge_keeps_main_header() {
    let main = "msgid \"\"\nmsgstr \"\"\n\"Language: zh_CN\\n\"\n\nmsgid \"A\"\nmsgstr \"1\"\n\n"
        .to_string();
    let overlay = "msgid \"\"\nmsgstr \"\"\n\"Language: de_DE\\n\"\n\nmsgid \"B\"\nmsgstr \"2\"\n\n"
        .to_string();
    let out = merge_po_files(&vec![main, overlay], false).expect("merges");
    let c = parse_po_text(&out, false).expect("parses");
    assert_eq!(c.header.as_deref(), Some("Language: zh_CN\n"));
    assert_eq!(find_translation(&out, "A").as_deref(), Some("1"));
    assert_eq!(find_translation(&out, "B").as_deref(), Some("2"));
}

#[test]
fn merge_without_inputs_is_empty_input_error() {
    assert_eq!(
        merge_po_files(&Vec::new(), false),
        Err(CatalogError::EmptyInput)
    );
}

#[test]
fn merge_reports_parse_error_line() {
    let bad = "msgid \"A\"\nwhat is this\n".to_string();
    assert_eq!(
        merge_po_files(&vec![bad], false),
        Err(CatalogError::Format { line: 2 })
    );
}

#[test]
fn merge_entries_sorted_in_output() {
    let main = "msgid \"b\"\nmsgstr \"2\"\n\nmsgid \"a\"\nmsgstr \"1\"\n\n".to_string();
    let out = merge_po_files(&vec![main], false).expect("merges");
    let pos_a = out.find("msgid \"a\"").unwrap();
    let pos_b = out.find("msgid \"b\"").unwrap();
    assert!(pos_a < pos_b);
}

#[test]
fn csv_line_quoted_commas_and_doubled_quotes() {
    assert_eq!(
        parse_csv_line("\"a,b\",\"say \"\"hi\"\"\""),
        vec!["a,b".to_string(), "say \"hi\"".to_string()]
    );
}

#[test]
fn csv_line_tab_fallback() {
    assert_eq!(
        parse_csv_line("one\ttwo"),
        vec!["one".to_string(), "two".to_string()]
    );
}

#[test]
fn csv_line_semicolon_and_pipe_fallback() {
    assert_eq!(
        parse_csv_line("one; two"),
        vec!["one".to_string(), "two".to_string()]
    );
    assert_eq!(
        parse_csv_line("one | two"),
        vec!["one".to_string(), "two".to_string()]
    );
}

#[test]
fn csv_header_row_skipped() {
    let input = "源语言,翻译\nHello,你好\n";
    let out = CsvConverter::convert_csv_to_po_dated(input, "2024-01-01 00:00+0000")
        .expect("converts");
    assert!(out.contains("msgid \"Hello\"\nmsgstr \"你好\"\n\n"));
    assert!(!out.contains("源语言"));
    assert!(out.contains("POT-Creation-Date: 2024-01-01 00:00+0000"));
    let c = parse_po_text(&out, false).expect("output parses");
    assert_eq!(c.entries.len(), 1);
    assert_eq!(c.entries[0].source_text, "Hello");
    assert_eq!(c.entries[0].translated_text, "你好");
}

#[test]
fn csv_bom_and_blank_lines_skipped() {
    let input = "\u{feff}msgid,msgstr\n\nA,1\n";
    let out = CsvConverter::convert_csv_to_po_dated(input, "d").expect("converts");
    assert!(out.contains("msgid \"A\"\nmsgstr \"1\"\n\n"));
}

#[test]
fn csv_without_rows_is_empty_input_error() {
    let input = "源语言,翻译\n";
    assert_eq!(
        CsvConverter::convert_csv_to_po_dated(input, "d"),
        Err(CatalogError::EmptyInput)
    );
}

#[test]
fn csv_empty_first_field_skipped() {
    let input = ",ignored\nB,2\n";
    let out = CsvConverter::convert_csv_to_po_dated(input, "d").expect("converts");
    assert!(!out.contains("ignored"));
    assert!(out.contains("msgid \"B\"\nmsgstr \"2\"\n\n"));
}

#[test]
fn csv_with_current_date_runs() {
    let out = CsvConverter::convert_csv_to_po("Hello,你好\n").expect("converts");
    assert!(out.starts_with("msgid \"\"\nmsgstr \"\"\n"));
    assert!(out.contains("msgid \"Hello\"\nmsgstr \"你好\"\n\n"));
}
