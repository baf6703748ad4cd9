//! End-to-end checks of the MO and PO codecs.

use po_mo_catalog::convert::{MoConverter, PoConverter};
use po_mo_catalog::entry::{Catalog, Entry};
use po_mo_catalog::errors::CatalogError;
use po_mo_catalog::escape::{escape_po_string, parse_po_string, unescape_po_string};
use po_mo_catalog::mo::{decode_mo, encode_mo};
use po_mo_catalog::po::{encode_po, parse_po_entries, parse_po_text, validate_po_text};

fn entry(ctx: Option<&str>, src: &str, tr: &str) -> Entry {
    Entry {
        context: ctx.map(|c| c.to_string()),
        source_text: src.to_string(),
        translated_text: tr.to_string(),
        comments: Vec::new(),
        is_fuzzy: false,
        from_main: false,
        line_number: 0,
    }
}

fn lookup<'a>(c: &'a Catalog, ctx: Option<&str>, src: &str) -> Option<&'a Entry> {
    c.entries.iter().find(|e| {
        e.source_text == src && e.context.as_deref() == ctx
    })
}

#[test]
fn escape_round_trip_alphabet() {
    let s = "a\\b\"c\nd\re\tf";
    let esc = escape_po_string(s);
    assert_eq!(esc, "a\\\\b\\\"c\\nd\\re\\tf");
    assert_eq!(unescape_po_string(&esc), s);
}

#[test]
fn escape_round_trip_plain_text() {
    for s in ["", "hello", "取消", "mixed 取消 \t tab", "\\\\", "\"\""] {
        assert_eq!(unescape_po_string(&escape_po_string(s)), s);
    }
}

#[test]
fn unescape_unknown_escape_kept() {
    assert_eq!(unescape_po_string("\\x"), "\\x");
    assert_eq!(unescape_po_string("a\\qb"), "a\\qb");
}

#[test]
fn unescape_trailing_backslash_kept() {
    assert_eq!(unescape_po_string("abc\\"), "abc\\");
}

#[test]
fn parse_po_string_strips_quotes() {
    assert_eq!(parse_po_string("\"a\\nb\"").as_deref(), Some("a\nb"));
    assert_eq!(parse_po_string("no quotes"), None);
    assert_eq!(parse_po_string("\""), None);
}

#[test]
fn mo_decode_short_buffer_is_format_error() {
    let buf: Vec<u8> = vec![0u8; 19];
    assert_eq!(decode_mo(&buf), Err(CatalogError::Format { line: 0 }));
}

#[test]
fn mo_decode_bad_magic_is_format_error() {
    let mut buf: Vec<u8> = vec![0u8; 28];
    buf[0] = 0xDE;
    buf[1] = 0x12;
    buf[2] = 0x04;
    buf[3] = 0x94; // one bit off the real magic
    assert!(matches!(decode_mo(&buf), Err(CatalogError::Format { .. })));
}

#[test]
fn mo_decode_header_only_buffer() {
    // N = 1 with source "" and a Content-Type translation.
    let value = "Content-Type: text/plain; charset=UTF-8\n".as_bytes();
    let mut buf: Vec<u8> = Vec::new();
    buf.extend_from_slice(&0x950412DEu32.to_le_bytes());
    buf.extend_from_slice(&0u32.to_le_bytes());
    buf.extend_from_slice(&1u32.to_le_bytes());
    buf.extend_from_slice(&28u32.to_le_bytes());
    buf.extend_from_slice(&36u32.to_le_bytes());
    buf.extend_from_slice(&0u32.to_le_bytes());
    buf.extend_from_slice(&0u32.to_le_bytes());
    // originals table: one empty string at offset 44
    buf.extend_from_slice(&0u32.to_le_bytes());
    buf.extend_from_slice(&44u32.to_le_bytes());
    // translations table
    buf.extend_from_slice(&(value.len() as u32).to_le_bytes());
    buf.extend_from_slice(&45u32.to_le_bytes());
    // pool
    buf.push(0);
    buf.extend_from_slice(value);
    buf.push(0);
    let c = decode_mo(&buf).expect("well-formed MO");
    assert_eq!(
        c.header.as_deref(),
        Some("Content-Type: text/plain; charset=UTF-8\n")
    );
    assert_eq!(c.entries.len(), 0);
}

#[test]
fn mo_decode_invalid_utf8_is_format_error() {
    let mut buf: Vec<u8> = Vec::new();
    buf.extend_from_slice(&0x950412DEu32.to_le_bytes());
    buf.extend_from_slice(&0u32.to_le_bytes());
    buf.extend_from_slice(&1u32.to_le_bytes());
    buf.extend_from_slice(&28u32.to_le_bytes());
    buf.extend_from_slice(&36u32.to_le_bytes());
    buf.extend_from_slice(&0u32.to_le_bytes());
    buf.extend_from_slice(&0u32.to_le_bytes());
    buf.extend_from_slice(&2u32.to_le_bytes());
    buf.extend_from_slice(&44u32.to_le_bytes());
    buf.extend_from_slice(&0u32.to_le_bytes());
    buf.extend_from_slice(&47u32.to_le_bytes());
    buf.extend_from_slice(&[0xC3, 0x28, 0x00, 0x00]); // invalid UTF-8 key
    assert!(matches!(decode_mo(&buf), Err(CatalogError::Format { .. })));
}

#[test]
fn mo_round_trip_catalog() {
    let c = Catalog {
        header: Some("Content-Type: text/plain; charset=UTF-8\n".to_string()),
        entries: vec![
            entry(None, "Cancel", "取消"),
            entry(Some("menu"), "Open", "打开"),
            entry(None, "Apply", ""),
        ],
    };
    let bytes = encode_mo(c).expect("fits in 32 bits");
    let back = decode_mo(&bytes).expect("round trip decodes");
    assert_eq!(
        back.header.as_deref(),
        Some("Content-Type: text/plain; charset=UTF-8\n")
    );
    assert_eq!(back.entries.len(), 3);
    assert_eq!(
        lookup(&back, None, "Cancel").unwrap().translated_text,
        "取消"
    );
    assert_eq!(
        lookup(&back, Some("menu"), "Open").unwrap().translated_text,
        "打开"
    );
    assert_eq!(lookup(&back, None, "Apply").unwrap().translated_text, "");
}

#[test]
fn mo_entries_sorted_by_source() {
    let c = Catalog {
        header: None,
        entries: vec![entry(None, "b", "2"), entry(None, "a", "1")],
    };
    let bytes = encode_mo(c).expect("encodes");
    let back = decode_mo(&bytes).expect("decodes");
    assert_eq!(back.entries[0].source_text, "a");
    assert_eq!(back.entries[1].source_text, "b");
}

#[test]
fn po_round_trip_cancel() {
    let input = "msgid \"Cancel\"\nmsgstr \"取消\"\n\n";
    let (header, entries) = parse_po_entries(input, false).expect("parses");
    assert_eq!(header, None);
    assert_eq!(entries.len(), 1);
    assert_eq!(entries[0].context, None);
    assert_eq!(entries[0].source_text, "Cancel");
    assert_eq!(entries[0].translated_text, "取消");

    let c = parse_po_text(input, false).expect("parses");
    let out = encode_po(c);
    // The entry re-encodes to the same two lines plus the blank line;
    // a synthesized default header block precedes them.
    assert!(out.ends_with("msgid \"Cancel\"\nmsgstr \"取消\"\n\n"));
    assert!(out.starts_with("msgid \"\"\nmsgstr \"\"\n"));
}

#[test]
fn po_round_trip_catalog_semantics() {
    let c = Catalog {
        header: Some("Language: zh_CN\n".to_string()),
        entries: vec![
            entry(None, "Cancel", "取消"),
            entry(Some("menu"), "Open", "打开"),
        ],
    };
    let text = encode_po(c);
    let back = parse_po_text(&text, false).expect("parses");
    assert_eq!(back.header.as_deref(), Some("Language: zh_CN\n"));
    assert_eq!(back.entries.len(), 2);
    assert_eq!(
        lookup(&back, None, "Cancel").unwrap().translated_text,
        "取消"
    );
    assert_eq!(
        lookup(&back, Some("menu"), "Open").unwrap().translated_text,
        "打开"
    );
}

#[test]
fn po_parser_reads_comments_fuzzy_and_continuations() {
    let input = "#, fuzzy\n# a note\nmsgid \"Long\"\n\"er\"\nmsgstr \"translation\"\n\n";
    let (_, entries) = parse_po_entries(input, true).expect("parses");
    assert_eq!(entries.len(), 1);
    assert_eq!(entries[0].source_text, "Longer");
    assert!(entries[0].is_fuzzy);
    assert!(entries[0].from_main);
    assert_eq!(entries[0].comments, vec!["#, fuzzy", "# a note"]);
}

#[test]
fn po_parser_rejects_garbage_line() {
    let input = "msgid \"a\"\nbogus line\n";
    assert_eq!(
        parse_po_entries(input, false).unwrap_err(),
        CatalogError::Format { line: 2 }
    );
}

#[test]
fn po_parser_header_block() {
    let input = "msgid \"\"\nmsgstr \"\"\n\"Language: zh_CN\\n\"\n\n";
    let (header, entries) = parse_po_entries(input, false).expect("parses");
    assert_eq!(header.as_deref(), Some("Language: zh_CN\n"));
    assert_eq!(entries.len(), 0);
}

#[test]
fn po_encoder_splits_long_strings() {
    let long = "x".repeat(81);
    let c = Catalog {
        header: None,
        entries: vec![entry(None, "key", &long)],
    };
    let text = encode_po(c);
    assert!(text.contains(&format!("msgstr \"\"\n\"{}\\n\"\n", long)));
}

#[test]
fn validate_detects_msgstr_before_msgid() {
    let bad = "msgstr \"x\"\n\n";
    assert_eq!(
        validate_po_text(bad),
        Err(CatalogError::Validation { line: 1 })
    );
}

#[test]
fn validate_detects_incomplete_entry() {
    let bad = "msgid \"a\"\n\n";
    assert_eq!(
        validate_po_text(bad),
        Err(CatalogError::Validation { line: 2 })
    );
    assert_eq!(validate_po_text("msgid \"a\"\nmsgstr \"b\"\n\n"), Ok(()));
}

#[test]
fn convert_po_to_mo_and_back() {
    let input = "msgid \"Cancel\"\nmsgstr \"取消\"\n\n";
    let bytes = PoConverter::convert_po_to_mo(input).expect("converts");
    let text = MoConverter::convert_mo_to_po(&bytes).expect("converts back");
    assert!(text.contains("msgid \"Cancel\"\nmsgstr \"取消\"\n"));
    // The synthesized header survives the binary round trip.
    assert!(text.contains("Content-Type: text/plain; charset=UTF-8"));
}

#[test]
fn convert_mo_to_po_rejects_garbage() {
    let buf: Vec<u8> = vec![1, 2, 3];
    assert_eq!(
        MoConverter::convert_mo_to_po(&buf),
        Err(CatalogError::Format { line: 0 })
    );
}

#[test]
fn po_multi_line_translation_round_trip() {
    let c = Catalog {
        header: None,
        entries: vec![entry(None, "para", "line1\nline2\n")],
    };
    let text = encode_po(c);
    assert!(text.contains("msgstr \"\"\n\"line1\\n\"\n\"line2\\n\"\n"));
    let back = parse_po_text(&text, false).expect("parses");
    assert_eq!(
        lookup(&back, None, "para").unwrap().translated_text,
        "line1\nline2\n"
    );
}

#[test]
fn convert_po_to_mo_reports_parse_error() {
    assert_eq!(
        PoConverter::convert_po_to_mo("msgid \"a\"\n???\n"),
        Err(CatalogError::Format { line: 2 })
    );
}
