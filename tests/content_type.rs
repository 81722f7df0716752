use content_type::{ExtensionTable, MediaType, RawMediaType, generate, get_content_type, parse_mimes, to_media_type};

fn media(type_: &str, subtype: &str) -> MediaType {
    MediaType { type_: type_.to_string(), subtype: subtype.to_string(), parameters: vec![] }
}

fn rec(ext: &str, type_: &str, subtype: &str) -> (String, String, String) {
    (ext.to_string(), type_.to_string(), subtype.to_string())
}

fn table(text: &str) -> ExtensionTable {
    ExtensionTable::from_registry(text).unwrap()
}

#[test]
fn test_basic() {
    let t = table("# media\nvideo/x-flv\t\t\t\t\tflv\ntext/plain\t\t\t\t\ttxt text\n");
    assert_eq!(get_content_type(&t, "flv").unwrap(),
               MediaType { type_: "video".to_string(), subtype: "x-flv".to_string(), parameters: vec![] });
}

#[test]
fn comments_and_empty_lines_give_no_records() {
    assert_eq!(parse_mimes("# one\n\n#two\n#\n").unwrap(), vec![]);
    assert_eq!(parse_mimes("").unwrap(), vec![]);
    assert_eq!(table("# only a comment").len(), 0);
}

#[test]
fn malformed_line_is_rejected_with_its_text() {
    let e = parse_mimes("text/plain txt\nnot-a-valid-entry\nimage/png png").unwrap_err();
    assert!(e.contains("not-a-valid-entry"));
    assert_eq!(e, "'not-a-valid-entry' does not match the pattern type/subtype [extension]");
    assert!(ExtensionTable::from_registry("not-a-valid-entry").is_err());
    assert!(generate("not-a-valid-entry").is_err());
}

#[test]
fn first_malformed_line_is_reported() {
    let e = parse_mimes("first-bad\nsecond-bad").unwrap_err();
    assert_eq!(e, "'first-bad' does not match the pattern type/subtype [extension]");
}

#[test]
fn whitespace_only_line_is_malformed() {
    assert!(parse_mimes("text/plain txt\n   \n").is_err());
}

#[test]
fn first_record_wins() {
    let text = "text/plain txt\ntext/x-other txt";
    assert_eq!(parse_mimes(text).unwrap(), vec![rec("txt", "text", "plain")]);
    let t = table(text);
    assert_eq!(t.lookup("txt"), Some(media("text", "plain")));
    assert_eq!(t.len(), 1);
}

#[test]
fn empty_extension_is_never_a_key() {
    let text = "application/octet-stream\ntext/plain txt";
    assert_eq!(parse_mimes(text).unwrap(),
               vec![rec("", "application", "octet-stream"), rec("txt", "text", "plain")]);
    let t = table(text);
    assert_eq!(t.lookup(""), None);
    assert_eq!(t.len(), 1);
    assert!(!generate(text).unwrap().contains("\"\" =>"));
}

#[test]
fn exact_match_is_case_sensitive() {
    let t = table("video/x-flv   flv");
    assert_eq!(t.lookup("flv"), Some(media("video", "x-flv")));
    assert_eq!(t.lookup("FLV"), None);
    assert_eq!(t.lookup(".flv"), None);
}

#[test]
fn absent_extension_is_not_found() {
    let t = table("video/x-flv   flv\ntext/plain txt");
    assert_eq!(t.lookup("some-extension-never-in-registry"), None);
    assert_eq!(get_content_type(&t, "some-extension-never-in-registry"), None);
}

#[test]
fn two_line_registry_end_to_end() {
    let text = "video/x-flv            flv\ntext/plain              txt, text";
    assert_eq!(parse_mimes(text).unwrap(),
               vec![rec("flv", "video", "x-flv"), rec("txt,", "text", "plain")]);
    let t = table(text);
    assert_eq!(t.len(), 2);
    assert_eq!(t.lookup("flv"), Some(media("video", "x-flv")));
    assert_eq!(t.lookup("txt,"), Some(media("text", "plain")));
    assert_eq!(t.lookup("txt"), None);
    assert_eq!(t.lookup("text"), None);
}

#[test]
fn fields_split_at_last_slash_of_first_slashed_token() {
    assert_eq!(parse_mimes("  lead a/b/c   ext more").unwrap(), vec![rec("ext", "a/b", "c")]);
    assert_eq!(parse_mimes("/ x").unwrap(), vec![rec("x", "", "")]);
}

#[test]
fn crlf_line_endings_are_stripped() {
    assert_eq!(parse_mimes("text/plain txt\r\nimage/png png\r\n").unwrap(),
               vec![rec("txt", "text", "plain"), rec("png", "image", "png")]);
}

#[test]
fn unicode_whitespace_separates_fields() {
    assert_eq!(parse_mimes("text/plain\u{3000}txt").unwrap(), vec![rec("txt", "text", "plain")]);
}

#[test]
fn table_from_records_keeps_first_and_skips_empty() {
    let records = vec![rec("b", "x", "1"), rec("", "x", "2"), rec("a", "y", "3"), rec("b", "z", "4")];
    let t = ExtensionTable::from_records(&records);
    assert_eq!(t.len(), 2);
    assert_eq!(t.lookup("a"), Some(media("y", "3")));
    assert_eq!(t.lookup("b"), Some(media("x", "1")));
    assert_eq!(t.lookup(""), None);
}

#[test]
fn table_with_many_entries() {
    let mut text = String::new();
    for i in 0..1000 {
        text.push_str(&format!("type{}/sub{} e{}\n", i % 7, i, i));
    }
    let t = table(&text);
    assert_eq!(t.len(), 1000);
    for i in 0..1000 {
        assert_eq!(t.lookup(&format!("e{}", i)), Some(media(&format!("type{}", i % 7), &format!("sub{}", i))));
    }
    assert_eq!(t.lookup("e1000"), None);
}

#[test]
fn to_media_type_copies_fields() {
    let raw = RawMediaType { type_: "text".to_string(), subtype: "html".to_string() };
    assert_eq!(to_media_type(&raw), media("text", "html"));
}

#[test]
fn generate_renders_one_arm_per_extension() {
    let out = generate("# c\ntext/plain txt\ntext/x-other txt\nvideo/x-flv flv").unwrap();
    let expected = "// Extension-to-media-type table.\n\nuse content_type::MediaType;\n\npub fn lookup(ext: &str) -> Option<MediaType> {\n    match ext {\n        \"txt\" => Some(MediaType {\n            type_: \"text\".to_string(),\n            subtype: \"plain\".to_string(),\n            parameters: vec![]\n        }),\n        \"flv\" => Some(MediaType {\n            type_: \"video\".to_string(),\n            subtype: \"x-flv\".to_string(),\n            parameters: vec![]\n        }),\n        _ => None\n    }\n}\n";
    assert_eq!(out, expected);
}

#[test]
fn generate_of_empty_registry_has_only_fallback() {
    let out = generate("").unwrap();
    assert_eq!(out, "// Extension-to-media-type table.\n\nuse content_type::MediaType;\n\npub fn lookup(ext: &str) -> Option<MediaType> {\n    match ext {\n        _ => None\n    }\n}\n");
}

#[test]
fn generate_escapes_quotes_and_backslashes() {
    let out = generate("a\"b/c\\d e\"f").unwrap();
    assert!(out.contains("        \"e\\\"f\" => Some(MediaType {\n            type_: \"a\\\"b\".to_string(),\n            subtype: \"c\\\\d\".to_string(),"));
}
