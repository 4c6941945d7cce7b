use richls::pdf::{find_pdf_metadata_title, is_pdf, normalize_title, pdf_display_label};
use richls::pdf_lex::{key_has_boundary, read_dictionary_slice};

#[test]
fn extracts_indirect_metadata_title() {
    let bytes = b"%PDF-1.4
1 0 obj << /Title (report_final.pdf) >> endobj
2 0 obj << /Title (Generic Malware Unpacking) /Author (rin) >> endobj
trailer << /Root 3 0 R /Info 2 0 R >>";

    assert_eq!(
        find_pdf_metadata_title(bytes),
        Some("Generic Malware Unpacking".to_string())
    );
}

#[test]
fn extracts_direct_metadata_title() {
    let bytes = b"%PDF-1.4
trailer << /Info << /Title (Direct Metadata Title) >> >>";

    assert_eq!(
        find_pdf_metadata_title(bytes),
        Some("Direct Metadata Title".to_string())
    );
}

#[test]
fn extracts_escaped_title() {
    let bytes = br"1 0 obj << /Title (A \(Small\) Paper) >> endobj
trailer << /Info 1 0 R >>";

    assert_eq!(find_pdf_metadata_title(bytes), Some("A (Small) Paper".to_string()));
}

#[test]
fn extracts_utf16_hex_title() {
    let bytes = b"1 0 obj << /Title <FEFF65E5672C8A9E> >> endobj
trailer << /Info 1 0 R >>";

    assert_eq!(find_pdf_metadata_title(bytes), Some("日本語".to_string()));
}

#[test]
fn skips_similar_keys_and_malformed_titles() {
    assert_eq!(
        find_pdf_metadata_title(b"trailer << /Info << /TitleFont (Helvetica) >> >>"),
        None
    );
    assert_eq!(
        find_pdf_metadata_title(b"trailer << /Info << /Title <not-hex> >> >>"),
        None
    );
    assert_eq!(find_pdf_metadata_title(b"trailer << /Info << /Author (rin) >> >>"), None);
}

#[test]
fn omits_empty_blank_and_broken_titles() {
    assert_eq!(find_pdf_metadata_title(b"trailer << /Info << /Title () >> >>"), None);
    assert_eq!(find_pdf_metadata_title(b"trailer << /Info << /Title (   ) >> >>"), None);
    assert_eq!(find_pdf_metadata_title(b"not a valid metadata trailer"), None);
}

#[test]
fn normalizes_title_whitespace() {
    let bytes = b"trailer << /Info << /Title (  A
  Small\tPaper  ) >> >>";

    assert_eq!(find_pdf_metadata_title(bytes), Some("A Small Paper".to_string()));
}

#[test]
fn labels_available_titles() {
    assert_eq!(
        pdf_display_label(Some("  Generic Malware Unpacking  ")),
        Some("PDF: Generic Malware Unpacking".to_string())
    );
}

#[test]
fn omits_label_when_title_is_unavailable() {
    assert_eq!(pdf_display_label(None), None);
    assert_eq!(pdf_display_label(Some("  ")), None);
}

#[test]
fn later_info_keys_take_precedence() {
    let bytes = b"trailer << /Info << /Title (First) >> >>
trailer << /Info << /Title (Second) >> >>";
    assert_eq!(find_pdf_metadata_title(bytes), Some("Second".to_string()));
    let fallback = b"trailer << /Info << /Title (First) >> >>
trailer << /Info << /Title () >> >>";
    assert_eq!(find_pdf_metadata_title(fallback), Some("First".to_string()));
}

#[test]
fn decodes_escapes_nesting_and_odd_hex() {
    assert_eq!(
        find_pdf_metadata_title(br"trailer << /Info << /Title (a\tb (c) d\\e) >> >>"),
        Some("a b (c) d\\e".to_string())
    );
    assert_eq!(
        find_pdf_metadata_title(b"trailer << /Info << /Title <41 42 4> >> >>"),
        Some("AB@".to_string())
    );
    assert_eq!(
        find_pdf_metadata_title(b"trailer << /Info << /Title (unterminated >> >>"),
        None
    );
}

#[test]
fn decodes_invalid_utf8_lossily_and_rejects_bad_utf16() {
    assert_eq!(
        find_pdf_metadata_title(b"trailer << /Info << /Title <41FF42> >> >>"),
        Some("A\u{fffd}B".to_string())
    );
    assert_eq!(
        find_pdf_metadata_title(b"trailer << /Info << /Title <FEFFD800> >> >>"),
        None
    );
    assert_eq!(
        find_pdf_metadata_title(b"trailer << /Info << /Title <FEFFD83DDE00> >> >>"),
        Some("\u{1f600}".to_string())
    );
}

#[test]
fn follows_references_with_generations_and_spacing() {
    let bytes = b"12 3 obj\n<< /Title (Referenced) >>\nendobj\ntrailer << /Info 12  3\nR >>";
    assert_eq!(find_pdf_metadata_title(bytes), Some("Referenced".to_string()));
    let missing = b"trailer << /Info 7 0 R >>";
    assert_eq!(find_pdf_metadata_title(missing), None);
    // the object number does not fit in 32 bits, so the reference is not followed; the
    // file has an /Info key, so no loose /Title entry is used
    let too_big = b"4294967296 0 obj << /Title (Big) >> endobj trailer << /Info 4294967296 0 R >>";
    assert_eq!(find_pdf_metadata_title(too_big), None);
    let too_big_untitled = b"4294967296 0 obj << /Author (Big) >> endobj trailer << /Info 4294967296 0 R >>";
    assert_eq!(find_pdf_metadata_title(too_big_untitled), None);
}

#[test]
fn dictionaries_close_at_the_matching_brackets() {
    let bytes = b"trailer << /Info << /Sub << /X 1 >> /Title (Nested) >> >>";
    assert_eq!(find_pdf_metadata_title(bytes), Some("Nested".to_string()));
    assert_eq!(read_dictionary_slice(b">> << /Title (X) >>"), None);
    assert_eq!(
        read_dictionary_slice(b"<< a << b >> c >> d >>"),
        Some(&b"<< a << b >> c >>"[..])
    );
    assert_eq!(read_dictionary_slice(b"<< unclosed"), None);
    assert_eq!(read_dictionary_slice(b"<<<>>"), None);
    assert_eq!(read_dictionary_slice(b"<<>>>>"), Some(&b"<<>>"[..]));
}

#[test]
fn normalizes_titles() {
    assert_eq!(normalize_title("  a \t b\n"), Some("a b".to_string()));
    assert_eq!(normalize_title("\u{3000}x\u{a0}y"), Some("x y".to_string()));
    assert_eq!(normalize_title(" \n "), None);
}

#[test]
fn recognizes_pdf_file_names() {
    assert!(is_pdf("paper.pdf"));
    assert!(is_pdf("PAPER.PDF"));
    assert!(is_pdf("a.b.Pdf"));
    assert!(is_pdf("..pdf"));
    assert!(!is_pdf(".pdf"));
    assert!(!is_pdf("pdf"));
    assert!(!is_pdf("paper.pdf.txt"));
    assert!(!is_pdf("paper.pdfx"));
    assert!(!is_pdf(".."));
}

#[test]
fn falls_back_to_a_title_entry_without_info() {
    assert_eq!(
        find_pdf_metadata_title(b"%PDF-1.4\n<< /Title (Fixture PDF Title) >>"),
        Some("Fixture PDF Title".to_string())
    );
    let bytes = b"1 0 obj << /Title (Loose) >> endobj
trailer << /Info << /Title (Info Title) >> >>";
    assert_eq!(find_pdf_metadata_title(bytes), Some("Info Title".to_string()));
    assert_eq!(find_pdf_metadata_title(b"%PDF-1.4\n<< /Author (rin) >>"), None);
}

#[test]
fn object_headers_do_not_match_inside_longer_numbers() {
    let bytes = b"11 0 obj << /Title (Wrong) >> endobj\n1 0 obj << /Title (Right) >> endobj\ntrailer << /Info 1 0 R >>";
    assert_eq!(find_pdf_metadata_title(bytes), Some("Right".to_string()));
    let only_longer = b"11 0 obj << /Title (Wrong) >> endobj\ntrailer << /Info 1 0 R >>";
    assert_eq!(find_pdf_metadata_title(only_longer), None);
    let at_start = b"1 0 obj << /Title (Start) >> endobj\ntrailer << /Info 1 0 R >>";
    assert_eq!(find_pdf_metadata_title(at_start), Some("Start".to_string()));
}

#[test]
fn loose_title_entries_count_only_without_info() {
    let bytes = b"1 0 obj << /Title (Loose) >> endobj\ntrailer << /Info << /Author (rin) >> >>";
    assert_eq!(find_pdf_metadata_title(bytes), None);
    let without_info = b"1 0 obj << /Title (Loose) >> endobj\ntrailer << /Root 2 0 R >>";
    assert_eq!(find_pdf_metadata_title(without_info), Some("Loose".to_string()));
}

#[test]
fn key_boundaries_hold_at_and_past_the_end() {
    assert!(key_has_boundary(b"/Info", 0, b"/Info"));
    assert!(key_has_boundary(b"/Info", 3, b"/Info"));
    assert!(key_has_boundary(b"/Info ", 0, b"/Info"));
    assert!(!key_has_boundary(b"/Infox", 0, b"/Info"));
}
