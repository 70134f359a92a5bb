use mkcdoc::doxycomment::{is_doc_comment, is_trailing_marker, parse};

#[test]
fn parses_brief_params_and_return() {
    let raw = r#"/**
 * @brief Adds two integers.
 *
 * Performs signed 32-bit addition without overflow checking.
 *
 * @param a First addend.
 * @param b Second addend.
 * @return The sum of a and b.
 */"#;
    let doc = parse(raw);
    assert_eq!(doc.brief.as_deref(), Some("Adds two integers."));
    assert_eq!(
        doc.description.as_deref(),
        Some("Performs signed 32-bit addition without overflow checking.")
    );
    assert_eq!(doc.params.len(), 2);
    assert_eq!(doc.params[0].name, "a");
    assert_eq!(doc.params[0].description, "First addend.");
    assert_eq!(doc.returns.as_deref(), Some("The sum of a and b."));
}

#[test]
fn untagged_first_line_becomes_brief() {
    let raw = "/** Autobrief style summary. */";
    let doc = parse(raw);
    assert_eq!(doc.brief.as_deref(), Some("Autobrief style summary."));
}

#[test]
fn recognises_leading_and_trailing_markers() {
    for m in ["/**", "/*!", "///", "//!"] {
        assert!(is_doc_comment(&format!("{m} text")));
        assert!(!is_trailing_marker(&format!("{m} text")));
    }
    for m in ["/**<", "/*!<", "///<", "//!<"] {
        assert!(is_doc_comment(&format!("{m} text")));
        assert!(is_trailing_marker(&format!("{m} text")));
    }
    assert!(!is_doc_comment("/* plain */"));
    assert!(!is_doc_comment("// plain"));
    assert!(!is_doc_comment(" /** leading space */"));
}

#[test]
fn trailing_marker_comment_parses_to_brief() {
    let doc = parse("/**< X coordinate. */");
    assert_eq!(doc.brief.as_deref(), Some("X coordinate."));
    let doc = parse("///< Red.");
    assert_eq!(doc.brief.as_deref(), Some("Red."));
}

#[test]
fn direction_marker_is_skipped_and_see_also_collected() {
    let raw = "/**\n * Copies.\n * @param [in] src Source buffer.\n * @param [out] dst\n * @param[in] len Byte count.\n * @see memcpy\n * @sa memmove\n * @returns Bytes copied.\n */";
    let doc = parse(raw);
    assert_eq!(doc.brief.as_deref(), Some("Copies."));
    assert_eq!(doc.params.len(), 3);
    assert_eq!(doc.params[0].name, "src");
    assert_eq!(doc.params[0].description, "Source buffer.");
    assert_eq!(doc.params[1].name, "dst");
    assert_eq!(doc.params[1].description, "");
    assert_eq!(doc.params[2].name, "len");
    assert_eq!(doc.params[2].description, "Byte count.");
    assert_eq!(doc.see_also, vec!["memcpy".to_string(), "memmove".to_string()]);
    assert_eq!(doc.returns.as_deref(), Some("Bytes copied."));
}

#[test]
fn blank_line_ends_tag_paragraph_and_paragraphs_join() {
    let raw = "/**\n * Brief.\n *\n * First para\n * continues.\n *\n * @return Value.\n *\n * Second para.\n * @unknown dropped\n */";
    let doc = parse(raw);
    assert_eq!(doc.brief.as_deref(), Some("Brief."));
    assert_eq!(
        doc.description.as_deref(),
        Some("First para continues.\n\nSecond para.")
    );
    assert_eq!(doc.returns.as_deref(), Some("Value."));
}

#[test]
fn empty_comment_records_nothing() {
    let doc = parse("/** */");
    assert_eq!(doc.brief, None);
    assert_eq!(doc.description, None);
    assert!(doc.params.is_empty());
    assert_eq!(doc.returns, None);
    assert!(doc.see_also.is_empty());
    let doc = parse("/** @brief */");
    assert_eq!(doc.brief, None);
}

#[test]
fn brief_tag_overrides_and_crlf_lines() {
    let doc = parse("/**\r\n * First.\r\n * @brief Second.\r\n */");
    assert_eq!(doc.brief.as_deref(), Some("Second."));
}

#[test]
fn direction_marker_right_after_param_is_skipped() {
    let doc = parse("/** @param[in] n Count. */");
    assert_eq!(doc.params.len(), 1);
    assert_eq!(doc.params[0].name, "n");
    assert_eq!(doc.params[0].description, "Count.");
    let doc = parse("/** @param[in,out] buf */");
    assert_eq!(doc.params.len(), 1);
    assert_eq!(doc.params[0].name, "buf");
}

#[test]
fn only_param_sheds_a_bracketed_marker() {
    let doc = parse("/** Summary.\n * @brief[x] y\n */");
    assert_eq!(doc.brief.as_deref(), Some("Summary."));
    assert_eq!(doc.description, None);
    let doc = parse("/** @return[x] y */");
    assert_eq!(doc.returns, None);
}
