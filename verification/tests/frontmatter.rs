use jot_core::error::Error;
use jot_core::frontmatter::{
    FieldType, Frontmatter, FrontmatterEntry, FrontmatterSchema, Newline, Role, UnknownKey, YamlDoc,
    YamlValue,
};
use jot_core::note::NoteId;

const P: &str = "v/note.md";

fn parse(text: &str) -> Result<(Frontmatter, String), Error> {
    Frontmatter::parse_document(&jot(), P, text.as_bytes())
}

fn parse_with(schema: &FrontmatterSchema, text: &str) -> Result<(Frontmatter, String), Error> {
    Frontmatter::parse_document(schema, P, text.as_bytes())
}

fn schema(entries: Vec<FrontmatterEntry>) -> FrontmatterSchema {
    FrontmatterSchema::try_new(entries).expect("should be a valid schema")
}

fn title_entry(key: &str) -> FrontmatterEntry {
    FrontmatterEntry::with_key(key, FieldType::Reserved(Role::Title))
}

fn text_entry(key: &str) -> FrontmatterEntry {
    FrontmatterEntry::with_key(key, FieldType::Text(None))
}

fn ok(text: &str) -> Frontmatter {
    parse(text).expect("should parse").0
}

fn jot() -> FrontmatterSchema {
    FrontmatterSchema::jot_default()
}

fn nid(s: &str) -> NoteId {
    NoteId::parse(s).unwrap()
}

const MINIMAL: &str = "\
---
title: A note
relation:root: 01a03d21-7c11-7a02-b3de-9f0e21c4a771
---

Body.
";

const ROOT_ID: &str = "01a03d21-7c11-7a02-b3de-9f0e21c4a771";

fn unknown_names(fm: &Frontmatter) -> Vec<&str> {
    fm.unknown().iter().map(UnknownKey::name).collect()
}

fn refusal(block: &str) -> Error {
    parse(&format!("---\n{block}---\n")).unwrap_err()
}

#[test]
fn the_default_schema_is_a_title_and_the_two_relations_in_order() {
    assert_eq!(
        jot().keys(),
        ["title", "relation:reply_to", "relation:quote_to"]
    );
    assert!(!jot().contains("relation:root"));
}

#[test]
fn a_key_defaults_to_the_type_string_verbatim() {
    let entry = FrontmatterEntry::new(FieldType::Reserved(Role::ReplyTo));
    assert_eq!(entry.key(), "relation:reply_to");
    assert_eq!(FrontmatterEntry::new(FieldType::Text(None)).key(), "text");
}

#[test]
fn reserved_type_strings_parse_to_roles_and_round_trip() {
    for role in [Role::Title, Role::ReplyTo, Role::QuoteTo] {
        let parsed = FieldType::parse(role.as_str());
        assert_eq!(parsed.role(), Some(role), "{}", role.as_str());
        assert_eq!(parsed.as_str(), role.as_str());
    }
}

#[test]
fn text_and_multitext_carry_their_refinement_on_the_element() {
    assert_eq!(FieldType::parse("text"), FieldType::Text(None));
    assert_eq!(
        FieldType::parse("text:url"),
        FieldType::Text(Some("url".into()))
    );
    assert_eq!(FieldType::parse("multitext"), FieldType::Multitext(None));
    assert_eq!(
        FieldType::parse("multitext:date"),
        FieldType::Multitext(Some("date".into()))
    );
    for spelling in ["text:url", "multitext:date", "text", "multitext"] {
        assert_eq!(FieldType::parse(spelling).as_str(), spelling);
    }
}

#[test]
fn an_unknown_type_is_kept_verbatim_rather_than_refused() {
    let parsed = FieldType::parse("document:mood");
    assert_eq!(parsed, FieldType::Unknown("document:mood".into()));
    assert_eq!(parsed.as_str(), "document:mood");
    assert_eq!(parsed.role(), None);

    let s = schema(vec![FrontmatterEntry::new(FieldType::parse(
        "relation:sibling_of",
    ))]);
    assert_eq!(
        s.unknown_types(),
        [("relation:sibling_of", "relation:sibling_of")]
    );
}

#[test]
fn two_entries_claiming_one_role_is_an_error_naming_both_keys() {
    let e = FrontmatterSchema::try_new(vec![title_entry("title"), title_entry("heading")])
        .unwrap_err();
    assert!(e.contains("document:title"), "{e}");
    assert!(e.contains("title") && e.contains("heading"), "{e}");
}

#[test]
fn a_duplicated_key_and_an_empty_key_are_both_refused() {
    let dup = FrontmatterSchema::try_new(vec![text_entry("summary"), text_entry("summary")])
        .unwrap_err();
    assert!(dup.contains("summary"), "{dup}");

    let empty = FrontmatterSchema::try_new(vec![text_entry(" ")]).unwrap_err();
    assert!(empty.contains("empty"), "{empty}");
}

#[test]
fn a_role_is_looked_up_by_type_not_by_key_name() {
    let s = schema(vec![
        title_entry("heading"),
        FrontmatterEntry::new(FieldType::Reserved(Role::ReplyTo)),
    ]);
    assert_eq!(s.key_for(Role::Title), Some("heading"));
    assert_eq!(s.role_of("heading"), Some(Role::Title));
    assert_eq!(s.role_of("title"), None);
    assert_eq!(s.key_for(Role::QuoteTo), None);
}

#[test]
fn no_fence_and_an_unterminated_fence_are_two_different_errors() {
    let none = parse("title: a\n\nBody.\n").unwrap_err();
    let open = parse("---\ntitle: a\n\nBody.\n").unwrap_err();

    assert!(
        matches!(none, Error::MissingFrontmatterFence { .. }),
        "{none:?}"
    );
    assert!(
        matches!(open, Error::UnterminatedFrontmatter { .. }),
        "{open:?}"
    );
    assert_ne!(
        std::mem::discriminant(&none),
        std::mem::discriminant(&open),
        "the two fence failures collapsed into one variant"
    );
    for e in [&none, &open] {
        assert_eq!(e.path(), Some(P));
        assert!(e.to_string().contains("v/note.md"), "{}", e.to_string());
    }
}

#[test]
fn the_two_fence_errors_survive_a_bom() {
    assert!(matches!(
        parse("\u{feff}---\ntitle: a\n\nBody.\n").unwrap_err(),
        Error::UnterminatedFrontmatter { .. }
    ));
    assert!(matches!(
        parse("\u{feff}title: a\n\nBody.\n").unwrap_err(),
        Error::MissingFrontmatterFence { .. }
    ));
}

#[test]
fn an_empty_file_has_no_fence() {
    assert!(matches!(
        parse("").unwrap_err(),
        Error::MissingFrontmatterFence { .. }
    ));
}

#[test]
fn a_fence_that_is_not_on_the_first_line_is_not_frontmatter() {
    for doc in ["\n---\ntitle: a\n---\n", "----\ntitle: a\n----\n"] {
        assert!(
            matches!(
                parse(doc).unwrap_err(),
                Error::MissingFrontmatterFence { .. }
            ),
            "{doc:?} must not be read as frontmatter"
        );
    }
}

#[test]
fn the_three_declared_roles_are_read_into_typed_fields() {
    let fm = ok(&format!(
        "---\ntitle: T\nrelation:reply_to: {ROOT_ID}\n\
         relation:quote_to: {ROOT_ID}\n---\n"
    ));
    let id = nid(ROOT_ID);
    assert_eq!(fm.title.as_deref(), Some("T"));
    assert_eq!(fm.reply_to, Some(id));
    assert_eq!(fm.quote, Some(id));
    assert!(fm.unknown().is_empty());
}

#[test]
fn a_title_under_any_key_name_is_still_the_title() {
    for key in ["title", "heading", "name", "제목"] {
        let s = schema(vec![title_entry(key)]);
        let (fm, _) = parse_with(&s, &format!("---\n{key}: T\n---\n")).unwrap();
        assert_eq!(fm.title.as_deref(), Some("T"), "for key `{key}`");
        assert_eq!(fm.render(&s), format!("---\n{key}: T\n---\n"));
    }
}

#[test]
fn a_role_the_schema_omits_leaves_its_key_preserved_rather_than_interpreted() {
    let s = schema(vec![title_entry("title")]);
    let doc = format!("---\ntitle: T\nrelation:reply_to: {ROOT_ID}\n---\n");
    let (fm, _) = parse_with(&s, &doc).unwrap();
    assert_eq!(fm.reply_to, None, "an undeclared role is never parsed");
    assert_eq!(
        fm.unknown_source("relation:reply_to"),
        Some(format!("relation:reply_to: {ROOT_ID}\n").as_str())
    );
    assert_eq!(fm.render(&s), doc, "and it round-trips untouched");
}

#[test]
fn an_absent_optional_key_is_none() {
    let fm = ok(MINIMAL);
    assert_eq!(fm.reply_to, None);
    assert_eq!(fm.quote, None);
}

#[test]
fn an_explicit_null_is_an_absent_value_and_is_never_written_back() {
    let fm = ok("---\ntitle: null\nrelation:reply_to:\nrelation:quote_to: ~\n---\n");
    assert_eq!(fm.title, None);
    assert_eq!(fm.reply_to, None);
    assert_eq!(fm.quote, None);
    assert_eq!(fm.render(&jot()), "---\n---\n");
}

#[test]
fn an_empty_value_parses_as_absent_for_every_type() {
    let s = schema(vec![
        title_entry("title"),
        FrontmatterEntry::new(FieldType::Reserved(Role::ReplyTo)),
        FrontmatterEntry::new(FieldType::Reserved(Role::QuoteTo)),
    ]);
    let (fm, _) = parse_with(
        &s,
        "---\ntitle: \"\"\nrelation:reply_to:\nrelation:quote_to: []\n---\n",
    )
    .unwrap();
    assert_eq!(fm.title, None);
    assert_eq!(fm.reply_to, None);
    assert_eq!(fm.quote, None);
    assert_eq!(fm.render(&s), "---\n---\n");
}

#[test]
fn a_known_key_of_the_wrong_shape_is_an_error_not_a_coercion() {
    let e = parse("---\ntitle:\n  - a\n  - b\n---\n").unwrap_err();
    assert!(
        matches!(&e, Error::InvalidFrontmatterField { field, .. } if field == "title"),
        "{e:?}"
    );
    assert!(e.to_string().contains("sequence"), "{}", e.to_string());
}

#[test]
fn a_relation_that_is_not_a_uuid_names_the_key_and_the_value() {
    let e = parse("---\nrelation:reply_to: not-a-uuid\n---\n").unwrap_err();
    match &e {
        Error::InvalidNoteIdValue { field, value, .. } => {
            assert_eq!(field, "relation:reply_to");
            assert_eq!(value, "not-a-uuid");
        }
        other => panic!("{other:?}"),
    }
}

#[test]
fn malformed_yaml_and_a_non_mapping_block_are_different_errors() {
    let bad = parse("---\nroot: [unclosed\n---\n").unwrap_err();
    let seq = parse("---\n- a\n- b\n---\n").unwrap_err();
    assert!(matches!(bad, Error::MalformedYaml { .. }), "{bad:?}");
    assert!(
        matches!(seq, Error::FrontmatterNotAMapping { .. }),
        "{seq:?}"
    );
}

#[test]
fn comments_and_blank_lines_before_the_first_key_are_a_preamble_and_do_not_survive() {
    let fm = ok("---\n# a leading comment\n\ntitle: T\n---\n");
    assert!(fm.unknown().is_empty());
    assert_eq!(fm.render(&jot()), "---\ntitle: T\n---\n");
}

#[test]
fn a_multiline_plain_scalar_stays_with_its_key() {
    let fm = ok("---\nsummary: one\n  two\ntitle: T\n---\n");
    assert_eq!(
        fm.unknown_source("summary").unwrap(),
        "summary: one\n  two\n"
    );
}

#[test]
fn a_block_the_slicer_and_the_yaml_parser_disagree_about_is_refused() {
    for (name, block) in [
        ("numeric key", "2026: a year\ntitle: x\n"),
        ("boolean key", "true: yes\ntitle: x\n"),
        ("explicit key", "? complex\n: value\ntitle: x\n"),
    ] {
        let e = refusal(block);
        assert!(
            matches!(e, Error::UnpreservableFrontmatter { .. }),
            "{name}: expected a refusal, got {e:?}"
        );
        assert_eq!(e.path(), Some(P), "{name}");
        assert!(e.to_string().contains("v/note.md"), "{name}: {}", e.to_string());
    }
}

#[test]
fn a_duplicated_key_never_reaches_the_write_path() {
    let e = refusal("summary: one\nsummary: two\n");
    assert!(matches!(e, Error::MalformedYaml { .. }), "{e:?}");
    assert!(e.to_string().contains("summary"), "{}", e.to_string());
}

#[test]
fn emitted_key_order_is_the_schema_order() {
    let fm = ok(&format!(
        "---\nrelation:quote_to: {ROOT_ID}\ntitle: T\n\
         relation:reply_to: {ROOT_ID}\n---\n"
    ));
    assert_eq!(
        fm.render(&jot()),
        format!(
            "---\ntitle: T\nrelation:reply_to: {ROOT_ID}\n\
             relation:quote_to: {ROOT_ID}\n---\n"
        )
    );

    let reversed = schema(vec![
        FrontmatterEntry::new(FieldType::Reserved(Role::QuoteTo)),
        FrontmatterEntry::new(FieldType::Reserved(Role::ReplyTo)),
        title_entry("title"),
    ]);
    assert_eq!(
        fm.render(&reversed),
        format!(
            "---\nrelation:quote_to: {ROOT_ID}\nrelation:reply_to: {ROOT_ID}\n\
             title: T\n---\n"
        )
    );
}

#[test]
fn unknown_keys_are_appended_after_the_schema_keys_in_their_original_order() {
    let fm = ok(&format!(
        "---\nz_last: 1\ntitle: T\na_first: 2\nrelation:reply_to: {ROOT_ID}\n---\n"
    ));
    assert_eq!(
        fm.render(&jot()),
        format!("---\ntitle: T\nrelation:reply_to: {ROOT_ID}\nz_last: 1\na_first: 2\n---\n"),
        "unknown keys keep the order they were read in, not an alphabetical one"
    );
}

#[test]
fn a_schema_key_jot_does_not_interpret_is_emitted_at_its_declared_position() {
    let s = schema(vec![
        text_entry("summary"),
        title_entry("title"),
        FrontmatterEntry::new(FieldType::Reserved(Role::ReplyTo)),
    ]);
    let (fm, _) = parse_with(
        &s,
        &format!("---\ntitle: T\nsummary: S\nrelation:reply_to: {ROOT_ID}\n---\n"),
    )
    .unwrap();
    assert_eq!(
        fm.render(&s),
        format!("---\nsummary: S\ntitle: T\nrelation:reply_to: {ROOT_ID}\n---\n")
    );
}

#[test]
fn an_empty_schema_still_writes_everything_the_note_carries() {
    let empty = FrontmatterSchema::try_new(Vec::new()).unwrap();
    let doc = format!("---\ntitle: T\nrelation:reply_to: {ROOT_ID}\nsummary: S\n---\n");
    let (fm, _) = parse_with(&empty, &doc).unwrap();
    assert_eq!(fm.render(&empty), doc);
}

#[test]
fn an_absent_key_is_omitted_entirely_rather_than_written_empty() {
    let fm = ok(&format!("---\nrelation:reply_to: {ROOT_ID}\n---\n"));
    let out = fm.render(&jot());
    assert_eq!(out, format!("---\nrelation:reply_to: {ROOT_ID}\n---\n"));
    assert!(!out.contains("title"), "{out}");
    assert!(!out.contains("quote_to"), "{out}");
}

#[test]
fn required_writes_the_key_empty_and_re_rendering_is_idempotent() {
    let s = schema(vec![
        title_entry("title").required(true),
        FrontmatterEntry::new(FieldType::Reserved(Role::ReplyTo)).required(true),
        text_entry("summary"),
    ]);
    let (fm, _) = parse_with(&s, "---\n---\n").unwrap();

    let once = fm.render(&s);
    assert_eq!(
        once, "---\ntitle:\nrelation:reply_to:\n---\n",
        "required keys are written empty; `summary` is not required and stays away"
    );

    let (back, _) = parse_with(&s, &once).unwrap();
    assert_eq!(back.title, None);
    assert_eq!(back.reply_to, None);
    assert_eq!(back.render(&s), once);
}

#[test]
fn a_title_needing_quotes_gets_them_from_the_yaml_crate() {
    for title in [
        "plain",
        "with: a colon",
        "#starts with a hash",
        "- starts with a dash",
        "true",
        "2026",
        "한국어 제목",
        "a \" quote and a ' quote",
        "trailing space ",
    ] {
        let mut fm = Frontmatter::new();
        fm.title = Some(title.to_string());
        let rendered = fm.render(&jot());
        let back = Frontmatter::parse_document(&jot(), P, rendered.as_bytes())
            .unwrap_or_else(|e| panic!("{title:?} did not re-parse: {}\n{rendered}", e.to_string()))
            .0;
        assert_eq!(back.title.as_deref(), Some(title), "{rendered}");
    }
}

#[test]
fn a_multiline_title_round_trips() {
    let mut fm = Frontmatter::new();
    fm.title = Some("one\ntwo".to_string());
    let rendered = fm.render(&jot());
    assert_eq!(
        Frontmatter::parse_document(&jot(), P, rendered.as_bytes())
            .unwrap()
            .0,
        fm,
        "{rendered}"
    );
}

#[test]
fn rendering_uses_the_source_line_terminator_throughout() {
    let doc = "---\r\ntitle: T\r\nsummary: |\r\n  kept\r\n---\r\n\r\nBody.\r\n";
    let (fm, body) = parse(doc).unwrap();
    assert_eq!(fm.newline(), Newline::Crlf);
    let out = fm.render(&jot());
    assert_eq!(
        out, "---\r\ntitle: T\r\nsummary: |\r\n  kept\r\n---\r\n",
        "an LF-rendered known key beside a CRLF preserved key would mix terminators"
    );
    assert!(!out.contains("\n\n"), "a bare LF leaked into a CRLF block");
    assert_eq!(format!("{out}{body}"), doc);
}

#[test]
fn a_constructed_frontmatter_renders_with_lf() {
    let mut fm = Frontmatter::new();
    fm.title = Some("T".into());
    assert_eq!(fm.newline(), Newline::Lf);
    assert_eq!(fm.render(&jot()), "---\ntitle: T\n---\n");
}

#[test]
fn set_newline_switches_the_rendered_terminator() {
    let mut fm = Frontmatter::new();
    fm.title = Some("T".into());
    fm.set_newline(Newline::Crlf);
    assert_eq!(fm.render(&jot()), "---\r\ntitle: T\r\n---\r\n");
}

#[test]
fn render_and_try_render_agree() {
    let fm = ok(MINIMAL);
    assert_eq!(fm.render(&jot()), fm.try_render(&jot()).unwrap());
}

#[test]
fn render_parse_render_is_a_fixed_point() {
    let sources = [
        MINIMAL,
        "---\n---\n\nB.\n",
        "---\nz: 1\ntitle: T\na:\n  b: 2\n---\n\nB.\n",
        "---\nsummary: |\n  one\n  two\n---\n\nB.\n",
        "---\r\ntitle: T\r\nsummary: x\r\n---\r\n\r\nB.\r\n",
        "\u{feff}---\ntitle: T\n---\n\nB.\n",
    ];
    for doc in sources {
        let (fm, _) = parse(doc).unwrap();
        let once = fm.render(&jot());
        let (again, _) = Frontmatter::parse_document(&jot(), P, once.as_bytes())
            .unwrap_or_else(|e| panic!("{doc:?} rendered to something unparseable: {}", e.to_string()));
        assert_eq!(again.render(&jot()), once, "not a fixed point for {doc:?}");
        assert_eq!(again, fm, "the typed state drifted for {doc:?}");
    }
}

#[test]
fn an_unknown_key_survives_a_title_edit_byte_for_byte() {
    let values = [
        "summary: a plain scalar\n",
        "summary: |\n  a block scalar\n    with indentation\n\n  and a blank line\n",
        "summary:\n  short:  aligned\n  long:   values   # and a comment\n  deep:\n    - a\n",
        "summary: >\n  a folded\n  scalar\n",
        "summary: \"quoted: with an indicator\"\n",
        "summary: []\n",
        "summary:\n",
    ];
    for value in values {
        let doc = format!("---\ntitle: Before\n{value}---\n\nBody.\n");
        let (mut fm, body) = parse(&doc).unwrap();
        let source = fm.unknown_source("summary").unwrap().to_string();
        assert_eq!(source, value, "the captured span is not the source lines");

        fm.title = Some("After".into());
        let out = format!("{}{}", fm.render(&jot()), body);
        assert!(out.contains("title: After"), "{out}");
        assert!(
            out.contains(&source),
            "summary's bytes changed:\nwanted {source:?}\nin\n{out}"
        );
        assert_eq!(body, "\nBody.\n", "the body moved");
    }
}

// ==================================================================== document splitting

fn split(text: &str) -> jot_core::block::Split<'_> {
    jot_core::block::split_document(P, text).expect("should split")
}

#[test]
fn the_three_slices_always_reconstitute_the_file() {
    let cases: [(&str, &str); 10] = [
        ("lf", "---\ntitle: a\n---\n\nBody.\n"),
        ("crlf", "---\r\ntitle: a\r\n---\r\n\r\nBody.\r\n"),
        ("bom", "\u{feff}---\ntitle: a\n---\n\nBody.\n"),
        ("no trailing newline", "---\ntitle: a\n---\nBody."),
        ("empty block", "---\n---\n\nBody.\n"),
        ("empty block and body", "---\n---\n"),
        ("rule in body", "---\ntitle: a\n---\n\nAbove.\n\n---\n\nBelow.\n"),
        ("fence with trailing space", "---  \ntitle: a\n---  \n\nBody.\n"),
        ("fence with a tab", "---\t\ntitle: a\n---\n\nBody.\n"),
        (
            "block scalar and nested mapping",
            "---\nnote: |\n  one\n  two\nloc:\n  city: Seoul\n---\n\nBody.\n",
        ),
    ];
    for (name, doc) in cases {
        let s = split(doc);
        assert_eq!(
            format!("{}{}{}", s.prefix, s.block, s.body),
            doc,
            "{name}: slices do not reconstitute the file"
        );
        assert!(
            s.block.starts_with("---") && s.interior.len() < s.block.len(),
            "{name}: interior is not inside the block"
        );
    }
}

#[test]
fn the_bom_is_a_prefix_and_is_never_swallowed_into_the_block() {
    let s = split("\u{feff}---\ntitle: a\n---\n\nBody.\n");
    assert_eq!(s.prefix, "\u{feff}");
    assert_eq!(s.block, "---\ntitle: a\n---\n");
    assert_eq!(s.body, "\nBody.\n");
}

#[test]
fn a_file_with_no_bom_has_an_empty_prefix() {
    assert_eq!(split(MINIMAL).prefix, "");
}

#[test]
fn crlf_is_detected_and_the_interior_keeps_its_carriage_returns() {
    let s = split("---\r\ntitle: a\r\n---\r\n\r\nBody.\r\n");
    assert_eq!(s.newline, Newline::Crlf);
    assert_eq!(s.interior, "title: a\r\n");
    assert_eq!(s.body, "\r\nBody.\r\n");
}

#[test]
fn an_empty_block_has_an_empty_interior() {
    let s = split("---\n---\n\nBody.\n");
    assert_eq!(s.interior, "");
    assert_eq!(s.body, "\nBody.\n");
    assert_eq!(ok("---\n---\n\nBody.\n"), Frontmatter::new());
}

#[test]
fn a_rule_at_column_zero_in_the_body_is_not_a_closing_fence() {
    let s = split("---\ntitle: a\n---\n\nAbove.\n\n---\n\nBelow.\n");
    assert_eq!(s.interior, "title: a\n");
    assert!(s.body.contains("\n---\n"), "the rule stayed in the body");
}

// ================================================================ unknown-key slicing

#[test]
fn a_key_the_schema_does_not_name_is_still_read_as_unknown() {
    let fm = ok("---\ntitle: T\nsummary: S\n---\n");
    assert_eq!(unknown_names(&fm), ["summary"]);
    assert_eq!(fm.title.as_deref(), Some("T"));
}

#[test]
fn a_block_scalar_and_its_continuation_lines_are_one_span() {
    let fm = ok(
        "---\nsummary: |\n  one\n    indented\n\n  after a blank\nrelation:root: \
                 01a03d21-7c11-7a02-b3de-9f0e21c4a771\n---\n",
    );
    assert_eq!(unknown_names(&fm), ["summary", "relation:root"]);
    assert_eq!(
        fm.unknown_source("summary").unwrap(),
        "summary: |\n  one\n    indented\n\n  after a blank\n"
    );
}

#[test]
fn a_nested_mapping_a_sequence_and_a_trailing_comment_are_one_span() {
    let fm = ok("---\nloc:\n  city: Seoul   # kept\n  tags:\n    - a\n    - b\ntitle: T\n---\n");
    assert_eq!(unknown_names(&fm), ["loc"]);
    assert_eq!(
        fm.unknown_source("loc").unwrap(),
        "loc:\n  city: Seoul   # kept\n  tags:\n    - a\n    - b\n"
    );
}

#[test]
fn a_quoted_key_is_read_by_its_unquoted_name() {
    let fm = ok("---\n\"a quoted: key\": 1\n'single': 2\n---\n");
    assert_eq!(unknown_names(&fm), ["a quoted: key", "single"]);
}

#[test]
fn an_anchor_and_its_alias_survive_because_relative_order_is_kept() {
    let doc = "---\nsummary: &a\n  reused: true\ncopy: *a\n---\n\nB.\n";
    let (fm, body) = parse(doc).unwrap();
    assert_eq!(unknown_names(&fm), ["summary", "copy"]);
    assert_eq!(format!("{}{}", fm.render(&jot()), body), doc);
}

#[test]
fn a_legacy_relation_root_round_trips_untouched() {
    let doc = format!(
        "---\ntitle: T\nrelation:reply_to: {ROOT_ID}\nrelation:root: {ROOT_ID}\n---\n\nB.\n"
    );
    let (fm, body) = parse(&doc).unwrap();
    assert_eq!(unknown_names(&fm), ["relation:root"]);
    assert_eq!(format!("{}{}", fm.render(&jot()), body), doc);
}

// ======================================================================== templates

fn template_schema() -> FrontmatterSchema {
    schema(vec![
        title_entry("title"),
        FrontmatterEntry::new(FieldType::Reserved(Role::ReplyTo)),
        text_entry("summary"),
    ])
}

#[test]
fn an_untouched_template_reads_back_as_the_note_it_was_made_from() {
    let s = template_schema();
    let (fm, _) = parse_with(&s, "---\ntitle: T\n---\n").unwrap();
    let t = fm.render_template(&s);
    assert_eq!(t, "---\ntitle: T\nrelation:reply_to:\nsummary:\n---\n");
    let (back, _) = parse_with(&s, &t).unwrap();
    assert!(back.unknown().is_empty(), "placeholders are not preserved keys");
    assert_eq!(back.reply_to, None);
    assert_eq!(back.render(&s), fm.render(&s));
}

#[test]
fn try_render_template_agrees_with_render_template() {
    let s = template_schema();
    let (fm, _) = parse_with(&s, &format!("---\nrelation:reply_to: {ROOT_ID}\n---\n")).unwrap();
    assert_eq!(fm.try_render_template(&s), Ok(fm.render_template(&s)));
    assert_eq!(
        fm.render_template(&s),
        format!("---\ntitle:\nrelation:reply_to: {ROOT_ID}\nsummary:\n---\n")
    );
}

#[test]
fn a_blank_declared_key_reads_as_absent_but_an_undeclared_one_is_kept() {
    let s = template_schema();
    let (fm, _) = parse_with(&s, "---\nsummary:\nextra:\n---\n").unwrap();
    assert_eq!(unknown_names(&fm), vec!["extra"]);
    assert_eq!(fm.render(&s), "---\nextra:\n---\n");
}

fn first_children(doc: &str) -> Vec<markdown::mdast::Node> {
    let options = markdown::ParseOptions {
        constructs: markdown::Constructs { frontmatter: true, ..markdown::Constructs::default() },
        ..markdown::ParseOptions::default()
    };
    match markdown::to_mdast(doc, &options).unwrap() {
        markdown::mdast::Node::Root(root) => root.children,
        other => panic!("expected a root, got {other:?}"),
    }
}

#[test]
fn the_block_owns_the_closing_fence_terminator_and_the_body_starts_at_a_line() {
    let doc = "---\ntitle: a\n---\nBody starts immediately.\n";
    let s = split(doc);
    assert_eq!(s.block, "---\ntitle: a\n---\n");
    assert_eq!(s.body, "Body starts immediately.\n");

    // The raw crate span, for contrast: it ends one byte earlier.
    let children = first_children(doc);
    let Some(markdown::mdast::Node::Yaml(yaml)) = children.first() else {
        panic!("expected a leading Yaml node, got {:?}", children.first())
    };
    let span = yaml.position.as_ref().unwrap();
    assert_eq!(&doc[span.start.offset..span.end.offset], "---\ntitle: a\n---");
    assert_eq!(span.end.offset + 1, s.block.len());
}

#[test]
fn an_indented_fence_and_an_unterminated_fence_look_identical_to_the_parser() {
    for doc in ["---\ntitle: a\n\nBody.\n", "  ---\ntitle: a\n  ---\n\nBody.\n"] {
        let children = first_children(doc);
        assert!(
            !children.iter().any(|c| matches!(c, markdown::mdast::Node::Yaml(_))),
            "{doc:?} yielded a Yaml node"
        );
        assert!(
            matches!(children.first(), Some(markdown::mdast::Node::ThematicBreak(_))),
            "{doc:?}: expected a leading ThematicBreak, got {:?}",
            children.first()
        );
    }
    // Same tree shape, different errors: only possible because the source is read.
    assert!(matches!(parse("---\ntitle: a\n\nBody.\n").unwrap_err(), Error::UnterminatedFrontmatter { .. }));
    assert!(matches!(
        parse("  ---\ntitle: a\n  ---\n\nBody.\n").unwrap_err(),
        Error::MissingFrontmatterFence { .. }
    ));
}

#[test]
fn a_relation_key_is_one_key_and_not_a_nested_mapping() {
    let value: yaml_serde::Value = yaml_serde::from_str(&format!("relation:reply_to: {ROOT_ID}\n")).unwrap();
    let yaml_serde::Value::Mapping(map) = &value else {
        panic!("expected a mapping, got {value:?}")
    };
    assert_eq!(map.len(), 1);
    assert_eq!(
        map.keys().next(),
        Some(&yaml_serde::Value::String("relation:reply_to".into())),
        "the colon inside the key was treated as an indicator"
    );

    // And the slicer agrees with the YAML parser about it.
    let spans = jot_core::block::top_level_key_spans(&format!("relation:reply_to: {ROOT_ID}\n"));
    assert_eq!(spans.len(), 1);
    assert_eq!(spans[0].0, "relation:reply_to");
}

#[test]
fn a_block_is_cut_where_the_reported_frontmatter_node_lies() {
    let doc = "---\ntitle: a\n---\nBody.\n";
    let s = jot_core::block::split_with_children(P, doc, &vec![(false, Some((0, 3))), (true, Some((0, 16)))]).unwrap();
    assert_eq!((s.prefix, s.block, s.interior, s.body), ("", "---\ntitle: a\n---\n", "title: a\n", "Body.\n"));
    // No frontmatter node reported: the first line decides which fence error it is.
    assert!(matches!(
        jot_core::block::split_with_children(P, doc, &vec![(false, Some((0, 3)))]),
        Err(Error::UnterminatedFrontmatter { .. })
    ));
    assert!(matches!(
        jot_core::block::split_with_children(P, "Body.\n", &Vec::new()),
        Err(Error::MissingFrontmatterFence { .. })
    ));
}

#[test]
fn a_parsed_interior_is_read_into_typed_fields_and_kept_keys() {
    let interior = format!("title: T\nrelation:reply_to: {ROOT_ID}\nmood: calm\n");
    let doc = YamlDoc::Mapping(vec![
        (YamlValue::Str(String::from("title")), YamlValue::Str(String::from("T"))),
        (YamlValue::Str(String::from("relation:reply_to")), YamlValue::Str(String::from(ROOT_ID))),
        (YamlValue::Str(String::from("mood")), YamlValue::Str(String::from("calm"))),
    ]);
    let fm = Frontmatter::frontmatter_from_doc(&jot(), P, &interior, doc).unwrap();
    assert_eq!(fm.title.as_deref(), Some("T"));
    assert_eq!(fm.reply_to, Some(nid(ROOT_ID)));
    assert_eq!(unknown_names(&fm), vec!["mood"]);
    assert_eq!(fm.unknown()[0].source(), "mood: calm\n");

    let bad = Frontmatter::frontmatter_from_doc(&jot(), P, "x", YamlDoc::Malformed(String::from("boom")));
    assert!(matches!(bad, Err(Error::MalformedYaml { message, .. }) if message == "boom"));
    let list = Frontmatter::frontmatter_from_doc(&jot(), P, "- a\n", YamlDoc::Other(YamlValue::Sequence(1)));
    assert!(matches!(list, Err(Error::FrontmatterNotAMapping { .. })));
    let blank = Frontmatter::frontmatter_from_doc(&jot(), P, "", YamlDoc::Other(YamlValue::Null)).unwrap();
    assert_eq!(blank, Frontmatter::new());
}
