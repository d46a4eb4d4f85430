use jot_core::frontmatter::{FrontmatterSchema, IN_MEMORY_PATH};
use jot_core::fs::{FilenameSlug, note_filename};
use jot_core::note::{Note, NoteId};

#[test]
fn display_is_lowercase_hyphenated_and_parses_back() {
    let text = "01a03d21-7c11-7a02-b3de-9f0e21c4a771";
    let id = NoteId::parse(text).unwrap();
    assert_eq!(id.to_string(), text);
    assert_eq!(NoteId::new().to_string().len(), 36);
}

#[test]
fn uppercase_and_unhyphenated_input_normalizes_on_display() {
    for text in [
        "01A03D21-7C11-7A02-B3DE-9F0E21C4A771",
        "01a03d217c117a02b3de9f0e21c4a771",
        "{01a03d21-7c11-7a02-b3de-9f0e21c4a771}",
        "urn:uuid:01a03d21-7c11-7a02-b3de-9f0e21c4a771",
    ] {
        let id = NoteId::parse(text).unwrap_or_else(|| panic!("{text} did not parse"));
        assert_eq!(id.to_string(), "01a03d21-7c11-7a02-b3de-9f0e21c4a771");
    }
}

#[test]
fn a_non_uuid_string_does_not_parse() {
    for text in ["", "nope", "01a03d21-7c11-7a02-b3de", "not-a-uuid-at-all!!"] {
        assert!(NoteId::parse(text).is_none(), "{text:?} must not parse");
    }
}

#[test]
fn short_is_the_eight_character_prefix_of_the_display_form() {
    let id = NoteId::new();
    assert_eq!(id.short().len(), 8);
    assert!(id.to_string().starts_with(&id.short()));
    assert!(
        !id.short().contains('-'),
        "8 chars land inside the first group"
    );
}

#[test]
fn uuid_bridges_both_ways() {
    let raw = uuid::Uuid::now_v7();
    let id = NoteId::from_u128(raw.as_u128());
    assert_eq!(id.as_u128(), raw.as_u128());
    assert_eq!(uuid::Uuid::from_u128(id.as_u128()), raw);
}

#[test]
fn a_v7_id_decodes_its_creation_time() {
    let fixture = NoteId::parse("01a03d4c-c708-7cbf-83c0-883cedb7f1d5").unwrap();
    assert_eq!(fixture.created_at(), Some(0x01a03d4cc708_i128 * 1_000_000));
    let v4 = NoteId::parse("3f1a9c2e-7b4d-4e8a-9f11-2c3d4e5f6a7b").unwrap();
    assert_eq!(v4.created_at(), None);
}

const MINIMAL_ID: &str = "01a03d21-7c11-7a02-b3de-9f0e21c4a771";

const MINIMAL: &str = "\
---
title: A note
relation:root: 01a03d21-7c11-7a02-b3de-9f0e21c4a771
---

Body.
";

fn id() -> NoteId {
    NoteId::parse(MINIMAL_ID).unwrap()
}

fn schema() -> FrontmatterSchema {
    FrontmatterSchema::jot_default()
}

#[test]
fn parse_takes_the_id_from_its_caller_not_from_the_bytes() {
    let mine = NoteId::new();
    let note = Note::parse(mine, MINIMAL.as_bytes()).unwrap();
    assert_eq!(note.id, mine);
    assert_eq!(note.frontmatter.title.as_deref(), Some("A note"));
    assert_eq!(note.body, "\nBody.\n");
}

#[test]
fn an_id_key_in_the_block_is_just_an_unknown_key() {
    let doc = format!("---\nid: {MINIMAL_ID}\ntitle: x\n---\n\nB.\n");
    let mine = NoteId::new();
    let note = Note::parse(mine, doc.as_bytes()).unwrap();
    assert_eq!(note.id, mine);
    assert_eq!(
        note.frontmatter.unknown_source("id"),
        Some(&*format!("id: {MINIMAL_ID}\n"))
    );
    let written = String::from_utf8(note.to_bytes(&schema())).unwrap();
    assert!(written.contains(&format!("id: {MINIMAL_ID}")), "{written}");
}

#[test]
fn parse_errors_name_something_even_without_a_path() {
    let e = Note::parse(id(), b"no fence at all\n").unwrap_err();
    assert_eq!(e.path().unwrap(), IN_MEMORY_PATH);
    assert!(e.to_string().contains(IN_MEMORY_PATH), "{}", e.to_string());
}

#[test]
fn parse_then_render_reproduces_the_file() {
    let note = Note::parse(id(), MINIMAL.as_bytes()).unwrap();
    let once = note.to_bytes(&schema());
    assert_eq!(String::from_utf8(once).unwrap(), MINIMAL);
}

#[test]
fn a_note_takes_its_identity_from_its_filename() {
    let path = format!("v/{MINIMAL_ID}_a_slug.md");
    let note = Note::parse_at(&path, MINIMAL.as_bytes()).unwrap();
    assert_eq!(note.id, id());
    assert!(Note::parse_at("v/README.md", MINIMAL.as_bytes()).is_err());
}

#[test]
fn try_to_bytes_agrees_with_to_bytes() {
    let note = Note::parse(id(), MINIMAL.as_bytes()).unwrap();
    assert_eq!(note.try_to_bytes(&schema()).unwrap(), note.to_bytes(&schema()));
    let meta = note.meta();
    assert_eq!(meta.id, id());
    assert_eq!(meta.title.as_deref(), Some("A note"));
    assert_eq!(meta.root, None);
}

#[test]
fn ids_minted_earlier_compare_less() {
    let ids: Vec<NoteId> = (0..50_000).map(|_| NoteId::new()).collect();
    for (i, pair) in ids.windows(2).enumerate() {
        assert!(
            pair[0] < pair[1],
            "id #{i} {:?} was minted before {:?} but does not sort before it",
            pair[0],
            pair[1]
        );
    }
    let unique: std::collections::HashSet<NoteId> = ids.iter().copied().collect();
    assert_eq!(unique.len(), ids.len(), "minting produced a duplicate id");
}

#[test]
fn notes_created_in_one_millisecond_get_distinct_filenames() {
    let ids: Vec<NoteId> = (0..2_000).map(|_| NoteId::new()).collect();
    let one_ms = ids.windows(2).any(|p| p[0].created_at() == p[1].created_at());
    assert!(one_ms, "the loop was too slow to land two mints in one ms");

    for slug in [FilenameSlug::Bare, FilenameSlug::FromTitle] {
        let names: std::collections::HashSet<String> =
            ids.iter().map(|id| note_filename(*id, Some("the same title"), slug)).collect();
        assert_eq!(names.len(), ids.len(), "{slug:?} produced a filename clash");
    }
}

#[test]
fn a_non_v7_id_has_no_creation_time() {
    let v4 = NoteId::parse("3f1a9c2e-7b4d-4e8a-9f11-2c3d4e5f6a7b").unwrap();
    assert_eq!(v4.created_at(), None);
}

#[test]
fn ordering_follows_the_uuidv7_timestamp_not_the_random_tail() {
    let earlier = NoteId::parse("01a03d4c-c708-7cbf-83c0-883cedb7f1d5").unwrap();
    let later = NoteId::parse("01a03d52-6c58-75de-81f8-1b3940ecc38b").unwrap();
    assert_eq!(earlier.cmp(&later), std::cmp::Ordering::Less);
    assert_eq!(later.cmp(&earlier), std::cmp::Ordering::Greater);
    assert!(earlier.created_at() < later.created_at());
}

#[test]
fn parse_then_render_is_a_fixed_point() {
    let note = Note::parse(id(), MINIMAL.as_bytes()).unwrap();
    let once = note.to_bytes(&schema());
    assert_eq!(once, MINIMAL.as_bytes());
    let twice = Note::parse(id(), &once).unwrap().to_bytes(&schema());
    assert_eq!(once, twice);
}

#[test]
fn mutating_a_field_changes_the_bytes() {
    let mut note = Note::parse(id(), MINIMAL.as_bytes()).unwrap();
    note.frontmatter.title = Some("Edited".into());
    let text = String::from_utf8(note.to_bytes(&schema())).unwrap();
    assert!(text.contains("title: Edited"), "{text}");
    assert!(!text.contains("A note"), "{text}");
}

#[test]
fn the_write_path_leaves_the_body_alone() {
    let body = "\n* a\n+ b\n\n_em_ and __strong__\n\ntrailing spaces:  \nnext\n";
    let doc = format!("---\ntitle: x\n---{body}");
    let mut note = Note::parse(id(), doc.as_bytes()).unwrap();
    note.frontmatter.title = Some("y".into());
    let out = String::from_utf8(note.to_bytes(&schema())).unwrap();
    assert!(out.ends_with(body), "body was rewritten:\n{out}");
}

#[test]
fn an_empty_body_and_a_body_that_is_only_a_fence_line_both_round_trip() {
    for body in ["", "\n", "\n---\n", "---\n"] {
        let doc = format!("---\ntitle: x\n---\n{body}");
        let note = Note::parse(id(), doc.as_bytes()).unwrap();
        assert_eq!(note.body, body, "body mismatch for {body:?}");
        assert_eq!(note.to_bytes(&schema()), doc.as_bytes(), "for {body:?}");
    }
}

#[test]
fn a_file_ending_at_the_closing_fence_gains_a_terminator() {
    let doc = "---\ntitle: x\n---";
    let note = Note::parse(id(), doc.as_bytes()).unwrap();
    assert_eq!(note.body, "");

    let once = note.to_bytes(&schema());
    assert_eq!(String::from_utf8(once.clone()).unwrap(), "---\ntitle: x\n---\n");
    let twice = Note::parse(id(), &once).unwrap().to_bytes(&schema());
    assert_eq!(once, twice, "render is still a fixed point");
}

#[test]
fn a_crlf_note_stays_crlf() {
    let doc = "---\r\ntitle: x\r\nsummary: |\r\n  kept\r\n---\r\n\r\nBody.\r\n";
    let note = Note::parse(id(), doc.as_bytes()).unwrap();
    assert_eq!(note.frontmatter.newline(), jot_core::frontmatter::Newline::Crlf);
    assert_eq!(note.to_bytes(&schema()), doc.as_bytes());
}

#[test]
fn try_to_bytes_agrees_with_the_panicking_form() {
    let note = Note::parse(id(), MINIMAL.as_bytes()).unwrap();
    assert_eq!(note.to_bytes(&schema()), note.try_to_bytes(&schema()).unwrap());
}

#[test]
fn load_and_fs_parse_note_filename_never_disagree() {
    let accepted = vec![
        format!("{MINIMAL_ID}.md"),
        format!("{MINIMAL_ID}_slug.md"),
        format!("{MINIMAL_ID}_a_b_c.md"),
        format!("{MINIMAL_ID}_slug.with.dots.md"),
        format!("{}.md", MINIMAL_ID.to_uppercase()),
    ];
    let rejected = vec![
        format!("{MINIMAL_ID}_.md"),
        format!("{MINIMAL_ID}.txt"),
        MINIMAL_ID.to_string(),
        "01a03d217c117a02b3de9f0e21c4a771.md".to_string(),
        format!("{{{MINIMAL_ID}}}.md"),
        format!("{MINIMAL_ID}.md.bak"),
        "README.md".to_string(),
        "_slug.md".to_string(),
        "01a03d21-7c11-7a02-b3c0.md".to_string(),
    ];
    let mut divergent = Vec::new();
    for name in accepted.into_iter().chain(rejected) {
        let path = format!("/vault/{name}");
        let fs_accepts = jot_core::fs::parse_note_filename(&path).is_ok();
        let result = Note::parse_at(&path, MINIMAL.as_bytes());
        let load_accepts = !matches!(result, Err(jot_core::error::Error::InvalidNoteFilename { .. }));
        if fs_accepts != load_accepts {
            divergent.push(format!("  {name}: fs={fs_accepts}, parse_at={load_accepts}"));
        }
    }
    assert!(divergent.is_empty(), "the two note-filename parsers disagree:\n{}", divergent.join("\n"));
}

#[test]
fn created_at_recovered_from_the_id_is_the_mint_time() {
    let now_ns = || {
        std::time::SystemTime::now().duration_since(std::time::UNIX_EPOCH).unwrap().as_nanos() as i128
    };
    let before = now_ns();
    let id = NoteId::new();
    let after = now_ns();

    let recovered = id.created_at().expect("a v7 id encodes its mint time");
    // v7 stores milliseconds, so the recovered instant can be up to one ms before `before`.
    assert!(
        recovered >= before - 1_000_000 && recovered <= after,
        "recovered {recovered} is outside the mint window {before}..={after}"
    );

    let fixture = NoteId::parse("01a03d4c-c708-7cbf-83c0-883cedb7f1d5").unwrap();
    let at = chrono::DateTime::from_timestamp_nanos(fixture.created_at().unwrap() as i64);
    assert_eq!(at.to_rfc3339(), "2026-08-26T09:00:37+00:00");
}

#[test]
fn meta_derives_created_at_and_copies_the_relations() {
    let note = Note::parse(id(), MINIMAL.as_bytes()).unwrap();
    let meta = note.meta();
    assert_eq!(meta.id, id());
    assert_eq!(meta.created_at, id().created_at());
    assert_eq!(meta.title.as_deref(), Some("A note"));
    // `relation:root` is a legacy key the default schema does not read: the root is derived from
    // the reply chain when a vault is read, so a single note's row does not know it.
    assert_eq!(meta.root, None);
    assert_eq!(meta.reply_to, None);
    assert_eq!(meta.quote, None);
}
