use jot_core::frontmatter::{FieldType, FrontmatterEntry, FrontmatterSchema};
use jot_core::index::{
    Entry, Read, ScanCost, StoredRow, SyncPlan, Unindexable, abs_path, entries_from_rows,
    fingerprint_of, from_nanos, gone_paths, raw_json, read_bytes, rel_path, reuse_unread, rows_of, to_nanos,
    undeclared_from,
};
use jot_core::note::{NoteId, NoteMeta};
use jot_core::query::State;
use jot_core::snapshot::{Problem, Record};

const A: &str = "01a03d60-0000-7000-8000-00000000000a";
const B: &str = "01a03d61-0000-7000-8000-00000000000b";
const C: &str = "01a03d62-0000-7000-8000-00000000000c";

fn nid(s: &str) -> NoteId {
    NoteId::parse(s).unwrap()
}

fn entry(id: &str) -> Entry {
    let id = nid(id);
    Entry {
        record: Record {
            meta: NoteMeta {
                id,
                created_at: id.created_at(),
                title: Some(String::from("A note")),
                root: None,
                reply_to: Some(nid(B)),
                quote: Some(nid(C)),
            },
            path: format!("/vault/{}.md", id.to_string()),
            state: State::Active,
            edited_at: Some(from_nanos(1_700_000_000_123_456_789)),
            links: vec![nid(C), nid(B)],
            undeclared: vec![String::from("summary")],
        },
        rel: format!("{}.md", id.to_string()),
        size: 42,
        mtime_ns: Some(1_700_000_000_123_456_789),
        hash: String::from("deadbeef"),
        raw: String::from(r#"{"title":"A note","summary":"one","relation:reply_to":"x"}"#),
        stored_root: None,
    }
}

fn with_summary() -> FrontmatterSchema {
    let mut entries: Vec<FrontmatterEntry> = FrontmatterSchema::jot_default().entries().to_vec();
    entries.push(FrontmatterEntry::with_key("summary", FieldType::Text(None)));
    FrontmatterSchema::try_new(entries).unwrap()
}

// ------------------------------------------------------------------------------- paths

#[test]
fn rel_path_is_forward_slashed_and_relative() {
    let root = "/vault";
    let note = abs_path(root, ".jot/.trash/01a0.md");
    assert_eq!(rel_path(root, &note), ".jot/.trash/01a0.md");
}

#[test]
fn a_path_outside_the_root_is_left_alone_rather_than_mangled() {
    let rel = rel_path("/vault", "/elsewhere/note.md");
    assert!(rel.ends_with("note.md"));
}

#[test]
fn rel_path_reads_components_not_characters() {
    assert_eq!(rel_path("/vault", "/vault/a/b.md"), "a/b.md");
    assert_eq!(rel_path("/vault/", "/vault//x/./y.md"), "x/y.md");
    assert_eq!(rel_path("/vault", "/vaulted/x.md"), "//vaulted/x.md");
    assert_eq!(rel_path("/vault", "/vault"), "");
}

#[test]
fn abs_path_pushes_each_piece_with_one_separator() {
    assert_eq!(abs_path("/vault", "a/b.md"), "/vault/a/b.md");
    assert_eq!(abs_path("/vault/", "x.md"), "/vault/x.md");
    assert_eq!(abs_path("", "x.md"), "x.md");
}

// ------------------------------------------------------------------------------- entries

#[test]
fn mtime_survives_nanosecond_precision() {
    let nanos = 1_700_000_000_123_456_789;
    assert_eq!(to_nanos(from_nanos(nanos)), Some(nanos));
    assert_eq!(to_nanos(i64::MAX as i128 + 1), None, "past 2262 there is no i64 to hold it");
}

#[test]
fn size_alone_never_counts_as_unchanged() {
    let mut e = entry(A);
    assert!(e.looks_unchanged(42, Some(1_700_000_000_123_456_789)));
    assert!(!e.looks_unchanged(42, Some(1)), "a different mtime");
    assert!(!e.looks_unchanged(43, e.mtime_ns), "a different size");
    e.mtime_ns = None;
    assert!(!e.looks_unchanged(42, None), "no mtime means hash every time, never trust size");
}

#[test]
fn undeclared_keys_answer_to_the_schema_as_it_is_now() {
    let raw = r#"{"title":"A note","summary":"one","relation:reply_to":"x"}"#;
    assert_eq!(undeclared_from(&FrontmatterSchema::jot_default(), raw), vec![String::from("summary")]);
    assert!(undeclared_from(&with_summary(), raw).is_empty());
}

#[test]
fn undeclared_keys_come_back_in_the_order_the_block_writes_them() {
    let raw = r#"{"zeta":1,"alpha":2,"title":"t"}"#;
    assert_eq!(
        undeclared_from(&FrontmatterSchema::jot_default(), raw),
        vec![String::from("zeta"), String::from("alpha")]
    );
}

#[test]
fn a_stored_block_that_does_not_parse_has_no_undeclared_keys() {
    assert!(undeclared_from(&FrontmatterSchema::jot_default(), "not json").is_empty());
    assert!(undeclared_from(&FrontmatterSchema::jot_default(), "[1, 2]").is_empty());
}

// ------------------------------------------------------------------------------- fingerprint

#[test]
fn the_fingerprint_is_stable_and_moves_with_the_manifest() {
    let default = FrontmatterSchema::jot_default();
    let a = fingerprint_of(&default);
    assert_eq!(a, fingerprint_of(&FrontmatterSchema::jot_default()));
    assert_eq!(a.len(), 64);
    assert!(a.chars().all(|c| c.is_ascii_hexdigit() && !c.is_ascii_uppercase()));
    assert_ne!(a, fingerprint_of(&with_summary()), "declaring a key changes what rows mean");
}

// ------------------------------------------------------------------------------- one file

#[test]
fn an_untouched_file_is_reused_without_being_opened() {
    let cached = entry(A);
    let moved = format!("/vault/.jot/.trash/{A}.md");
    let edited = Some(1_700_000_000_123_456_789);
    let Ok(Read { entry: reused, fresh, read, reparsed }) =
        reuse_unread(Some(cached), &moved, State::Trashed, 42, edited)
    else {
        panic!("size and mtime match, so the row is reused");
    };
    assert!(!fresh && !read && !reparsed);
    assert_eq!(reused.record.path, moved, "the path comes from this scan");
    assert_eq!(reused.record.state, State::Trashed);
    assert_eq!(reused.record.meta.root, None, "the walk fills the root");
    assert_eq!(reused.record.meta.title.as_deref(), Some("A note"));
}

#[test]
fn a_touched_file_is_handed_back_to_be_read() {
    let back = reuse_unread(Some(entry(A)), "/vault/x.md", State::Active, 42, Some(7));
    assert!(matches!(back, Err(Some(e)) if e.size == 42));
    assert!(matches!(reuse_unread(None, "/vault/x.md", State::Active, 42, Some(7)), Err(None)));
}

#[test]
fn bytes_that_hash_as_before_are_not_parsed_again() {
    let schema = FrontmatterSchema::jot_default();
    let path = format!("/vault/{A}.md");
    let bytes = b"---\ntitle: Parent\n---\nbody\n";
    let first = read_bytes(&schema, &path, "x.md", State::Active, 27, Some(1), None, bytes);
    let Ok(first) = first else { panic!("a note file parses") };
    assert!(first.fresh && first.read && first.reparsed);
    assert_eq!(first.entry.hash.len(), 64);
    assert_eq!(first.entry.record.meta.title.as_deref(), Some("Parent"));
    assert_eq!(first.entry.stored_root, None);

    let again = read_bytes(&schema, &path, "y.md", State::Active, 27, Some(2), Some(first.entry), bytes);
    let Ok(again) = again else { panic!("the same bytes") };
    assert!(again.fresh && again.read && !again.reparsed, "a touch costs a hash and no reparse");
    assert_eq!(again.entry.rel, "y.md");
    assert_eq!(again.entry.mtime_ns, Some(2));
    assert_eq!(again.entry.record.edited_at, Some(2));
}

#[test]
fn changed_bytes_are_parsed_again() {
    let schema = FrontmatterSchema::jot_default();
    let path = format!("/vault/{A}.md");
    let before = read_bytes(&schema, &path, "x.md", State::Active, 1, Some(1), None, b"---\ntitle: One\n---\n");
    let Ok(before) = before else { panic!() };
    let after = read_bytes(&schema, &path, "x.md", State::Active, 1, Some(1), Some(before.entry), b"---\ntitle: Two\n---\n");
    let Ok(after) = after else { panic!() };
    assert!(after.reparsed);
    assert_eq!(after.entry.record.meta.title.as_deref(), Some("Two"));
}

#[test]
fn a_file_that_does_not_parse_is_unindexable() {
    let schema = FrontmatterSchema::jot_default();
    let bad = read_bytes(&schema, &format!("/vault/{A}.md"), "x.md", State::Active, 3, None, None, b"no frontmatter\n");
    assert!(matches!(bad, Err(Unindexable { .. })));
    let misnamed = read_bytes(&schema, "/vault/README.md", "README.md", State::Active, 3, None, None, b"---\n---\n");
    assert!(matches!(misnamed, Err(Unindexable { message }) if message.contains("README.md")));
}

// ------------------------------------------------------------------------------- one sync

#[test]
fn rows_whose_file_is_gone_are_listed_in_cache_order() {
    let cached = vec![String::from("a.md"), String::from("b.md"), String::from("c.md")];
    let present = vec![String::from("c.md"), String::from("a.md")];
    assert_eq!(gone_paths(&cached, &present), vec![String::from("b.md")]);
    assert!(gone_paths(&cached, &cached).is_empty());
}

#[test]
fn a_sync_plan_keeps_the_first_claim_and_evicts_the_rest() {
    let mut plan = SyncPlan::new();
    let mut first = entry(A);
    first.stored_root = Some(nid(A));
    plan.take(&first.record.path.clone(), "a.md", Ok(Read { entry: first, fresh: false, read: false, reparsed: false }));
    let copy = entry(A);
    plan.take("/vault/copy.md", "copy.md", Ok(Read { entry: copy, fresh: true, read: true, reparsed: true }));
    plan.take("/vault/bad.md", "bad.md", Err(Unindexable { message: String::from("broken") }));

    assert_eq!(plan.cost, ScanCost { read: 2, reparsed: 1 });
    assert_eq!(plan.records.len(), 1);
    assert!(plan.writes.is_empty(), "the kept entry came from the fast path");
    assert_eq!(plan.evictions, vec![String::from("copy.md"), String::from("bad.md")]);
    assert!(matches!(&plan.problems[0], Problem::DuplicateId { id, kept, ignored }
        if *id == nid(A) && kept.ends_with(&format!("{A}.md")) && ignored == "/vault/copy.md"));
    assert!(matches!(&plan.problems[1], Problem::Unreadable { message, .. } if message == "broken"));
    assert_eq!(ScanCost::default(), ScanCost { read: 0, reparsed: 0 });
}

#[test]
fn only_the_roots_that_moved_are_written() {
    let mut plan = SyncPlan::new();
    let mut parent = entry(A);
    parent.record.meta.reply_to = None;
    parent.stored_root = Some(nid(A));
    let mut child = entry(B);
    child.record.meta.reply_to = Some(nid(A));
    child.stored_root = Some(nid(B));
    plan.take(&parent.record.path.clone(), "a.md", Ok(Read { entry: parent, fresh: false, read: false, reparsed: false }));
    plan.take(&child.record.path.clone(), "b.md", Ok(Read { entry: child, fresh: true, read: true, reparsed: true }));
    assert_eq!(plan.writes.len(), 1);

    let (snapshot, moved) = plan.finish();
    assert_eq!(snapshot.len(), 2);
    assert_eq!(moved, vec![(nid(B), nid(A))], "the parent's stored root was already right");
    assert_eq!(snapshot.get(nid(B)).unwrap().meta.root, Some(nid(A)));
}

// ------------------------------------------------------------------------------- rows

fn read_back(root: &str, written: &Entry) -> Vec<Entry> {
    let w = rows_of(root, written);
    let row = StoredRow {
        id: w.id.clone(),
        rel: w.path.clone(),
        state: w.state.clone(),
        size: w.size,
        mtime_ns: w.mtime_ns,
        hash: w.hash.clone(),
        title: w.title.clone(),
        raw: w.raw.clone(),
        root_id: w.root_id.clone(),
    };
    let relations: Vec<(String, String, String)> =
        w.relations.iter().map(|(role, to)| (w.id.clone(), role.clone(), to.clone())).collect();
    let links: Vec<(String, String)> = w.links.iter().map(|(to, _)| (w.id.clone(), to.clone())).collect();
    entries_from_rows(&FrontmatterSchema::jot_default(), root, &vec![row], &relations, &links)
}

#[test]
fn a_record_survives_the_round_trip_field_for_field() {
    let written = entry(A);
    let read = read_back("/vault", &written);
    assert_eq!(read.len(), 1);
    let r = &read[0];
    assert_eq!(r.record.meta, written.record.meta, "every field of the metadata");
    assert_eq!(r.record.path, written.record.path);
    assert_eq!(r.record.state, written.record.state);
    assert_eq!(r.record.edited_at, written.record.edited_at);
    assert_eq!(r.record.links, written.record.links);
    assert_eq!(r.record.undeclared, written.record.undeclared);
    assert_eq!(r.size, written.size);
    assert_eq!(r.mtime_ns, written.mtime_ns);
    assert_eq!(r.hash, written.hash);
    assert_eq!(r.rel, written.rel);
    assert_eq!(r.stored_root, Some(nid(A)), "before the walk the row holds the note itself");
}

#[test]
fn link_order_is_first_appearance_order_not_id_order() {
    let read = read_back("/vault", &entry(A));
    assert_eq!(read[0].record.links, vec![nid(C), nid(B)], "C was written first and must come back first");
}

#[test]
fn a_row_written_carries_the_state_word_the_relations_and_the_positions() {
    let mut e = entry(A);
    e.record.state = State::Trashed;
    e.record.path = format!("/vault/.jot/.trash/{A}.md");
    let w = rows_of("/vault", &e);
    assert_eq!(w.state, "trashed");
    assert_eq!(w.path, format!(".jot/.trash/{A}.md"));
    assert_eq!(
        w.relations,
        vec![(String::from("relation:reply_to"), String::from(B)), (String::from("relation:quote_to"), String::from(C))]
    );
    assert_eq!(w.links, vec![(String::from(C), 0), (String::from(B), 1)]);
    assert_eq!(w.created_at.as_deref(), Some("2026-08-26T09:21:36.768+00:00"), "decoded from the id");
    assert_eq!(w.root_id, A, "before the walk the row roots the note at itself");
}

#[test]
fn rows_with_ids_that_do_not_parse_are_skipped() {
    let row = StoredRow {
        id: String::from("not-an-id"),
        rel: String::from("x.md"),
        state: String::from("active"),
        size: -1,
        mtime_ns: None,
        hash: String::new(),
        title: None,
        raw: String::from("{}"),
        root_id: String::new(),
    };
    assert!(entries_from_rows(&FrontmatterSchema::jot_default(), "/vault", &vec![row], &Vec::new(), &Vec::new()).is_empty());
}

#[test]
fn a_hand_edited_state_or_size_reads_back_safely() {
    let row = StoredRow {
        id: String::from(A),
        rel: String::from("x.md"),
        state: String::from("archived"),
        size: -5,
        mtime_ns: None,
        hash: String::new(),
        title: None,
        raw: String::from("{}"),
        root_id: String::from("garbage"),
    };
    let es = entries_from_rows(&FrontmatterSchema::jot_default(), "/vault", &vec![row], &Vec::new(), &Vec::new());
    assert_eq!(es[0].record.state, State::Active, "an unknown word keeps the note visible");
    assert_eq!(es[0].size, 0);
    assert_eq!(es[0].stored_root, None);
    assert_eq!(es[0].record.path, "/vault/x.md");
}

#[test]
fn the_stored_block_is_the_frontmatter_as_json_in_file_order() {
    let doc = b"---\ntitle: T\nsummary: one\nalpha: 2\n---\nbody\n";
    assert_eq!(raw_json("/vault/x.md", doc).unwrap(), r#"{"title":"T","summary":"one","alpha":2}"#);
    assert_eq!(raw_json("/vault/x.md", b"---\n---\nbody").unwrap(), "{}");
    assert!(raw_json("/vault/x.md", b"no block").unwrap_err().contains("has no frontmatter"));
    assert!(raw_json("/vault/x.md", &[0xff, 0xfe]).unwrap_err().contains("is not valid UTF-8"));
}

#[test]
fn a_parsed_file_stores_its_block_as_json() {
    let schema = FrontmatterSchema::jot_default();
    let Ok(read) = read_bytes(&schema, &format!("/vault/{A}.md"), "x.md", State::Active, 1, None, None, b"---\ntitle: One\nsummary: s\n---\n") else { panic!() };
    assert_eq!(read.entry.raw, r#"{"title":"One","summary":"s"}"#);
}
