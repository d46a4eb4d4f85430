use jot_core::frontmatter::{FieldType, FrontmatterEntry, FrontmatterSchema};
use jot_core::note::{Note, NoteId};
use jot_core::query::{FileSort, Ref, Resolution, SearchQuery, State, TimelineQuery};
use jot_core::snapshot::{Found, Problem, Snapshot, record_at};

const A: &str = "01a03d60-0000-7000-8000-00000000000a";
const B: &str = "01a03d61-0000-7000-8000-00000000000b";
const C: &str = "01a03d62-0000-7000-8000-00000000000c";
const D: &str = "01a03d63-0000-7000-8000-00000000000d";
const GONE: &str = "01a03dff-0000-7000-8000-00000000ffff";

const ROOT: &str = "/vault";
const TRASH: &str = "/vault/.jot/.trash";

fn nid(s: &str) -> NoteId {
    NoteId::parse(s).unwrap()
}

/// A note file: `(id, frontmatter lines, body)`.
struct Spec(&'static str, Vec<String>, String);

fn note(id: &'static str) -> Spec {
    Spec(id, Vec::new(), String::new())
}

impl Spec {
    fn title(mut self, title: &str) -> Self {
        self.1.insert(0, format!("title: {title}"));
        self
    }
    fn reply_to(mut self, parent: &str) -> Self {
        self.1.push(format!("relation:reply_to: {parent}"));
        self
    }
    fn quote(mut self, quoted: &str) -> Self {
        self.1.push(format!("relation:quote_to: {quoted}"));
        self
    }
    fn body(mut self, body: &str) -> Self {
        self.2 = body.to_owned();
        self
    }
    fn line(mut self, line: &str) -> Self {
        self.1.push(line.to_owned());
        self
    }
    fn render(&self) -> String {
        let mut out = String::from("---\n");
        for line in &self.1 {
            out.push_str(&format!("{line}\n"));
        }
        out.push_str(&format!("---\n\n{}", self.2));
        out
    }
}

/// A vault held in memory: each file's path, the directory's state, its mtime and its bytes.
struct Vault {
    files: Vec<(String, State, i128, String)>,
    clock: i128,
}

impl Vault {
    fn write(&mut self, dir: &str, name: &str, content: String) {
        let state = if dir == TRASH { State::Trashed } else { State::Active };
        let path = format!("{dir}/{name}");
        self.clock += 1;
        let mtime = self.clock;
        self.files.retain(|f| f.0 != path);
        self.files.push((path, state, mtime, content));
    }

    fn remove(&mut self, dir: &str, name: &str) {
        let path = format!("{dir}/{name}");
        self.files.retain(|f| f.0 != path);
    }

    fn rename(&mut self, from_dir: &str, to_dir: &str, name: &str) {
        let from = format!("{from_dir}/{name}");
        let content = self.files.iter().find(|f| f.0 == from).unwrap().3.clone();
        self.remove(from_dir, name);
        self.write(to_dir, name, content);
    }

    fn bytes_at(&self, path: &str) -> &[u8] {
        self.files.iter().find(|f| f.0 == path).unwrap().3.as_bytes()
    }
}

/// A vault holding `specs`, plus any spec named in `trashed` in `.jot/.trash/`.
fn vault(specs: Vec<Spec>, trashed: &[&str]) -> Vault {
    let mut v = Vault { files: Vec::new(), clock: 1_700_000_000_000_000_000 };
    for spec in &specs {
        let dir = if trashed.contains(&spec.0) { TRASH } else { ROOT };
        v.write(dir, &format!("{}.md", spec.0), spec.render());
    }
    v
}

/// Scan order: the vault root, then the trash, each in path order.
fn scan_under(schema: &FrontmatterSchema, v: &Vault) -> Snapshot {
    let mut found = Vec::new();
    for state in [State::Active, State::Trashed] {
        let mut files: Vec<_> = v.files.iter().filter(|f| f.1 == state).collect();
        files.sort_by(|a, b| a.0.cmp(&b.0));
        for (path, state, mtime, content) in files {
            match record_at(schema, path, *state, Some(*mtime), content.as_bytes()) {
                Ok(record) => found.push(Found::Read(record)),
                Err(e) => found.push(Found::Unreadable { path: path.clone(), message: e.to_string() }),
            }
        }
    }
    Snapshot::from_scan(found)
}

fn scan(v: &Vault) -> Snapshot {
    scan_under(&FrontmatterSchema::jot_default(), v)
}

/// The worked example's chain: `a → b → c`, plus `d` replying to `a`.
fn chain() -> Vec<Spec> {
    vec![
        note(A).title("root"),
        note(B).reply_to(A).title("reply"),
        note(C).reply_to(B).title("deep"),
        note(D).reply_to(A).title("fork"),
    ]
}

fn ids_of(rows: &[jot_core::query::Row]) -> Vec<NoteId> {
    rows.iter().map(|r| r.note.id).collect()
}

// --------------------------------------------------------------------- undeclared keys

#[test]
fn a_key_the_schema_does_not_declare_is_reported_once_for_the_whole_vault() {
    let ws = vault(
        vec![
            note(A).title("a").line("summary: one"),
            note(B).title("b").line("summary: two"),
            note(C).title("c"),
        ],
        &[],
    );
    let snap = scan(&ws);

    let [Problem::UndeclaredKey { key, example, notes }] = snap.problems() else {
        panic!("expected one undeclared-key problem: {:?}", snap.problems());
    };
    assert_eq!(key, "summary");
    assert_eq!(*notes, 2, "counted per note, not per vault-wide occurrence");
    assert!(example.ends_with(&format!("{A}.md")), "{example:?}");
    assert!(
        snap.problems()[0].to_string().contains("summary"),
        "the message names the key: {}",
        snap.problems()[0].to_string()
    );
}

#[test]
fn a_legacy_relation_root_is_reported_rather_than_read() {
    let ws = vault(vec![note(A).title("a").line(&format!("relation:root: {A}"))], &[]);
    let snap = scan(&ws);

    assert!(
        matches!(snap.problems(), [Problem::UndeclaredKey { key, .. }] if key == "relation:root"),
        "{:?}",
        snap.problems()
    );
    assert_eq!(
        snap.get(nid(A)).unwrap().meta.root,
        Some(nid(A)),
        "the root is derived from `reply_to`, not read from the legacy key"
    );
}

#[test]
fn declaring_the_key_stops_the_report() {
    let ws = vault(vec![note(A).title("a").line("summary: one")], &[]);
    assert_eq!(scan(&ws).problems().len(), 1);

    let mut entries: Vec<FrontmatterEntry> =
        FrontmatterSchema::jot_default().entries().to_vec();
    entries.push(FrontmatterEntry::with_key("summary", FieldType::Text(None)));
    let declared = FrontmatterSchema::try_new(entries).unwrap();
    let snap = scan_under(&declared, &ws);
    assert!(snap.problems().is_empty(), "{:?}", snap.problems());
}

#[test]
fn forgetting_the_last_note_carrying_a_key_retires_its_report() {
    let ws = vault(
        vec![note(A).title("a").line("summary: one"), note(B).title("b").line("summary: two")],
        &[],
    );
    let mut snap = scan(&ws);
    assert!(matches!(snap.problems(), [Problem::UndeclaredKey { notes: 2, .. }]));

    snap.forget(nid(B));
    assert!(matches!(snap.problems(), [Problem::UndeclaredKey { notes: 1, .. }]));
    snap.forget(nid(A));
    assert!(snap.problems().is_empty(), "{:?}", snap.problems());
}

// ------------------------------------------------------------------------------- scanning

#[test]
fn a_scan_finds_every_note_and_reads_its_state_from_its_directory() {
    let ws = vault(chain(), &[C]);
    let snap = scan(&ws);

    assert_eq!(snap.len(), 4);
    assert_eq!(snap.counts(), (3, 1));
    assert_eq!(snap.get(nid(A)).unwrap().state, State::Active);
    assert_eq!(snap.get(nid(C)).unwrap().state, State::Trashed);
    assert!(snap.problems().is_empty());
}

#[test]
fn an_empty_vault_scans_to_an_empty_snapshot_rather_than_an_error() {
    let ws = vault(vec![], &[]);
    let snap = scan(&ws);
    assert!(snap.is_empty());
    assert_eq!(snap.counts(), (0, 0));
}

#[test]
fn created_at_is_decoded_from_the_id_and_never_read_from_the_file() {
    let ws = vault(chain(), &[]);
    let snap = scan(&ws);
    assert_eq!(snap.get(nid(A)).unwrap().meta.created_at, nid(A).created_at());
}

#[test]
fn a_record_carries_the_path_a_write_would_reload() {
    let ws = vault(chain(), &[]);
    let snap = scan(&ws);
    let record = snap.get(nid(A)).unwrap();
    assert!(record.path.starts_with(ROOT));
    let schema = FrontmatterSchema::jot_default();
    assert!(Note::parse_at_under(&schema, &record.path, ws.bytes_at(&record.path)).is_ok());
}

#[test]
fn an_unparseable_note_is_a_problem_and_the_rest_of_the_vault_still_scans() {
    let mut ws = vault(chain(), &[]);
    ws.write(ROOT, &format!("{GONE}.md"), "no frontmatter at all\n".to_owned());

    let snap = scan(&ws);
    assert_eq!(snap.len(), 4, "the good notes still loaded");
    assert!(matches!(
        snap.problems(),
        [Problem::Unreadable { path, .. }] if path.ends_with(&format!("{GONE}.md"))
    ));
}

#[test]
fn a_markdown_file_that_is_not_a_note_filename_is_a_problem_not_a_note() {
    let mut ws = vault(chain(), &[]);
    ws.write(ROOT, "README.md", "---\n---\n\nhello".to_owned());

    let snap = scan(&ws);
    assert_eq!(snap.len(), 4);
    assert!(matches!(snap.problems(), [Problem::Unreadable { .. }]));
}

#[test]
fn two_files_claiming_one_id_keep_the_first_and_report_the_second() {
    let mut ws = vault(chain(), &[]);
    ws.write(ROOT, &format!("{A}_a_copy.md"), note(A).title("copy").render());

    let snap = scan(&ws);
    assert_eq!(snap.len(), 4, "the duplicate did not become a fifth note");
    assert_eq!(snap.get(nid(A)).unwrap().meta.title.as_deref(), Some("root"));
    assert!(matches!(
        snap.problems(),
        [Problem::DuplicateId { id, .. }] if *id == nid(A)
    ));
}

#[test]
fn a_live_file_wins_over_a_trashed_file_with_the_same_id() {
    let mut ws = vault(chain(), &[]);
    ws.write(TRASH, &format!("{A}.md"), note(A).render());

    let snap = scan(&ws);
    assert_eq!(snap.get(nid(A)).unwrap().state, State::Active);
    assert!(matches!(snap.problems(), [Problem::DuplicateId { .. }]));
}

// -------------------------------------------------------------------------------- diffing

#[test]
fn a_scan_of_an_unchanged_vault_reports_everything_unchanged() {
    let ws = vault(chain(), &[]);
    let first = scan(&ws);
    let report = scan(&ws).diff(&first);

    assert!(report.is_quiet());
    assert_eq!(report.unchanged, 4);
    assert_eq!(report.changed(), 0);
}

#[test]
fn diff_reports_an_added_a_removed_and_an_updated_note() {
    let mut ws = vault(chain(), &[]);
    let before = scan(&ws);

    ws.remove(ROOT, &format!("{D}.md"));
    ws.write(ROOT, &format!("{GONE}.md"), note(GONE).title("new").render());
    ws.write(ROOT, &format!("{A}.md"), note(A).title("retitled").render());

    let report = scan(&ws).diff(&before);
    assert_eq!(report.added, vec![nid(GONE)]);
    assert_eq!(report.removed, vec![nid(D)]);
    assert_eq!(report.updated, vec![nid(A)]);
    assert!(!report.is_quiet());
}

#[test]
fn moving_a_note_to_the_trash_shows_up_as_an_update_not_an_add_and_a_remove() {
    let mut ws = vault(chain(), &[]);
    let before = scan(&ws);
    ws.rename(ROOT, TRASH, &format!("{C}.md"));

    let report = scan(&ws).diff(&before);
    assert_eq!(report.updated, vec![nid(C)]);
    assert!(report.added.is_empty() && report.removed.is_empty());
}

// ------------------------------------------------------------------------------ resolution

#[test]
fn a_unique_prefix_resolves_and_an_unknown_one_does_not() {
    let ws = vault(chain(), &[]);
    let snap = scan(&ws);

    assert_eq!(snap.resolve("01a03d60").unique().unwrap().id, nid(A));
    assert!(matches!(snap.resolve("ffffffff"), Resolution::NoMatch));
    assert!(matches!(snap.resolve(""), Resolution::NoMatch));
}

#[test]
fn a_shared_prefix_is_ambiguous_and_lists_every_candidate_in_id_order() {
    let ws = vault(chain(), &[]);
    let snap = scan(&ws);

    let Resolution::Ambiguous(candidates) = snap.resolve("01a03d6") else {
        panic!("expected ambiguity across four ids sharing a prefix");
    };
    assert_eq!(candidates.len(), 4);
    assert_eq!(candidates[0].id, nid(A), "candidates come back sorted");
}

#[test]
fn a_full_id_resolves_and_so_does_an_uppercase_one() {
    let ws = vault(chain(), &[]);
    let snap = scan(&ws);
    assert_eq!(snap.resolve(A).unique().unwrap().id, nid(A));
    assert_eq!(snap.resolve(&A.to_uppercase()).unique().unwrap().id, nid(A));
}

#[test]
fn a_prefix_may_span_a_hyphen() {
    let ws = vault(chain(), &[]);
    assert_eq!(scan(&ws).resolve("01a03d60-0000").unique().unwrap().id, nid(A));
}

#[test]
fn a_trashed_note_still_resolves_because_it_is_still_a_real_note() {
    let ws = vault(chain(), &[C]);
    assert_eq!(scan(&ws).resolve(C).unique().unwrap().id, nid(C));
}

// ------------------------------------------------------------------- reference resolution

#[test]
fn a_reference_has_exactly_three_states() {
    let ws = vault(chain(), &[C]);
    let snap = scan(&ws);

    assert!(matches!(snap.reference(nid(A)), Ref::Present(_)));
    assert!(matches!(snap.reference(nid(C)), Ref::Trashed(_)));
    assert!(matches!(snap.reference(nid(GONE)), Ref::Deleted(_)));
}

// --------------------------------------------------------------------------------- threads

#[test]
fn a_thread_carries_its_ancestors_root_first_and_its_subtree() {
    let ws = vault(chain(), &[]);
    let thread = scan(&ws).thread(nid(C)).unwrap();

    assert_eq!(thread.ancestors.iter().map(|m| m.id).collect::<Vec<_>>(), vec![nid(A), nid(B)]);
    assert_eq!(thread.tree.len(), 1);
    assert_eq!(thread.root().id, nid(A));
}

#[test]
fn a_thread_from_the_root_holds_every_note_beneath_it() {
    let ws = vault(chain(), &[]);
    let thread = scan(&ws).thread(nid(A)).unwrap();

    assert!(thread.ancestors.is_empty());
    assert_eq!(thread.tree.len(), 4);
    assert_eq!(thread.tree.reply_count(), 2, "b and d reply to a");
}

#[test]
fn a_trashed_note_stays_in_its_thread_because_trash_never_cascades() {
    let ws = vault(chain(), &[B]);
    let thread = scan(&ws).thread(nid(A)).unwrap();

    assert_eq!(thread.tree.len(), 4, "c is still reachable through b");
    assert_eq!(scan(&ws).ancestors(nid(C)), scan(&ws).thread(nid(C)).unwrap().ancestors);
}

#[test]
fn a_purged_ancestor_truncates_the_chain_rather_than_breaking_it() {
    let mut ws = vault(chain(), &[]);
    ws.remove(ROOT, &format!("{B}.md"));

    let snap = scan(&ws);
    assert!(snap.ancestors(nid(C)).is_empty());
    assert!(matches!(snap.reference(nid(B)), Ref::Deleted(_)));
}

#[test]
fn siblings_are_in_creation_order_without_a_sort() {
    let ws = vault(chain(), &[]);
    let tree = scan(&ws).thread(nid(A)).unwrap().tree;
    assert_eq!(tree.children.iter().map(|c| c.id()).collect::<Vec<_>>(), vec![nid(B), nid(D)]);
}

#[test]
fn a_thread_for_a_note_the_vault_does_not_hold_is_none() {
    let ws = vault(chain(), &[]);
    assert!(scan(&ws).thread(nid(GONE)).is_none());
}

// -------------------------------------------------------------------------------- timeline

#[test]
fn the_timeline_shows_roots_newest_first() {
    let ws = vault(chain(), &[]);
    let page = scan(&ws).timeline(&TimelineQuery::new());

    assert_eq!(page.len(), 1, "only `a` is a root");
    assert_eq!(page.items[0].note.id, nid(A));
    assert_eq!(page.items[0].replies, 2);
    assert_eq!(page.items[0].descendants, 3);
}

#[test]
fn a_flat_timeline_shows_every_note_newest_first() {
    let ws = vault(chain(), &[]);
    let page = scan(&ws).timeline(&TimelineQuery::new().flat());
    assert_eq!(ids_of(&page.items), vec![nid(D), nid(C), nid(B), nid(A)]);
}

#[test]
fn the_timeline_hides_trashed_notes() {
    let ws = vault(chain(), &[D]);
    let page = scan(&ws).timeline(&TimelineQuery::new().flat());
    assert!(page.items.iter().all(|r| r.note.id != nid(D)));
}

#[test]
fn a_note_whose_parent_was_purged_appears_in_the_timeline_as_a_root() {
    let mut ws = vault(chain(), &[]);
    ws.remove(ROOT, &format!("{A}.md"));

    let page = scan(&ws).timeline(&TimelineQuery::new());
    let roots = ids_of(&page.items);
    assert!(roots.contains(&nid(B)), "b's parent is gone, so b is a root");
    assert!(roots.contains(&nid(D)));
    assert!(!roots.contains(&nid(C)), "c's parent b is still here");
}

#[test]
fn a_trashed_parent_does_not_make_its_reply_a_root() {
    let ws = vault(chain(), &[A]);
    let page = scan(&ws).timeline(&TimelineQuery::new());
    assert!(page.items.iter().all(|r| r.note.id != nid(B)));
}

#[test]
fn a_row_carries_its_parents_state_so_a_placeholder_needs_no_second_lookup() {
    let ws = vault(chain(), &[A]);
    let page = scan(&ws).timeline(&TimelineQuery::new().flat());
    let b = page.items.iter().find(|r| r.note.id == nid(B)).unwrap();
    assert!(matches!(b.parent, Some(Ref::Trashed(_))));
}

#[test]
fn a_limit_pages_and_the_cursor_resumes_without_repeating_or_skipping() {
    let ws = vault(chain(), &[]);
    let snap = scan(&ws);

    let first = snap.timeline(&TimelineQuery::new().flat().limit(2));
    assert_eq!(ids_of(&first.items), vec![nid(D), nid(C)]);

    let second = snap.timeline(&TimelineQuery::new().flat().limit(2).before(first.next.unwrap()));
    assert_eq!(ids_of(&second.items), vec![nid(B), nid(A)]);
    assert_eq!(second.next, None, "the last page has no cursor");
}

#[test]
fn a_since_filter_keeps_only_notes_created_at_or_after_it() {
    let ws = vault(chain(), &[]);
    let cutoff = nid(C).created_at().unwrap();

    let page = scan(&ws).timeline(&TimelineQuery::new().flat().since(cutoff));
    assert_eq!(ids_of(&page.items), vec![nid(D), nid(C)]);
}

#[test]
fn an_until_filter_is_exclusive() {
    let ws = vault(chain(), &[]);
    let cutoff = nid(C).created_at().unwrap();

    let page = scan(&ws).timeline(&TimelineQuery::new().flat().until(cutoff));
    assert_eq!(ids_of(&page.items), vec![nid(B), nid(A)]);
}

// ------------------------------------------------------------------------ files and trash

#[test]
fn files_sorts_by_creation_by_title_and_by_mtime() {
    let ws = vault(chain(), &[]);
    let snap = scan(&ws);

    assert_eq!(ids_of(&snap.files(FileSort::Created)), vec![nid(D), nid(C), nid(B), nid(A)]);
    assert_eq!(
        snap.files(FileSort::Title).iter().filter_map(|r| r.note.title.clone()).collect::<Vec<_>>(),
        vec!["deep", "fork", "reply", "root"]
    );
    assert_eq!(snap.files(FileSort::Edited).len(), 4);
}

#[test]
fn created_ascending_is_created_descending_reversed() {
    let ws = vault(chain(), &[]);
    let snap = scan(&ws);

    let ids = |sort| ids_of(&snap.files(sort));
    assert_eq!(ids(FileSort::CreatedAsc), vec![nid(A), nid(B), nid(C), nid(D)]);

    let mut descending = ids(FileSort::Created);
    descending.reverse();
    assert_eq!(ids(FileSort::CreatedAsc), descending);
}

#[test]
fn an_untitled_note_sorts_last_by_title() {
    let ws = vault(vec![note(A), note(B).title("zzz")], &[]);
    let rows = scan(&ws).files(FileSort::Title);
    assert_eq!(rows[0].note.id, nid(B));
    assert_eq!(rows[1].note.id, nid(A), "untitled last");
}

#[test]
fn files_and_the_trash_are_disjoint() {
    let ws = vault(chain(), &[C, D]);
    let snap = scan(&ws);
    assert_eq!(snap.files(FileSort::Created).len(), 2);
    assert_eq!(snap.trashed().len(), 2);
}

// ---------------------------------------------------------------------------------- search

#[test]
fn search_matches_a_title_substring_case_insensitively() {
    let ws = vault(chain(), &[]);
    let hits = scan(&ws).search(&SearchQuery::new("REP"));
    assert_eq!(hits.len(), 1);
    assert_eq!(hits[0].note.id, nid(B));
}

#[test]
fn search_skips_the_trash_unless_asked() {
    let ws = vault(chain(), &[B]);
    let snap = scan(&ws);
    assert!(snap.search(&SearchQuery::new("reply")).is_empty());
    assert_eq!(snap.search(&SearchQuery::new("reply").include_trashed()).len(), 1);
}

#[test]
fn an_empty_search_matches_every_active_note() {
    let ws = vault(chain(), &[]);
    assert_eq!(scan(&ws).search(&SearchQuery::new("   ")).len(), 4);
}

#[test]
fn search_does_not_look_at_bodies() {
    let ws = vault(vec![note(A).title("t").body("a distinctive word")], &[]);
    assert!(scan(&ws).search(&SearchQuery::new("distinctive")).is_empty());
}

// -------------------------------------------------------------------------- abbreviations

#[test]
fn an_abbreviation_is_a_real_prefix_that_resolves_back_to_its_note() {
    let ws = vault(chain(), &[]);
    let snap = scan(&ws);

    for (id, short) in snap.abbreviations(8) {
        let id = NoteId::from_u128(id);
        assert!(id.to_string().starts_with(&short), "{short} of {id:?}");
        assert_eq!(
            snap.resolve(&short).unique().map(|m| m.id),
            Some(id),
            "`{short}` must identify exactly one note"
        );
    }
}

#[test]
fn abbreviations_grow_only_as_far_as_they_must_to_stay_distinct() {
    let ws = vault(chain(), &[]);
    let shorts = scan(&ws).abbreviations(8);
    assert!(shorts.values().all(|s| s.len() == 8), "{shorts:?}");

    let shorts = scan(&ws).abbreviations(1);
    assert!(shorts.values().all(|s| s.len() == 8), "{shorts:?}");
}

#[test]
fn ids_sharing_a_long_timestamp_prefix_get_longer_abbreviations() {
    const P: &str = "01a03d60-1111-7000-8000-00000000000a";
    const Q: &str = "01a03d60-1111-7000-8000-00000000000b";
    let ws = vault(vec![note(P), note(Q)], &[]);
    let snap = scan(&ws);
    let shorts = snap.abbreviations(8);

    assert!(shorts.values().all(|s| s.len() > 8), "eight characters cannot separate these: {shorts:?}");
    for (id, short) in &shorts {
        assert_eq!(snap.resolve(short).unique().map(|m| m.id), Some(NoteId::from_u128(*id)));
    }
}

#[test]
fn a_lone_note_gets_the_floor_width() {
    let ws = vault(vec![note(A)], &[]);
    assert_eq!(scan(&ws).abbreviations(8)[&nid(A).as_u128()].len(), 8);
}

#[test]
fn an_empty_vault_has_no_abbreviations() {
    let ws = vault(vec![], &[]);
    assert!(scan(&ws).abbreviations(8).is_empty());
}

// ----------------------------------------------------------------------------------- links

#[test]
fn backlinks_find_every_note_whose_body_links_here() {
    let ws = vault(
        vec![
            note(A),
            note(B).body(&format!("see [[{A}]]")),
            note(C).body(&format!("also [[{A}|the root]] twice: [[{A}]]")),
            note(D).body("no links"),
        ],
        &[],
    );
    let snap = scan(&ws);
    assert_eq!(snap.backlinks(nid(A)).iter().map(|m| m.id).collect::<Vec<_>>(), vec![nid(B), nid(C)]);
    assert!(snap.backlinks(nid(D)).is_empty());
}

#[test]
fn a_link_edge_is_deduplicated_but_a_link_to_a_purged_note_still_extracts() {
    let ws = vault(vec![note(A).body(&format!("[[{GONE}]] and [[{GONE}]]"))], &[]);
    let snap = scan(&ws);
    assert_eq!(snap.get(nid(A)).unwrap().links, vec![nid(GONE)]);
    assert_eq!(snap.backlinks(nid(GONE)).len(), 1);
    assert!(matches!(snap.reference(nid(GONE)), Ref::Deleted(_)), "extraction never consults the index");
}

#[test]
fn a_link_in_a_code_fence_produces_no_edge() {
    let ws = vault(vec![note(A).body(&format!("```\n[[{B}]]\n```"))], &[]);
    assert!(scan(&ws).get(nid(A)).unwrap().links.is_empty());
}

#[test]
fn quoted_by_is_the_inverse_of_the_quote_relation_and_is_not_a_thread_edge() {
    let ws = vault(vec![note(A), note(B).quote(A), note(C).reply_to(A)], &[]);
    let snap = scan(&ws);

    assert_eq!(snap.quoted_by(nid(A)).iter().map(|m| m.id).collect::<Vec<_>>(), vec![nid(B)]);
    let tree = snap.thread(nid(A)).unwrap().tree;
    assert_eq!(tree.len(), 2, "only a and its reply c");
    assert!(tree.children.iter().all(|child| child.id() != nid(B)));
}

// ---------------------------------------------------------------------------------- cycles

#[test]
fn a_reply_cycle_is_reported_once_and_every_note_in_it_stays_visible() {
    let ws = vault(vec![note(A).reply_to(B).title("a"), note(B).reply_to(A).title("b")], &[]);
    let snap = scan(&ws);
    let cycles: Vec<_> = snap
        .problems()
        .iter()
        .filter(|p| matches!(p, Problem::ReplyCycle { .. }))
        .collect();
    assert_eq!(cycles.len(), 1, "{:?}", snap.problems());
    let root_a = snap.get(nid(A)).unwrap().meta.root;
    assert_eq!(root_a, snap.get(nid(B)).unwrap().meta.root, "a cycle shares one root");
    assert!(root_a == Some(nid(A)) || root_a == Some(nid(B)));
    assert!(cycles[0].to_string().contains("loops back to note"), "{}", cycles[0].to_string());
}

#[test]
fn a_note_replying_to_itself_is_its_own_root() {
    let ws = vault(vec![note(A).reply_to(A).title("self")], &[]);
    let snap = scan(&ws);
    assert_eq!(snap.get(nid(A)).unwrap().meta.root, Some(nid(A)));
}

// ------------------------------------------------------------------- incremental updates

#[test]
fn replacing_a_record_takes_the_new_one_and_rederives_roots() {
    let ws = vault(chain(), &[]);
    let mut snap = scan(&ws);
    let other = vault(vec![note(D).reply_to(C).title("moved")], &[]);
    let moved = scan(&other).get(nid(D)).unwrap().copy();
    snap.replace(moved);
    assert_eq!(snap.len(), 4);
    assert_eq!(snap.get(nid(D)).unwrap().meta.title.as_deref(), Some("moved"));
    assert_eq!(snap.get(nid(D)).unwrap().meta.root, Some(nid(A)), "d now hangs under c, still rooted at a");
    assert_eq!(snap.thread(nid(C)).unwrap().tree.len(), 2);
}

#[test]
fn reindexing_a_file_that_no_longer_parses_drops_its_record_and_reports_it() {
    let ws = vault(chain(), &[]);
    let mut snap = scan(&ws);
    snap.reindex(
        nid(D),
        Found::Unreadable { path: format!("{ROOT}/{D}.md"), message: String::from("broken") },
    );
    assert_eq!(snap.len(), 3);
    assert!(snap.get(nid(D)).is_none());
    assert!(matches!(snap.problems(), [Problem::Unreadable { message, .. }] if message == "broken"));
}

#[test]
fn a_sync_report_starts_empty_and_counts_what_moved() {
    let mut report = jot_core::snapshot::SyncReport::default();
    assert!(report.is_quiet() && report.was_free());
    assert_eq!(report.changed(), 0);
    report.added.push(nid(A));
    report.removed.push(nid(B));
    report.files_read = 1;
    assert!(!report.is_quiet() && !report.was_free());
    assert_eq!(report.changed(), 2);
}
