use jot_core::fs::FilenameSlug;
use jot_core::note::{NoteId, NoteMeta};
use jot_core::query::{Draft, Edit, Field, Ref, Resolution, Row, State, parse_state};

const A: &str = "01a03d60-0000-7000-8000-00000000000a";

fn nid(s: &str) -> NoteId {
    NoteId::parse(s).unwrap()
}

fn meta(id: &str) -> NoteMeta {
    let id = nid(id);
    NoteMeta {
        id,
        created_at: id.created_at(),
        title: None,
        root: Some(id),
        reply_to: None,
        quote: None,
    }
}

#[test]
fn a_reference_reports_its_id_in_every_state() {
    assert_eq!(Ref::Present(meta(A)).id(), nid(A));
    assert_eq!(Ref::Trashed(meta(A)).id(), nid(A));
    assert_eq!(Ref::Deleted(nid(A)).id(), nid(A));
}

#[test]
fn only_a_deleted_reference_has_no_note_behind_it() {
    assert!(Ref::Present(meta(A)).exists_in_vault());
    assert!(Ref::Trashed(meta(A)).exists_in_vault());
    assert!(!Ref::Deleted(nid(A)).exists_in_vault());
}

#[test]
fn a_field_distinguishes_leaving_a_value_alone_from_removing_it() {
    let mut title = Some("kept".to_owned());
    Field::Unchanged.apply(&mut title);
    assert_eq!(title.as_deref(), Some("kept"));

    Field::SetTo("replaced".to_owned()).apply(&mut title);
    assert_eq!(title.as_deref(), Some("replaced"));

    Field::<String>::Cleared.apply(&mut title);
    assert_eq!(title, None);
}

#[test]
fn clearing_a_field_that_is_already_absent_is_not_an_error() {
    let mut title: Option<String> = None;
    Field::<String>::Cleared.apply(&mut title);
    assert_eq!(title, None);
}

#[test]
fn an_edit_that_sets_nothing_is_empty_and_one_that_clears_is_not() {
    assert!(Edit::new().is_empty());
    assert!(!Edit::new().clear_title().is_empty());
    assert!(!Edit::new().body("x").is_empty());
    assert!(!Edit::new().title("x").is_empty());
    assert!(!Edit::new().clear_quote().is_empty());
}

#[test]
fn a_draft_is_empty_only_when_it_would_produce_a_note_with_nothing_in_it() {
    assert!(Draft::new("").is_empty());
    assert!(Draft::new("   \n\t \n").is_empty());
    assert!(!Draft::new("a thought").is_empty());
    assert!(!Draft::new("").title("a title").is_empty());
    assert!(Draft::new("").title("   ").is_empty());
}

#[test]
fn the_draft_builder_composes() {
    let draft = Draft::new("body").title("t").reply_to(nid(A)).slugged();
    assert_eq!(draft.body, "body");
    assert_eq!(draft.title.as_deref(), Some("t"));
    assert_eq!(draft.reply_to, Some(nid(A)));
    assert_eq!(draft.slug, FilenameSlug::FromTitle);
    assert_eq!(draft.quote, None);
}

#[test]
fn a_row_with_a_deleted_parent_reads_as_a_root() {
    let row = Row {
        note: meta(A),
        state: State::Active,
        parent: Some(Ref::Deleted(nid(A))),
        replies: 0,
        descendants: 0,
        edited_at: None,
    };
    assert!(row.is_root(), "an orphan must not be invisible");
}

#[test]
fn a_row_with_a_trashed_parent_is_not_a_root() {
    let row = Row {
        note: meta(A),
        state: State::Active,
        parent: Some(Ref::Trashed(meta(A))),
        replies: 0,
        descendants: 0,
        edited_at: None,
    };
    assert!(!row.is_root());
}

#[test]
fn state_prints_the_word_the_index_stores() {
    assert_eq!(State::Active.to_string(), "active");
    assert_eq!(State::Trashed.to_string(), "trashed");
}

#[test]
fn a_unique_resolution_is_the_only_one_that_yields_a_note() {
    assert!(Resolution::Unique(Box::new(meta(A))).unique().is_some());
    assert!(Resolution::Ambiguous(vec![meta(A)]).unique().is_none());
    assert!(Resolution::NoMatch.unique().is_none());
}

#[test]
fn a_stored_state_reads_back_and_anything_else_is_active() {
    assert_eq!(parse_state(State::Trashed.as_str()), State::Trashed);
    assert_eq!(parse_state(State::Active.as_str()), State::Active);
    assert_eq!(parse_state("Trashed"), State::Active);
    assert_eq!(parse_state(""), State::Active);
}
