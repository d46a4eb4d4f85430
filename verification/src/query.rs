//! The vocabulary surfaces use to ask for things, and to describe changes to notes.
//!
//! Every type here is a plain data shape. Nothing here is writable back into a file: [`Draft`]
//! and [`Edit`] describe a change, and applying one always goes load, mutate, write, so a key jot
//! does not interpret is never lost to a write built from a query result.
//!
//! Instants are nanoseconds since the Unix epoch.

use vstd::prelude::*;
use vstd::string::StringExecFns;

use crate::frontmatter::Frontmatter;
use crate::fs::FilenameSlug;
use crate::note::{NoteId, NoteMeta};
use crate::text::{is_blank, str_is_blank};

verus! {

// =============================================================================================
// Note state
// =============================================================================================

/// Where a note lives: in the vault root, or in `.jot/.trash/`. The directory is the state.
#[derive(Debug, Clone, Copy, PartialEq, Eq, Structural, Hash)]
pub enum State {
    /// In the vault root.
    Active,
    /// In `.jot/.trash/`.
    Trashed,
}

/// The word a state prints as, which is also what the index stores.
pub open spec fn state_text(s: State) -> Seq<char> {
    match s {
        State::Active => "active"@,
        State::Trashed => "trashed"@,
    }
}

impl State {
    /// The word this state prints as.
    pub fn as_str(self) -> (s: &'static str)
        ensures
            s@ == state_text(self),
    {
        match self {
            State::Active => "active",
            State::Trashed => "trashed",
        }
    }

    /// The word this state prints as, owned.
    pub fn to_string(&self) -> (s: String)
        ensures
            s@ == state_text(*self),
    {
        self.as_str().to_owned()
    }
}

/// The state the index stores as `text`: anything but `trashed` reads as active, which keeps a
/// note visible rather than hiding it in the trash.
pub fn parse_state(text: &str) -> (s: State)
    ensures
        s == if text@ == "trashed"@ {
            State::Trashed
        } else {
            State::Active
        },
{
    if crate::text::str_eq(text, "trashed") {
        State::Trashed
    } else {
        State::Active
    }
}

// =============================================================================================
// Reference resolution
// =============================================================================================

/// What a reference to a note resolves to: three states and no fourth. A reference to a note the
/// vault does not hold is `Deleted`, a designed state rather than corruption.
#[derive(Debug, Clone, PartialEq, Eq)]
pub enum Ref {
    /// An active note.
    Present(NoteMeta),
    /// A note in the trash. Still a real note.
    Trashed(NoteMeta),
    /// No note with this id is in the vault.
    Deleted(NoteId),
}

/// The id a reference names, whichever state it is in.
pub open spec fn ref_id(r: Ref) -> NoteId {
    match r {
        Ref::Present(m) => m.id,
        Ref::Trashed(m) => m.id,
        Ref::Deleted(id) => id,
    }
}

impl Ref {
    /// The id this reference names, whichever state it is in.
    pub fn id(&self) -> (id: NoteId)
        ensures
            id == ref_id(*self),
    {
        match self {
            Ref::Present(meta) => meta.id,
            Ref::Trashed(meta) => meta.id,
            Ref::Deleted(id) => *id,
        }
    }

    /// The note behind the reference, if the vault holds one.
    pub fn meta(&self) -> (m: Option<&NoteMeta>)
        ensures
            m is None <==> *self is Deleted,
            *self matches Ref::Present(x) ==> m == Some(&x),
            *self matches Ref::Trashed(x) ==> m == Some(&x),
    {
        match self {
            Ref::Present(meta) => Some(meta),
            Ref::Trashed(meta) => Some(meta),
            Ref::Deleted(_) => None,
        }
    }

    /// Whether the vault holds a file for this reference, in either state.
    pub fn exists_in_vault(&self) -> (b: bool)
        ensures
            b == !(*self is Deleted),
    {
        self.meta().is_some()
    }
}

/// The result of resolving a git-style id prefix.
#[derive(Debug, Clone, PartialEq, Eq)]
pub enum Resolution {
    /// Exactly one note matched.
    Unique(Box<NoteMeta>),
    /// More than one matched, in id order.
    Ambiguous(Vec<NoteMeta>),
    /// Nothing matched.
    NoMatch,
}

impl Resolution {
    /// The single match, or `None` for both other outcomes.
    pub fn unique(&self) -> (m: Option<&NoteMeta>)
        ensures
            m is Some <==> *self is Unique,
            *self matches Resolution::Unique(x) ==> m == Some(&*x),
    {
        match self {
            Resolution::Unique(meta) => Some(meta),
            _ => None,
        }
    }
}

// =============================================================================================
// Creating and editing
// =============================================================================================

/// A note that does not exist yet. The id is not here: creating mints it, so that its timestamp
/// is the note's real creation time.
#[derive(Debug, Clone, PartialEq, Eq)]
pub struct Draft {
    /// The body, exactly as it will be written after the closing fence.
    pub body: String,
    /// Display title. `None` is untitled.
    pub title: Option<String>,
    /// The note this one replies to.
    pub reply_to: Option<NoteId>,
    /// A cross-tree quote.
    pub quote: Option<NoteId>,
    /// Whether the filename gets a slug derived from the title.
    pub slug: FilenameSlug,
    /// Frontmatter to start from, carrying keys jot does not interpret.
    pub extra: Option<Frontmatter>,
}

impl Draft {
    /// A draft carrying only a body.
    pub fn new(body: &str) -> (d: Draft)
        ensures
            d.body@ == body@,
            d.title is None,
            d.reply_to is None,
            d.quote is None,
            d.slug == FilenameSlug::Bare,
            d.extra is None,
    {
        Draft {
            body: body.to_owned(),
            title: None,
            reply_to: None,
            quote: None,
            slug: FilenameSlug::Bare,
            extra: None,
        }
    }

    /// Set the title.
    pub fn title(self, title: &str) -> (d: Draft)
        ensures
            d == (Draft { title: d.title, ..self }),
            d.title matches Some(t) && t@ == title@,
    {
        Draft { title: Some(title.to_owned()), ..self }
    }

    /// Make this a reply to `parent`.
    pub fn reply_to(self, parent: NoteId) -> (d: Draft)
        ensures
            d == (Draft { reply_to: Some(parent), ..self }),
    {
        Draft { reply_to: Some(parent), ..self }
    }

    /// Quote `quoted`.
    pub fn quote(self, quoted: NoteId) -> (d: Draft)
        ensures
            d == (Draft { quote: Some(quoted), ..self }),
    {
        Draft { quote: Some(quoted), ..self }
    }

    /// Derive the filename's slug from the title.
    pub fn slugged(self) -> (d: Draft)
        ensures
            d == (Draft { slug: FilenameSlug::FromTitle, ..self }),
    {
        Draft { slug: FilenameSlug::FromTitle, ..self }
    }

    /// Start from this frontmatter, keeping any keys jot does not interpret.
    pub fn extra(self, frontmatter: Frontmatter) -> (d: Draft)
        ensures
            d == (Draft { extra: Some(frontmatter), ..self }),
    {
        Draft { extra: Some(frontmatter), ..self }
    }

    /// Whether the draft would produce a note with nothing in it: a body and a title that are
    /// both empty or white space. A title alone is a note worth keeping.
    pub fn is_empty(&self) -> (b: bool)
        ensures
            b == (is_blank(self.body@) && match self.title {
                Some(t) => is_blank(t@),
                None => true,
            }),
    {
        str_is_blank(self.body.as_str()) && match &self.title {
            Some(t) => str_is_blank(t.as_str()),
            None => true,
        }
    }
}

/// What to do with one optional field in an [`Edit`]: leaving a value alone and removing it are
/// different intentions.
#[derive(Debug, Clone, PartialEq, Eq)]
pub enum Field<T> {
    /// Leave whatever the file already says.
    Unchanged,
    /// Remove the key. The note keeps everything else.
    Cleared,
    /// Replace the value.
    SetTo(T),
}

impl<T> Field<T> {
    /// Leave the field alone.
    pub fn default() -> (f: Field<T>)
        ensures
            f is Unchanged,
    {
        Field::Unchanged
    }

    /// Apply this change to a field's current value.
    pub fn apply(self, current: &mut Option<T>)
        ensures
            self is Unchanged ==> *final(current) == *old(current),
            self is Cleared ==> *final(current) == None::<T>,
            self matches Field::SetTo(v) ==> *final(current) == Some(v),
    {
        match self {
            Field::Unchanged => {},
            Field::Cleared => {
                *current = None;
            },
            Field::SetTo(value) => {
                *current = Some(value);
            },
        }
    }

    /// Whether this change would leave the field alone.
    pub fn is_unchanged(&self) -> (b: bool)
        ensures
            b == (*self is Unchanged),
    {
        match self {
            Field::Unchanged => true,
            _ => false,
        }
    }
}

/// A change to an existing note. `reply_to` is not editable: re-parenting is not a side effect
/// of an edit.
#[derive(Debug, Clone, PartialEq, Eq)]
pub struct Edit {
    /// The new body, or `None` to leave it.
    pub body: Option<String>,
    /// What to do with the title.
    pub title: Field<String>,
    /// What to do with the quote.
    pub quote: Field<NoteId>,
}

impl Edit {
    /// An edit that changes nothing.
    pub fn new() -> (e: Edit)
        ensures
            e.body is None,
            e.title is Unchanged,
            e.quote is Unchanged,
    {
        Edit { body: None, title: Field::Unchanged, quote: Field::Unchanged }
    }

    /// Replace the body.
    pub fn body(self, body: &str) -> (e: Edit)
        ensures
            e == (Edit { body: e.body, ..self }),
            e.body matches Some(b) && b@ == body@,
    {
        Edit { body: Some(body.to_owned()), ..self }
    }

    /// Set the title.
    pub fn title(self, title: &str) -> (e: Edit)
        ensures
            e == (Edit { title: e.title, ..self }),
            e.title matches Field::SetTo(t) && t@ == title@,
    {
        Edit { title: Field::SetTo(title.to_owned()), ..self }
    }

    /// Remove the title.
    pub fn clear_title(self) -> (e: Edit)
        ensures
            e == (Edit { title: Field::Cleared, ..self }),
    {
        Edit { title: Field::Cleared, ..self }
    }

    /// Set the quote.
    pub fn quote(self, quoted: NoteId) -> (e: Edit)
        ensures
            e == (Edit { quote: Field::SetTo(quoted), ..self }),
    {
        Edit { quote: Field::SetTo(quoted), ..self }
    }

    /// Remove the quote.
    pub fn clear_quote(self) -> (e: Edit)
        ensures
            e == (Edit { quote: Field::Cleared, ..self }),
    {
        Edit { quote: Field::Cleared, ..self }
    }

    /// Whether applying this edit could change anything at all. A no-op edit must not write:
    /// identical bytes still move the file's mtime.
    pub fn is_empty(&self) -> (b: bool)
        ensures
            b == (self.body is None && self.title is Unchanged && self.quote is Unchanged),
    {
        self.body.is_none() && self.title.is_unchanged() && self.quote.is_unchanged()
    }
}

// =============================================================================================
// Reading
// =============================================================================================

/// How a file listing orders its results.
#[derive(Debug, Clone, Copy, PartialEq, Eq, Structural)]
pub enum FileSort {
    /// Newest first, by the id's timestamp.
    Created,
    /// Oldest first, by the id's timestamp.
    CreatedAsc,
    /// Most recently written first, by filesystem mtime.
    Edited,
    /// Alphabetical by title; untitled notes sort last.
    Title,
}

impl FileSort {
    /// Newest first.
    pub fn default() -> (s: FileSort)
        ensures
            s == FileSort::Created,
    {
        FileSort::Created
    }
}

/// One row of a timeline or listing, with the counts and the resolved parent a list view needs.
#[derive(Debug, Clone, PartialEq, Eq)]
pub struct Row {
    /// The note.
    pub note: NoteMeta,
    /// Active or trashed.
    pub state: State,
    /// The parent, already resolved.
    pub parent: Option<Ref>,
    /// Direct replies, in either state.
    pub replies: usize,
    /// Everything beneath this note, at any depth.
    pub descendants: usize,
    /// Filesystem mtime in nanoseconds since the Unix epoch: what `edited_at` means.
    pub edited_at: Option<i128>,
}

impl Row {
    /// Whether this note has no parent the vault can show: a thread root, or an orphan whose
    /// parent was purged. Both read as roots, so an orphan never becomes invisible.
    pub fn is_root(&self) -> (b: bool)
        ensures
            b == !(self.parent matches Some(p) && !(p is Deleted)),
    {
        match &self.parent {
            Some(p) => !p.exists_in_vault(),
            None => true,
        }
    }
}

/// A page of results plus the cursor that continues it.
#[derive(Debug, Clone, PartialEq, Eq)]
pub struct Page<T> {
    /// The rows.
    pub items: Vec<T>,
    /// The cursor for the next page; `None` at the end.
    pub next: Option<NoteId>,
}

impl<T> Page<T> {
    /// How many rows this page holds.
    pub fn len(&self) -> (n: usize)
        ensures
            n == self.items@.len(),
    {
        self.items.len()
    }

    /// Whether the page is empty.
    pub fn is_empty(&self) -> (b: bool)
        ensures
            b == (self.items@.len() == 0),
    {
        self.items.len() == 0
    }
}

/// Which notes a timeline shows, and how many.
#[derive(Debug, Clone, PartialEq, Eq)]
pub struct TimelineQuery {
    /// Show every note rather than only thread roots.
    pub flat: bool,
    /// Only notes created at or after this instant.
    pub since: Option<i128>,
    /// Only notes created strictly before this instant.
    pub until: Option<i128>,
    /// Page size. `None` means everything that matches.
    pub limit: Option<usize>,
    /// Keyset cursor: only notes whose id sorts strictly before this one.
    pub before: Option<NoteId>,
}

impl TimelineQuery {
    /// Roots only, unbounded.
    pub fn new() -> (q: TimelineQuery)
        ensures
            q == (TimelineQuery { flat: false, since: None, until: None, limit: None, before: None }),
    {
        TimelineQuery { flat: false, since: None, until: None, limit: None, before: None }
    }

    /// Include replies, not only roots.
    pub fn flat(self) -> (q: TimelineQuery)
        ensures
            q == (TimelineQuery { flat: true, ..self }),
    {
        TimelineQuery { flat: true, ..self }
    }

    /// Cap the page size.
    pub fn limit(self, limit: usize) -> (q: TimelineQuery)
        ensures
            q == (TimelineQuery { limit: Some(limit), ..self }),
    {
        TimelineQuery { limit: Some(limit), ..self }
    }

    /// Only notes created at or after `when`.
    pub fn since(self, when: i128) -> (q: TimelineQuery)
        ensures
            q == (TimelineQuery { since: Some(when), ..self }),
    {
        TimelineQuery { since: Some(when), ..self }
    }

    /// Only notes created strictly before `when`.
    pub fn until(self, when: i128) -> (q: TimelineQuery)
        ensures
            q == (TimelineQuery { until: Some(when), ..self }),
    {
        TimelineQuery { until: Some(when), ..self }
    }

    /// Continue from a previous page's cursor.
    pub fn before(self, cursor: NoteId) -> (q: TimelineQuery)
        ensures
            q == (TimelineQuery { before: Some(cursor), ..self }),
    {
        TimelineQuery { before: Some(cursor), ..self }
    }
}

/// A title-and-metadata search. Titles only.
#[derive(Debug, Clone, PartialEq, Eq)]
pub struct SearchQuery {
    /// Case-insensitive substring of the title. Empty matches every note.
    pub text: String,
    /// Only notes created at or after this instant.
    pub since: Option<i128>,
    /// Only notes created strictly before this instant.
    pub until: Option<i128>,
    /// Search the trash as well as the vault.
    pub include_trashed: bool,
}

impl SearchQuery {
    /// Search active notes for a title substring.
    pub fn new(text: &str) -> (q: SearchQuery)
        ensures
            q.text@ == text@,
            q.since is None,
            q.until is None,
            !q.include_trashed,
    {
        SearchQuery { text: text.to_owned(), since: None, until: None, include_trashed: false }
    }

    /// Include trashed notes in the results.
    pub fn include_trashed(self) -> (q: SearchQuery)
        ensures
            q == (SearchQuery { include_trashed: true, ..self }),
    {
        SearchQuery { include_trashed: true, ..self }
    }

    /// Only notes created at or after `when`.
    pub fn since(self, when: i128) -> (q: SearchQuery)
        ensures
            q == (SearchQuery { since: Some(when), ..self }),
    {
        SearchQuery { since: Some(when), ..self }
    }

    /// Only notes created strictly before `when`.
    pub fn until(self, when: i128) -> (q: SearchQuery)
        ensures
            q == (SearchQuery { until: Some(when), ..self }),
    {
        SearchQuery { until: Some(when), ..self }
    }
}

} // verus!
