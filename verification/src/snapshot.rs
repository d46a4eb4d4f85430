//! The vault, read into memory: every query the index answers, answered over the records a scan
//! produced.
//!
//! Records are held in id order, which for UUIDv7 ids is creation order, so sibling ordering,
//! timeline ordering and prefix resolution need no explicit sort.
//!
//! The rules this module keeps:
//!
//! * **Nothing here is a write source.** A [`Record`] is a query result; a write path uses its
//!   `path` to reload the file, so that keys jot does not interpret survive the write.
//! * **State is location.** A note in the vault root is active; one in `.jot/.trash/` is
//!   trashed.
//! * **`created_at` is never parsed.** It is decoded from the id's UUIDv7 timestamp.
//! * **Dangling is designed for.** A `reply_to` naming a note with no file is a normal state.
//! * **The root is derived.** Every record's `root` is computed from the `reply_to` chains of the
//!   whole record set (see [`crate::roots`]) and recomputed whenever the set changes, together
//!   with the problem list, so a fixed cycle stops being reported.

use vstd::prelude::*;
use vstd::string::StringExecFns;

use crate::error::{concat_all, join};
use crate::frontmatter::{id_value, opt_text};
use crate::note::{NoteId, NoteMeta};
use crate::query::State;
use crate::roots::{
    cycle_heads, derive_roots, derived_root, increasing, lemma_cycle_heads_positions, lemma_distinct_below_pub, nth,
    lemma_reply_shares_root, lemma_root_of_dangling, lemma_root_of_parentless, lemma_slot, parent,
};
use crate::text::{
    ascii_lowercase, contains_text, decimal_string, is_prefix, is_white_space, lead_ws,
    lemma_text_lt_asymmetric, lemma_text_lt_irreflexive, lemma_text_lt_total,
    lemma_text_lt_transitive, lowercase_text, text_contains, text_less, text_lt, to_ascii_lowercase,
    to_lowercase, trail_ws, trim, trimmed,
};
use crate::note::{
    hyphenated_bytes, hyphenated_text, is_hex_char, is_hyphen_pos, is_hyphenated_form,
    lemma_hyphenated_ascii_pub, lemma_hyphenated_is_canonical, lemma_parse_canonical,
    uuid_text_value,
};
use crate::error::Error;
use crate::frontmatter::{EntryView, Frontmatter, FrontmatterSchema, FrontmatterView, first_with_key, unknown_pairs};
use crate::fs::path_note_id;
use crate::link::{body_links, distinct_targets, first_appearances, link_targets};
use crate::note::{Note, parsed_as, v7_created_at};
use crate::query::{FileSort, Page, Ref, Resolution, Row, SearchQuery, TimelineQuery};
use crate::thread::{
    Thread, TreeNode, beneath, derefs, lemma_assembled_size, preorder, reaches, reply_lists, tree_ids,
};
use crate::shortid::{
    abbreviate, abbreviation, id_bytes, lemma_abbreviation_is_prefix, lemma_distinct_ids_differ,
    separates_at, shared, width_for,
};
use std::collections::BTreeMap;
use vstd::utf8::{encode_utf8, is_ascii_chars, is_ascii_chars_encode_utf8};

verus! {

broadcast use {vstd::laws_cmp::group_laws_cmp, vstd::std_specs::btree::group_btree_axioms};

// =============================================================================================
// Records and problems
// =============================================================================================

/// One note as the scan found it: the metadata row, plus the path and the link edges.
#[derive(Debug)]
pub struct Record {
    /// The note's metadata. Identity from the filename, `created_at` decoded from it, `root`
    /// derived from the vault.
    pub meta: NoteMeta,
    /// Where the file is. The only field a write path may use: a write always reloads the file.
    pub path: String,
    /// Active or trashed, decided by which directory `path` is in.
    pub state: State,
    /// Filesystem mtime in nanoseconds since the Unix epoch; `None` when the platform will not
    /// report one.
    pub edited_at: Option<i128>,
    /// Distinct `[[uuid]]` targets in the body, in first-appearance order.
    pub links: Vec<NoteId>,
    /// Frontmatter keys this note carries that the schema does not declare, in file order.
    pub undeclared: Vec<String>,
}

/// What a record says, as plain values.
pub struct RecordView {
    pub id: u128,
    pub created_at: Option<i128>,
    pub title: Option<Seq<char>>,
    pub root: Option<u128>,
    pub reply_to: Option<u128>,
    pub quote: Option<u128>,
    pub path: Seq<char>,
    pub state: State,
    pub edited_at: Option<i128>,
    pub links: Seq<u128>,
    pub undeclared: Seq<Seq<char>>,
}

/// The values of a list of ids.
pub open spec fn id_values(ids: Seq<NoteId>) -> Seq<u128> {
    ids.map_values(|i: NoteId| i.spec_value())
}

/// The texts of a list of strings.
pub open spec fn texts(ss: Seq<String>) -> Seq<Seq<char>> {
    ss.map_values(|s: String| s@)
}

impl View for Record {
    type V = RecordView;

    open spec fn view(&self) -> RecordView {
        RecordView {
            id: self.meta.id.spec_value(),
            created_at: self.meta.created_at,
            title: opt_text(self.meta.title),
            root: id_value(self.meta.root),
            reply_to: id_value(self.meta.reply_to),
            quote: id_value(self.meta.quote),
            path: self.path@,
            state: self.state,
            edited_at: self.edited_at,
            links: id_values(self.links@),
            undeclared: texts(self.undeclared@),
        }
    }
}

/// A copy of a list of ids.
fn copy_ids(v: &Vec<NoteId>) -> (c: Vec<NoteId>)
    ensures
        c@ == v@,
{
    let mut c: Vec<NoteId> = Vec::new();
    let mut i: usize = 0;
    while i < v.len()
        invariant
            i <= v.len(),
            c@ == v@.take(i as int),
        decreases v.len() - i,
    {
        c.push(v[i]);
        assert(c@ =~= v@.take(i as int + 1));
        i = i + 1;
    }
    assert(c@ =~= v@);
    c
}

/// A copy of a list of strings.
fn copy_texts(v: &Vec<String>) -> (c: Vec<String>)
    ensures
        texts(c@) == texts(v@),
{
    let mut c: Vec<String> = Vec::new();
    let mut i: usize = 0;
    while i < v.len()
        invariant
            i <= v.len(),
            c.len() == i,
            forall|q: int| 0 <= q < i ==> c@[q]@ == v@[q]@,
        decreases v.len() - i,
    {
        c.push(v[i].clone());
        i = i + 1;
    }
    assert(texts(c@) =~= texts(v@));
    c
}

/// Whether two lists of ids are equal.
fn same_ids(a: &Vec<NoteId>, b: &Vec<NoteId>) -> (r: bool)
    ensures
        r == (id_values(a@) == id_values(b@)),
{
    if a.len() != b.len() {
        assert(id_values(a@).len() != id_values(b@).len());
        return false;
    }
    let mut i: usize = 0;
    while i < a.len()
        invariant
            i <= a.len() == b.len(),
            forall|q: int| 0 <= q < i ==> a@[q].spec_value() == b@[q].spec_value(),
        decreases a.len() - i,
    {
        if a[i].as_u128() != b[i].as_u128() {
            assert(id_values(a@)[i as int] != id_values(b@)[i as int]);
            return false;
        }
        i = i + 1;
    }
    assert(id_values(a@) =~= id_values(b@));
    true
}

/// Whether two lists of strings are equal.
fn same_texts(a: &Vec<String>, b: &Vec<String>) -> (r: bool)
    ensures
        r == (texts(a@) == texts(b@)),
{
    if a.len() != b.len() {
        assert(texts(a@).len() != texts(b@).len());
        return false;
    }
    let mut i: usize = 0;
    while i < a.len()
        invariant
            i <= a.len() == b.len(),
            forall|q: int| 0 <= q < i ==> a@[q]@ == b@[q]@,
        decreases a.len() - i,
    {
        if !crate::text::str_eq(a[i].as_str(), b[i].as_str()) {
            assert(texts(a@)[i as int] != texts(b@)[i as int]);
            return false;
        }
        i = i + 1;
    }
    assert(texts(a@) =~= texts(b@));
    true
}

/// Whether two optional strings are equal.
fn same_opt_text(a: &Option<String>, b: &Option<String>) -> (r: bool)
    ensures
        r == (opt_text(*a) == opt_text(*b)),
{
    match (a, b) {
        (Some(x), Some(y)) => crate::text::str_eq(x.as_str(), y.as_str()),
        (None, None) => true,
        _ => false,
    }
}

/// Whether two optional ids are equal.
fn same_opt_id(a: Option<NoteId>, b: Option<NoteId>) -> (r: bool)
    ensures
        r == (id_value(a) == id_value(b)),
{
    match (a, b) {
        (Some(x), Some(y)) => x.as_u128() == y.as_u128(),
        (None, None) => true,
        _ => false,
    }
}

/// Whether two optional instants are equal.
fn same_instant(a: Option<i128>, b: Option<i128>) -> (r: bool)
    ensures
        r == (a == b),
{
    match (a, b) {
        (Some(x), Some(y)) => x == y,
        (None, None) => true,
        _ => false,
    }
}

impl Record {
    /// A copy of this record.
    pub fn copy(&self) -> (r: Record)
        ensures
            r@ == self@,
            r.meta == self.meta,
    {
        Record {
            meta: self.meta.copy(),
            path: self.path.clone(),
            state: self.state,
            edited_at: self.edited_at,
            links: copy_ids(&self.links),
            undeclared: copy_texts(&self.undeclared),
        }
    }

    /// Whether two records say the same thing.
    pub fn same_as(&self, other: &Record) -> (r: bool)
        ensures
            r == (self@ == other@),
    {
        let r = self.meta.id.as_u128() == other.meta.id.as_u128() && same_instant(
            self.meta.created_at,
            other.meta.created_at,
        ) && same_opt_text(&self.meta.title, &other.meta.title) && same_opt_id(
            self.meta.root,
            other.meta.root,
        ) && same_opt_id(self.meta.reply_to, other.meta.reply_to) && same_opt_id(
            self.meta.quote,
            other.meta.quote,
        ) && crate::text::str_eq(self.path.as_str(), other.path.as_str())
            && self.state == other.state && same_instant(self.edited_at, other.edited_at)
            && same_ids(&self.links, &other.links) && same_texts(
            &self.undeclared,
            &other.undeclared,
        );
        r
    }
}

/// Something the scan found that a person may want to know about. A problem never blocks a
/// command: one unparseable file must not make the rest of the vault unreadable.
#[derive(Debug)]
pub enum Problem {
    /// A file in the vault could not be read as a note.
    Unreadable { path: String, message: String },
    /// Two files carry the same UUID. The first in scan order is kept, the other reported.
    DuplicateId { id: NoteId, kept: String, ignored: String },
    /// Walking `reply_to` upward from the note at `path` came back to note `id`. The note the
    /// cycle is reported under becomes its own root, so it stays visible.
    ReplyCycle { path: String, id: NoteId },
    /// Notes carry a frontmatter key no schema entry declares: preserved, never interpreted.
    /// Aggregated per key across the vault, with one carrying note as an example.
    UndeclaredKey { key: String, example: String, notes: usize },
}

/// What a problem says, as plain values.
pub enum ProblemView {
    Unreadable { path: Seq<char>, message: Seq<char> },
    DuplicateId { id: u128, kept: Seq<char>, ignored: Seq<char> },
    ReplyCycle { path: Seq<char>, id: u128 },
    UndeclaredKey { key: Seq<char>, example: Seq<char>, notes: nat },
}

impl View for Problem {
    type V = ProblemView;

    open spec fn view(&self) -> ProblemView {
        match self {
            Problem::Unreadable { path, message } => ProblemView::Unreadable {
                path: path@,
                message: message@,
            },
            Problem::DuplicateId { id, kept, ignored } => ProblemView::DuplicateId {
                id: id.spec_value(),
                kept: kept@,
                ignored: ignored@,
            },
            Problem::ReplyCycle { path, id } => ProblemView::ReplyCycle {
                path: path@,
                id: id.spec_value(),
            },
            Problem::UndeclaredKey { key, example, notes } => ProblemView::UndeclaredKey {
                key: key@,
                example: example@,
                notes: *notes as nat,
            },
        }
    }
}

/// The views of a list of problems.
pub open spec fn problem_views(ps: Seq<Problem>) -> Seq<ProblemView> {
    ps.map_values(|p: Problem| p@)
}

/// The message a problem prints.
pub open spec fn problem_message(p: ProblemView) -> Seq<char> {
    match p {
        ProblemView::Unreadable { path, message } => "skipped `"@ + path + "`: "@ + message,
        ProblemView::DuplicateId { id, kept, ignored } => "two files claim note `"@
            + crate::note::hyphenated_text(id) + "`: using `"@ + kept + "`, ignoring `"@ + ignored
            + "`"@,
        ProblemView::ReplyCycle { path, id } => "`"@ + path
            + "`: `relation:reply_to` loops back to note `"@ + crate::note::hyphenated_text(id)
            + "`; treating it as its own root"@,
        ProblemView::UndeclaredKey { key, example, notes } => "`"@ + key + "` is carried by "@
            + crate::text::decimal_text(notes) + (if notes == 1 {
            " note"@
        } else {
            " notes"@
        }) + UNDECLARED_TAIL@ + example + "`"@,
    }
}

/// What follows the count in an undeclared-key message, up to the example path.
pub const UNDECLARED_TAIL: &'static str =
    " but declared by no `[[schema.frontmatter]]` entry, so it is preserved and never interpreted \u{2014} e.g. `";

impl Problem {
    /// The message this problem prints.
    pub fn to_string(&self) -> (m: String)
        ensures
            m@ == problem_message(self@),
    {
        let m = match self {
            Problem::Unreadable { path, message } => join(
                &["skipped `", path.as_str(), "`: ", message.as_str()],
            ),
            Problem::DuplicateId { id, kept, ignored } => {
                let shown = id.to_string();
                join(
                    &[
                        "two files claim note `",
                        shown.as_str(),
                        "`: using `",
                        kept.as_str(),
                        "`, ignoring `",
                        ignored.as_str(),
                        "`",
                    ],
                )
            },
            Problem::ReplyCycle { path, id } => {
                let shown = id.to_string();
                join(
                    &[
                        "`",
                        path.as_str(),
                        "`: `relation:reply_to` loops back to note `",
                        shown.as_str(),
                        "`; treating it as its own root",
                    ],
                )
            },
            Problem::UndeclaredKey { key, example, notes } => {
                let count = decimal_string(*notes as u64);
                let noun = if *notes == 1 {
                    " note"
                } else {
                    " notes"
                };
                join(
                    &[
                        "`",
                        key.as_str(),
                        "` is carried by ",
                        count.as_str(),
                        noun,
                        UNDECLARED_TAIL,
                        example.as_str(),
                        "`",
                    ],
                )
            },
        };
        proof {
            reveal_with_fuel(concat_all, 9);
        }
        m
    }

    /// A copy of this problem.
    pub fn copy(&self) -> (p: Problem)
        ensures
            p@ == self@,
    {
        match self {
            Problem::Unreadable { path, message } => Problem::Unreadable {
                path: path.clone(),
                message: message.clone(),
            },
            Problem::DuplicateId { id, kept, ignored } => Problem::DuplicateId {
                id: *id,
                kept: kept.clone(),
                ignored: ignored.clone(),
            },
            Problem::ReplyCycle { path, id } => Problem::ReplyCycle {
                path: path.clone(),
                id: *id,
            },
            Problem::UndeclaredKey { key, example, notes } => Problem::UndeclaredKey {
                key: key.clone(),
                example: example.clone(),
                notes: *notes,
            },
        }
    }
}

// =============================================================================================
// Undeclared keys, tallied across the vault
// =============================================================================================

/// Every `(key, path)` occurrence of an undeclared key in the records, in record order and file
/// order within a record.
pub open spec fn occurrences(recs: Seq<Record>) -> Seq<(Seq<char>, Seq<char>)>
    decreases recs.len(),
{
    if recs.len() == 0 {
        Seq::empty()
    } else {
        occurrences(recs.drop_last()) + texts(recs.last().undeclared@).map_values(
            |k: Seq<char>| (k, recs.last().path@),
        )
    }
}

/// How many occurrences name `k`.
pub open spec fn count_key(os: Seq<(Seq<char>, Seq<char>)>, k: Seq<char>) -> nat
    decreases os.len(),
{
    if os.len() == 0 {
        0
    } else {
        count_key(os.drop_last(), k) + if os.last().0 == k {
            1nat
        } else {
            0nat
        }
    }
}

/// `n`, or `usize::MAX` when it does not fit.
pub open spec fn saturated(n: nat) -> nat {
    if n <= usize::MAX {
        n
    } else {
        usize::MAX as nat
    }
}

/// The tally's keys are in strictly increasing key order.
#[verifier::opaque]
pub open spec fn keys_sorted(es: Seq<(Seq<char>, Seq<char>, nat)>) -> bool {
    forall|i: int, j: int| 0 <= i < j < es.len() ==> text_lt(#[trigger] es[i].0, #[trigger] es[j].0, false)
}

/// Every occurring key is tallied.
#[verifier::opaque]
pub open spec fn keys_covered(os: Seq<(Seq<char>, Seq<char>)>, es: Seq<(Seq<char>, Seq<char>, nat)>) -> bool {
    forall|j: int|
        #![trigger os[j]]
        0 <= j < os.len() ==> exists|i: int| #![trigger es[i]] 0 <= i < es.len() && es[i].0 == os[j].0
}

/// Every tallied key carries its number of occurrences, saturating at `usize::MAX`.
#[verifier::opaque]
pub open spec fn keys_counted(os: Seq<(Seq<char>, Seq<char>)>, es: Seq<(Seq<char>, Seq<char>, nat)>) -> bool {
    forall|i: int| 0 <= i < es.len() ==> #[trigger] es[i].2 == saturated(count_key(os, es[i].0))
}

/// Every tallied key's example is the path of one of its occurrences.
#[verifier::opaque]
pub open spec fn examples_occur(os: Seq<(Seq<char>, Seq<char>)>, es: Seq<(Seq<char>, Seq<char>, nat)>) -> bool {
    forall|i: int|
        #![trigger es[i]]
        0 <= i < es.len() ==> exists|j: int|
            #![trigger os[j]]
            0 <= j < os.len() && os[j].0 == es[i].0 && os[j].1 == es[i].1
}

/// No occurrence of a tallied key has a path before its example.
#[verifier::opaque]
pub open spec fn examples_least(os: Seq<(Seq<char>, Seq<char>)>, es: Seq<(Seq<char>, Seq<char>, nat)>) -> bool {
    forall|i: int, j: int|
        0 <= i < es.len() && 0 <= j < os.len() && #[trigger] os[j].0 == #[trigger] es[i].0
            ==> !text_lt(os[j].1, es[i].1, true)
}

/// Whether `es` tallies `os`: one `(key, example, notes)` per distinct key, in key order, with
/// the number of occurrences (saturating at `usize::MAX`) and the least path among them in path
/// order.
pub open spec fn tallies(os: Seq<(Seq<char>, Seq<char>)>, es: Seq<(Seq<char>, Seq<char>, nat)>) -> bool {
    &&& keys_sorted(es)
    &&& keys_covered(os, es)
    &&& keys_counted(os, es)
    &&& examples_occur(os, es)
    &&& examples_least(os, es)
}

/// The problems an undeclared-key tally reports.
pub open spec fn tally_problems(es: Seq<(Seq<char>, Seq<char>, nat)>) -> Seq<ProblemView> {
    es.map_values(|e: (Seq<char>, Seq<char>, nat)| ProblemView::UndeclaredKey { key: e.0, example: e.1, notes: e.2 })
}

/// The view of a tally under construction.
spec fn tally_view(es: Seq<(String, String, usize)>) -> Seq<(Seq<char>, Seq<char>, nat)> {
    es.map_values(|e: (String, String, usize)| (e.0@, e.1@, e.2 as nat))
}

/// A key no occurrence names is counted zero times.
proof fn lemma_count_absent(os: Seq<(Seq<char>, Seq<char>)>, k: Seq<char>)
    requires
        forall|j: int| 0 <= j < os.len() ==> os[j].0 != k,
    ensures
        count_key(os, k) == 0,
    decreases os.len(),
{
    if os.len() > 0 {
        lemma_count_absent(os.drop_last(), k);
    }
}

/// Counting after one more occurrence.
proof fn lemma_count_push(os: Seq<(Seq<char>, Seq<char>)>, o: (Seq<char>, Seq<char>), k: Seq<char>)
    ensures
        count_key(os.push(o), k) == count_key(os, k) + if o.0 == k {
            1nat
        } else {
            0nat
        },
{
    assert(os.push(o).drop_last() =~= os);
}

/// Tallying one more occurrence of a key already tallied.
proof fn lemma_tally_update(
    os: Seq<(Seq<char>, Seq<char>)>,
    ev: Seq<(Seq<char>, Seq<char>, nat)>,
    j: int,
    o: (Seq<char>, Seq<char>),
    example: Seq<char>,
    notes: nat,
)
    requires
        tallies(os, ev),
        0 <= j < ev.len(),
        ev[j].0 == o.0,
        example == if text_lt(o.1, ev[j].1, true) {
            o.1
        } else {
            ev[j].1
        },
        notes == if ev[j].2 < usize::MAX {
            ev[j].2 + 1
        } else {
            ev[j].2
        },
    ensures
        tallies(os.push(o), ev.update(j, (o.0, example, notes))),
{
    let os2 = os.push(o);
    let ev2 = ev.update(j, (o.0, example, notes));
    assert(os2.drop_last() =~= os);
    assert forall|i: int| 0 <= i < ev.len() && i != j implies #[trigger] ev[i].0 != o.0 by {
        reveal(keys_sorted);
        lemma_text_lt_irreflexive(o.0, false);
        if i < j {
            assert(text_lt(ev[i].0, ev[j].0, false));
        } else {
            assert(text_lt(ev[j].0, ev[i].0, false));
        }
    }
    assert(keys_sorted(ev2)) by {
        reveal(keys_sorted);
    }
    assert(keys_covered(os2, ev2)) by {
        reveal(keys_covered);
        assert forall|j2: int| #![trigger os2[j2]] 0 <= j2 < os2.len() implies exists|i: int|
            #![trigger ev2[i]]
            0 <= i < ev2.len() && ev2[i].0 == os2[j2].0 by {
            if j2 < os.len() {
                assert(os2[j2] == os[j2]);
                let i = choose|i: int| #![trigger ev[i]] 0 <= i < ev.len() && ev[i].0 == os[j2].0;
                assert(ev2[i].0 == ev[i].0);
            } else {
                assert(ev2[j].0 == os2[j2].0);
            }
        }
    }
    assert(keys_counted(os2, ev2)) by {
        reveal(keys_counted);
        assert forall|i: int| 0 <= i < ev2.len() implies #[trigger] ev2[i].2 == saturated(
            count_key(os2, ev2[i].0),
        ) by {
            lemma_count_push(os, o, ev2[i].0);
            assert(ev[i].2 == saturated(count_key(os, ev[i].0)));
        }
    }
    assert(examples_occur(os2, ev2)) by {
        reveal(examples_occur);
        assert forall|i: int| #![trigger ev2[i]] 0 <= i < ev2.len() implies exists|j2: int|
            #![trigger os2[j2]]
            0 <= j2 < os2.len() && os2[j2].0 == ev2[i].0 && os2[j2].1 == ev2[i].1 by {
            if i == j && text_lt(o.1, ev[j].1, true) {
                assert(os2[os.len() as int] == o);
            } else {
                let j2 = choose|j2: int|
                    #![trigger os[j2]]
                    0 <= j2 < os.len() && os[j2].0 == ev[i].0 && os[j2].1 == ev[i].1;
                assert(os2[j2] == os[j2]);
            }
        }
    }
    assert(examples_least(os2, ev2)) by {
        reveal(examples_least);
        assert forall|i: int, j2: int|
            0 <= i < ev2.len() && 0 <= j2 < os2.len() && #[trigger] os2[j2].0 == #[trigger] ev2[i].0 implies !text_lt(
            os2[j2].1,
            ev2[i].1,
            true,
        ) by {
            if j2 < os.len() {
                assert(os2[j2] == os[j2]);
                if i == j && text_lt(o.1, ev[j].1, true) && text_lt(os2[j2].1, o.1, true) {
                    lemma_text_lt_transitive(os2[j2].1, o.1, ev[j].1, true);
                }
            } else {
                assert(os2[j2] == o);
                if i == j && text_lt(o.1, ev[j].1, true) {
                    lemma_text_lt_irreflexive(o.1, true);
                }
            }
        }
    }
}

/// Tallying the first occurrence of a key, in its place in key order.
proof fn lemma_tally_insert(
    os: Seq<(Seq<char>, Seq<char>)>,
    ev: Seq<(Seq<char>, Seq<char>, nat)>,
    j: int,
    o: (Seq<char>, Seq<char>),
)
    requires
        tallies(os, ev),
        0 <= j <= ev.len(),
        forall|i: int| 0 <= i < j ==> text_lt(#[trigger] ev[i].0, o.0, false),
        j < ev.len() ==> text_lt(o.0, ev[j].0, false),
    ensures
        tallies(os.push(o), ev.insert(j, (o.0, o.1, 1nat))),
{
    let os2 = os.push(o);
    let ev2 = ev.insert(j, (o.0, o.1, 1nat));
    assert(os2.drop_last() =~= os);
    assert forall|i: int| j <= i < ev.len() implies text_lt(o.0, #[trigger] ev[i].0, false) by {
        if i > j {
            reveal(keys_sorted);
            lemma_text_lt_transitive(o.0, ev[j].0, ev[i].0, false);
        }
    }
    assert forall|i: int| 0 <= i < ev.len() implies #[trigger] ev[i].0 != o.0 by {
        lemma_text_lt_irreflexive(o.0, false);
        if i > j {
            reveal(keys_sorted);
            lemma_text_lt_transitive(o.0, ev[j].0, ev[i].0, false);
        }
    }
    assert forall|j2: int| 0 <= j2 < os.len() implies #[trigger] os[j2].0 != o.0 by {
        reveal(keys_covered);
        let i = choose|i: int| #![trigger ev[i]] 0 <= i < ev.len() && ev[i].0 == os[j2].0;
    }
    lemma_count_absent(os, o.0);
    assert(keys_sorted(ev2)) by {
        reveal(keys_sorted);
        assert forall|a: int, b: int| 0 <= a < b < ev2.len() implies text_lt(
            #[trigger] ev2[a].0,
            #[trigger] ev2[b].0,
            false,
        ) by {
            if a < j && b == j {
            } else if a < j && b > j {
                assert(ev2[a] == ev[a] && ev2[b] == ev[b - 1]);
                lemma_text_lt_transitive(ev2[a].0, o.0, ev2[b].0, false);
            } else if a == j {
                assert(ev2[b] == ev[b - 1]);
            } else if a > j {
                assert(ev2[a] == ev[a - 1] && ev2[b] == ev[b - 1]);
            } else if a < j && b < j {
                assert(ev2[a] == ev[a] && ev2[b] == ev[b]);
            }
        }
    }
    assert(keys_covered(os2, ev2)) by {
        reveal(keys_covered);
        assert forall|j2: int| #![trigger os2[j2]] 0 <= j2 < os2.len() implies exists|i: int|
            #![trigger ev2[i]]
            0 <= i < ev2.len() && ev2[i].0 == os2[j2].0 by {
            if j2 < os.len() {
                assert(os2[j2] == os[j2]);
                let i = choose|i: int| #![trigger ev[i]] 0 <= i < ev.len() && ev[i].0 == os[j2].0;
                if i < j {
                    assert(ev2[i].0 == os2[j2].0);
                } else {
                    assert(ev2[i + 1].0 == os2[j2].0);
                }
            } else {
                assert(ev2[j].0 == os2[j2].0);
            }
        }
    }
    assert(keys_counted(os2, ev2)) by {
        reveal(keys_counted);
        assert forall|i: int| 0 <= i < ev2.len() implies #[trigger] ev2[i].2 == saturated(
            count_key(os2, ev2[i].0),
        ) by {
            lemma_count_push(os, o, ev2[i].0);
            if i != j {
                let i0 = if i < j {
                    i
                } else {
                    i - 1
                };
                assert(ev2[i] == ev[i0]);
            }
        }
    }
    assert(examples_occur(os2, ev2)) by {
        reveal(examples_occur);
        assert forall|i: int| #![trigger ev2[i]] 0 <= i < ev2.len() implies exists|j2: int|
            #![trigger os2[j2]]
            0 <= j2 < os2.len() && os2[j2].0 == ev2[i].0 && os2[j2].1 == ev2[i].1 by {
            if i == j {
                assert(os2[os.len() as int] == o);
            } else {
                let i0 = if i < j {
                    i
                } else {
                    i - 1
                };
                assert(ev2[i] == ev[i0]);
                let j2 = choose|j2: int|
                    #![trigger os[j2]]
                    0 <= j2 < os.len() && os[j2].0 == ev[i0].0 && os[j2].1 == ev[i0].1;
                assert(os2[j2] == os[j2]);
            }
        }
    }
    assert(examples_least(os2, ev2)) by {
        reveal(examples_least);
        assert forall|i: int, j2: int|
            0 <= i < ev2.len() && 0 <= j2 < os2.len() && #[trigger] os2[j2].0 == #[trigger] ev2[i].0 implies !text_lt(
            os2[j2].1,
            ev2[i].1,
            true,
        ) by {
            if i == j {
                if j2 == os.len() {
                    lemma_text_lt_irreflexive(o.1, true);
                } else {
                    assert(os2[j2] == os[j2]);
                }
            } else {
                let i0 = if i < j {
                    i
                } else {
                    i - 1
                };
                assert(ev2[i] == ev[i0]);
                if j2 < os.len() {
                    assert(os2[j2] == os[j2]);
                }
            }
        }
    }
}

/// Record one more occurrence of `key` in the note at `path`.
fn tally_one(
    es: &mut Vec<(String, String, usize)>,
    key: &String,
    path: &String,
    Ghost(os): Ghost<Seq<(Seq<char>, Seq<char>)>>,
)
    requires
        tallies(os, tally_view(old(es)@)),
    ensures
        tallies(os.push((key@, path@)), tally_view(final(es)@)),
{
    let ghost ev = tally_view(es@);
    let mut j: usize = 0;
    while j < es.len() && text_less(es[j].0.as_str(), key.as_str(), false)
        invariant
            j <= es.len(),
            ev == tally_view(es@),
            forall|i: int| 0 <= i < j ==> text_lt(#[trigger] ev[i].0, key@, false),
        decreases es.len() - j,
    {
        j = j + 1;
    }
    if j < es.len() && crate::text::str_eq(es[j].0.as_str(), key.as_str()) {
        let (k0, e0, n0) = es.remove(j);
        let example = if text_less(path.as_str(), e0.as_str(), true) {
            path.clone()
        } else {
            e0
        };
        let notes = if n0 < usize::MAX {
            n0 + 1
        } else {
            n0
        };
        proof {
            lemma_tally_update(os, ev, j as int, (key@, path@), example@, notes as nat);
        }
        es.insert(j, (k0, example, notes));
        assert(tally_view(es@) =~= ev.update(j as int, (key@, example@, notes as nat)));
    } else {
        proof {
            if j < es.len() {
                lemma_text_lt_total(ev[j as int].0, key@, false);
            }
            lemma_tally_insert(os, ev, j as int, (key@, path@));
        }
        es.insert(j, (key.clone(), path.clone(), 1));
        assert(tally_view(es@) =~= ev.insert(j as int, (key@, path@, 1nat)));
    }
}

/// Whether `ps` is the undeclared-key report of `recs`.
pub open spec fn reports_undeclared(recs: Seq<Record>, ps: Seq<ProblemView>) -> bool {
    exists|es: Seq<(Seq<char>, Seq<char>, nat)>| tallies(occurrences(recs), es) && ps == tally_problems(es)
}

/// The occurrences in the first `p` records and the first `q` keys of record `p`.
spec fn occurrences_upto(recs: Seq<Record>, p: int, q: int) -> Seq<(Seq<char>, Seq<char>)> {
    occurrences(recs.take(p)) + texts(recs[p].undeclared@).take(q).map_values(
        |k: Seq<char>| (k, recs[p].path@),
    )
}

/// One problem per key the records carry and the schema does not declare, in key order, each
/// with how many times it is carried and the least path that carries it.
fn report_undeclared(recs: &Vec<Record>) -> (ps: Vec<Problem>)
    ensures
        reports_undeclared(recs@, problem_views(ps@)),
{
    let mut es: Vec<(String, String, usize)> = Vec::new();
    proof {
        reveal(keys_sorted);
        reveal(keys_covered);
        reveal(keys_counted);
        reveal(examples_occur);
        reveal(examples_least);
        assert(recs@.take(0) =~= Seq::<Record>::empty());
        assert(tallies(occurrences(recs@.take(0)), tally_view(es@)));
    }
    let mut p: usize = 0;
    while p < recs.len()
        invariant
            p <= recs.len(),
            tallies(occurrences(recs@.take(p as int)), tally_view(es@)),
        decreases recs.len() - p,
    {
        let record = &recs[p];
        let mut q: usize = 0;
        proof {
            assert(occurrences_upto(recs@, p as int, 0) =~= occurrences(recs@.take(p as int)));
        }
        while q < record.undeclared.len()
            invariant
                p < recs.len(),
                *record == recs@[p as int],
                q <= record.undeclared.len(),
                tallies(occurrences_upto(recs@, p as int, q as int), tally_view(es@)),
            decreases record.undeclared.len() - q,
        {
            let ghost os = occurrences_upto(recs@, p as int, q as int);
            tally_one(&mut es, &record.undeclared[q], &record.path, Ghost(os));
            proof {
                assert(os.push((record.undeclared@[q as int]@, record.path@)) =~= occurrences_upto(
                    recs@,
                    p as int,
                    q as int + 1,
                ));
            }
            q = q + 1;
        }
        proof {
            let t = recs@.take(p as int + 1);
            assert(t.drop_last() =~= recs@.take(p as int));
            assert(texts(record.undeclared@).take(q as int) =~= texts(record.undeclared@));
            assert(occurrences_upto(recs@, p as int, q as int) =~= occurrences(t));
        }
        p = p + 1;
    }
    proof {
        assert(recs@.take(recs.len() as int) =~= recs@);
    }
    let mut ps: Vec<Problem> = Vec::new();
    let mut i: usize = 0;
    while i < es.len()
        invariant
            i <= es.len(),
            ps@.len() == i,
            forall|k: int| 0 <= k < i ==> (#[trigger] ps@[k])@ == tally_problems(tally_view(es@))[k],
        decreases es.len() - i,
    {
        ps.push(Problem::UndeclaredKey { key: es[i].0.clone(), example: es[i].1.clone(), notes: es[i].2 });
        i = i + 1;
    }
    assert(problem_views(ps@) =~= tally_problems(tally_view(es@)));
    ps
}

// =============================================================================================
// The snapshot
// =============================================================================================

/// The ids of the records, in order.
pub open spec fn record_ids(recs: Seq<Record>) -> Seq<u128> {
    recs.map_values(|r: Record| r.meta.id.spec_value())
}

/// The `reply_to` of each record, in order.
pub open spec fn record_parents(recs: Seq<Record>) -> Seq<Option<u128>> {
    recs.map_values(|r: Record| id_value(r.meta.reply_to))
}

/// The derived root of note `id` among `recs`.
pub open spec fn root_in(recs: Seq<Record>, id: u128) -> u128 {
    derived_root(record_ids(recs), record_parents(recs), id)
}

/// Whether the vault holds a note with this id.
pub open spec fn holds(recs: Seq<Record>, id: u128) -> bool {
    record_ids(recs).contains(id)
}

/// The record with this id, when the vault holds one.
pub open spec fn record_of(recs: Seq<Record>, id: u128) -> Record {
    recs[record_ids(recs).index_of(id)]
}

/// A record's view with its derived root left out.
pub open spec fn unrooted(v: RecordView) -> RecordView {
    RecordView { root: None, ..v }
}

/// What the vault holds, by id, roots left out: the part of a snapshot that reading files decides.
pub open spec fn content(recs: Seq<Record>) -> Map<u128, RecordView> {
    Map::new(|id: u128| holds(recs, id), |id: u128| unrooted(record_of(recs, id)@))
}

/// The cycle problems of `recs`: one per cycle, under the note it is reported under.
pub open spec fn cycle_problems(recs: Seq<Record>) -> Seq<ProblemView> {
    cycle_heads(record_ids(recs), record_parents(recs), recs.len() as int).map_values(
        |h: (usize, u128)| ProblemView::ReplyCycle { path: recs[h.0 as int].path@, id: h.1 },
    )
}

/// Whether `ps` is what a snapshot of `recs` reports: the problems raised while reading files,
/// then one per `reply_to` cycle, then the undeclared-key tally.
pub open spec fn raises(recs: Seq<Record>, file: Seq<ProblemView>, ps: Seq<ProblemView>) -> bool {
    let head = file + cycle_problems(recs);
    &&& head.len() <= ps.len()
    &&& ps.take(head.len() as int) == head
    &&& reports_undeclared(recs, ps.skip(head.len() as int))
}

/// Every note in a workspace, in id order, with every root derived and every problem raised.
pub struct Snapshot {
    records: Vec<Record>,
    file_problems: Vec<Problem>,
    problems: Vec<Problem>,
}

impl Snapshot {
    /// The records, in id order.
    pub closed spec fn recs(self) -> Seq<Record> {
        self.records@
    }

    /// The problems raised while reading files: unreadable notes and duplicate ids.
    pub closed spec fn file_problem_list(self) -> Seq<ProblemView> {
        problem_views(self.file_problems@)
    }

    /// Every problem the snapshot holds.
    pub closed spec fn problem_list(self) -> Seq<ProblemView> {
        problem_views(self.problems@)
    }

    /// Records in strictly increasing id order, each root derived from the whole set, and the
    /// problem list rebuilt from the records.
    pub open spec fn wf(self) -> bool {
        &&& increasing(record_ids(self.recs()))
        &&& self.recs().len() <= usize::MAX
        &&& forall|p: int|
            0 <= p < self.recs().len() ==> id_value((#[trigger] self.recs()[p]).meta.root) == Some(
                root_in(self.recs(), self.recs()[p].meta.id.spec_value()),
            )
        &&& raises(self.recs(), self.file_problem_list(), self.problem_list())
    }
}

/// In increasing records, a record is the record of its own id.
pub proof fn lemma_record_of(recs: Seq<Record>, p: int)
    requires
        increasing(record_ids(recs)),
        0 <= p < recs.len(),
    ensures
        holds(recs, recs[p].meta.id.spec_value()),
        record_ids(recs).index_of(recs[p].meta.id.spec_value()) == p,
        record_of(recs, recs[p].meta.id.spec_value()) == recs[p],
        parent(record_ids(recs), record_parents(recs), recs[p].meta.id.spec_value()) == id_value(
            recs[p].meta.reply_to,
        ),
{
    lemma_slot(record_ids(recs), record_parents(recs), p);
}

/// The ids and parents of each record.
fn graph_of(recs: &Vec<Record>) -> (g: (Vec<u128>, Vec<Option<u128>>))
    ensures
        g.0@ == record_ids(recs@),
        g.1@ == record_parents(recs@),
{
    let mut ks: Vec<u128> = Vec::new();
    let mut ps: Vec<Option<u128>> = Vec::new();
    let mut i: usize = 0;
    while i < recs.len()
        invariant
            i <= recs.len(),
            ks@ == record_ids(recs@).take(i as int),
            ps@ == record_parents(recs@).take(i as int),
        decreases recs.len() - i,
    {
        ks.push(recs[i].meta.id.as_u128());
        let parent = match recs[i].meta.reply_to {
            Some(id) => Some(id.as_u128()),
            None => None,
        };
        ps.push(parent);
        assert(ks@ =~= record_ids(recs@).take(i as int + 1));
        assert(ps@ =~= record_parents(recs@).take(i as int + 1));
        i = i + 1;
    }
    assert(record_ids(recs@).take(recs.len() as int) =~= record_ids(recs@));
    assert(record_parents(recs@).take(recs.len() as int) =~= record_parents(recs@));
    (ks, ps)
}

/// A copy of a list of problems.
fn copy_problems(v: &Vec<Problem>) -> (c: Vec<Problem>)
    ensures
        problem_views(c@) == problem_views(v@),
{
    let mut c: Vec<Problem> = Vec::new();
    let mut i: usize = 0;
    while i < v.len()
        invariant
            i <= v.len(),
            c.len() == i,
            forall|q: int| 0 <= q < i ==> (#[trigger] c@[q])@ == v@[q]@,
        decreases v.len() - i,
    {
        c.push(v[i].copy());
        i = i + 1;
    }
    assert(problem_views(c@) =~= problem_views(v@));
    c
}

impl Snapshot {
    /// A snapshot of `records`, which are in increasing id order: every root derived, every
    /// problem raised.
    fn build(records: Vec<Record>, file_problems: Vec<Problem>) -> (s: Snapshot)
        requires
            increasing(record_ids(records@)),
        ensures
            s.wf(),
            s.recs().len() == records@.len(),
            forall|p: int|
                0 <= p < records@.len() ==> unrooted((#[trigger] s.recs()[p])@) == unrooted(
                    records@[p]@,
                ) && s.recs()[p].meta.id == records@[p].meta.id && s.recs()[p].meta.reply_to
                    == records@[p].meta.reply_to,
            s.file_problem_list() == problem_views(file_problems@),
    {
        let (ks, ps) = graph_of(&records);
        let (roots, cycles) = derive_roots(&ks, &ps);
        let ghost before = records@;
        let mut records = records;
        let n = records.len();
        let mut i: usize = 0;
        while i < n
            invariant
                i <= n == records.len() == roots.len() == before.len(),
                forall|p: int|
                    0 <= p < n ==> unrooted((#[trigger] records@[p])@) == unrooted(before[p]@)
                        && records@[p].meta.id == before[p].meta.id && records@[p].meta.reply_to
                        == before[p].meta.reply_to,
                forall|p: int|
                    0 <= p < i ==> id_value((#[trigger] records@[p]).meta.root) == Some(roots@[p]),
            decreases n - i,
        {
            let mut r = records[i].copy();
            r.meta.root = Some(NoteId::from_u128(roots[i]));
            records.set(i, r);
            i = i + 1;
        }
        proof {
            assert(record_ids(records@) =~= record_ids(before));
            assert(record_parents(records@) =~= record_parents(before));
        }
        let mut problems = copy_problems(&file_problems);
        let ghost head = problem_views(file_problems@);
        proof {
            lemma_cycle_heads_positions(ks@, ps@, n as int);
        }
        let mut j: usize = 0;
        while j < cycles.len()
            invariant
                j <= cycles.len(),
                n == records.len(),
                ks@ == record_ids(records@),
                ps@ == record_parents(records@),
                cycles@ == cycle_heads(ks@, ps@, n as int),
                forall|q: int| 0 <= q < cycles.len() ==> (#[trigger] cycles@[q]).0 < n,
                problem_views(problems@) == head + cycle_problems(records@).take(j as int),
            decreases cycles.len() - j,
        {
            let (pos, entry) = cycles[j];
            let ghost before_push = problems@;
            let cycle = Problem::ReplyCycle {
                path: records[pos].path.clone(),
                id: NoteId::from_u128(entry),
            };
            proof {
                let cp = cycle_problems(records@);
                assert(cp[j as int] == ProblemView::ReplyCycle { path: records@[pos as int].path@, id: entry });
                assert(cycle@ == cp[j as int]);
            }
            problems.push(cycle);
            proof {
                assert(problems@ == before_push.push(cycle));
                assert(problem_views(problems@) =~= problem_views(before_push).push(cycle@));
                assert(cycle_problems(records@).take(j as int + 1) =~= cycle_problems(records@).take(
                    j as int,
                ).push(cycle@));
            }
            assert(problem_views(problems@) =~= head + cycle_problems(records@).take(j as int + 1));
            j = j + 1;
        }
        let mut undeclared = report_undeclared(&records);
        let ghost u = problem_views(undeclared@);
        let ghost mid = problem_views(problems@);
        problems.append(&mut undeclared);
        proof {
            assert(cycle_problems(records@).take(cycles.len() as int) =~= cycle_problems(records@));
            assert(problem_views(problems@) =~= mid + u);
            let h = head + cycle_problems(records@);
            assert(problem_views(problems@).take(h.len() as int) =~= h);
            assert(problem_views(problems@).skip(h.len() as int) =~= u);
        }
        let s = Snapshot { records, file_problems, problems };
        proof {
            assert forall|p: int| 0 <= p < s.recs().len() implies id_value(
                (#[trigger] s.recs()[p]).meta.root,
            ) == Some(root_in(s.recs(), s.recs()[p].meta.id.spec_value())) by {
                assert(roots@[p] == derived_root(ks@, ps@, ks@[p]));
            }
        }
        s
    }
}

/// The content of a record list read in order, a later record replacing an earlier one with
/// the same id.
pub open spec fn list_content(rs: Seq<Record>) -> Map<u128, RecordView>
    decreases rs.len(),
{
    if rs.len() == 0 {
        Map::empty()
    } else {
        list_content(rs.drop_last()).insert(rs.last().meta.id.spec_value(), unrooted(rs.last()@))
    }
}

/// In increasing records, the content at a record's id is that record.
proof fn lemma_content_at(recs: Seq<Record>, p: int)
    requires
        increasing(record_ids(recs)),
        0 <= p < recs.len(),
    ensures
        content(recs).dom().contains(recs[p].meta.id.spec_value()),
        content(recs)[recs[p].meta.id.spec_value()] == unrooted(recs[p]@),
{
    lemma_record_of(recs, p);
}

/// A held id is the id of one of the records.
proof fn lemma_held_at(recs: Seq<Record>, id: u128) -> (p: int)
    requires
        holds(recs, id),
    ensures
        0 <= p < recs.len(),
        recs[p].meta.id.spec_value() == id,
{
    let p = choose|p: int| 0 <= p < record_ids(recs).len() && record_ids(recs)[p] == id;
    p
}

/// Where `id` stands among `recs`, or where it would go.
fn find(recs: &Vec<Record>, id: u128) -> (r: Result<usize, usize>)
    requires
        increasing(record_ids(recs@)),
    ensures
        r matches Ok(p) ==> p < recs.len() && recs@[p as int].meta.id.spec_value() == id,
        r matches Err(p) ==> p <= recs.len() && (forall|q: int|
            0 <= q < p ==> (#[trigger] recs@[q]).meta.id.spec_value() < id) && (forall|q: int|
            p <= q < recs.len() ==> id < (#[trigger] recs@[q]).meta.id.spec_value()),
        r is Err ==> !holds(recs@, id),
{
    let mut lo: usize = 0;
    let mut hi: usize = recs.len();
    while lo < hi
        invariant
            increasing(record_ids(recs@)),
            lo <= hi <= recs.len(),
            forall|q: int| 0 <= q < lo ==> (#[trigger] recs@[q]).meta.id.spec_value() < id,
            forall|q: int| hi <= q < recs.len() ==> id < (#[trigger] recs@[q]).meta.id.spec_value(),
        decreases hi - lo,
    {
        let mid = lo + (hi - lo) / 2;
        let v = recs[mid].meta.id.as_u128();
        proof {
            assert(record_ids(recs@)[mid as int] == v);
        }
        if v == id {
            return Ok(mid);
        } else if v < id {
            proof {
                assert forall|q: int| 0 <= q < mid + 1 implies (#[trigger] recs@[q]).meta.id.spec_value() < id by {
                    if q < mid {
                        assert(record_ids(recs@)[q] < record_ids(recs@)[mid as int]);
                    }
                }
            }
            lo = mid + 1;
        } else {
            proof {
                assert forall|q: int| mid <= q < recs.len() implies id < (#[trigger] recs@[q]).meta.id.spec_value() by {
                    if q > mid {
                        assert(record_ids(recs@)[mid as int] < record_ids(recs@)[q]);
                    }
                }
            }
            hi = mid;
        }
    }
    proof {
        if holds(recs@, id) {
            let q = lemma_held_at(recs@, id);
        }
    }
    Err(lo)
}

/// Put `record` in its place, replacing any record with its id.
fn place(recs: &mut Vec<Record>, record: Record)
    requires
        increasing(record_ids(old(recs)@)),
    ensures
        increasing(record_ids(final(recs)@)),
        content(final(recs)@) == content(old(recs)@).insert(
            record.meta.id.spec_value(),
            unrooted(record@),
        ),
{
    let id = record.meta.id.as_u128();
    let ghost old_recs = recs@;
    let ghost rv = record@;
    match find(recs, id) {
        Ok(p) => {
            recs.set(p, record);
            proof {
                let nr = recs@;
                assert(record_ids(nr) =~= record_ids(old_recs));
                assert forall|k: u128| #[trigger] holds(nr, k) == holds(old_recs, k) by {}
                assert forall|k: u128| holds(nr, k) implies content(nr)[k] == content(old_recs).insert(id, unrooted(rv))[k] by {
                    let q = lemma_held_at(nr, k);
                    lemma_content_at(nr, q);
                    lemma_content_at(old_recs, q);
                    if q != p {
                        assert(nr[q] == old_recs[q]);
                        assert(record_ids(nr)[q] != record_ids(nr)[p as int]);
                    }
                }
                lemma_record_of(old_recs, p as int);
                assert(content(nr) =~= content(old_recs).insert(id, unrooted(rv)));
            }
        },
        Err(p) => {
            recs.insert(p, record);
            proof {
                let nr = recs@;
                assert(record_ids(nr) =~= record_ids(old_recs).insert(p as int, id));
                assert(increasing(record_ids(nr))) by {
                    assert forall|a: int, b: int| 0 <= a < b < nr.len() implies record_ids(nr)[a] < record_ids(nr)[b] by {
                        if a < p && b > p {
                            assert(record_ids(nr)[a] == old_recs[a].meta.id.spec_value());
                            assert(record_ids(nr)[b] == old_recs[b - 1].meta.id.spec_value());
                        } else if a == p {
                            assert(record_ids(nr)[b] == old_recs[b - 1].meta.id.spec_value());
                        } else if b == p {
                            assert(record_ids(nr)[a] == old_recs[a].meta.id.spec_value());
                        } else if a > p {
                            assert(record_ids(old_recs)[a - 1] < record_ids(old_recs)[b - 1]);
                        } else {
                            assert(record_ids(old_recs)[a] < record_ids(old_recs)[b]);
                        }
                    }
                }
                assert forall|k: u128| #[trigger] holds(nr, k) == (holds(old_recs, k) || k == id) by {
                    if holds(nr, k) {
                        let q = lemma_held_at(nr, k);
                        if q < p {
                            assert(record_ids(old_recs)[q] == k);
                        } else if q > p {
                            assert(record_ids(old_recs)[q - 1] == k);
                        }
                    }
                    if holds(old_recs, k) {
                        let q = lemma_held_at(old_recs, k);
                        if q < p {
                            assert(record_ids(nr)[q] == k);
                        } else {
                            assert(record_ids(nr)[q + 1] == k);
                        }
                    }
                    if k == id {
                        assert(record_ids(nr)[p as int] == k);
                    }
                }
                assert forall|k: u128| holds(nr, k) implies content(nr)[k] == content(old_recs).insert(id, unrooted(rv))[k] by {
                    let q = lemma_held_at(nr, k);
                    lemma_record_of(nr, q);
                    if q < p {
                        lemma_record_of(old_recs, q);
                    } else if q > p {
                        lemma_record_of(old_recs, q - 1);
                    }
                }
                assert(content(nr) =~= content(old_recs).insert(id, unrooted(rv)));
            }
        },
    }
}

/// Take out the record with id `id`, if there is one.
fn take_out(recs: &mut Vec<Record>, id: u128)
    requires
        increasing(record_ids(old(recs)@)),
    ensures
        increasing(record_ids(final(recs)@)),
        content(final(recs)@) == content(old(recs)@).remove(id),
{
    let ghost old_recs = recs@;
    match find(recs, id) {
        Ok(p) => {
            recs.remove(p);
            proof {
                let nr = recs@;
                assert(record_ids(nr) =~= record_ids(old_recs).remove(p as int));
                assert(increasing(record_ids(nr))) by {
                    assert forall|a: int, b: int| 0 <= a < b < nr.len() implies record_ids(nr)[a] < record_ids(nr)[b] by {
                        if a < p && b >= p {
                            assert(record_ids(old_recs)[a] < record_ids(old_recs)[b + 1]);
                        } else if a >= p {
                            assert(record_ids(old_recs)[a + 1] < record_ids(old_recs)[b + 1]);
                        } else {
                            assert(record_ids(old_recs)[a] < record_ids(old_recs)[b]);
                        }
                    }
                }
                assert forall|k: u128| #[trigger] holds(nr, k) == (holds(old_recs, k) && k != id) by {
                    if holds(nr, k) {
                        let q = lemma_held_at(nr, k);
                        if q < p {
                            assert(record_ids(old_recs)[q] == k);
                            assert(record_ids(old_recs)[q] < record_ids(old_recs)[p as int]);
                        } else {
                            assert(record_ids(old_recs)[q + 1] == k);
                            assert(record_ids(old_recs)[p as int] < record_ids(old_recs)[q + 1]);
                        }
                    }
                    if holds(old_recs, k) && k != id {
                        let q = lemma_held_at(old_recs, k);
                        if q < p {
                            assert(record_ids(nr)[q] == k);
                        } else {
                            assert(q != p);
                            assert(record_ids(nr)[q - 1] == k);
                        }
                    }
                }
                assert forall|k: u128| holds(nr, k) implies content(nr)[k] == content(old_recs).remove(id)[k] by {
                    let q = lemma_held_at(nr, k);
                    lemma_record_of(nr, q);
                    if q < p {
                        lemma_record_of(old_recs, q);
                    } else {
                        lemma_record_of(old_recs, q + 1);
                    }
                }
                assert(content(nr) =~= content(old_recs).remove(id));
            }
        },
        Err(_) => {
            proof {
                assert(content(old_recs) =~= content(old_recs).remove(id));
            }
        },
    }
}

/// Records that agree on everything but their roots have the same content.
proof fn lemma_content_unrooted(a: Seq<Record>, b: Seq<Record>)
    requires
        a.len() == b.len(),
        forall|p: int|
            0 <= p < a.len() ==> unrooted((#[trigger] a[p])@) == unrooted(b[p]@) && a[p].meta.id
                == b[p].meta.id,
    ensures
        record_ids(a) == record_ids(b),
        content(a) == content(b),
{
    assert(record_ids(a) =~= record_ids(b));
    assert(content(a) =~= content(b));
}

/// What reading one file found.
#[derive(Debug)]
pub enum Found {
    /// The file parsed into a record.
    Read(Record),
    /// The file could not be read as a note.
    Unreadable { path: String, message: String },
}

/// What the vault holds, and the problems raised, after taking in one more file in scan order:
/// an unreadable file is a problem; a second file claiming an id already held is a problem
/// naming the file that was kept; anything else is held.
pub open spec fn ingest(state: (Map<u128, RecordView>, Seq<ProblemView>), f: Found) -> (Map<u128, RecordView>, Seq<ProblemView>) {
    match f {
        Found::Unreadable { path, message } => (
            state.0,
            state.1.push(ProblemView::Unreadable { path: path@, message: message@ }),
        ),
        Found::Read(r) => if state.0.contains_key(r.meta.id.spec_value()) {
            (
                state.0,
                state.1.push(
                    ProblemView::DuplicateId {
                        id: r.meta.id.spec_value(),
                        kept: state.0[r.meta.id.spec_value()].path,
                        ignored: r.path@,
                    },
                ),
            )
        } else {
            (state.0.insert(r.meta.id.spec_value(), unrooted(r@)), state.1)
        },
    }
}

/// Taking in every file of a scan, in order, from nothing.
pub open spec fn ingest_all(fs: Seq<Found>) -> (Map<u128, RecordView>, Seq<ProblemView>)
    decreases fs.len(),
{
    if fs.len() == 0 {
        (Map::empty(), Seq::empty())
    } else {
        ingest(ingest_all(fs.drop_last()), fs.last())
    }
}

/// Whether a file read as a record with id `v`.
pub open spec fn claims(f: Found, v: u128) -> bool {
    f matches Found::Read(r) && r.meta.id.spec_value() == v
}

/// Whether `fs[i]` is the first file in scan order that read as a record with id `v`.
pub open spec fn first_claim(fs: Seq<Found>, i: int, v: u128) -> bool {
    &&& 0 <= i < fs.len()
    &&& claims(fs[i], v)
    &&& forall|j: int| 0 <= j < i ==> !claims(#[trigger] fs[j], v)
}

/// No file claiming `v` leaves `v` unheld.
proof fn lemma_unclaimed_unheld(fs: Seq<Found>, v: u128)
    requires
        forall|j: int| 0 <= j < fs.len() ==> !claims(#[trigger] fs[j], v),
    ensures
        !ingest_all(fs).0.contains_key(v),
    decreases fs.len(),
{
    if fs.len() > 0 {
        let dl = fs.drop_last();
        assert forall|j: int| 0 <= j < dl.len() implies !claims(#[trigger] dl[j], v) by {
            assert(dl[j] == fs[j]);
        }
        lemma_unclaimed_unheld(dl, v);
        assert(!claims(fs[fs.len() - 1], v));
    }
}

/// The vault holds the first claim on an id once it has been read, whatever comes after.
proof fn lemma_first_claim_held(fs: Seq<Found>, i: int, v: u128)
    requires
        first_claim(fs, i, v),
    ensures
        ingest_all(fs).0.contains_key(v),
        ingest_all(fs).0[v] == unrooted(fs[i]->Read_0@),
    decreases fs.len(),
{
    let dl = fs.drop_last();
    if i == fs.len() - 1 {
        assert forall|j: int| 0 <= j < dl.len() implies !claims(#[trigger] dl[j], v) by {
            assert(dl[j] == fs[j]);
        }
        lemma_unclaimed_unheld(dl, v);
    } else {
        assert forall|j: int| 0 <= j < i implies !claims(#[trigger] dl[j], v) by {
            assert(dl[j] == fs[j]);
        }
        assert(dl[i] == fs[i]);
        lemma_first_claim_held(dl, i, v);
    }
}

/// The problems raised reading a prefix of the files are a prefix of those raised reading them
/// all.
proof fn lemma_problems_grow(fs: Seq<Found>, n: int)
    requires
        0 <= n <= fs.len(),
    ensures
        ingest_all(fs.take(n)).1.is_prefix_of(ingest_all(fs).1),
    decreases fs.len() - n,
{
    if n == fs.len() {
        assert(fs.take(n) =~= fs);
    } else {
        lemma_problems_grow(fs, n + 1);
        assert(fs.take(n + 1).drop_last() =~= fs.take(n));
        let a = ingest_all(fs.take(n)).1;
        let b = ingest_all(fs.take(n + 1)).1;
        assert(a.is_prefix_of(b));
    }
}

/// Two files claiming one id: the first in scan order is the one the vault holds, and every later
/// claim is reported, naming the file kept and the one ignored. A live file is scanned before a
/// trashed one, so it wins over a stale trashed copy.
pub proof fn lemma_first_claim_is_kept(fs: Seq<Found>, i: int, j: int, v: u128)
    requires
        first_claim(fs, i, v),
        i < j < fs.len(),
        claims(fs[j], v),
    ensures
        ingest_all(fs).0.contains_key(v),
        ingest_all(fs).0[v] == unrooted(fs[i]->Read_0@),
        ingest_all(fs).1.contains(
            ProblemView::DuplicateId {
                id: v,
                kept: fs[i]->Read_0.path@,
                ignored: fs[j]->Read_0.path@,
            },
        ),
{
    lemma_first_claim_held(fs, i, v);
    let pre = fs.take(j);
    assert forall|k: int| 0 <= k < i implies !claims(#[trigger] pre[k], v) by {
        assert(pre[k] == fs[k]);
    }
    assert(pre[i] == fs[i]);
    lemma_first_claim_held(pre, i, v);
    let upto = fs.take(j + 1);
    assert(upto.drop_last() =~= pre);
    assert(upto.last() == fs[j]);
    let dup = ProblemView::DuplicateId { id: v, kept: fs[i]->Read_0.path@, ignored: fs[j]->Read_0.path@ };
    let ps = ingest_all(upto).1;
    assert(ps.last() == dup);
    lemma_problems_grow(fs, j + 1);
    assert(ingest_all(fs).1[ps.len() - 1] == dup);
}

/// Take in one file.
fn ingest_one(recs: &mut Vec<Record>, file_problems: &mut Vec<Problem>, found: Found)
    requires
        increasing(record_ids(old(recs)@)),
    ensures
        increasing(record_ids(final(recs)@)),
        (content(final(recs)@), problem_views(final(file_problems)@)) == ingest(
            (content(old(recs)@), problem_views(old(file_problems)@)),
            found,
        ),
{
    let ghost fp = file_problems@;
    match found {
        Found::Unreadable { path, message } => {
            let problem = Problem::Unreadable { path, message };
            file_problems.push(problem);
            assert(problem_views(file_problems@) =~= problem_views(fp).push(problem@));
        },
        Found::Read(record) => {
            let id = record.meta.id.as_u128();
            match find(recs, id) {
                Ok(p) => {
                    let problem = Problem::DuplicateId {
                        id: record.meta.id,
                        kept: recs[p].path.clone(),
                        ignored: record.path,
                    };
                    proof {
                        lemma_content_at(recs@, p as int);
                    }
                    file_problems.push(problem);
                    assert(problem_views(file_problems@) =~= problem_views(fp).push(problem@));
                },
                Err(_) => {
                    proof {
                        assert(!content(recs@).dom().contains(id));
                    }
                    place(recs, record);
                },
            }
        },
    }
}

impl Snapshot {
    /// The empty snapshot.
    pub fn new() -> (s: Snapshot)
        ensures
            s.wf(),
            s.recs().len() == 0,
            s.file_problem_list().len() == 0,
            s.problem_list().len() == 0,
    {
        let s = Snapshot::build(Vec::new(), Vec::new());
        proof {
            assert(cycle_heads(record_ids(s.recs()), record_parents(s.recs()), 0).len() == 0);
            assert(cycle_problems(s.recs()).len() == 0);
            assert(s.problem_list().skip(0) =~= s.problem_list());
            assert(reports_undeclared(s.recs(), s.problem_list()));
            let es = choose|es: Seq<(Seq<char>, Seq<char>, nat)>| tallies(occurrences(s.recs()), es) && s.problem_list() == tally_problems(es);
            assert(occurrences(s.recs()).len() == 0);
            if es.len() > 0 {
                reveal(examples_occur);
                assert(es[0] == es[0]);
            }
        }
        s
    }

    /// A snapshot of the files a scan read, in scan order: active notes before trashed ones, each
    /// directory in path order, so the first file claiming an id is deterministic and a live file
    /// wins over a stale trashed copy.
    pub fn from_scan(found: Vec<Found>) -> (s: Snapshot)
        ensures
            s.wf(),
            (content(s.recs()), s.file_problem_list()) == ingest_all(found@),
    {
        let ghost fs = found@;
        let total = found.len();
        let mut rest = found;
        let mut reversed: Vec<Found> = Vec::new();
        while rest.len() > 0
            invariant
                rest@ + reversed@.reverse() == fs,
            decreases rest.len(),
        {
            let ghost before_r = rest@;
            let ghost before_v = reversed@;
            match rest.pop() {
                Some(f) => {
                    reversed.push(f);
                    proof {
                        assert(reversed@.reverse() =~= seq![f] + before_v.reverse());
                        assert(before_r =~= rest@.push(f));
                        assert(rest@ + reversed@.reverse() =~= before_r + before_v.reverse());
                    }
                },
                None => {},
            }
        }
        assert(reversed@.reverse() =~= fs);
        let mut records: Vec<Record> = Vec::new();
        let mut file_problems: Vec<Problem> = Vec::new();
        let mut taken: usize = 0;
        proof {
            assert(fs.take(0) =~= Seq::<Found>::empty());
            assert(content(records@) =~= Map::<u128, RecordView>::empty());
        }
        while reversed.len() > 0
            invariant
                reversed@.reverse() == fs.skip(taken as int),
                taken <= fs.len() == total,
                increasing(record_ids(records@)),
                (content(records@), problem_views(file_problems@)) == ingest_all(fs.take(taken as int)),
            decreases reversed.len(),
        {
            let ghost before_v = reversed@;
            match reversed.pop() {
                Some(f) => {
                    proof {
                        assert(before_v.len() > 0);
                        assert(fs.skip(taken as int).len() > 0);
                        assert(taken < fs.len());
                        assert(before_v.reverse()[0] == f);
                        assert(fs.skip(taken as int)[0] == fs[taken as int]);
                        assert(fs.take(taken as int + 1).drop_last() =~= fs.take(taken as int));
                        assert(reversed@.reverse() =~= before_v.reverse().drop_first());
                        assert(fs.skip(taken as int + 1) =~= fs.skip(taken as int).drop_first());
                    }
                    ingest_one(&mut records, &mut file_problems, f);
                    taken = taken + 1;
                },
                None => {},
            }
        }
        proof {
            assert(fs.skip(taken as int).len() == 0);
            assert(fs.take(taken as int) =~= fs);
        }
        let ghost recs_in = records@;
        let s = Snapshot::build(records, file_problems);
        proof {
            lemma_content_unrooted(s.recs(), recs_in);
        }
        s
    }

    /// A snapshot of records handed back by the index, a later record replacing an earlier one
    /// with the same id, and the problems raised reading files.
    pub fn from_parts(records: Vec<Record>, file_problems: Vec<Problem>) -> (s: Snapshot)
        ensures
            s.wf(),
            content(s.recs()) == list_content(records@),
            s.file_problem_list() == problem_views(file_problems@),
    {
        let mut recs: Vec<Record> = Vec::new();
        let mut i: usize = 0;
        proof {
            assert(records@.take(0) =~= Seq::<Record>::empty());
            assert(content(recs@) =~= Map::<u128, RecordView>::empty());
        }
        while i < records.len()
            invariant
                i <= records.len(),
                increasing(record_ids(recs@)),
                content(recs@) == list_content(records@.take(i as int)),
            decreases records.len() - i,
        {
            let r = records[i].copy();
            place(&mut recs, r);
            proof {
                assert(records@.take(i as int + 1).drop_last() =~= records@.take(i as int));
            }
            i = i + 1;
        }
        proof {
            assert(records@.take(records.len() as int) =~= records@);
        }
        let ghost recs_in = recs@;
        let s = Snapshot::build(recs, file_problems);
        proof {
            lemma_content_unrooted(s.recs(), recs_in);
        }
        s
    }

    /// Put one already-read record in place of whatever the snapshot held for its id.
    pub fn replace(&mut self, record: Record)
        requires
            old(self).wf(),
        ensures
            final(self).wf(),
            content(final(self).recs()) == content(old(self).recs()).insert(
                record.meta.id.spec_value(),
                unrooted(record@),
            ),
            final(self).file_problem_list() == old(self).file_problem_list(),
    {
        let mut records: Vec<Record> = Vec::new();
        std::mem::swap(&mut records, &mut self.records);
        let mut file_problems: Vec<Problem> = Vec::new();
        std::mem::swap(&mut file_problems, &mut self.file_problems);
        place(&mut records, record);
        let ghost recs_in = records@;
        *self = Snapshot::build(records, file_problems);
        proof {
            lemma_content_unrooted(self.recs(), recs_in);
        }
    }

    /// Read one file again after a write, replacing whatever the snapshot held for `id`.
    pub fn reindex(&mut self, id: NoteId, found: Found)
        requires
            old(self).wf(),
        ensures
            final(self).wf(),
            (content(final(self).recs()), final(self).file_problem_list()) == ingest(
                (content(old(self).recs()).remove(id.spec_value()), old(self).file_problem_list()),
                found,
            ),
    {
        let mut records: Vec<Record> = Vec::new();
        std::mem::swap(&mut records, &mut self.records);
        let mut file_problems: Vec<Problem> = Vec::new();
        std::mem::swap(&mut file_problems, &mut self.file_problems);
        take_out(&mut records, id.as_u128());
        ingest_one(&mut records, &mut file_problems, found);
        let ghost recs_in = records@;
        *self = Snapshot::build(records, file_problems);
        proof {
            lemma_content_unrooted(self.recs(), recs_in);
        }
    }

    /// Drop a note from the snapshot, after a purge or after its file moved away. Purging the
    /// middle of a chain splits it: the surviving replies root at the id they still name.
    pub fn forget(&mut self, id: NoteId)
        requires
            old(self).wf(),
        ensures
            final(self).wf(),
            content(final(self).recs()) == content(old(self).recs()).remove(id.spec_value()),
            final(self).file_problem_list() == old(self).file_problem_list(),
    {
        let mut records: Vec<Record> = Vec::new();
        std::mem::swap(&mut records, &mut self.records);
        let mut file_problems: Vec<Problem> = Vec::new();
        std::mem::swap(&mut file_problems, &mut self.file_problems);
        take_out(&mut records, id.as_u128());
        let ghost recs_in = records@;
        *self = Snapshot::build(records, file_problems);
        proof {
            lemma_content_unrooted(self.recs(), recs_in);
        }
    }
}

// =============================================================================================
// Lookups
// =============================================================================================

/// How many of the first `n` records are trashed.
pub open spec fn trashed_count(recs: Seq<Record>, n: int) -> nat
    decreases n,
{
    if n <= 0 {
        0
    } else {
        trashed_count(recs, n - 1) + if recs[n - 1].state == State::Trashed {
            1nat
        } else {
            0nat
        }
    }
}

/// The metadata of the first `n` records whose body links to `id`, in id order.
pub open spec fn linking(recs: Seq<Record>, id: u128, n: int) -> Seq<NoteMeta>
    decreases n,
{
    if n <= 0 {
        Seq::empty()
    } else if id_values(recs[n - 1].links@).contains(id) {
        linking(recs, id, n - 1).push(recs[n - 1].meta)
    } else {
        linking(recs, id, n - 1)
    }
}

/// The metadata of the first `n` records whose `quote` names `id`, in id order.
pub open spec fn quoting(recs: Seq<Record>, id: u128, n: int) -> Seq<NoteMeta>
    decreases n,
{
    if n <= 0 {
        Seq::empty()
    } else if id_value(recs[n - 1].meta.quote) == Some(id) {
        quoting(recs, id, n - 1).push(recs[n - 1].meta)
    } else {
        quoting(recs, id, n - 1)
    }
}

/// What a reference to `id` resolves to among `recs`.
pub open spec fn ref_of(recs: Seq<Record>, id: NoteId) -> Ref {
    if holds(recs, id.spec_value()) {
        if record_of(recs, id.spec_value()).state == State::Active {
            Ref::Present(record_of(recs, id.spec_value()).meta)
        } else {
            Ref::Trashed(record_of(recs, id.spec_value()).meta)
        }
    } else {
        Ref::Deleted(id)
    }
}

/// Whether `links` names `id`.
fn links_to(links: &Vec<NoteId>, id: u128) -> (b: bool)
    ensures
        b == id_values(links@).contains(id),
{
    let mut i: usize = 0;
    while i < links.len()
        invariant
            i <= links.len(),
            forall|q: int| 0 <= q < i ==> (#[trigger] links@[q]).spec_value() != id,
        decreases links.len() - i,
    {
        if links[i].as_u128() == id {
            assert(id_values(links@)[i as int] == id);
            return true;
        }
        i = i + 1;
    }
    proof {
        if id_values(links@).contains(id) {
            let q = choose|q: int| 0 <= q < id_values(links@).len() && id_values(links@)[q] == id;
            assert(links@[q].spec_value() == id);
        }
    }
    false
}

impl Snapshot {
    /// Every problem this snapshot holds.
    pub fn problems(&self) -> (ps: &[Problem])
        ensures
            problem_views(ps@) == self.problem_list(),
    {
        self.problems.as_slice()
    }

    /// How many notes the vault holds, in both states.
    pub fn len(&self) -> (n: usize)
        ensures
            n == self.recs().len(),
    {
        self.records.len()
    }

    /// Whether the vault holds no notes at all.
    pub fn is_empty(&self) -> (b: bool)
        ensures
            b == (self.recs().len() == 0),
    {
        self.records.len() == 0
    }

    /// How many notes are active and how many trashed.
    pub fn counts(&self) -> (c: (usize, usize))
        ensures
            c.1 == trashed_count(self.recs(), self.recs().len() as int),
            c.0 + c.1 == self.recs().len(),
    {
        let mut trashed: usize = 0;
        let mut i: usize = 0;
        while i < self.records.len()
            invariant
                i <= self.records.len(),
                trashed == trashed_count(self.records@, i as int),
                trashed <= i,
            decreases self.records.len() - i,
        {
            if self.records[i].state == State::Trashed {
                trashed = trashed + 1;
            }
            i = i + 1;
        }
        (self.records.len() - trashed, trashed)
    }

    /// Every record, in id order.
    pub fn records(&self) -> (rs: &[Record])
        ensures
            rs@ == self.recs(),
    {
        self.records.as_slice()
    }

    /// The record for one id, in either state.
    pub fn get(&self, id: NoteId) -> (r: Option<&Record>)
        requires
            self.wf(),
        ensures
            r is Some == holds(self.recs(), id.spec_value()),
            r matches Some(x) ==> *x == record_of(self.recs(), id.spec_value()),
    {
        match find(&self.records, id.as_u128()) {
            Ok(p) => {
                proof {
                    lemma_record_of(self.recs(), p as int);
                }
                Some(&self.records[p])
            },
            Err(_) => None,
        }
    }

    /// Every note's derived root, for the index to store. Never unknown: a note whose walk
    /// found no parent, or a cycle, roots at itself.
    pub fn roots(&self) -> (rs: Vec<(NoteId, NoteId)>)
        requires
            self.wf(),
        ensures
            rs.len() == self.recs().len(),
            forall|p: int|
                0 <= p < rs.len() ==> (#[trigger] rs@[p]).0 == self.recs()[p].meta.id && rs@[p].1.spec_value()
                    == root_in(self.recs(), self.recs()[p].meta.id.spec_value()),
    {
        let mut rs: Vec<(NoteId, NoteId)> = Vec::new();
        let mut i: usize = 0;
        while i < self.records.len()
            invariant
                self.wf(),
                i <= self.records.len(),
                rs.len() == i,
                forall|p: int|
                    0 <= p < i ==> (#[trigger] rs@[p]).0 == self.recs()[p].meta.id && rs@[p].1.spec_value()
                        == root_in(self.recs(), self.recs()[p].meta.id.spec_value()),
            decreases self.records.len() - i,
        {
            let record = &self.records[i];
            let root = match record.meta.root {
                Some(r) => r,
                None => record.meta.id,
            };
            rs.push((record.meta.id, root));
            i = i + 1;
        }
        rs
    }

    /// Resolve a reference to its three-state form: present, trashed, or deleted.
    pub fn reference(&self, id: NoteId) -> (r: Ref)
        requires
            self.wf(),
        ensures
            r == ref_of(self.recs(), id),
    {
        match self.get(id) {
            Some(record) => match record.state {
                State::Active => Ref::Present(record.meta.copy()),
                State::Trashed => Ref::Trashed(record.meta.copy()),
            },
            None => Ref::Deleted(id),
        }
    }

    /// Notes whose body links to `id`, in creation order. Only this vault was scanned, so a link
    /// out of it cannot resolve.
    pub fn backlinks(&self, id: NoteId) -> (ms: Vec<NoteMeta>)
        ensures
            ms@ == linking(self.recs(), id.spec_value(), self.recs().len() as int),
    {
        let mut ms: Vec<NoteMeta> = Vec::new();
        let mut i: usize = 0;
        while i < self.records.len()
            invariant
                i <= self.records.len(),
                ms@ == linking(self.records@, id.spec_value(), i as int),
            decreases self.records.len() - i,
        {
            if links_to(&self.records[i].links, id.as_u128()) {
                ms.push(self.records[i].meta.copy());
            }
            i = i + 1;
        }
        ms
    }

    /// Notes whose `relation:quote` names `id`, in creation order.
    pub fn quoted_by(&self, id: NoteId) -> (ms: Vec<NoteMeta>)
        ensures
            ms@ == quoting(self.recs(), id.spec_value(), self.recs().len() as int),
    {
        let mut ms: Vec<NoteMeta> = Vec::new();
        let mut i: usize = 0;
        while i < self.records.len()
            invariant
                i <= self.records.len(),
                ms@ == quoting(self.records@, id.spec_value(), i as int),
            decreases self.records.len() - i,
        {
            let quotes = match self.records[i].meta.quote {
                Some(q) => q.as_u128() == id.as_u128(),
                None => false,
            };
            if quotes {
                ms.push(self.records[i].meta.copy());
            }
            i = i + 1;
        }
        ms
    }
}

// =============================================================================================
// What every snapshot keeps
// =============================================================================================

/// Every record of a snapshot has a root, the one its reply chain derives.
pub proof fn lemma_every_record_has_a_root(s: Snapshot)
    requires
        s.wf(),
    ensures
        forall|p: int| 0 <= p < s.recs().len() ==> (#[trigger] s.recs()[p]).meta.root is Some,
{
    assert forall|p: int| 0 <= p < s.recs().len() implies (#[trigger] s.recs()[p]).meta.root is Some by {
        assert(id_value(s.recs()[p].meta.root) == Some(root_in(s.recs(), s.recs()[p].meta.id.spec_value())));
    }
}

/// A note with no `reply_to` is its own root.
pub proof fn lemma_parentless_roots_itself(s: Snapshot, p: int)
    requires
        s.wf(),
        0 <= p < s.recs().len(),
        s.recs()[p].meta.reply_to is None,
    ensures
        id_value(s.recs()[p].meta.root) == Some(s.recs()[p].meta.id.spec_value()),
{
    lemma_record_of(s.recs(), p);
    lemma_root_of_parentless(record_ids(s.recs()), record_parents(s.recs()), s.recs()[p].meta.id.spec_value());
}

/// A note whose parent the vault does not hold is rooted at that parent's id: the last id the
/// chain names. The replies to a purged note therefore stay grouped with each other.
pub proof fn lemma_dangling_parent_is_the_root(s: Snapshot, p: int, parent_id: NoteId)
    requires
        s.wf(),
        0 <= p < s.recs().len(),
        s.recs()[p].meta.reply_to == Some(parent_id),
        !holds(s.recs(), parent_id.spec_value()),
    ensures
        id_value(s.recs()[p].meta.root) == Some(parent_id.spec_value()),
{
    lemma_record_of(s.recs(), p);
    lemma_root_of_dangling(
        record_ids(s.recs()),
        record_parents(s.recs()),
        s.recs()[p].meta.id.spec_value(),
        parent_id.spec_value(),
    );
}

/// A reply whose parent the vault holds has its parent's root, in either state and whether or
/// not the chain loops.
pub proof fn lemma_reply_shares_its_parents_root(s: Snapshot, p: int, q: int)
    requires
        s.wf(),
        0 <= p < s.recs().len(),
        0 <= q < s.recs().len(),
        id_value(s.recs()[p].meta.reply_to) == Some(s.recs()[q].meta.id.spec_value()),
    ensures
        id_value(s.recs()[p].meta.root) == id_value(s.recs()[q].meta.root),
{
    lemma_record_of(s.recs(), p);
    lemma_reply_shares_root(
        record_ids(s.recs()),
        record_parents(s.recs()),
        s.recs()[p].meta.id.spec_value(),
        s.recs()[q].meta.id.spec_value(),
    );
}

// =============================================================================================
// Diffing
// =============================================================================================

/// What changed between two scans.
#[derive(Debug)]
pub struct SyncReport {
    /// Notes that were not in the previous scan.
    pub added: Vec<NoteId>,
    /// Notes whose path, state, metadata, links, or mtime moved.
    pub updated: Vec<NoteId>,
    /// Notes the vault no longer holds.
    pub removed: Vec<NoteId>,
    /// How many notes were identical to the previous scan.
    pub unchanged: usize,
    /// Problems the scan is holding. Not a diff: the current scan's full list.
    pub problems: Vec<Problem>,
    /// How many note files this sync opened, because their size and mtime did not match the
    /// index.
    pub files_read: usize,
    /// How many of those it went on to parse, because the content hash did not match either.
    pub reparsed: usize,
}

impl SyncReport {
    /// Nothing moved, nothing read.
    pub fn default() -> (r: SyncReport)
        ensures
            r.added@.len() == 0,
            r.updated@.len() == 0,
            r.removed@.len() == 0,
            r.unchanged == 0,
            r.problems@.len() == 0,
            r.files_read == 0,
            r.reparsed == 0,
    {
        SyncReport {
            added: Vec::new(),
            updated: Vec::new(),
            removed: Vec::new(),
            unchanged: 0,
            problems: Vec::new(),
            files_read: 0,
            reparsed: 0,
        }
    }

    /// Whether anything at all moved.
    pub fn is_quiet(&self) -> (b: bool)
        ensures
            b == (self.added@.len() == 0 && self.updated@.len() == 0 && self.removed@.len() == 0),
    {
        self.added.len() == 0 && self.updated.len() == 0 && self.removed.len() == 0
    }

    /// How many notes the scan touched.
    pub fn changed(&self) -> (n: usize)
        requires
            self.added@.len() + self.updated@.len() + self.removed@.len() <= usize::MAX,
        ensures
            n == self.added@.len() + self.updated@.len() + self.removed@.len(),
    {
        self.added.len() + self.updated.len() + self.removed.len()
    }

    /// Whether this sync answered entirely from the index: nothing opened, nothing parsed.
    pub fn was_free(&self) -> (b: bool)
        ensures
            b == (self.files_read == 0 && self.reparsed == 0),
    {
        self.files_read == 0 && self.reparsed == 0
    }
}

/// A sync is quiet exactly when it changed nothing: [`SyncReport::is_quiet`] holds exactly when
/// [`SyncReport::changed`] is zero, whatever was read or reparsed along the way.
pub proof fn lemma_quiet_iff_nothing_changed(r: SyncReport)
    ensures
        (r.added@.len() == 0 && r.updated@.len() == 0 && r.removed@.len() == 0) <==> (r.added@.len()
            + r.updated@.len() + r.removed@.len() == 0),
{
}

/// The ids among the first `n` current records that the previous records do not hold.
pub open spec fn added_upto(cur: Seq<Record>, prev: Seq<Record>, n: int) -> Seq<u128>
    decreases n,
{
    if n <= 0 {
        Seq::empty()
    } else if !holds(prev, cur[n - 1].meta.id.spec_value()) {
        added_upto(cur, prev, n - 1).push(cur[n - 1].meta.id.spec_value())
    } else {
        added_upto(cur, prev, n - 1)
    }
}

/// The ids among the first `n` current records whose previous record differs.
pub open spec fn updated_upto(cur: Seq<Record>, prev: Seq<Record>, n: int) -> Seq<u128>
    decreases n,
{
    if n <= 0 {
        Seq::empty()
    } else if holds(prev, cur[n - 1].meta.id.spec_value()) && record_of(
        prev,
        cur[n - 1].meta.id.spec_value(),
    )@ != cur[n - 1]@ {
        updated_upto(cur, prev, n - 1).push(cur[n - 1].meta.id.spec_value())
    } else {
        updated_upto(cur, prev, n - 1)
    }
}

/// How many of the first `n` current records are identical to their previous record.
pub open spec fn unchanged_upto(cur: Seq<Record>, prev: Seq<Record>, n: int) -> nat
    decreases n,
{
    if n <= 0 {
        0
    } else {
        unchanged_upto(cur, prev, n - 1) + if holds(prev, cur[n - 1].meta.id.spec_value())
            && record_of(prev, cur[n - 1].meta.id.spec_value())@ == cur[n - 1]@ {
            1nat
        } else {
            0nat
        }
    }
}

impl Snapshot {
    /// What changed between `previous` and this scan, each list in id order. A record counts as
    /// updated when anything it says differs: path, state, metadata, derived root, links, mtime.
    pub fn diff(&self, previous: &Snapshot) -> (r: SyncReport)
        requires
            self.wf(),
            previous.wf(),
        ensures
            id_values(r.added@) == added_upto(self.recs(), previous.recs(), self.recs().len() as int),
            id_values(r.updated@) == updated_upto(self.recs(), previous.recs(), self.recs().len() as int),
            r.unchanged == unchanged_upto(self.recs(), previous.recs(), self.recs().len() as int),
            id_values(r.removed@) == added_upto(previous.recs(), self.recs(), previous.recs().len() as int),
            problem_views(r.problems@) == self.problem_list(),
            r.files_read == 0,
            r.reparsed == 0,
    {
        let mut added: Vec<NoteId> = Vec::new();
        let mut updated: Vec<NoteId> = Vec::new();
        let mut unchanged: usize = 0;
        let mut i: usize = 0;
        while i < self.records.len()
            invariant
                self.wf(),
                previous.wf(),
                i <= self.records.len(),
                id_values(added@) == added_upto(self.recs(), previous.recs(), i as int),
                id_values(updated@) == updated_upto(self.recs(), previous.recs(), i as int),
                unchanged == unchanged_upto(self.recs(), previous.recs(), i as int),
                unchanged <= i,
            decreases self.records.len() - i,
        {
            let record = &self.records[i];
            let ghost ba = added@;
            let ghost bu = updated@;
            match previous.get(record.meta.id) {
                None => {
                    added.push(record.meta.id);
                    assert(id_values(added@) =~= id_values(ba).push(record.meta.id.spec_value()));
                },
                Some(before) => {
                    if before.same_as(record) {
                        unchanged = unchanged + 1;
                    } else {
                        updated.push(record.meta.id);
                        assert(id_values(updated@) =~= id_values(bu).push(record.meta.id.spec_value()));
                    }
                },
            }
            i = i + 1;
        }
        let mut removed: Vec<NoteId> = Vec::new();
        let mut j: usize = 0;
        while j < previous.records.len()
            invariant
                self.wf(),
                previous.wf(),
                j <= previous.records.len(),
                id_values(removed@) == added_upto(previous.recs(), self.recs(), j as int),
            decreases previous.records.len() - j,
        {
            let id = previous.records[j].meta.id;
            let ghost br = removed@;
            if self.get(id).is_none() {
                removed.push(id);
                assert(id_values(removed@) =~= id_values(br).push(id.spec_value()));
            }
            j = j + 1;
        }
        SyncReport {
            added,
            updated,
            removed,
            unchanged,
            problems: copy_problems(&self.problems),
            files_read: 0,
            reparsed: 0,
        }
    }
}

// =============================================================================================
// Prefix resolution
// =============================================================================================

/// What a prefix is matched as: trimmed, then lowercased, so the hyphenated form matches in
/// either case.
pub open spec fn needle(prefix: Seq<char>) -> Seq<char> {
    ascii_lowercase(trimmed(prefix))
}

/// The metadata of the first `n` records whose hyphenated id starts with `nd`, in id order.
pub open spec fn prefixed(recs: Seq<Record>, nd: Seq<char>, n: int) -> Seq<NoteMeta>
    decreases n,
{
    if n <= 0 {
        Seq::empty()
    } else if nd.is_prefix_of(hyphenated_text(recs[n - 1].meta.id.spec_value())) {
        prefixed(recs, nd, n - 1).push(recs[n - 1].meta)
    } else {
        prefixed(recs, nd, n - 1)
    }
}

/// What resolving a prefix gives, as plain values.
pub enum Resolved {
    NoMatch,
    Unique(NoteMeta),
    Ambiguous(Seq<NoteMeta>),
}

/// What resolving `prefix` among `recs` gives: nothing for a blank prefix; the note itself when
/// the prefix reads as a complete id the vault holds; otherwise every note whose hyphenated id
/// starts with it.
pub open spec fn resolved(recs: Seq<Record>, prefix: Seq<char>) -> Resolved {
    let nd = needle(prefix);
    if nd.len() == 0 {
        Resolved::NoMatch
    } else if uuid_text_value(nd) is Some && holds(recs, uuid_text_value(nd)->0) {
        Resolved::Unique(record_of(recs, uuid_text_value(nd)->0).meta)
    } else {
        let ms = prefixed(recs, nd, recs.len() as int);
        if ms.len() == 0 {
            Resolved::NoMatch
        } else if ms.len() == 1 {
            Resolved::Unique(ms[0])
        } else {
            Resolved::Ambiguous(ms)
        }
    }
}

/// Whether a resolution says what `x` says.
pub open spec fn resolution_is(r: Resolution, x: Resolved) -> bool {
    match x {
        Resolved::NoMatch => r is NoMatch,
        Resolved::Unique(m) => r matches Resolution::Unique(b) && *b == m,
        Resolved::Ambiguous(ms) => r matches Resolution::Ambiguous(v) && v@ == ms,
    }
}

/// Whether `nd` is a nonempty prefix of `v`'s hyphenated form and of no other held id's.
pub open spec fn prefixes_only(ids: Seq<u128>, nd: Seq<char>, v: u128) -> bool {
    &&& nd.len() > 0
    &&& nd.is_prefix_of(hyphenated_text(v))
    &&& forall|w: u128| ids.contains(w) && w != v ==> !nd.is_prefix_of(#[trigger] hyphenated_text(w))
}

impl Snapshot {
    /// Resolve a git-style id prefix. Matching is case-insensitive against the hyphenated form,
    /// so a prefix that spans a hyphen works; a complete id, in any form the `uuid` crate reads,
    /// short-circuits to its note.
    ///
    /// A prefix that starts only the id of one held note resolves to that note, whatever else
    /// it might read as.
    pub fn resolve(&self, prefix: &str) -> (r: Resolution)
        requires
            self.wf(),
        ensures
            resolution_is(r, resolved(self.recs(), prefix@)),
            forall|v: u128|
                holds(self.recs(), v) && prefixes_only(record_ids(self.recs()), needle(prefix@), v)
                    ==> (r matches Resolution::Unique(b) && *b == record_of(self.recs(), v).meta),
    {
        let trimmed_prefix = trim(prefix);
        let nd = to_ascii_lowercase(trimmed_prefix);
        proof {
            assert(nd@ == needle(prefix@));
        }
        if nd.unicode_len() == 0 {
            return Resolution::NoMatch;
        }
        let parsed = NoteId::parse(nd.as_str());
        proof {
            assert forall|v: u128|
                holds(self.recs(), v) && prefixes_only(record_ids(self.recs()), nd@, v) implies (uuid_text_value(nd@)
                    is None || uuid_text_value(nd@) == Some(v)) by {
                lemma_prefix_reads_as_its_id(nd@, v);
            }
        }
        match parsed {
            Some(id) => match self.get(id) {
                Some(record) => {
                    return Resolution::Unique(Box::new(record.meta.copy()));
                },
                None => {},
            },
            None => {},
        }
        let mut matched: Vec<NoteMeta> = Vec::new();
        let mut i: usize = 0;
        while i < self.records.len()
            invariant
                i <= self.records.len(),
                matched@ == prefixed(self.records@, nd@, i as int),
            decreases self.records.len() - i,
        {
            let text = self.records[i].meta.id.to_string();
            if is_prefix(nd.as_str(), text.as_str()) {
                matched.push(self.records[i].meta.copy());
            }
            i = i + 1;
        }
        proof {
            assert forall|v: u128|
                holds(self.recs(), v) && prefixes_only(record_ids(self.recs()), nd@, v) implies (
                prefixed(self.recs(), nd@, self.recs().len() as int) == seq![record_of(self.recs(), v).meta]) by {
                lemma_prefixed_only(self.recs(), nd@, v, self.recs().len() as int);
            }
        }
        if matched.len() == 0 {
            Resolution::NoMatch
        } else if matched.len() == 1 {
            let only = matched.remove(0);
            Resolution::Unique(Box::new(only))
        } else {
            Resolution::Ambiguous(matched)
        }
    }

    /// The shortest prefix that identifies each note unambiguously, keyed by id: at least `min`
    /// characters, longer only as far as the vault needs, and always a real prefix of the
    /// hyphenated id, so it can be handed straight back to [`Snapshot::resolve`].
    pub fn abbreviations(&self, min: usize) -> (r: BTreeMap<u128, String>)
        ensures
            forall|v: u128| r@.contains_key(v) <==> record_ids(self.recs()).contains(v),
            forall|v: u128|
                #[trigger] r@.contains_key(v) ==> exists|n: int|
                    separates_at(record_ids(self.recs()), v, n) && r@[v]@ == abbreviation(
                        v,
                        n,
                        min as int,
                    ),
    {
        let mut ids: Vec<u128> = Vec::new();
        let mut i: usize = 0;
        while i < self.records.len()
            invariant
                i <= self.records.len(),
                ids@ == record_ids(self.records@).take(i as int),
            decreases self.records.len() - i,
        {
            ids.push(self.records[i].meta.id.as_u128());
            assert(ids@ =~= record_ids(self.records@).take(i as int + 1));
            i = i + 1;
        }
        assert(ids@ =~= record_ids(self.records@));
        abbreviate(ids, min)
    }
}

/// A nonempty prefix of one id's hyphenated form, and of no other's, reads as no id at all, or
/// as that id when it is the whole form: the `uuid` crate refuses every shorter length but 32,
/// and a 32-character prefix holds a hyphen.
proof fn lemma_prefix_reads_as_its_id(nd: Seq<char>, v: u128)
    requires
        nd.len() > 0,
        nd.is_prefix_of(hyphenated_text(v)),
        !(encode_utf8(nd).len() == 32 || encode_utf8(nd).len() == 36 || encode_utf8(nd).len() == 38
            || encode_utf8(nd).len() == 45) ==> uuid_text_value(nd) is None,
        encode_utf8(nd).len() == 32 && !(forall|i: int| 0 <= i < nd.len() ==> is_hex_char(#[trigger] nd[i]))
            ==> uuid_text_value(nd) is None,
        encode_utf8(nd).len() == 36 ==> (uuid_text_value(nd) is Some <==> is_hyphenated_form(nd)),
        is_hyphenated_form(nd) ==> uuid_text_value(nd) is Some && hyphenated_text(
            uuid_text_value(nd)->0,
        ) == ascii_lowercase(nd),
    ensures
        uuid_text_value(nd) is None || uuid_text_value(nd) == Some(v),
{
    lemma_hyphenated_ascii_pub(v);
    lemma_hyphenated_is_canonical(v);
    let t = hyphenated_text(v);
    assert(nd =~= t.take(nd.len() as int));
    assert(is_ascii_chars(nd)) by {
        assert forall|i: int| 0 <= i < nd.len() implies (nd[i] as u32) < 128 by {
            assert(nd[i] == t[i]);
            assert(t[i] == (hyphenated_bytes(v)[i] as char));
        }
    }
    is_ascii_chars_encode_utf8(nd);
    if nd.len() == 32 {
        assert(nd[8] == '-');
        assert(!is_hex_char(nd[8]));
    }
    if nd.len() == 36 {
        assert(nd =~= t);
        let w = uuid_text_value(nd)->0;
        lemma_parse_canonical(v, w);
    }
}

/// Only `v` among the records has a hyphenated id starting with `nd`.
proof fn lemma_prefixed_only(recs: Seq<Record>, nd: Seq<char>, v: u128, n: int)
    requires
        increasing(record_ids(recs)),
        holds(recs, v),
        prefixes_only(record_ids(recs), nd, v),
        0 <= n <= recs.len(),
    ensures
        prefixed(recs, nd, n) == if record_ids(recs).index_of(v) < n {
            seq![record_of(recs, v).meta]
        } else {
            Seq::<NoteMeta>::empty()
        },
    decreases n,
{
    let p = lemma_held_at(recs, v);
    lemma_record_of(recs, p);
    if n > 0 {
        lemma_prefixed_only(recs, nd, v, n - 1);
        let w = recs[n - 1].meta.id.spec_value();
        assert(record_ids(recs)[n - 1] == w);
        if w != v {
            assert(!nd.is_prefix_of(hyphenated_text(w)));
        }
    }
}

/// An abbreviation is a nonempty prefix of its id's hyphenated form and of no other's, and it
/// is its own needle: so [`Snapshot::resolve`] resolves it back to its note. The floor must be at
/// least one; with a floor of zero a lone note abbreviates to nothing.
pub proof fn lemma_abbreviation_resolves(ids: Seq<u128>, v: u128, n: int, min: int)
    requires
        ids.contains(v),
        separates_at(ids, v, n),
        min >= 1,
    ensures
        needle(abbreviation(v, n, min)) == abbreviation(v, n, min),
        prefixes_only(ids, abbreviation(v, n, min), v),
{
    let a = abbreviation(v, n, min);
    lemma_abbreviation_is_prefix(v, n, min);
    lemma_hyphenated_ascii_pub(v);
    lemma_hyphenated_is_canonical(v);
    let t = hyphenated_text(v);
    let k = width_for(n, min);
    assert(a.len() == k);
    assert(a =~= t.take(k));
    assert forall|i: int| 0 <= i < a.len() implies !is_white_space(#[trigger] a[i]) by {
        assert(a[i] == t[i]);
        if is_hyphen_pos(i) {
            assert(t[i] == '-');
        } else {
            assert(is_hex_char(t[i]));
        }
    }
    assert(lead_ws(a) == 0);
    assert(a.skip(0) =~= a);
    assert(trail_ws(a) == 0);
    assert(trimmed(a) =~= a);
    assert(ascii_lowercase(a) =~= a) by {
        assert forall|i: int| 0 <= i < a.len() implies ascii_lowercase(a)[i] == a[i] by {
            assert(ascii_lowercase(t)[i] == t[i]);
        }
    }
    assert forall|w: u128| ids.contains(w) && w != v implies !a.is_prefix_of(#[trigger] hyphenated_text(w)) by {
        lemma_distinct_ids_differ(v, w);
        lemma_hyphenated_ascii_pub(w);
        let x = shared(v, w);
        assert(x + 1 <= n);
        assert(x < k);
        let tw = hyphenated_text(w);
        assert(a[x] == (id_bytes(v)[x] as char));
        assert(tw[x] == (id_bytes(w)[x] as char));
        let bx = id_bytes(v)[x];
        let by = id_bytes(w)[x];
        assert((bx as char) as u32 == bx as u32);
        assert((by as char) as u32 == by as u32);
    }
}

// =============================================================================================
// Threads
// =============================================================================================

/// Whether a listing over active notes only admits `r`.
pub open spec fn admitted(r: Record, active_only: bool) -> bool {
    !active_only || r.state == State::Active
}

/// The admitted replies to `parent` among the first `n` records, in id order.
pub open spec fn replies_to(recs: Seq<Record>, active_only: bool, parent: u128, n: int) -> Seq<NoteMeta>
    decreases n,
{
    if n <= 0 {
        Seq::empty()
    } else if admitted(recs[n - 1], active_only) && id_value(recs[n - 1].meta.reply_to) == Some(
        parent,
    ) {
        replies_to(recs, active_only, parent, n - 1).push(recs[n - 1].meta)
    } else {
        replies_to(recs, active_only, parent, n - 1)
    }
}

/// The adjacency map of `recs`: each parent id with at least one admitted reply, to its replies.
pub open spec fn reply_map(recs: Seq<Record>, active_only: bool) -> Map<u128, Seq<NoteMeta>> {
    Map::new(
        |p: u128| replies_to(recs, active_only, p, recs.len() as int).len() > 0,
        |p: u128| replies_to(recs, active_only, p, recs.len() as int),
    )
}

/// How many steps the walk up `reply_to` from `id` climbs before it reaches a note the vault does
/// not hold, a note with no parent, or a note it already passed: `m` when every step up to `m`
/// lands on a new held note and step `m + 1` would not.
pub open spec fn climbs(ks: Seq<u128>, ps: Seq<Option<u128>>, id: u128, m: nat) -> bool {
    forall|k: nat|
        1 <= k <= m ==> parent(ks, ps, #[trigger] nth(ks, ps, id, (k - 1) as nat)) is Some && ks.contains(
            nth(ks, ps, id, k),
        ) && forall|j: nat| j < k ==> #[trigger] nth(ks, ps, id, j) != nth(ks, ps, id, k)
}

/// Whether the climb from `id` stops after `m` steps.
pub open spec fn climb_stops(ks: Seq<u128>, ps: Seq<Option<u128>>, id: u128, m: nat) -> bool {
    !(parent(ks, ps, nth(ks, ps, id, m)) is Some && ks.contains(nth(ks, ps, id, m + 1)) && forall|
        j: nat,
    |
        j <= m ==> #[trigger] nth(ks, ps, id, j) != nth(ks, ps, id, m + 1))
}

/// Whether `chain` is the ancestry of `id`: the notes the climb passes, root end first.
pub open spec fn is_ancestry(recs: Seq<Record>, id: u128, chain: Seq<NoteMeta>) -> bool {
    let ks = record_ids(recs);
    let ps = record_parents(recs);
    &&& climbs(ks, ps, id, chain.len())
    &&& climb_stops(ks, ps, id, chain.len())
    &&& forall|k: int|
        0 <= k < chain.len() ==> #[trigger] chain[k] == record_of(
            recs,
            nth(ks, ps, id, (chain.len() - k) as nat),
        ).meta
}

/// Whether `w` holds `x`.
fn walked_past(w: &Vec<u128>, x: u128) -> (b: bool)
    ensures
        b == w@.contains(x),
{
    let mut j: usize = 0;
    while j < w.len()
        invariant
            j <= w.len(),
            forall|q: int| 0 <= q < j ==> w@[q] != x,
        decreases w.len() - j,
    {
        if w[j] == x {
            return true;
        }
        j = j + 1;
    }
    false
}

impl Snapshot {
    /// Direct replies keyed by parent id, over every note or over active notes only, built in one
    /// pass. Records are in id order and pushes keep it, so siblings come in creation order.
    pub fn children_of(&self, active_only: bool) -> (m: BTreeMap<u128, Vec<NoteMeta>>)
        ensures
            reply_lists(m@) == reply_map(self.recs(), active_only),
    {
        let mut m: BTreeMap<u128, Vec<NoteMeta>> = BTreeMap::new();
        let mut i: usize = 0;
        while i < self.records.len()
            invariant
                i <= self.records.len(),
                forall|p: u128| #[trigger] m@.contains_key(p) <==> replies_to(self.records@, active_only, p, i as int).len() > 0,
                forall|p: u128| #[trigger] m@.contains_key(p) ==> m@[p]@ == replies_to(self.records@, active_only, p, i as int),
            decreases self.records.len() - i,
        {
            let record = &self.records[i];
            let admissible = !active_only || record.state == State::Active;
            match record.meta.reply_to {
                Some(parent) => {
                    if admissible {
                        let key = parent.as_u128();
                        let ghost before = m@;
                        let mut list = match m.remove(&key) {
                            Some(v) => v,
                            None => Vec::new(),
                        };
                        list.push(record.meta.copy());
                        m.insert(key, list);
                        proof {
                            assert forall|p: u128| #[trigger] m@.contains_key(p) <==> replies_to(self.records@, active_only, p, i + 1).len() > 0 by {
                                if p != key {
                                    assert(m@.contains_key(p) == before.contains_key(p));
                                }
                            }
                            assert forall|p: u128| #[trigger] m@.contains_key(p) implies m@[p]@ == replies_to(self.records@, active_only, p, i + 1) by {
                                if p != key {
                                    assert(m@[p] == before[p]);
                                }
                            }
                        }
                    }
                },
                None => {},
            }
            i = i + 1;
        }
        proof {
            assert(reply_lists(m@) =~= reply_map(self.recs(), active_only));
        }
        m
    }

    /// Root to parent of `id`, walking `reply_to` upward. Stops at the first note the vault does
    /// not hold, so a purged ancestor truncates the chain rather than breaking it, and at the
    /// first repeat, so a cycle stops.
    pub fn ancestors(&self, id: NoteId) -> (chain: Vec<NoteMeta>)
        requires
            self.wf(),
        ensures
            is_ancestry(self.recs(), id.spec_value(), chain@),
    {
        let ghost ks = record_ids(self.recs());
        let ghost ps = record_parents(self.recs());
        let ghost s = id.spec_value();
        let mut seen: Vec<u128> = Vec::new();
        seen.push(id.as_u128());
        let mut at: Vec<usize> = Vec::new();
        let mut up: Vec<NoteMeta> = Vec::new();
        let mut current: Option<NoteId> = match self.get(id) {
            Some(r) => r.meta.reply_to,
            None => None,
        };
        proof {
            assert(nth(ks, ps, s, 0) == s);
            if holds(self.recs(), s) {
                let p = lemma_held_at(self.recs(), s);
                lemma_record_of(self.recs(), p);
            }
        }
        loop
            invariant_except_break
                self.wf(),
                ks == record_ids(self.recs()),
                ps == record_parents(self.recs()),
                seen@.len() == up@.len() + 1,
                at@.len() == up@.len(),
                forall|k: int| 0 <= k < seen@.len() ==> #[trigger] seen@[k] == nth(ks, ps, s, k as nat),
                climbs(ks, ps, s, up@.len()),
                forall|k: int|
                    0 <= k < up@.len() ==> #[trigger] up@[k] == record_of(self.recs(), nth(ks, ps, s, (k + 1) as nat)).meta,
                forall|k: int| 0 <= k < at@.len() ==> (#[trigger] at@[k]) < self.recs().len() && record_ids(self.recs())[at@[k] as int] == seen@[k + 1],
                id_value(current) == parent(ks, ps, nth(ks, ps, s, up@.len())),
            ensures
                climbs(ks, ps, s, up@.len()),
                climb_stops(ks, ps, s, up@.len()),
                forall|k: int|
                    0 <= k < up@.len() ==> #[trigger] up@[k] == record_of(self.recs(), nth(ks, ps, s, (k + 1) as nat)).meta,
            decreases self.recs().len() - up@.len(),
        {
            let ghost m = up@.len();
            match current {
                None => {
                    break;
                },
                Some(p) => {
                    proof {
                        assert(nth(ks, ps, s, (m + 1) as nat) == p.spec_value());
                    }
                    if walked_past(&seen, p.as_u128()) {
                        proof {
                            let j = choose|j: int| 0 <= j < seen@.len() && seen@[j] == p.spec_value();
                            assert(nth(ks, ps, s, j as nat) == nth(ks, ps, s, (m + 1) as nat));
                        }
                        break;
                    }
                    match find(&self.records, p.as_u128()) {
                        Err(_) => {
                            break;
                        },
                        Ok(q) => {
                            proof {
                                lemma_record_of(self.recs(), q as int);
                                assert forall|k: int| 0 <= k < at@.len() implies at@[k] != q by {
                                    assert(seen@[k + 1] != p.spec_value());
                                }
                                assert(at@.push(q).no_duplicates()) by {
                                    assert forall|a: int, b: int| 0 <= a < b < at@.len() implies at@[a] != at@[b] by {
                                        assert(seen@[a + 1] != seen@[b + 1]) by {
                                            assert(climbs(ks, ps, s, m));
                                            let kk: nat = (b + 1) as nat;
                                            assert(1 <= kk <= m);
                                            let prev = nth(ks, ps, s, (kk - 1) as nat);
                                            assert(parent(ks, ps, prev) is Some);
                                            let ja = nth(ks, ps, s, (a + 1) as nat);
                                            assert(ja != nth(ks, ps, s, kk));
                                        }
                                    }
                                }
                                lemma_distinct_below_pub(at@.push(q), self.recs().len() as int);
                                assert forall|k: nat| 1 <= k <= m + 1 implies parent(ks, ps, #[trigger] nth(ks, ps, s, (k - 1) as nat)) is Some && ks.contains(
                                    nth(ks, ps, s, k),
                                ) && forall|j: nat| j < k ==> nth(ks, ps, s, j) != nth(ks, ps, s, k) by {
                                    if k == m + 1 {
                                        assert forall|j: nat| j < k implies nth(ks, ps, s, j) != nth(ks, ps, s, k) by {
                                            assert(seen@[j as int] == nth(ks, ps, s, j));
                                        }
                                    }
                                }
                            }
                            let record = &self.records[q];
                            up.push(record.meta.copy());
                            seen.push(p.as_u128());
                            at.push(q);
                            current = record.meta.reply_to;
                        },
                    }
                },
            }
        }
        let mut chain: Vec<NoteMeta> = Vec::new();
        let mut k: usize = up.len();
        while k > 0
            invariant
                k <= up@.len(),
                chain@.len() == up@.len() - k,
                forall|j: int| 0 <= j < chain@.len() ==> #[trigger] chain@[j] == up@[up@.len() - 1 - j],
            decreases k,
        {
            chain.push(up[k - 1].copy());
            k = k - 1;
        }
        proof {
            assert forall|j: int| 0 <= j < chain@.len() implies #[trigger] chain@[j] == record_of(
                self.recs(),
                nth(ks, ps, s, (chain@.len() - j) as nat),
            ).meta by {
                assert(chain@[j] == up@[up@.len() - 1 - j]);
            }
        }
        chain
    }

    /// The thread `id` sits in: its ancestors, and the subtree beneath it. Trashed notes are
    /// included: trash never cascades, so a trashed note in the middle of a chain still holds
    /// the thread together. `None` when the vault holds no note with this id.
    pub fn thread(&self, id: NoteId) -> (t: Option<Thread>)
        requires
            self.wf(),
        ensures
            t is Some == holds(self.recs(), id.spec_value()),
            t matches Some(th) ==> {
                &&& th.focus == id
                &&& is_ancestry(self.recs(), id.spec_value(), th.ancestors@)
                &&& th.tree.note == record_of(self.recs(), id.spec_value()).meta
                &&& tree_ids(th.tree).no_duplicates()
                &&& forall|b: u128|
                    #[trigger] tree_ids(th.tree).contains(b) <==> reaches(
                        reply_map(self.recs(), false),
                        id.spec_value(),
                        b,
                    )
            },
    {
        match self.get(id) {
            Some(focus) => {
                let children = self.children_of(false);
                let ancestors = self.ancestors(id);
                let tree = TreeNode::assemble(focus.meta.copy(), &children);
                Some(Thread { focus: id, ancestors, tree })
            },
            None => None,
        }
    }
}

// =============================================================================================
// Listings
// =============================================================================================

/// Whether `r` is the listing row of `record` among `recs`, with replies and descendants counted
/// over the adjacency map `cm`.
#[verifier::opaque]
pub open spec fn row_of(r: Row, recs: Seq<Record>, record: Record, cm: Map<u128, Seq<NoteMeta>>) -> bool {
    &&& r.note == record.meta
    &&& r.state == record.state
    &&& r.edited_at == record.edited_at
    &&& r.parent == match record.meta.reply_to {
        Some(p) => Some(ref_of(recs, p)),
        None => None,
    }
    &&& r.replies == if cm.contains_key(record.meta.id.spec_value()) {
        cm[record.meta.id.spec_value()].len()
    } else {
        0
    }
    &&& r.descendants + 1 == beneath(cm, record.meta.id.spec_value()).len()
}

/// Whether a record passes a query's date and cursor filters. A note whose id is not a UUIDv7 has
/// no creation time: it cannot satisfy a date filter, and survives an unfiltered query.
pub open spec fn in_window(r: Record, since: Option<i128>, until: Option<i128>, before: Option<NoteId>) -> bool {
    &&& !(before is Some && r.meta.id.spec_value() >= before->0.spec_value())
    &&& match r.meta.created_at {
        None => since is None && until is None,
        Some(t) => (since is None || t >= since->0) && (until is None || t < until->0),
    }
}

/// Whether a note heads a thread: its derived root is itself, or its parent is a note the vault
/// does not hold. The first clause keeps a note in a `reply_to` cycle visible; the second keeps
/// an orphan whose parent was purged visible.
pub open spec fn heads_a_thread(recs: Seq<Record>, r: Record) -> bool {
    id_value(r.meta.root) == Some(r.meta.id.spec_value()) || match r.meta.reply_to {
        None => true,
        Some(p) => !holds(recs, p.spec_value()),
    }
}

/// Whether a record is on the timeline a query asks for.
pub open spec fn on_timeline(recs: Seq<Record>, r: Record, q: TimelineQuery) -> bool {
    &&& r.state == State::Active
    &&& in_window(r, q.since, q.until, q.before)
    &&& (q.flat || heads_a_thread(recs, r))
}

/// The records on the timeline among the last `n` records, newest first.
pub open spec fn timeline_recs(recs: Seq<Record>, q: TimelineQuery, n: int) -> Seq<Record>
    decreases n,
{
    if n <= 0 || n > recs.len() {
        Seq::empty()
    } else if on_timeline(recs, recs[recs.len() - n], q) {
        timeline_recs(recs, q, n - 1).push(recs[recs.len() - n])
    } else {
        timeline_recs(recs, q, n - 1)
    }
}

/// Whether `page` is the timeline page `q` asks for among `recs`: the first `limit` records on
/// it, newest first, and, when more follow, the id of the last row as the cursor.
pub open spec fn is_timeline_page(page: Page<Row>, recs: Seq<Record>, q: TimelineQuery) -> bool {
    let all = timeline_recs(recs, q, recs.len() as int);
    let shown = match q.limit {
        Some(l) => if all.len() > l {
            l as int
        } else {
            all.len() as int
        },
        None => all.len() as int,
    };
    &&& page.items@.len() == shown
    &&& forall|k: int|
        0 <= k < shown ==> row_of(#[trigger] page.items@[k], recs, all[k], reply_map(recs, true))
    &&& page.next == if q.limit is Some && all.len() > q.limit->0 && q.limit->0 > 0 {
        Some(all[q.limit->0 - 1].meta.id)
    } else {
        None::<NoteId>
    }
}

/// The timeline of the first `c` steps is where the whole timeline starts.
proof fn lemma_timeline_prefix(recs: Seq<Record>, q: TimelineQuery, c: int, n: int)
    requires
        0 <= c <= n <= recs.len(),
    ensures
        timeline_recs(recs, q, c).len() <= timeline_recs(recs, q, n).len(),
        forall|k: int|
            0 <= k < timeline_recs(recs, q, c).len() ==> #[trigger] timeline_recs(recs, q, n)[k]
                == timeline_recs(recs, q, c)[k],
    decreases n - c,
{
    if c < n {
        lemma_timeline_prefix(recs, q, c, n - 1);
    }
}

impl Snapshot {
    /// The row for one record, with its reply count, its descendant count, and its parent already
    /// resolved, so a placeholder for a trashed or deleted parent needs no second lookup.
    pub fn row(&self, record: &Record, children: &BTreeMap<u128, Vec<NoteMeta>>) -> (r: Row)
        requires
            self.wf(),
        ensures
            row_of(r, self.recs(), *record, reply_lists(children@)),
    {
        let replies = match children.get(&record.meta.id.as_u128()) {
            Some(list) => list.len(),
            None => 0,
        };
        let tree = TreeNode::assemble(record.meta.copy(), children);
        let nodes = tree.iter();
        proof {
            lemma_assembled_size(reply_lists(children@), tree);
            assert(derefs(nodes@).len() == nodes@.len());
            assert(preorder(tree).len() >= 1);
        }
        let descendants = nodes.len() - 1;
        let parent = match record.meta.reply_to {
            Some(p) => Some(self.reference(p)),
            None => None,
        };
        let r = Row {
            note: record.meta.copy(),
            state: record.state,
            parent,
            replies,
            descendants,
            edited_at: record.edited_at,
        };
        proof {
            reveal(row_of);
        }
        r
    }

    /// Whether a record passes the query's date and cursor filters.
    pub fn in_window(&self, record: &Record, query: &TimelineQuery) -> (b: bool)
        ensures
            b == in_window(*record, query.since, query.until, query.before),
    {
        let past_cursor = match query.before {
            Some(cursor) => record.meta.id.as_u128() >= cursor.as_u128(),
            None => false,
        };
        if past_cursor {
            return false;
        }
        match record.meta.created_at {
            None => query.since.is_none() && query.until.is_none(),
            Some(created) => {
                let after_since = match query.since {
                    Some(since) => created >= since,
                    None => true,
                };
                let before_until = match query.until {
                    Some(until) => created < until,
                    None => true,
                };
                after_since && before_until
            },
        }
    }

    /// Whether this note heads a thread: its derived root is itself, or its parent is a note the
    /// vault does not hold.
    pub fn is_root(&self, record: &Record) -> (b: bool)
        requires
            self.wf(),
        ensures
            b == heads_a_thread(self.recs(), *record),
    {
        let own_root = match record.meta.root {
            Some(r) => r.as_u128() == record.meta.id.as_u128(),
            None => false,
        };
        if own_root {
            return true;
        }
        match record.meta.reply_to {
            None => true,
            Some(parent) => self.get(parent).is_none(),
        }
    }

    /// The timeline: active notes, newest first, thread roots only unless the query is flat. A
    /// note whose parent was purged shows as a root, so nothing present is absent from every
    /// view. With a limit, the cursor is the last id on the page, and `before` is strict, so the
    /// next page resumes at exactly the record that did not fit.
    pub fn timeline(&self, query: &TimelineQuery) -> (page: Page<Row>)
        requires
            self.wf(),
        ensures
            is_timeline_page(page, self.recs(), *query),
    {
        let children = self.children_of(true);
        let ghost recs = self.recs();
        let ghost cm = reply_lists(children@);
        let n = self.records.len();
        let mut items: Vec<Row> = Vec::new();
        let mut i: usize = n;
        while i > 0
            invariant
                self.wf(),
                recs == self.recs(),
                n == recs.len(),
                cm == reply_lists(children@),
                cm == reply_map(recs, true),
                i <= n,
                items@.len() == timeline_recs(recs, *query, (n - i) as int).len(),
                query.limit matches Some(l) ==> items@.len() <= l,
                forall|k: int|
                    0 <= k < items@.len() ==> row_of(#[trigger] items@[k], recs, timeline_recs(recs, *query, (n - i) as int)[k], cm),
            decreases i,
        {
            let record = &self.records[i - 1];
            let ghost c = (n - i) as int;
            proof {
                assert(recs[recs.len() - (c + 1)] == *record);
            }
            let eligible = record.state == State::Active && self.in_window(record, query) && (
            query.flat || self.is_root(record));
            if eligible {
                let full = match query.limit {
                    Some(limit) => items.len() >= limit,
                    None => false,
                };
                if full {
                    let next = if items.len() > 0 {
                        Some(items[items.len() - 1].note.id)
                    } else {
                        None
                    };
                    proof {
                        lemma_timeline_prefix(recs, *query, c + 1, n as int);
                        let all = timeline_recs(recs, *query, n as int);
                        assert(timeline_recs(recs, *query, c + 1).len() == items@.len() + 1);
                        assert(all.len() > query.limit->0);
                        assert forall|k: int| 0 <= k < items@.len() implies row_of(#[trigger] items@[k], recs, all[k], cm) by {
                            lemma_timeline_prefix(recs, *query, c, n as int);
                        }
                        if items@.len() > 0 {
                            lemma_timeline_prefix(recs, *query, c, n as int);
                            let last = items@.len() - 1;
                            lemma_row_note(items@[last], recs, timeline_recs(recs, *query, c)[last], cm);
                            assert(items@[items@.len() - 1].note == all[query.limit->0 - 1].meta);
                        }
                    }
                    return Page { items, next };
                }
                let row = self.row(record, &children);
                items.push(row);
            }
            i = i - 1;
        }
        proof {
            assert(timeline_recs(recs, *query, n as int).len() == items@.len());
        }
        Page { items, next: None }
    }
}

// =============================================================================================
// Sorted listings
// =============================================================================================

/// What a listing sorts a row by: its mtime, its lowercased title, its id.
pub open spec fn row_key(r: Row) -> (Option<i128>, Option<Seq<char>>, u128) {
    (
        r.edited_at,
        match r.note.title {
            Some(t) => Some(lowercase_text(t@)),
            None => None,
        },
        r.note.id.spec_value(),
    )
}

/// Whether mtime `a` is later than `b`; a missing mtime is earliest.
pub open spec fn later(a: Option<i128>, b: Option<i128>) -> bool {
    match (a, b) {
        (Some(x), Some(y)) => x > y,
        (Some(_), None) => true,
        _ => false,
    }
}

/// Whether a row with key `a` is listed before one with key `b` under `sort`: newest or oldest
/// id first; most recently edited first, ties newest id first; or by lowercased title with
/// untitled notes last, ties oldest id first.
pub open spec fn precedes(sort: FileSort, a: (Option<i128>, Option<Seq<char>>, u128), b: (Option<i128>, Option<Seq<char>>, u128)) -> bool {
    match sort {
        FileSort::Created => a.2 > b.2,
        FileSort::CreatedAsc => a.2 < b.2,
        FileSort::Edited => later(a.0, b.0) || (a.0 == b.0 && a.2 > b.2),
        FileSort::Title => match (a.1, b.1) {
            (Some(x), Some(y)) => text_lt(x, y, false) || (x == y && a.2 < b.2),
            (Some(_), None) => true,
            (None, Some(_)) => false,
            (None, None) => a.2 < b.2,
        },
    }
}

/// The listing order is transitive.
proof fn lemma_precedes_transitive(
    sort: FileSort,
    a: (Option<i128>, Option<Seq<char>>, u128),
    b: (Option<i128>, Option<Seq<char>>, u128),
    c: (Option<i128>, Option<Seq<char>>, u128),
)
    requires
        precedes(sort, a, b),
        precedes(sort, b, c),
    ensures
        precedes(sort, a, c),
{
    if sort == FileSort::Title {
        if a.1 is Some && b.1 is Some && c.1 is Some {
            let (x, y, z) = (a.1->0, b.1->0, c.1->0);
            if text_lt(x, y, false) && text_lt(y, z, false) {
                lemma_text_lt_transitive(x, y, z, false);
            }
        }
    }
}

/// Two keys with different ids are listed one way or the other, and never both.
proof fn lemma_precedes_total(
    sort: FileSort,
    a: (Option<i128>, Option<Seq<char>>, u128),
    b: (Option<i128>, Option<Seq<char>>, u128),
)
    requires
        a.2 != b.2,
    ensures
        precedes(sort, a, b) || precedes(sort, b, a),
        !(precedes(sort, a, b) && precedes(sort, b, a)),
{
    if sort == FileSort::Title && a.1 is Some && b.1 is Some {
        let (x, y) = (a.1->0, b.1->0);
        if x != y {
            lemma_text_lt_total(x, y, false);
        }
        if text_lt(x, y, false) {
            lemma_text_lt_asymmetric(x, y, false);
        }
        if text_lt(x, y, false) && x == y {
            lemma_text_lt_irreflexive(x, false);
        }
        if text_lt(y, x, false) && x == y {
            lemma_text_lt_irreflexive(x, false);
        }
    }
}

/// Whether rows are in strictly increasing listing order.
#[verifier::opaque]
pub open spec fn sorted_by(sort: FileSort, rows: Seq<Row>) -> bool {
    forall|a: int, b: int| 0 <= a < b < rows.len() ==> precedes(sort, row_key(#[trigger] rows[a]), row_key(#[trigger] rows[b]))
}

/// The lowercased title a row sorts by.
fn title_key(r: &Row) -> (k: Option<String>)
    ensures
        k matches Some(x) ==> row_key(*r).1 == Some(x@),
        k is None ==> row_key(*r).1 is None,
{
    match &r.note.title {
        Some(t) => Some(to_lowercase(t.as_str())),
        None => None,
    }
}

/// Whether a row with key `(ea, ta, ia)` is listed before one with key `(eb, tb, ib)`.
fn listed_before(sort: FileSort, ea: Option<i128>, ta: &Option<String>, ia: u128, eb: Option<i128>, tb: &Option<String>, ib: u128) -> (r: bool)
    ensures
        r == precedes(sort, (ea, opt_text(*ta), ia), (eb, opt_text(*tb), ib)),
{
    match sort {
        FileSort::Created => ia > ib,
        FileSort::CreatedAsc => ia < ib,
        FileSort::Edited => {
            let later_edit = match (ea, eb) {
                (Some(x), Some(y)) => x > y,
                (Some(_), None) => true,
                _ => false,
            };
            let same_edit = match (ea, eb) {
                (Some(x), Some(y)) => x == y,
                (None, None) => true,
                _ => false,
            };
            later_edit || (same_edit && ia > ib)
        },
        FileSort::Title => match (ta, tb) {
            (Some(x), Some(y)) => text_less(x.as_str(), y.as_str(), false) || (crate::text::str_eq(
                x.as_str(),
                y.as_str(),
            ) && ia < ib),
            (Some(_), None) => true,
            (None, Some(_)) => false,
            (None, None) => ia < ib,
        },
    }
}

/// Whether every row of `a` is among the first `n` of `b`.
#[verifier::opaque]
pub open spec fn drawn_from(a: Seq<Row>, b: Seq<Row>, n: int) -> bool {
    forall|k: int| 0 <= k < a.len() ==> exists|j: int| 0 <= j < n && #[trigger] a[k] == #[trigger] b[j]
}

/// Whether each of the first `n` rows of `b` is in `a`.
#[verifier::opaque]
pub open spec fn holds_all(a: Seq<Row>, b: Seq<Row>, n: int) -> bool {
    forall|j: int| 0 <= j < n ==> exists|k: int| 0 <= k < a.len() && #[trigger] a[k] == #[trigger] b[j]
}

/// Inserting a row in its place keeps the listing order.
proof fn lemma_insert_sorted(sort: FileSort, before: Seq<Row>, r: Row, j: int)
    requires
        sorted_by(sort, before),
        0 <= j <= before.len(),
        forall|a: int| 0 <= a < before.len() ==> row_key(#[trigger] before[a]).2 != row_key(r).2,
        forall|a: int| 0 <= a < j ==> !precedes(sort, row_key(r), row_key(#[trigger] before[a])),
        j < before.len() ==> precedes(sort, row_key(r), row_key(before[j])),
    ensures
        sorted_by(sort, before.insert(j, r)),
{
    reveal(sorted_by);
    assert forall|a: int| 0 <= a < j implies precedes(sort, row_key(#[trigger] before[a]), row_key(r)) by {
        lemma_precedes_total(sort, row_key(before[a]), row_key(r));
    }
    assert forall|a: int| j <= a < before.len() implies precedes(sort, row_key(r), row_key(#[trigger] before[a])) by {
        if a > j {
            lemma_precedes_transitive(sort, row_key(r), row_key(before[j]), row_key(before[a]));
        }
    }
    let now = before.insert(j, r);
    assert forall|a: int, b: int| 0 <= a < b < now.len() implies precedes(sort, row_key(#[trigger] now[a]), row_key(#[trigger] now[b])) by {
        if a < j && b > j {
            assert(now[a] == before[a] && now[b] == before[b - 1]);
            lemma_precedes_transitive(sort, row_key(now[a]), row_key(r), row_key(now[b]));
        } else if a < j && b < j {
            assert(now[a] == before[a] && now[b] == before[b]);
        } else if a > j {
            assert(now[a] == before[a - 1] && now[b] == before[b - 1]);
        } else if a < j && b == j {
            assert(now[a] == before[a]);
        } else {
            assert(now[b] == before[b - 1]);
        }
    }
}

/// Inserting the next input row keeps every input taken so far among the placed rows.
#[verifier::spinoff_prover]
proof fn lemma_insert_holds(before: Seq<Row>, r: Row, j: int, input: Seq<Row>, i: int)
    requires
        0 <= j <= before.len(),
        0 <= i < input.len(),
        input[i] == r,
        holds_all(before, input, i),
    ensures
        holds_all(before.insert(j, r), input, i + 1),
{
    reveal(holds_all);
    let now = before.insert(j, r);
    assert forall|jj: int| 0 <= jj < i + 1 implies exists|k: int| 0 <= k < now.len() && #[trigger] now[k] == #[trigger] input[jj] by {
        if jj == i {
            assert(now[j] == input[jj]);
        } else {
            let k = choose|k: int| 0 <= k < before.len() && #[trigger] before[k] == #[trigger] input[jj];
            if k < j {
                assert(now[k] == input[jj]);
            } else {
                assert(now[k + 1] == input[jj]);
            }
        }
    }
}

/// Inserting the next input row keeps every placed row among the inputs taken so far.
#[verifier::spinoff_prover]
proof fn lemma_insert_drawn(before: Seq<Row>, r: Row, j: int, input: Seq<Row>, i: int)
    requires
        0 <= j <= before.len(),
        0 <= i < input.len(),
        input[i] == r,
        drawn_from(before, input, i),
    ensures
        drawn_from(before.insert(j, r), input, i + 1),
{
    reveal(drawn_from);
    let now = before.insert(j, r);
    assert forall|k: int| 0 <= k < now.len() implies exists|jj: int| 0 <= jj < i + 1 && #[trigger] now[k] == #[trigger] input[jj] by {
        if k == j {
            assert(now[k] == input[i]);
        } else {
            let k0 = if k < j {
                k
            } else {
                k - 1
            };
            assert(now[k] == before[k0]);
            let jj = choose|jj: int| 0 <= jj < i && #[trigger] before[k0] == #[trigger] input[jj];
            assert(now[k] == input[jj]);
        }
    }
}

/// Inserting the next input row keeps the placed rows exactly the inputs taken so far.
proof fn lemma_insert_members(before: Seq<Row>, r: Row, j: int, input: Seq<Row>, i: int)
    requires
        0 <= j <= before.len(),
        0 <= i < input.len(),
        input[i] == r,
        holds_all(before, input, i),
        drawn_from(before, input, i),
    ensures
        holds_all(before.insert(j, r), input, i + 1),
        drawn_from(before.insert(j, r), input, i + 1),
{
    lemma_insert_holds(before, r, j, input, i);
    lemma_insert_drawn(before, r, j, input, i);
}

/// Insert `r` among `out`, sorted, at its place in listing order.
fn place_row(out: &mut Vec<Row>, keys: &mut Vec<Option<String>>, r: Row, sort: FileSort)
    requires
        old(out)@.len() == old(keys)@.len(),
        forall|k: int| 0 <= k < old(keys)@.len() ==> opt_text(#[trigger] old(keys)@[k]) == row_key(old(out)@[k]).1,
        sorted_by(sort, old(out)@),
        forall|a: int| 0 <= a < old(out)@.len() ==> row_key(#[trigger] old(out)@[a]).2 != row_key(r).2,
    ensures
        final(out)@.len() == final(keys)@.len(),
        forall|k: int| 0 <= k < final(keys)@.len() ==> opt_text(#[trigger] final(keys)@[k]) == row_key(final(out)@[k]).1,
        sorted_by(sort, final(out)@),
        exists|j: int| 0 <= j <= old(out)@.len() && final(out)@ == old(out)@.insert(j, r),
{
    let tk = title_key(&r);
    let mut j: usize = 0;
    while j < out.len() && !listed_before(
        sort,
        r.edited_at,
        &tk,
        r.note.id.as_u128(),
        out[j].edited_at,
        &keys[j],
        out[j].note.id.as_u128(),
    )
        invariant
            j <= out.len() == keys.len(),
            forall|k: int| 0 <= k < keys@.len() ==> opt_text(#[trigger] keys@[k]) == row_key(out@[k]).1,
            opt_text(tk) == row_key(r).1,
            forall|a: int| 0 <= a < j ==> !precedes(sort, row_key(r), row_key(#[trigger] out@[a])),
        decreases out.len() - j,
    {
        j = j + 1;
    }
    let ghost before = out@;
    proof {
        lemma_insert_sorted(sort, before, r, j as int);
    }
    out.insert(j, r);
    keys.insert(j, tk);
    proof {
        assert(out@ =~= before.insert(j as int, r));
        assert forall|k: int| 0 <= k < keys@.len() implies opt_text(#[trigger] keys@[k]) == row_key(out@[k]).1 by {
            if k > j {
                assert(out@[k] == before[k - 1]);
            }
        }
    }
}

/// `rows` in listing order. Rows with distinct ids have exactly one such order.
fn sort_rows(rows: Vec<Row>, sort: FileSort) -> (out: Vec<Row>)
    requires
        forall|a: int, b: int| 0 <= a < b < rows@.len() ==> (#[trigger] rows@[a]).note.id.spec_value() != (#[trigger] rows@[b]).note.id.spec_value(),
    ensures
        out@.len() == rows@.len(),
        sorted_by(sort, out@),
        holds_all(out@, rows@, rows@.len() as int),
        drawn_from(out@, rows@, rows@.len() as int),
{
    let ghost input = rows@;
    let mut keys: Vec<Option<String>> = Vec::new();
    let mut out: Vec<Row> = Vec::new();
    let mut rest = rows;
    let mut taken: Vec<Row> = Vec::new();
    while rest.len() > 0
        invariant
            rest@ + taken@.reverse() == input,
        decreases rest.len(),
    {
        let ghost br = rest@;
        let ghost bt = taken@;
        let r = rest.pop().unwrap();
        taken.push(r);
        proof {
            assert(taken@.reverse() =~= seq![r] + bt.reverse());
            assert(br =~= rest@.push(r));
            assert(rest@ + taken@.reverse() =~= br + bt.reverse());
        }
    }
    assert(taken@.reverse() =~= input);
    proof {
        reveal(sorted_by);
        reveal(holds_all);
        reveal(drawn_from);
    }
    let mut i: usize = 0;
    let n = taken.len();
    while taken.len() > 0
        invariant
            n == input.len(),
            taken@.reverse() == input.skip(i as int),
            i <= n,
            out@.len() == i,
            keys@.len() == i,
            forall|k: int| 0 <= k < i ==> opt_text(#[trigger] keys@[k]) == row_key(out@[k]).1,
            sorted_by(sort, out@),
            forall|a: int, b: int| 0 <= a < b < input.len() ==> (#[trigger] input[a]).note.id.spec_value() != (#[trigger] input[b]).note.id.spec_value(),
            holds_all(out@, input, i as int),
            drawn_from(out@, input, i as int),
        decreases taken.len(),
    {
        let ghost bt = taken@;
        let r = taken.pop().unwrap();
        let ghost before = out@;
        proof {
            assert(bt.reverse().len() > 0);
            assert(i < n);
            assert(bt.reverse()[0] == r);
            assert(input.skip(i as int)[0] == input[i as int]);
            assert(taken@.reverse() =~= bt.reverse().drop_first());
            assert(input.skip(i as int + 1) =~= input.skip(i as int).drop_first());
            reveal(drawn_from);
            assert forall|a: int| 0 <= a < before.len() implies row_key(#[trigger] before[a]).2 != row_key(r).2 by {
                let q = choose|q: int| 0 <= q < i && #[trigger] before[a] == #[trigger] input[q];
            }
        }
        place_row(&mut out, &mut keys, r, sort);
        proof {
            let j = choose|j: int| 0 <= j <= before.len() && out@ == before.insert(j, r);
            lemma_insert_members(before, r, j, input, i as int);
        }
        i = i + 1;
    }
    out
}

/// Whether `r` is the row of a record in `state`.
pub open spec fn row_of_some(r: Row, recs: Seq<Record>, state: State, cm: Map<u128, Seq<NoteMeta>>) -> bool {
    exists|p: int| #![trigger recs[p]] 0 <= p < recs.len() && recs[p].state == state && row_of(r, recs, recs[p], cm)
}

/// Whether `rows` holds the row of record `p`.
pub open spec fn has_row_of(rows: Seq<Row>, recs: Seq<Record>, p: int, cm: Map<u128, Seq<NoteMeta>>) -> bool {
    exists|k: int| #![trigger rows[k]] 0 <= k < rows.len() && row_of(rows[k], recs, recs[p], cm)
}

/// Whether `rows` lists every record in `state`, one row each, in listing order.
pub open spec fn is_listing(rows: Seq<Row>, recs: Seq<Record>, state: State, sort: FileSort, cm: Map<u128, Seq<NoteMeta>>) -> bool {
    &&& sorted_by(sort, rows)
    &&& forall|p: int| 0 <= p < recs.len() && recs[p].state == state ==> #[trigger] has_row_of(rows, recs, p, cm)
    &&& forall|k: int| 0 <= k < rows.len() ==> #[trigger] row_of_some(rows[k], recs, state, cm)
}

/// What a search matches titles against: the query text trimmed and lowercased.
pub open spec fn search_needle(q: SearchQuery) -> Seq<char> {
    lowercase_text(trimmed(q.text@))
}

/// Whether a search finds a record: in a state it searches, in its date window, and, unless the
/// query is blank, with a title containing the needle case-insensitively. Bodies are not searched.
pub open spec fn found_by(r: Record, q: SearchQuery) -> bool {
    &&& (q.include_trashed || r.state == State::Active)
    &&& in_window(r, q.since, q.until, None)
    &&& (search_needle(q).len() == 0 || (r.meta.title is Some && contains_text(
        lowercase_text(r.meta.title->0@),
        search_needle(q),
    )))
}

/// The records a search finds among the last `n` records, newest first.
pub open spec fn search_recs(recs: Seq<Record>, q: SearchQuery, n: int) -> Seq<Record>
    decreases n,
{
    if n <= 0 || n > recs.len() {
        Seq::empty()
    } else if found_by(recs[recs.len() - n], q) {
        search_recs(recs, q, n - 1).push(recs[recs.len() - n])
    } else {
        search_recs(recs, q, n - 1)
    }
}

/// Every record in `state` has its row among the sorted rows.
proof fn lemma_listing_covers(
    out: Seq<Row>,
    input: Seq<Row>,
    which: Seq<int>,
    recs: Seq<Record>,
    state: State,
    cm: Map<u128, Seq<NoteMeta>>,
)
    requires
        holds_all(out, input, input.len() as int),
        input.len() == which.len(),
        forall|k: int| 0 <= k < input.len() ==> 0 <= #[trigger] which[k] < recs.len()
            && row_of(input[k], recs, recs[which[k]], cm),
        forall|p: int| 0 <= p < recs.len() && (#[trigger] recs[p]).state == state ==> exists|k: int|
            0 <= k < which.len() && #[trigger] which[k] == p,
    ensures
        forall|p: int| 0 <= p < recs.len() && recs[p].state == state ==> #[trigger] has_row_of(out, recs, p, cm),
{
    reveal(holds_all);
    assert forall|p: int| 0 <= p < recs.len() && recs[p].state == state implies #[trigger] has_row_of(out, recs, p, cm) by {
        let j = choose|j: int| 0 <= j < which.len() && #[trigger] which[j] == p;
        let k = choose|k: int| 0 <= k < out.len() && #[trigger] out[k] == #[trigger] input[j];
        assert(row_of(input[j], recs, recs[which[j]], cm));
        assert(row_of(out[k], recs, recs[p], cm));
    }
}

/// Every sorted row is the row of a record in `state`.
proof fn lemma_listing_drawn(
    out: Seq<Row>,
    input: Seq<Row>,
    which: Seq<int>,
    recs: Seq<Record>,
    state: State,
    cm: Map<u128, Seq<NoteMeta>>,
)
    requires
        drawn_from(out, input, input.len() as int),
        input.len() == which.len(),
        forall|k: int| 0 <= k < input.len() ==> 0 <= #[trigger] which[k] < recs.len()
            && recs[which[k]].state == state && row_of(input[k], recs, recs[which[k]], cm),
    ensures
        forall|k: int| 0 <= k < out.len() ==> #[trigger] row_of_some(out[k], recs, state, cm),
{
    reveal(drawn_from);
    assert forall|k: int| 0 <= k < out.len() implies #[trigger] row_of_some(out[k], recs, state, cm) by {
        let j = choose|j: int| 0 <= j < input.len() && #[trigger] out[k] == #[trigger] input[j];
        let p = which[j];
        assert(0 <= p < recs.len());
        assert(recs[p].state == state && row_of(input[j], recs, recs[p], cm));
        assert(row_of(out[k], recs, recs[p], cm));
    }
}

/// The rows of distinct records, taken in increasing position, have distinct ids.
proof fn lemma_rows_distinct(rows: Seq<Row>, which: Seq<int>, recs: Seq<Record>, cm: Map<u128, Seq<NoteMeta>>)
    requires
        increasing(record_ids(recs)),
        rows.len() == which.len(),
        forall|k: int| 0 <= k < rows.len() ==> 0 <= #[trigger] which[k] < recs.len()
            && row_of(rows[k], recs, recs[which[k]], cm),
        forall|a: int, b: int| 0 <= a < b < which.len() ==> (#[trigger] which[a]) < (#[trigger] which[b]),
    ensures
        forall|a: int, b: int| 0 <= a < b < rows.len() ==> (#[trigger] rows[a]).note.id.spec_value() != (#[trigger] rows[b]).note.id.spec_value(),
{
    assert forall|a: int, b: int| 0 <= a < b < rows.len() implies (#[trigger] rows[a]).note.id.spec_value() != (#[trigger] rows[b]).note.id.spec_value() by {
        assert(which[a] < which[b]);
        assert(record_ids(recs)[which[a]] < record_ids(recs)[which[b]]);
        lemma_row_note(rows[a], recs, recs[which[a]], cm);
        lemma_row_note(rows[b], recs, recs[which[b]], cm);
    }
}

/// What a row says of its record's note.
pub proof fn lemma_row_note(r: Row, recs: Seq<Record>, record: Record, cm: Map<u128, Seq<NoteMeta>>)
    requires
        row_of(r, recs, record, cm),
    ensures
        r.note == record.meta,
        r.state == record.state,
        r.edited_at == record.edited_at,
{
    reveal(row_of);
}

impl Snapshot {
    /// The rows of every record in `state`, in id order, and which record each is the row of.
    fn rows_in(&self, state: State, children: &BTreeMap<u128, Vec<NoteMeta>>) -> (out: (Vec<Row>, Ghost<Seq<int>>))
        requires
            self.wf(),
        ensures
            out.0@.len() == out.1@.len(),
            forall|k: int| 0 <= k < out.0@.len() ==> 0 <= #[trigger] out.1@[k] < self.recs().len()
                && self.recs()[out.1@[k]].state == state
                && row_of(out.0@[k], self.recs(), self.recs()[out.1@[k]], reply_lists(children@)),
            forall|a: int, b: int| 0 <= a < b < out.1@.len() ==> (#[trigger] out.1@[a]) < (#[trigger] out.1@[b]),
            forall|p: int| 0 <= p < self.recs().len() && (#[trigger] self.recs()[p]).state == state ==> exists|k: int|
                0 <= k < out.1@.len() && #[trigger] out.1@[k] == p,
    {
        let mut rows: Vec<Row> = Vec::new();
        let ghost mut which: Seq<int> = Seq::empty();
        let mut i: usize = 0;
        while i < self.records.len()
            invariant
                self.wf(),
                i <= self.records.len(),
                rows@.len() == which.len(),
                forall|k: int| 0 <= k < rows@.len() ==> 0 <= #[trigger] which[k] < i
                    && self.recs()[which[k]].state == state
                    && row_of(rows@[k], self.recs(), self.recs()[which[k]], reply_lists(children@)),
                forall|a: int, b: int| 0 <= a < b < which.len() ==> (#[trigger] which[a]) < (#[trigger] which[b]),
                forall|p: int| 0 <= p < i && (#[trigger] self.recs()[p]).state == state ==> exists|k: int|
                    0 <= k < which.len() && #[trigger] which[k] == p,
            decreases self.records.len() - i,
        {
            let record = &self.records[i];
            if record.state == state {
                let row = self.row(record, children);
                rows.push(row);
                proof {
                    let before = which;
                    which = which.push(i as int);
                    assert(which[which.len() - 1] == i);
                    assert forall|p: int| 0 <= p < i + 1 && (#[trigger] self.recs()[p]).state == state implies exists|k: int|
                        0 <= k < which.len() && #[trigger] which[k] == p by {
                        if p < i {
                            let k = choose|k: int| 0 <= k < before.len() && #[trigger] before[k] == p;
                            assert(which[k] == p);
                        }
                    }
                }
            }
            i = i + 1;
        }
        (rows, Ghost(which))
    }

    /// A sorted listing of the records in `state`.
    fn listing(&self, state: State, sort: FileSort, active_only: bool) -> (rows: Vec<Row>)
        requires
            self.wf(),
        ensures
            is_listing(rows@, self.recs(), state, sort, reply_map(self.recs(), active_only)),
    {
        let children = self.children_of(active_only);
        let (rows, Ghost(which)) = self.rows_in(state, &children);
        let ghost recs = self.recs();
        let ghost cm = reply_map(recs, active_only);
        proof {
            lemma_rows_distinct(rows@, which, recs, cm);
        }
        let ghost input = rows@;
        let out = sort_rows(rows, sort);
        proof {
            lemma_listing_covers(out@, input, which, recs, state, cm);
            lemma_listing_drawn(out@, input, which, recs, state, cm);
        }
        out
    }

    /// Every active note as a flat listing, in the requested order.
    pub fn files(&self, sort: FileSort) -> (rows: Vec<Row>)
        requires
            self.wf(),
        ensures
            is_listing(rows@, self.recs(), State::Active, sort, reply_map(self.recs(), true)),
    {
        self.listing(State::Active, sort, true)
    }

    /// Everything in the trash, most recently trashed first: a trashed file's mtime is when it
    /// was moved.
    pub fn trashed(&self) -> (rows: Vec<Row>)
        requires
            self.wf(),
        ensures
            is_listing(rows@, self.recs(), State::Trashed, FileSort::Edited, reply_map(self.recs(), false)),
    {
        self.listing(State::Trashed, FileSort::Edited, false)
    }

    /// Title-and-metadata search, newest first.
    pub fn search(&self, query: &SearchQuery) -> (rows: Vec<Row>)
        requires
            self.wf(),
        ensures
            rows@.len() == search_recs(self.recs(), *query, self.recs().len() as int).len(),
            forall|k: int|
                0 <= k < rows@.len() ==> row_of(
                    #[trigger] rows@[k],
                    self.recs(),
                    search_recs(self.recs(), *query, self.recs().len() as int)[k],
                    reply_map(self.recs(), false),
                ),
    {
        let trimmed_text = trim(query.text.as_str());
        let needle = to_lowercase(trimmed_text);
        let children = self.children_of(false);
        let window = TimelineQuery { flat: false, since: query.since, until: query.until, limit: None, before: None };
        let ghost recs = self.recs();
        let n = self.records.len();
        let mut rows: Vec<Row> = Vec::new();
        let mut i: usize = n;
        while i > 0
            invariant
                self.wf(),
                recs == self.recs(),
                n == recs.len(),
                needle@ == search_needle(*query),
                window.since == query.since,
                window.until == query.until,
                window.before is None,
                reply_lists(children@) == reply_map(recs, false),
                i <= n,
                rows@.len() == search_recs(recs, *query, (n - i) as int).len(),
                forall|k: int|
                    0 <= k < rows@.len() ==> row_of(#[trigger] rows@[k], recs, search_recs(recs, *query, (n - i) as int)[k], reply_map(recs, false)),
            decreases i,
        {
            let record = &self.records[i - 1];
            let ghost c = (n - i) as int;
            proof {
                assert(recs[recs.len() - (c + 1)] == *record);
            }
            let state_ok = query.include_trashed || record.state == State::Active;
            let title_ok = if needle.unicode_len() == 0 {
                true
            } else {
                match &record.meta.title {
                    Some(title) => {
                        let lowered = to_lowercase(title.as_str());
                        text_contains(lowered.as_str(), needle.as_str())
                    },
                    None => false,
                }
            };
            if state_ok && self.in_window(record, &window) && title_ok {
                let row = self.row(record, &children);
                rows.push(row);
            }
            i = i - 1;
        }
        rows
    }
}

// =============================================================================================
// Reading one file into a record
// =============================================================================================

/// The names among `us` that `schema` does not declare, in order.
pub open spec fn undeclared_names(us: Seq<(Seq<char>, Seq<char>)>, schema: Seq<EntryView>) -> Seq<Seq<char>>
    decreases us.len(),
{
    if us.len() == 0 {
        Seq::empty()
    } else if first_with_key(schema, us.last().0, 0, schema.len() as int) is Some {
        undeclared_names(us.drop_last(), schema)
    } else {
        undeclared_names(us.drop_last(), schema).push(us.last().0)
    }
}

/// Whether `rec` is the record of note `id`, parsed into `fm` and `body`, read from `path` in
/// `state` with mtime `edited_at`: its root left for the vault to derive.
pub open spec fn record_from(
    rec: Record,
    fm: FrontmatterView,
    body: Seq<char>,
    id: u128,
    path: Seq<char>,
    state: State,
    edited_at: Option<i128>,
    schema: Seq<EntryView>,
) -> bool {
    &&& rec.meta.id.spec_value() == id
    &&& rec.meta.created_at == v7_created_at(id)
    &&& opt_text(rec.meta.title) == fm.title
    &&& rec.meta.root is None
    &&& id_value(rec.meta.reply_to) == fm.reply_to
    &&& id_value(rec.meta.quote) == fm.quote
    &&& rec.path@ == path
    &&& rec.state == state
    &&& rec.edited_at == edited_at
    &&& id_values(rec.links@) == first_appearances(link_targets(body_links(body)))
    &&& texts(rec.undeclared@) == undeclared_names(fm.unknown, schema)
}

/// Whether `r` is what reading `bytes` from `path` in `state`, with mtime `edited_at`, gives
/// under `schema`: a filename that is no note's is refused naming the path; otherwise the
/// note's parse, as a record, or the error parsing it raised.
pub open spec fn reads_as(
    schema: Seq<EntryView>,
    path: Seq<char>,
    state: State,
    edited_at: Option<i128>,
    bytes: Seq<u8>,
    r: Result<Record, Error>,
) -> bool {
    &&& path_note_id(path) is None ==> (r matches Err(Error::InvalidNoteFilename { path: p })
        && p@ == path)
    &&& path_note_id(path) is Some ==> match r {
        Ok(rec) => exists|fm: Frontmatter, body: String|
            parsed_as(Ok((fm, body)), schema, path, bytes) && record_from(
                rec,
                fm@,
                body@,
                path_note_id(path)->0,
                path,
                state,
                edited_at,
                schema,
            ),
        Err(e) => parsed_as(Err(e), schema, path, bytes),
    }
}

/// One note's bytes as a [`Record`]: the note parsed under `schema` from `path`, its links
/// deduplicated into the edge set, and the frontmatter keys it carries that the schema does not
/// declare. Errors are what parsing the note raises, naming `path`.
pub fn record_at(
    schema: &FrontmatterSchema,
    path: &str,
    state: State,
    edited_at: Option<i128>,
    bytes: &[u8],
) -> (r: Result<Record, Error>)
    ensures
        reads_as(schema@, path@, state, edited_at, bytes@, r),
{
    let note = match Note::parse_at_under(schema, path, bytes) {
        Ok(n) => n,
        Err(e) => {
            return Err(e);
        },
    };
    let unknown = note.frontmatter.unknown();
    let mut undeclared: Vec<String> = Vec::new();
    let mut i: usize = 0;
    let ghost us = note.frontmatter@.unknown;
    proof {
        assert(us.take(0) =~= Seq::<(Seq<char>, Seq<char>)>::empty());
    }
    while i < unknown.len()
        invariant
            i <= unknown.len(),
            unknown_pairs(unknown@) == us,
            texts(undeclared@) == undeclared_names(us.take(i as int), schema@),
        decreases unknown.len() - i,
    {
        let name = unknown[i].name();
        proof {
            assert(us.take(i + 1).drop_last() =~= us.take(i as int));
            assert(us[i as int].0 == name@);
        }
        let ghost before = undeclared@;
        if !schema.contains(name) {
            undeclared.push(name.to_owned());
            assert(texts(undeclared@) =~= texts(before).push(name@));
        }
        i = i + 1;
    }
    proof {
        assert(us.take(unknown@.len() as int) =~= us);
    }
    let meta = note.meta();
    let links = distinct_targets(note.body.as_str());
    let path_text = path.to_owned();
    let rec = Record { meta, path: path_text, state, edited_at, links, undeclared };
    proof {
        let v = path_note_id(path@)->0;
        assert(parsed_as(Ok((note.frontmatter, note.body)), schema@, path@, bytes@));
        assert(record_from(rec, note.frontmatter@, note.body@, v, path@, state, edited_at, schema@));
        assert(exists|fm: Frontmatter, body: String|
            parsed_as(Ok((fm, body)), schema@, path@, bytes@) && record_from(
                rec,
                fm@,
                body@,
                v,
                path@,
                state,
                edited_at,
                schema@,
            ));
    }
    Ok(rec)
}

// =============================================================================================
// Paging
// =============================================================================================

/// The records of `s` whose id is below `c`, in order.
pub open spec fn ids_below(s: Seq<Record>, c: u128) -> Seq<Record>
    decreases s.len(),
{
    if s.len() == 0 {
        Seq::empty()
    } else if s.last().meta.id.spec_value() < c {
        ids_below(s.drop_last(), c).push(s.last())
    } else {
        ids_below(s.drop_last(), c)
    }
}

/// The timeline runs newest first: its ids strictly decrease.
proof fn lemma_timeline_decreasing(recs: Seq<Record>, q: TimelineQuery, n: int)
    requires
        increasing(record_ids(recs)),
        0 <= n <= recs.len(),
    ensures
        forall|a: int, b: int|
            0 <= a < b < timeline_recs(recs, q, n).len() ==> (#[trigger] timeline_recs(recs, q, n)[a]).meta.id.spec_value()
                > (#[trigger] timeline_recs(recs, q, n)[b]).meta.id.spec_value(),
        forall|a: int|
            0 <= a < timeline_recs(recs, q, n).len() ==> exists|p: int|
                recs.len() - n <= p < recs.len() && #[trigger] timeline_recs(recs, q, n)[a] == recs[p],
        forall|a: int|
            0 <= a < timeline_recs(recs, q, n).len() ==> on_timeline(recs, #[trigger] timeline_recs(recs, q, n)[a], q),
    decreases n,
{
    if n > 0 {
        lemma_timeline_decreasing(recs, q, n - 1);
        let prev = timeline_recs(recs, q, n - 1);
        let now = timeline_recs(recs, q, n);
        let x = recs[recs.len() - n];
        if on_timeline(recs, x, q) {
            assert forall|a: int| 0 <= a < prev.len() implies (#[trigger] prev[a]).meta.id.spec_value() > x.meta.id.spec_value() by {
                let p = choose|p: int| recs.len() - (n - 1) <= p < recs.len() && #[trigger] prev[a] == recs[p];
                assert(record_ids(recs)[recs.len() - n] < record_ids(recs)[p]);
            }
            assert forall|a: int| 0 <= a < now.len() implies exists|p: int|
                recs.len() - n <= p < recs.len() && #[trigger] now[a] == recs[p] by {
                if a == now.len() - 1 {
                    assert(now[a] == recs[recs.len() - n]);
                } else {
                    assert(now[a] == prev[a]);
                }
            }
            assert forall|a: int| 0 <= a < now.len() implies on_timeline(recs, #[trigger] now[a], q) by {
                if a < now.len() - 1 {
                    assert(now[a] == prev[a]);
                }
            }
        }
    }
}

/// Asking with a cursor keeps exactly the records below it.
proof fn lemma_timeline_with_cursor(recs: Seq<Record>, q: TimelineQuery, c: NoteId, n: int)
    requires
        q.before is Some ==> c.spec_value() <= q.before->0.spec_value(),
        0 <= n <= recs.len(),
    ensures
        timeline_recs(recs, TimelineQuery { before: Some(c), ..q }, n) == ids_below(
            timeline_recs(recs, q, n),
            c.spec_value(),
        ),
    decreases n,
{
    let q2 = TimelineQuery { before: Some(c), ..q };
    if n > 0 {
        lemma_timeline_with_cursor(recs, q, c, n - 1);
        let x = recs[recs.len() - n];
        assert(on_timeline(recs, x, q2) == (on_timeline(recs, x, q) && x.meta.id.spec_value() < c.spec_value()));
        if on_timeline(recs, x, q) {
            assert(timeline_recs(recs, q, n).drop_last() =~= timeline_recs(recs, q, n - 1));
        }
    }
}

/// The records below the id at `l - 1` of a strictly decreasing list are the ones after it.
proof fn lemma_below_is_rest(e: Seq<Record>, l: int, m: int)
    requires
        0 < l <= m <= e.len(),
        forall|a: int, b: int| 0 <= a < b < e.len() ==> (#[trigger] e[a]).meta.id.spec_value() > (#[trigger] e[b]).meta.id.spec_value(),
    ensures
        ids_below(e.take(m), e[l - 1].meta.id.spec_value()) == e.subrange(l, m),
    decreases m,
{
    let c = e[l - 1].meta.id.spec_value();
    if m == l {
        lemma_none_below(e, l, l);
        assert(e.subrange(l, m) =~= Seq::<Record>::empty());
    } else {
        lemma_below_is_rest(e, l, m - 1);
        assert(e.take(m).drop_last() =~= e.take(m - 1));
        assert(e.subrange(l, m) =~= e.subrange(l, m - 1).push(e[m - 1]));
    }
}

/// No id among the first `m` of a strictly decreasing list is below the one at `l - 1`.
proof fn lemma_none_below(e: Seq<Record>, l: int, m: int)
    requires
        0 < l <= e.len(),
        0 <= m <= l,
        forall|a: int, b: int| 0 <= a < b < e.len() ==> (#[trigger] e[a]).meta.id.spec_value() > (#[trigger] e[b]).meta.id.spec_value(),
    ensures
        ids_below(e.take(m), e[l - 1].meta.id.spec_value()) == Seq::<Record>::empty(),
    decreases m,
{
    if m > 0 {
        lemma_none_below(e, l, m - 1);
        assert(e.take(m).drop_last() =~= e.take(m - 1));
        if m - 1 < l - 1 {
            assert(e[m - 1].meta.id.spec_value() > e[l - 1].meta.id.spec_value());
        }
    }
}

/// A page's cursor resumes the timeline exactly: asked with the cursor of a full page, the
/// timeline is what followed that page, with nothing repeated and nothing skipped.
pub proof fn lemma_cursor_resumes(s: Snapshot, q: TimelineQuery)
    requires
        s.wf(),
        q.limit matches Some(l) && l > 0,
        timeline_recs(s.recs(), q, s.recs().len() as int).len() > q.limit->0,
    ensures
        ({
            let all = timeline_recs(s.recs(), q, s.recs().len() as int);
            let l = q.limit->0 as int;
            timeline_recs(
                s.recs(),
                TimelineQuery { before: Some(all[l - 1].meta.id), ..q },
                s.recs().len() as int,
            ) == all.skip(l)
        }),
{
    let recs = s.recs();
    let n = recs.len() as int;
    let all = timeline_recs(recs, q, n);
    let l = q.limit->0 as int;
    let c = all[l - 1].meta.id;
    lemma_timeline_decreasing(recs, q, n);
    if q.before is Some {
        assert(in_window(all[l - 1], q.since, q.until, q.before));
    }
    lemma_timeline_with_cursor(recs, q, c, n);
    lemma_below_is_rest(all, l, all.len() as int);
    assert(all.take(all.len() as int) =~= all);
    assert(all.subrange(l, all.len() as int) =~= all.skip(l));
}

/// Comparing the first `n` records with themselves finds nothing added or updated.
proof fn lemma_diff_self_upto(recs: Seq<Record>, n: int)
    requires
        increasing(record_ids(recs)),
        0 <= n <= recs.len(),
    ensures
        added_upto(recs, recs, n).len() == 0,
        updated_upto(recs, recs, n).len() == 0,
        unchanged_upto(recs, recs, n) == n,
    decreases n,
{
    if n > 0 {
        lemma_diff_self_upto(recs, n - 1);
        lemma_record_of(recs, n - 1);
    }
}

/// Comparing a scan with itself reports everything unchanged: a quiet report.
pub proof fn lemma_diff_with_itself_is_quiet(s: Snapshot)
    requires
        s.wf(),
    ensures
        added_upto(s.recs(), s.recs(), s.recs().len() as int).len() == 0,
        updated_upto(s.recs(), s.recs(), s.recs().len() as int).len() == 0,
        unchanged_upto(s.recs(), s.recs(), s.recs().len() as int) == s.recs().len(),
{
    lemma_diff_self_upto(s.recs(), s.recs().len() as int);
}


// =============================================================================================
// What searches, diffs, reply maps and prefix resolution are for
// =============================================================================================

/// Every note a search finds is in the state it searches and inside its date window: created at or
/// after `since` and before `until`. A note with no creation time is found only when the query has
/// no window at all.
pub proof fn lemma_search_keeps_to_its_window(recs: Seq<Record>, q: SearchQuery, n: int)
    ensures
        forall|k: int|
            0 <= k < search_recs(recs, q, n).len() ==> {
                let r = #[trigger] search_recs(recs, q, n)[k];
                &&& q.include_trashed || r.state == State::Active
                &&& match r.meta.created_at {
                    Some(t) => (q.since matches Some(a) ==> a <= t) && (q.until matches Some(b) ==> t < b),
                    None => q.since is None && q.until is None,
                }
            },
    decreases n,
{
    if n > 0 && n <= recs.len() {
        lemma_search_keeps_to_its_window(recs, q, n - 1);
        let prev = search_recs(recs, q, n - 1);
        if found_by(recs[recs.len() - n], q) {
            assert forall|k: int| 0 <= k < prev.push(recs[recs.len() - n]).len() implies {
                let r = #[trigger] prev.push(recs[recs.len() - n])[k];
                &&& q.include_trashed || r.state == State::Active
                &&& match r.meta.created_at {
                    Some(t) => (q.since matches Some(a) ==> a <= t) && (q.until matches Some(b) ==> t < b),
                    None => q.since is None && q.until is None,
                }
            } by {
                if k < prev.len() {
                    assert(prev.push(recs[recs.len() - n])[k] == prev[k]);
                }
            }
        }
    }
}

/// What a search finds among the last `n` records: records the vault holds, each with a title
/// holding the query's text (trimmed, compared in lowercase) unless that text is blank, newest
/// first: when the records are in id order, each note found was created after the next one.
pub proof fn lemma_search_finds_titles_newest_first(recs: Seq<Record>, q: SearchQuery, n: int)
    requires
        increasing(record_ids(recs)),
        n <= recs.len(),
    ensures
        forall|k: int|
            0 <= k < search_recs(recs, q, n).len() ==> {
                let r = #[trigger] search_recs(recs, q, n)[k];
                &&& exists|j: int| recs.len() - n <= j < recs.len() && recs[j] == r
                &&& lowercase_text(trimmed(q.text@)).len() > 0 ==> (r.meta.title is Some && contains_text(
                    lowercase_text(r.meta.title->0@),
                    lowercase_text(trimmed(q.text@)),
                ))
            },
        forall|a: int, b: int|
            0 <= a < b < search_recs(recs, q, n).len() ==> (#[trigger] search_recs(recs, q, n)[a]).meta.id.spec_value()
                > (#[trigger] search_recs(recs, q, n)[b]).meta.id.spec_value(),
    decreases n,
{
    if n > 0 {
        lemma_search_finds_titles_newest_first(recs, q, n - 1);
        let prev = search_recs(recs, q, n - 1);
        let j0 = recs.len() - n;
        let x = recs[j0];
        if found_by(x, q) {
            let now = prev.push(x);
            assert forall|k: int| 0 <= k < now.len() implies {
                let r = #[trigger] now[k];
                &&& exists|j: int| recs.len() - n <= j < recs.len() && recs[j] == r
                &&& lowercase_text(trimmed(q.text@)).len() > 0 ==> (r.meta.title is Some && contains_text(
                    lowercase_text(r.meta.title->0@),
                    lowercase_text(trimmed(q.text@)),
                ))
            } by {
                if k < prev.len() {
                    assert(now[k] == prev[k]);
                } else {
                    assert(now[k] == recs[j0]);
                }
            }
            assert forall|a: int, b: int| 0 <= a < b < now.len() implies (#[trigger] now[a]).meta.id.spec_value()
                > (#[trigger] now[b]).meta.id.spec_value() by {
                assert(now[a] == prev[a]);
                if b < prev.len() {
                    assert(now[b] == prev[b]);
                } else {
                    let j = choose|j: int| recs.len() - (n - 1) <= j < recs.len() && recs[j] == prev[a];
                    assert(record_ids(recs)[j0] < record_ids(recs)[j]);
                }
            }
        } else {
            assert forall|k: int| 0 <= k < prev.len() implies (exists|j: int| recs.len() - n <= j < recs.len() && recs[j] == #[trigger] prev[k]) by {
                let j = choose|j: int| recs.len() - (n - 1) <= j < recs.len() && recs[j] == prev[k];
            }
        }
    }
}

/// How a diff sorts the first `n` current records: a note the previous scan did not hold is added;
/// one it held is updated exactly when anything its record says differs from before, links and
/// mtime included, and unchanged otherwise. Every note lands in exactly one of the three.
pub proof fn lemma_diff_sorts_every_record(cur: Seq<Record>, prev: Seq<Record>, n: int)
    requires
        0 <= n <= cur.len(),
    ensures
        forall|x: u128|
            #[trigger] updated_upto(cur, prev, n).contains(x) <==> exists|i: int|
                0 <= i < n && cur[i].meta.id.spec_value() == x && holds(prev, x) && record_of(prev, x)@
                    != #[trigger] cur[i]@,
        forall|x: u128|
            #[trigger] added_upto(cur, prev, n).contains(x) <==> exists|i: int|
                0 <= i < n && #[trigger] cur[i].meta.id.spec_value() == x && !holds(prev, x),
        added_upto(cur, prev, n).len() + updated_upto(cur, prev, n).len() + unchanged_upto(cur, prev, n) == n,
    decreases n,
{
    if n > 0 {
        lemma_diff_sorts_every_record(cur, prev, n - 1);
        let c = cur[n - 1];
        let x0 = c.meta.id.spec_value();
        let u0 = updated_upto(cur, prev, n - 1);
        let a0 = added_upto(cur, prev, n - 1);
        assert forall|x: u128| #[trigger] updated_upto(cur, prev, n).contains(x) <==> exists|i: int|
            0 <= i < n && cur[i].meta.id.spec_value() == x && holds(prev, x) && record_of(prev, x)@
                != #[trigger] cur[i]@ by {
            if holds(prev, x0) && record_of(prev, x0)@ != c@ {
                assert(updated_upto(cur, prev, n) == u0.push(x0));
                if u0.push(x0).contains(x) && x != x0 {
                    let j = choose|j: int| 0 <= j < u0.push(x0).len() && u0.push(x0)[j] == x;
                    assert(u0[j] == x);
                }
                if u0.contains(x) {
                    let j = choose|j: int| 0 <= j < u0.len() && u0[j] == x;
                    assert(u0.push(x0)[j] == x);
                }
                if x == x0 {
                    assert(u0.push(x0)[u0.len() as int] == x0);
                }
            } else {
                assert(updated_upto(cur, prev, n) == u0);
            }
            if exists|i: int| 0 <= i < n && cur[i].meta.id.spec_value() == x && holds(prev, x) && record_of(prev, x)@ != #[trigger] cur[i]@ {
                let i = choose|i: int| 0 <= i < n && cur[i].meta.id.spec_value() == x && holds(prev, x) && record_of(prev, x)@ != #[trigger] cur[i]@;
                if i < n - 1 {
                    assert(u0.contains(x));
                }
            }
        }
        assert forall|x: u128| #[trigger] added_upto(cur, prev, n).contains(x) <==> exists|i: int|
            0 <= i < n && #[trigger] cur[i].meta.id.spec_value() == x && !holds(prev, x) by {
            if !holds(prev, x0) {
                assert(added_upto(cur, prev, n) == a0.push(x0));
                if a0.push(x0).contains(x) && x != x0 {
                    let j = choose|j: int| 0 <= j < a0.push(x0).len() && a0.push(x0)[j] == x;
                    assert(a0[j] == x);
                }
                if a0.contains(x) {
                    let j = choose|j: int| 0 <= j < a0.len() && a0[j] == x;
                    assert(a0.push(x0)[j] == x);
                }
                if x == x0 {
                    assert(a0.push(x0)[a0.len() as int] == x0);
                }
            } else {
                assert(added_upto(cur, prev, n) == a0);
            }
            if exists|i: int| 0 <= i < n && #[trigger] cur[i].meta.id.spec_value() == x && !holds(prev, x) {
                let i = choose|i: int| 0 <= i < n && #[trigger] cur[i].meta.id.spec_value() == x && !holds(prev, x);
                if i < n - 1 {
                    assert(a0.contains(x));
                }
            }
        }
    }
}

/// The replies a listing over active notes only maps a parent to are active replies to it: each
/// is the metadata of a record the vault holds, in the active state, whose `reply_to` is that
/// parent.
pub proof fn lemma_active_reply_map_holds_active_replies(recs: Seq<Record>, p: u128)
    ensures
        reply_map(recs, true).contains_key(p) ==> forall|k: int|
            0 <= k < reply_map(recs, true)[p].len() ==> exists|j: int|
                0 <= j < recs.len() && recs[j].meta == #[trigger] reply_map(recs, true)[p][k]
                    && recs[j].state == State::Active && id_value(recs[j].meta.reply_to) == Some(p),
{
    lemma_replies_are_active(recs, p, recs.len() as int);
}

proof fn lemma_replies_are_active(recs: Seq<Record>, p: u128, n: int)
    requires
        n <= recs.len(),
    ensures
        forall|k: int|
            0 <= k < replies_to(recs, true, p, n).len() ==> exists|j: int|
                0 <= j < n && recs[j].meta == #[trigger] replies_to(recs, true, p, n)[k]
                    && recs[j].state == State::Active && id_value(recs[j].meta.reply_to) == Some(p),
    decreases n,
{
    if n > 0 {
        lemma_replies_are_active(recs, p, n - 1);
        let r0 = replies_to(recs, true, p, n - 1);
        let r = replies_to(recs, true, p, n);
        assert forall|k: int| 0 <= k < r.len() implies exists|j: int|
            0 <= j < n && recs[j].meta == #[trigger] r[k] && recs[j].state == State::Active
                && id_value(recs[j].meta.reply_to) == Some(p) by {
            if k < r0.len() {
                assert(r[k] == r0[k]);
                let j = choose|j: int| 0 <= j < n - 1 && recs[j].meta == #[trigger] r0[k]
                    && recs[j].state == State::Active && id_value(recs[j].meta.reply_to) == Some(p);
            } else {
                assert(r[k] == recs[n - 1].meta);
            }
        }
    }
}

/// Case does not matter to a prefix: resolving it and resolving it with its ASCII capitals lowered
/// give the same answer.
pub proof fn lemma_resolve_ignores_case(recs: Seq<Record>, prefix: Seq<char>)
    ensures
        resolved(recs, prefix) == resolved(recs, ascii_lowercase(prefix)),
{
    crate::text::lemma_trim_lowercase_commute(prefix);
    crate::text::lemma_ascii_lowercase_idempotent(trimmed(prefix));
    assert(needle(ascii_lowercase(prefix)) == needle(prefix));
}

} // verus!
