//! Frontmatter: the schema-declared typed fields, the unknown keys kept as their original bytes,
//! and the one write path that renders both.
//!
//! A note file is `prefix ++ block ++ body`: an optional byte order mark, the fenced YAML block,
//! and the body byte for byte. Splitting is `markdown`'s (its frontmatter construct reports the
//! block's byte span), YAML is `yaml_serde`'s, and everything between the two crates is this
//! module's: which error a missing block is, which top-level keys a block holds and where each
//! one's source lines are, which keys the schema interprets, and the order a block is written in.
//!
//! Key order is declared, not hardcoded: it comes from the workspace's [`FrontmatterSchema`].
//! A key jot does not interpret is preserved as the exact source text it was read as and written
//! back untouched, so a block scalar or a nested mapping survives an edit byte for byte. Where the
//! line slicer and the YAML parser disagree about what the top-level keys are, the block is
//! refused rather than rewritten.

use vstd::prelude::*;
use vstd::string::{StrSliceExecFns, StringExecFns};
use vstd::utf8::{decode_utf8, encode_utf8, valid_utf8};

pub use crate::block::Newline;
use crate::block::{
    newline_text, block_end, block_span, fence_newline, interior_bytes, is_missing_block_error, key_spans,
    top_level_key_spans,
};
use crate::error::Error;
use crate::note::{NoteId, uuid_text_value};
use crate::text::{is_blank, is_white_space, slice, str_eq, str_is_blank};
use yaml_serde::Value;

verus! {

broadcast use vstd::seq::group_seq_axioms;

/// The path reported by errors raised while parsing bytes that did not come from a file.
pub const IN_MEMORY_PATH: &'static str = "<in-memory note>";

// =============================================================================================
// Roles and field types
// =============================================================================================

/// A role jot itself understands, as opposed to a shape it merely validates.
///
/// A role is separate from the key it is stored under, so a vault may call its title key
/// `title`, `heading` or `제목` and core still knows which key holds the title.
#[derive(Debug, Clone, Copy, PartialEq, Eq, Structural, Hash)]
pub enum Role {
    /// The note's display title. `document:title`.
    Title,
    /// The note this one replies to. `relation:reply_to`.
    ReplyTo,
    /// A single cross-tree quote. `relation:quote_to`.
    QuoteTo,
}

/// The type string a role is declared as, which is also the key it defaults to.
pub open spec fn role_text(r: Role) -> Seq<char> {
    match r {
        Role::Title => "document:title"@,
        Role::ReplyTo => "relation:reply_to"@,
        Role::QuoteTo => "relation:quote_to"@,
    }
}

impl Role {
    /// The type string this role is declared as.
    pub fn as_str(self) -> (s: &'static str)
        ensures
            s@ == role_text(self),
    {
        match self {
            Role::Title => "document:title",
            Role::ReplyTo => "relation:reply_to",
            Role::QuoteTo => "relation:quote_to",
        }
    }

    /// Whether a value of this role is a note id rather than free text.
    pub fn is_relation(self) -> (b: bool)
        ensures
            b == (self != Role::Title),
    {
        match self {
            Role::Title => false,
            _ => true,
        }
    }
}

/// What a declared entry's value is.
#[derive(Debug, Clone, PartialEq, Eq)]
pub enum FieldType {
    /// One of the reserved roles core interprets.
    Reserved(Role),
    /// An opaque scalar: `text`, or `text:<refinement>`. The refinement is carried, not enforced.
    Text(Option<String>),
    /// A YAML sequence of scalars: `multitext`, or `multitext:<refinement>`.
    Multitext(Option<String>),
    /// A type string this build does not understand: a warning, never a refusal.
    Unknown(String),
}

/// A [`FieldType`] with its text as `char` sequences.
pub enum FieldTypeView {
    Reserved(Role),
    Text(Option<Seq<char>>),
    Multitext(Option<Seq<char>>),
    Unknown(Seq<char>),
}

/// The text of an optional string.
pub open spec fn opt_text(o: Option<String>) -> Option<Seq<char>> {
    match o {
        Some(s) => Some(s@),
        None => None,
    }
}

impl View for FieldType {
    type V = FieldTypeView;

    open spec fn view(&self) -> FieldTypeView {
        match *self {
            FieldType::Reserved(r) => FieldTypeView::Reserved(r),
            FieldType::Text(o) => FieldTypeView::Text(opt_text(o)),
            FieldType::Multitext(o) => FieldTypeView::Multitext(opt_text(o)),
            FieldType::Unknown(s) => FieldTypeView::Unknown(s@),
        }
    }
}

/// The type string a field type is written as.
pub open spec fn type_text(t: FieldTypeView) -> Seq<char> {
    match t {
        FieldTypeView::Reserved(r) => role_text(r),
        FieldTypeView::Text(None) => "text"@,
        FieldTypeView::Text(Some(r)) => "text:"@ + r,
        FieldTypeView::Multitext(None) => "multitext"@,
        FieldTypeView::Multitext(Some(r)) => "multitext:"@ + r,
        FieldTypeView::Unknown(raw) => raw,
    }
}

/// The role a field type claims, if it claims one.
pub open spec fn type_role(t: FieldTypeView) -> Option<Role> {
    match t {
        FieldTypeView::Reserved(r) => Some(r),
        _ => None,
    }
}

/// The field type a manifest `type` string declares. Anything unrecognised is `Unknown`.
pub open spec fn parse_type(t: Seq<char>) -> FieldTypeView {
    if t == role_text(Role::Title) {
        FieldTypeView::Reserved(Role::Title)
    } else if t == role_text(Role::ReplyTo) {
        FieldTypeView::Reserved(Role::ReplyTo)
    } else if t == role_text(Role::QuoteTo) {
        FieldTypeView::Reserved(Role::QuoteTo)
    } else if t == "text"@ {
        FieldTypeView::Text(None)
    } else if t == "multitext"@ {
        FieldTypeView::Multitext(None)
    } else {
        match t.index_of_first(':') {
            Some(i) => {
                let head = t.take(i);
                let rest = t.skip(i + 1);
                if head == "text"@ && rest.len() > 0 {
                    FieldTypeView::Text(Some(rest))
                } else if head == "multitext"@ && rest.len() > 0 {
                    FieldTypeView::Multitext(Some(rest))
                } else {
                    FieldTypeView::Unknown(t)
                }
            },
            None => FieldTypeView::Unknown(t),
        }
    }
}

/// `prefix` followed by `rest`, as a new string.
fn joined(prefix: &str, rest: &str) -> (s: String)
    ensures
        s@ == prefix@ + rest@,
{
    let mut s = prefix.to_owned();
    s.append(rest);
    s
}

impl FieldType {
    /// Parse a manifest `type` string. Never fails: anything unrecognised is
    /// [`FieldType::Unknown`].
    pub fn parse(text: &str) -> (t: FieldType)
        ensures
            t@ == parse_type(text@),
    {
        if str_eq(text, "document:title") {
            return FieldType::Reserved(Role::Title);
        }
        if str_eq(text, "relation:reply_to") {
            return FieldType::Reserved(Role::ReplyTo);
        }
        if str_eq(text, "relation:quote_to") {
            return FieldType::Reserved(Role::QuoteTo);
        }
        if str_eq(text, "text") {
            return FieldType::Text(None);
        }
        if str_eq(text, "multitext") {
            return FieldType::Multitext(None);
        }
        let n = text.unicode_len();
        let mut i: usize = 0;
        while i < n
            invariant
                n == text@.len(),
                i <= n,
                forall|j: int| 0 <= j < i ==> text@[j] != ':',
            ensures
                i <= n,
                forall|j: int| 0 <= j < i ==> text@[j] != ':',
                i < n ==> text@[i as int] == ':',
            decreases n - i,
        {
            if text.get_char(i) == ':' {
                break;
            }
            i = i + 1;
        }
        proof {
            text@.index_of_first_ensures(':');
        }
        if i == n {
            assert(!text@.contains(':'));
            return FieldType::Unknown(text.to_owned());
        }
        assert(text@[i as int] == ':');
        assert(text@.index_of_first(':') == Some(i as int)) by {
            let f = text@.index_of_first(':');
            assert(text@.contains(':'));
            if f->0 < i {
                assert(text@[f->0] == ':');
            }
        }
        let head = text.substring_char(0, i);
        let rest = text.substring_char(i + 1, n);
        assert(head@ == text@.take(i as int));
        assert(rest@ == text@.skip(i + 1));
        if str_eq(head, "text") && rest.unicode_len() > 0 {
            FieldType::Text(Some(rest.to_owned()))
        } else if str_eq(head, "multitext") && rest.unicode_len() > 0 {
            FieldType::Multitext(Some(rest.to_owned()))
        } else {
            FieldType::Unknown(text.to_owned())
        }
    }

    /// The type string this is written as, which is also the key an entry omitting `key` uses.
    pub fn as_str(&self) -> (s: String)
        ensures
            s@ == type_text(self@),
    {
        match self {
            FieldType::Reserved(role) => role.as_str().to_owned(),
            FieldType::Text(None) => "text".to_owned(),
            FieldType::Text(Some(r)) => joined("text:", r.as_str()),
            FieldType::Multitext(None) => "multitext".to_owned(),
            FieldType::Multitext(Some(r)) => joined("multitext:", r.as_str()),
            FieldType::Unknown(raw) => raw.clone(),
        }
    }

    /// The role this type claims, if it claims one.
    pub fn role(&self) -> (r: Option<Role>)
        ensures
            r == type_role(self@),
    {
        match self {
            FieldType::Reserved(role) => Some(*role),
            _ => None,
        }
    }
}

// =============================================================================================
// The declared schema
// =============================================================================================

/// One `[[schema.frontmatter]]` entry: a key, what its value is, and whether it is always written.
#[derive(Debug, Clone, PartialEq, Eq)]
pub struct FrontmatterEntry {
    key: String,
    field_type: FieldType,
    required: bool,
}

/// A [`FrontmatterEntry`] with its text as `char` sequences.
pub struct EntryView {
    pub key: Seq<char>,
    pub field_type: FieldTypeView,
    pub required: bool,
}

impl View for FrontmatterEntry {
    type V = EntryView;

    closed spec fn view(&self) -> EntryView {
        EntryView { key: self.key@, field_type: self.field_type@, required: self.required }
    }
}

impl FrontmatterEntry {
    /// An entry whose key is the type string verbatim.
    pub fn new(field_type: FieldType) -> (e: FrontmatterEntry)
        ensures
            e@ == (EntryView {
                key: type_text(field_type@),
                field_type: field_type@,
                required: false,
            }),
    {
        FrontmatterEntry { key: field_type.as_str(), field_type, required: false }
    }

    /// An entry stored under a key of its own.
    pub fn with_key(key: &str, field_type: FieldType) -> (e: FrontmatterEntry)
        ensures
            e@ == (EntryView { key: key@, field_type: field_type@, required: false }),
    {
        FrontmatterEntry { key: key.to_owned(), field_type, required: false }
    }

    /// Mark the key as always emitted, empty when the note has no value.
    pub fn required(self, required: bool) -> (e: FrontmatterEntry)
        ensures
            e@ == (EntryView { required, ..self@ }),
    {
        FrontmatterEntry { required, ..self }
    }

    /// The frontmatter key this entry is stored under.
    pub fn key(&self) -> (k: &str)
        ensures
            k@ == self@.key,
    {
        self.key.as_str()
    }

    /// What this entry's value is.
    pub fn field_type(&self) -> (t: &FieldType)
        ensures
            t@ == self@.field_type,
    {
        &self.field_type
    }

    /// Whether the key is written even when the note carries no value for it. A render rule,
    /// never a validation rule.
    pub fn is_required(&self) -> (b: bool)
        ensures
            b == self@.required,
    {
        self.required
    }

    /// The role this entry claims, if it claims one.
    pub fn role(&self) -> (r: Option<Role>)
        ensures
            r == type_role(self@.field_type),
    {
        self.field_type.role()
    }
}

/// The first index in `from..upto` whose entry is stored under `key`.
pub open spec fn first_with_key(es: Seq<EntryView>, key: Seq<char>, from: int, upto: int) -> Option<
    int,
>
    decreases upto - from,
{
    if from >= upto {
        None
    } else if es[from].key == key {
        Some(from)
    } else {
        first_with_key(es, key, from + 1, upto)
    }
}

/// The first index in `from..upto` whose entry claims `role`.
pub open spec fn first_with_role(es: Seq<EntryView>, role: Role, from: int, upto: int) -> Option<
    int,
>
    decreases upto - from,
{
    if from >= upto {
        None
    } else if type_role(es[from].field_type) == Some(role) {
        Some(from)
    } else {
        first_with_role(es, role, from + 1, upto)
    }
}

/// The first index at or after `from` whose key is blank.
pub open spec fn first_blank(es: Seq<EntryView>, from: int) -> Option<int>
    decreases es.len() - from,
{
    if from >= es.len() {
        None
    } else if is_blank(es[from].key) {
        Some(from)
    } else {
        first_blank(es, from + 1)
    }
}

/// The message for an entry whose key is blank.
pub open spec fn empty_key_message(declared_type: Seq<char>) -> Seq<char> {
    "entry of type `"@ + declared_type + "` has an empty `key`"@
}

/// The message for a key declared twice.
pub open spec fn duplicate_key_message(key: Seq<char>, first: Seq<char>, second: Seq<char>) -> Seq<
    char,
> {
    "key `"@ + key + "` is declared twice (as `"@ + first + "` and as `"@ + second + "`)"@
}

/// The message for a role claimed twice.
pub open spec fn duplicate_role_message(role: Role, first: Seq<char>, second: Seq<char>) -> Seq<
    char,
> {
    "two entries declare `"@ + role_text(role) + "`: `"@ + first + "` and `"@ + second + "`"@
}

/// The first clash among entries `i..`, each compared with the entries before it: a key declared
/// before, else a role claimed before.
pub open spec fn first_clash(es: Seq<EntryView>, i: int) -> Option<Seq<char>>
    decreases es.len() - i,
{
    if i >= es.len() || i < 0 {
        None
    } else {
        match first_with_key(es, es[i].key, 0, i) {
            Some(j) => Some(
                duplicate_key_message(
                    es[i].key,
                    type_text(es[j].field_type),
                    type_text(es[i].field_type),
                ),
            ),
            None => match type_role(es[i].field_type) {
                None => first_clash(es, i + 1),
                Some(r) => match first_with_role(es, r, 0, i) {
                    Some(j) => Some(duplicate_role_message(r, es[j].key, es[i].key)),
                    None => first_clash(es, i + 1),
                },
            },
        }
    }
}

/// What [`FrontmatterSchema::try_new`] refuses `es` with: the first blank key, else the first
/// clash.
pub open spec fn schema_error(es: Seq<EntryView>) -> Option<Seq<char>> {
    match first_blank(es, 0) {
        Some(k) => Some(empty_key_message(type_text(es[k].field_type))),
        None => first_clash(es, 0),
    }
}

/// A valid schema: no blank key, no key declared twice, no role claimed twice.
pub open spec fn is_valid_schema(es: Seq<EntryView>) -> bool {
    &&& forall|i: int| 0 <= i < es.len() ==> !is_blank(#[trigger] es[i].key)
    &&& forall|i: int, j: int| 0 <= j < i < es.len() ==> #[trigger] es[j].key != #[trigger] es[i].key
    &&& forall|i: int, j: int|
        0 <= j < i < es.len() && #[trigger] type_role(es[i].field_type) is Some ==> type_role(
            es[i].field_type,
        ) != #[trigger] type_role(es[j].field_type)
}

proof fn lemma_first_with_key(es: Seq<EntryView>, key: Seq<char>, from: int, upto: int)
    requires
        0 <= from,
        upto <= es.len(),
    ensures
        first_with_key(es, key, from, upto) matches Some(x) ==> from <= x < upto && es[x].key
            == key && forall|y: int| from <= y < x ==> es[y].key != key,
        first_with_key(es, key, from, upto) is None ==> forall|y: int|
            from <= y < upto ==> es[y].key != key,
    decreases upto - from,
{
    if from < upto {
        lemma_first_with_key(es, key, from + 1, upto);
    }
}

proof fn lemma_first_with_role(es: Seq<EntryView>, role: Role, from: int, upto: int)
    requires
        0 <= from,
        upto <= es.len(),
    ensures
        first_with_role(es, role, from, upto) matches Some(x) ==> from <= x < upto && type_role(
            es[x].field_type,
        ) == Some(role) && forall|y: int|
            from <= y < x ==> type_role(es[y].field_type) != Some(role),
        first_with_role(es, role, from, upto) is None ==> forall|y: int|
            from <= y < upto ==> type_role(es[y].field_type) != Some(role),
    decreases upto - from,
{
    if from < upto {
        lemma_first_with_role(es, role, from + 1, upto);
    }
}

proof fn lemma_first_blank(es: Seq<EntryView>, from: int)
    requires
        0 <= from,
    ensures
        first_blank(es, from) matches Some(x) ==> from <= x < es.len() && is_blank(es[x].key),
        first_blank(es, from) is None ==> forall|y: int|
            from <= y < es.len() ==> !is_blank(#[trigger] es[y].key),
    decreases es.len() - from,
{
    if from < es.len() {
        lemma_first_blank(es, from + 1);
    }
}

proof fn lemma_first_clash(es: Seq<EntryView>, i: int)
    requires
        0 <= i <= es.len(),
        forall|a: int, b: int| 0 <= b < a < i ==> #[trigger] es[b].key != #[trigger] es[a].key,
        forall|a: int, b: int|
            0 <= b < a < i && #[trigger] type_role(es[a].field_type) is Some ==> type_role(
                es[a].field_type,
            ) != #[trigger] type_role(es[b].field_type),
    ensures
        first_clash(es, i) is None <==> is_valid_schema(es.subrange(0, 0)) && (forall|
            a: int,
            b: int,
        | 0 <= b < a < es.len() ==> #[trigger] es[b].key != #[trigger] es[a].key) && (forall|
            a: int,
            b: int,
        |
            0 <= b < a < es.len() && #[trigger] type_role(es[a].field_type) is Some ==> type_role(
                es[a].field_type,
            ) != #[trigger] type_role(es[b].field_type)),
    decreases es.len() - i,
{
    if i < es.len() {
        lemma_first_with_key(es, es[i].key, 0, i);
        match first_with_key(es, es[i].key, 0, i) {
            Some(j) => {
                assert(es[j].key == es[i].key);
            },
            None => {
                match type_role(es[i].field_type) {
                    None => {
                        lemma_first_clash(es, i + 1);
                    },
                    Some(r) => {
                        lemma_first_with_role(es, r, 0, i);
                        match first_with_role(es, r, 0, i) {
                            Some(j) => {
                                assert(type_role(es[j].field_type) == Some(r));
                            },
                            None => {
                                lemma_first_clash(es, i + 1);
                            },
                        }
                    },
                }
            },
        }
    }
}

/// A schema is refused exactly when it is invalid.
proof fn lemma_schema_error(es: Seq<EntryView>)
    ensures
        schema_error(es) is None <==> is_valid_schema(es),
{
    lemma_first_blank(es, 0);
    lemma_first_clash(es, 0);
}

proof fn lemma_default_schema_valid()
    ensures
        is_valid_schema(default_schema()),
{
    reveal_strlit("title");
    reveal_strlit("relation:reply_to");
    reveal_strlit("relation:quote_to");
    let d = default_schema();
    assert(!is_white_space('t'));
    assert(!is_white_space('r'));
    assert(!is_blank(d[0].key)) by {
        assert(d[0].key[0] == 't');
    }
    assert(!is_blank(d[1].key)) by {
        assert(d[1].key[0] == 'r');
    }
    assert(!is_blank(d[2].key)) by {
        assert(d[2].key[0] == 'r');
    }
    assert(d[0].key != d[1].key) by {
        assert(d[0].key.len() != d[1].key.len());
    }
    assert(d[0].key != d[2].key) by {
        assert(d[0].key.len() != d[2].key.len());
    }
    assert(d[1].key != d[2].key) by {
        assert(d[1].key[9] != d[2].key[9]);
    }
}

/// The declared frontmatter of a workspace: the emission order, and what each key holds.
#[derive(Debug, PartialEq, Eq)]
pub struct FrontmatterSchema {
    entries: Vec<FrontmatterEntry>,
}

/// The entries of a vector, each by its view.
pub open spec fn entry_views(es: Seq<FrontmatterEntry>) -> Seq<EntryView> {
    es.map_values(|e: FrontmatterEntry| e@)
}

impl View for FrontmatterSchema {
    type V = Seq<EntryView>;

    closed spec fn view(&self) -> Seq<EntryView> {
        entry_views(self.entries@)
    }
}

impl Default for FrontmatterSchema {
    fn default() -> (s: FrontmatterSchema)
        ensures
            s@ == default_schema(),
    {
        FrontmatterSchema::jot_default()
    }
}

/// The key `role` is stored under in `es`, if it is declared at all.
pub open spec fn key_for_role(es: Seq<EntryView>, role: Role) -> Option<Seq<char>> {
    match first_with_role(es, role, 0, es.len() as int) {
        Some(i) => Some(es[i].key),
        None => None,
    }
}

/// The role the entry declared under `key` carries, if any.
pub open spec fn role_of_key(es: Seq<EntryView>, key: Seq<char>) -> Option<Role> {
    match first_with_key(es, key, 0, es.len() as int) {
        Some(i) => type_role(es[i].field_type),
        None => None,
    }
}

/// Each entry of an unknown type, as `(key, type string)`, in declared order.
pub open spec fn unknown_types_of(es: Seq<EntryView>) -> Seq<(Seq<char>, Seq<char>)>
    decreases es.len(),
{
    if es.len() == 0 {
        Seq::empty()
    } else {
        let rest = unknown_types_of(es.drop_last());
        match es.last().field_type {
            FieldTypeView::Unknown(raw) => rest.push((es.last().key, raw)),
            _ => rest,
        }
    }
}

/// The schema `init` writes: `title`, then the two relations under their type strings.
pub open spec fn default_schema() -> Seq<EntryView> {
    seq![
        EntryView {
            key: "title"@,
            field_type: FieldTypeView::Reserved(Role::Title),
            required: false,
        },
        EntryView {
            key: role_text(Role::ReplyTo),
            field_type: FieldTypeView::Reserved(Role::ReplyTo),
            required: false,
        },
        EntryView {
            key: role_text(Role::QuoteTo),
            field_type: FieldTypeView::Reserved(Role::QuoteTo),
            required: false,
        },
    ]
}

impl FrontmatterSchema {
    /// Every schema is valid: the constructors refuse any other.
    #[verifier::type_invariant]
    spec fn inv(self) -> bool {
        is_valid_schema(entry_views(self.entries@))
    }

    /// A schema's entries are valid.
    pub fn is_valid(&self) -> (b: bool)
        ensures
            b,
            is_valid_schema(self@),
    {
        proof {
            use_type_invariant(self);
        }
        true
    }

    /// The schema `init` writes: a title, and the two relations.
    pub fn jot_default() -> (s: FrontmatterSchema)
        ensures
            s@ == default_schema(),
    {
        let mut entries: Vec<FrontmatterEntry> = Vec::new();
        entries.push(FrontmatterEntry::with_key("title", FieldType::Reserved(Role::Title)));
        entries.push(FrontmatterEntry::new(FieldType::Reserved(Role::ReplyTo)));
        entries.push(FrontmatterEntry::new(FieldType::Reserved(Role::QuoteTo)));
        assert(entry_views(entries@) =~= default_schema());
        proof {
            lemma_default_schema_valid();
        }
        let s = FrontmatterSchema { entries };
        s
    }

    /// A schema from declared entries, validated as configuration: refused, with a message
    /// naming the offending keys, when an entry's key is blank, when two entries share a key, or
    /// when two entries claim the same role.
    pub fn try_new(entries: Vec<FrontmatterEntry>) -> (r: Result<FrontmatterSchema, String>)
        ensures
            r is Ok <==> is_valid_schema(entry_views(entries@)),
            r matches Ok(s) ==> s@ == entry_views(entries@),
            r matches Err(m) ==> Some(m@) == schema_error(entry_views(entries@)),
    {
        let ghost es = entry_views(entries@);
        proof {
            lemma_schema_error(es);
        }
        assert(es.len() == entries@.len());
        let mut k: usize = 0;
        while k < entries.len()
            invariant
                es == entry_views(entries@),
                k <= entries.len(),
                first_blank(es, 0) == first_blank(es, k as int),
            decreases entries.len() - k,
        {
            if str_is_blank(entries[k].key.as_str()) {
                let m = joined("entry of type `", entries[k].field_type.as_str().as_str());
                let m = joined(m.as_str(), "` has an empty `key`");
                return Err(m);
            }
            k = k + 1;
        }
        let mut i: usize = 0;
        while i < entries.len()
            invariant
                es == entry_views(entries@),
                i <= entries.len(),
                es.len() == entries@.len(),
                first_blank(es, 0) is None,
                first_clash(es, 0) == first_clash(es, i as int),
            decreases entries.len() - i,
        {
            let mut j: usize = 0;
            while j < i
                invariant
                    es == entry_views(entries@),
                    es.len() == entries@.len(),
                    first_blank(es, 0) is None,
                    first_clash(es, 0) == first_clash(es, i as int),
                    j <= i < entries.len(),
                    first_with_key(es, es[i as int].key, 0, i as int) == first_with_key(
                        es,
                        es[i as int].key,
                        j as int,
                        i as int,
                    ),
                decreases i - j,
            {
                if entries[j].key == entries[i].key {
                    assert(es[j as int] == entries@[j as int]@);
                    assert(es[i as int] == entries@[i as int]@);
                    assert(first_with_key(es, es[i as int].key, 0, i as int) == Some(j as int));
                    let m = joined("key `", entries[i].key.as_str());
                    let m = joined(m.as_str(), "` is declared twice (as `");
                    let m = joined(m.as_str(), entries[j].field_type.as_str().as_str());
                    let m = joined(m.as_str(), "` and as `");
                    let m = joined(m.as_str(), entries[i].field_type.as_str().as_str());
                    let m = joined(m.as_str(), "`)");
                    return Err(m);
                }
                j = j + 1;
            }
            assert(es[i as int] == entries@[i as int]@);
            assert(first_with_key(es, es[i as int].key, 0, i as int) is None);
            match entries[i].role() {
                None => {},
                Some(role) => {
                    let mut j: usize = 0;
                    while j < i
                        invariant
                            es == entry_views(entries@),
                            es.len() == entries@.len(),
                            first_blank(es, 0) is None,
                            first_clash(es, 0) == first_clash(es, i as int),
                            first_with_key(es, es[i as int].key, 0, i as int) is None,
                            type_role(es[i as int].field_type) == Some(role),
                            j <= i < entries.len(),
                            first_with_role(es, role, 0, i as int) == first_with_role(
                                es,
                                role,
                                j as int,
                                i as int,
                            ),
                        decreases i - j,
                    {
                        if entries[j].role() == Some(role) {
                            assert(es[j as int] == entries@[j as int]@);
                            assert(first_with_role(es, role, 0, i as int) == Some(j as int));
                            assert(first_clash(es, i as int) is Some);
                            let m = joined("two entries declare `", role.as_str());
                            let m = joined(m.as_str(), "`: `");
                            let m = joined(m.as_str(), entries[j].key.as_str());
                            let m = joined(m.as_str(), "` and `");
                            let m = joined(m.as_str(), entries[i].key.as_str());
                            let m = joined(m.as_str(), "`");
                            return Err(m);
                        }
                        j = j + 1;
                    }
                },
            }
            i = i + 1;
        }
        Ok(FrontmatterSchema { entries })
    }

    /// The declared entries, in declared order.
    pub fn entries(&self) -> (es: &[FrontmatterEntry])
        ensures
            entry_views(es@) == self@,
    {
        self.entries.as_slice()
    }

    /// The declared keys, in declared order.
    pub fn keys(&self) -> (ks: Vec<&str>)
        ensures
            ks@.len() == self@.len(),
            forall|i: int| 0 <= i < ks@.len() ==> (#[trigger] ks@[i])@ == self@[i].key,
    {
        let mut ks: Vec<&str> = Vec::new();
        let mut i: usize = 0;
        while i < self.entries.len()
            invariant
                i <= self.entries.len(),
                ks@.len() == i,
                forall|j: int| 0 <= j < i ==> (#[trigger] ks@[j])@ == self@[j].key,
            decreases self.entries.len() - i,
        {
            ks.push(self.entries[i].key.as_str());
            i = i + 1;
        }
        ks
    }

    /// Whether `key` is declared.
    pub fn contains(&self, key: &str) -> (b: bool)
        ensures
            b == first_with_key(self@, key@, 0, self@.len() as int) is Some,
    {
        self.entry(key).is_some()
    }

    /// The entry declared under `key`.
    pub fn entry(&self, key: &str) -> (e: Option<&FrontmatterEntry>)
        ensures
            e is Some == first_with_key(self@, key@, 0, self@.len() as int) is Some,
            e matches Some(x) ==> x@ == self@[first_with_key(
                self@,
                key@,
                0,
                self@.len() as int,
            )->0],
    {
        let mut i: usize = 0;
        while i < self.entries.len()
            invariant
                i <= self.entries.len(),
                first_with_key(self@, key@, 0, self@.len() as int) == first_with_key(
                    self@,
                    key@,
                    i as int,
                    self@.len() as int,
                ),
            decreases self.entries.len() - i,
        {
            if str_eq(self.entries[i].key.as_str(), key) {
                return Some(&self.entries[i]);
            }
            i = i + 1;
        }
        None
    }

    /// The key `role` is stored under, if this workspace declares it at all.
    pub fn key_for(&self, role: Role) -> (k: Option<&str>)
        ensures
            k is Some == key_for_role(self@, role) is Some,
            k matches Some(x) ==> Some(x@) == key_for_role(self@, role),
    {
        let mut i: usize = 0;
        while i < self.entries.len()
            invariant
                i <= self.entries.len(),
                first_with_role(self@, role, 0, self@.len() as int) == first_with_role(
                    self@,
                    role,
                    i as int,
                    self@.len() as int,
                ),
            decreases self.entries.len() - i,
        {
            if self.entries[i].role() == Some(role) {
                return Some(self.entries[i].key.as_str());
            }
            i = i + 1;
        }
        None
    }

    /// The role `key` carries, if the schema gives it one.
    pub fn role_of(&self, key: &str) -> (r: Option<Role>)
        ensures
            r == role_of_key(self@, key@),
    {
        match self.entry(key) {
            Some(e) => e.role(),
            None => None,
        }
    }

    /// Every declared type this build does not understand, with the key declaring it.
    pub fn unknown_types(&self) -> (ts: Vec<(&str, &str)>)
        ensures
            ts@.len() == unknown_types_of(self@).len(),
            forall|i: int|
                0 <= i < ts@.len() ==> (#[trigger] ts@[i]).0@ == unknown_types_of(self@)[i].0
                    && ts@[i].1@ == unknown_types_of(self@)[i].1,
    {
        let mut ts: Vec<(&str, &str)> = Vec::new();
        let mut i: usize = 0;
        while i < self.entries.len()
            invariant
                i <= self.entries.len(),
                ts@.len() == unknown_types_of(self@.take(i as int)).len(),
                forall|k: int|
                    0 <= k < ts@.len() ==> (#[trigger] ts@[k]).0@ == unknown_types_of(
                        self@.take(i as int),
                    )[k].0 && ts@[k].1@ == unknown_types_of(self@.take(i as int))[k].1,
            decreases self.entries.len() - i,
        {
            assert(self@.take(i + 1).drop_last() =~= self@.take(i as int));
            match &self.entries[i].field_type {
                FieldType::Unknown(raw) => {
                    ts.push((self.entries[i].key.as_str(), raw.as_str()));
                },
                _ => {},
            }
            i = i + 1;
        }
        assert(self@.take(i as int) =~= self@);
        ts
    }
}

// =============================================================================================
// YAML values
// =============================================================================================

/// A YAML value as this module reads it: its shape, a string's text, and a collection's size.
#[derive(Debug)]
pub enum YamlValue {
    Null,
    Bool,
    Number,
    Str(String),
    Sequence(usize),
    Mapping(usize),
    Tagged,
}

/// A [`YamlValue`] with a string's text as a `char` sequence.
pub enum YamlValueView {
    Null,
    Bool,
    Number,
    Str(Seq<char>),
    Sequence(usize),
    Mapping(usize),
    Tagged,
}

impl View for YamlValue {
    type V = YamlValueView;

    open spec fn view(&self) -> YamlValueView {
        match *self {
            YamlValue::Null => YamlValueView::Null,
            YamlValue::Bool => YamlValueView::Bool,
            YamlValue::Number => YamlValueView::Number,
            YamlValue::Str(s) => YamlValueView::Str(s@),
            YamlValue::Sequence(n) => YamlValueView::Sequence(n),
            YamlValue::Mapping(n) => YamlValueView::Mapping(n),
            YamlValue::Tagged => YamlValueView::Tagged,
        }
    }
}

/// What `yaml_serde` reads a block's interior as: its error message, a mapping's entries in
/// order, or some other top-level value.
#[derive(Debug)]
pub enum YamlDoc {
    Malformed(String),
    Mapping(Vec<(YamlValue, YamlValue)>),
    Other(YamlValue),
}

/// A [`YamlDoc`] with its text as `char` sequences.
pub enum YamlDocView {
    Malformed(Seq<char>),
    Mapping(Seq<(YamlValueView, YamlValueView)>),
    Other(YamlValueView),
}

/// Mapping entries, each by its view.
pub open spec fn entry_pairs(es: Seq<(YamlValue, YamlValue)>) -> Seq<(YamlValueView, YamlValueView)> {
    es.map_values(|p: (YamlValue, YamlValue)| (p.0@, p.1@))
}

impl View for YamlDoc {
    type V = YamlDocView;

    open spec fn view(&self) -> YamlDocView {
        match *self {
            YamlDoc::Malformed(m) => YamlDocView::Malformed(m@),
            YamlDoc::Mapping(es) => YamlDocView::Mapping(entry_pairs(es@)),
            YamlDoc::Other(v) => YamlDocView::Other(v@),
        }
    }
}

/// What `yaml_serde::from_str::<yaml_serde::Value>` reads `text` as.
pub uninterp spec fn yaml_document(text: Seq<char>) -> YamlDocView;

/// `yaml_serde::from_str::<yaml_serde::Value>`, converted value for value into [`YamlDoc`]: the
/// parser's message on error, the top-level mapping's entries in the order the crate keeps them,
/// or the other top-level value. What YAML means is the crate's, and is named, not stated.
#[verifier::external_body]
fn parse_yaml(text: &str) -> (d: YamlDoc)
    ensures
        d@ == yaml_document(text@),
{
    let plain = |v: &Value| match v {
        Value::Null => YamlValue::Null,
        Value::Bool(_) => YamlValue::Bool,
        Value::Number(_) => YamlValue::Number,
        Value::String(s) => YamlValue::Str(s.clone()),
        Value::Sequence(s) => YamlValue::Sequence(s.len()),
        Value::Mapping(m) => YamlValue::Mapping(m.len()),
        Value::Tagged(_) => YamlValue::Tagged,
    };
    match yaml_serde::from_str(text) {
        Err(e) => YamlDoc::Malformed(e.to_string()),
        Ok(Value::Mapping(m)) => YamlDoc::Mapping(m.iter().map(|(k, v)| (plain(k), plain(v))).collect()),
        Ok(v) => YamlDoc::Other(plain(&v)),
    }
}

/// A human name for a YAML value's shape, for error messages.
pub open spec fn shape_text(v: YamlValueView) -> Seq<char> {
    match v {
        YamlValueView::Null => "null"@,
        YamlValueView::Bool => "a boolean"@,
        YamlValueView::Number => "a number"@,
        YamlValueView::Str(_) => "a string"@,
        YamlValueView::Sequence(_) => "a sequence"@,
        YamlValueView::Mapping(_) => "a mapping"@,
        YamlValueView::Tagged => "a tagged value"@,
    }
}

/// A human name for a YAML value's shape.
pub fn shape(v: &YamlValue) -> (s: &'static str)
    ensures
        s@ == shape_text(v@),
{
    match v {
        YamlValue::Null => "null",
        YamlValue::Bool => "a boolean",
        YamlValue::Number => "a number",
        YamlValue::Str(_) => "a string",
        YamlValue::Sequence(_) => "a sequence",
        YamlValue::Mapping(_) => "a mapping",
        YamlValue::Tagged => "a tagged value",
    }
}

/// The value of the first entry from `i` on whose key is the string `key`.
pub open spec fn lookup_from(es: Seq<(YamlValueView, YamlValueView)>, key: Seq<char>, i: int) -> Option<
    YamlValueView,
>
    decreases es.len() - i,
{
    if i >= es.len() || i < 0 {
        None
    } else if es[i].0 == YamlValueView::Str(key) {
        Some(es[i].1)
    } else {
        lookup_from(es, key, i + 1)
    }
}

/// An empty value, which reads as absent whatever its type: null, `""`, `[]` or `{}`.
pub open spec fn is_empty_value(v: YamlValueView) -> bool {
    match v {
        YamlValueView::Null => true,
        YamlValueView::Str(s) => s.len() == 0,
        YamlValueView::Sequence(n) => n == 0,
        YamlValueView::Mapping(n) => n == 0,
        _ => false,
    }
}

/// The value at `key`, or `None` if the key is absent or its value is empty.
pub open spec fn present_value(es: Seq<(YamlValueView, YamlValueView)>, key: Seq<char>) -> Option<
    YamlValueView,
> {
    match lookup_from(es, key, 0) {
        Some(v) => if is_empty_value(v) {
            None
        } else {
            Some(v)
        },
        None => None,
    }
}

/// The value at `key`, or `None` if the key is absent or empty: `title: null`, `title: ""` and an
/// empty `relation:reply_to:` all read as absent.
fn present<'a>(entries: &'a Vec<(YamlValue, YamlValue)>, key: &str) -> (r: Option<&'a YamlValue>)
    ensures
        r is Some == present_value(entry_pairs(entries@), key@) is Some,
        r matches Some(v) ==> Some(v@) == present_value(entry_pairs(entries@), key@),
{
    let ghost es = entry_pairs(entries@);
    let mut i: usize = 0;
    while i < entries.len()
        invariant
            es == entry_pairs(entries@),
            i <= entries.len(),
            lookup_from(es, key@, 0) == lookup_from(es, key@, i as int),
        decreases entries.len() - i,
    {
        assert(es[i as int] == (entries@[i as int].0@, entries@[i as int].1@));
        let hit = match &entries[i].0 {
            YamlValue::Str(k) => str_eq(k.as_str(), key),
            _ => false,
        };
        if hit {
            let v = &entries[i].1;
            let empty = match v {
                YamlValue::Null => true,
                YamlValue::Str(s) => s.as_str().unicode_len() == 0,
                YamlValue::Sequence(n) => *n == 0,
                YamlValue::Mapping(n) => *n == 0,
                _ => false,
            };
            if empty {
                return None;
            }
            return Some(v);
        }
        i = i + 1;
    }
    None
}

/// Whether `key` is written with a null value: a YAML key with nothing after its colon.
fn is_null_at(entries: &Vec<(YamlValue, YamlValue)>, key: &str) -> (b: bool)
    ensures
        b == (lookup_from(entry_pairs(entries@), key@, 0) == Some(YamlValueView::Null)),
{
    let ghost es = entry_pairs(entries@);
    let mut i: usize = 0;
    while i < entries.len()
        invariant
            es == entry_pairs(entries@),
            i <= entries.len(),
            lookup_from(es, key@, 0) == lookup_from(es, key@, i as int),
        decreases entries.len() - i,
    {
        assert(es[i as int] == (entries@[i as int].0@, entries@[i as int].1@));
        let hit = match &entries[i].0 {
            YamlValue::Str(k) => str_eq(k.as_str(), key),
            _ => false,
        };
        if hit {
            return match &entries[i].1 {
                YamlValue::Null => true,
                _ => false,
            };
        }
        i = i + 1;
    }
    false
}

// =============================================================================================
// Reading a block
// =============================================================================================

/// Why a block was refused, with the text each error carries besides the path.
pub enum ReadError {
    Malformed(Seq<char>),
    NotAMapping,
    Unpreservable(Seq<char>),
    InvalidField(Seq<char>, Seq<char>),
    InvalidId(Seq<char>, Seq<char>),
}

/// `e` is the error `f` names, for the file at `path`.
pub open spec fn is_read_error(e: Error, path: Seq<char>, f: ReadError) -> bool {
    match f {
        ReadError::Malformed(m) => (e matches Error::MalformedYaml { path: p, message: x } && p@
            == path && x@ == m),
        ReadError::NotAMapping => (e matches Error::FrontmatterNotAMapping { path: p } && p@
            == path),
        ReadError::Unpreservable(m) => (e matches Error::UnpreservableFrontmatter {
            path: p,
            message: x,
        } && p@ == path && x@ == m),
        ReadError::InvalidField(k, m) => (e matches Error::InvalidFrontmatterField {
            path: p,
            field: x,
            message: y,
        } && p@ == path && x@ == k && y@ == m),
        ReadError::InvalidId(k, v) => (e matches Error::InvalidNoteIdValue {
            path: p,
            field: x,
            value: y,
        } && p@ == path && x@ == k && y@ == v),
    }
}

/// The top-level mapping a parsed block is: a null document is an empty mapping.
pub open spec fn mapping_of(d: YamlDocView) -> Result<Seq<(YamlValueView, YamlValueView)>, ReadError> {
    match d {
        YamlDocView::Malformed(m) => Err(ReadError::Malformed(m)),
        YamlDocView::Mapping(es) => Ok(es),
        YamlDocView::Other(YamlValueView::Null) => Ok(Seq::empty()),
        YamlDocView::Other(_) => Err(ReadError::NotAMapping),
    }
}

/// The entries of a parsed interior. A blank interior, or one holding only comments, parses to
/// null and is an empty mapping: a note with an empty block is untitled and top-level.
fn mapping_entries(path: &str, doc: YamlDoc) -> (r: Result<Vec<(YamlValue, YamlValue)>, Error>)
    ensures
        mapping_of(doc@) matches Ok(es) ==> (r matches Ok(v) && entry_pairs(v@) == es),
        mapping_of(doc@) matches Err(f) ==> (r matches Err(e) && is_read_error(e, path@, f)),
{
    match doc {
        YamlDoc::Malformed(m) => Err(Error::MalformedYaml { path: path.to_owned(), message: m }),
        YamlDoc::Mapping(es) => Ok(es),
        YamlDoc::Other(YamlValue::Null) => {
            let v: Vec<(YamlValue, YamlValue)> = Vec::new();
            assert(entry_pairs(v@) =~= Seq::<(YamlValueView, YamlValueView)>::empty());
            Ok(v)
        },
        YamlDoc::Other(_) => Err(Error::FrontmatterNotAMapping { path: path.to_owned() }),
    }
}

/// The first entry from `i` on whose key is not a string.
pub open spec fn first_nonstring_key(es: Seq<(YamlValueView, YamlValueView)>, i: int) -> Option<int>
    decreases es.len() - i,
{
    if i >= es.len() || i < 0 {
        None
    } else if !(es[i].0 is Str) {
        Some(i)
    } else {
        first_nonstring_key(es, i + 1)
    }
}

/// Some entry's key is the string `name`.
pub open spec fn has_key(es: Seq<(YamlValueView, YamlValueView)>, name: Seq<char>) -> bool {
    exists|j: int| 0 <= j < es.len() && es[j].0 == YamlValueView::Str(name)
}

/// The first name from `k` on that no entry has as its key.
pub open spec fn first_unparsed(
    names: Seq<Seq<char>>,
    es: Seq<(YamlValueView, YamlValueView)>,
    k: int,
) -> Option<int>
    decreases names.len() - k,
{
    if k >= names.len() || k < 0 {
        None
    } else if !has_key(es, names[k]) {
        Some(k)
    } else {
        first_unparsed(names, es, k + 1)
    }
}

/// Why the slicer's key names and the parser's keys disagree, if they do: a key that is not a
/// string, a different count, or a name the parser did not find.
pub open spec fn disagreement(es: Seq<(YamlValueView, YamlValueView)>, names: Seq<Seq<char>>) -> Option<
    Seq<char>,
> {
    match first_nonstring_key(es, 0) {
        Some(i) => Some("top-level key is "@ + shape_text(es[i].0) + ", not a string"@),
        None => if names.len() != es.len() {
            Some(
                "found "@ + crate::text::decimal_text(names.len()) + " top-level key(s) by line, but "@
                    + crate::text::decimal_text(es.len()) + " in the parsed mapping"@,
            )
        } else {
            match first_unparsed(names, es, 0) {
                Some(k) => Some("key `"@ + names[k] + "` is not in the parsed mapping"@),
                None => None,
            }
        },
    }
}

/// The names of sliced keys.
pub open spec fn span_names(spans: Seq<(String, usize, usize)>) -> Seq<Seq<char>> {
    spans.map_values(|t: (String, usize, usize)| t.0@)
}

/// Refuse a block whose top-level keys the slicer and `yaml_serde` do not agree on: a non-string
/// key, a key the slicer missed, a key it invented, or a key written twice.
fn agree_or_refuse(
    path: &str,
    entries: &Vec<(YamlValue, YamlValue)>,
    spans: &Vec<(String, usize, usize)>,
) -> (r: Result<(), Error>)
    ensures
        disagreement(entry_pairs(entries@), span_names(spans@)) matches Some(m) ==> (r matches Err(
            e,
        ) && is_read_error(e, path@, ReadError::Unpreservable(m))),
        disagreement(entry_pairs(entries@), span_names(spans@)) is None ==> r is Ok,
{
    let ghost es = entry_pairs(entries@);
    let ghost names = span_names(spans@);
    let mut i: usize = 0;
    while i < entries.len()
        invariant
            es == entry_pairs(entries@),
            i <= entries.len(),
            first_nonstring_key(es, 0) == first_nonstring_key(es, i as int),
        decreases entries.len() - i,
    {
        assert(es[i as int] == (entries@[i as int].0@, entries@[i as int].1@));
        match &entries[i].0 {
            YamlValue::Str(_) => {},
            other => {
                let m = joined("top-level key is ", shape(other));
                let m = joined(m.as_str(), ", not a string");
                return Err(Error::UnpreservableFrontmatter { path: path.to_owned(), message: m });
            },
        }
        i = i + 1;
    }
    assert(es.len() == entries@.len());
    assert(names.len() == spans@.len());
    if spans.len() != entries.len() {
        let a = crate::text::decimal_string(spans.len() as u64);
        let b = crate::text::decimal_string(entries.len() as u64);
        let m = joined("found ", a.as_str());
        let m = joined(m.as_str(), " top-level key(s) by line, but ");
        let m = joined(m.as_str(), b.as_str());
        let m = joined(m.as_str(), " in the parsed mapping");
        return Err(Error::UnpreservableFrontmatter { path: path.to_owned(), message: m });
    }
    let mut k: usize = 0;
    while k < spans.len()
        invariant
            es == entry_pairs(entries@),
            names == span_names(spans@),
            names.len() == spans@.len(),
            es.len() == entries@.len(),
            k <= spans.len(),
            first_nonstring_key(es, 0) is None,
            spans@.len() == entries@.len(),
            first_unparsed(names, es, 0) == first_unparsed(names, es, k as int),
        decreases spans.len() - k,
    {
        let name = spans[k].0.as_str();
        assert(names[k as int] == name@);
        let mut j: usize = 0;
        let mut found = false;
        while j < entries.len()
            invariant
                es == entry_pairs(entries@),
                names == span_names(spans@),
                names.len() == spans@.len(),
                es.len() == entries@.len(),
                k < spans.len(),
                names[k as int] == name@,
                first_nonstring_key(es, 0) is None,
                spans@.len() == entries@.len(),
                first_unparsed(names, es, 0) == first_unparsed(names, es, k as int),
                j <= entries.len(),
                found ==> has_key(es, name@),
                !found ==> forall|x: int| 0 <= x < j ==> es[x].0 != YamlValueView::Str(name@),
            decreases entries.len() - j,
        {
            assert(es[j as int] == (entries@[j as int].0@, entries@[j as int].1@));
            match &entries[j].0 {
                YamlValue::Str(s) => {
                    if str_eq(s.as_str(), name) {
                        found = true;
                    }
                },
                _ => {},
            }
            j = j + 1;
        }
        if !found {
            let m = joined("key `", name);
            let m = joined(m.as_str(), "` is not in the parsed mapping");
            return Err(Error::UnpreservableFrontmatter { path: path.to_owned(), message: m });
        }
        k = k + 1;
    }
    Ok(())
}

// =============================================================================================
// Unknown keys and the frontmatter
// =============================================================================================

/// A top-level key this version does not interpret, kept as the exact source text it was read as:
/// its own line, plus every continuation line under it, terminator included.
#[derive(Debug, Clone, PartialEq, Eq)]
pub struct UnknownKey {
    name: String,
    source: String,
}

impl View for UnknownKey {
    type V = (Seq<char>, Seq<char>);

    closed spec fn view(&self) -> (Seq<char>, Seq<char>) {
        (self.name@, self.source@)
    }
}

impl UnknownKey {
    /// The key's name, unquoted, without its `:`.
    pub fn name(&self) -> (n: &str)
        ensures
            n@ == self@.0,
    {
        self.name.as_str()
    }

    /// The key's original source text, continuation lines included.
    pub fn source(&self) -> (s: &str)
        ensures
            s@ == self@.1,
    {
        self.source.as_str()
    }
}

/// A note's frontmatter: the typed fields jot interprets, the keys it does not, and the line
/// terminator to render with. A note's id is not here: the filename carries it.
#[derive(Debug, Clone, PartialEq, Eq)]
pub struct Frontmatter {
    /// Display title, from the key declared [`Role::Title`].
    pub title: Option<String>,
    /// The note this one replies to, from the key declared [`Role::ReplyTo`]. `None` means
    /// top-level.
    pub reply_to: Option<NoteId>,
    /// A single cross-tree quote, from the key declared [`Role::QuoteTo`].
    pub quote: Option<NoteId>,
    /// Unknown keys in their original relative order.
    unknown: Vec<UnknownKey>,
    /// The line terminator to render with.
    newline: Newline,
}

/// A [`Frontmatter`] as values: ids by their 128-bit value, unknown keys as `(name, source)`.
pub struct FrontmatterView {
    pub title: Option<Seq<char>>,
    pub reply_to: Option<u128>,
    pub quote: Option<u128>,
    pub unknown: Seq<(Seq<char>, Seq<char>)>,
    pub newline: Newline,
}

/// The value of an optional id.
pub open spec fn id_value(o: Option<NoteId>) -> Option<u128> {
    match o {
        Some(id) => Some(id.spec_value()),
        None => None,
    }
}

/// Unknown keys as `(name, source)`.
pub open spec fn unknown_pairs(us: Seq<UnknownKey>) -> Seq<(Seq<char>, Seq<char>)> {
    us.map_values(|u: UnknownKey| u@)
}

impl View for Frontmatter {
    type V = FrontmatterView;

    closed spec fn view(&self) -> FrontmatterView {
        FrontmatterView {
            title: opt_text(self.title),
            reply_to: id_value(self.reply_to),
            quote: id_value(self.quote),
            unknown: unknown_pairs(self.unknown@),
            newline: self.newline,
        }
    }
}

/// The frontmatter with nothing in it, rendered with LF.
pub open spec fn empty_frontmatter() -> FrontmatterView {
    FrontmatterView {
        title: None,
        reply_to: None,
        quote: None,
        unknown: Seq::empty(),
        newline: Newline::Lf,
    }
}

impl Default for Frontmatter {
    fn default() -> (fm: Frontmatter)
        ensures
            fm@ == empty_frontmatter(),
    {
        Frontmatter::new()
    }
}

/// The source of the first unknown key named `name`.
pub open spec fn unknown_source_of(us: Seq<(Seq<char>, Seq<char>)>, name: Seq<char>, i: int) -> Option<
    Seq<char>,
>
    decreases us.len() - i,
{
    if i >= us.len() || i < 0 {
        None
    } else if us[i].0 == name {
        Some(us[i].1)
    } else {
        unknown_source_of(us, name, i + 1)
    }
}

impl Frontmatter {
    /// An empty frontmatter: no title, no relations, no unknown keys, LF endings.
    pub fn new() -> (fm: Frontmatter)
        ensures
            fm@ == empty_frontmatter(),
    {
        let fm = Frontmatter {
            title: None,
            reply_to: None,
            quote: None,
            unknown: Vec::new(),
            newline: Newline::Lf,
        };
        assert(fm@.unknown =~= Seq::<(Seq<char>, Seq<char>)>::empty());
        fm
    }

    /// The unknown keys, in their original relative order.
    pub fn unknown(&self) -> (us: &[UnknownKey])
        ensures
            unknown_pairs(us@) == self@.unknown,
    {
        self.unknown.as_slice()
    }

    /// The preserved source of one unknown key, if the note carries it.
    pub fn unknown_source(&self, name: &str) -> (s: Option<&str>)
        ensures
            s is Some == unknown_source_of(self@.unknown, name@, 0) is Some,
            s matches Some(x) ==> Some(x@) == unknown_source_of(self@.unknown, name@, 0),
    {
        let ghost us = self@.unknown;
        let mut i: usize = 0;
        while i < self.unknown.len()
            invariant
                us == unknown_pairs(self.unknown@),
                i <= self.unknown.len(),
                unknown_source_of(us, name@, 0) == unknown_source_of(us, name@, i as int),
            decreases self.unknown.len() - i,
        {
            if str_eq(self.unknown[i].name.as_str(), name) {
                return Some(self.unknown[i].source.as_str());
            }
            i = i + 1;
        }
        None
    }

    /// The title, by reference.
    pub fn title_text(&self) -> (t: &Option<String>)
        ensures
            opt_text(*t) == self@.title,
    {
        &self.title
    }

    /// The note this one replies to.
    pub fn reply_to_id(&self) -> (r: Option<NoteId>)
        ensures
            id_value(r) == self@.reply_to,
    {
        self.reply_to
    }

    /// The note this one quotes.
    pub fn quote_id(&self) -> (q: Option<NoteId>)
        ensures
            id_value(q) == self@.quote,
    {
        self.quote
    }

    /// The line terminator rendering uses.
    pub fn newline(&self) -> (n: Newline)
        ensures
            n == self@.newline,
    {
        self.newline
    }

    /// Set the line terminator to render with.
    pub fn set_newline(&mut self, newline: Newline)
        ensures
            final(self)@ == (FrontmatterView { newline, ..old(self)@ }),
    {
        self.newline = newline;
    }
}

// =============================================================================================
// Reading the typed fields
// =============================================================================================

/// The title a block holds under the key the schema declares for it.
pub open spec fn title_of(s: Seq<EntryView>, es: Seq<(YamlValueView, YamlValueView)>) -> Result<
    Option<Seq<char>>,
    ReadError,
> {
    match key_for_role(s, Role::Title) {
        None => Ok(None),
        Some(k) => match present_value(es, k) {
            None => Ok(None),
            Some(YamlValueView::Str(t)) => Ok(Some(t)),
            Some(v) => Err(ReadError::InvalidField(k, "expected a string, found "@ + shape_text(v))),
        },
    }
}

/// The note id a block holds under the key the schema declares for `role`.
pub open spec fn relation_of(
    s: Seq<EntryView>,
    es: Seq<(YamlValueView, YamlValueView)>,
    role: Role,
) -> Result<Option<u128>, ReadError> {
    match key_for_role(s, role) {
        None => Ok(None),
        Some(k) => match present_value(es, k) {
            None => Ok(None),
            Some(YamlValueView::Str(t)) => match uuid_text_value(t) {
                Some(v) => Ok(Some(v)),
                None => Err(ReadError::InvalidId(k, t)),
            },
            Some(v) => Err(
                ReadError::InvalidField(k, "expected a UUID string, found "@ + shape_text(v)),
            ),
        },
    }
}

/// Whether `name` is an empty placeholder: a key the schema declares, written with no value, as
/// an editing template writes every declared key the note does not carry. It reads as absent.
pub open spec fn blank_declared(s: Seq<EntryView>, es: Seq<(YamlValueView, YamlValueView)>, name: Seq<char>) -> bool {
    &&& first_with_key(s, name, 0, s.len() as int) is Some
    &&& lookup_from(es, name, 0) == Some(YamlValueView::Null)
}

/// The keys among `spans` the schema gives no role, each as `(name, source)`, leaving out empty
/// placeholders of declared keys.
pub open spec fn unknown_of(
    s: Seq<EntryView>,
    es: Seq<(YamlValueView, YamlValueView)>,
    b: Seq<u8>,
    spans: Seq<(Seq<u8>, int, int)>,
) -> Seq<(Seq<char>, Seq<char>)>
    decreases spans.len(),
{
    if spans.len() == 0 {
        Seq::empty()
    } else {
        let rest = unknown_of(s, es, b, spans.drop_last());
        let sp = spans.last();
        if role_of_key(s, decode_utf8(sp.0)) is Some || blank_declared(s, es, decode_utf8(sp.0)) {
            rest
        } else {
            rest.push((decode_utf8(sp.0), decode_utf8(b.subrange(sp.1, sp.2))))
        }
    }
}

/// The frontmatter a block's interior reads as under schema `s`, or why it is refused.
pub open spec fn read_interior(s: Seq<EntryView>, text: Seq<char>) -> Result<FrontmatterView, ReadError> {
    read_parsed(s, text, yaml_document(text))
}

/// The frontmatter the interior `text` reads as under schema `s`, given the document the YAML
/// parser made of it, or why it is refused.
pub open spec fn read_parsed(s: Seq<EntryView>, text: Seq<char>, doc: YamlDocView) -> Result<FrontmatterView, ReadError> {
    match mapping_of(doc) {
        Err(f) => Err(f),
        Ok(es) => {
            let b = encode_utf8(text);
            let spans = key_spans(b);
            let names = spans.map_values(|t: (Seq<u8>, int, int)| decode_utf8(t.0));
            match disagreement(es, names) {
                Some(m) => Err(ReadError::Unpreservable(m)),
                None => match title_of(s, es) {
                    Err(f) => Err(f),
                    Ok(t) => match relation_of(s, es, Role::ReplyTo) {
                        Err(f) => Err(f),
                        Ok(r) => match relation_of(s, es, Role::QuoteTo) {
                            Err(f) => Err(f),
                            Ok(q) => Ok(
                                FrontmatterView {
                                    title: t,
                                    reply_to: r,
                                    quote: q,
                                    unknown: unknown_of(s, es, b, spans),
                                    newline: Newline::Lf,
                                },
                            ),
                        },
                    },
                },
            }
        },
    }
}

/// The title under the key the schema declares for it.
fn read_title(schema: &FrontmatterSchema, path: &str, entries: &Vec<(YamlValue, YamlValue)>) -> (r:
    Result<Option<String>, Error>)
    ensures
        title_of(schema@, entry_pairs(entries@)) matches Ok(t) ==> (r matches Ok(x) && opt_text(x)
            == t),
        title_of(schema@, entry_pairs(entries@)) matches Err(f) ==> (r matches Err(e)
            && is_read_error(e, path@, f)),
{
    let key = match schema.key_for(Role::Title) {
        None => {
            return Ok(None);
        },
        Some(k) => k,
    };
    match present(entries, key) {
        None => Ok(None),
        Some(YamlValue::Str(t)) => Ok(Some(t.clone())),
        Some(other) => {
            let m = joined("expected a string, found ", shape(other));
            Err(Error::InvalidFrontmatterField { path: path.to_owned(), field: key.to_owned(), message: m })
        },
    }
}

/// The note id under the key the schema declares for `role`, if it declares one.
fn relation(
    schema: &FrontmatterSchema,
    path: &str,
    entries: &Vec<(YamlValue, YamlValue)>,
    role: Role,
) -> (r: Result<Option<NoteId>, Error>)
    ensures
        relation_of(schema@, entry_pairs(entries@), role) matches Ok(v) ==> (r matches Ok(x)
            && id_value(x) == v),
        relation_of(schema@, entry_pairs(entries@), role) matches Err(f) ==> (r matches Err(e)
            && is_read_error(e, path@, f)),
{
    let key = match schema.key_for(role) {
        None => {
            return Ok(None);
        },
        Some(k) => k,
    };
    match present(entries, key) {
        None => Ok(None),
        Some(YamlValue::Str(t)) => match NoteId::parse(t.as_str()) {
            Some(id) => Ok(Some(id)),
            None => Err(
                Error::InvalidNoteIdValue {
                    path: path.to_owned(),
                    field: key.to_owned(),
                    value: t.clone(),
                },
            ),
        },
        Some(other) => {
            let m = joined("expected a UUID string, found ", shape(other));
            Err(Error::InvalidFrontmatterField { path: path.to_owned(), field: key.to_owned(), message: m })
        },
    }
}

/// Each span's name, decoded.
pub open spec fn decoded_names(spans: Seq<(Seq<u8>, int, int)>) -> Seq<Seq<char>> {
    spans.map_values(|t: (Seq<u8>, int, int)| decode_utf8(t.0))
}

impl Frontmatter {
    /// Parse the text between the fences, reading roles out of `schema`.
    ///
    /// A key the schema declares with a reserved role becomes a typed field; every other key is
    /// preserved verbatim and never interpreted.
    fn from_interior(schema: &FrontmatterSchema, path: &str, interior: &str) -> (r: Result<
        Frontmatter,
        Error,
    >)
        ensures
            read_interior(schema@, interior@) matches Ok(v) ==> (r matches Ok(fm) && fm@ == v),
            read_interior(schema@, interior@) matches Err(f) ==> (r matches Err(e)
                && is_read_error(e, path@, f)),
    {
        let doc = parse_yaml(interior);
        Frontmatter::frontmatter_from_doc(schema, path, interior, doc)
    }

    /// [`Frontmatter::from_interior`] from the document the YAML parser made of `interior`.
    pub fn frontmatter_from_doc(schema: &FrontmatterSchema, path: &str, interior: &str, doc: YamlDoc) -> (r: Result<
        Frontmatter,
        Error,
    >)
        ensures
            read_parsed(schema@, interior@, doc@) matches Ok(v) ==> (r matches Ok(fm) && fm@ == v),
            read_parsed(schema@, interior@, doc@) matches Err(f) ==> (r matches Err(e)
                && is_read_error(e, path@, f)),
    {
        broadcast use vstd::utf8::encode_utf8_decode_utf8;

        let ghost b = encode_utf8(interior@);
        let entries = match mapping_entries(path, doc) {
            Ok(es) => es,
            Err(e) => {
                return Err(e);
            },
        };
        let spans = top_level_key_spans(interior);
        let ghost ks = key_spans(b);
        assert(span_names(spans@) =~= decoded_names(ks)) by {
            assert forall|k: int| 0 <= k < spans@.len() implies span_names(spans@)[k]
                == decoded_names(ks)[k] by {
                assert(encode_utf8(spans@[k].0@) == ks[k].0);
            }
        }
        match agree_or_refuse(path, &entries, &spans) {
            Ok(()) => {},
            Err(e) => {
                return Err(e);
            },
        }
        let title = match read_title(schema, path, &entries) {
            Ok(t) => t,
            Err(e) => {
                return Err(e);
            },
        };
        proof {
            crate::block::lemma_key_starts_ordered(b, 0);
            vstd::utf8::encode_utf8_valid_utf8(interior@);
        }
        let ghost es0 = entry_pairs(entries@);
        let mut unknown: Vec<UnknownKey> = Vec::new();
        let mut k: usize = 0;
        while k < spans.len()
            invariant
                b == encode_utf8(interior@),
                ks == key_spans(b),
                spans@.len() == ks.len(),
                forall|j: int|
                    0 <= j < spans@.len() ==> encode_utf8((#[trigger] spans@[j]).0@) == ks[j].0
                        && spans@[j].1 == ks[j].1 && spans@[j].2 == ks[j].2,
                forall|j: int|
                    0 <= j < crate::block::key_starts(b, 0).len() ==> 0 <= (
                    #[trigger] crate::block::key_starts(b, 0)[j]).1 < b.len()
                        && crate::block::is_line_start(b, crate::block::key_starts(b, 0)[j].1),
                forall|i: int, j: int|
                    0 <= i < j < crate::block::key_starts(b, 0).len() ==> (
                    #[trigger] crate::block::key_starts(b, 0)[i]).1 < (
                    #[trigger] crate::block::key_starts(b, 0)[j]).1,
                valid_utf8(b),
                k <= spans@.len(),
                entry_pairs(entries@) == es0,
                unknown_pairs(unknown@) == unknown_of(schema@, es0, b, ks.take(k as int)),
            decreases spans.len() - k,
        {
            let ghost st = crate::block::key_starts(b, 0);
            assert(ks.take(k + 1).drop_last() =~= ks.take(k as int));
            assert(ks.take(k + 1).last() == ks[k as int]);
            let name = &spans[k].0;
            let (from, to) = (spans[k].1, spans[k].2);
            proof {
                vstd::utf8::encode_utf8_decode_utf8(name@);
                assert(encode_utf8(spans@[k as int].0@) == ks[k as int].0);
            }
            assert(name@ == decode_utf8(ks[k as int].0));
            let blank = schema.contains(name.as_str()) && is_null_at(&entries, name.as_str());
            if schema.role_of(name.as_str()).is_none() && !blank {
                proof {
                    crate::block::lemma_line_start_boundary(b, from as int);
                    if k + 1 < spans@.len() {
                        assert(st[k as int].1 < st[k + 1].1);
                        crate::block::lemma_line_start_boundary(b, to as int);
                    } else {
                        crate::block::lemma_line_start_boundary(b, b.len() as int);
                    }
                }
                let source = slice(interior, from, to);
                proof {
                    vstd::utf8::encode_utf8_decode_utf8(source@);
                }
                let u = UnknownKey { name: name.clone(), source: source.to_owned() };
                let ghost before = unknown@;
                unknown.push(u);
                assert(unknown_pairs(unknown@) =~= unknown_pairs(before).push(u@));
            }
            k = k + 1;
        }
        assert(ks.take(k as int) =~= ks);
        let reply_to = match relation(schema, path, &entries, Role::ReplyTo) {
            Ok(r) => r,
            Err(e) => {
                return Err(e);
            },
        };
        let quote = match relation(schema, path, &entries, Role::QuoteTo) {
            Ok(q) => q,
            Err(e) => {
                return Err(e);
            },
        };
        Ok(Frontmatter { title, reply_to, quote, unknown, newline: Newline::Lf })
    }

    /// Split `bytes` into `(frontmatter, body)`, where the body is the exact bytes after the
    /// block. `path` names the file in errors and is never consulted for identity.
    pub fn parse_document(schema: &FrontmatterSchema, path: &str, bytes: &[u8]) -> (r: Result<
        (Frontmatter, String),
        Error,
    >)
        ensures
            !valid_utf8(bytes@) ==> (r matches Err(Error::NotUtf8 { path: p }) && p@ == path@),
            valid_utf8(bytes@) && block_span(decode_utf8(bytes@)) is None ==> (r matches Err(e)
                && is_missing_block_error(e, path@, bytes@)),
            valid_utf8(bytes@) ==> (block_span(decode_utf8(bytes@)) matches Some((s, e)) ==> (
            match read_interior(schema@, decode_utf8(interior_bytes(bytes@, s, e))) {
                Ok(v) => (r matches Ok((fm, body)) && fm@ == (FrontmatterView {
                    newline: fence_newline(bytes@, s, e),
                    ..v
                }) && encode_utf8(body@) == bytes@.skip(block_end(bytes@, e))),
                Err(f) => (r matches Err(err) && is_read_error(err, path@, f)),
            })),
    {
        broadcast use vstd::utf8::encode_utf8_decode_utf8;

        let text = match crate::text::str_from_utf8(bytes) {
            Some(t) => t,
            None => {
                return Err(Error::NotUtf8 { path: path.to_owned() });
            },
        };
        assert(text@ == decode_utf8(bytes@));
        let split = match crate::block::split_document(path, text) {
            Ok(sp) => sp,
            Err(e) => {
                return Err(e);
            },
        };
        let mut fm = match Frontmatter::from_interior(schema, path, split.interior) {
            Ok(fm) => fm,
            Err(e) => {
                return Err(e);
            },
        };
        fm.newline = split.newline;
        Ok((fm, split.body.to_owned()))
    }
}

// =============================================================================================
// Rendering
// =============================================================================================

/// What `yaml_serde::to_string` emits for the one-entry mapping of string `key` to string
/// `value`: the text, or the error's message.
pub uninterp spec fn yaml_pair_text(key: Seq<char>, value: Seq<char>) -> Result<Seq<char>, Seq<char>>;

/// A result of strings, by their text.
pub open spec fn text_result(r: Result<String, String>) -> Result<Seq<char>, Seq<char>> {
    match r {
        Ok(t) => Ok(t@),
        Err(m) => Err(m@),
    }
}

/// `yaml_serde::to_string` of the one-entry mapping `{key: value}`, strings both: the crate
/// chooses the scalar style and does the escaping, which is why the title goes through it.
#[verifier::external_body]
fn emit_yaml_pair(key: &str, value: &str) -> (r: Result<String, String>)
    ensures
        text_result(r) == yaml_pair_text(key@, value@),
{
    let mut one = yaml_serde::Mapping::new();
    one.insert(Value::String(key.to_owned()), Value::String(value.to_owned()));
    yaml_serde::to_string(&one).map_err(|e| e.to_string())
}

/// `s` without its trailing line feeds.
pub open spec fn trim_lf(s: Seq<char>) -> Seq<char>
    decreases s.len(),
{
    if s.len() > 0 && s.last() == '\n' {
        trim_lf(s.drop_last())
    } else {
        s
    }
}

/// `s` with each line feed replaced by `nl`.
pub open spec fn replace_lf(s: Seq<char>, nl: Seq<char>) -> Seq<char>
    decreases s.len(),
{
    if s.len() == 0 {
        Seq::empty()
    } else {
        replace_lf(s.drop_last(), nl) + if s.last() == '\n' {
            nl
        } else {
            seq![s.last()]
        }
    }
}

/// The emitter's text as one line group of a block terminated by `nl`.
pub open spec fn pair_line(emitted: Seq<char>, nl: Seq<char>) -> Seq<char> {
    replace_lf(trim_lf(emitted), nl) + nl
}

/// `key: <value>` through `yaml_serde`, re-terminated with `nl`.
fn emit_scalar_pair(key: &str, value: &str, nl: &str) -> (r: Result<String, String>)
    ensures
        yaml_pair_text(key@, value@) matches Ok(t) ==> (r matches Ok(x) && x@ == pair_line(
            t,
            nl@,
        )),
        yaml_pair_text(key@, value@) matches Err(m) ==> (r matches Err(x) && x@ == m),
{
    let emitted = match emit_yaml_pair(key, value) {
        Ok(t) => t,
        Err(m) => {
            return Err(m);
        },
    };
    let e = emitted.as_str();
    let mut end = e.unicode_len();
    assert(e@.take(end as int) =~= e@);
    while end > 0 && e.get_char(end - 1) == '\n'
        invariant
            end <= e@.len(),
            trim_lf(e@) == trim_lf(e@.take(end as int)),
        decreases end,
    {
        assert(e@.take(end as int).drop_last() =~= e@.take(end - 1));
        end = end - 1;
    }
    assert(trim_lf(e@.take(end as int)) == e@.take(end as int));
    let mut out = String::new();
    let mut i: usize = 0;
    while i < end
        invariant
            end <= e@.len(),
            i <= end,
            out@ == replace_lf(e@.take(i as int), nl@),
        decreases end - i,
    {
        assert(e@.take(i + 1).drop_last() =~= e@.take(i as int));
        let c = e.get_char(i);
        if c == '\n' {
            out.append(nl);
        } else {
            let one = e.substring_char(i, i + 1);
            assert(one@ =~= seq![c]);
            out.append(one);
        }
        i = i + 1;
    }
    assert(e@.take(end as int).take(end as int) =~= e@.take(end as int));
    out.append(nl);
    Ok(out)
}

/// `key:` and a terminator, when `blank`; nothing otherwise.
pub open spec fn placeholder(key: Seq<char>, nl: Seq<char>, blank: bool) -> Seq<char> {
    if blank {
        key + ":"@ + nl
    } else {
        Seq::empty()
    }
}

/// What one declared entry contributes to a block, and whether its key now counts as written;
/// or the emitter's message.
pub open spec fn emit_one(
    fm: FrontmatterView,
    e: EntryView,
    nl: Seq<char>,
    blank: bool,
    emitted: Seq<Seq<char>>,
) -> Result<(Seq<char>, bool), Seq<char>> {
    if emitted.contains(e.key) {
        Ok((Seq::empty(), false))
    } else {
        match type_role(e.field_type) {
            Some(Role::Title) => match fm.title {
                Some(t) => if t.len() > 0 {
                    match yaml_pair_text(e.key, t) {
                        Ok(x) => Ok((pair_line(x, nl), true)),
                        Err(m) => Err(m),
                    }
                } else {
                    Ok((placeholder(e.key, nl, blank), false))
                },
                None => Ok((placeholder(e.key, nl, blank), false)),
            },
            Some(r) => match if r == Role::ReplyTo {
                fm.reply_to
            } else {
                fm.quote
            } {
                Some(v) => Ok((e.key + ": "@ + crate::note::hyphenated_text(v) + nl, true)),
                None => Ok((placeholder(e.key, nl, blank), false)),
            },
            None => match unknown_source_of(fm.unknown, e.key, 0) {
                Some(src) => Ok((src, true)),
                None => Ok((placeholder(e.key, nl, blank), false)),
            },
        }
    }
}

/// Whether an absent key is written as a placeholder: always for an editing template, only
/// for a required entry otherwise.
pub open spec fn is_blank_entry(e: EntryView, template: bool) -> bool {
    template || e.required
}

/// The declared entries' text, in declared order, and the keys written; or the emitter's message.
pub open spec fn emit_entries(
    fm: FrontmatterView,
    es: Seq<EntryView>,
    nl: Seq<char>,
    template: bool,
) -> Result<(Seq<char>, Seq<Seq<char>>), Seq<char>>
    decreases es.len(),
{
    if es.len() == 0 {
        Ok((Seq::empty(), Seq::empty()))
    } else {
        match emit_entries(fm, es.drop_last(), nl, template) {
            Err(m) => Err(m),
            Ok((out, emitted)) => match emit_one(
                fm,
                es.last(),
                nl,
                is_blank_entry(es.last(), template),
                emitted,
            ) {
                Err(m) => Err(m),
                Ok((piece, added)) => Ok(
                    (
                        out + piece,
                        if added {
                            emitted.push(es.last().key)
                        } else {
                            emitted
                        },
                    ),
                ),
            },
        }
    }
}

/// Once a prefix of the entries fails to emit, so does every longer one, with the same message.
proof fn lemma_emit_error_persists(
    fm: FrontmatterView,
    es: Seq<EntryView>,
    nl: Seq<char>,
    template: bool,
    n: int,
    m: int,
)
    requires
        0 <= n <= m <= es.len(),
        emit_entries(fm, es.take(n), nl, template) is Err,
    ensures
        emit_entries(fm, es.take(m), nl, template) == emit_entries(fm, es.take(n), nl, template),
    decreases m - n,
{
    if n < m {
        lemma_emit_error_persists(fm, es, nl, template, n, m - 1);
        assert(es.take(m).drop_last() =~= es.take(m - 1));
    }
}

/// The declared pass writes no key twice, and only keys the schema declares: the keys it records
/// as written are distinct and each is some entry's key. So a key it wrote is never written again
/// by the pass that follows, which writes only the unknown keys it did not.
pub proof fn lemma_declared_pass_writes_each_key_once(
    fm: FrontmatterView,
    es: Seq<EntryView>,
    nl: Seq<char>,
    template: bool,
)
    requires
        emit_entries(fm, es, nl, template) is Ok,
    ensures
        (emit_entries(fm, es, nl, template)->Ok_0).1.no_duplicates(),
        forall|i: int|
            0 <= i < (emit_entries(fm, es, nl, template)->Ok_0).1.len() ==> exists|j: int|
                0 <= j < es.len() && es[j].key == #[trigger] (emit_entries(fm, es, nl, template)->Ok_0).1[i],
    decreases es.len(),
{
    if es.len() > 0 {
        let d = es.drop_last();
        lemma_declared_pass_writes_each_key_once(fm, d, nl, template);
        let (out, em) = emit_entries(fm, d, nl, template)->Ok_0;
        let (piece, added) = emit_one(fm, es.last(), nl, is_blank_entry(es.last(), template), em)->Ok_0;
        let now = (emit_entries(fm, es, nl, template)->Ok_0).1;
        if added {
            assert(!em.contains(es.last().key));
            assert(now == em.push(es.last().key));
            assert forall|a: int, b: int| 0 <= a < b < now.len() implies now[a] != now[b] by {
                if b == em.len() {
                    assert(now[a] == em[a]);
                    if now[a] == now[b] {
                        assert(em.contains(es.last().key));
                    }
                } else {
                    assert(now[a] == em[a] && now[b] == em[b]);
                }
            }
            assert forall|i: int| 0 <= i < now.len() implies exists|j: int|
                0 <= j < es.len() && es[j].key == #[trigger] now[i] by {
                if i == em.len() {
                    assert(es[es.len() - 1].key == now[i]);
                } else {
                    let j = choose|j: int| 0 <= j < d.len() && d[j].key == #[trigger] em[i];
                    assert(es[j] == d[j]);
                    assert(now[i] == em[i]);
                }
            }
        } else {
            assert(now == em);
            assert forall|i: int| 0 <= i < now.len() implies exists|j: int|
                0 <= j < es.len() && es[j].key == #[trigger] now[i] by {
                let j = choose|j: int| 0 <= j < d.len() && d[j].key == #[trigger] em[i];
                assert(es[j] == d[j]);
            }
        }
    }
}

/// The sources of the unknown keys not already written, in the order they were read.
pub open spec fn rest_unknown(us: Seq<(Seq<char>, Seq<char>)>, emitted: Seq<Seq<char>>) -> Seq<char>
    decreases us.len(),
{
    if us.len() == 0 {
        Seq::empty()
    } else {
        rest_unknown(us.drop_last(), emitted) + if emitted.contains(us.last().0) {
            Seq::empty()
        } else {
            us.last().1
        }
    }
}

/// The block `fm` renders as under `es`: the fences, every declared entry in declared order,
/// then every remaining unknown key in the order it was read; or the emitter's message.
pub open spec fn rendered(fm: FrontmatterView, es: Seq<EntryView>, template: bool) -> Result<
    Seq<char>,
    Seq<char>,
> {
    let nl = newline_text(fm.newline);
    match emit_entries(fm, es, nl, template) {
        Ok((out, emitted)) => Ok("---"@ + nl + out + rest_unknown(fm.unknown, emitted) + "---"@ + nl),
        Err(m) => Err(m),
    }
}

/// A rendered block is fenced: it opens with `---` and the note's line terminator, and closes
/// with the same.
pub proof fn lemma_rendered_is_fenced(fm: FrontmatterView, es: Seq<EntryView>, template: bool)
    ensures
        rendered(fm, es, template) matches Ok(t) ==> ({
            let fence = "---"@ + newline_text(fm.newline);
            &&& fence.is_prefix_of(t)
            &&& t.len() >= fence.len()
            &&& t.skip(t.len() - fence.len()) == fence
        }),
{
    let nl = newline_text(fm.newline);
    let fence = "---"@ + nl;
    if let Ok((out, emitted)) = emit_entries(fm, es, nl, template) {
        let mid = out + rest_unknown(fm.unknown, emitted);
        let t = "---"@ + nl + out + rest_unknown(fm.unknown, emitted) + "---"@ + nl;
        assert(t =~= fence + mid + fence);
        assert(t.subrange(0, fence.len() as int) =~= fence);
        assert(t.skip(t.len() - fence.len()) =~= fence);
    }
}

/// The emitter accepts the title under the key the schema declares for it, when there is one to
/// write.
pub open spec fn title_renders(fm: FrontmatterView, es: Seq<EntryView>) -> bool {
    match (key_for_role(es, Role::Title), fm.title) {
        (Some(k), Some(t)) => t.len() > 0 ==> yaml_pair_text(k, t) is Ok,
        _ => true,
    }
}

/// What [`Frontmatter::emit_entry`] does with a key the note does not carry.
#[derive(Debug, Clone, Copy, PartialEq, Eq, Structural)]
enum Absent {
    /// Let each entry's `required` decide. What a file gets.
    Declared,
    /// Write `key:` for every declared key. What an editing buffer gets.
    Placeholder,
}

/// The views of a list of keys.
pub open spec fn key_texts(ks: Seq<&str>) -> Seq<Seq<char>> {
    ks.map_values(|k: &str| k@)
}

fn contains_key(ks: &Vec<&str>, key: &str) -> (b: bool)
    ensures
        b == key_texts(ks@).contains(key@),
{
    let mut i: usize = 0;
    while i < ks.len()
        invariant
            i <= ks.len(),
            forall|j: int| 0 <= j < i ==> key_texts(ks@)[j] != key@,
        decreases ks.len() - i,
    {
        if str_eq(ks[i], key) {
            assert(key_texts(ks@)[i as int] == key@);
            return true;
        }
        i = i + 1;
    }
    false
}

impl Frontmatter {
    /// Emit one declared entry, recording its key so no later pass repeats it. `blank` decides
    /// what happens when the note carries no value for it: nothing, or an empty placeholder.
    fn emit_entry<'a>(
        &'a self,
        entry: &'a FrontmatterEntry,
        nl: &str,
        out: &mut String,
        emitted: &mut Vec<&'a str>,
        blank: bool,
    ) -> (r: Result<(), String>)
        requires
            nl@ == newline_text(self@.newline),
        ensures
            emit_one(self@, entry@, nl@, blank, key_texts(old(emitted)@)) matches Ok((piece, added))
                ==> (r is Ok && final(out)@ == old(out)@ + piece && key_texts(final(emitted)@) == if added {
                key_texts(old(emitted)@).push(entry@.key)
            } else {
                key_texts(old(emitted)@)
            }),
            emit_one(self@, entry@, nl@, blank, key_texts(old(emitted)@)) matches Err(m) ==> (
            r matches Err(x) && x@ == m),
    {
        let key = entry.key();
        if contains_key(emitted, key) {
            return Ok(());
        }
        match entry.role() {
            Some(Role::Title) => {
                let title = match &self.title {
                    Some(t) => if t.as_str().unicode_len() > 0 {
                        t.as_str()
                    } else {
                        if blank {
                            out.append(key);
                            out.append(":");
                            out.append(nl);
                        }
                        return Ok(());
                    },
                    None => {
                        if blank {
                            out.append(key);
                            out.append(":");
                            out.append(nl);
                        }
                        return Ok(());
                    },
                };
                match emit_scalar_pair(key, title, nl) {
                    Ok(line) => out.append(line.as_str()),
                    Err(m) => {
                        return Err(m);
                    },
                }
            },
            Some(role) => {
                let value = if role == Role::ReplyTo {
                    self.reply_to
                } else {
                    self.quote
                };
                let id = match value {
                    Some(id) => id,
                    None => {
                        if blank {
                            out.append(key);
                            out.append(":");
                            out.append(nl);
                        }
                        return Ok(());
                    },
                };
                let ghost before = out@;
                out.append(key);
                out.append(": ");
                out.append(id.to_string().as_str());
                out.append(nl);
                assert(out@ =~= before + (key@ + ": "@ + id.text() + nl@));
            },
            None => {
                let mut i: usize = 0;
                let ghost us = self@.unknown;
                while i < self.unknown.len()
                    invariant
                        us == unknown_pairs(self.unknown@),
                        i <= self.unknown.len(),
                        unknown_source_of(us, key@, 0) == unknown_source_of(us, key@, i as int),
                    ensures
                        i <= self.unknown.len(),
                        unknown_source_of(us, key@, 0) == unknown_source_of(us, key@, i as int),
                        i < self.unknown.len() ==> us[i as int].0 == key@,
                    decreases self.unknown.len() - i,
                {
                    if str_eq(self.unknown[i].name.as_str(), key) {
                        assert(us[i as int] == self.unknown@[i as int]@);
                        break;
                    }
                    i = i + 1;
                }
                if i == self.unknown.len() {
                    if blank {
                        out.append(key);
                        out.append(":");
                        out.append(nl);
                    }
                    return Ok(());
                }
                assert(us[i as int] == self.unknown@[i as int]@);
                out.append(self.unknown[i].source.as_str());
            },
        }
        emitted.push(key);
        Ok(())
    }

    /// The body of both render modes.
    fn try_render_with(&self, schema: &FrontmatterSchema, absent: Absent) -> (r: Result<
        String,
        String,
    >)
        ensures
            rendered(self@, schema@, absent == Absent::Placeholder) matches Ok(t) ==> (r matches Ok(
                x,
            ) && x@ == t),
            rendered(self@, schema@, absent == Absent::Placeholder) matches Err(m) ==> (r matches Err(
                x,
            ) && x@ == m),
    {
        let template = absent == Absent::Placeholder;
        let nl = self.newline.as_str();
        let mut out = "---".to_owned();
        out.append(nl);
        let ghost head = out@;
        let entries = schema.entries();
        let ghost es = schema@;
        let mut emitted: Vec<&str> = Vec::new();
        let mut i: usize = 0;
        assert(es.take(0) =~= Seq::<EntryView>::empty());
        while i < entries.len()
            invariant
                entry_views(entries@) == es,
                es == schema@,
                nl@ == newline_text(self@.newline),
                i <= entries@.len(),
                emit_entries(self@, es.take(i as int), nl@, template) matches Ok((o, em)) && out@
                    == head + o && key_texts(emitted@) == em,
                head == "---"@ + nl@,
                template == (absent == Absent::Placeholder),
            decreases entries.len() - i,
        {
            let entry = &entries[i];
            let blank = match absent {
                Absent::Placeholder => true,
                Absent::Declared => entry.is_required(),
            };
            assert(es.take(i + 1).drop_last() =~= es.take(i as int));
            assert(es.take(i + 1).last() == entry@);
            let ghost before = out@;
            match self.emit_entry(entry, nl, &mut out, &mut emitted, blank) {
                Ok(()) => {},
                Err(m) => {
                    proof {
                        let (o, em) = emit_entries(self@, es.take(i as int), nl@, template)->Ok_0;
                        assert(blank == is_blank_entry(entry@, template));
                        assert(emit_one(self@, entry@, nl@, blank, em) is Err);
                        assert(emit_entries(self@, es.take(i + 1), nl@, template) == Err::<
                            (Seq<char>, Seq<Seq<char>>),
                            Seq<char>,
                        >(m@));
                        lemma_emit_error_persists(self@, es, nl@, template, i + 1, es.len() as int);
                        assert(es.take(es.len() as int) =~= es);
                    }
                    return Err(m);
                },
            }
            proof {
                let (o, em) = emit_entries(self@, es.take(i as int), nl@, template)->Ok_0;
                assert(out@ == head + (o + (emit_one(self@, entry@, nl@, blank, em)->Ok_0).0)) by {
                    assert(before == head + o);
                }
            }
            i = i + 1;
        }
        assert(es.take(i as int) =~= es);
        let ghost emitted_keys = key_texts(emitted@);
        let ghost body = out@;
        let mut k: usize = 0;
        let ghost us = self@.unknown;
        while k < self.unknown.len()
            invariant
                us == unknown_pairs(self.unknown@),
                emitted_keys == key_texts(emitted@),
                k <= self.unknown.len(),
                out@ == body + rest_unknown(us.take(k as int), emitted_keys),
            decreases self.unknown.len() - k,
        {
            assert(us.take(k + 1).drop_last() =~= us.take(k as int));
            assert(us.take(k + 1).last() == self.unknown@[k as int]@);
            if !contains_key(&emitted, self.unknown[k].name.as_str()) {
                out.append(self.unknown[k].source.as_str());
            } else {
                assert(out@ =~= body + rest_unknown(us.take(k + 1), emitted_keys));
            }
            k = k + 1;
        }
        assert(us.take(k as int) =~= us);
        out.append("---");
        out.append(nl);
        Ok(out)
    }
}

/// Where rendering the first `n` entries of `es` fails, if it does: at the title entry, when it
/// is among them and the emitter refuses the title.
pub open spec fn title_failure(fm: FrontmatterView, es: Seq<EntryView>, n: int) -> Option<Seq<char>> {
    match first_with_role(es, Role::Title, 0, es.len() as int) {
        Some(i) => if i < n {
            match fm.title {
                Some(t) => if t.len() > 0 {
                    match yaml_pair_text(es[i].key, t) {
                        Err(m) => Some(m),
                        Ok(_) => None,
                    }
                } else {
                    None
                },
                None => None,
            }
        } else {
            None
        },
        None => None,
    }
}

/// Under a valid schema, emitting the first `n` entries fails exactly where the title does, and
/// otherwise writes only keys among those entries.
proof fn lemma_emit_outcome(
    fm: FrontmatterView,
    es: Seq<EntryView>,
    nl: Seq<char>,
    template: bool,
    n: int,
)
    requires
        is_valid_schema(es),
        0 <= n <= es.len(),
    ensures
        title_failure(fm, es, n) is None ==> (emit_entries(fm, es.take(n), nl, template) matches Ok(
            (o, em),
        ) && forall|x: int|
            0 <= x < em.len() ==> exists|j: int| 0 <= j < n && #[trigger] em[x] == es[j].key),
        title_failure(fm, es, n) matches Some(m) ==> emit_entries(fm, es.take(n), nl, template)
            == Err::<(Seq<char>, Seq<Seq<char>>), Seq<char>>(m),
    decreases n,
{
    lemma_first_with_role(es, Role::Title, 0, es.len() as int);
    if n == 0 {
        assert(es.take(0) =~= Seq::<EntryView>::empty());
    } else {
        lemma_emit_outcome(fm, es, nl, template, n - 1);
        let e = es[n - 1];
        assert(es.take(n).drop_last() =~= es.take(n - 1));
        assert(es.take(n).last() == e);
        let ti = first_with_role(es, Role::Title, 0, es.len() as int);
        if type_role(e.field_type) == Some(Role::Title) {
            assert(ti == Some(n - 1)) by {
                if ti->0 < n - 1 {
                    assert(type_role(es[ti->0].field_type) == type_role(es[n - 1].field_type));
                }
            }
        } else {
            assert(ti is Some ==> ti->0 != n - 1);
        }
        if title_failure(fm, es, n - 1) is None {
            let (o, em) = emit_entries(fm, es.take(n - 1), nl, template)->Ok_0;
            assert(!em.contains(e.key)) by {
                if em.contains(e.key) {
                    let x = choose|x: int| 0 <= x < em.len() && em[x] == e.key;
                    let j = choose|j: int| 0 <= j < n - 1 && em[x] == es[j].key;
                    assert(es[j].key != es[n - 1].key);
                }
            }
            let r = emit_one(fm, e, nl, is_blank_entry(e, template), em);
            if r is Ok {
                let added = (r->Ok_0).1;
                let em2 = if added {
                    em.push(e.key)
                } else {
                    em
                };
                assert forall|x: int| 0 <= x < em2.len() implies exists|j: int|
                    0 <= j < n && #[trigger] em2[x] == es[j].key by {
                    if x < em.len() {
                        assert(em2[x] == em[x]);
                        let j = choose|j: int| 0 <= j < n - 1 && em[x] == es[j].key;
                        assert(em2[x] == es[j].key);
                    } else {
                        assert(em2[x] == es[n - 1].key);
                    }
                }
            }
        }
    }
}

/// Under a valid schema, rendering succeeds exactly when the emitter accepts the title.
proof fn lemma_rendered_ok(fm: FrontmatterView, es: Seq<EntryView>, template: bool)
    requires
        is_valid_schema(es),
    ensures
        title_failure(fm, es, es.len() as int) is None ==> rendered(fm, es, template) is Ok,
        title_failure(fm, es, es.len() as int) matches Some(m) ==> rendered(fm, es, template)
            == Err::<Seq<char>, Seq<char>>(m),
{
    lemma_emit_outcome(fm, es, newline_text(fm.newline), template, es.len() as int);
    assert(es.take(es.len() as int) =~= es);
}

impl Frontmatter {
    /// Render the block, fences included, in `schema` order; the emitter's message if it refuses
    /// the title.
    ///
    /// The emit order is every key `schema` declares, in declared order (a key with a role from
    /// the typed field it names, any other from its preserved source if the note carries it),
    /// then every remaining preserved key in the order it was read. A required entry the note
    /// has no value for is written as `key:`.
    pub fn try_render(&self, schema: &FrontmatterSchema) -> (r: Result<String, String>)
        ensures
            text_result(r) == rendered(self@, schema@, false),
    {
        proof {
            use_type_invariant(schema);
            lemma_rendered_ok(self@, schema@, false);
            lemma_first_with_role(schema@, Role::Title, 0, schema@.len() as int);
        }
        match (schema.key_for(Role::Title), &self.title) {
            (Some(k), Some(t)) => if t.as_str().unicode_len() > 0 {
                match emit_yaml_pair(k, t.as_str()) {
                    Ok(_) => {},
                    Err(m) => {
                        return Err(m);
                    },
                }
            },
            _ => {},
        }
        Ok(self.render(schema))
    }

    /// [`Frontmatter::render_template`], reporting the emitter's refusal of the title instead of
    /// requiring that it accepts it.
    pub fn try_render_template(&self, schema: &FrontmatterSchema) -> (r: Result<String, String>)
        ensures
            text_result(r) == rendered(self@, schema@, true),
    {
        proof {
            use_type_invariant(schema);
            lemma_rendered_ok(self@, schema@, true);
            lemma_first_with_role(schema@, Role::Title, 0, schema@.len() as int);
        }
        match (schema.key_for(Role::Title), &self.title) {
            (Some(k), Some(t)) => if t.as_str().unicode_len() > 0 {
                match emit_yaml_pair(k, t.as_str()) {
                    Ok(_) => {},
                    Err(m) => {
                        return Err(m);
                    },
                }
            },
            _ => {},
        }
        Ok(self.render_template(schema))
    }

    /// Render the block, fences included, in `schema` order. The emitter must accept the title;
    /// [`Frontmatter::try_render`] is the form that reports when it does not.
    pub fn render(&self, schema: &FrontmatterSchema) -> (s: String)
        requires
            title_renders(self@, schema@),
        ensures
            rendered(self@, schema@, false) == Ok::<Seq<char>, Seq<char>>(s@),
    {
        proof {
            use_type_invariant(schema);
            lemma_rendered_ok(self@, schema@, false);
            lemma_first_with_role(schema@, Role::Title, 0, schema@.len() as int);
        }
        match self.try_render_with(schema, Absent::Declared) {
            Ok(s) => s,
            Err(_) => {
                assert(false);
                String::new()
            },
        }
    }

    /// Render as an editing template: every key the schema declares is present, and the ones
    /// this note does not carry are written as empty placeholders, which read back as absent
    /// (see [`lemma_placeholders_read_as_absent`]).
    pub fn render_template(&self, schema: &FrontmatterSchema) -> (s: String)
        requires
            title_renders(self@, schema@),
        ensures
            rendered(self@, schema@, true) == Ok::<Seq<char>, Seq<char>>(s@),
    {
        proof {
            use_type_invariant(schema);
            lemma_rendered_ok(self@, schema@, true);
            lemma_first_with_role(schema@, Role::Title, 0, schema@.len() as int);
        }
        match self.try_render_with(schema, Absent::Placeholder) {
            Ok(s) => s,
            Err(_) => {
                assert(false);
                String::new()
            },
        }
    }
}

// =============================================================================================
// What a render keeps
// =============================================================================================

/// `a` occurs in `whole` as a contiguous run.
pub open spec fn is_infix(a: Seq<char>, whole: Seq<char>) -> bool {
    exists|p: int| 0 <= p && p + a.len() <= whole.len() && #[trigger] whole.subrange(p, p + a.len()) == a
}

proof fn lemma_infix_left(a: Seq<char>, x: Seq<char>, y: Seq<char>)
    requires
        is_infix(a, x),
    ensures
        is_infix(a, x + y),
{
    let p = choose|p: int| 0 <= p && p + a.len() <= x.len() && #[trigger] x.subrange(p, p + a.len()) == a;
    assert((x + y).subrange(p, p + a.len()) =~= x.subrange(p, p + a.len()));
}

proof fn lemma_infix_right(a: Seq<char>, x: Seq<char>, y: Seq<char>)
    requires
        is_infix(a, y),
    ensures
        is_infix(a, x + y),
{
    let p = choose|p: int| 0 <= p && p + a.len() <= y.len() && #[trigger] y.subrange(p, p + a.len()) == a;
    assert((x + y).subrange(x.len() + p, x.len() + p + a.len()) =~= y.subrange(p, p + a.len()));
}

proof fn lemma_infix_self(a: Seq<char>)
    ensures
        is_infix(a, a),
{
    assert(a.subrange(0int, 0int + a.len()) =~= a);
}

/// Preserved keys whose names are pairwise distinct.
pub open spec fn distinct_names(us: Seq<(Seq<char>, Seq<char>)>) -> bool {
    forall|a: int, b: int| 0 <= a < b < us.len() ==> #[trigger] us[a].0 != #[trigger] us[b].0
}

proof fn lemma_unknown_source_of(us: Seq<(Seq<char>, Seq<char>)>, i: int, j: int)
    requires
        distinct_names(us),
        0 <= j <= i < us.len(),
    ensures
        unknown_source_of(us, us[i].0, j) == Some(us[i].1),
    decreases i - j,
{
    if j < i {
        assert(us[j].0 != us[i].0);
        lemma_unknown_source_of(us, i, j + 1);
    }
}

proof fn lemma_rest_keeps(us: Seq<(Seq<char>, Seq<char>)>, emitted: Seq<Seq<char>>, i: int)
    requires
        0 <= i < us.len(),
        !emitted.contains(us[i].0),
    ensures
        is_infix(us[i].1, rest_unknown(us, emitted)),
    decreases us.len(),
{
    let init = us.drop_last();
    if i == us.len() - 1 {
        lemma_infix_self(us[i].1);
        lemma_infix_right(us[i].1, rest_unknown(init, emitted), us[i].1);
    } else {
        assert(init[i] == us[i]);
        lemma_rest_keeps(init, emitted, i);
        let piece = if emitted.contains(us.last().0) {
            Seq::<char>::empty()
        } else {
            us.last().1
        };
        lemma_infix_left(us[i].1, rest_unknown(init, emitted), piece);
    }
}

proof fn lemma_entries_keep(
    fm: FrontmatterView,
    es: Seq<EntryView>,
    nl: Seq<char>,
    template: bool,
    i: int,
    k: int,
)
    requires
        is_valid_schema(es),
        0 <= k <= es.len(),
        0 <= i < fm.unknown.len(),
        distinct_names(fm.unknown),
        role_of_key(es, fm.unknown[i].0) is None,
        emit_entries(fm, es.take(k), nl, template) is Ok,
        (emit_entries(fm, es.take(k), nl, template)->Ok_0).1.contains(fm.unknown[i].0),
    ensures
        is_infix(fm.unknown[i].1, (emit_entries(fm, es.take(k), nl, template)->Ok_0).0),
    decreases k,
{
    let n = fm.unknown[i].0;
    if k == 0 {
        assert(es.take(0) =~= Seq::<EntryView>::empty());
    } else {
        assert(es.take(k).drop_last() =~= es.take(k - 1));
        let e = es[k - 1];
        assert(es.take(k).last() == e);
        let (o, em) = emit_entries(fm, es.take(k - 1), nl, template)->Ok_0;
        let r = emit_one(fm, e, nl, is_blank_entry(e, template), em);
        let piece = (r->Ok_0).0;
        if em.contains(n) {
            lemma_entries_keep(fm, es, nl, template, i, k - 1);
            lemma_infix_left(fm.unknown[i].1, o, piece);
        } else {
            assert(e.key == n && (r->Ok_0).1);
            lemma_first_with_key(es, n, 0, es.len() as int);
            let x = first_with_key(es, n, 0, es.len() as int)->0;
            assert(x == k - 1) by {
                if x < k - 1 {
                    assert(es[x].key != es[k - 1].key);
                }
            }
            assert(type_role(e.field_type) is None);
            lemma_unknown_source_of(fm.unknown, i, 0);
            assert(piece == fm.unknown[i].1);
            lemma_infix_self(piece);
            lemma_infix_right(piece, o, piece);
        }
    }
}

/// A key jot does not interpret survives a render byte for byte.
///
/// Rendered under a schema that gives none of the note's preserved keys a role, as the schema it
/// was read with does not, a block holds every preserved key's source text unchanged, whatever
/// the typed fields hold: either at the position the schema declares for the key, or after the
/// declared keys.
pub proof fn lemma_unknown_keys_survive_render(
    fm: FrontmatterView,
    es: Seq<EntryView>,
    template: bool,
    i: int,
)
    requires
        is_valid_schema(es),
        0 <= i < fm.unknown.len(),
        distinct_names(fm.unknown),
        forall|a: int| 0 <= a < fm.unknown.len() ==> role_of_key(es, #[trigger] fm.unknown[a].0) is None,
        rendered(fm, es, template) is Ok,
    ensures
        is_infix(fm.unknown[i].1, rendered(fm, es, template)->Ok_0),
{
    let nl = newline_text(fm.newline);
    let (o, em) = emit_entries(fm, es, nl, template)->Ok_0;
    assert(es.take(es.len() as int) =~= es);
    let u = fm.unknown[i];
    assert(role_of_key(es, u.0) is None);
    let head = "---"@ + nl;
    let rest = rest_unknown(fm.unknown, em);
    let tail = "---"@ + nl;
    if em.contains(u.0) {
        lemma_entries_keep(fm, es, nl, template, i, es.len() as int);
        lemma_infix_right(u.1, head, o);
        lemma_infix_left(u.1, head + o, rest);
    } else {
        lemma_rest_keeps(fm.unknown, em, i);
        lemma_infix_right(u.1, head + o, rest);
    }
    lemma_infix_left(u.1, head + o + rest, "---"@);
    lemma_infix_left(u.1, head + o + rest + "---"@, nl);
}

/// What a note's block reads as keeps no key the schema gives a role: those are typed fields.
pub proof fn lemma_read_keeps_no_role(s: Seq<EntryView>, text: Seq<char>, doc: YamlDocView)
    requires
        read_parsed(s, text, doc) is Ok,
    ensures
        forall|a: int|
            0 <= a < (read_parsed(s, text, doc)->Ok_0).unknown.len() ==> role_of_key(
                s,
                #[trigger] (read_parsed(s, text, doc)->Ok_0).unknown[a].0,
            ) is None,
{
    let b = encode_utf8(text);
    let es = mapping_of(doc)->Ok_0;
    lemma_unknown_of_roles(s, es, b, key_spans(b));
}

/// An empty placeholder reads back as absent: a declared key written with no value, as an
/// editing template writes every declared key the note does not carry, becomes no preserved key,
/// and an empty title, `reply_to` or `quote_to` reads as no title or relation. So what a template's
/// untouched placeholders contribute to a read is nothing.
pub proof fn lemma_placeholders_read_as_absent(s: Seq<EntryView>, text: Seq<char>, doc: YamlDocView)
    requires
        read_parsed(s, text, doc) is Ok,
    ensures
        ({
            let v = read_parsed(s, text, doc)->Ok_0;
            let es = mapping_of(doc)->Ok_0;
            &&& forall|a: int| 0 <= a < v.unknown.len() ==> !blank_declared(s, es, #[trigger] v.unknown[a].0)
            &&& (key_for_role(s, Role::Title) matches Some(k) && lookup_from(es, k, 0) == Some(
                YamlValueView::Null,
            )) ==> v.title is None
            &&& (key_for_role(s, Role::ReplyTo) matches Some(k) && lookup_from(es, k, 0) == Some(
                YamlValueView::Null,
            )) ==> v.reply_to is None
            &&& (key_for_role(s, Role::QuoteTo) matches Some(k) && lookup_from(es, k, 0) == Some(
                YamlValueView::Null,
            )) ==> v.quote is None
        }),
{
    let b = encode_utf8(text);
    let es = mapping_of(doc)->Ok_0;
    lemma_unknown_of_roles(s, es, b, key_spans(b));
}

proof fn lemma_unknown_of_roles(
    s: Seq<EntryView>,
    es: Seq<(YamlValueView, YamlValueView)>,
    b: Seq<u8>,
    spans: Seq<(Seq<u8>, int, int)>,
)
    ensures
        forall|a: int|
            0 <= a < unknown_of(s, es, b, spans).len() ==> role_of_key(
                s,
                #[trigger] unknown_of(s, es, b, spans)[a].0,
            ) is None && !blank_declared(s, es, unknown_of(s, es, b, spans)[a].0),
    decreases spans.len(),
{
    if spans.len() > 0 {
        lemma_unknown_of_roles(s, es, b, spans.drop_last());
    }
}

} // verus!
