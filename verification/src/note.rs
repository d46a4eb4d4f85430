//! `NoteId` and `Note`: a note's identity, and a note as a file holds it.
//!
//! # Identity is the filename
//!
//! The filename's UUID is the note's identity and there is no copy of it in the file. A note's
//! creation time is not stored either: a UUIDv7 carries a 48-bit millisecond timestamp, so
//! [`NoteId::created_at`] reads it back out of the identity.
//!
//! Ids are held as the UUID's 128-bit value, most significant byte first, which is also the order
//! UUIDs sort in: comparing two ids compares their values.

use vstd::prelude::*;
use vstd::string::StrSliceExecFns;
use vstd::utf8::{decode_utf8, encode_utf8, valid_utf8};

use crate::block::{block_end, block_span, fence_newline, interior_bytes, is_missing_block_error};
use crate::error::Error;
use crate::frontmatter::{
    EntryView, Frontmatter, FrontmatterSchema, FrontmatterView, IN_MEMORY_PATH, default_schema,
    id_value, is_read_error, opt_text, read_interior, rendered, title_renders,
};
use crate::fs::path_note_id;

use crate::text::{ascii_lowercase, ascii_string, ascii_text, is_ascii_bytes};

verus! {

broadcast use vstd::seq::group_seq_axioms;

// =============================================================================================
// The hyphenated text form
// =============================================================================================

/// The `k`-th hexadecimal digit of `v`, counting from the most significant (`0 <= k < 32`).
pub open spec fn nibble(v: u128, k: int) -> u8 {
    ((v >> (((31 - k) * 4) as u128)) & 15u128) as u8
}

/// The lowercase ASCII hexadecimal digit for `d < 16`.
pub open spec fn hex_byte(d: u8) -> u8 {
    if d < 10 {
        (48 + d) as u8
    } else {
        (87 + d) as u8
    }
}

/// The positions of the four hyphens in the 36-character form.
pub open spec fn is_hyphen_pos(i: int) -> bool {
    i == 8 || i == 13 || i == 18 || i == 23
}

/// Which hexadecimal digit position `i` of the 36-character form shows.
pub open spec fn digit_index(i: int) -> int {
    if i < 8 {
        i
    } else if i < 13 {
        i - 1
    } else if i < 18 {
        i - 2
    } else if i < 23 {
        i - 3
    } else {
        i - 4
    }
}

/// The canonical lowercase hyphenated form: `xxxxxxxx-xxxx-xxxx-xxxx-xxxxxxxxxxxx`.
pub open spec fn hyphenated_bytes(v: u128) -> Seq<u8> {
    Seq::new(
        36,
        |i: int|
            if is_hyphen_pos(i) {
                45u8
            } else {
                hex_byte(nibble(v, digit_index(i)))
            },
    )
}

/// [`hyphenated_bytes`] as text.
pub open spec fn hyphenated_text(v: u128) -> Seq<char> {
    ascii_text(hyphenated_bytes(v))
}

pub proof fn lemma_nibble_bound(v: u128, k: int)
    requires
        0 <= k < 32,
    ensures
        nibble(v, k) < 16,
{
    let s: u128 = ((31 - k) * 4) as u128;
    assert((v >> s) & 15u128 < 16u128) by (bit_vector);
}

pub proof fn lemma_hyphenated_ascii_pub(v: u128)
    ensures
        is_ascii_bytes(hyphenated_bytes(v)),
        hyphenated_bytes(v).len() == 36,
{
    assert forall|i: int| 0 <= i < 36 implies #[trigger] hyphenated_bytes(v)[i] < 128 by {
        if !is_hyphen_pos(i) {
            lemma_nibble_bound(v, digit_index(i));
        }
    }
}

/// Equal digits at position `k` are equal bits at that position.
proof fn lemma_nibble_bits(v: u128, w: u128, k: int, s: u128)
    requires
        0 <= k < 32,
        s == ((31 - k) * 4) as u128,
        nibble(v, k) == nibble(w, k),
    ensures
        ((v >> s) & 15u128) == ((w >> s) & 15u128),
{
    assert((v >> s) & 15u128 < 16u128) by (bit_vector);
    assert((w >> s) & 15u128 < 16u128) by (bit_vector);
}

/// Two values with the same digits are the same value.
proof fn lemma_nibbles_determine(v: u128, w: u128)
    requires
        forall|k: int| 0 <= k < 32 ==> #[trigger] nibble(v, k) == nibble(w, k),
    ensures
        v == w,
{
    lemma_nibble_bits(v, w, 0, 124u128);
    lemma_nibble_bits(v, w, 1, 120u128);
    lemma_nibble_bits(v, w, 2, 116u128);
    lemma_nibble_bits(v, w, 3, 112u128);
    lemma_nibble_bits(v, w, 4, 108u128);
    lemma_nibble_bits(v, w, 5, 104u128);
    lemma_nibble_bits(v, w, 6, 100u128);
    lemma_nibble_bits(v, w, 7, 96u128);
    lemma_nibble_bits(v, w, 8, 92u128);
    lemma_nibble_bits(v, w, 9, 88u128);
    lemma_nibble_bits(v, w, 10, 84u128);
    lemma_nibble_bits(v, w, 11, 80u128);
    lemma_nibble_bits(v, w, 12, 76u128);
    lemma_nibble_bits(v, w, 13, 72u128);
    lemma_nibble_bits(v, w, 14, 68u128);
    lemma_nibble_bits(v, w, 15, 64u128);
    lemma_nibble_bits(v, w, 16, 60u128);
    lemma_nibble_bits(v, w, 17, 56u128);
    lemma_nibble_bits(v, w, 18, 52u128);
    lemma_nibble_bits(v, w, 19, 48u128);
    lemma_nibble_bits(v, w, 20, 44u128);
    lemma_nibble_bits(v, w, 21, 40u128);
    lemma_nibble_bits(v, w, 22, 36u128);
    lemma_nibble_bits(v, w, 23, 32u128);
    lemma_nibble_bits(v, w, 24, 28u128);
    lemma_nibble_bits(v, w, 25, 24u128);
    lemma_nibble_bits(v, w, 26, 20u128);
    lemma_nibble_bits(v, w, 27, 16u128);
    lemma_nibble_bits(v, w, 28, 12u128);
    lemma_nibble_bits(v, w, 29, 8u128);
    lemma_nibble_bits(v, w, 30, 4u128);
    lemma_nibble_bits(v, w, 31, 0u128);
    assert(v == w) by (bit_vector)
        requires
            ((v >> 0u128) & 15u128) == ((w >> 0u128) & 15u128),
            ((v >> 4u128) & 15u128) == ((w >> 4u128) & 15u128),
            ((v >> 8u128) & 15u128) == ((w >> 8u128) & 15u128),
            ((v >> 12u128) & 15u128) == ((w >> 12u128) & 15u128),
            ((v >> 16u128) & 15u128) == ((w >> 16u128) & 15u128),
            ((v >> 20u128) & 15u128) == ((w >> 20u128) & 15u128),
            ((v >> 24u128) & 15u128) == ((w >> 24u128) & 15u128),
            ((v >> 28u128) & 15u128) == ((w >> 28u128) & 15u128),
            ((v >> 32u128) & 15u128) == ((w >> 32u128) & 15u128),
            ((v >> 36u128) & 15u128) == ((w >> 36u128) & 15u128),
            ((v >> 40u128) & 15u128) == ((w >> 40u128) & 15u128),
            ((v >> 44u128) & 15u128) == ((w >> 44u128) & 15u128),
            ((v >> 48u128) & 15u128) == ((w >> 48u128) & 15u128),
            ((v >> 52u128) & 15u128) == ((w >> 52u128) & 15u128),
            ((v >> 56u128) & 15u128) == ((w >> 56u128) & 15u128),
            ((v >> 60u128) & 15u128) == ((w >> 60u128) & 15u128),
            ((v >> 64u128) & 15u128) == ((w >> 64u128) & 15u128),
            ((v >> 68u128) & 15u128) == ((w >> 68u128) & 15u128),
            ((v >> 72u128) & 15u128) == ((w >> 72u128) & 15u128),
            ((v >> 76u128) & 15u128) == ((w >> 76u128) & 15u128),
            ((v >> 80u128) & 15u128) == ((w >> 80u128) & 15u128),
            ((v >> 84u128) & 15u128) == ((w >> 84u128) & 15u128),
            ((v >> 88u128) & 15u128) == ((w >> 88u128) & 15u128),
            ((v >> 92u128) & 15u128) == ((w >> 92u128) & 15u128),
            ((v >> 96u128) & 15u128) == ((w >> 96u128) & 15u128),
            ((v >> 100u128) & 15u128) == ((w >> 100u128) & 15u128),
            ((v >> 104u128) & 15u128) == ((w >> 104u128) & 15u128),
            ((v >> 108u128) & 15u128) == ((w >> 108u128) & 15u128),
            ((v >> 112u128) & 15u128) == ((w >> 112u128) & 15u128),
            ((v >> 116u128) & 15u128) == ((w >> 116u128) & 15u128),
            ((v >> 120u128) & 15u128) == ((w >> 120u128) & 15u128),
            ((v >> 124u128) & 15u128) == ((w >> 124u128) & 15u128),
    ;
}

/// Each byte of the canonical form is a hyphen, a digit or a lowercase letter `a`–`f`.
pub proof fn lemma_hyphenated_byte_kinds(v: u128, j: int)
    requires
        0 <= j < 36,
    ensures
        hyphenated_bytes(v)[j] == 45u8 || (48u8 <= hyphenated_bytes(v)[j] && hyphenated_bytes(v)[j]
            <= 57u8) || (97u8 <= hyphenated_bytes(v)[j] && hyphenated_bytes(v)[j] <= 102u8),
{
    if !is_hyphen_pos(j) {
        lemma_nibble_bound(v, digit_index(j));
    }
}

/// Two values with the same hyphenated form are the same value.
pub proof fn lemma_hyphenated_injective(v: u128, w: u128)
    requires
        hyphenated_text(v) == hyphenated_text(w),
    ensures
        v == w,
{
    assert forall|k: int| 0 <= k < 32 implies nibble(v, k) == nibble(w, k) by {
        let i = if k < 8 {
            k
        } else if k < 12 {
            k + 1
        } else if k < 16 {
            k + 2
        } else if k < 20 {
            k + 3
        } else {
            k + 4
        };
        assert(!is_hyphen_pos(i) && digit_index(i) == k);
        assert(hyphenated_text(v)[i] == hyphenated_text(w)[i]);
        lemma_nibble_bound(v, k);
        lemma_nibble_bound(w, k);
        let a = hyphenated_bytes(v)[i];
        let b = hyphenated_bytes(w)[i];
        assert(hyphenated_text(v)[i] == a as char);
        assert(hyphenated_text(w)[i] == b as char);
        assert((a as char) as u32 == a as u32);
        assert((b as char) as u32 == b as u32);
        assert(a == b);
    }
    lemma_nibbles_determine(v, w);
}

pub(crate) fn push_hyphenated_bytes(v: u128, out: &mut Vec<u8>)
    ensures
        final(out)@ == old(out)@ + hyphenated_bytes(v),
{
    let ghost start = out@;
    let mut i: usize = 0;
    while i < 36
        invariant
            i <= 36,
            out@ == start + hyphenated_bytes(v).take(i as int),
        decreases 36 - i,
    {
        if i == 8 || i == 13 || i == 18 || i == 23 {
            out.push(45u8);
        } else {
            let k: usize = if i < 8 {
                i
            } else if i < 13 {
                i - 1
            } else if i < 18 {
                i - 2
            } else if i < 23 {
                i - 3
            } else {
                i - 4
            };
            let shift: u128 = ((31 - k) * 4) as u128;
            let d: u128 = (v >> shift) & 15u128;
            assert(d < 16u128) by (bit_vector)
                requires
                    d == (v >> shift) & 15u128,
            ;
            let d8: u8 = d as u8;
            assert(d8 == nibble(v, k as int));
            let b: u8 = if d8 < 10 {
                48 + d8
            } else {
                87 + d8
            };
            out.push(b);
        }
        assert(hyphenated_bytes(v).take(i as int + 1) =~= hyphenated_bytes(v).take(i as int).push(
            hyphenated_bytes(v)[i as int],
        ));
        i = i + 1;
    }
    assert(hyphenated_bytes(v).take(36) =~= hyphenated_bytes(v));
}

/// `v` in the canonical lowercase hyphenated form.
pub fn hyphenated_string(v: u128) -> (s: String)
    ensures
        s@ == hyphenated_text(v),
{
    let mut out: Vec<u8> = Vec::new();
    push_hyphenated_bytes(v, &mut out);
    proof {
        lemma_hyphenated_ascii_pub(v);
        assert(out@ =~= hyphenated_bytes(v));
    }
    ascii_string(out)
}

// =============================================================================================
// Reading UUID text
// =============================================================================================

/// A hexadecimal digit in either case.
pub open spec fn is_hex_char(c: char) -> bool {
    ('0' <= c && c <= '9') || ('a' <= c && c <= 'f') || ('A' <= c && c <= 'F')
}

/// Text in the hyphenated form, in either case.
pub open spec fn is_hyphenated_form(s: Seq<char>) -> bool {
    &&& s.len() == 36
    &&& forall|i: int|
        0 <= i < 36 ==> if is_hyphen_pos(i) {
            #[trigger] s[i] == '-'
        } else {
            is_hex_char(s[i])
        }
}

/// The value `uuid::Uuid::parse_str` reads out of `text`: `None` when it refuses the text.
pub uninterp spec fn uuid_text_value(text: Seq<char>) -> Option<u128>;

/// `uuid::Uuid::parse_str`, as the UUID's 128-bit value.
///
/// The crate accepts the simple, hyphenated, braced and URN forms, hexadecimal digits in either
/// case; what it returns for each is named [`uuid_text_value`]. For the hyphenated form the
/// contract says more, as the crate documents it: the text is accepted, and the value read is the
/// one whose canonical form is the text in lowercase. And the crate decides by length first: a
/// 36-byte text is read as the hyphenated form or refused, a 32-byte text is read as the simple
/// form, which holds hexadecimal digits only, and a text of any length but 32, 36, 38 (braced)
/// and 45 (URN) bytes is refused.
#[verifier::external_body]
fn uuid_parse(text: &str) -> (v: Option<u128>)
    ensures
        v == uuid_text_value(text@),
        !(encode_utf8(text@).len() == 32 || encode_utf8(text@).len() == 36 || encode_utf8(
            text@,
        ).len() == 38 || encode_utf8(text@).len() == 45) ==> v is None,
        encode_utf8(text@).len() == 32 && !(forall|i: int|
            0 <= i < text@.len() ==> is_hex_char(#[trigger] text@[i])) ==> v is None,
        encode_utf8(text@).len() == 36 ==> (v is Some <==> is_hyphenated_form(text@)),
        is_hyphenated_form(text@) ==> v is Some,
        is_hyphenated_form(text@) ==> hyphenated_text(v->0) == ascii_lowercase(text@),
{
    uuid::Uuid::parse_str(text).ok().map(|u| u.as_u128())
}

/// The canonical form is itself in the hyphenated form, and is already lowercase.
pub proof fn lemma_hyphenated_is_canonical(v: u128)
    ensures
        is_hyphenated_form(hyphenated_text(v)),
        ascii_lowercase(hyphenated_text(v)) == hyphenated_text(v),
{
    let t = hyphenated_text(v);
    assert forall|i: int| 0 <= i < 36 implies if is_hyphen_pos(i) {
        #[trigger] t[i] == '-'
    } else {
        is_hex_char(t[i])
    } by {
        if !is_hyphen_pos(i) {
            lemma_nibble_bound(v, digit_index(i));
        }
    }
    assert forall|i: int| 0 <= i < 36 implies !('A' <= #[trigger] t[i] && t[i] <= 'Z') by {
        if !is_hyphen_pos(i) {
            lemma_nibble_bound(v, digit_index(i));
        }
    }
    assert(ascii_lowercase(t) =~= t);
}

/// Reading back the canonical form of a value gives the value.
pub proof fn lemma_parse_canonical(v: u128, w: u128)
    requires
        hyphenated_text(w) == ascii_lowercase(hyphenated_text(v)),
    ensures
        w == v,
{
    lemma_hyphenated_is_canonical(v);
    lemma_hyphenated_injective(w, v);
}

// =============================================================================================
// NoteId
// =============================================================================================

/// `uuid::Uuid::now_v7`, as the UUID's value: a version-7 id whose leading 48 bits are the current
/// time in milliseconds since the Unix epoch.
///
/// Ids minted by one process compare in minting order, because the crate keeps a shared counter
/// for sub-millisecond ordering; no contract here states that, since it depends on the clock.
/// What is stated is the version the crate documents.
#[verifier::external_body]
fn mint_v7() -> (v: u128)
    ensures
        uuid_version(v) == 7,
{
    uuid::Uuid::now_v7().as_u128()
}

/// A note's identity: a UUID, minted as v7 so that ids sort by creation time.
#[derive(Debug, Clone, Copy, PartialEq, Eq, PartialOrd, Ord, Hash)]
pub struct NoteId {
    value: u128,
}

/// The version field of a UUID value.
pub open spec fn uuid_version(v: u128) -> u128 {
    (v >> 76u128) & 15u128
}

/// The creation time a v7 UUID value encodes, in nanoseconds since the Unix epoch; `None` for
/// any other version.
pub open spec fn v7_created_at(v: u128) -> Option<i128> {
    if uuid_version(v) == 7 {
        Some((((v >> 80u128) as int) * 1_000_000) as i128)
    } else {
        None
    }
}

impl NoteId {
    /// The UUID's 128-bit value.
    pub closed spec fn spec_value(self) -> u128 {
        self.value
    }

    /// The canonical lowercase hyphenated text of this id.
    pub open spec fn text(self) -> Seq<char> {
        hyphenated_text(self.spec_value())
    }

    /// Mint a new id. Its version is 7, so [`NoteId::created_at`] is always `Some`.
    pub fn new() -> (id: NoteId)
        ensures
            v7_created_at(id.spec_value()) is Some,
    {
        NoteId { value: mint_v7() }
    }

    /// The id with this 128-bit value.
    pub fn from_u128(value: u128) -> (id: NoteId)
        ensures
            id.spec_value() == value,
    {
        NoteId { value }
    }

    /// The UUID's 128-bit value.
    pub fn as_u128(&self) -> (v: u128)
        ensures
            v == self.spec_value(),
    {
        self.value
    }

    /// The creation time this id encodes, in nanoseconds since the Unix epoch, to millisecond
    /// precision; `None` for an id that is not a UUIDv7.
    pub fn created_at(&self) -> (t: Option<i128>)
        ensures
            t == v7_created_at(self.spec_value()),
    {
        let v = self.value;
        if (v >> 76u128) & 15u128 == 7u128 {
            let ms: u128 = v >> 80u128;
            assert(ms < 0x1_0000_0000_0000u128) by (bit_vector)
                requires
                    ms == v >> 80u128,
            ;
            Some((ms as i128) * 1_000_000)
        } else {
            None
        }
    }

    /// The canonical lowercase hyphenated form, as filenames and frontmatter carry it.
    pub fn to_string(&self) -> (s: String)
        ensures
            s@ == self.text(),
    {
        hyphenated_string(self.value)
    }

    /// The 8-character prefix of the hyphenated form. Not unique by construction; resolving a
    /// prefix is [`crate::snapshot::Snapshot::resolve`]'s job.
    pub fn short(&self) -> (s: String)
        ensures
            s@ == self.text().take(8),
    {
        let mut out: Vec<u8> = Vec::new();
        push_hyphenated_bytes(self.value, &mut out);
        out.truncate(8);
        proof {
            lemma_hyphenated_ascii_pub(self.value);
            assert(out@ =~= hyphenated_bytes(self.value).take(8));
        }
        let s = ascii_string(out);
        assert(s@ =~= self.text().take(8));
        s
    }

    /// Read an id from any form `uuid` accepts: hyphenated, simple, braced, URN. Hexadecimal case
    /// is not significant.
    pub fn parse(text: &str) -> (id: Option<NoteId>)
        ensures
            id is Some <==> uuid_text_value(text@) is Some,
            !(encode_utf8(text@).len() == 32 || encode_utf8(text@).len() == 36 || encode_utf8(
                text@,
            ).len() == 38 || encode_utf8(text@).len() == 45) ==> id is None,
            encode_utf8(text@).len() == 32 && !(forall|i: int|
                0 <= i < text@.len() ==> is_hex_char(#[trigger] text@[i])) ==> id is None,
            encode_utf8(text@).len() == 36 ==> (id is Some <==> is_hyphenated_form(text@)),
            id matches Some(i) ==> uuid_text_value(text@) == Some(i.spec_value()),
            is_hyphenated_form(text@) ==> (id matches Some(i) && i.text() == ascii_lowercase(
                text@,
            )),
    {
        match uuid_parse(text) {
            Some(v) => Some(NoteId { value: v }),
            None => None,
        }
    }
}

// =============================================================================================
// Notes
// =============================================================================================

/// Everything about a note except its body: the row a list view renders.
#[derive(Debug, Clone, PartialEq, Eq)]
pub struct NoteMeta {
    /// From the filename.
    pub id: NoteId,
    /// Decoded from `id`, in nanoseconds since the Unix epoch. `None` when the id is not a
    /// UUIDv7.
    pub created_at: Option<i128>,
    /// Display title. `None` means untitled.
    pub title: Option<String>,
    /// The thread root, derived from the reply chain when a vault is read; `None` where it is not
    /// known.
    pub root: Option<NoteId>,
    /// The note this one replies to. `None` means top-level.
    pub reply_to: Option<NoteId>,
    /// A single cross-tree quote.
    pub quote: Option<NoteId>,
}

impl NoteMeta {
    /// A copy of this row.
    pub fn copy(&self) -> (m: NoteMeta)
        ensures
            m == *self,
    {
        let title = match &self.title {
            Some(t) => Some(t.clone()),
            None => None,
        };
        NoteMeta {
            id: self.id,
            created_at: self.created_at,
            title,
            root: self.root,
            reply_to: self.reply_to,
            quote: self.quote,
        }
    }
}

/// A note: its identity, its frontmatter, and its body, the exact text after the closing fence.
#[derive(Debug, Clone, PartialEq, Eq)]
pub struct Note {
    /// The filename's UUID. The identity, and the only copy of it.
    pub id: NoteId,
    /// The parsed block.
    pub frontmatter: Frontmatter,
    /// Everything after the closing fence, byte for byte.
    pub body: String,
}

/// A copy of an optional string.
pub fn copy_text(t: &Option<String>) -> (c: Option<String>)
    ensures
        opt_text(c) == opt_text(*t),
{
    match t {
        Some(s) => Some(s.clone()),
        None => None,
    }
}

/// The bytes a parse of `bytes` under `schema` gives: its frontmatter and body, or the error
/// it is refused with, naming `path`.
pub open spec fn parsed_as(
    r: Result<(Frontmatter, String), Error>,
    schema: Seq<EntryView>,
    path: Seq<char>,
    bytes: Seq<u8>,
) -> bool {
    &&& !valid_utf8(bytes) ==> (r matches Err(Error::NotUtf8 { path: p }) && p@ == path)
    &&& valid_utf8(bytes) && block_span(decode_utf8(bytes)) is None ==> (r matches Err(e)
        && is_missing_block_error(e, path, bytes))
    &&& valid_utf8(bytes) ==> (block_span(decode_utf8(bytes)) matches Some((s, e)) ==> (
    match read_interior(schema, decode_utf8(interior_bytes(bytes, s, e))) {
        Ok(v) => (r matches Ok((fm, body)) && fm@ == (FrontmatterView {
            newline: fence_newline(bytes, s, e),
            ..v
        }) && encode_utf8(body@) == bytes.skip(block_end(bytes, e))),
        Err(f) => (r matches Err(err) && is_read_error(err, path, f)),
    }))
}

/// Where a note is read from changes only what its errors name: two reads of the same bytes
/// under the same schema, naming different paths, both succeed or both fail, and when they
/// succeed they give the same frontmatter and the same body. So [`Note::parse_at`] on a
/// well-formed filename reads what [`Note::parse`] reads for that filename's id.
pub proof fn lemma_read_does_not_depend_on_the_path(
    r1: Result<(Frontmatter, String), Error>,
    r2: Result<(Frontmatter, String), Error>,
    schema: Seq<EntryView>,
    p1: Seq<char>,
    p2: Seq<char>,
    bytes: Seq<u8>,
)
    requires
        parsed_as(r1, schema, p1, bytes),
        parsed_as(r2, schema, p2, bytes),
    ensures
        r1 is Ok <==> r2 is Ok,
        (r1 is Ok && r2 is Ok) ==> (r1->Ok_0).0@ == (r2->Ok_0).0@ && (r1->Ok_0).1@ == (r2->Ok_0).1@,
{
    if let (Ok((f1, b1)), Ok((f2, b2))) = (r1, r2) {
        crate::text::lemma_encode_injective(b1@, b2@);
    }
}

impl Note {
    /// Assemble a note from parts.
    pub fn new(id: NoteId, frontmatter: Frontmatter, body: String) -> (n: Note)
        ensures
            n == (Note { id, frontmatter, body }),
    {
        Note { id, frontmatter, body }
    }

    /// The creation time the id encodes, in nanoseconds since the Unix epoch.
    pub fn created_at(&self) -> (t: Option<i128>)
        ensures
            t == v7_created_at(self.id.spec_value()),
    {
        self.id.created_at()
    }

    /// The list-view row for this note. Its root is left unknown: it is derived from the whole
    /// vault, not from one file.
    pub fn meta(&self) -> (m: NoteMeta)
        ensures
            m.id == self.id,
            m.created_at == v7_created_at(self.id.spec_value()),
            opt_text(m.title) == self.frontmatter@.title,
            m.root is None,
            id_value(m.reply_to) == self.frontmatter@.reply_to,
            id_value(m.quote) == self.frontmatter@.quote,
    {
        NoteMeta {
            id: self.id,
            created_at: self.created_at(),
            title: copy_text(self.frontmatter.title_text()),
            root: None,
            reply_to: self.frontmatter.reply_to_id(),
            quote: self.frontmatter.quote_id(),
        }
    }

    /// Parse a note whose identity the caller already knows, under the default schema. The bytes
    /// carry no id; errors name [`IN_MEMORY_PATH`].
    pub fn parse(id: NoteId, bytes: &[u8]) -> (r: Result<Note, Error>)
        ensures
            r matches Ok(n) ==> n.id == id,
            parsed_as(
                match r {
                    Ok(n) => Ok((n.frontmatter, n.body)),
                    Err(e) => Err(e),
                },
                default_schema(),
                IN_MEMORY_PATH@,
                bytes@,
            ),
    {
        Note::parse_with_id(id, IN_MEMORY_PATH, bytes)
    }

    /// Parse a note from bytes read from `path`, taking the identity from `path`'s filename,
    /// which is read first: without a well-formed name there is no identity for the bytes.
    pub fn parse_at(path: &str, bytes: &[u8]) -> (r: Result<Note, Error>)
        ensures
            path_note_id(path@) is None ==> (r matches Err(Error::InvalidNoteFilename { path: p })
                && p@ == path@),
            path_note_id(path@) matches Some(v) ==> (r matches Ok(n) ==> n.id.spec_value() == v),
            path_note_id(path@) is Some ==> parsed_as(
                match r {
                    Ok(n) => Ok((n.frontmatter, n.body)),
                    Err(e) => Err(e),
                },
                default_schema(),
                path@,
                bytes@,
            ),
    {
        let id = match crate::fs::parse_note_filename(path) {
            Ok(id) => id,
            Err(e) => {
                return Err(e);
            },
        };
        Note::parse_with_id(id, path, bytes)
    }

    /// Parse a note from bytes read from `path` under `schema`, taking the identity from `path`'s
    /// filename, which is read first.
    pub fn parse_at_under(schema: &FrontmatterSchema, path: &str, bytes: &[u8]) -> (r: Result<Note, Error>)
        ensures
            path_note_id(path@) is None ==> (r matches Err(Error::InvalidNoteFilename { path: p })
                && p@ == path@),
            path_note_id(path@) matches Some(v) ==> (r matches Ok(n) ==> n.id.spec_value() == v),
            path_note_id(path@) is Some ==> parsed_as(
                match r {
                    Ok(n) => Ok((n.frontmatter, n.body)),
                    Err(e) => Err(e),
                },
                schema@,
                path@,
                bytes@,
            ),
    {
        let id = match crate::fs::parse_note_filename(path) {
            Ok(id) => id,
            Err(e) => {
                return Err(e);
            },
        };
        match Frontmatter::parse_document(schema, path, bytes) {
            Ok((frontmatter, body)) => Ok(Note { id, frontmatter, body }),
            Err(e) => Err(e),
        }
    }

    /// Parse a note under the default schema, with the identity and the path to name in errors
    /// given.
    pub fn parse_with_id(id: NoteId, path: &str, bytes: &[u8]) -> (r: Result<Note, Error>)
        ensures
            r matches Ok(n) ==> n.id == id,
            parsed_as(
                match r {
                    Ok(n) => Ok((n.frontmatter, n.body)),
                    Err(e) => Err(e),
                },
                default_schema(),
                path@,
                bytes@,
            ),
    {
        let schema = FrontmatterSchema::jot_default();
        match Frontmatter::parse_document(&schema, path, bytes) {
            Ok((frontmatter, body)) => Ok(Note { id, frontmatter, body }),
            Err(e) => Err(e),
        }
    }

    /// The note's bytes: the block rendered in `schema` order, then the body untouched.
    pub fn to_bytes(&self, schema: &FrontmatterSchema) -> (b: Vec<u8>)
        requires
            title_renders(self.frontmatter@, schema@),
        ensures
            rendered(self.frontmatter@, schema@, false) matches Ok(t) && b@ == encode_utf8(t)
                + encode_utf8(self.body@),
    {
        let block = self.frontmatter.render(schema);
        let mut out = block.as_str().as_bytes_vec();
        let mut tail = self.body.as_str().as_bytes_vec();
        out.append(&mut tail);
        out
    }

    /// The note's bytes, or [`Error::SerializeFrontmatter`] naming the note when the emitter
    /// refuses its title.
    pub fn try_to_bytes(&self, schema: &FrontmatterSchema) -> (r: Result<Vec<u8>, Error>)
        ensures
            rendered(self.frontmatter@, schema@, false) matches Ok(t) ==> (r matches Ok(b) && b@
                == encode_utf8(t) + encode_utf8(self.body@)),
            rendered(self.frontmatter@, schema@, false) matches Err(m) ==> (r matches Err(
                Error::SerializeFrontmatter { id, message },
            ) && id == self.id && message@ == m),
    {
        match self.frontmatter.try_render(schema) {
            Ok(block) => {
                let mut out = block.as_str().as_bytes_vec();
                let mut tail = self.body.as_str().as_bytes_vec();
                out.append(&mut tail);
                Ok(out)
            },
            Err(m) => Err(Error::SerializeFrontmatter { id: self.id, message: m }),
        }
    }
}

} // verus!
