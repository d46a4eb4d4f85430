//! Note filenames: building them, reading the id back out of them, and recognizing a note file in
//! a directory listing.
//!
//! A note's filename is `<uuid>.md` or `<uuid>_<slug>.md`. The slug is decorative: the reader
//! ignores everything after the first `_`, so renaming a title never moves a note's identity.
//!
//! Paths are text here, with `/` separating components. Moving bytes on disk, listing
//! directories and the atomic write live with the program that does I/O; this module decides
//! which names those operations produce and accept.

use vstd::prelude::*;
use vstd::utf8::{decode_utf8, encode_scalar, encode_utf8, has_width_1_encoding, leading_byte_width_1};
use vstd::string::{StringExecFns, StringSliceAdditionalSpecFns};

use crate::error::Error;
use crate::note::{
    NoteId, hyphenated_bytes, hyphenated_text, is_hyphenated_form,
    uuid_text_value,
};
use crate::text::{
    ascii_lowercase, ascii_string, ascii_text, is_ascii_bytes, lemma_ascii_boundaries, lemma_ascii_text,
    lemma_encode_injective, slice,
};

verus! {

broadcast use vstd::seq::group_seq_axioms;

/// The longest slug [`note_filename`] appends. Path length is the constraint: a hyphenated UUID
/// plus `_` plus `.md` already costs 40 of Windows' traditional 260.
pub const MAX_SLUG_LEN: usize = 60;

// =============================================================================================
// Slugs
// =============================================================================================

/// An ASCII letter or digit.
pub open spec fn is_ascii_alnum(b: u8) -> bool {
    (48 <= b && b <= 57) || (65 <= b && b <= 90) || (97 <= b && b <= 122)
}

/// A byte a slug may hold: a lowercase ASCII letter, a digit, or `_`.
pub open spec fn is_slug_byte(b: u8) -> bool {
    (48 <= b && b <= 57) || (97 <= b && b <= 122) || b == 95
}

/// `b` with an ASCII capital lowered.
pub open spec fn ascii_lower_byte(b: u8) -> u8 {
    if 65 <= b && b <= 90 {
        (b + 32) as u8
    } else {
        b
    }
}

/// The slug of the remaining `input`, continuing a slug `out` already holds.
///
/// Every byte that is not an ASCII letter or digit marks a separator; a run of them, or a run
/// before the first letter, becomes at most one `_`, and only between two kept characters. A
/// character and the separator before it are budgeted together, so the slug stops before it would
/// exceed [`MAX_SLUG_LEN`], and never on a separator. Bytes of a non-ASCII character are all
/// `0x80` or above, so such a character counts as one separator run, as a character would.
pub open spec fn slug_from(input: Seq<u8>, out: Seq<u8>, pending: bool) -> Seq<u8>
    decreases input.len(),
{
    if input.len() == 0 {
        out
    } else if !is_ascii_alnum(input[0]) {
        slug_from(input.drop_first(), out, true)
    } else {
        let sep = pending && out.len() > 0;
        let next = if sep {
            out.push(95u8)
        } else {
            out
        };
        if next.len() + 1 > MAX_SLUG_LEN {
            out
        } else {
            slug_from(input.drop_first(), next.push(ascii_lower_byte(input[0])), false)
        }
    }
}

/// The slug of a title's bytes.
pub open spec fn slug_bytes(title: Seq<u8>) -> Seq<u8> {
    slug_from(title, Seq::empty(), false)
}

/// What every slug looks like: capped, made of slug bytes, and neither starting nor ending with a
/// separator.
pub open spec fn is_slug_shaped(s: Seq<u8>) -> bool {
    &&& s.len() <= MAX_SLUG_LEN
    &&& forall|i: int| 0 <= i < s.len() ==> is_slug_byte(#[trigger] s[i])
    &&& s.len() > 0 ==> s[0] != 95u8 && s[s.len() - 1] != 95u8
}

proof fn lemma_slug_from_shaped(input: Seq<u8>, out: Seq<u8>, pending: bool)
    requires
        is_slug_shaped(out),
    ensures
        is_slug_shaped(slug_from(input, out, pending)),
    decreases input.len(),
{
    if input.len() == 0 {
    } else if !is_ascii_alnum(input[0]) {
        lemma_slug_from_shaped(input.drop_first(), out, true);
    } else {
        let sep = pending && out.len() > 0;
        let next = if sep {
            out.push(95u8)
        } else {
            out
        };
        if next.len() + 1 <= MAX_SLUG_LEN {
            let grown = next.push(ascii_lower_byte(input[0]));
            assert forall|i: int| 0 <= i < grown.len() implies is_slug_byte(#[trigger] grown[i]) by {
                if i < out.len() {
                    assert(grown[i] == out[i]);
                }
            }
            assert(grown[0] != 95u8) by {
                if out.len() > 0 {
                    assert(grown[0] == out[0]);
                }
            }
            lemma_slug_from_shaped(input.drop_first(), grown, false);
        }
    }
}

/// The ASCII letters and digits of `t`, lowercased, in order.
pub open spec fn alnum_lowered(t: Seq<u8>) -> Seq<u8>
    decreases t.len(),
{
    if t.len() == 0 {
        Seq::empty()
    } else if is_ascii_alnum(t[0]) {
        seq![ascii_lower_byte(t[0])] + alnum_lowered(t.drop_first())
    } else {
        alnum_lowered(t.drop_first())
    }
}

/// `s` with its separators left out.
pub open spec fn without_separators(s: Seq<u8>) -> Seq<u8>
    decreases s.len(),
{
    if s.len() == 0 {
        Seq::empty()
    } else if s.last() == 95u8 {
        without_separators(s.drop_last())
    } else {
        without_separators(s.drop_last()).push(s.last())
    }
}

/// No two separators stand side by side in `s`.
pub open spec fn no_double_separator(s: Seq<u8>) -> bool {
    forall|i: int| 0 <= i < s.len() - 1 ==> !(#[trigger] s[i] == 95u8 && s[i + 1] == 95u8)
}

proof fn lemma_push_no_double(s: Seq<u8>, x: u8)
    requires
        no_double_separator(s),
        s.len() == 0 || s.last() != 95u8 || x != 95u8,
    ensures
        no_double_separator(s.push(x)),
{
    let t = s.push(x);
    assert forall|i: int| 0 <= i < t.len() - 1 implies !(#[trigger] t[i] == 95u8 && t[i + 1] == 95u8) by {
        if i + 1 < s.len() {
            assert(t[i] == s[i] && t[i + 1] == s[i + 1]);
        } else {
            assert(t[i] == s.last() && t[i + 1] == x);
        }
    }
}

/// What continuing a slug does: it only ever extends what is there, starts one as soon as a
/// letter or digit comes, keeps separators single, and adds the input's letters and digits in
/// order, lowercased, as far as it goes.
proof fn lemma_slug_from_laws(input: Seq<u8>, out: Seq<u8>, pending: bool)
    requires
        is_slug_shaped(out),
        no_double_separator(out),
    ensures
        out.is_prefix_of(slug_from(input, out, pending)),
        out.len() == 0 && alnum_lowered(input).len() > 0 ==> slug_from(input, out, pending).len() > 0,
        alnum_lowered(input).len() == 0 ==> slug_from(input, out, pending) == out,
        no_double_separator(slug_from(input, out, pending)),
        without_separators(slug_from(input, out, pending)).is_prefix_of(
            without_separators(out) + alnum_lowered(input),
        ),
    decreases input.len(),
{
    let r = slug_from(input, out, pending);
    if input.len() == 0 {
        assert(without_separators(out) + alnum_lowered(input) =~= without_separators(out));
    } else if !is_ascii_alnum(input[0]) {
        lemma_slug_from_laws(input.drop_first(), out, true);
    } else {
        let c = ascii_lower_byte(input[0]);
        let sep = pending && out.len() > 0;
        let next = if sep {
            out.push(95u8)
        } else {
            out
        };
        assert(alnum_lowered(input) == seq![c] + alnum_lowered(input.drop_first()));
        if next.len() + 1 > MAX_SLUG_LEN {
            assert(out.len() > 0);
        } else {
            let grown = next.push(c);
            assert(c != 95u8);
            assert(grown.drop_last() =~= next);
            if sep {
                lemma_push_no_double(out, 95u8);
                assert(out.push(95u8).drop_last() =~= out);
                assert(without_separators(next) == without_separators(out));
            }
            lemma_push_no_double(next, c);
            assert(without_separators(grown) == without_separators(out).push(c));
            assert(is_slug_shaped(grown)) by {
                assert forall|i: int| 0 <= i < grown.len() implies is_slug_byte(#[trigger] grown[i]) by {
                    if i < out.len() {
                        assert(grown[i] == out[i]);
                    }
                }
                if out.len() > 0 {
                    assert(grown[0] == out[0]);
                }
            }
            lemma_slug_from_laws(input.drop_first(), grown, false);
            assert(out.is_prefix_of(grown));
            assert(without_separators(out).push(c) + alnum_lowered(input.drop_first())
                =~= without_separators(out) + alnum_lowered(input));
        }
    }
}

/// The laws of a title's slug: no two separators stand side by side; the slug is empty exactly
/// when the title has no ASCII letter or digit; and with its separators left out, it is a prefix
/// of the title's ASCII letters and digits, lowercased, in order.
pub proof fn lemma_slug_laws(title: Seq<u8>)
    ensures
        no_double_separator(slug_bytes(title)),
        slug_bytes(title).len() == 0 <==> alnum_lowered(title).len() == 0,
        without_separators(slug_bytes(title)).is_prefix_of(alnum_lowered(title)),
{
    lemma_slug_from_laws(title, Seq::empty(), false);
    assert(without_separators(Seq::<u8>::empty()) + alnum_lowered(title) =~= alnum_lowered(title));
}

/// A title has letters or digits to slug exactly when some byte of it is an ASCII letter or digit.
pub proof fn lemma_alnum_lowered_empty(t: Seq<u8>)
    ensures
        alnum_lowered(t).len() == 0 <==> forall|i: int| 0 <= i < t.len() ==> !is_ascii_alnum(#[trigger] t[i]),
    decreases t.len(),
{
    if t.len() > 0 {
        lemma_alnum_lowered_empty(t.drop_first());
        if alnum_lowered(t).len() == 0 {
            assert forall|i: int| 0 <= i < t.len() implies !is_ascii_alnum(#[trigger] t[i]) by {
                if i > 0 {
                    assert(t[i] == t.drop_first()[i - 1]);
                }
            }
        } else if !is_ascii_alnum(t[0]) {
            let j = choose|j: int| 0 <= j < t.drop_first().len() && is_ascii_alnum(#[trigger] t.drop_first()[j]);
            assert(t[j + 1] == t.drop_first()[j]);
        }
    }
}

/// An ASCII letter or digit, as a character.
pub open spec fn is_ascii_alnum_char(c: char) -> bool {
    ('0' <= c && c <= '9') || ('A' <= c && c <= 'Z') || ('a' <= c && c <= 'z')
}

/// The ASCII letters and digits of a title, lowercased, in order, as the bytes they are.
pub open spec fn title_alnums(t: Seq<char>) -> Seq<u8>
    decreases t.len(),
{
    if t.len() == 0 {
        Seq::empty()
    } else if is_ascii_alnum_char(t[0]) {
        seq![ascii_lower_byte((t[0] as u32) as u8)] + title_alnums(t.drop_first())
    } else {
        title_alnums(t.drop_first())
    }
}

proof fn lemma_alnum_lowered_concat(a: Seq<u8>, b: Seq<u8>)
    ensures
        alnum_lowered(a + b) == alnum_lowered(a) + alnum_lowered(b),
    decreases a.len(),
{
    if a.len() == 0 {
        assert(a + b =~= b);
        assert(alnum_lowered(a) + alnum_lowered(b) =~= alnum_lowered(b));
    } else {
        lemma_alnum_lowered_concat(a.drop_first(), b);
        assert((a + b).drop_first() =~= a.drop_first() + b);
        assert((a + b)[0] == a[0]);
        if is_ascii_alnum(a[0]) {
            assert(seq![ascii_lower_byte(a[0])] + (alnum_lowered(a.drop_first()) + alnum_lowered(b))
                =~= (seq![ascii_lower_byte(a[0])] + alnum_lowered(a.drop_first())) + alnum_lowered(b));
        }
    }
}

proof fn lemma_alnum_lowered_scalar(c: char)
    ensures
        alnum_lowered(encode_scalar(c as u32)) == if is_ascii_alnum_char(c) {
            seq![ascii_lower_byte((c as u32) as u8)]
        } else {
            Seq::<u8>::empty()
        },
{
    let u = c as u32;
    let e = encode_scalar(u);
    if has_width_1_encoding(u) {
        assert(e == seq![leading_byte_width_1(u)]);
        assert((u & 0x7F) as u8 == u as u8) by (bit_vector)
            requires
                u <= 0x7F,
        ;
        assert(e.drop_first() =~= Seq::<u8>::empty());
        assert(e[0] == u as u8);
        assert(alnum_lowered(e.drop_first()) == Seq::<u8>::empty());
        assert(is_ascii_alnum(u as u8) == is_ascii_alnum_char(c));
        assert(seq![ascii_lower_byte(u as u8)] + Seq::<u8>::empty() =~= seq![ascii_lower_byte(u as u8)]);
    } else {
        assert forall|i: int| 0 <= i < e.len() implies e[i] >= 0x80 by {
            let a = ((u >> 6) & 0x1F) as u8;
            let b = (u & 0x3F) as u8;
            let d = ((u >> 6) & 0x3F) as u8;
            let f = ((u >> 12) & 0x0F) as u8;
            let g = ((u >> 12) & 0x3F) as u8;
            let h = ((u >> 18) & 0x7) as u8;
            assert((0xC0u8 | a) >= 0x80) by (bit_vector);
            assert((0x80u8 | b) >= 0x80) by (bit_vector);
            assert((0x80u8 | d) >= 0x80) by (bit_vector);
            assert((0xE0u8 | f) >= 0x80) by (bit_vector);
            assert((0x80u8 | g) >= 0x80) by (bit_vector);
            assert((0xF0u8 | h) >= 0x80) by (bit_vector);
        }
        assert(!is_ascii_alnum_char(c));
        lemma_no_alnum_byte(e);
    }
}

proof fn lemma_no_alnum_byte(e: Seq<u8>)
    requires
        forall|i: int| 0 <= i < e.len() ==> e[i] >= 0x80,
    ensures
        alnum_lowered(e) == Seq::<u8>::empty(),
    decreases e.len(),
{
    if e.len() > 0 {
        assert forall|i: int| 0 <= i < e.drop_first().len() implies e.drop_first()[i] >= 0x80 by {
            assert(e.drop_first()[i] == e[i + 1]);
        }
        lemma_no_alnum_byte(e.drop_first());
    }
}

/// The ASCII letters and digits of a title's bytes are those of its characters: every other
/// character encodes to bytes that are neither.
pub proof fn lemma_title_alnums(t: Seq<char>)
    ensures
        alnum_lowered(encode_utf8(t)) == title_alnums(t),
        title_alnums(t).len() == 0 <==> forall|i: int| 0 <= i < t.len() ==> !is_ascii_alnum_char(#[trigger] t[i]),
    decreases t.len(),
{
    if t.len() > 0 {
        lemma_title_alnums(t.drop_first());
        lemma_alnum_lowered_concat(encode_scalar(t[0] as u32), encode_utf8(t.drop_first()));
        lemma_alnum_lowered_scalar(t[0]);
        if is_ascii_alnum_char(t[0]) {
        } else {
            assert(Seq::<u8>::empty() + title_alnums(t.drop_first()) =~= title_alnums(t.drop_first()));
            if title_alnums(t).len() == 0 {
                assert forall|i: int| 0 <= i < t.len() implies !is_ascii_alnum_char(#[trigger] t[i]) by {
                    if i > 0 {
                        assert(t[i] == t.drop_first()[i - 1]);
                    }
                }
            } else {
                let j = choose|j: int| 0 <= j < t.drop_first().len() && is_ascii_alnum_char(#[trigger] t.drop_first()[j]);
                assert(t[j + 1] == t.drop_first()[j]);
            }
        }
    }
}

/// The slug laws, over a title's characters: no two separators side by side; the slug is empty
/// exactly when no character of the title is an ASCII letter or digit; and with its separators
/// left out it is a prefix of the title's ASCII letters and digits, lowercased, in order.
pub proof fn lemma_slug_laws_for_title(title: Seq<char>)
    ensures
        no_double_separator(slug_bytes(encode_utf8(title))),
        slug_bytes(encode_utf8(title)).len() == 0 <==> forall|i: int|
            0 <= i < title.len() ==> !is_ascii_alnum_char(#[trigger] title[i]),
        without_separators(slug_bytes(encode_utf8(title))).is_prefix_of(title_alnums(title)),
{
    lemma_slug_laws(encode_utf8(title));
    lemma_title_alnums(title);
}

/// The slug of a title: lowercase ASCII letters and digits, runs of anything else collapsed to a
/// single `_`, trimmed, and capped at [`MAX_SLUG_LEN`] without ending on a separator.
///
/// Non-ASCII text is dropped rather than transliterated: the slug is decorative and never read
/// back, and the UUID is the part that matters.
pub fn slugify(title: &str) -> (slug: String)
    ensures
        slug@ == ascii_text(slug_bytes(encode_utf8(title@))),
        is_slug_shaped(slug_bytes(encode_utf8(title@))),
{
    let bytes = title.as_bytes();
    let ghost input = bytes@;
    let mut out: Vec<u8> = Vec::new();
    let mut pending = false;
    let mut i: usize = 0;
    proof {
        lemma_slug_from_shaped(input, Seq::empty(), false);
        assert(input.skip(0) =~= input);
    }
    while i < bytes.len()
        invariant_except_break
            input == bytes@,
            i <= input.len(),
            slug_from(input.skip(i as int), out@, pending) == slug_bytes(input),
            is_slug_shaped(out@),
        ensures
            out@ == slug_bytes(input),
            is_slug_shaped(out@),
        decreases input.len() - i,
    {
        let b = bytes[i];
        assert(input.skip(i as int).drop_first() =~= input.skip(i as int + 1));
        assert(input.skip(i as int)[0] == b);
        let alnum = (48 <= b && b <= 57) || (65 <= b && b <= 90) || (97 <= b && b <= 122);
        if !alnum {
            pending = true;
        } else {
            let sep = pending && out.len() > 0;
            let extra: usize = if sep {
                1
            } else {
                0
            };
            if out.len() + extra + 1 > MAX_SLUG_LEN {
                proof {
                    let next = if sep {
                        out@.push(95u8)
                    } else {
                        out@
                    };
                    assert(next.len() == out@.len() + extra);
                    assert(is_ascii_alnum(input.skip(i as int)[0]));
                    assert(slug_from(input.skip(i as int), out@, pending) == out@);
                }
                break;
            }
            let ghost before = out@;
            if sep {
                out.push(95u8);
            }
            let lower: u8 = if 65 <= b && b <= 90 {
                b + 32
            } else {
                b
            };
            out.push(lower);
            pending = false;
            proof {
                let next = if sep {
                    before.push(95u8)
                } else {
                    before
                };
                assert(out@ =~= next.push(ascii_lower_byte(b)));
                lemma_slug_from_shaped(input.skip(i as int), before, !alnum || true);
                assert forall|j: int| 0 <= j < out@.len() implies is_slug_byte(#[trigger] out@[j]) by {
                    if j < before.len() {
                        assert(out@[j] == before[j]);
                    }
                }
                assert(out@[0] != 95u8) by {
                    if before.len() > 0 {
                        assert(out@[0] == before[0]);
                    }
                }
            }
        }
        i = i + 1;
        if i == bytes.len() {
            assert(input.skip(i as int).len() == 0);
        }
    }
    proof {
        assert forall|j: int| 0 <= j < out@.len() implies #[trigger] out@[j] < 128 by {
            assert(is_slug_byte(out@[j]));
        }
    }
    ascii_string(out)
}

/// A staging filename no concurrent write will pick, and one enumeration skips even in the vault
/// root: `.jot-<uuid>.tmp`, with a freshly minted version-7 UUID. It starts with a dot and does
/// not end in `.md`.
pub fn staged_file_name() -> (name: String)
    ensures
        exists|v: u128|
            crate::note::uuid_version(v) == 7 && name@ == ".jot-"@ + hyphenated_text(v) + ".tmp"@,
{
    let id = NoteId::new();
    let mut name = ".jot-".to_owned();
    name.append(id.to_string().as_str());
    name.append(".tmp");
    name
}

// =============================================================================================
// Building a filename
// =============================================================================================

/// Whether a new note's filename carries a slug derived from its title.
///
/// A creation-time option, not a property of the vault: the reader accepts both forms and ignores
/// the slug, so re-slugging on a title change is safe.
#[derive(Debug, Clone, Copy, PartialEq, Eq, Hash)]
pub enum FilenameSlug {
    /// `<uuid>.md`. The default.
    Bare,
    /// `<uuid>_<slug>.md`, when the title yields a non-empty slug.
    FromTitle,
}

impl FilenameSlug {
    /// [`FilenameSlug::Bare`], the default.
    pub fn default() -> (s: FilenameSlug)
        ensures
            s == FilenameSlug::Bare,
    {
        FilenameSlug::Bare
    }
}

/// `.md`.
pub open spec fn md_bytes() -> Seq<u8> {
    seq![46u8, 109u8, 100u8]
}

/// The filename of a note with id value `v` and slug `slug`: the bare form when the slug is
/// empty.
pub open spec fn filename_bytes(v: u128, slug: Seq<u8>) -> Seq<u8> {
    if slug.len() == 0 {
        hyphenated_bytes(v) + md_bytes()
    } else {
        hyphenated_bytes(v) + seq![95u8] + slug + md_bytes()
    }
}

/// The slug a filename gets for this title and option.
pub open spec fn chosen_slug(title: Option<Seq<char>>, slug: FilenameSlug) -> Seq<u8> {
    match (slug, title) {
        (FilenameSlug::FromTitle, Some(t)) => slug_bytes(encode_utf8(t)),
        _ => Seq::empty(),
    }
}

/// The filename a note with this id and title takes.
///
/// `title` is consulted only for [`FilenameSlug::FromTitle`]; a title that slugifies to nothing
/// yields the bare `<uuid>.md` form rather than a trailing separator.
pub fn note_filename(id: NoteId, title: Option<&str>, slug: FilenameSlug) -> (name: String)
    ensures
        name@ == ascii_text(
            filename_bytes(
                id.spec_value(),
                chosen_slug(
                    match title {
                        Some(t) => Some(t@),
                        None => None,
                    },
                    slug,
                ),
            ),
        ),
{
    let slug_text: String = match (slug, title) {
        (FilenameSlug::FromTitle, Some(t)) => slugify(t),
        _ => String::new(),
    };
    let ghost s = chosen_slug(
        match title {
            Some(t) => Some(t@),
            None => None,
        },
        slug,
    );
    proof {
        if let (FilenameSlug::FromTitle, Some(t)) = (slug, title) {
            lemma_slug_from_shaped(encode_utf8(t@), Seq::empty(), false);
        }
        assert forall|j: int| 0 <= j < s.len() implies #[trigger] s[j] < 128 by {
            if let (FilenameSlug::FromTitle, Some(t)) = (slug, title) {
                lemma_slug_from_shaped(encode_utf8(t@), Seq::empty(), false);
                assert(is_slug_byte(s[j]));
            }
        }
        lemma_ascii_text(s);
        assert(slug_text@ == ascii_text(s));
        lemma_encode_injective(slug_text@, ascii_text(s));
    }
    let slug_b = slug_text.as_str().as_bytes();
    assert(slug_b@ == s);
    let mut out: Vec<u8> = Vec::new();
    crate::note::push_hyphenated_bytes(id.as_u128(), &mut out);
    if slug_b.len() > 0 {
        out.push(95u8);
        let mut j: usize = 0;
        let ghost base = out@;
        while j < slug_b.len()
            invariant
                j <= slug_b@.len(),
                out@ == base + slug_b@.take(j as int),
            decreases slug_b@.len() - j,
        {
            out.push(slug_b[j]);
            assert(slug_b@.take(j as int + 1) =~= slug_b@.take(j as int).push(slug_b@[j as int]));
            j = j + 1;
        }
        assert(slug_b@.take(slug_b@.len() as int) =~= slug_b@);
    }
    out.push(46u8);
    out.push(109u8);
    out.push(100u8);
    let ghost expected = filename_bytes(id.spec_value(), s);
    proof {
        assert(out@ =~= expected);
        crate::note::lemma_hyphenated_ascii_pub(id.spec_value());
        assert forall|j: int| 0 <= j < expected.len() implies #[trigger] expected[j] < 128 by {
            if j < 36 {
                assert(expected[j] == hyphenated_bytes(id.spec_value())[j]);
            } else if s.len() > 0 && j >= 37 && j < 37 + s.len() {
                assert(expected[j] == s[j - 37]);
            }
        }
    }
    ascii_string(out)
}

// =============================================================================================
// Reading a filename
// =============================================================================================

/// The index of the last `/` in `b[..end]`, or `-1`.
pub open spec fn last_slash(b: Seq<u8>, end: int) -> int
    decreases end,
{
    if end <= 0 {
        -1
    } else if b[end - 1] == 47u8 {
        end - 1
    } else {
        last_slash(b, end - 1)
    }
}

/// `last_slash` finds a slash before `end`, or reports none.
pub proof fn lemma_last_slash_bound(b: Seq<u8>, end: int)
    ensures
        -1 <= last_slash(b, end),
        end > 0 ==> last_slash(b, end) < end,
        last_slash(b, end) >= 0 ==> b[last_slash(b, end)] == 47u8,
    decreases end,
{
    if end > 0 && b[end - 1] != 47u8 {
        lemma_last_slash_bound(b, end - 1);
    }
}

/// `.`, as bytes.
pub open spec fn dot_bytes() -> Seq<u8> {
    seq![46u8]
}

/// `..`, as bytes.
pub open spec fn dot_dot_bytes() -> Seq<u8> {
    seq![46u8, 46u8]
}

/// The byte range of the final component of the path `b[..end]`: the last component that is
/// neither empty nor `.`, and none at all when that component is `..` or the path has none.
pub open spec fn file_name_range(b: Seq<u8>, end: int) -> Option<(int, int)>
    decreases end,
{
    if end <= 0 {
        None
    } else {
        proof {
            lemma_last_slash_bound(b, end);
        }
        let start = last_slash(b, end) + 1;
        let seg = b.subrange(start, end);
        if seg.len() == 0 || seg == dot_bytes() {
            if start <= 0 {
                None
            } else {
                file_name_range(b, start - 1)
            }
        } else if seg == dot_dot_bytes() {
            None
        } else {
            Some((start, end))
        }
    }
}

/// The index of the first `_` in `b`, if any.
pub open spec fn first_underscore(b: Seq<u8>) -> Option<int>
    decreases b.len(),
{
    if b.len() == 0 {
        None
    } else if b[0] == 95u8 {
        Some(0)
    } else {
        match first_underscore(b.drop_first()) {
            Some(i) => Some(i + 1),
            None => None,
        }
    }
}

/// The bytes of the id a note filename names: the stem before `.md`, up to its first `_`,
/// provided that is 36 bytes long. `None` for a path with no final component, a name not ending
/// in `.md`, and a name whose separator is followed by nothing.
pub open spec fn filename_id_bytes(name: Seq<u8>) -> Option<Seq<u8>> {
    if name.len() < 3 || name.subrange(name.len() - 3, name.len() as int) != md_bytes() {
        None
    } else {
        let stem = name.subrange(0, name.len() - 3);
        let id = match first_underscore(stem) {
            Some(p) => if p == stem.len() - 1 {
                None
            } else {
                Some(stem.subrange(0, p))
            },
            None => Some(stem),
        };
        match id {
            Some(id) => if id.len() == 36 {
                Some(id)
            } else {
                None
            },
            None => None,
        }
    }
}

/// The text of the id the path's filename names, before it is read as a UUID.
pub open spec fn path_id_text(path: Seq<char>) -> Option<Seq<char>> {
    let b = encode_utf8(path);
    match file_name_range(b, b.len() as int) {
        None => None,
        Some((s, e)) => match filename_id_bytes(b.subrange(s, e)) {
            Some(id) => Some(decode_utf8(id)),
            None => None,
        },
    }
}

/// The id a note filename names, when its id text reads as a UUID.
pub open spec fn path_note_id(path: Seq<char>) -> Option<u128> {
    match path_id_text(path) {
        Some(t) => uuid_text_value(t),
        None => None,
    }
}

/// Extracts the id from a note filename.
///
/// Accepts `<uuid>.md` and `<uuid>_<slug>.md`, looking only at the final path component. Only the
/// first `_` separates the id from the slug, and the slug is ignored. The id must be the
/// 36-character hyphenated form, in either case; every near-miss is
/// [`Error::InvalidNoteFilename`] naming `path`.
pub fn parse_note_filename(path: &str) -> (res: Result<NoteId, Error>)
    ensures
        res is Ok <==> path_note_id(path@) is Some,
        res matches Ok(id) ==> path_note_id(path@) == Some(id.spec_value()),
        res matches Err(e) ==> (e matches Error::InvalidNoteFilename { path: p } && p@ == path@),
        path_id_text(path@) matches Some(t) ==> (res is Ok <==> is_hyphenated_form(t)),
        path_id_text(path@) matches Some(t) ==> (is_hyphenated_form(t) ==> (res matches Ok(id)
            && id.text() == ascii_lowercase(t))),
{
    let b = path.as_bytes();
    let ghost bs = b@;
    proof {
        vstd::utf8::encode_utf8_valid_utf8(path@);
    }
    let invalid = Error::InvalidNoteFilename { path: path.to_owned() };
    let range = file_name_range_exec(b);
    let (start, end) = match range {
        Some(r) => r,
        None => {
            return Err(invalid);
        },
    };
    let ghost name = bs.subrange(start as int, end as int);
    if end - start < 3 || b[end - 3] != 46u8 || b[end - 2] != 109u8 || b[end - 1] != 100u8 {
        proof {
            if !(end - start < 3) {
                assert(name.subrange(name.len() - 3, name.len() as int) != md_bytes()) by {
                    let tail = name.subrange(name.len() - 3, name.len() as int);
                    if b[end - 3] != 46u8 {
                        assert(tail[0] != md_bytes()[0]);
                    } else if b[end - 2] != 109u8 {
                        assert(tail[1] != md_bytes()[1]);
                    } else {
                        assert(tail[2] != md_bytes()[2]);
                    }
                }
            }
        }
        return Err(invalid);
    }
    assert(name.subrange(name.len() - 3, name.len() as int) =~= md_bytes());
    let stem_end = end - 3;
    let ghost stem = name.subrange(0, name.len() - 3);
    assert(stem =~= bs.subrange(start as int, stem_end as int));
    let under = first_underscore_exec(b, start, stem_end);
    assert(stem.len() == stem_end - start);
    let id_end = match under {
        Some(p) => {
            if p == stem_end - 1 {
                return Err(invalid);
            }
            p
        },
        None => stem_end,
    };
    assert(stem.subrange(0, id_end - start) =~= bs.subrange(start as int, id_end as int));
    if id_end - start != 36 {
        return Err(invalid);
    }
    proof {
        lemma_ascii_boundaries(bs, end as int - 3);
        if id_end < stem_end {
            lemma_ascii_boundaries(bs, id_end as int);
        }
        if start > 0 {
            lemma_ascii_boundaries(bs, start as int - 1);
        } else {
            vstd::utf8::is_char_boundary_start_end_of_seq(bs);
        }
    }
    let id_text = slice(path, start, id_end);
    proof {
        let idb = bs.subrange(start as int, id_end as int);
        vstd::utf8::encode_utf8_decode_utf8(id_text@);
        assert(decode_utf8(idb) == id_text@);
    }
    match NoteId::parse(id_text) {
        Some(id) => Ok(id),
        None => Err(invalid),
    }
}

fn file_name_range_exec(b: &[u8]) -> (r: Option<(usize, usize)>)
    ensures
        r is None <==> file_name_range(b@, b@.len() as int) is None,
        r matches Some((s, e)) ==> file_name_range(b@, b@.len() as int) == Some(
            (s as int, e as int),
        ),
        r matches Some((s, e)) ==> s <= e <= b@.len(),
        r matches Some((s, e)) ==> (s == 0 || b@[s - 1] == 47u8),
{
    let mut end: usize = b.len();
    loop
        invariant
            end <= b@.len(),
            file_name_range(b@, end as int) == file_name_range(b@, b@.len() as int),
        decreases end,
    {
        if end == 0 {
            return None;
        }
        let slash = last_slash_exec(b, end);
        let start: usize = match slash {
            Some(p) => p + 1,
            None => 0,
        };
        let ghost seg = b@.subrange(start as int, end as int);
        proof {
            lemma_last_slash_bound(b@, end as int);
        }
        let len = end - start;
        if len >= 1 {
            assert(seg[0] == b@[start as int]);
        }
        if len >= 2 {
            assert(seg[1] == b@[start as int + 1]);
        }
        let is_dot = len == 1 && b[start] == 46u8;
        let is_dot_dot = len == 2 && b[start] == 46u8 && b[start + 1] == 46u8;
        proof {
            if len == 1 {
                assert(is_dot == (seg =~= dot_bytes()));
            } else {
                assert(seg.len() != dot_bytes().len());
            }
            if len == 2 {
                assert(is_dot_dot == (seg =~= dot_dot_bytes()));
            } else {
                assert(seg.len() != dot_dot_bytes().len());
            }
        }
        if len == 0 || is_dot {
            if start == 0 {
                return None;
            }
            end = start - 1;
        } else if is_dot_dot {
            return None;
        } else {
            return Some((start, end));
        }
    }
}

fn last_slash_exec(b: &[u8], end: usize) -> (r: Option<usize>)
    requires
        end <= b@.len(),
    ensures
        match r {
            Some(p) => last_slash(b@, end as int) == p as int && p < end && b@[p as int] == 47u8,
            None => last_slash(b@, end as int) == -1,
        },
    decreases end,
{
    if end == 0 {
        None
    } else if b[end - 1] == 47u8 {
        Some(end - 1)
    } else {
        last_slash_exec(b, end - 1)
    }
}

fn first_underscore_exec(b: &[u8], from: usize, to: usize) -> (r: Option<usize>)
    requires
        from <= to <= b@.len(),
    ensures
        r is None <==> first_underscore(b@.subrange(from as int, to as int)) is None,
        r matches Some(p) ==> first_underscore(b@.subrange(from as int, to as int)) == Some(
            p - from,
        ),
        r matches Some(p) ==> from <= p < to && b@[p as int] == 95u8,
    decreases to - from,
{
    let ghost seg = b@.subrange(from as int, to as int);
    if from == to {
        None
    } else if b[from] == 95u8 {
        Some(from)
    } else {
        assert(seg.drop_first() =~= b@.subrange(from as int + 1, to as int));
        first_underscore_exec(b, from + 1, to)
    }
}

/// The id in a filename [`note_filename`] builds is the id it was built from: the filename's id
/// text is the id's canonical form, which [`parse_note_filename`] reads back as that id.
pub proof fn lemma_built_filename_names_its_id(
    id: NoteId,
    title: Option<Seq<char>>,
    slug: FilenameSlug,
)
    ensures
        path_id_text(ascii_text(filename_bytes(id.spec_value(), chosen_slug(title, slug))))
            == Some(id.text()),
        is_hyphenated_form(id.text()),
        ascii_lowercase(id.text()) == id.text(),
{
    let v = id.spec_value();
    let s = chosen_slug(title, slug);
    let f = filename_bytes(v, s);
    if let (FilenameSlug::FromTitle, Some(t)) = (slug, title) {
        lemma_slug_from_shaped(encode_utf8(t), Seq::empty(), false);
    }
    crate::note::lemma_hyphenated_ascii_pub(v);
    assert(is_ascii_bytes(f)) by {
        assert forall|j: int| 0 <= j < f.len() implies #[trigger] f[j] < 128 by {
            if j < 36 {
                assert(f[j] == hyphenated_bytes(v)[j]);
            } else if s.len() > 0 && j >= 37 && j < 37 + s.len() {
                assert(f[j] == s[j - 37]);
                assert(is_slug_byte(s[j - 37]));
            }
        }
    }
    lemma_ascii_text(f);
    assert(encode_utf8(ascii_text(f)) == f);
    assert forall|j: int| 0 <= j < f.len() implies #[trigger] f[j] != 47u8 by {
        if j < 36 {
            assert(f[j] == hyphenated_bytes(v)[j]);
            crate::note::lemma_hyphenated_byte_kinds(v, j);
        } else if s.len() > 0 && j >= 37 && j < 37 + s.len() {
            assert(f[j] == s[j - 37]);
            assert(is_slug_byte(s[j - 37]));
        }
    }
    lemma_no_slash(f, f.len() as int);
    let name = f.subrange(0, f.len() as int);
    assert(name =~= f);
    assert(f.subrange(f.len() - 3, f.len() as int) =~= md_bytes());
    let stem = f.subrange(0, f.len() - 3);
    let h = hyphenated_bytes(v);
    assert forall|j: int| 0 <= j < 36 implies #[trigger] stem[j] != 95u8 by {
        assert(stem[j] == h[j]);
        crate::note::lemma_hyphenated_byte_kinds(v, j);
    }
    if s.len() == 0 {
        assert(stem =~= h);
        lemma_first_underscore_none(stem);
    } else {
        assert(stem =~= h + seq![95u8] + s);
        lemma_first_underscore_at(stem, 36);
        assert(stem.subrange(0, 36) =~= h);
    }
    crate::note::lemma_hyphenated_is_canonical(v);
    lemma_ascii_text(h);
    vstd::utf8::encode_utf8_decode_utf8(hyphenated_text(v));
}

proof fn lemma_no_slash(b: Seq<u8>, end: int)
    requires
        0 <= end <= b.len(),
        forall|j: int| 0 <= j < b.len() ==> #[trigger] b[j] != 47u8,
    ensures
        last_slash(b, end) == -1,
    decreases end,
{
    if end > 0 {
        lemma_no_slash(b, end - 1);
    }
}

proof fn lemma_first_underscore_none(b: Seq<u8>)
    requires
        forall|j: int| 0 <= j < b.len() ==> #[trigger] b[j] != 95u8,
    ensures
        first_underscore(b) is None,
    decreases b.len(),
{
    if b.len() > 0 {
        assert forall|j: int| 0 <= j < b.drop_first().len() implies #[trigger] b.drop_first()[j]
            != 95u8 by {
            assert(b.drop_first()[j] == b[j + 1]);
        }
        lemma_first_underscore_none(b.drop_first());
    }
}

proof fn lemma_first_underscore_at(b: Seq<u8>, p: int)
    requires
        0 <= p < b.len(),
        b[p] == 95u8,
        forall|j: int| 0 <= j < p ==> #[trigger] b[j] != 95u8,
    ensures
        first_underscore(b) == Some(p),
    decreases p,
{
    if p > 0 {
        assert forall|j: int| 0 <= j < p - 1 implies #[trigger] b.drop_first()[j] != 95u8 by {
            assert(b.drop_first()[j] == b[j + 1]);
        }
        lemma_first_underscore_at(b.drop_first(), p - 1);
    }
}

// =============================================================================================
// Recognizing note files
// =============================================================================================

/// Whether a directory entry's name is one enumeration hands over as a note: a `*.md` whose name
/// does not start with a dot. Not an id check — a `*.md` that is not a note filename is still
/// returned, so the caller can report it rather than have it silently vanish.
pub open spec fn is_note_file_name(name: Seq<u8>) -> bool {
    &&& name.len() >= 3
    &&& name.subrange(name.len() - 3, name.len() as int) == md_bytes()
    &&& name[0] != 46u8
}

/// [`is_note_file_name`], for a name as text.
pub fn note_file_name(name: &str) -> (b: bool)
    ensures
        b == is_note_file_name(encode_utf8(name@)),
{
    let bytes = name.as_bytes();
    let n = bytes.len();
    if n < 3 {
        return false;
    }
    let ends = bytes[n - 3] == 46u8 && bytes[n - 2] == 109u8 && bytes[n - 1] == 100u8;
    let ghost tail = bytes@.subrange(n - 3, n as int);
    assert(ends == (tail =~= md_bytes())) by {
        if !ends {
            if bytes[n - 3] != 46u8 {
                assert(tail[0] != md_bytes()[0]);
            } else if bytes[n - 2] != 109u8 {
                assert(tail[1] != md_bytes()[1]);
            } else {
                assert(tail[2] != md_bytes()[2]);
            }
        }
    }
    ends && bytes[0] != 46u8
}

/// Whether a path names a note file: its final component is a `*.md` not starting with a dot.
pub fn is_note_path(path: &str) -> (b: bool)
    ensures
        b == (match file_name_range(encode_utf8(path@), encode_utf8(path@).len() as int) {
            Some((s, e)) => is_note_file_name(encode_utf8(path@).subrange(s, e)),
            None => false,
        }),
{
    let bytes = path.as_bytes();
    match file_name_range_exec(bytes) {
        None => false,
        Some((s, e)) => {
            let ghost name = bytes@.subrange(s as int, e as int);
            let n = e - s;
            if n < 3 {
                return false;
            }
            let ends = bytes[e - 3] == 46u8 && bytes[e - 2] == 109u8 && bytes[e - 1] == 100u8;
            let ghost tail = name.subrange(n - 3, n as int);
            assert(ends == (tail =~= md_bytes())) by {
                if !ends {
                    if bytes[e - 3] != 46u8 {
                        assert(tail[0] != md_bytes()[0]);
                    } else if bytes[e - 2] != 109u8 {
                        assert(tail[1] != md_bytes()[1]);
                    } else {
                        assert(tail[2] != md_bytes()[2]);
                    }
                }
            }
            ends && bytes[s] != 46u8
        },
    }
}

/// `<root>/.jot/.trash` — the one place the on-disk layout of the trash is encoded. Joined as a
/// path joins: no separator is doubled, and an empty root is the current directory.
pub fn trash_dir(root: &str) -> (p: String)
    ensures
        p@ == (if root@.len() == 0 {
            ".jot/.trash"@
        } else if root@.last() == '/' {
            root@ + ".jot/.trash"@
        } else {
            root@ + "/.jot/.trash"@
        }),
{
    let b = root.as_bytes();
    proof {
        crate::text::lemma_last_char_slash(root@);
    }
    if b.len() == 0 {
        return ".jot/.trash".to_owned();
    }
    let mut p = root.to_owned();
    if b[b.len() - 1] == 47u8 {
        p.append(".jot/.trash");
    } else {
        p.append("/.jot/.trash");
    }
    p
}


// =============================================================================================
// Listing order
// =============================================================================================

/// Whether the bytes `a` sort before or with `b`: byte by byte, a prefix first. This is how the
/// platform orders file names.
pub open spec fn bytes_le(a: Seq<u8>, b: Seq<u8>) -> bool
    decreases a.len(),
{
    if a.len() == 0 {
        true
    } else if b.len() == 0 {
        false
    } else if a[0] != b[0] {
        a[0] < b[0]
    } else {
        bytes_le(a.drop_first(), b.drop_first())
    }
}

/// Any two byte strings are ordered one way or the other.
pub proof fn lemma_bytes_le_total(a: Seq<u8>, b: Seq<u8>)
    ensures
        bytes_le(a, b) || bytes_le(b, a),
    decreases a.len(),
{
    if a.len() > 0 && b.len() > 0 && a[0] == b[0] {
        lemma_bytes_le_total(a.drop_first(), b.drop_first());
    }
}

/// Each item's name sorts before or with the next one's.
pub open spec fn sorted_by_name<T>(s: Seq<(String, T)>) -> bool {
    forall|i: int| 0 <= i < s.len() - 1 ==> bytes_le(encode_utf8(#[trigger] s[i].0@), encode_utf8(s[i + 1].0@))
}

/// Whether the name `a` sorts before or with `b`.
fn name_le(a: &str, b: &str) -> (r: bool)
    ensures
        r == bytes_le(encode_utf8(a@), encode_utf8(b@)),
{
    let x = a.as_bytes();
    let y = b.as_bytes();
    let mut i: usize = 0;
    assert(x@.skip(0) =~= x@ && y@.skip(0) =~= y@);
    while i < x.len() && i < y.len() && x[i] == y[i]
        invariant
            i <= x@.len(),
            i <= y@.len(),
            x@ == encode_utf8(a@),
            y@ == encode_utf8(b@),
            bytes_le(x@, y@) == bytes_le(x@.skip(i as int), y@.skip(i as int)),
        decreases x.len() - i,
    {
        assert(x@.skip(i as int).drop_first() =~= x@.skip(i + 1));
        assert(y@.skip(i as int).drop_first() =~= y@.skip(i + 1));
        i = i + 1;
    }
    if i == x.len() {
        true
    } else if i == y.len() {
        false
    } else {
        assert(x@.skip(i as int)[0] == x@[i as int]);
        assert(y@.skip(i as int)[0] == y@[i as int]);
        x[i] < y[i]
    }
}

/// The items ordered by name, as a listing of note files is: the same items, each name sorting
/// before or with the next.
pub fn sort_by_name<T>(items: Vec<(String, T)>) -> (out: Vec<(String, T)>)
    ensures
        out@.to_multiset() == items@.to_multiset(),
        sorted_by_name(out@),
{
    broadcast use {
        vstd::multiset::group_multiset_axioms,
        vstd::multiset::group_multiset_properties,
        vstd::seq_lib::group_to_multiset_ensures,
        vstd::seq_lib::to_multiset_insert,
    };

    let ghost all = items@.to_multiset();
    let mut rest = items;
    let mut out: Vec<(String, T)> = Vec::new();
    assert(out@.to_multiset().len() == 0);
    assert(out@.to_multiset() =~= vstd::multiset::Multiset::<(String, T)>::empty());
    while rest.len() > 0
        invariant
            out@.to_multiset().add(rest@.to_multiset()) == all,
            sorted_by_name(out@),
        decreases rest.len(),
    {
        let ghost before = rest@;
        let x = rest.pop().unwrap();
        proof {
            assert(before.remove(before.len() - 1) =~= rest@);
            assert(before[before.len() - 1] == x);
            assert(before.contains(x));
            vstd::seq_lib::to_multiset_contains(before, x);
            vstd::seq_lib::to_multiset_remove(before, before.len() - 1);
        }
        let mut p: usize = 0;
        while p < out.len() && name_le(out[p].0.as_str(), x.0.as_str())
            invariant
                p <= out@.len(),
                p > 0 ==> bytes_le(encode_utf8(out@[p - 1].0@), encode_utf8(x.0@)),
            decreases out.len() - p,
        {
            p = p + 1;
        }
        let ghost old_out = out@;
        proof {
            if p < old_out.len() {
                lemma_bytes_le_total(encode_utf8(old_out[p as int].0@), encode_utf8(x.0@));
            }
        }
        out.insert(p, x);
        proof {
            assert forall|i: int| 0 <= i < out@.len() - 1 implies bytes_le(
                encode_utf8(#[trigger] out@[i].0@),
                encode_utf8(out@[i + 1].0@),
            ) by {
                if i + 1 < p {
                    assert(out@[i] == old_out[i] && out@[i + 1] == old_out[i + 1]);
                } else if i + 1 == p {
                    assert(out@[i] == old_out[i] && out@[i + 1] == x);
                } else if i == p {
                    assert(out@[i] == x && out@[i + 1] == old_out[i]);
                } else {
                    assert(out@[i] == old_out[i - 1] && out@[i + 1] == old_out[i]);
                    assert(sorted_by_name(old_out));
                    assert(bytes_le(encode_utf8(old_out[i - 1].0@), encode_utf8(old_out[i - 1 + 1].0@)));
                }
            }
            assert(out@ == old_out.insert(p as int, x));
            vstd::seq_lib::to_multiset_insert(old_out, p as int, x);
            assert(out@.to_multiset().add(rest@.to_multiset()) =~= all);
        }
    }
    assert(rest@.to_multiset().len() == 0);
    assert(rest@.to_multiset() =~= vstd::multiset::Multiset::<(String, T)>::empty());
    assert(out@.to_multiset().add(vstd::multiset::Multiset::<(String, T)>::empty()) =~= out@.to_multiset());
    out
}

} // verus!
