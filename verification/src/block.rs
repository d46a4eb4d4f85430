//! The fenced block of a note file: its line terminator, the lines it is made of, and the
//! top-level keys those lines declare.
//!
//! A top-level key is a line at indentation zero whose first `:` is followed by white space or
//! ends the line. Block scalars, nested mappings, sequence items and trailing comments are all
//! indented or otherwise non-key, so they fall out as continuation lines of the key above them;
//! that is what lets an unknown key be carried as its exact source text.
//!
//! Offsets are byte offsets into the text, and every contract here is stated over
//! `encode_utf8(text@)`, the text's bytes.

use vstd::prelude::*;
use vstd::string::{StrSliceExecFns, StringSliceAdditionalSpecFns};
use vstd::utf8::{
    decode_utf8, encode_utf8, encode_utf8_decode_utf8, encode_utf8_valid_utf8, is_char_boundary,
    valid_utf8,
};

use crate::error::Error;
use crate::text::{
    char_is_whitespace, is_white_space, lemma_ascii_boundaries, lemma_encode_concat,
    lemma_last_char_slash, slice,
};

verus! {

broadcast use vstd::seq::group_seq_axioms;

// =============================================================================================
// Line terminators
// =============================================================================================

/// The line terminator a rendered block uses: adopted from the source, LF for a new note.
#[derive(Debug, Clone, Copy, PartialEq, Eq, Structural, Hash)]
pub enum Newline {
    /// `\n`. What a note created by jot uses.
    Lf,
    /// `\r\n`. Adopted from a file that already used it.
    Crlf,
}

/// The text of a terminator.
pub open spec fn newline_text(n: Newline) -> Seq<char> {
    match n {
        Newline::Lf => seq!['\n'],
        Newline::Crlf => seq!['\r', '\n'],
    }
}

/// The terminator `b` opens with, if it opens with one, and its length in bytes.
pub open spec fn leading_newline(b: Seq<u8>) -> Option<(Newline, usize)> {
    if b.len() >= 2 && b[0] == 13 && b[1] == 10 {
        Some((Newline::Crlf, 2))
    } else if b.len() >= 1 && b[0] == 10 {
        Some((Newline::Lf, 1))
    } else {
        None
    }
}

impl Default for Newline {
    fn default() -> (n: Newline)
        ensures
            n == Newline::Lf,
    {
        Newline::Lf
    }
}

impl Newline {
    /// The text this terminator is.
    pub fn as_str(self) -> (s: &'static str)
        ensures
            s@ == newline_text(self),
    {
        match self {
            Newline::Lf => {
                proof {
                    reveal_strlit("\n");
                }
                "\n"
            },
            Newline::Crlf => {
                proof {
                    reveal_strlit("\r\n");
                }
                "\r\n"
            },
        }
    }

    /// The terminator `text` opens with, if it opens with one, and its length.
    pub fn leading(text: &str) -> (r: Option<(Newline, usize)>)
        ensures
            r == leading_newline(encode_utf8(text@)),
    {
        let b = text.as_bytes();
        if b.len() >= 2 && b[0] == 13 && b[1] == 10 {
            Some((Newline::Crlf, 2))
        } else if b.len() >= 1 && b[0] == 10 {
            Some((Newline::Lf, 1))
        } else {
            None
        }
    }
}

// =============================================================================================
// Lines
// =============================================================================================

/// The offset of the first `\n` at or after `start`, or the end of `b`.
pub open spec fn line_end(b: Seq<u8>, start: int) -> int
    decreases b.len() - start,
{
    if start >= b.len() {
        b.len() as int
    } else if b[start] == 10 {
        start
    } else {
        line_end(b, start + 1)
    }
}

/// Where the line after the one starting at `start` starts, or the end of `b`.
pub open spec fn next_line_start(b: Seq<u8>, start: int) -> int {
    let e = line_end(b, start);
    if e < b.len() {
        e + 1
    } else {
        b.len() as int
    }
}

/// A line starts at `p`: the text's start, or just past a `\n`.
pub open spec fn is_line_start(b: Seq<u8>, p: int) -> bool {
    p == 0 || (0 < p <= b.len() && b[p - 1] == 10)
}

pub proof fn lemma_line_end(b: Seq<u8>, start: int)
    requires
        0 <= start <= b.len(),
    ensures
        start <= line_end(b, start) <= b.len(),
        line_end(b, start) < b.len() ==> b[line_end(b, start)] == 10,
        forall|k: int| start <= k < line_end(b, start) ==> b[k] != 10,
        start < b.len() ==> start < next_line_start(b, start),
        is_line_start(b, next_line_start(b, start)) || next_line_start(b, start) == b.len(),
    decreases b.len() - start,
{
    if start < b.len() && b[start] != 10 {
        lemma_line_end(b, start + 1);
    }
}

/// A line start, or the end, of valid UTF-8 is a character boundary.
pub proof fn lemma_line_start_boundary(b: Seq<u8>, p: int)
    requires
        valid_utf8(b),
        is_line_start(b, p) || p == b.len(),
    ensures
        is_char_boundary(b, p),
{
    vstd::utf8::is_char_boundary_start_end_of_seq(b);
    if p > 0 && p < b.len() {
        lemma_ascii_boundaries(b, p - 1);
    }
}

/// The line of `text` starting at byte `start`, without its terminator, and where the next line
/// starts. `None` once `start` is past the end.
pub fn next_line(text: &str, start: usize) -> (r: Option<(&str, usize)>)
    requires
        is_line_start(encode_utf8(text@), start as int),
    ensures
        start >= encode_utf8(text@).len() ==> r is None,
        start < encode_utf8(text@).len() ==> (r matches Some((l, n)) && encode_utf8(l@)
            == encode_utf8(text@).subrange(start as int, line_end(encode_utf8(text@), start as int))
            && n == next_line_start(encode_utf8(text@), start as int)),
{
    let b = text.as_bytes();
    let ghost bs = encode_utf8(text@);
    assert(b@ == bs);
    if start >= b.len() {
        return None;
    }
    let mut i = start;
    while i < b.len() && b[i] != 10
        invariant
            b@ == bs,
            start <= i <= bs.len(),
            line_end(bs, start as int) == line_end(bs, i as int),
        decreases bs.len() - i,
    {
        i = i + 1;
    }
    proof {
        encode_utf8_valid_utf8(text@);
        lemma_line_end(bs, start as int);
        lemma_line_start_boundary(bs, start as int);
        if i < bs.len() {
            lemma_ascii_boundaries(bs, i as int);
        } else {
            vstd::utf8::is_char_boundary_start_end_of_seq(bs);
        }
    }
    let line = slice(text, start, i);
    let next = if i < b.len() {
        i + 1
    } else {
        i
    };
    Some((line, next))
}

// =============================================================================================
// Top-level keys
// =============================================================================================

/// A line without the `\r` a CRLF terminator leaves on it.
pub open spec fn strip_cr(l: Seq<u8>) -> Seq<u8> {
    if l.len() > 0 && l.last() == 13 {
        l.drop_last()
    } else {
        l
    }
}

/// The first index at or after `from` holding `x`.
pub open spec fn first_byte_from(l: Seq<u8>, x: u8, from: int) -> Option<int>
    decreases l.len() - from,
{
    if from >= l.len() || from < 0 {
        None
    } else if l[from] == x {
        Some(from)
    } else {
        first_byte_from(l, x, from + 1)
    }
}

/// Space or tab.
pub open spec fn is_blank_byte(b: u8) -> bool {
    b == 32 || b == 9
}

/// A `:` at `i` that ends a plain key: followed by white space or by the end of the line.
pub open spec fn is_key_colon(l: Seq<u8>, i: int) -> bool {
    0 <= i < l.len() && l[i] == 58 && (i + 1 == l.len() || is_blank_byte(l[i + 1]))
}

/// The first `:` at or after `from` that ends a plain key.
pub open spec fn key_colon_from(l: Seq<u8>, from: int) -> Option<int>
    decreases l.len() - from,
{
    if from >= l.len() || from < 0 {
        None
    } else if is_key_colon(l, from) {
        Some(from)
    } else {
        key_colon_from(l, from + 1)
    }
}

/// The name a `(name, rest)` split declares: `rest` must be the key's `:`, followed by white space
/// or by the end of the line, and the name must not be empty.
pub open spec fn name_before_colon(name: Seq<u8>, rest: Seq<u8>) -> Option<Seq<u8>> {
    if rest.len() >= 1 && rest[0] == 58 && (rest.len() == 1 || is_blank_byte(rest[1]))
        && name.len() > 0 {
        Some(name)
    } else {
        None
    }
}

/// The key a line declares at column zero, as the bytes of its unquoted name.
///
/// `None` for a blank line, a line opening with white space or `#`, a sequence item (`-` alone or
/// followed by a space), and anything with no `:` indicator. A quoted key runs to the next
/// occurrence of its quote; escapes are not interpreted.
pub open spec fn key_of_line(line: Seq<u8>) -> Option<Seq<u8>> {
    let l = strip_cr(line);
    if l.len() == 0 {
        None
    } else if is_white_space(decode_utf8(l)[0]) || decode_utf8(l)[0] == '#' {
        None
    } else if l =~= seq![45u8] || (l.len() >= 2 && l[0] == 45 && l[1] == 32) {
        None
    } else if l[0] == 34 || l[0] == 39 {
        match first_byte_from(l, l[0], 1) {
            Some(e) => name_before_colon(l.subrange(1, e), l.skip(e + 1)),
            None => None,
        }
    } else {
        match key_colon_from(l, 0) {
            Some(i) => name_before_colon(l.take(i), l.skip(i)),
            None => None,
        }
    }
}

proof fn lemma_first_byte_from(l: Seq<u8>, x: u8, from: int)
    requires
        0 <= from,
    ensures
        first_byte_from(l, x, from) matches Some(i) ==> from <= i < l.len() && l[i] == x,
        first_byte_from(l, x, from) is None ==> forall|k: int| from <= k < l.len() ==> l[k] != x,
    decreases l.len() - from,
{
    if from < l.len() {
        lemma_first_byte_from(l, x, from + 1);
    }
}

proof fn lemma_key_colon_from(l: Seq<u8>, from: int)
    requires
        0 <= from,
    ensures
        key_colon_from(l, from) matches Some(i) ==> from <= i < l.len() && is_key_colon(l, i),
        key_colon_from(l, from) is None ==> forall|k: int|
            from <= k < l.len() ==> !is_key_colon(l, k),
    decreases l.len() - from,
{
    if from < l.len() {
        lemma_key_colon_from(l, from + 1);
    }
}

/// The index of the closing `quote` in `line`, for a quoted key opening at index 0.
fn quoted_scalar_end(line: &[u8], quote: u8) -> (r: Option<usize>)
    ensures
        r == (match first_byte_from(line@, quote, 1) {
            Some(i) => Some(i as usize),
            None => None::<usize>,
        }),
{
    let mut i: usize = 1;
    while i < line.len()
        invariant
            1 <= i,
            first_byte_from(line@, quote, 1) == first_byte_from(line@, quote, i as int),
        decreases line.len() - i,
    {
        if line[i] == quote {
            return Some(i);
        }
        i = i + 1;
    }
    None
}

/// The index of the `:` that ends a plain key: the first colon followed by white space or by the
/// end of the line. This is what makes `relation:reply_to: <id>` one key.
pub fn plain_key_end(line: &str) -> (r: Option<usize>)
    ensures
        r == (match key_colon_from(encode_utf8(line@), 0) {
            Some(i) => Some(i as usize),
            None => None::<usize>,
        }),
{
    let b = line.as_bytes();
    let mut i: usize = 0;
    while i < b.len()
        invariant
            b@ == encode_utf8(line@),
            key_colon_from(b@, 0) == key_colon_from(b@, i as int),
        decreases b.len() - i,
    {
        if b[i] == 58 && (i + 1 == b.len() || b[i + 1] == 32 || b[i + 1] == 9) {
            return Some(i);
        }
        i = i + 1;
    }
    None
}

/// The key `line` declares at column zero, if it declares one.
pub fn top_level_key_name(line: &str) -> (r: Option<String>)
    ensures
        r is Some == key_of_line(encode_utf8(line@)) is Some,
        r matches Some(n) ==> encode_utf8(n@) == key_of_line(encode_utf8(line@))->0,
{
    let ghost lb = encode_utf8(line@);
    let bytes = line.as_bytes();
    proof {
        encode_utf8_valid_utf8(line@);
    }
    let mut n = bytes.len();
    if n > 0 && bytes[n - 1] == 13 {
        proof {
            lemma_ascii_boundaries(lb, n - 1);
        }
        n = n - 1;
    } else {
        proof {
            vstd::utf8::is_char_boundary_start_end_of_seq(lb);
        }
    }
    proof {
        vstd::utf8::is_char_boundary_start_end_of_seq(lb);
    }
    let l = slice(line, 0, n);
    let ghost sb = strip_cr(lb);
    assert(encode_utf8(l@) =~= sb);
    let b = l.as_bytes();
    assert(b@ == sb);
    if n == 0 {
        return None;
    }
    proof {
        lemma_last_char_slash(l@);
        encode_utf8_decode_utf8(l@);
        encode_utf8_valid_utf8(l@);
    }
    let first = l.get_char(0);
    assert(first == decode_utf8(sb)[0]);
    if char_is_whitespace(first) || first == '#' {
        return None;
    }
    if (n == 1 && b[0] == 45) || (n >= 2 && b[0] == 45 && b[1] == 32) {
        assert(n == 1 ==> sb =~= seq![45u8]);
        return None;
    }
    assert(!(sb =~= seq![45u8]));
    let (name_from, name_to, rest): (usize, usize, usize) = if b[0] == 34 || b[0] == 39 {
        match quoted_scalar_end(b, b[0]) {
            Some(e) => {
                proof {
                    lemma_first_byte_from(sb, sb[0], 1);
                }
                (1, e, e + 1)
            },
            None => {
                return None;
            },
        }
    } else {
        match plain_key_end(l) {
            Some(i) => {
                proof {
                    lemma_key_colon_from(sb, 0);
                }
                (0, i, i)
            },
            None => {
                return None;
            },
        }
    };
    let ok = rest < n && b[rest] == 58 && (rest + 1 == n || b[rest + 1] == 32 || b[rest + 1] == 9)
        && name_to > name_from;
    assert(sb.skip(rest as int).len() == n - rest);
    if !ok {
        return None;
    }
    proof {
        lemma_ascii_boundaries(sb, name_to as int);
        if name_from == 1 {
            lemma_ascii_boundaries(sb, 0);
        } else {
            vstd::utf8::is_char_boundary_start_end_of_seq(sb);
        }
    }
    let name = slice(l, name_from, name_to);
    Some(name.to_owned())
}

/// The top-level keys declared from byte `p` on, each with the offset of its line.
pub open spec fn key_starts(b: Seq<u8>, p: int) -> Seq<(Seq<u8>, int)>
    decreases b.len() - p,
{
    if p >= b.len() || p < 0 {
        Seq::empty()
    } else if !is_line_start(b, p) {
        key_starts(b, p + 1)
    } else {
        match key_of_line(b.subrange(p, line_end(b, p))) {
            Some(n) => seq![(n, p)] + key_starts(b, p + 1),
            None => key_starts(b, p + 1),
        }
    }
}

/// Each top-level key of `b` with the byte range of its source: its own line, and every line
/// under it until the next top-level key or the end.
pub open spec fn key_spans(b: Seq<u8>) -> Seq<(Seq<u8>, int, int)> {
    let st = key_starts(b, 0);
    Seq::new(
        st.len(),
        |k: int|
            (
                st[k].0,
                st[k].1,
                if k + 1 < st.len() {
                    st[k + 1].1
                } else {
                    b.len() as int
                },
            ),
    )
}

/// Inside a line, no new key starts before the next line does.
proof fn lemma_key_starts_inside(b: Seq<u8>, p: int, q: int)
    requires
        0 <= p < q <= line_end(b, p),
        line_end(b, p) <= b.len(),
    ensures
        key_starts(b, q) == key_starts(b, next_line_start(b, p)),
    decreases line_end(b, p) - q,
{
    lemma_line_end(b, p);
    let e = line_end(b, p);
    assert(b[q - 1] != 10);
    if q < e {
        lemma_key_starts_inside(b, p, q + 1);
    } else if e < b.len() {
        assert(!is_line_start(b, q));
    }
}

/// From a line start, the keys are the line's own key, if any, then the keys of the lines after.
proof fn lemma_key_starts_step(b: Seq<u8>, p: int)
    requires
        0 <= p < b.len(),
        is_line_start(b, p),
    ensures
        key_starts(b, p) == (match key_of_line(b.subrange(p, line_end(b, p))) {
            Some(n) => seq![(n, p)],
            None => Seq::empty(),
        }) + key_starts(b, next_line_start(b, p)),
{
    lemma_line_end(b, p);
    let e = line_end(b, p);
    if p + 1 <= e {
        lemma_key_starts_inside(b, p, p + 1);
    } else {
        assert(next_line_start(b, p) == p + 1);
    }
    match key_of_line(b.subrange(p, line_end(b, p))) {
        Some(n) => {},
        None => {
            assert(Seq::<(Seq<u8>, int)>::empty() + key_starts(b, p + 1) =~= key_starts(b, p + 1));
        },
    }
}

/// The key starts from `p` are line starts in `p..`, in increasing order.
pub proof fn lemma_key_starts_ordered(b: Seq<u8>, p: int)
    requires
        0 <= p,
    ensures
        forall|k: int|
            0 <= k < key_starts(b, p).len() ==> p <= (#[trigger] key_starts(b, p)[k]).1 < b.len()
                && is_line_start(b, key_starts(b, p)[k].1),
        forall|i: int, j: int|
            0 <= i < j < key_starts(b, p).len() ==> (#[trigger] key_starts(b, p)[i]).1 < (
            #[trigger] key_starts(b, p)[j]).1,
    decreases b.len() - p,
{
    if p < b.len() {
        lemma_key_starts_ordered(b, p + 1);
        let rest = key_starts(b, p + 1);
        if is_line_start(b, p) {
            match key_of_line(b.subrange(p, line_end(b, p))) {
                Some(n) => {
                    let s = seq![(n, p)] + rest;
                    assert(key_starts(b, p) == s);
                    assert forall|k: int| 0 < k < s.len() implies #[trigger] s[k] == rest[k - 1] by {}
                    assert forall|k: int| 0 <= k < s.len() implies p <= (#[trigger] s[k]).1 < b.len()
                        && is_line_start(b, s[k].1) by {
                        if k > 0 {
                            assert(s[k] == rest[k - 1]);
                        }
                    }
                    assert forall|i: int, j: int| 0 <= i < j < s.len() implies (#[trigger] s[i]).1
                        < (#[trigger] s[j]).1 by {
                        assert(s[j] == rest[j - 1]);
                        if i > 0 {
                            assert(s[i] == rest[i - 1]);
                        }
                    }
                },
                None => {},
            }
        }
    }
}

/// Each top-level key in `interior`, with the byte range of its source.
pub fn top_level_key_spans(interior: &str) -> (r: Vec<(String, usize, usize)>)
    ensures
        r@.len() == key_spans(encode_utf8(interior@)).len(),
        forall|k: int|
            0 <= k < r@.len() ==> encode_utf8((#[trigger] r@[k]).0@) == key_spans(
                encode_utf8(interior@),
            )[k].0 && r@[k].1 == key_spans(encode_utf8(interior@))[k].1 && r@[k].2 == key_spans(
                encode_utf8(interior@),
            )[k].2,
{
    let ghost b = encode_utf8(interior@);
    let len = interior.as_bytes().len();
    assert(len == b.len());
    let mut starts: Vec<(String, usize)> = Vec::new();
    let ghost mut seen: Seq<(Seq<u8>, int)> = Seq::empty();
    let mut offset: usize = 0;
    while offset < len
        invariant
            b == encode_utf8(interior@),
            len == b.len(),
            offset <= len,
            is_line_start(b, offset as int) || offset == len,
            key_starts(b, 0) == seen + key_starts(b, offset as int),
            starts@.len() == seen.len(),
            forall|k: int|
                0 <= k < seen.len() ==> encode_utf8((#[trigger] starts@[k]).0@) == seen[k].0
                    && starts@[k].1 == seen[k].1,
        decreases len - offset,
    {
        proof {
            lemma_key_starts_step(b, offset as int);
            lemma_line_end(b, offset as int);
        }
        match next_line(interior, offset) {
            Some((line, next)) => {
                let ghost before = seen;
                match top_level_key_name(line) {
                    Some(name) => {
                        starts.push((name, offset));
                        proof {
                            seen = seen.push((key_of_line(encode_utf8(line@))->0, offset as int));
                            assert(seen =~= before + seq![
                                (key_of_line(encode_utf8(line@))->0, offset as int),
                            ]);
                        }
                    },
                    None => {},
                }
                proof {
                    assert(encode_utf8(line@) == b.subrange(
                        offset as int,
                        line_end(b, offset as int),
                    ));
                    assert(key_starts(b, 0) =~= seen + key_starts(b, next as int));
                }
                offset = next;
            },
            None => {
                assert(false);
            },
        }
    }
    assert(key_starts(b, offset as int) =~= Seq::<(Seq<u8>, int)>::empty());
    assert(seen =~= key_starts(b, 0));
    let ghost spans = key_spans(b);
    let mut out: Vec<(String, usize, usize)> = Vec::new();
    let mut i: usize = 0;
    while i < starts.len()
        invariant
            b == encode_utf8(interior@),
            len == b.len(),
            spans == key_spans(b),
            seen == key_starts(b, 0),
            starts@.len() == seen.len(),
            forall|k: int|
                0 <= k < seen.len() ==> encode_utf8((#[trigger] starts@[k]).0@) == seen[k].0
                    && starts@[k].1 == seen[k].1,
            i <= starts@.len(),
            out@.len() == i,
            forall|k: int|
                0 <= k < i ==> encode_utf8((#[trigger] out@[k]).0@) == spans[k].0 && out@[k].1
                    == spans[k].1 && out@[k].2 == spans[k].2,
        decreases starts.len() - i,
    {
        let end = if i + 1 < starts.len() {
            starts[i + 1].1
        } else {
            len
        };
        let name = starts[i].0.clone();
        out.push((name, starts[i].1, end));
        i = i + 1;
    }
    out
}

// =============================================================================================
// Splitting a document
// =============================================================================================

/// The children of the root that `markdown::to_mdast` builds for `text` with the frontmatter
/// construct on: for each, whether it is a YAML frontmatter node, and its byte span when the
/// parser reports one. `None` when the parse fails.
pub uninterp spec fn mdast_root_children(text: Seq<char>) -> Option<
    Seq<(bool, Option<(usize, usize)>)>,
>;

/// `markdown::to_mdast` with the frontmatter construct on (and MDX off), as the root's children.
///
/// Nothing is claimed of the result beyond its name: which node is the frontmatter and where the
/// parser says it is are the crate's grammar.
#[verifier::external_body]
fn root_children(text: &str) -> (r: Option<Vec<(bool, Option<(usize, usize)>)>>)
    ensures
        r is Some == mdast_root_children(text@) is Some,
        r matches Some(v) ==> mdast_root_children(text@) == Some(v@),
{
    let options = markdown::ParseOptions {
        constructs: markdown::Constructs { frontmatter: true, ..markdown::Constructs::default() },
        ..markdown::ParseOptions::default()
    };
    let Ok(markdown::mdast::Node::Root(root)) = markdown::to_mdast(text, &options) else {
        return None;
    };
    let span = |c: &markdown::mdast::Node| c.position().map(|p| (p.start.offset, p.end.offset));
    Some(root.children.iter().map(|c| (matches!(c, markdown::mdast::Node::Yaml(_)), span(c))).collect())
}

/// The span of the first YAML frontmatter node among `cs` that reports one.
pub open spec fn first_yaml_span(cs: Seq<(bool, Option<(usize, usize)>)>) -> Option<(usize, usize)>
    decreases cs.len(),
{
    if cs.len() == 0 {
        None
    } else if cs[0].0 && cs[0].1 is Some {
        cs[0].1
    } else {
        first_yaml_span(cs.drop_first())
    }
}

/// The byte span of the fenced block the root's children `cs` report for `text`, both fences
/// included and the closing fence's terminator not: the first frontmatter node's span, when it
/// lies on character boundaries of the text.
pub open spec fn children_span(text: Seq<char>, cs: Seq<(bool, Option<(usize, usize)>)>) -> Option<(int, int)> {
    match first_yaml_span(cs) {
        Some(sp) => if sp.0 <= sp.1 <= encode_utf8(text).len() && is_char_boundary(
            encode_utf8(text),
            sp.0 as int,
        ) && is_char_boundary(encode_utf8(text), sp.1 as int) {
            Some((sp.0 as int, sp.1 as int))
        } else {
            None
        },
        None => None,
    }
}

/// The byte span of `text`'s fenced block, both fences included and the closing fence's
/// terminator not: the parser's span, when it lies on character boundaries of the text.
pub open spec fn block_span(text: Seq<char>) -> Option<(int, int)> {
    match mdast_root_children(text) {
        Some(cs) => children_span(text, cs),
        None => None,
    }
}

/// Where the block ends: past the closing fence's terminator, when one follows it.
pub open spec fn block_end(b: Seq<u8>, end: int) -> int {
    end + match leading_newline(b.skip(end)) {
        Some((_, k)) => k as int,
        None => 0,
    }
}

/// The last index below `upto` holding `x`.
pub open spec fn last_byte_below(l: Seq<u8>, x: u8, upto: int) -> Option<int>
    decreases upto,
{
    if upto <= 0 {
        None
    } else if l[upto - 1] == x {
        Some(upto - 1)
    } else {
        last_byte_below(l, x, upto - 1)
    }
}

/// The bytes between the fence lines of the block `b[start..end]`: from just past its first
/// terminator to the start of its last line. Empty for a block of one line.
pub open spec fn interior_bytes(b: Seq<u8>, start: int, end: int) -> Seq<u8> {
    let f = b.subrange(start, end);
    match first_byte_from(f, 10, 0) {
        Some(i) => b.subrange(start + i + 1, start + last_byte_below(f, 10, f.len() as int)->0 + 1),
        None => Seq::empty(),
    }
}

/// The terminator the opening fence line of the block `b[start..end]` uses.
pub open spec fn fence_newline(b: Seq<u8>, start: int, end: int) -> Newline {
    let f = b.subrange(start, end);
    match first_byte_from(f, 10, 0) {
        Some(i) => if i > 0 && f[i - 1] == 13 {
            Newline::Crlf
        } else {
            Newline::Lf
        },
        None => Newline::Lf,
    }
}

/// The three slices a note file decomposes into, and the interior of the block.
pub struct Split<'a> {
    /// Everything before the opening fence: a byte order mark or nothing.
    pub prefix: &'a str,
    /// The fenced block, opening fence through the closing fence's terminator.
    pub block: &'a str,
    /// The text between the fence lines.
    pub interior: &'a str,
    /// The body, byte for byte.
    pub body: &'a str,
    /// The terminator the opening fence line used.
    pub newline: Newline,
}

/// `sp` is the split of the text with bytes `b` whose block spans `start..end`.
pub open spec fn is_split_at(sp: Split, b: Seq<u8>, start: int, end: int) -> bool {
    &&& encode_utf8(sp.prefix@) == b.take(start)
    &&& encode_utf8(sp.block@) == b.subrange(start, block_end(b, end))
    &&& encode_utf8(sp.body@) == b.skip(block_end(b, end))
    &&& encode_utf8(sp.interior@) == interior_bytes(b, start, end)
    &&& sp.newline == fence_newline(b, start, end)
}

/// The UTF-8 byte order mark.
pub open spec fn bom_bytes() -> Seq<u8> {
    seq![0xEFu8, 0xBBu8, 0xBFu8]
}

/// A line without a leading byte order mark.
pub open spec fn without_bom(l: Seq<u8>) -> Seq<u8> {
    if l.len() >= 3 && l.take(3) == bom_bytes() {
        l.skip(3)
    } else {
        l
    }
}

/// `---` followed by nothing but white space.
pub open spec fn is_fence_line(l: Seq<u8>) -> bool {
    l.len() >= 3 && l[0] == 45 && l[1] == 45 && l[2] == 45 && crate::text::is_blank(
        decode_utf8(l.skip(3)),
    )
}

/// A document with no block opens with a fence line all the same: its fence is unterminated.
pub open spec fn opens_with_fence(b: Seq<u8>) -> bool {
    is_fence_line(without_bom(b.take(line_end(b, 0))))
}

/// `e` is the error a document with bytes `b` and no block is refused with.
pub open spec fn is_missing_block_error(e: Error, path: Seq<char>, b: Seq<u8>) -> bool {
    if opens_with_fence(b) {
        e matches Error::UnterminatedFrontmatter { path: p } && p@ == path
    } else {
        e matches Error::MissingFrontmatterFence { path: p } && p@ == path
    }
}

/// Which of the two fence errors a document with no frontmatter block has: an unterminated fence
/// when its first line, past a byte order mark, is `---` and white space; no fence otherwise.
///
/// Read from the source, because an unterminated `---` and an indented `  ---` look the same to
/// the parser and only the first is a fence.
pub fn classify_missing_block(path: &str, text: &str) -> (e: Error)
    ensures
        is_missing_block_error(e, path@, encode_utf8(text@)),
{
    let b = text.as_bytes();
    let ghost bs = encode_utf8(text@);
    let mut end: usize = 0;
    while end < b.len() && b[end] != 10
        invariant
            b@ == bs,
            end <= bs.len(),
            line_end(bs, 0) == line_end(bs, end as int),
        decreases bs.len() - end,
    {
        end = end + 1;
    }
    let s: usize = if end >= 3 && b[0] == 0xEF && b[1] == 0xBB && b[2] == 0xBF {
        3
    } else {
        0
    };
    let ghost line = bs.take(end as int);
    assert(without_bom(line) =~= bs.subrange(s as int, end as int)) by {
        if s == 3 {
            assert(line.take(3) =~= bom_bytes());
        } else if line.len() >= 3 {
            assert(line.take(3)[0] == b[0]);
            assert(line.take(3)[1] == b[1]);
            assert(line.take(3)[2] == b[2]);
        }
    }
    let open = if end - s >= 3 && b[s] == 45 && b[s + 1] == 45 && b[s + 2] == 45 {
        proof {
            encode_utf8_valid_utf8(text@);
            lemma_ascii_boundaries(bs, s + 2);
            lemma_line_end(bs, 0);
            if end < bs.len() {
                lemma_ascii_boundaries(bs, end as int);
            } else {
                vstd::utf8::is_char_boundary_start_end_of_seq(bs);
            }
        }
        let rest = slice(text, s + 3, end);
        proof {
            encode_utf8_decode_utf8(rest@);
            assert(bs.subrange(s as int, end as int).skip(3) =~= bs.subrange(s + 3, end as int));
        }
        crate::text::str_is_blank(rest)
    } else {
        false
    };
    if open {
        Error::UnterminatedFrontmatter { path: path.to_owned() }
    } else {
        Error::MissingFrontmatterFence { path: path.to_owned() }
    }
}

/// The text between the fence lines of the block `text[start..end]`, and the terminator the
/// opening fence used.
fn interior_of(text: &str, start: usize, end: usize) -> (r: (&str, Newline))
    requires
        start <= end <= encode_utf8(text@).len(),
        is_char_boundary(encode_utf8(text@), start as int),
    ensures
        encode_utf8(r.0@) == interior_bytes(encode_utf8(text@), start as int, end as int),
        r.1 == fence_newline(encode_utf8(text@), start as int, end as int),
{
    let b = text.as_bytes();
    let ghost bs = encode_utf8(text@);
    let ghost f = bs.subrange(start as int, end as int);
    let mut i = start;
    while i < end && b[i] != 10
        invariant
            b@ == bs,
            f == bs.subrange(start as int, end as int),
            start <= i <= end <= bs.len(),
            first_byte_from(f, 10, 0) == first_byte_from(f, 10, i - start),
        decreases end - i,
    {
        i = i + 1;
    }
    if i == end {
        proof {
            reveal_strlit("");
        }
        assert(first_byte_from(f, 10, (end - start) as int) is None);
        return ("", Newline::Lf);
    }
    assert(first_byte_from(f, 10, 0) == Some((i - start) as int));
    let newline = if i > start && b[i - 1] == 13 {
        Newline::Crlf
    } else {
        Newline::Lf
    };
    let mut j = end;
    while j > i + 1 && b[j - 1] != 10
        invariant
            b@ == bs,
            f == bs.subrange(start as int, end as int),
            start <= i < j <= end <= bs.len(),
            b@[i as int] == 10,
            last_byte_below(f, 10, f.len() as int) == last_byte_below(f, 10, j - start),
        decreases j,
    {
        j = j - 1;
    }
    assert(last_byte_below(f, 10, j - start) == Some(j - 1 - start));
    proof {
        encode_utf8_valid_utf8(text@);
        lemma_ascii_boundaries(bs, i as int);
        lemma_ascii_boundaries(bs, j - 1);
    }
    (slice(text, i + 1, j), newline)
}

/// Split a note file into the bytes before the block, the block, and the body.
///
/// A document with no block is refused with whichever fence error its first line shows.
pub fn split_document<'a>(path: &str, text: &'a str) -> (r: Result<Split<'a>, Error>)
    ensures
        block_span(text@) is None ==> (r matches Err(e) && is_missing_block_error(
            e,
            path@,
            encode_utf8(text@),
        )),
        block_span(text@) matches Some((s, e)) ==> (r matches Ok(sp) && is_split_at(
            sp,
            encode_utf8(text@),
            s,
            e,
        )),
        r matches Ok(sp) ==> sp.prefix@ + sp.block@ + sp.body@ == text@,
{
    match root_children(text) {
        Some(cs) => split_with_children(path, text, &cs),
        None => {
            let none: Vec<(bool, Option<(usize, usize)>)> = Vec::new();
            split_with_children(path, text, &none)
        },
    }
}

/// [`split_document`] from the root's children the markdown parser reported for `text`: for
/// each, whether it is a YAML frontmatter node, and its byte span.
pub fn split_with_children<'a>(path: &str, text: &'a str, cs: &Vec<(bool, Option<(usize, usize)>)>) -> (r: Result<Split<'a>, Error>)
    ensures
        children_span(text@, cs@) is None ==> (r matches Err(e) && is_missing_block_error(
            e,
            path@,
            encode_utf8(text@),
        )),
        children_span(text@, cs@) matches Some((s, e)) ==> (r matches Ok(sp) && is_split_at(
            sp,
            encode_utf8(text@),
            s,
            e,
        )),
        r matches Ok(sp) ==> sp.prefix@ + sp.block@ + sp.body@ == text@,
{
    let ghost bs = encode_utf8(text@);
    let mut span: Option<(usize, usize)> = None;
    let mut k: usize = 0;
    assert(cs@.skip(0) =~= cs@);
    while k < cs.len()
        invariant_except_break
            k <= cs.len(),
            first_yaml_span(cs@) == first_yaml_span(cs@.skip(k as int)),
            span is None,
        ensures
            span == first_yaml_span(cs@),
        decreases cs.len() - k,
    {
        assert(cs@.skip(k as int).drop_first() =~= cs@.skip(k + 1));
        if cs[k].0 && cs[k].1.is_some() {
            span = cs[k].1;
            break;
        }
        k = k + 1;
        if k == cs.len() {
            assert(cs@.skip(k as int) =~= Seq::<(bool, Option<(usize, usize)>)>::empty());
        }
    }
    let (start, end) = match span {
        Some(sp) => sp,
        None => {
            return Err(classify_missing_block(path, text));
        },
    };
    let len = text.as_bytes().len();
    if !(start <= end && end <= len && text.is_char_boundary(start) && text.is_char_boundary(end)) {
        return Err(classify_missing_block(path, text));
    }
    assert(children_span(text@, cs@) == Some((start as int, end as int)));
    proof {
        encode_utf8_valid_utf8(text@);
        vstd::utf8::is_char_boundary_start_end_of_seq(bs);
    }
    let rest = slice(text, end, len);
    let block_end = match Newline::leading(rest) {
        Some((_, k)) => end + k,
        None => end,
    };
    proof {
        encode_utf8_valid_utf8(text@);
        vstd::utf8::is_char_boundary_start_end_of_seq(bs);
        assert(encode_utf8(rest@) =~= bs.skip(end as int));
        if block_end > end {
            lemma_ascii_boundaries(bs, block_end - 1);
        }
    }
    let (interior, newline) = interior_of(text, start, end);
    let sp = Split {
        prefix: slice(text, 0, start),
        block: slice(text, start, block_end),
        interior,
        body: slice(text, block_end, len),
        newline,
    };
    proof {
        assert(encode_utf8(sp.prefix@) =~= bs.take(start as int));
        assert(encode_utf8(sp.body@) =~= bs.skip(block_end as int));
        lemma_encode_concat(sp.prefix@, sp.block@);
        lemma_encode_concat(sp.prefix@ + sp.block@, sp.body@);
        assert(encode_utf8(sp.prefix@ + sp.block@ + sp.body@) =~= bs);
        crate::text::lemma_encode_injective(sp.prefix@ + sp.block@ + sp.body@, text@);
    }
    Ok(sp)
}

} // verus!
