//! Text primitives shared by every module: UTF-8 facts, ASCII strings, decimal and hexadecimal
//! rendering, and slicing a `str` by byte offsets.
//!
//! Contracts about text are stated over `s@`, the `char` sequence of a string, and over
//! `encode_utf8(s@)`, its bytes. The lemmas here are what let the two views be used together.

use vstd::prelude::*;
use vstd::utf8::*;
use vstd::string::{StrSliceExecFns, StringSliceAdditionalSpecFns};

verus! {

broadcast use vstd::seq::group_seq_axioms;

// ---------------------------------------------------------------------------------------------
// UTF-8 facts
// ---------------------------------------------------------------------------------------------

/// Encoding distributes over concatenation.
pub proof fn lemma_encode_concat(a: Seq<char>, b: Seq<char>)
    ensures
        encode_utf8(a + b) == encode_utf8(a) + encode_utf8(b),
    decreases a.len(),
{
    if a.len() == 0 {
        assert(a + b =~= b);
        assert(encode_utf8(a) =~= Seq::<u8>::empty());
        assert(encode_utf8(a) + encode_utf8(b) =~= encode_utf8(b));
    } else {
        assert((a + b).drop_first() =~= a.drop_first() + b);
        assert((a + b)[0] == a[0]);
        lemma_encode_concat(a.drop_first(), b);
        assert(encode_utf8(a + b) =~= encode_utf8(a) + encode_utf8(b));
    }
}

/// Two texts with the same bytes are the same text.
pub proof fn lemma_encode_injective(a: Seq<char>, b: Seq<char>)
    requires
        encode_utf8(a) == encode_utf8(b),
    ensures
        a == b,
{
    encode_utf8_decode_utf8(a);
    encode_utf8_decode_utf8(b);
}

/// The text of a sequence of ASCII bytes, one `char` per byte.
pub open spec fn ascii_text(b: Seq<u8>) -> Seq<char> {
    Seq::new(b.len(), |i: int| b[i] as char)
}

/// Every byte is ASCII.
pub open spec fn is_ascii_bytes(b: Seq<u8>) -> bool {
    forall|i: int| 0 <= i < b.len() ==> #[trigger] b[i] < 128
}

/// ASCII bytes are their own UTF-8 encoding.
pub proof fn lemma_ascii_text(b: Seq<u8>)
    requires
        is_ascii_bytes(b),
    ensures
        encode_utf8(ascii_text(b)) == b,
        is_ascii_chars(ascii_text(b)),
{
    let t = ascii_text(b);
    assert forall|i: int| 0 <= i < t.len() implies '\0' <= #[trigger] t[i] <= '\u{7f}' by {
        assert(b[i] < 128);
    }
    is_ascii_chars_encode_utf8(t);
    let e = encode_utf8(t);
    assert forall|i: int| 0 <= i < b.len() implies #[trigger] e[i] == b[i] by {
        assert(t[i] as u8 == e[i]);
        let x: u8 = b[i];
        assert((x as char) as u8 == x);
    }
    assert(e =~= b);
}

/// `String::from_utf8`: a string holding exactly `bytes`, when they are valid UTF-8.
#[verifier::external_body]
fn string_from_utf8(bytes: Vec<u8>) -> (res: Option<String>)
    ensures
        res is Some <==> valid_utf8(bytes@),
        res matches Some(s) ==> encode_utf8(s@) == bytes@,
{
    String::from_utf8(bytes).ok()
}

/// `std::str::from_utf8`: the bytes read as text, when they are valid UTF-8.
#[verifier::external_body]
pub(crate) fn str_from_utf8(bytes: &[u8]) -> (res: Option<&str>)
    ensures
        res is Some <==> valid_utf8(bytes@),
        res matches Some(s) ==> encode_utf8(s@) == bytes@,
{
    std::str::from_utf8(bytes).ok()
}

/// A string of ASCII bytes.
pub fn ascii_string(bytes: Vec<u8>) -> (s: String)
    requires
        is_ascii_bytes(bytes@),
    ensures
        s@ == ascii_text(bytes@),
{
    let ghost b = bytes@;
    proof {
        lemma_ascii_text(b);
        encode_utf8_valid_utf8(ascii_text(b));
    }
    match string_from_utf8(bytes) {
        Some(s) => {
            proof {
                lemma_encode_injective(s@, ascii_text(b));
            }
            s
        },
        None => {
            assert(false);
            String::new()
        },
    }
}

// ---------------------------------------------------------------------------------------------
// Numbers as text
// ---------------------------------------------------------------------------------------------

/// The ASCII digit for `d < 10`.
pub open spec fn digit_byte(d: nat) -> u8 {
    (48 + d) as u8
}

/// The decimal digits of `n`, most significant first, with no leading zeros.
pub open spec fn decimal_bytes(n: nat) -> Seq<u8>
    decreases n,
{
    if n < 10 {
        seq![digit_byte(n)]
    } else {
        decimal_bytes(n / 10).push(digit_byte(n % 10))
    }
}

/// `n` written in decimal.
pub open spec fn decimal_text(n: nat) -> Seq<char> {
    ascii_text(decimal_bytes(n))
}

proof fn lemma_decimal_ascii(n: nat)
    ensures
        is_ascii_bytes(decimal_bytes(n)),
        decimal_bytes(n).len() >= 1,
    decreases n,
{
    if n >= 10 {
        lemma_decimal_ascii(n / 10);
    }
}

fn push_decimal(n: u64, out: &mut Vec<u8>)
    ensures
        final(out)@ == old(out)@ + decimal_bytes(n as nat),
    decreases n,
{
    if n < 10 {
        out.push((48 + n) as u8);
        assert(final(out)@ =~= old(out)@ + decimal_bytes(n as nat)) by {
            assert(decimal_bytes(n as nat) == seq![digit_byte(n as nat)]);
        }
    } else {
        push_decimal(n / 10, out);
        out.push((48 + n % 10) as u8);
        assert(final(out)@ =~= old(out)@ + decimal_bytes(n as nat)) by {
            assert(decimal_bytes(n as nat) == decimal_bytes((n / 10) as nat).push(
                digit_byte((n % 10) as nat),
            ));
        }
    }
}

/// `n` written in decimal, as the standard library's `Display` for integers writes it.
pub fn decimal_string(n: u64) -> (s: String)
    ensures
        s@ == decimal_text(n as nat),
{
    let mut out: Vec<u8> = Vec::new();
    push_decimal(n, &mut out);
    proof {
        lemma_decimal_ascii(n as nat);
        assert(out@ =~= decimal_bytes(n as nat));
    }
    ascii_string(out)
}

// ---------------------------------------------------------------------------------------------
// Characters
// ---------------------------------------------------------------------------------------------

/// Whether two texts are the same.
pub fn str_eq(a: &str, b: &str) -> (r: bool)
    ensures
        r == (a@ == b@),
{
    let x = a.to_owned();
    let y = b.to_owned();
    x == y
}

/// The Unicode `White_Space` property, which `char::is_whitespace` documents as its meaning.
pub open spec fn is_white_space(c: char) -> bool {
    let u = c as u32;
    (9 <= u && u <= 13) || u == 32 || u == 0x85 || u == 0xA0 || u == 0x1680 || (0x2000 <= u && u
        <= 0x200A) || u == 0x2028 || u == 0x2029 || u == 0x202F || u == 0x205F || u == 0x3000
}

/// Whether `c` is white space, as `char::is_whitespace` answers.
pub fn char_is_whitespace(c: char) -> (r: bool)
    ensures
        r == is_white_space(c),
{
    let u = c as u32;
    (9 <= u && u <= 13) || u == 32 || u == 0x85 || u == 0xA0 || u == 0x1680 || (0x2000 <= u && u
        <= 0x200A) || u == 0x2028 || u == 0x2029 || u == 0x202F || u == 0x205F || u == 0x3000
}

/// Every character of `s` is white space: what `s.trim().is_empty()` answers.
pub open spec fn is_blank(s: Seq<char>) -> bool {
    forall|i: int| 0 <= i < s.len() ==> is_white_space(#[trigger] s[i])
}

/// Whether `s` is empty or white space throughout.
pub fn str_is_blank(s: &str) -> (r: bool)
    ensures
        r == is_blank(s@),
{
    let n = s.unicode_len();
    let mut i: usize = 0;
    while i < n
        invariant
            n == s@.len(),
            i <= n,
            forall|j: int| 0 <= j < i ==> is_white_space(#[trigger] s@[j]),
        decreases n - i,
    {
        if !char_is_whitespace(s.get_char(i)) {
            return false;
        }
        i = i + 1;
    }
    true
}

// ---------------------------------------------------------------------------------------------
// Slicing by byte offset
// ---------------------------------------------------------------------------------------------

/// `s[from..to]`, for offsets on character boundaries.
pub fn slice(s: &str, from: usize, to: usize) -> (r: &str)
    requires
        from <= to <= encode_utf8(s@).len(),
        is_char_boundary(encode_utf8(s@), from as int),
        is_char_boundary(encode_utf8(s@), to as int),
    ensures
        encode_utf8(r@) == encode_utf8(s@).subrange(from as int, to as int),
{
    let ghost b = encode_utf8(s@);
    proof {
        encode_utf8_valid_utf8(s@);
    }
    let (head, _) = s.split_at(to);
    proof {
        assert(head.spec_bytes() =~= b.subrange(0, to as int));
        valid_utf8_split(b, to as int);
        assert(is_char_boundary(b.subrange(0, to as int), from as int)) by {
            lemma_boundary_in_prefix(b, to as int, from as int);
        }
    }
    let (_, tail) = head.split_at(from);
    assert(tail.spec_bytes() =~= b.subrange(from as int, to as int));
    tail
}

/// A boundary of a text is a boundary of each prefix ending at a boundary.
pub proof fn lemma_boundary_in_prefix(b: Seq<u8>, end: int, i: int)
    requires
        valid_utf8(b),
        is_char_boundary(b, end),
        is_char_boundary(b, i),
        0 <= i <= end,
    ensures
        valid_utf8(b.subrange(0, end)),
        is_char_boundary(b.subrange(0, end), i),
    decreases b.len(),
{
    valid_utf8_split(b, end);
    reveal_with_fuel(is_char_boundary, 2);
    if i == 0 {
    } else {
        let len = length_of_first_scalar(b);
        let p = b.subrange(0, end);
        let rest = pop_first_scalar(b);
        assert(end >= len) by {
            lemma_boundary_at_least_first(b, end);
        }
        assert(i >= len) by {
            lemma_boundary_at_least_first(b, i);
        }
        assert(p.subrange(0, len) =~= b.subrange(0, len));
        assert(pop_first_scalar(p) =~= rest.subrange(0, end - len));
        lemma_boundary_in_prefix(rest, end - len, i - len);
    }
}

proof fn lemma_boundary_at_least_first(b: Seq<u8>, i: int)
    requires
        valid_utf8(b),
        is_char_boundary(b, i),
        i > 0,
    ensures
        b.len() > 0,
        i >= length_of_first_scalar(b),
        valid_utf8(pop_first_scalar(b)),
        is_char_boundary(pop_first_scalar(b), i - length_of_first_scalar(b)),
{
    reveal_with_fuel(is_char_boundary, 2);
    reveal_with_fuel(valid_utf8, 2);
    if i < length_of_first_scalar(b) {
        let rest = pop_first_scalar(b);
        assert(is_char_boundary(rest, i - length_of_first_scalar(b)));
        assert(false);
    }
}

/// An ASCII byte in valid UTF-8 starts a character and is followed by the start of another (or
/// by the end of the text).
pub proof fn lemma_ascii_boundaries(b: Seq<u8>, i: int)
    requires
        valid_utf8(b),
        0 <= i < b.len(),
        b[i] < 128,
    ensures
        is_char_boundary(b, i),
        is_char_boundary(b, i + 1),
    decreases b.len(),
{
    is_char_boundary_iff_not_is_continuation_byte(b, i);
    reveal_with_fuel(is_char_boundary, 2);
    reveal_with_fuel(valid_utf8, 2);
    if i == 0 {
        assert(length_of_first_scalar(b) == 1);
    } else {
        lemma_boundary_at_least_first(b, i);
        let len = length_of_first_scalar(b);
        let rest = pop_first_scalar(b);
        assert(rest[i - len] == b[i]);
        lemma_ascii_boundaries(rest, i - len);
    }
}

/// A text ends in `/` exactly when its bytes do, and is empty exactly when its bytes are.
pub proof fn lemma_last_char_slash(s: Seq<char>)
    ensures
        (s.len() == 0) == (encode_utf8(s).len() == 0),
        s.len() > 0 ==> ((s.last() == '/') == (encode_utf8(s).last() == 47u8)),
    decreases s.len(),
{
    if s.len() > 0 {
        let init = s.drop_last();
        assert(init + seq![s.last()] =~= s);
        lemma_encode_concat(init, seq![s.last()]);
        let c = s.last() as u32;
        assert(encode_utf8(seq![s.last()]) =~= encode_scalar(c)) by {
            assert(seq![s.last()].drop_first() =~= Seq::<char>::empty());
            reveal_with_fuel(encode_utf8, 2);
        }
        let e = encode_scalar(c);
        assert(e.len() >= 1);
        assert(encode_utf8(s) == encode_utf8(init) + e);
        assert(encode_utf8(s).last() == e.last());
        char_u32_cast(s.last(), c);
        assert(('/' as u32) == 47);
        if has_width_1_encoding(c) {
            assert(e.last() == (c & 0x7F) as u8);
            assert((c == 47) == ((c & 0x7F) as u8 == 47u8)) by (bit_vector)
                requires
                    c <= 0x7f,
            ;
        } else {
            assert(e.last() == last_continuation_byte(c));
            assert(last_continuation_byte(c) != 47u8) by (bit_vector);
            assert(s.last() != '/');
        }
    }
}

// ---------------------------------------------------------------------------------------------
// Ordering text
// ---------------------------------------------------------------------------------------------

/// A character's place in the order: its code point, except that with `slash_low` a `/` sorts
/// below every other character.
pub open spec fn char_rank(c: char, slash_low: bool) -> int {
    if slash_low && c == '/' {
        -1
    } else {
        (c as u32) as int
    }
}

/// Lexicographic order: a proper prefix sorts first, otherwise the first differing character
/// decides. By code point this is the order `str` compares in; with `slash_low` it is the order
/// of paths compared component by component, for paths with no repeated or trailing separator.
pub open spec fn text_lt(a: Seq<char>, b: Seq<char>, slash_low: bool) -> bool
    decreases a.len(),
{
    if a.len() == 0 {
        b.len() > 0
    } else if b.len() == 0 {
        false
    } else if a[0] == b[0] {
        text_lt(a.drop_first(), b.drop_first(), slash_low)
    } else {
        char_rank(a[0], slash_low) < char_rank(b[0], slash_low)
    }
}

/// The order is irreflexive.
pub proof fn lemma_text_lt_irreflexive(a: Seq<char>, slash_low: bool)
    ensures
        !text_lt(a, a, slash_low),
    decreases a.len(),
{
    if a.len() > 0 {
        lemma_text_lt_irreflexive(a.drop_first(), slash_low);
    }
}

/// The order is transitive.
pub proof fn lemma_text_lt_transitive(a: Seq<char>, b: Seq<char>, c: Seq<char>, slash_low: bool)
    requires
        text_lt(a, b, slash_low),
        text_lt(b, c, slash_low),
    ensures
        text_lt(a, c, slash_low),
    decreases a.len(),
{
    if a.len() > 0 && b.len() > 0 && c.len() > 0 && a[0] == b[0] && b[0] == c[0] {
        lemma_text_lt_transitive(a.drop_first(), b.drop_first(), c.drop_first(), slash_low);
    }
}

/// Any two different texts are ordered one way or the other.
pub proof fn lemma_text_lt_total(a: Seq<char>, b: Seq<char>, slash_low: bool)
    requires
        a != b,
    ensures
        text_lt(a, b, slash_low) || text_lt(b, a, slash_low),
    decreases a.len(),
{
    if a.len() > 0 && b.len() > 0 && a[0] == b[0] {
        if a.drop_first() =~= b.drop_first() {
            assert(a =~= b) by {
                assert forall|i: int| 0 <= i < a.len() implies a[i] == b[i] by {
                    if i > 0 {
                        assert(a[i] == a.drop_first()[i - 1]);
                        assert(b[i] == b.drop_first()[i - 1]);
                    }
                }
            }
        } else {
            lemma_text_lt_total(a.drop_first(), b.drop_first(), slash_low);
            assert(text_lt(a, b, slash_low) == text_lt(a.drop_first(), b.drop_first(), slash_low));
            assert(text_lt(b, a, slash_low) == text_lt(b.drop_first(), a.drop_first(), slash_low));
        }
    } else if a.len() > 0 && b.len() > 0 {
        if slash_low && a[0] == '/' {
            assert(char_rank(b[0], slash_low) >= 0);
            assert(text_lt(a, b, slash_low));
        } else if slash_low && b[0] == '/' {
            assert(char_rank(a[0], slash_low) >= 0);
            assert(text_lt(b, a, slash_low));
        } else {
            char_u32_cast(a[0], a[0] as u32);
            char_u32_cast(b[0], b[0] as u32);
            assert((a[0] as u32) != (b[0] as u32));
            assert(text_lt(a, b, slash_low) || text_lt(b, a, slash_low));
        }
    } else if a.len() == 0 && b.len() == 0 {
        assert(a =~= b);
    } else if a.len() == 0 {
        assert(text_lt(a, b, slash_low));
    } else {
        assert(text_lt(b, a, slash_low));
    }
}

/// The order is asymmetric.
pub proof fn lemma_text_lt_asymmetric(a: Seq<char>, b: Seq<char>, slash_low: bool)
    requires
        text_lt(a, b, slash_low),
    ensures
        !text_lt(b, a, slash_low),
{
    if text_lt(b, a, slash_low) {
        lemma_text_lt_transitive(a, b, a, slash_low);
        lemma_text_lt_irreflexive(a, slash_low);
    }
}

/// Whether `a` sorts before `b` in [`text_lt`]'s order.
pub fn text_less(a: &str, b: &str, slash_low: bool) -> (r: bool)
    ensures
        r == text_lt(a@, b@, slash_low),
{
    let la = a.unicode_len();
    let lb = b.unicode_len();
    let mut i: usize = 0;
    assert(a@.skip(0) =~= a@);
    assert(b@.skip(0) =~= b@);
    while i < la && i < lb
        invariant
            la == a@.len(),
            lb == b@.len(),
            i <= la,
            i <= lb,
            text_lt(a@, b@, slash_low) == text_lt(a@.skip(i as int), b@.skip(i as int), slash_low),
        decreases la - i,
    {
        let x = a.get_char(i);
        let y = b.get_char(i);
        assert(a@.skip(i as int)[0] == x);
        assert(b@.skip(i as int)[0] == y);
        if x != y {
            let rx: i64 = if slash_low && x == '/' {
                -1
            } else {
                (x as u32) as i64
            };
            let ry: i64 = if slash_low && y == '/' {
                -1
            } else {
                (y as u32) as i64
            };
            return rx < ry;
        }
        assert(a@.skip(i as int).drop_first() =~= a@.skip(i as int + 1));
        assert(b@.skip(i as int).drop_first() =~= b@.skip(i as int + 1));
        i = i + 1;
    }
    i == la && i < lb
}

// ---------------------------------------------------------------------------------------------
// Trimming, case and prefixes
// ---------------------------------------------------------------------------------------------

/// How many `White_Space` characters `s` starts with.
pub open spec fn lead_ws(s: Seq<char>) -> nat
    decreases s.len(),
{
    if s.len() > 0 && is_white_space(s[0]) {
        1 + lead_ws(s.drop_first())
    } else {
        0
    }
}

/// How many `White_Space` characters `s` ends with.
pub open spec fn trail_ws(s: Seq<char>) -> nat
    decreases s.len(),
{
    if s.len() > 0 && is_white_space(s.last()) {
        1 + trail_ws(s.drop_last())
    } else {
        0
    }
}

/// The text with leading and trailing `White_Space` removed: what `str::trim` documents.
pub open spec fn trimmed(s: Seq<char>) -> Seq<char> {
    let t = s.skip(lead_ws(s) as int);
    t.take(t.len() - trail_ws(t))
}

/// Leading whitespace never outnumbers the characters.
proof fn lemma_lead_ws_bound(s: Seq<char>)
    ensures
        lead_ws(s) <= s.len(),
    decreases s.len(),
{
    if s.len() > 0 && is_white_space(s[0]) {
        lemma_lead_ws_bound(s.drop_first());
    }
}

/// Trailing whitespace never outnumbers the characters.
proof fn lemma_trail_ws_bound(s: Seq<char>)
    ensures
        trail_ws(s) <= s.len(),
    decreases s.len(),
{
    if s.len() > 0 && is_white_space(s.last()) {
        lemma_trail_ws_bound(s.drop_last());
    }
}

/// `s` without leading and trailing `White_Space`.
pub fn trim(s: &str) -> (r: &str)
    ensures
        r@ == trimmed(s@),
{
    let n = s.unicode_len();
    let mut i: usize = 0;
    assert(s@.skip(0) =~= s@);
    while i < n && char_is_whitespace(s.get_char(i))
        invariant
            n == s@.len(),
            i <= n,
            lead_ws(s@) == i + lead_ws(s@.skip(i as int)),
        decreases n - i,
    {
        assert(s@.skip(i as int).drop_first() =~= s@.skip(i as int + 1));
        i = i + 1;
    }
    let ghost t = s@.skip(i as int);
    assert(lead_ws(t) == 0);
    let mut j: usize = n;
    assert(s@.subrange(i as int, n as int) =~= t);
    while j > i && char_is_whitespace(s.get_char(j - 1))
        invariant
            n == s@.len(),
            i <= j <= n,
            t == s@.skip(i as int),
            trail_ws(t) == (n - j) + trail_ws(s@.subrange(i as int, j as int)),
        decreases j,
    {
        assert(s@.subrange(i as int, j as int).drop_last() =~= s@.subrange(i as int, j as int - 1));
        j = j - 1;
    }
    assert(trail_ws(s@.subrange(i as int, j as int)) == 0);
    assert(t.take(t.len() - trail_ws(t)) =~= s@.subrange(i as int, j as int));
    s.substring_char(i, j)
}

/// The lowercase ASCII letters, in order.
pub const LOWERCASE: &'static str = "abcdefghijklmnopqrstuvwxyz";

/// The text with ASCII capitals lowered, everything else untouched: what
/// `str::to_ascii_lowercase` documents.
pub open spec fn ascii_lowercase(s: Seq<char>) -> Seq<char> {
    Seq::new(
        s.len(),
        |i: int|
            if 'A' <= s[i] && s[i] <= 'Z' {
                ((s[i] as u32) + 32) as char
            } else {
                s[i]
            },
    )
}

/// Lowering ASCII capitals never makes or unmakes white space.
proof fn lemma_lowered_char_white_space(c: char)
    ensures
        is_white_space(if 'A' <= c && c <= 'Z' {
            ((c as u32) + 32) as char
        } else {
            c
        }) == is_white_space(c),
{
    if 'A' <= c && c <= 'Z' {
        let d = ((c as u32) + 32) as char;
        assert(d as u32 == (c as u32) + 32);
    }
}

proof fn lemma_lead_ws_lowercase(s: Seq<char>)
    ensures
        lead_ws(ascii_lowercase(s)) == lead_ws(s),
    decreases s.len(),
{
    if s.len() > 0 {
        lemma_lowered_char_white_space(s[0]);
        assert(ascii_lowercase(s).drop_first() =~= ascii_lowercase(s.drop_first()));
        lemma_lead_ws_lowercase(s.drop_first());
    }
}

proof fn lemma_trail_ws_lowercase(s: Seq<char>)
    ensures
        trail_ws(ascii_lowercase(s)) == trail_ws(s),
    decreases s.len(),
{
    if s.len() > 0 {
        lemma_lowered_char_white_space(s.last());
        assert(ascii_lowercase(s).drop_last() =~= ascii_lowercase(s.drop_last()));
        lemma_trail_ws_lowercase(s.drop_last());
    }
}

/// Trimming and lowering ASCII capitals can be done in either order.
pub proof fn lemma_trim_lowercase_commute(s: Seq<char>)
    ensures
        trimmed(ascii_lowercase(s)) == ascii_lowercase(trimmed(s)),
{
    lemma_lead_ws_lowercase(s);
    lemma_lead_ws_bound(s);
    let t = s.skip(lead_ws(s) as int);
    assert(ascii_lowercase(s).skip(lead_ws(s) as int) =~= ascii_lowercase(t));
    lemma_trail_ws_lowercase(t);
    lemma_trail_ws_bound(t);
    assert(ascii_lowercase(t).take(t.len() - trail_ws(t)) =~= ascii_lowercase(t.take(t.len() - trail_ws(t))));
}

/// Lowering ASCII capitals twice is lowering them once.
pub proof fn lemma_ascii_lowercase_idempotent(s: Seq<char>)
    ensures
        ascii_lowercase(ascii_lowercase(s)) == ascii_lowercase(s),
{
    assert forall|i: int| 0 <= i < s.len() implies #[trigger] ascii_lowercase(ascii_lowercase(s))[i] == ascii_lowercase(s)[i] by {
        let c = s[i];
        if 'A' <= c && c <= 'Z' {
            let d = ((c as u32) + 32) as char;
            assert(d as u32 == (c as u32) + 32);
        }
    }
    assert(ascii_lowercase(ascii_lowercase(s)) =~= ascii_lowercase(s));
}

/// `s` with ASCII capitals lowered.
pub fn to_ascii_lowercase(s: &str) -> (r: String)
    ensures
        r@ == ascii_lowercase(s@),
{
    let n = s.unicode_len();
    let mut r = String::new();
    let mut i: usize = 0;
    proof {
        reveal_strlit("abcdefghijklmnopqrstuvwxyz");
    }
    while i < n
        invariant
            n == s@.len(),
            i <= n,
            r@ == ascii_lowercase(s@).take(i as int),
            LOWERCASE@ == "abcdefghijklmnopqrstuvwxyz"@,
            LOWERCASE@.len() == 26,
        decreases n - i,
    {
        let c = s.get_char(i);
        if 'A' <= c && c <= 'Z' {
            let k = ((c as u32) - 65) as usize;
            let piece = LOWERCASE.substring_char(k, k + 1);
            proof {
                char_u32_cast(c, c as u32);
                let l = LOWERCASE@[k as int];
                assert(l as u32 == (c as u32) + 32) by {
                    reveal_strlit("abcdefghijklmnopqrstuvwxyz");
                }
                char_u32_cast(l, l as u32);
                assert(piece@ =~= seq![((c as u32) + 32) as char]);
            }
            r.append(piece);
        } else {
            let piece = s.substring_char(i, i + 1);
            assert(piece@ =~= seq![c]);
            r.append(piece);
        }
        assert(r@ =~= ascii_lowercase(s@).take(i as int + 1));
        i = i + 1;
    }
    assert(ascii_lowercase(s@).take(n as int) =~= ascii_lowercase(s@));
    r
}

/// Whether `a` is a prefix of `b`.
pub fn is_prefix(a: &str, b: &str) -> (r: bool)
    ensures
        r == a@.is_prefix_of(b@),
{
    let la = a.unicode_len();
    let lb = b.unicode_len();
    if la > lb {
        return false;
    }
    let mut i: usize = 0;
    while i < la
        invariant
            la == a@.len(),
            lb == b@.len(),
            la <= lb,
            i <= la,
            forall|q: int| 0 <= q < i ==> a@[q] == b@[q],
        decreases la - i,
    {
        if a.get_char(i) != b.get_char(i) {
            return false;
        }
        i = i + 1;
    }
    assert(a@ =~= b@.take(la as int));
    true
}

/// What `str::to_lowercase` returns for a text: the full Unicode lowercase mapping.
pub uninterp spec fn lowercase_text(s: Seq<char>) -> Seq<char>;

/// `str::to_lowercase`.
///
/// Its result, the Unicode lowercase mapping of every character (with the final-sigma rule), is
/// named [`lowercase_text`] and nothing more is claimed of it.
#[verifier::external_body]
pub(crate) fn to_lowercase(s: &str) -> (r: String)
    ensures
        r@ == lowercase_text(s@),
{
    s.to_lowercase()
}

/// Whether `needle` occurs in `hay` as a run of consecutive characters.
pub open spec fn contains_text(hay: Seq<char>, needle: Seq<char>) -> bool {
    exists|i: int| 0 <= i && i + needle.len() <= hay.len() && #[trigger] hay.subrange(i, i + needle.len()) == needle
}

/// Whether `needle` occurs in `hay`.
pub fn text_contains(hay: &str, needle: &str) -> (r: bool)
    ensures
        r == contains_text(hay@, needle@),
{
    let lh = hay.unicode_len();
    let ln = needle.unicode_len();
    if ln > lh {
        return false;
    }
    let mut i: usize = 0;
    while i <= lh - ln
        invariant
            lh == hay@.len(),
            ln == needle@.len(),
            ln <= lh,
            i <= lh - ln + 1,
            forall|q: int| 0 <= q < i ==> #[trigger] hay@.subrange(q, q + ln) != needle@,
        decreases lh - ln + 1 - i,
    {
        let mut j: usize = 0;
        while j < ln && hay.get_char(i + j) == needle.get_char(j)
            invariant
                lh == hay@.len(),
                ln == needle@.len(),
                i + ln <= lh,
                j <= ln,
                forall|q: int| 0 <= q < j ==> hay@[i + q] == needle@[q],
            decreases ln - j,
        {
            j = j + 1;
        }
        if j == ln {
            assert(hay@.subrange(i as int, i + ln) =~= needle@);
            return true;
        }
        assert(hay@.subrange(i as int, i + ln)[j as int] != needle@[j as int]);
        i = i + 1;
    }
    proof {
        if contains_text(hay@, needle@) {
            let q = choose|q: int| 0 <= q && q + needle@.len() <= hay@.len() && #[trigger] hay@.subrange(q, q + needle@.len()) == needle@;
            assert(q < i);
        }
    }
    false
}

} // verus!
