//! Abbreviating UUIDs to the shortest prefix that is still unambiguous.
//!
//! A UUIDv7's leading 48 bits are a millisecond timestamp, so notes captured in the same minute
//! share their first eight characters; a fixed-width short id would print strings that resolve to
//! nothing. The width is therefore a property of the set: long enough to be unique among the ids
//! it is shown beside, at least a floor, and no longer.
//!
//! Every abbreviation is a genuine prefix of its id's hyphenated form, so anything printed can be
//! handed straight back to a resolver. The width can change when an id is added, so it is a
//! display convenience only.
//!
//! Ids are their 128-bit values. Sorted, the only ids that can share a long prefix with a given
//! one are its neighbours, which is what makes this a single pass after the sort.

use std::collections::BTreeMap;
use vstd::prelude::*;
use vstd::utf8::encode_utf8;

use crate::note::{
    digit_index, hex_byte, hyphenated_bytes, hyphenated_text, is_hyphen_pos, lemma_hyphenated_ascii_pub,
    lemma_hyphenated_injective, nibble, push_hyphenated_bytes,
};
use crate::text::{ascii_string, ascii_text, lemma_ascii_text};

verus! {

broadcast use {vstd::seq::group_seq_axioms, vstd::laws_cmp::group_laws_cmp};

/// The conventional floor: readable, and what people expect a short id to look like.
pub const MIN_WIDTH: usize = 8;

/// The length of the hyphenated form.
pub const ID_TEXT_LEN: usize = 36;

// =============================================================================================
// Common prefixes
// =============================================================================================

/// How many leading bytes `a` and `b` share, counting from `i`.
pub open spec fn shared_from(a: Seq<u8>, b: Seq<u8>, i: int) -> int
    decreases a.len() - i,
{
    if 0 <= i < a.len() && i < b.len() && a[i] == b[i] {
        shared_from(a, b, i + 1)
    } else {
        i
    }
}

/// How many leading bytes `a` and `b` share.
pub open spec fn shared_len(a: Seq<u8>, b: Seq<u8>) -> int {
    shared_from(a, b, 0)
}

proof fn lemma_shared_from(a: Seq<u8>, b: Seq<u8>, i: int)
    requires
        0 <= i <= a.len(),
        i <= b.len(),
        forall|j: int| 0 <= j < i ==> a[j] == b[j],
    ensures
        i <= shared_from(a, b, i) <= a.len(),
        shared_from(a, b, i) <= b.len(),
        forall|j: int| 0 <= j < shared_from(a, b, i) ==> a[j] == b[j],
        shared_from(a, b, i) < a.len() && shared_from(a, b, i) < b.len() ==> a[shared_from(
            a,
            b,
            i,
        )] != b[shared_from(a, b, i)],
    decreases a.len() - i,
{
    if i < a.len() && i < b.len() && a[i] == b[i] {
        lemma_shared_from(a, b, i + 1);
    }
}

/// What two byte strings share: their first `shared_len` bytes, and they differ right after.
pub proof fn lemma_shared_len(a: Seq<u8>, b: Seq<u8>)
    ensures
        0 <= shared_len(a, b) <= a.len(),
        shared_len(a, b) <= b.len(),
        forall|j: int| 0 <= j < shared_len(a, b) ==> a[j] == b[j],
        shared_len(a, b) < a.len() && shared_len(a, b) < b.len() ==> a[shared_len(a, b)]
            != b[shared_len(a, b)],
        shared_len(a, b) == shared_len(b, a),
{
    lemma_shared_from(a, b, 0);
    lemma_shared_from(b, a, 0);
    let x = shared_len(a, b);
    let y = shared_len(b, a);
    if x < y {
        assert(b[x] == a[x]);
    } else if y < x {
        assert(a[y] == b[y]);
    }
}

/// Sharing the first `k` bytes means sharing at least `k`.
proof fn lemma_shared_at_least(a: Seq<u8>, b: Seq<u8>, k: int)
    requires
        0 <= k <= a.len(),
        k <= b.len(),
        a.take(k) == b.take(k),
    ensures
        shared_len(a, b) >= k,
{
    lemma_shared_len(a, b);
    let x = shared_len(a, b);
    if x < k {
        assert(a.take(k)[x] == a[x]);
        assert(b.take(k)[x] == b[x]);
        assert(a.take(k)[x] == b.take(k)[x]);
        assert(a[x] != b[x]);
    }
}

/// How many leading bytes two ids share. Both are ASCII, so bytes are characters.
pub fn common_prefix(a: &str, b: &str) -> (n: usize)
    ensures
        n == shared_len(encode_utf8(a@), encode_utf8(b@)),
{
    let x = a.as_bytes();
    let y = b.as_bytes();
    let mut i: usize = 0;
    while i < x.len() && i < y.len() && x[i] == y[i]
        invariant
            i <= x@.len(),
            shared_len(x@, y@) == shared_from(x@, y@, i as int),
        decreases x.len() - i,
    {
        i = i + 1;
    }
    i
}

// =============================================================================================
// Prefixes of the hyphenated form and the id's high bits
// =============================================================================================

/// How many of the first `k` positions of the hyphenated form hold digits.
pub open spec fn digits_before(k: int) -> int {
    if k <= 8 {
        k
    } else if k <= 13 {
        k - 1
    } else if k <= 18 {
        k - 2
    } else if k <= 23 {
        k - 3
    } else {
        k - 4
    }
}

/// The shift that leaves the digits shown in the first `k` positions.
pub open spec fn prefix_shift(k: int) -> u128 {
    (128 - 4 * digits_before(k)) as u128
}

proof fn lemma_shift_step(a: u128, b: u128, s: u128)
    requires
        s <= 124,
    ensures
        ((a >> s) == (b >> s)) == ((a >> (s + 4) as u128) == (b >> (s + 4) as u128) && ((a >> s)
            & 15u128) == ((b >> s) & 15u128)),
{
    assert(((a >> s) == (b >> s)) == ((a >> (s + 4) as u128) == (b >> (s + 4) as u128) && ((a
        >> s) & 15u128) == ((b >> s) & 15u128))) by (bit_vector)
        requires
            s <= 124,
    ;
}

proof fn lemma_hex_injective(x: u8, y: u8)
    requires
        x < 16,
        y < 16,
    ensures
        (hex_byte(x) == hex_byte(y)) == (x == y),
{
}

/// Two ids agree on the first `k` bytes of their hyphenated forms exactly when they agree on
/// the digits those bytes show: when their values agree above [`prefix_shift`]`(k)`.
pub proof fn lemma_prefix_is_high_bits(a: u128, b: u128, k: int)
    requires
        0 <= k <= 36,
    ensures
        (hyphenated_bytes(a).take(k) == hyphenated_bytes(b).take(k)) == ((a >> prefix_shift(k))
            == (b >> prefix_shift(k))),
    decreases k,
{
    let ha = hyphenated_bytes(a);
    let hb = hyphenated_bytes(b);
    if k == 0 {
        assert(ha.take(0) =~= hb.take(0));
        assert(a >> 128u128 == b >> 128u128) by (bit_vector);
    } else {
        lemma_prefix_is_high_bits(a, b, k - 1);
        let i = k - 1;
        assert(ha.take(k) == hb.take(k) <==> (ha.take(i) == hb.take(i) && ha[i] == hb[i])) by {
            if ha.take(k) == hb.take(k) {
                assert(ha.take(i) =~= ha.take(k).take(i));
                assert(hb.take(i) =~= hb.take(k).take(i));
                assert(ha.take(k)[i] == hb.take(k)[i]);
            }
            if ha.take(i) == hb.take(i) && ha[i] == hb[i] {
                assert(ha.take(k) =~= ha.take(i).push(ha[i]));
                assert(hb.take(k) =~= hb.take(i).push(hb[i]));
            }
        }
        if is_hyphen_pos(i) {
            assert(prefix_shift(k) == prefix_shift(i));
        } else {
            let j = digit_index(i);
            assert(j == digits_before(i));
            let s = ((31 - j) * 4) as u128;
            assert(prefix_shift(i) == (s + 4) as u128);
            assert(prefix_shift(k) == s);
            lemma_shift_step(a, b, s);
            assert(nibble(a, j) == ((a >> s) & 15u128) as u8);
            assert(nibble(b, j) == ((b >> s) & 15u128) as u8);
            assert((a >> s) & 15u128 < 16u128) by (bit_vector);
            assert((b >> s) & 15u128 < 16u128) by (bit_vector);
            lemma_hex_injective(nibble(a, j), nibble(b, j));
        }
    }
}

proof fn lemma_shift_monotonic(a: u128, b: u128, s: u128)
    requires
        a <= b,
    ensures
        (a >> s) <= (b >> s),
{
    assert((a >> s) <= (b >> s)) by (bit_vector)
        requires
            a <= b,
    ;
}

/// The bytes of the hyphenated form of `v`.
pub open spec fn id_bytes(v: u128) -> Seq<u8> {
    hyphenated_bytes(v)
}

/// How many leading characters the hyphenated forms of `v` and `w` share.
pub open spec fn shared(v: u128, w: u128) -> int {
    shared_len(id_bytes(v), id_bytes(w))
}

/// An id between two others shares with each of them at least what the outer two share.
pub proof fn lemma_between_shares_more(u: u128, v: u128, w: u128)
    requires
        u <= v <= w,
    ensures
        shared(u, w) <= shared(u, v),
        shared(u, w) <= shared(v, w),
{
    let (a, b, c) = (id_bytes(u), id_bytes(v), id_bytes(w));
    lemma_shared_len(a, c);
    let k = shared_len(a, c);
    assert(a.take(k) =~= c.take(k));
    lemma_prefix_is_high_bits(u, w, k);
    let s = prefix_shift(k);
    lemma_shift_monotonic(u, v, s);
    lemma_shift_monotonic(v, w, s);
    lemma_prefix_is_high_bits(u, v, k);
    lemma_prefix_is_high_bits(v, w, k);
    lemma_shared_at_least(a, b, k);
    lemma_shared_at_least(b, c, k);
}

/// Two different ids differ within their hyphenated forms.
pub proof fn lemma_distinct_ids_differ(v: u128, w: u128)
    requires
        v != w,
    ensures
        0 <= shared(v, w) < 36,
        id_bytes(v)[shared(v, w)] != id_bytes(w)[shared(v, w)],
        shared(v, w) == shared(w, v),
{
    lemma_hyphenated_ascii_pub(v);
    lemma_hyphenated_ascii_pub(w);
    lemma_shared_len(id_bytes(v), id_bytes(w));
    if shared(v, w) == 36 {
        assert(id_bytes(v) =~= id_bytes(w));
        lemma_hyphenated_injective(v, w);
    }
}

// =============================================================================================
// Abbreviations
// =============================================================================================

/// `n` is the length that separates `v` from every other id in `ids`: one past the longest prefix
/// it shares with any of them, or zero when it has no others.
pub open spec fn separates_at(ids: Seq<u128>, v: u128, n: int) -> bool {
    &&& forall|w: u128| ids.contains(w) && w != v ==> shared(v, w) + 1 <= n
    &&& (n == 0 || exists|w: u128| ids.contains(w) && w != v && shared(v, w) + 1 == n)
}

/// The width of an abbreviation: what separates it, raised to the floor, capped at the whole id.
pub open spec fn width_for(n: int, min: int) -> int {
    let raised = if n > min {
        n
    } else {
        min
    };
    if raised > 36 {
        36
    } else {
        raised
    }
}

/// The abbreviation of `v` among `ids`, when `n` separates it.
pub open spec fn abbreviation(v: u128, n: int, min: int) -> Seq<char> {
    ascii_text(id_bytes(v).take(width_for(n, min)))
}

/// Strictly increasing.
pub open spec fn is_increasing(s: Seq<u128>) -> bool {
    forall|i: int, j: int| 0 <= i < j < s.len() ==> s[i] < s[j]
}

/// The distinct ids of `ids`, in increasing order.
fn sorted_distinct(ids: &Vec<u128>) -> (s: Vec<u128>)
    ensures
        is_increasing(s@),
        forall|x: u128| s@.contains(x) <==> ids@.contains(x),
{
    let mut s: Vec<u128> = Vec::new();
    let mut k: usize = 0;
    while k < ids.len()
        invariant
            k <= ids.len(),
            is_increasing(s@),
            forall|x: u128| s@.contains(x) <==> ids@.take(k as int).contains(x),
        decreases ids.len() - k,
    {
        let x = ids[k];
        let mut lo: usize = 0;
        let mut hi: usize = s.len();
        while lo < hi
            invariant
                lo <= hi <= s.len(),
                is_increasing(s@),
                k < ids.len(),
                x == ids@[k as int],
                forall|y: u128| s@.contains(y) <==> ids@.take(k as int).contains(y),
                forall|i: int| 0 <= i < lo ==> s@[i] < x,
                forall|i: int| hi <= i < s.len() ==> s@[i] >= x,
            decreases hi - lo,
        {
            let mid = lo + (hi - lo) / 2;
            if s[mid] < x {
                lo = mid + 1;
            } else {
                hi = mid;
            }
        }
        let ghost before = s@;
        assert(ids@.take(k + 1) =~= ids@.take(k as int).push(x));
        if lo < s.len() && s[lo] == x {
            assert(before.contains(x));
        } else {
            s.insert(lo, x);
            proof {
                assert(s@ == before.insert(lo as int, x));
                assert forall|i: int| 0 <= i < lo implies #[trigger] s@[i] == before[i] by {}
                assert forall|i: int| lo < i < s@.len() implies #[trigger] s@[i] == before[i - 1] by {}
                assert(s@[lo as int] == x);
                assert forall|i: int, j: int| 0 <= i < j < s@.len() implies s@[i] < s@[j] by {
                    if j < lo {
                    } else if i > lo {
                        assert(s@[i] == before[i - 1] && s@[j] == before[j - 1]);
                    } else if i == lo {
                        assert(s@[j] == before[j - 1]);
                    } else {
                        if j == lo {
                        } else {
                            assert(s@[j] == before[j - 1]);
                        }
                    }
                }
                assert forall|y: u128| s@.contains(y) <==> ids@.take(k + 1).contains(y) by {
                    let t1 = ids@.take(k + 1);
                    let t0 = ids@.take(k as int);
                    if s@.contains(y) {
                        let i = choose|i: int| 0 <= i < s@.len() && s@[i] == y;
                        if i == lo {
                            assert(t1[k as int] == y);
                        } else {
                            if i < lo {
                                assert(before[i] == y);
                            } else {
                                assert(before[i - 1] == y);
                            }
                            assert(before.contains(y));
                            assert(t0.contains(y));
                            let j = choose|j: int| 0 <= j < t0.len() && #[trigger] t0[j] == y;
                            assert(t1[j] == y);
                        }
                        assert(t1.contains(y));
                    }
                    if t1.contains(y) {
                        if y == x {
                            assert(s@[lo as int] == y);
                        } else {
                            let i1 = choose|i: int| 0 <= i < t1.len() && #[trigger] t1[i] == y;
                            assert(t0[i1] == y);
                            assert(t0.contains(y));
                            assert(before.contains(y));
                            let i = choose|i: int| 0 <= i < before.len() && before[i] == y;
                            if i < lo {
                                assert(s@[i] == before[i]);
                            } else {
                                assert(s@[i + 1] == before[i]);
                            }
                        }
                        assert(s@.contains(y));
                    }
                }
            }
        }
        k = k + 1;
    }
    assert(ids@.take(k as int) =~= ids@);
    s
}

/// The first `width` characters of the hyphenated form of `v`.
fn prefix_of(v: u128, width: usize) -> (t: String)
    requires
        width <= 36,
    ensures
        t@ == ascii_text(id_bytes(v).take(width as int)),
{
    let mut bytes: Vec<u8> = Vec::new();
    push_hyphenated_bytes(v, &mut bytes);
    bytes.truncate(width);
    proof {
        lemma_hyphenated_ascii_pub(v);
        assert(bytes@ =~= hyphenated_bytes(v).take(width as int));
        assert forall|i: int| 0 <= i < bytes@.len() implies #[trigger] bytes@[i] < 128 by {
            assert(bytes@[i] == hyphenated_bytes(v)[i]);
        }
    }
    ascii_string(bytes)
}

/// How many leading characters the hyphenated forms of `v` and `w` share.
fn shared_chars(v: u128, w: u128) -> (n: usize)
    ensures
        n == shared(v, w),
        n <= 36,
{
    let a = crate::note::hyphenated_string(v);
    let b = crate::note::hyphenated_string(w);
    proof {
        lemma_hyphenated_ascii_pub(v);
        lemma_hyphenated_ascii_pub(w);
        lemma_ascii_text(hyphenated_bytes(v));
        lemma_ascii_text(hyphenated_bytes(w));
        lemma_shared_len(hyphenated_bytes(v), hyphenated_bytes(w));
    }
    common_prefix(a.as_str(), b.as_str())
}

/// Record an abbreviation.
fn record(out: &mut BTreeMap<u128, String>, v: u128, abbr: String)
    ensures
        final(out)@ == old(out)@.insert(v, abbr),
{
    out.insert(v, abbr);
}

/// Map each id to the shortest prefix of its hyphenated form that no other id in `ids` shares,
/// at least `min` long and at most the whole id. A repeated id is one key.
pub fn abbreviate(ids: Vec<u128>, min: usize) -> (r: BTreeMap<u128, String>)
    ensures
        forall|v: u128| r@.contains_key(v) <==> ids@.contains(v),
        forall|v: u128|
            #[trigger] r@.contains_key(v) ==> exists|n: int|
                separates_at(ids@, v, n) && r@[v]@ == abbreviation(v, n, min as int),
{
    let s = sorted_distinct(&ids);
    let mut out: BTreeMap<u128, String> = BTreeMap::new();
    let mut i: usize = 0;
    while i < s.len()
        invariant
            is_increasing(s@),
            forall|x: u128| s@.contains(x) <==> ids@.contains(x),
            i <= s.len(),
            forall|v: u128| out@.contains_key(v) <==> s@.take(i as int).contains(v),
            forall|v: u128|
                #[trigger] out@.contains_key(v) ==> exists|n: int|
                    separates_at(ids@, v, n) && out@[v]@ == abbreviation(v, n, min as int),
        decreases s.len() - i,
    {
        let v = s[i];
        let mut needed: usize = 0;
        if i > 0 {
            needed = shared_chars(s[i - 1], v) + 1;
        }
        if i + 1 < s.len() {
            let after = shared_chars(v, s[i + 1]) + 1;
            if after > needed {
                needed = after;
            }
        }
        proof {
            lemma_neighbours_separate(ids@, s@, i as int, needed as int);
        }
        let raised = if needed > min {
            needed
        } else {
            min
        };
        let width = if raised > 36 {
            36
        } else {
            raised
        };
        let abbr = prefix_of(v, width);
        let ghost before = out@;
        record(&mut out, v, abbr);
        proof {
            assert(s@.take(i + 1) =~= s@.take(i as int).push(v));
            assert forall|x: u128| out@.contains_key(x) <==> s@.take(i + 1).contains(x) by {
                if s@.take(i + 1).contains(x) && x != v {
                    let t = s@.take(i + 1);
                    let j = choose|j: int| 0 <= j < t.len() && #[trigger] t[j] == x;
                    assert(s@.take(i as int)[j] == x);
                }
                if out@.contains_key(x) && x != v {
                    assert(before.contains_key(x));
                    let t = s@.take(i as int);
                    let j = choose|j: int| 0 <= j < t.len() && #[trigger] t[j] == x;
                    assert(s@.take(i + 1)[j] == x);
                }
                if x == v {
                    assert(s@.take(i + 1)[i as int] == v);
                }
            }
            assert forall|x: u128| #[trigger] out@.contains_key(x) implies exists|n: int|
                separates_at(ids@, x, n) && out@[x]@ == abbreviation(x, n, min as int) by {
                if x == v {
                    assert(out@[v] == abbr);
                    assert(separates_at(ids@, v, needed as int) && out@[v]@ == abbreviation(
                        v,
                        needed as int,
                        min as int,
                    ));
                } else {
                    assert(before.contains_key(x));
                    assert(out@[x] == before[x]);
                }
            }
        }
        i = i + 1;
    }
    assert(s@.take(i as int) =~= s@);
    out
}

/// Sorted, an id is separated from all others by what it shares with its neighbours.
proof fn lemma_neighbours_separate(ids: Seq<u128>, s: Seq<u128>, i: int, needed: int)
    requires
        is_increasing(s),
        forall|x: u128| s.contains(x) <==> ids.contains(x),
        0 <= i < s.len(),
        needed == if i > 0 && i + 1 < s.len() {
            if shared(s[i - 1], s[i]) >= shared(s[i], s[i + 1]) {
                shared(s[i - 1], s[i]) + 1
            } else {
                shared(s[i], s[i + 1]) + 1
            }
        } else if i > 0 {
            shared(s[i - 1], s[i]) + 1
        } else if i + 1 < s.len() {
            shared(s[i], s[i + 1]) + 1
        } else {
            0
        },
    ensures
        separates_at(ids, s[i], needed),
{
    let v = s[i];
    assert forall|w: u128| ids.contains(w) && w != v implies shared(v, w) + 1 <= needed by {
        assert(s.contains(w));
        let j = choose|j: int| 0 <= j < s.len() && s[j] == w;
        lemma_distinct_ids_differ(v, w);
        if j < i {
            lemma_distinct_ids_differ(s[i - 1], v);
            if j < i - 1 {
                lemma_between_shares_more(w, s[i - 1], v);
            }
        } else {
            assert(j > i);
            if j > i + 1 {
                lemma_between_shares_more(v, s[i + 1], w);
            }
        }
    }
    if needed != 0 {
        if i > 0 {
            assert(s.contains(s[i - 1]));
            lemma_distinct_ids_differ(s[i - 1], v);
        }
        if i + 1 < s.len() {
            assert(s.contains(s[i + 1]));
        }
    }
}

// =============================================================================================
// What an abbreviation promises
// =============================================================================================

/// An abbreviation is a prefix of its id's hyphenated form, so a resolver accepts it back.
pub proof fn lemma_abbreviation_is_prefix(v: u128, n: int, min: int)
    requires
        min >= 0,
    ensures
        abbreviation(v, n, min).len() <= 36,
        abbreviation(v, n, min) == hyphenated_text(v).take(abbreviation(v, n, min).len() as int),
{
    lemma_hyphenated_ascii_pub(v);
    let w = width_for(n, min);
    assert(abbreviation(v, n, min) =~= hyphenated_text(v).take(w));
}

/// No two ids of a set abbreviate to the same text.
pub proof fn lemma_abbreviations_distinct(ids: Seq<u128>, v: u128, w: u128, nv: int, nw: int, min: int)
    requires
        ids.contains(v),
        ids.contains(w),
        v != w,
        separates_at(ids, v, nv),
        separates_at(ids, w, nw),
    ensures
        abbreviation(v, nv, min) != abbreviation(w, nw, min),
{
    lemma_distinct_ids_differ(v, w);
    let k = shared(v, w);
    lemma_hyphenated_ascii_pub(v);
    lemma_hyphenated_ascii_pub(w);
    let a = abbreviation(v, nv, min);
    let b = abbreviation(w, nw, min);
    assert(k + 1 <= nv);
    assert(shared(w, v) + 1 <= nw);
    if a.len() == b.len() {
        assert(a[k] != b[k]) by {
            assert(a[k] == (id_bytes(v)[k] as char));
            assert(b[k] == (id_bytes(w)[k] as char));
            let x = id_bytes(v)[k];
            let y = id_bytes(w)[k];
            assert((x as char) as u32 == x as u32);
            assert((y as char) as u32 == y as u32);
        }
    }
}

/// Nothing shorter would do: an abbreviation longer than the floor shares all but its last
/// character with some other id of the set.
pub proof fn lemma_abbreviation_is_shortest(ids: Seq<u128>, v: u128, n: int, min: int)
    requires
        ids.contains(v),
        separates_at(ids, v, n),
        width_for(n, min) > min,
        min >= 0,
    ensures
        exists|w: u128|
            ids.contains(w) && w != v && #[trigger] id_bytes(w).take(width_for(n, min) - 1)
                == id_bytes(v).take(width_for(n, min) - 1),
{
    let w = choose|w: u128| ids.contains(w) && w != v && shared(v, w) + 1 == n;
    lemma_distinct_ids_differ(v, w);
    lemma_shared_len(id_bytes(v), id_bytes(w));
    assert(width_for(n, min) == n);
    assert(id_bytes(w).take(n - 1) =~= id_bytes(v).take(n - 1));
}

} // verus!
