//! The derived thread root: walking `reply_to` upward over every note in a vault.
//!
//! The model is a parent graph over the vault's ids: `ks` lists the ids in increasing order and
//! `ps[i]` is the `reply_to` of `ks[i]`. A walk from a note follows `reply_to` while the vault
//! holds the note it reached and that note names a parent. It ends in one of three ways:
//!
//! - at a note with no parent, which is the root;
//! - at an id the vault does not hold, which is the root: a dangling reference is a designed
//!   state, and the last id the chain names is the best answer the files have;
//! - in a cycle, which never ends. Every note whose walk enters one cycle is rooted at the least
//!   id among them, and that note is the one reported.

use vstd::prelude::*;
use vstd::set_lib::{lemma_int_range, lemma_len_subset, set_int_range};

verus! {

/// Ids in strictly increasing order.
pub open spec fn increasing(ks: Seq<u128>) -> bool {
    forall|a: int, b: int| 0 <= a < b < ks.len() ==> ks[a] < ks[b]
}

/// The parent the vault records for `x`: `None` when it holds no note `x`, or that note names
/// none.
pub open spec fn parent(ks: Seq<u128>, ps: Seq<Option<u128>>, x: u128) -> Option<u128> {
    if ks.contains(x) {
        ps[ks.index_of(x)]
    } else {
        None
    }
}

/// Whether a walk that reached `x` ends there.
pub open spec fn stops(ks: Seq<u128>, ps: Seq<Option<u128>>, x: u128) -> bool {
    parent(ks, ps, x) is None
}

/// One step of the walk; a walk that has ended stays where it is.
pub open spec fn next(ks: Seq<u128>, ps: Seq<Option<u128>>, x: u128) -> u128 {
    match parent(ks, ps, x) {
        Some(p) => p,
        None => x,
    }
}

/// Where the walk from `x` is after `k` steps.
pub open spec fn nth(ks: Seq<u128>, ps: Seq<Option<u128>>, x: u128, k: nat) -> u128
    decreases k,
{
    if k == 0 {
        x
    } else {
        next(ks, ps, nth(ks, ps, x, (k - 1) as nat))
    }
}

/// Whether the walk from `s` ends.
pub open spec fn settles(ks: Seq<u128>, ps: Seq<Option<u128>>, s: u128) -> bool {
    exists|k: nat| stops(ks, ps, #[trigger] nth(ks, ps, s, k))
}

/// Where the walk from `s` ends, when it does.
pub open spec fn terminal(ks: Seq<u128>, ps: Seq<Option<u128>>, s: u128) -> u128 {
    nth(ks, ps, s, choose|k: nat| stops(ks, ps, #[trigger] nth(ks, ps, s, k)))
}

/// Whether the walks from `s` and `t` reach a common note.
pub open spec fn meets(ks: Seq<u128>, ps: Seq<Option<u128>>, s: u128, t: u128) -> bool {
    exists|a: nat, b: nat| #[trigger] nth(ks, ps, s, a) == #[trigger] nth(ks, ps, t, b)
}

/// Whether `ks[p]` is the first id of the vault whose walk meets the walk from `s`.
pub open spec fn first_meeting(ks: Seq<u128>, ps: Seq<Option<u128>>, s: u128, p: int) -> bool {
    &&& 0 <= p < ks.len()
    &&& meets(ks, ps, s, ks[p])
    &&& forall|q: int| 0 <= q < p ==> !meets(ks, ps, s, #[trigger] ks[q])
}

/// The root of a note whose walk never ends: the least id whose walk enters the same cycle.
pub open spec fn cycle_root(ks: Seq<u128>, ps: Seq<Option<u128>>, s: u128) -> u128 {
    ks[choose|p: int| first_meeting(ks, ps, s, p)]
}

/// The derived root of `s`.
pub open spec fn derived_root(ks: Seq<u128>, ps: Seq<Option<u128>>, s: u128) -> u128 {
    if settles(ks, ps, s) {
        terminal(ks, ps, s)
    } else {
        cycle_root(ks, ps, s)
    }
}

/// Whether the walk from `s` visits, at step `k`, a note it visited before.
pub open spec fn repeats_at(ks: Seq<u128>, ps: Seq<Option<u128>>, s: u128, k: nat) -> bool {
    exists|j: nat| j < k && #[trigger] nth(ks, ps, s, j) == nth(ks, ps, s, k)
}

/// Whether step `k` is the first at which the walk from `s` comes back to a note.
pub open spec fn first_repeat(ks: Seq<u128>, ps: Seq<Option<u128>>, s: u128, k: nat) -> bool {
    repeats_at(ks, ps, s, k) && forall|m: nat| m < k ==> !#[trigger] repeats_at(ks, ps, s, m)
}

/// The note the walk from `s` comes back to.
pub open spec fn cycle_entry(ks: Seq<u128>, ps: Seq<Option<u128>>, s: u128) -> u128 {
    nth(ks, ps, s, choose|k: nat| first_repeat(ks, ps, s, k))
}

/// Whether `s` is the note a cycle is reported under: its walk never ends and it is the least id
/// whose walk enters that cycle.
pub open spec fn is_cycle_head(ks: Seq<u128>, ps: Seq<Option<u128>>, s: u128) -> bool {
    !settles(ks, ps, s) && cycle_root(ks, ps, s) == s
}

/// The cycles among the first `n` notes, in id order: each head's position and the note its
/// walk comes back to.
pub open spec fn cycle_heads(ks: Seq<u128>, ps: Seq<Option<u128>>, n: int) -> Seq<(usize, u128)>
    decreases n,
{
    if n <= 0 {
        Seq::empty()
    } else if is_cycle_head(ks, ps, ks[n - 1]) {
        cycle_heads(ks, ps, n - 1).push(((n - 1) as usize, cycle_entry(ks, ps, ks[n - 1])))
    } else {
        cycle_heads(ks, ps, n - 1)
    }
}

// =============================================================================================
// Facts about walks
// =============================================================================================

/// In an increasing id list, the position of an id is where it stands.
pub proof fn lemma_slot(ks: Seq<u128>, ps: Seq<Option<u128>>, p: int)
    requires
        increasing(ks),
        0 <= p < ks.len(),
    ensures
        ks.contains(ks[p]),
        ks.index_of(ks[p]) == p,
        parent(ks, ps, ks[p]) == ps[p],
{
    assert(ks[p] == ks[p]);
    let i = ks.index_of(ks[p]);
    assert(0 <= i < ks.len() && ks[i] == ks[p]);
    if i < p {
        assert(ks[i] < ks[p]);
    } else if p < i {
        assert(ks[p] < ks[i]);
    }
}

/// Walking `a` steps and then `b` more is walking `a + b`.
pub proof fn lemma_nth_add(ks: Seq<u128>, ps: Seq<Option<u128>>, x: u128, a: nat, b: nat)
    ensures
        nth(ks, ps, nth(ks, ps, x, a), b) == nth(ks, ps, x, a + b),
    decreases b,
{
    if b > 0 {
        lemma_nth_add(ks, ps, x, a, (b - 1) as nat);
        assert((a + b - 1) as nat == a + (b - 1) as nat);
    }
}

/// A walk that has ended stays where it ended.
pub proof fn lemma_stays(ks: Seq<u128>, ps: Seq<Option<u128>>, x: u128, a: nat, b: nat)
    requires
        stops(ks, ps, nth(ks, ps, x, a)),
        a <= b,
    ensures
        nth(ks, ps, x, b) == nth(ks, ps, x, a),
    decreases b - a,
{
    if a < b {
        lemma_stays(ks, ps, x, a, (b - 1) as nat);
    }
}

/// A walk that ends at step `a` settles there.
pub proof fn lemma_terminal_at(ks: Seq<u128>, ps: Seq<Option<u128>>, s: u128, a: nat)
    requires
        stops(ks, ps, nth(ks, ps, s, a)),
    ensures
        settles(ks, ps, s),
        terminal(ks, ps, s) == nth(ks, ps, s, a),
{
    let k = choose|k: nat| stops(ks, ps, #[trigger] nth(ks, ps, s, k));
    if a <= k {
        lemma_stays(ks, ps, s, a, k);
    } else {
        lemma_stays(ks, ps, s, k, a);
    }
}

/// The walk from a note meets a walk exactly when the walk from any note on its way does.
proof fn lemma_meets_along(ks: Seq<u128>, ps: Seq<Option<u128>>, s: u128, m: nat, t: u128)
    ensures
        meets(ks, ps, s, t) == meets(ks, ps, nth(ks, ps, s, m), t),
{
    let x = nth(ks, ps, s, m);
    if meets(ks, ps, s, t) {
        let (a, b) = choose|a: nat, b: nat| #[trigger] nth(ks, ps, s, a) == #[trigger] nth(ks, ps, t, b);
        if a >= m {
            lemma_nth_add(ks, ps, s, m, (a - m) as nat);
            assert(nth(ks, ps, x, (a - m) as nat) == nth(ks, ps, t, b));
        } else {
            lemma_nth_add(ks, ps, s, a, (m - a) as nat);
            lemma_nth_add(ks, ps, t, b, (m - a) as nat);
            assert(nth(ks, ps, x, 0) == nth(ks, ps, t, b + (m - a) as nat));
        }
    }
    if meets(ks, ps, x, t) {
        let (a, b) = choose|a: nat, b: nat| #[trigger] nth(ks, ps, x, a) == #[trigger] nth(ks, ps, t, b);
        lemma_nth_add(ks, ps, s, m, a);
        assert(nth(ks, ps, s, m + a) == nth(ks, ps, t, b));
    }
}

/// Among the ids of `ks`, a property one of them has is had by a first one.
proof fn lemma_first_meeting_exists(ks: Seq<u128>, ps: Seq<Option<u128>>, s: u128, p: int)
    requires
        0 <= p < ks.len(),
        meets(ks, ps, s, ks[p]),
    ensures
        exists|f: int| first_meeting(ks, ps, s, f),
    decreases p,
{
    if forall|q: int| 0 <= q < p ==> !meets(ks, ps, s, #[trigger] ks[q]) {
        assert(first_meeting(ks, ps, s, p));
    } else {
        let q = choose|q: int| 0 <= q < p && meets(ks, ps, s, #[trigger] ks[q]);
        lemma_first_meeting_exists(ks, ps, s, q);
    }
}

/// A note whose walk never ends has a parent at every step, so the vault holds every note on it.
pub proof fn lemma_unsettled_held(ks: Seq<u128>, ps: Seq<Option<u128>>, s: u128, a: nat)
    requires
        !settles(ks, ps, s),
    ensures
        parent(ks, ps, nth(ks, ps, s, a)) is Some,
        ks.contains(nth(ks, ps, s, a)),
{
    if stops(ks, ps, nth(ks, ps, s, a)) {
        lemma_terminal_at(ks, ps, s, a);
    }
}

/// In an increasing id list, the first id whose walk meets the walk from `s` is the least id
/// that does.
proof fn lemma_first_is_least(ks: Seq<u128>, ps: Seq<Option<u128>>, s: u128, f: int, u: u128)
    requires
        increasing(ks),
        first_meeting(ks, ps, s, f),
        ks.contains(u),
        meets(ks, ps, s, u),
    ensures
        ks[f] <= u,
{
    let q = choose|q: int| 0 <= q < ks.len() && ks[q] == u;
    if q < f {
        assert(!meets(ks, ps, s, ks[q]));
    } else if f < q {
        assert(ks[f] < ks[q]);
    }
}

/// The cycle root of `s` is held, meets `s`, and is at most every held id that meets `s`.
pub proof fn lemma_cycle_root(ks: Seq<u128>, ps: Seq<Option<u128>>, s: u128)
    requires
        increasing(ks),
        !settles(ks, ps, s),
    ensures
        ks.contains(cycle_root(ks, ps, s)),
        meets(ks, ps, s, cycle_root(ks, ps, s)),
        forall|u: u128| ks.contains(u) && meets(ks, ps, s, u) ==> cycle_root(ks, ps, s) <= u,
{
    lemma_unsettled_held(ks, ps, s, 0);
    let p = choose|p: int| 0 <= p < ks.len() && ks[p] == s;
    assert(nth(ks, ps, s, 0) == nth(ks, ps, ks[p], 0));
    lemma_first_meeting_exists(ks, ps, s, p);
    let f = choose|f: int| first_meeting(ks, ps, s, f);
    assert(ks.contains(ks[f]));
    assert forall|u: u128| ks.contains(u) && meets(ks, ps, s, u) implies ks[f] <= u by {
        lemma_first_is_least(ks, ps, s, f, u);
    }
}

/// The cycle root is the only held id that meets `s` and is at most every other that does.
proof fn lemma_cycle_root_unique(ks: Seq<u128>, ps: Seq<Option<u128>>, s: u128, t: u128)
    requires
        increasing(ks),
        !settles(ks, ps, s),
        ks.contains(t),
        meets(ks, ps, s, t),
        forall|u: u128| ks.contains(u) && meets(ks, ps, s, u) ==> t <= u,
    ensures
        cycle_root(ks, ps, s) == t,
{
    lemma_cycle_root(ks, ps, s);
}

/// A note and every note on its walk have the same derived root.
pub proof fn lemma_root_along(ks: Seq<u128>, ps: Seq<Option<u128>>, s: u128, m: nat)
    requires
        increasing(ks),
    ensures
        settles(ks, ps, s) == settles(ks, ps, nth(ks, ps, s, m)),
        derived_root(ks, ps, s) == derived_root(ks, ps, nth(ks, ps, s, m)),
{
    let x = nth(ks, ps, s, m);
    if settles(ks, ps, s) {
        let k = choose|k: nat| stops(ks, ps, #[trigger] nth(ks, ps, s, k));
        lemma_stays(ks, ps, s, k, m + k);
        lemma_nth_add(ks, ps, s, m, k);
        lemma_terminal_at(ks, ps, x, k);
        lemma_terminal_at(ks, ps, s, k);
    } else {
        if settles(ks, ps, x) {
            let k = choose|k: nat| stops(ks, ps, #[trigger] nth(ks, ps, x, k));
            lemma_nth_add(ks, ps, s, m, k);
            lemma_terminal_at(ks, ps, s, m + k);
        }
        lemma_cycle_root(ks, ps, s);
        let t = cycle_root(ks, ps, s);
        lemma_meets_along(ks, ps, s, m, t);
        assert forall|u: u128| ks.contains(u) && meets(ks, ps, x, u) implies t <= u by {
            lemma_meets_along(ks, ps, s, m, u);
        }
        lemma_cycle_root_unique(ks, ps, x, t);
    }
}

/// A walk that comes back to step `j` at step `k` visits nothing outside its first `k` steps.
proof fn lemma_within_loop(ks: Seq<u128>, ps: Seq<Option<u128>>, s: u128, j: nat, k: nat, a: nat)
    requires
        j < k,
        nth(ks, ps, s, j) == nth(ks, ps, s, k),
    ensures
        exists|i: nat| i < k && #[trigger] nth(ks, ps, s, i) == nth(ks, ps, s, a),
    decreases a,
{
    if a < k {
        assert(nth(ks, ps, s, a) == nth(ks, ps, s, a));
    } else {
        lemma_nth_add(ks, ps, s, k, (a - k) as nat);
        lemma_nth_add(ks, ps, s, j, (a - k) as nat);
        lemma_within_loop(ks, ps, s, j, k, (j + (a - k)) as nat);
    }
}

/// A walk that comes back to a note never ends.
proof fn lemma_loop_unsettled(ks: Seq<u128>, ps: Seq<Option<u128>>, s: u128, j: nat, k: nat)
    requires
        j < k,
        nth(ks, ps, s, j) == nth(ks, ps, s, k),
        forall|i: nat| i < k ==> !stops(ks, ps, #[trigger] nth(ks, ps, s, i)),
    ensures
        !settles(ks, ps, s),
{
    if settles(ks, ps, s) {
        let a = choose|a: nat| stops(ks, ps, #[trigger] nth(ks, ps, s, a));
        lemma_within_loop(ks, ps, s, j, k, a);
    }
}

/// The first step at which a walk comes back is unique, so it names the note it comes back to.
proof fn lemma_cycle_entry(ks: Seq<u128>, ps: Seq<Option<u128>>, s: u128, k: nat)
    requires
        first_repeat(ks, ps, s, k),
    ensures
        cycle_entry(ks, ps, s) == nth(ks, ps, s, k),
{
    let c = choose|c: nat| first_repeat(ks, ps, s, c);
    if c < k {
        assert(!repeats_at(ks, ps, s, c));
    } else if k < c {
        assert(!repeats_at(ks, ps, s, k));
    }
}

/// Two walks that each meet a third meet each other.
proof fn lemma_meets_trans(ks: Seq<u128>, ps: Seq<Option<u128>>, s: u128, r: u128, u: u128)
    requires
        meets(ks, ps, s, r),
        meets(ks, ps, r, u),
    ensures
        meets(ks, ps, s, u),
{
    let (a, b) = choose|a: nat, b: nat| #[trigger] nth(ks, ps, s, a) == #[trigger] nth(ks, ps, r, b);
    let (c, d) = choose|c: nat, d: nat| #[trigger] nth(ks, ps, r, c) == #[trigger] nth(ks, ps, u, d);
    if b <= c {
        lemma_nth_add(ks, ps, s, a, (c - b) as nat);
        lemma_nth_add(ks, ps, r, b, (c - b) as nat);
        assert(nth(ks, ps, s, a + (c - b) as nat) == nth(ks, ps, u, d));
    } else {
        lemma_nth_add(ks, ps, u, d, (b - c) as nat);
        lemma_nth_add(ks, ps, r, c, (b - c) as nat);
        assert(nth(ks, ps, s, a) == nth(ks, ps, u, d + (b - c) as nat));
    }
}

/// A note the vault holds with no parent is its own root.
pub proof fn lemma_root_of_parentless(ks: Seq<u128>, ps: Seq<Option<u128>>, s: u128)
    requires
        parent(ks, ps, s) is None,
    ensures
        derived_root(ks, ps, s) == s,
{
    lemma_terminal_at(ks, ps, s, 0);
}

/// A note whose parent the vault does not hold is rooted at that parent's id, so the replies to
/// a purged note stay grouped under the id they all still name.
pub proof fn lemma_root_of_dangling(ks: Seq<u128>, ps: Seq<Option<u128>>, s: u128, p: u128)
    requires
        parent(ks, ps, s) == Some(p),
        !ks.contains(p),
    ensures
        derived_root(ks, ps, s) == p,
{
    assert(nth(ks, ps, s, 0) == s);
    assert(nth(ks, ps, s, 1) == p);
    lemma_terminal_at(ks, ps, s, 1);
}

/// A reply has its parent's root whenever the vault holds the parent, cycles included.
pub proof fn lemma_reply_shares_root(ks: Seq<u128>, ps: Seq<Option<u128>>, s: u128, p: u128)
    requires
        increasing(ks),
        parent(ks, ps, s) == Some(p),
    ensures
        derived_root(ks, ps, s) == derived_root(ks, ps, p),
{
    assert(nth(ks, ps, s, 0) == s);
    assert(nth(ks, ps, s, 1) == p);
    lemma_root_along(ks, ps, s, 1);
}

/// A root is its own root: it is an id the vault does not hold, a note with no parent, or the
/// note a cycle is reported under.
pub proof fn lemma_root_is_a_head(ks: Seq<u128>, ps: Seq<Option<u128>>, s: u128)
    requires
        increasing(ks),
    ensures
        derived_root(ks, ps, derived_root(ks, ps, s)) == derived_root(ks, ps, s),
        stops(ks, ps, derived_root(ks, ps, s)) || is_cycle_head(ks, ps, derived_root(ks, ps, s)),
{
    if settles(ks, ps, s) {
        let k = choose|k: nat| stops(ks, ps, #[trigger] nth(ks, ps, s, k));
        lemma_terminal_at(ks, ps, s, k);
        lemma_root_of_parentless(ks, ps, nth(ks, ps, s, k));
    } else {
        lemma_cycle_root(ks, ps, s);
        let r = cycle_root(ks, ps, s);
        let (a, b) = choose|a: nat, b: nat| #[trigger] nth(ks, ps, s, a) == #[trigger] nth(ks, ps, r, b);
        lemma_root_along(ks, ps, s, a);
        lemma_root_along(ks, ps, r, b);
        assert(!settles(ks, ps, r));
        assert(meets(ks, ps, r, s)) by {
            assert(nth(ks, ps, r, b) == nth(ks, ps, s, a));
        }
        lemma_cycle_root(ks, ps, r);
        assert forall|u: u128| ks.contains(u) && meets(ks, ps, r, u) implies r <= u by {
            lemma_meets_trans(ks, ps, s, r, u);
        }
        lemma_cycle_root_unique(ks, ps, r, r);
    }
}

/// Every cycle is reported under a position among the notes scanned, in increasing order.
pub proof fn lemma_cycle_heads_positions(ks: Seq<u128>, ps: Seq<Option<u128>>, n: int)
    requires
        n <= ks.len() <= usize::MAX,
    ensures
        forall|j: int|
            0 <= j < cycle_heads(ks, ps, n).len() ==> (#[trigger] cycle_heads(ks, ps, n)[j]).0 < n
                && is_cycle_head(ks, ps, ks[cycle_heads(ks, ps, n)[j].0 as int]),
    decreases n,
{
    if n > 0 {
        lemma_cycle_heads_positions(ks, ps, n - 1);
        let prev = cycle_heads(ks, ps, n - 1);
        let h = cycle_heads(ks, ps, n);
        assert forall|j: int| 0 <= j < h.len() implies (#[trigger] h[j]).0 < n && is_cycle_head(
            ks,
            ps,
            ks[h[j].0 as int],
        ) by {
            if j < prev.len() {
                assert(h[j] == prev[j]);
            } else {
                assert(h[j].0 == (n - 1) as usize);
            }
        }
    }
}

/// A sequence of distinct positions below `n` has at most `n` of them.
pub proof fn lemma_distinct_below_pub(s: Seq<usize>, n: int)
    requires
        s.no_duplicates(),
        0 <= n,
        forall|i: int| 0 <= i < s.len() ==> s[i] < n,
    ensures
        s.len() <= n,
{
    lemma_distinct_below(s, n);
}

/// A sequence of distinct positions below `n` has at most `n` of them.
proof fn lemma_distinct_below(s: Seq<usize>, n: int)
    requires
        s.no_duplicates(),
        0 <= n,
        forall|i: int| 0 <= i < s.len() ==> s[i] < n,
    ensures
        s.len() <= n,
{
    let t = s.map_values(|x: usize| x as int);
    assert(t.no_duplicates()) by {
        assert forall|a: int, b: int| 0 <= a < t.len() && 0 <= b < t.len() && a != b implies t[a]
            != t[b] by {
            assert(s[a] != s[b]);
        }
    }
    t.unique_seq_to_set();
    lemma_int_range(0, n);
    assert forall|x: int| t.to_set().contains(x) implies set_int_range(0, n).contains(x) by {
        let i = choose|i: int| 0 <= i < t.len() && t[i] == x;
    }
    lemma_len_subset(t.to_set(), set_int_range(0, n));
}


// =============================================================================================
// The memoized walk
// =============================================================================================

/// Every memoized root is the derived root, and was reached by the walk from one of the first
/// `i` notes.
spec fn memo_sound(
    ks: Seq<u128>,
    ps: Seq<Option<u128>>,
    memo: Seq<Option<u128>>,
    origin: Seq<(int, nat)>,
    i: int,
) -> bool {
    &&& memo.len() == ks.len()
    &&& origin.len() == ks.len()
    &&& forall|p: int|
        0 <= p < ks.len() && (#[trigger] memo[p]) is Some ==> {
            &&& memo[p]->0 == derived_root(ks, ps, ks[p])
            &&& 0 <= origin[p].0 < i
            &&& nth(ks, ps, ks[origin[p].0], origin[p].1) == ks[p]
        }
}

/// A memoized note's parent, when the vault holds it, is memoized too.
spec fn memo_closed(ks: Seq<u128>, ps: Seq<Option<u128>>, memo: Seq<Option<u128>>) -> bool {
    forall|p: int|
        0 <= p < ks.len() && (#[trigger] memo[p]) is Some && ps[p] is Some && ks.contains(
            ps[p]->0,
        ) ==> memo[ks.index_of(ps[p]->0)] is Some
}

/// Every held note on the walk from a memoized note is memoized.
proof fn lemma_memo_closed(
    ks: Seq<u128>,
    ps: Seq<Option<u128>>,
    memo: Seq<Option<u128>>,
    p: int,
    b: nat,
)
    requires
        increasing(ks),
        ps.len() == ks.len(),
        memo.len() == ks.len(),
        memo_closed(ks, ps, memo),
        0 <= p < ks.len(),
        memo[p] is Some,
    ensures
        ks.contains(nth(ks, ps, ks[p], b)) ==> memo[ks.index_of(nth(ks, ps, ks[p], b))] is Some,
    decreases b,
{
    lemma_slot(ks, ps, p);
    if b > 0 {
        let x = nth(ks, ps, ks[p], (b - 1) as nat);
        lemma_memo_closed(ks, ps, memo, p, (b - 1) as nat);
        if ks.contains(x) {
            let q = ks.index_of(x);
            lemma_slot(ks, ps, q);
            assert(memo[q] is Some);
        }
    }
}

/// Find `x` in the increasing id list.
fn slot_of(ks: &Vec<u128>, x: u128) -> (r: Option<usize>)
    requires
        increasing(ks@),
    ensures
        r matches Some(p) ==> p < ks.len() && ks@[p as int] == x,
        r is None ==> !ks@.contains(x),
{
    let mut lo: usize = 0;
    let mut hi: usize = ks.len();
    while lo < hi
        invariant
            increasing(ks@),
            lo <= hi <= ks.len(),
            forall|q: int| 0 <= q < lo ==> ks@[q] < x,
            forall|q: int| hi <= q < ks.len() ==> x < ks@[q],
        decreases hi - lo,
    {
        let mid = lo + (hi - lo) / 2;
        if ks[mid] == x {
            return Some(mid);
        } else if ks[mid] < x {
            lo = mid + 1;
        } else {
            hi = mid;
        }
    }
    None
}

/// Whether `x` is among `w`.
fn on_walk(w: &Vec<u128>, x: u128) -> (b: bool)
    ensures
        b == w@.contains(x),
{
    let mut j: usize = 0;
    while j < w.len()
        invariant
            j <= w.len(),
            forall|q: int| 0 <= q < j ==> w@[q] != x,
        decreases w.len() - j,
    {
        if w[j] == x {
            return true;
        }
        j = j + 1;
    }
    false
}

/// The walk from `ks[i]`, a note whose root is not memoized yet: the root it finds, the
/// positions of the notes it walked (all unmemoized, each rooted there), and, when it came back
/// to a note, that note.
#[verifier::rlimit(50)]
fn walk_from(
    ks: &Vec<u128>,
    ps: &Vec<Option<u128>>,
    memo: &Vec<Option<u128>>,
    i: usize,
    Ghost(origin): Ghost<Seq<(int, nat)>>,
) -> (out: ((u128, Vec<usize>), Option<u128>))
    requires
        i < ks.len() == ps.len(),
        increasing(ks@),
        memo_sound(ks@, ps@, memo@, origin, i as int),
        memo_closed(ks@, ps@, memo@),
        forall|p: int| 0 <= p < i ==> (#[trigger] memo@[p]) is Some,
        memo@[i as int] is None,
    ensures
        out.0.1.len() >= 1,
        out.0.1@[0] == i,
        out.0.1@.no_duplicates(),
        forall|j: int|
            0 <= j < out.0.1.len() ==> {
                &&& (#[trigger] out.0.1@[j]) < ks.len()
                &&& memo@[out.0.1@[j] as int] is None
                &&& derived_root(ks@, ps@, ks@[out.0.1@[j] as int]) == out.0.0
                &&& nth(ks@, ps@, ks@[i as int], j as nat) == ks@[out.0.1@[j] as int]
            },
        forall|j: int|
            0 <= j < out.0.1.len() && ps@[(#[trigger] out.0.1@[j]) as int] is Some && ks@.contains(
                ps@[out.0.1@[j] as int]->0,
            ) ==> memo@[ks@.index_of(ps@[out.0.1@[j] as int]->0)] is Some || exists|q: int|
                0 <= q < out.0.1.len() && #[trigger] out.0.1@[q] == ks@.index_of(
                    ps@[out.0.1@[j] as int]->0,
                ),
        out.1 is Some <==> is_cycle_head(ks@, ps@, ks@[i as int]),
        out.1 matches Some(e) ==> e == cycle_entry(ks@, ps@, ks@[i as int]),
{
    let n = ks.len();
    let s = ks[i];
    let ghost sk = ks@;
    let ghost sp = ps@;
    let mut walked: Vec<u128> = Vec::new();
    walked.push(s);
    let mut at: Vec<usize> = Vec::new();
    at.push(i);
    let mut current: Option<u128> = ps[i];
    proof {
        lemma_slot(sk, sp, i as int);
    }
    loop
        invariant
            i < n == ks.len() == ps.len(),
            sk == ks@,
            sp == ps@,
            s == sk[i as int],
            increasing(sk),
            memo_sound(sk, sp, memo@, origin, i as int),
            memo_closed(sk, sp, memo@),
            forall|p: int| 0 <= p < i ==> (#[trigger] memo@[p]) is Some,
            walked.len() == at.len() >= 1,
            at@[0] == i,
            walked@.no_duplicates(),
            forall|j: int|
                0 <= j < walked.len() ==> {
                    &&& (#[trigger] at@[j]) < n
                    &&& sk[at@[j] as int] == walked@[j]
                    &&& memo@[at@[j] as int] is None
                    &&& walked@[j] == nth(sk, sp, s, j as nat)
                },
            current == sp[at@[walked.len() - 1] as int],
        decreases n - walked.len(),
    {
        let k = walked.len();
        let last = walked[k - 1];
        proof {
            lemma_slot(sk, sp, at@[k - 1] as int);
            assert(nth(sk, sp, s, k as nat) == next(sk, sp, nth(sk, sp, s, (k - 1) as nat)));
            assert forall|j: int| 0 <= j < k implies at@[j] == sk.index_of(walked@[j]) by {
                lemma_slot(sk, sp, at@[j] as int);
            }
            assert(at@.no_duplicates()) by {
                assert forall|a: int, b: int| 0 <= a < k && 0 <= b < k && a != b implies at@[a] != at@[b] by {
                    assert(walked@[a] != walked@[b]);
                }
            }
            // Every step before the last has a parent: the walk moved on from it.
            assert forall|j: nat| j < k - 1 implies !stops(sk, sp, #[trigger] nth(sk, sp, s, j)) by {
                assert(nth(sk, sp, s, (j + 1) as nat) == next(sk, sp, nth(sk, sp, s, j)));
                assert(sk[at@[j as int] as int] == walked@[j as int]);
                assert(sk[at@[j + 1 as int] as int] == walked@[j + 1 as int]);
                assert(walked@[j as int] != walked@[j + 1 as int]);
            }
            assert forall|j: int| 0 <= j < k - 1 implies sp[(#[trigger] at@[j]) as int] == Some(walked@[j + 1]) by {
                lemma_slot(sk, sp, at@[j] as int);
                assert(nth(sk, sp, s, (j + 1) as nat) == next(sk, sp, nth(sk, sp, s, j as nat)));
                assert(sk[at@[j] as int] == walked@[j]);
                assert(sk[at@[j + 1] as int] == walked@[j + 1]);
                assert(walked@[j] != walked@[j + 1]);
            }
            assert forall|j: int| 0 <= j < k - 1 implies #[trigger] sp[at@[j] as int] is Some && exists|q: int|
                0 <= q < k && #[trigger] at@[q] == sk.index_of(sp[at@[j] as int]->0) by {
                lemma_slot(sk, sp, at@[j + 1] as int);
                assert(sp[(at@[j]) as int] == Some(walked@[j + 1]));
                assert(at@[j + 1] == sk.index_of(sp[at@[j] as int]->0));
            }
        }
        match current {
            None => {
                // No parent: the last note walked is the root.
                proof {
                    assert(stops(sk, sp, nth(sk, sp, s, (k - 1) as nat)));
                    assert forall|j: int| 0 <= j < k implies derived_root(sk, sp, sk[(#[trigger] at@[j]) as int]) == last by {
                        lemma_nth_add(sk, sp, s, j as nat, (k - 1 - j) as nat);
                        assert(sk[at@[j] as int] == walked@[j]);
                        assert((j as nat + (k - 1 - j) as nat) as nat == (k - 1) as nat);
                        lemma_terminal_at(sk, sp, walked@[j], (k - 1 - j) as nat);
                    }
                    lemma_terminal_at(sk, sp, s, (k - 1) as nat);
                    assert(cycle_heads(sk, sp, i + 1) == cycle_heads(sk, sp, i as int));
                }
                return ((last, at), None);
            },
            Some(c) => {
                proof {
                    assert(nth(sk, sp, s, k as nat) == c);
                }
                match slot_of(ks, c) {
                    None => {
                        // A parent the vault does not hold ends the walk, and is the root.
                        proof {
                            assert(stops(sk, sp, c));
                            assert forall|j: int| 0 <= j < k implies derived_root(sk, sp, sk[(#[trigger] at@[j]) as int]) == c by {
                                lemma_nth_add(sk, sp, s, j as nat, (k - j) as nat);
                                assert(sk[at@[j] as int] == walked@[j]);
                                assert((j as nat + (k - j) as nat) as nat == k as nat);
                                lemma_terminal_at(sk, sp, walked@[j], (k - j) as nat);
                            }
                            lemma_terminal_at(sk, sp, s, k as nat);
                        }
                        return ((c, at), None);
                    },
                    Some(q) => {
                        proof {
                            lemma_slot(sk, sp, q as int);
                        }
                        match memo[q] {
                            Some(r) => {
                                // A note whose root is known: everything walked shares it.
                                proof {
                                    assert forall|j: int| 0 <= j < k implies derived_root(sk, sp, sk[(#[trigger] at@[j]) as int]) == r by {
                                        lemma_nth_add(sk, sp, s, j as nat, (k - j) as nat);
                                        lemma_root_along(sk, sp, walked@[j], (k - j) as nat);
                                    }
                                    if !settles(sk, sp, s) {
                                        let (o, m) = origin[q as int];
                                        lemma_slot(sk, sp, o);
                                        assert(nth(sk, sp, sk[o], m) == nth(sk, sp, s, k as nat));
                                        assert(meets(sk, sp, s, sk[o]));
                                        lemma_cycle_root(sk, sp, s);
                                        lemma_root_along(sk, sp, s, k as nat);
                                        assert(sk[o] < sk[i as int]);
                                    }
                                }
                                return ((r, at), None);
                            },
                            None => {
                                if on_walk(&walked, c) {
                                    // The walk came back to a note: a cycle, reported under
                                    // the note that started it, which is its own root.
                                    proof {
                                        let j0 = choose|j0: int| 0 <= j0 < k && walked@[j0] == c;
                                        assert(sk[at@[j0] as int] == walked@[j0]);
                                        assert(nth(sk, sp, s, j0 as nat) == nth(sk, sp, s, k as nat));
                                        assert(!stops(sk, sp, nth(sk, sp, s, (k - 1) as nat)));
                                        lemma_loop_unsettled(sk, sp, s, j0 as nat, k as nat);
                                        assert(nth(sk, sp, s, 0) == s);
                                        assert(meets(sk, sp, s, s));
                                        assert forall|u: u128| sk.contains(u) && meets(sk, sp, s, u) implies s <= u by {
                                            if u < s {
                                                let qu = choose|qu: int| 0 <= qu < sk.len() && sk[qu] == u;
                                                if i <= qu {
                                                    assert(sk[i as int] <= sk[qu]);
                                                }
                                                let (a, b) = choose|a: nat, b: nat| #[trigger] nth(sk, sp, s, a) == #[trigger] nth(sk, sp, u, b);
                                                lemma_within_loop(sk, sp, s, j0 as nat, k as nat, a);
                                                let w = choose|w: nat| w < k && #[trigger] nth(sk, sp, s, w) == nth(sk, sp, s, a);
                                                lemma_slot(sk, sp, qu);
                                                lemma_memo_closed(sk, sp, memo@, qu, b);
                                                lemma_slot(sk, sp, at@[w as int] as int);
                                                assert(memo@[at@[w as int] as int] is None);
                                            }
                                        }
                                        lemma_cycle_root_unique(sk, sp, s, s);
                                        assert forall|j: int| 0 <= j < k implies derived_root(sk, sp, sk[(#[trigger] at@[j]) as int]) == s by {
                                            lemma_root_along(sk, sp, s, j as nat);
                                        }
                                        assert(repeats_at(sk, sp, s, k as nat));
                                        assert forall|m: nat| m < k implies !#[trigger] repeats_at(sk, sp, s, m) by {
                                            if repeats_at(sk, sp, s, m) {
                                                let jj = choose|jj: nat| jj < m && #[trigger] nth(sk, sp, s, jj) == nth(sk, sp, s, m);
                                                assert(sk[at@[jj as int] as int] == walked@[jj as int]);
                                                assert(sk[at@[m as int] as int] == walked@[m as int]);
                                                assert(walked@[jj as int] == walked@[m as int]);
                                            }
                                        }
                                        lemma_cycle_entry(sk, sp, s, k as nat);
                                    }
                                    return ((s, at), Some(c));
                                }
                                proof {
                                    let ghost nw = walked@.push(c);
                                    assert(!walked@.contains(c));
                                    assert(at@.push(q).no_duplicates()) by {
                                        assert forall|a: int| 0 <= a < k implies at@[a] != q by {
                                            if at@[a] == q {
                                                assert(walked@[a] == c);
                                            }
                                        }
                                    }
                                    lemma_distinct_below(at@.push(q), n as int);
                                }
                                walked.push(c);
                                at.push(q);
                                current = ps[q];
                            },
                        }
                    },
                }
            },
        }
    }
}

/// Every note's derived root, by position, and the cycles the walks found: for each, the
/// position of the note reported and the note its walk comes back to.
///
/// One memoized walk per note, in id order. A walk stops at the first note whose root is already
/// known, so the whole pass visits each note a bounded number of times however deep the threads
/// are.
#[verifier::rlimit(50)]
pub fn derive_roots(ks: &Vec<u128>, ps: &Vec<Option<u128>>) -> (out: (Vec<u128>, Vec<(usize, u128)>))
    requires
        increasing(ks@),
        ps.len() == ks.len(),
    ensures
        out.0.len() == ks.len(),
        forall|p: int| 0 <= p < ks.len() ==> out.0@[p] == derived_root(ks@, ps@, #[trigger] ks@[p]),
        out.1@ == cycle_heads(ks@, ps@, ks.len() as int),
{
    let n = ks.len();
    let mut memo: Vec<Option<u128>> = Vec::new();
    let mut i: usize = 0;
    while i < n
        invariant
            i <= n == ks.len(),
            memo.len() == i,
            forall|p: int| 0 <= p < i ==> memo@[p] is None,
        decreases n - i,
    {
        memo.push(None);
        i = i + 1;
    }
    let ghost mut origin: Seq<(int, nat)> = Seq::new(n as nat, |p: int| (0int, 0nat));
    let mut cycles: Vec<(usize, u128)> = Vec::new();
    i = 0;
    while i < n
        invariant
            i <= n == ks.len() == ps.len(),
            increasing(ks@),
            memo_sound(ks@, ps@, memo@, origin, i as int),
            memo_closed(ks@, ps@, memo@),
            forall|p: int| 0 <= p < i ==> (#[trigger] memo@[p]) is Some,
            cycles@ == cycle_heads(ks@, ps@, i as int),
        decreases n - i,
    {
        let s = ks[i];
        proof {
            lemma_slot(ks@, ps@, i as int);
        }
        if memo[i].is_some() {
            proof {
                let (o, m) = origin[i as int];
                assert(nth(ks@, ps@, s, 0) == s);
                assert(meets(ks@, ps@, s, ks@[o]));
                if !settles(ks@, ps@, s) {
                    lemma_slot(ks@, ps@, o);
                    lemma_cycle_root(ks@, ps@, s);
                    assert(ks@[o] < ks@[i as int]);
                }
                assert(!is_cycle_head(ks@, ps@, s));
            }
        } else {
            let (root, cycle) = walk_from(ks, ps, &memo, i, Ghost(origin));
            let (r, at) = root;
            let ghost before = memo@;
            let ghost origin0 = origin;
            let mut j: usize = 0;
            while j < at.len()
                invariant
                    i < n == ks.len() == ps.len(),
                    j <= at.len(),
                    at@.no_duplicates(),
                    memo.len() == n,
                    origin.len() == n,
                    before.len() == n,
                    origin0.len() == n,
                    forall|q: int| 0 <= q < at.len() ==> (#[trigger] at@[q]) < n && before[at@[q] as int] is None,
                    forall|q: int| 0 <= q < j ==> memo@[(#[trigger] at@[q]) as int] == Some(r)
                        && origin[at@[q] as int] == (i as int, q as nat),
                    forall|p: int|
                        0 <= p < n && (forall|q: int| 0 <= q < j ==> #[trigger] at@[q] != p) ==> memo@[p]
                            == before[p] && origin[p] == origin0[p],
                    forall|p: int| 0 <= p < n && before[p] is Some ==> memo@[p] == before[p],
                decreases at.len() - j,
            {
                let at_j = at[j];
                memo.set(at_j, Some(r));
                proof {
                    origin = origin.update(at_j as int, (i as int, j as nat));
                }
                j = j + 1;
            }
            proof {
                assert forall|p: int| 0 <= p < ks.len() && (#[trigger] memo@[p]) is Some implies {
                    &&& memo@[p]->0 == derived_root(ks@, ps@, ks@[p])
                    &&& 0 <= origin[p].0 < i + 1
                    &&& nth(ks@, ps@, ks@[origin[p].0], origin[p].1) == ks@[p]
                } by {
                    if exists|q: int| 0 <= q < at.len() && #[trigger] at@[q] == p {
                        let q = choose|q: int| 0 <= q < at.len() && #[trigger] at@[q] == p;
                        assert(memo@[at@[q] as int] == Some(r));
                        assert(derived_root(ks@, ps@, ks@[at@[q] as int]) == r);
                        assert(origin[at@[q] as int] == (i as int, q as nat));
                        assert(nth(ks@, ps@, ks@[i as int], q as nat) == ks@[at@[q] as int]);
                    } else {
                        assert(forall|q: int| 0 <= q < at.len() ==> #[trigger] at@[q] != p);
                        assert(memo@[p] == before[p]);
                        assert(origin[p] == origin0[p]);
                    }
                }
                assert(memo_sound(ks@, ps@, memo@, origin, (i + 1) as int));
                assert(memo_closed(ks@, ps@, memo@)) by {
                    assert forall|p: int|
                        0 <= p < ks.len() && (#[trigger] memo@[p]) is Some && ps@[p] is Some
                            && ks@.contains(ps@[p]->0) implies memo@[ks@.index_of(ps@[p]->0)] is Some by {
                        if exists|q: int| 0 <= q < at.len() && #[trigger] at@[q] == p {
                            let q = choose|q: int| 0 <= q < at.len() && #[trigger] at@[q] == p;
                            let x = ks@.index_of(ps@[p]->0);
                            if before[x] is None {
                                let q2 = choose|q2: int| 0 <= q2 < at.len() && #[trigger] at@[q2] == x;
                                assert(memo@[at@[q2] as int] == Some(r));
                            }
                        } else {
                            assert(before[p] is Some);
                        }
                    }
                }
                assert(memo@[i as int] is Some) by {
                    assert(at@[0] == i);
                    assert(memo@[at@[0] as int] == Some(r));
                }
                assert forall|p: int| 0 <= p < i + 1 implies (#[trigger] memo@[p]) is Some by {
                    if p < i {
                        assert(before[p] is Some);
                    }
                }
            }
            match cycle {
                Some(entry) => {
                    cycles.push((i, entry));
                },
                None => {},
            }
        }
        i = i + 1;
    }
    let mut roots: Vec<u128> = Vec::new();
    let mut p: usize = 0;
    while p < n
        invariant
            p <= n == ks.len(),
            memo_sound(ks@, ps@, memo@, origin, n as int),
            forall|q: int| 0 <= q < n ==> (#[trigger] memo@[q]) is Some,
            roots.len() == p,
            forall|q: int| 0 <= q < p ==> roots@[q] == derived_root(ks@, ps@, #[trigger] ks@[q]),
        decreases n - p,
    {
        match memo[p] {
            Some(r) => roots.push(r),
            None => {},
        }
        p = p + 1;
    }
    (roots, cycles)
}

} // verus!
