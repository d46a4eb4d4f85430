//! What a vault watcher decides, apart from the notification plumbing that feeds it.
//!
//! A vault is two flat directories, so the watch is not recursive, which is also what keeps the
//! index's own writes under `.jot/` from reading as vault changes. What a surface gets back is a
//! coalesced [`Change`]: a burst of file events costs one sync, reported once things go quiet.

use vstd::prelude::*;

use crate::fs::{file_name_range, is_note_file_name, is_note_path};
use vstd::utf8::encode_utf8;

verus! {

/// How long, in milliseconds, the debouncer waits for quiet before reporting a change: below the
/// "within a second" a surface promises, longer than any editor's write-and-rename dance.
pub const DEBOUNCE_MS: u64 = 200;

/// Something in the vault changed. Coalesced: the answer to it is always one sync.
#[derive(Debug, Clone, Copy, PartialEq, Eq, Structural)]
pub enum Change {
    Vault,
}

/// Whether a path names a note file: a `.md` file whose name does not start with a dot.
pub open spec fn names_a_note(path: Seq<char>) -> bool {
    match file_name_range(encode_utf8(path), encode_utf8(path).len() as int) {
        Some((s, e)) => is_note_file_name(encode_utf8(path).subrange(s, e)),
        None => false,
    }
}

/// Whether one file event concerns notes: a read never does; otherwise, any of its paths naming
/// a note file.
pub open spec fn concerns_notes(is_access: bool, paths: Seq<Seq<char>>) -> bool {
    !is_access && exists|i: int| 0 <= i < paths.len() && names_a_note(#[trigger] paths[i])
}

/// Whether one file event, a read or not, touching `paths`, concerns notes.
pub fn is_note_event(is_access: bool, paths: &Vec<String>) -> (b: bool)
    ensures
        b == concerns_notes(is_access, paths@.map_values(|p: String| p@)),
{
    let ghost ps = paths@.map_values(|p: String| p@);
    if is_access {
        return false;
    }
    let mut i: usize = 0;
    while i < paths.len()
        invariant
            i <= paths.len(),
            !is_access,
            ps == paths@.map_values(|p: String| p@),
            forall|q: int| 0 <= q < i ==> !names_a_note(#[trigger] ps[q]),
        decreases paths.len() - i,
    {
        if is_note_path(paths[i].as_str()) {
            assert(ps[i as int] == paths@[i as int]@);
            assert(names_a_note(ps[i as int]));
            assert(concerns_notes(false, ps));
            return true;
        }
        i = i + 1;
    }
    false
}

/// Where the debouncer is: waiting for a first event, or gathering a burst, remembering whether
/// any of it concerned notes.
#[derive(Debug, Clone, Copy, PartialEq, Eq, Structural)]
pub enum Phase {
    Idle,
    Gathering(bool),
}

/// What the debouncer heard: an event, and whether it concerns notes; the quiet period passing
/// with no event; or the event source closing.
#[derive(Debug, Clone, Copy, PartialEq, Eq, Structural)]
pub enum Heard {
    Event(bool),
    Quiet,
    Closed,
}

/// What to do next: wait for a first event with no deadline; wait out the quiet period; report
/// one [`Change`] and wait for a first event; or stop.
#[derive(Debug, Clone, Copy, PartialEq, Eq, Structural)]
pub enum Next {
    Wait,
    WaitQuiet,
    Report,
    Stop,
}

/// One step of the debouncer. An event starts or extends a burst; the quiet period ending a
/// burst reports once if anything in it concerned notes; the source closing stops everything.
pub open spec fn debounce(phase: Phase, heard: Heard) -> (Phase, Next) {
    match heard {
        Heard::Closed => (phase, Next::Stop),
        Heard::Event(b) => match phase {
            Phase::Idle => (Phase::Gathering(b), Next::WaitQuiet),
            Phase::Gathering(i) => (Phase::Gathering(i || b), Next::WaitQuiet),
        },
        Heard::Quiet => match phase {
            Phase::Idle => (Phase::Idle, Next::Wait),
            Phase::Gathering(i) => (Phase::Idle, if i {
                Next::Report
            } else {
                Next::Wait
            }),
        },
    }
}

/// One step of the debouncer, taken.
pub fn debounce_step(phase: Phase, heard: Heard) -> (r: (Phase, Next))
    ensures
        r == debounce(phase, heard),
{
    match heard {
        Heard::Closed => (phase, Next::Stop),
        Heard::Event(b) => match phase {
            Phase::Idle => (Phase::Gathering(b), Next::WaitQuiet),
            Phase::Gathering(i) => (Phase::Gathering(i || b), Next::WaitQuiet),
        },
        Heard::Quiet => match phase {
            Phase::Idle => (Phase::Idle, Next::Wait),
            Phase::Gathering(i) => (Phase::Idle, if i {
                Next::Report
            } else {
                Next::Wait
            }),
        },
    }
}

/// The debouncer run over what it heard, from `phase`: where it ends and how many changes it
/// reported.
pub open spec fn run(phase: Phase, heard: Seq<Heard>) -> (Phase, nat)
    decreases heard.len(),
{
    if heard.len() == 0 {
        (phase, 0)
    } else {
        let (p, n) = run(phase, heard.drop_last());
        let (q, next) = debounce(p, heard.last());
        (q, if next == Next::Report {
            n + 1
        } else {
            n
        })
    }
}

/// A burst of events: each concerning notes or not.
pub open spec fn burst(events: Seq<bool>) -> Seq<Heard> {
    events.map_values(|b: bool| Heard::Event(b))
}

/// A burst of events followed by quiet reports exactly one change if anything in it concerned
/// notes and none otherwise, and leaves the debouncer waiting for the next burst: however many
/// files a sync client rewrote, the surface syncs once.
pub proof fn lemma_a_burst_reports_once(events: Seq<bool>)
    requires
        events.len() > 0,
    ensures
        run(Phase::Idle, burst(events).push(Heard::Quiet)) == (
            Phase::Idle,
            if exists|k: int| 0 <= k < events.len() && events[k] {
                1nat
            } else {
                0nat
            },
        ),
{
    assert(burst(events).push(Heard::Quiet).drop_last() =~= burst(events));
    assert(burst(events).drop_last() =~= burst(events.drop_last()));
    let any = exists|k: int| 0 <= k < events.len() && events[k];
    let after = run(Phase::Idle, burst(events));
    assert(after == (Phase::Gathering(any), 0nat)) by {
        lemma_idle_burst(events);
    }
}

/// From idle, a burst gathers whether anything in it concerned notes, reporting nothing yet.
proof fn lemma_idle_burst(events: Seq<bool>)
    requires
        events.len() > 0,
    ensures
        run(Phase::Idle, burst(events)) == (
            Phase::Gathering(exists|k: int| 0 <= k < events.len() && events[k]),
            0nat,
        ),
    decreases events.len(),
{
    let prev = events.drop_last();
    assert(burst(events).drop_last() =~= burst(prev));
    assert(burst(events).last() == Heard::Event(events.last()));
    if prev.len() == 0 {
        assert(burst(prev) =~= Seq::<Heard>::empty());
        assert(run(Phase::Idle, burst(prev)) == (Phase::Idle, 0nat));
        assert(events[0] <==> exists|k: int| 0 <= k < events.len() && events[k]);
    } else {
        lemma_idle_burst(prev);
        let any_prev = exists|k: int| 0 <= k < prev.len() && prev[k];
        let any = exists|k: int| 0 <= k < events.len() && events[k];
        assert((any_prev || events.last()) == any) by {
            if any_prev {
                let k = choose|k: int| 0 <= k < prev.len() && prev[k];
                assert(events[k] == prev[k]);
            }
            if any {
                let k = choose|k: int| 0 <= k < events.len() && events[k];
                if k < prev.len() {
                    assert(prev[k] == events[k]);
                }
            }
        }
    }
}

} // verus!
