use jot_core::watch::{Change, DEBOUNCE_MS, Heard, Next, Phase, debounce_step, is_note_event};

fn run(events: &[Heard]) -> (Phase, usize) {
    let mut phase = Phase::Idle;
    let mut reports = 0;
    for &heard in events {
        let (next_phase, next) = debounce_step(phase, heard);
        phase = next_phase;
        if next == Next::Report {
            reports += 1;
        }
    }
    (phase, reports)
}

#[test]
fn only_note_files_concern_the_vault() {
    let note = vec![String::from("/vault/01a03d21-7c11-7a02-b3de-9f0e21c4a771.md")];
    assert!(is_note_event(false, &note));
    assert!(!is_note_event(true, &note), "a read is never a change");
    assert!(!is_note_event(false, &vec![String::from("/vault/.hidden.md")]));
    assert!(!is_note_event(false, &vec![String::from("/vault/.jot/index.db")]));
    assert!(!is_note_event(false, &Vec::new()));
    assert!(is_note_event(false, &vec![String::from("/vault/x.txt"), String::from("/vault/x.md")]));
}

#[test]
fn a_burst_of_writes_is_one_change() {
    let burst = [Heard::Event(true), Heard::Event(true), Heard::Event(false), Heard::Quiet];
    assert_eq!(run(&burst), (Phase::Idle, 1));
    let two = [Heard::Event(true), Heard::Quiet, Heard::Event(true), Heard::Quiet];
    assert_eq!(run(&two), (Phase::Idle, 2));
}

#[test]
fn a_burst_that_touches_no_note_reports_nothing() {
    assert_eq!(run(&[Heard::Event(false), Heard::Event(false), Heard::Quiet]), (Phase::Idle, 0));
}

#[test]
fn a_closed_source_stops_the_debouncer() {
    assert_eq!(debounce_step(Phase::Gathering(true), Heard::Closed).1, Next::Stop);
    assert_eq!(debounce_step(Phase::Idle, Heard::Closed).1, Next::Stop);
    assert_eq!(debounce_step(Phase::Idle, Heard::Event(false)), (Phase::Gathering(false), Next::WaitQuiet));
    assert_eq!(debounce_step(Phase::Idle, Heard::Quiet), (Phase::Idle, Next::Wait));
    assert_eq!(Change::Vault, Change::Vault);
    assert_eq!(DEBOUNCE_MS, 200);
}
