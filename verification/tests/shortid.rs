use jot_core::shortid::{MIN_WIDTH, abbreviate, common_prefix};

fn uuid(s: &str) -> u128 {
    uuid::Uuid::parse_str(s).unwrap().as_u128()
}

fn text(v: u128) -> String {
    uuid::Uuid::from_u128(v).hyphenated().to_string()
}

fn spread() -> Vec<u128> {
    ["01a03d60", "01a03d61", "01a03d62", "01a03d63"]
        .iter()
        .map(|prefix| uuid(&format!("{prefix}-0000-7000-8000-00000000000a")))
        .collect()
}

fn burst() -> Vec<u128> {
    ["a", "b", "c", "d"]
        .iter()
        .map(|tail| uuid(&format!("01a03d60-1111-7000-8000-00000000000{tail}")))
        .collect()
}

#[test]
fn every_abbreviation_is_a_real_prefix_of_its_id() {
    for ids in [spread(), burst()] {
        for (id, short) in abbreviate(ids, MIN_WIDTH) {
            assert!(text(id).starts_with(&short), "`{short}` is not a prefix of {id}");
        }
    }
}

#[test]
fn abbreviations_are_distinct_from_one_another() {
    for ids in [spread(), burst()] {
        let short = abbreviate(ids, MIN_WIDTH);
        let mut values: Vec<&String> = short.values().collect();
        let before = values.len();
        values.sort();
        values.dedup();
        assert_eq!(values.len(), before, "two ids abbreviated to one string");
    }
}

#[test]
fn ids_that_differ_early_stop_at_the_floor() {
    let short = abbreviate(spread(), MIN_WIDTH);
    assert!(short.values().all(|s| s.len() == MIN_WIDTH), "{short:?}");
}

#[test]
fn ids_sharing_a_timestamp_grow_past_the_floor() {
    let short = abbreviate(burst(), MIN_WIDTH);
    assert!(short.values().all(|s| s.len() > MIN_WIDTH), "{short:?}");
}

#[test]
fn the_floor_is_a_floor_and_not_a_target() {
    let short = abbreviate(spread(), 1);
    assert!(short.values().all(|s| s.len() == 8), "{short:?}");
}

#[test]
fn a_lone_id_gets_the_floor_width() {
    let short = abbreviate(spread().into_iter().take(1).collect(), MIN_WIDTH);
    assert_eq!(short.values().next().unwrap().len(), MIN_WIDTH);
}

#[test]
fn an_empty_set_abbreviates_to_nothing() {
    assert!(abbreviate(vec![], MIN_WIDTH).is_empty());
}

#[test]
fn a_repeated_id_is_one_key_and_does_not_force_the_width_up() {
    let id = spread()[0];
    let short = abbreviate(vec![id, id, id], MIN_WIDTH);
    assert_eq!(short.len(), 1);
    assert_eq!(short[&id].len(), MIN_WIDTH);
}

#[test]
fn an_abbreviation_never_ends_on_a_hyphen() {
    for ids in [spread(), burst()] {
        for short in abbreviate(ids, MIN_WIDTH).values() {
            assert!(!short.ends_with('-'), "`{short}`");
        }
    }
}

#[test]
fn a_width_beyond_the_id_is_clamped_to_the_whole_id() {
    let id = spread()[0];
    let short = abbreviate(vec![id], 999);
    assert_eq!(short[&id], text(id));
}

#[test]
fn a_burst_needs_every_character_up_to_the_last() {
    let short = abbreviate(burst(), MIN_WIDTH);
    for (id, s) in &short {
        assert_eq!(s, &text(*id), "ids differing in their last digit need all 36 characters");
    }
    assert_eq!(common_prefix("01a03d60-1111", "01a03d61-1111"), 7);
    assert_eq!(common_prefix("abc", "abc"), 3);
    assert_eq!(common_prefix("", "abc"), 0);
}
