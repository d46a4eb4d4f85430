use jot_core::fs::{FilenameSlug, MAX_SLUG_LEN, note_filename, slugify, staged_file_name};

#[test]
fn a_staged_filename_is_not_enumerable() {
    let name = staged_file_name();
    assert!(name.starts_with('.'), "{name}");
    assert!(!name.ends_with(".md"), "{name}");
}

#[test]
fn slugify_collapses_runs_and_never_leaves_a_separator_at_either_end() {
    assert_eq!(slugify("Hello, World!"), "hello_world");
    assert_eq!(slugify("  spaced   out  "), "spaced_out");
    assert_eq!(slugify("a---b___c"), "a_b_c");
    assert_eq!(slugify("한국어 mixed 제목 text"), "mixed_text");
    assert_eq!(slugify("2026: the year"), "2026_the_year");
    assert_eq!(slugify(""), "");
}

#[test]
fn a_slug_is_capped_and_the_cap_never_lands_on_a_separator() {
    for title in [
        "x".repeat(300),
        "word ".repeat(100),
        format!("{} tail", "y".repeat(MAX_SLUG_LEN - 1)),
        format!("{} tail", "y".repeat(MAX_SLUG_LEN)),
    ] {
        let slug = slugify(&title);
        assert!(
            slug.len() <= MAX_SLUG_LEN,
            "{slug:?} is {} long",
            slug.len()
        );
        assert!(!slug.ends_with('_'), "{slug:?} ends with a separator");
        assert!(!slug.starts_with('_'), "{slug:?} starts with one");
    }
}

#[test]
fn a_slug_holds_nothing_any_platform_reserves() {
    let hostile = "a<b>c:d\"e/f\\g|h?i*j\0k\tl.m ";
    let slug = slugify(hostile);
    assert!(
        slug.chars()
            .all(|c| c.is_ascii_lowercase() || c.is_ascii_digit() || c == '_'),
        "{slug:?}"
    );
    assert_eq!(slug, "a_b_c_d_e_f_g_h_i_j_k_l_m");
}

const ID_A: &str = "01a03d51-4b48-72e2-9f30-f180030c06ab";
const ID_B: &str = "01a03d52-6c58-75de-81f8-1b3940ecc38b";

fn uuid() -> jot_core::note::NoteId {
    jot_core::note::NoteId::parse("01a03d21-7c11-7a02-b3de-9f0e21c4a771").unwrap()
}

#[test]
fn parse_note_filename_looks_only_at_the_final_component() {
    let path = format!("{ID_B}.md/{ID_A}_slug.md");
    assert_eq!(
        jot_core::fs::parse_note_filename(&path).unwrap().to_string(),
        ID_A,
        "the id comes from the filename, not from an ancestor directory"
    );
}

#[test]
fn the_default_filename_is_the_bare_uuid() {
    assert_eq!(
        note_filename(uuid(), Some("A Title"), FilenameSlug::Bare),
        "01a03d21-7c11-7a02-b3de-9f0e21c4a771.md"
    );
    assert_eq!(FilenameSlug::default(), FilenameSlug::Bare);
}

#[test]
fn a_slugged_filename_carries_the_title_after_the_uuid() {
    assert_eq!(
        note_filename(uuid(), Some("First Thoughts!"), FilenameSlug::FromTitle),
        "01a03d21-7c11-7a02-b3de-9f0e21c4a771_first_thoughts.md"
    );
}

#[test]
fn a_title_that_slugifies_to_nothing_falls_back_to_the_bare_form() {
    for title in ["", "   ", "!!!", "한국어", "___"] {
        assert_eq!(
            note_filename(uuid(), Some(title), FilenameSlug::FromTitle),
            "01a03d21-7c11-7a02-b3de-9f0e21c4a771.md",
            "{title:?} must not produce a trailing separator"
        );
    }
}

#[test]
fn a_slug_keeps_single_separators_and_the_letters_in_order() {
    for title in ["Hello,  World!!", "--a--b--", "Ünïcödé & more", "x", "??", "A_b__C"] {
        let slug = slugify(title);
        assert!(!slug.contains("__"), "{title:?} -> {slug:?}");
        let kept: String = title.chars().filter(|c| c.is_ascii_alphanumeric()).map(|c| c.to_ascii_lowercase()).collect();
        assert!(kept.starts_with(&slug.replace('_', "")), "{title:?} -> {slug:?}");
        assert_eq!(slug.is_empty(), kept.is_empty(), "{title:?}");
    }
    assert_eq!(slugify("Hello,  World!!"), "hello_world");
    assert_eq!(slugify("A_b__C"), "a_b_c");
}

#[test]
fn a_listing_is_ordered_by_file_name_bytes() {
    let names = ["b.md", "a_z.md", "a.md", "B.md", "a.md"];
    let items: Vec<(String, usize)> = names.iter().enumerate().map(|(i, n)| (n.to_string(), i)).collect();
    let sorted = jot_core::fs::sort_by_name(items);
    let got: Vec<&str> = sorted.iter().map(|(n, _)| n.as_str()).collect();
    assert_eq!(got, vec!["B.md", "a.md", "a.md", "a_z.md", "b.md"]);
    let mut tags: Vec<usize> = sorted.iter().map(|(_, t)| *t).collect();
    tags.sort();
    assert_eq!(tags, vec![0, 1, 2, 3, 4], "every item comes out once");
}
