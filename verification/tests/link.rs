use jot_core::link::extract;
use jot_core::note::NoteId;

const A: &str = "01a03d60-0000-7000-8000-00000000000a";
const B: &str = "01a03d61-0000-7000-8000-00000000000b";

fn nid(s: &str) -> NoteId {
    NoteId::parse(s).unwrap()
}

fn targets(body: &str) -> Vec<NoteId> {
    extract(body).into_iter().map(|l| l.target).collect()
}

// --------------------------------------------------------------------------- the basic forms

#[test]
fn a_bare_link_yields_its_target_and_no_label() {
    let links = extract(&format!("see [[{A}]] for more"));
    assert_eq!(links.len(), 1);
    assert_eq!(links[0].target, nid(A));
    assert_eq!(links[0].label, None);
}

#[test]
fn a_labelled_link_keeps_its_label_trimmed() {
    let links = extract(&format!("see [[{A}| the first note ]]"));
    assert_eq!(links[0].target, nid(A));
    assert_eq!(links[0].label.as_deref(), Some("the first note"));
}

#[test]
fn an_empty_label_is_no_label_rather_than_an_empty_one() {
    let links = extract(&format!("[[{A}|]] and [[{A}|   ]]"));
    assert_eq!(links.len(), 2);
    assert!(links.iter().all(|l| l.label.is_none()));
}

#[test]
fn a_label_may_contain_anything_but_a_newline_and_the_closing_fence() {
    let links = extract(&format!("[[{A}|a | b [c] d]]"));
    assert_eq!(links[0].label.as_deref(), Some("a | b [c] d"));
}

#[test]
fn several_links_come_back_in_source_order() {
    assert_eq!(
        targets(&format!("[[{B}]] then [[{A}]]")),
        vec![nid(B), nid(A)]
    );
}

#[test]
fn the_same_target_twice_is_two_links_because_each_is_a_real_position() {
    let links = extract(&format!("[[{A}]] and again [[{A}]]"));
    assert_eq!(links.len(), 2);
    assert_eq!(links[0].target, links[1].target);
    assert_ne!(links[0].span, links[1].span);
}

// ------------------------------------------------------------------------------- the offsets

#[test]
fn the_span_covers_the_delimiters_and_slices_back_to_the_link() {
    let body = format!("prefix [[{A}]] suffix");
    let links = extract(&body);
    assert_eq!(&body[links[0].span.clone()], format!("[[{A}]]"));
}

#[test]
fn a_span_is_absolute_to_the_body_not_to_the_paragraph_it_sits_in() {
    let body = format!("first paragraph\n\nsecond, with [[{A}]] in it");
    let links = extract(&body);
    assert_eq!(&body[links[0].span.clone()], format!("[[{A}]]"));
    assert!(links[0].span.start > body.find("second").unwrap());
}

#[test]
fn a_span_survives_multibyte_text_before_it() {
    let body = format!("한국어 문장 안의 [[{A}|링크]] 하나");
    let links = extract(&body);
    assert_eq!(&body[links[0].span.clone()], format!("[[{A}|링크]]"));
}

#[test]
fn a_span_is_measured_in_source_bytes_not_decoded_ones() {
    // `&amp;` is five source bytes and one decoded character. Reading the text node's value
    // instead of the source would put this link four bytes early.
    let body = format!("a &amp; b [[{A}]]");
    let links = extract(&body);
    assert_eq!(&body[links[0].span.clone()], format!("[[{A}]]"));
}

// -------------------------------------------------------------------------- what is not prose

#[test]
fn a_link_in_a_fenced_code_block_is_not_a_link() {
    assert!(targets(&format!("```\n[[{A}]]\n```")).is_empty());
}

#[test]
fn a_link_in_an_indented_code_block_is_not_a_link() {
    assert!(targets(&format!("    [[{A}]]")).is_empty());
}

#[test]
fn inline_code_is_excluded_and_that_is_a_decision() {
    // Not a side effect of the walk: someone writing `` `[[uuid]]` `` is documenting the
    // syntax, and picking that up would make every page of jot's own docs a linking note.
    assert!(targets(&format!("the syntax is `[[{A}]]`")).is_empty());
}

#[test]
fn a_link_in_raw_html_is_not_a_link() {
    assert!(targets(&format!("<div>[[{A}]]</div>")).is_empty());
}

#[test]
fn the_same_uuid_in_prose_in_a_fence_and_in_inline_code_yields_exactly_one_link() {
    let body = format!(
        "prose [[{A}]]\n\n```\n[[{A}]]\n```\n\nand `[[{A}]]`\n",
        A = A
    );
    assert_eq!(targets(&body), vec![nid(A)]);
}

// ------------------------------------------------------------------------- what is not a link

#[test]
fn a_target_that_is_not_a_uuid_is_not_a_link_at_all() {
    assert!(targets("[[some page title]]").is_empty());
    assert!(targets("[[not-a-uuid|label]]").is_empty());
}

#[test]
fn an_unclosed_link_is_not_a_link() {
    assert!(targets(&format!("[[{A}")).is_empty());
}

#[test]
fn a_link_never_spans_a_line() {
    assert!(targets(&format!("[[{A}\n]]")).is_empty());
}

#[test]
fn an_unclosed_opener_does_not_swallow_a_later_link_on_the_same_line() {
    assert_eq!(targets(&format!("[[oops [[{A}]]")), vec![nid(A)]);
}

#[test]
fn an_escaped_link_is_not_a_link() {
    // Nothing checks for this: the escapes are still in the source slice, so `[[` never
    // appears. The test pins the behavior, not an implementation.
    assert!(targets(&format!("\\[\\[{A}]]")).is_empty());
}

#[test]
fn a_single_bracket_pair_is_a_markdown_link_and_not_ours() {
    assert!(targets(&format!("[{A}](somewhere)")).is_empty());
}

#[test]
fn an_empty_body_and_a_body_with_no_links_both_yield_nothing() {
    assert!(extract("").is_empty());
    assert!(extract("just some prose, no links").is_empty());
}

#[test]
fn a_uuid_in_prose_without_delimiters_is_not_a_link() {
    assert!(targets(&format!("the id is {A}")).is_empty());
}

// ------------------------------------------------------------------------- structural bodies

#[test]
fn links_are_found_inside_lists_quotes_headings_and_emphasis() {
    let bodies = [
        format!("- [[{A}]]"),
        format!("> [[{A}]]"),
        format!("# [[{A}]]"),
        format!("*[[{A}]]*"),
        format!("| a | [[{A}]] |"),
    ];
    for body in bodies {
        assert_eq!(targets(&body), vec![nid(A)], "body: {body}");
    }
}

#[test]
fn a_link_inside_a_markdown_link_label_is_still_extracted() {
    // The text node is nested under a Link node; the walk descends into it like any other
    // container. Whether this is *useful* is a rendering question, not an extraction one.
    assert_eq!(targets(&format!("[[[{A}]]](target)")), vec![nid(A)]);
}

