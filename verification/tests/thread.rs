use std::collections::BTreeMap;

use jot_core::note::{NoteId, NoteMeta};
use jot_core::thread::{Segment, Thread, TreeNode};

fn nid(letter: char) -> NoteId {
    let n = letter as u8 - b'a';
    NoteId::parse(&format!("01a03d6{n:x}-0000-7000-8000-00000000000{n:x}")).unwrap()
}

fn meta(letter: char, reply_to: Option<char>) -> NoteMeta {
    let id = nid(letter);
    NoteMeta {
        id,
        created_at: id.created_at(),
        title: Some(letter.to_string()),
        root: Some(nid('a')),
        reply_to: reply_to.map(nid),
        quote: None,
    }
}

fn tree(root: char, edges: &[(char, char)]) -> TreeNode {
    let mut children_of: BTreeMap<u128, Vec<NoteMeta>> = BTreeMap::new();
    for &(child, parent) in edges {
        children_of
            .entry(nid(parent).as_u128())
            .or_default()
            .push(meta(child, Some(parent)));
    }
    for replies in children_of.values_mut() {
        replies.sort_by_key(|m| m.id);
    }
    TreeNode::assemble(meta(root, None), &children_of)
}

fn worked_example() -> TreeNode {
    tree('a', &[('b', 'a'), ('c', 'b'), ('e', 'c'), ('d', 'c'), ('f', 'a')])
}

fn spell(ids: &[NoteId]) -> String {
    ids.iter()
        .map(|id| ('a'..='z').find(|&c| nid(c) == *id).expect("id from the fixture alphabet"))
        .collect()
}

fn spelled_paths(node: &TreeNode) -> Vec<String> {
    node.paths().iter().map(|p| spell(p)).collect()
}

fn spelled_segments(node: &TreeNode) -> Vec<String> {
    node.segments().iter().map(|s| spell(&s.nodes)).collect()
}

#[test]
fn the_worked_example_projects_to_the_paths_the_plan_documents() {
    assert_eq!(spelled_paths(&worked_example()), ["abcd", "abce", "af"]);
}

#[test]
fn the_worked_example_projects_to_the_segments_the_plan_documents() {
    assert_eq!(spelled_segments(&worked_example()), ["abc", "af", "cd", "ce"]);
}

#[test]
fn the_worked_example_has_the_shape_the_diagram_draws() {
    let tree = worked_example();
    assert_eq!(tree.len(), 6);
    assert_eq!(spell(&[tree.id()]), "a");
    assert_eq!(tree.reply_count(), 2);
    assert!(!tree.is_empty());
}

#[test]
fn depth_first_iteration_visits_parents_before_children_and_siblings_in_order() {
    let visited: String = worked_example()
        .iter()
        .into_iter()
        .map(|n| spell(&[n.id()]))
        .collect::<Vec<_>>()
        .concat();
    assert_eq!(visited, "abcdef");
}

#[test]
fn a_lone_note_is_one_path_of_itself_and_no_segments() {
    let tree = tree('a', &[]);
    assert_eq!(spelled_paths(&tree), ["a"]);
    assert!(tree.segments().is_empty());
    assert_eq!(tree.len(), 1);
}

#[test]
fn an_unbranched_chain_is_one_path_and_one_segment() {
    let tree = tree('a', &[('b', 'a'), ('c', 'b'), ('d', 'c')]);
    assert_eq!(spelled_paths(&tree), ["abcd"]);
    assert_eq!(spelled_segments(&tree), ["abcd"]);
}

#[test]
fn a_three_way_fork_is_three_segments_not_a_binary_split() {
    let tree = tree('a', &[('b', 'a'), ('c', 'a'), ('d', 'a')]);
    assert_eq!(spelled_segments(&tree), ["ab", "ac", "ad"]);
}

#[test]
fn nested_branch_points_each_start_their_own_segments() {
    let tree = tree(
        'a',
        &[('b', 'a'), ('c', 'b'), ('d', 'c'), ('e', 'c'), ('f', 'a'), ('g', 'f'), ('h', 'g')],
    );
    assert_eq!(spelled_segments(&tree), ["abc", "afgh", "cd", "ce"]);
}

fn shapes() -> Vec<TreeNode> {
    vec![
        tree('a', &[]),
        tree('a', &[('b', 'a')]),
        tree('a', &[('b', 'a'), ('c', 'b'), ('d', 'c')]),
        tree('a', &[('b', 'a'), ('c', 'a')]),
        tree('a', &[('b', 'a'), ('c', 'a'), ('d', 'a')]),
        worked_example(),
        tree('a', &[('b', 'a'), ('c', 'b'), ('d', 'c'), ('e', 'c'), ('f', 'a'), ('g', 'f'), ('h', 'g')]),
        tree('a', &[('b', 'a'), ('c', 'b'), ('d', 'b'), ('e', 'd'), ('f', 'd'), ('g', 'f')]),
    ]
}

fn leaves(node: &TreeNode) -> usize {
    node.iter().into_iter().filter(|n| n.children.is_empty()).count()
}

fn branch_points(node: &TreeNode) -> Vec<&TreeNode> {
    node.iter().into_iter().filter(|n| n.children.len() > 1).collect()
}

#[test]
fn segments_partition_the_edges() {
    for tree in shapes() {
        let segments = tree.segments();
        let total: usize = segments.iter().map(Segment::edges).sum();
        assert_eq!(total, tree.len() - 1, "edge count");

        let mut edges: Vec<(NoteId, NoteId)> = segments
            .iter()
            .flat_map(|s| s.nodes.windows(2).map(|w| (w[0], w[1])).collect::<Vec<_>>())
            .collect();
        let before = edges.len();
        edges.sort();
        edges.dedup();
        assert_eq!(edges.len(), before, "an edge appeared in two segments");
    }
}

#[test]
fn segment_count_is_the_root_and_every_branch_points_children() {
    for tree in shapes() {
        let mut expected = tree.children.len();
        for branch in branch_points(&tree) {
            if branch.id() != tree.id() {
                expected += branch.children.len();
            }
        }
        assert_eq!(tree.segments().len(), expected);
    }
}

#[test]
fn segments_cover_every_node_exactly_once_as_a_non_first_element() {
    for tree in shapes() {
        let mut covered: Vec<NoteId> = tree.segments().iter().flat_map(|s| s.body().to_vec()).collect();
        let before = covered.len();
        covered.sort();
        covered.dedup();
        assert_eq!(covered.len(), before, "a node was covered twice");
        assert_eq!(covered.len(), tree.len() - 1, "a node was not covered");
        assert!(!covered.contains(&tree.id()), "the root was covered");
    }
}

#[test]
fn paths_cover_every_node_and_there_is_one_per_leaf() {
    for tree in shapes() {
        let paths = tree.paths();
        assert_eq!(paths.len(), leaves(&tree), "one path per leaf");

        let mut seen: Vec<NoteId> = paths.iter().flatten().copied().collect();
        seen.sort();
        seen.dedup();
        assert_eq!(seen.len(), tree.len(), "a node appeared in no path");
    }
}

#[test]
fn every_path_starts_at_the_root_and_ends_at_a_leaf() {
    for tree in shapes() {
        let leaf_ids: Vec<NoteId> =
            tree.iter().into_iter().filter(|n| n.children.is_empty()).map(|n| n.id()).collect();
        for path in tree.paths() {
            assert_eq!(path.first(), Some(&tree.id()));
            assert!(leaf_ids.contains(path.last().unwrap()));
        }
    }
}

#[test]
fn every_segment_holds_at_least_one_edge() {
    for tree in shapes() {
        for segment in tree.segments() {
            assert!(segment.nodes.len() >= 2);
            assert_eq!(segment.body().len(), segment.edges());
        }
    }
}

#[test]
fn siblings_come_back_in_creation_order_whatever_order_they_were_supplied_in() {
    let tree = worked_example();
    let c = tree.iter().into_iter().find(|n| spell(&[n.id()]) == "c").unwrap();
    assert_eq!(c.children.iter().map(|n| spell(&[n.id()])).collect::<Vec<_>>(), ["d", "e"]);
}

#[test]
fn a_root_that_forks_immediately_is_two_segments_of_one_edge_each() {
    let tree = tree('a', &[('b', 'a'), ('c', 'a')]);
    assert_eq!(spelled_segments(&tree), ["ab", "ac"]);
    assert_eq!(spelled_paths(&tree), ["ab", "ac"]);
}

#[test]
fn a_longer_cycle_also_terminates() {
    let mut children_of: BTreeMap<u128, Vec<NoteMeta>> = BTreeMap::new();
    children_of.insert(nid('a').as_u128(), vec![meta('b', Some('a'))]);
    children_of.insert(nid('b').as_u128(), vec![meta('c', Some('b'))]);
    children_of.insert(nid('c').as_u128(), vec![meta('a', Some('c'))]);

    let tree = TreeNode::assemble(meta('a', None), &children_of);
    assert_eq!(spelled_paths(&tree), ["abc"]);
}

#[test]
fn a_cycle_in_the_adjacency_map_truncates_rather_than_hanging() {
    let mut children_of: BTreeMap<u128, Vec<NoteMeta>> = BTreeMap::new();
    children_of.insert(nid('a').as_u128(), vec![meta('b', Some('a'))]);
    children_of.insert(nid('b').as_u128(), vec![meta('a', Some('b'))]);
    let tree = TreeNode::assemble(meta('a', None), &children_of);
    assert_eq!(spelled_paths(&tree), ["ab"]);
    assert_eq!(tree.len(), 2);
}

#[test]
fn a_note_that_replies_to_itself_gains_no_children() {
    let mut children_of: BTreeMap<u128, Vec<NoteMeta>> = BTreeMap::new();
    children_of.insert(nid('a').as_u128(), vec![meta('a', Some('a'))]);
    let tree = TreeNode::assemble(meta('a', None), &children_of);
    assert_eq!(tree.len(), 1);
    assert!(tree.children.is_empty());
}

#[test]
fn a_threads_root_is_its_first_ancestor_and_the_focus_when_it_has_none() {
    let rooted = Thread {
        focus: nid('c'),
        ancestors: vec![meta('a', None), meta('b', Some('a'))],
        tree: TreeNode::leaf(meta('c', Some('b'))),
    };
    assert_eq!(rooted.root().id, nid('a'));
    assert_eq!(spell(&rooted.path_to_focus()), "abc");

    let orphan = Thread { focus: nid('a'), ancestors: Vec::new(), tree: TreeNode::leaf(meta('a', None)) };
    assert_eq!(orphan.root().id, nid('a'));
    assert_eq!(spell(&orphan.path_to_focus()), "a");
}
