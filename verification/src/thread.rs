//! Thread algebra: the two projections a stored adjacency list supports.
//!
//! Storage is one edge per note, its `relation:reply_to`. Neither projection is persisted: a
//! thread is tens of nodes, both forms fall out of one in-memory assembly, and anything stored
//! would be a second copy of the truth.
//!
//! With edges `A→B`, `B→C`, `C→E`, `C→D`, `A→F`:
//!
//! ```text
//!   B - C - E          paths     (A,B,C,D), (A,B,C,E), (A,F)
//!  /     \             segments  (A,B,C), (A,F), (C,D), (C,E)
//! A       D
//!  \
//!   F
//! ```
//!
//! * **Paths** ([`TreeNode::paths`]): every root-to-leaf line, one per leaf.
//! * **Segments** ([`TreeNode::segments`]): chains that begin at the root or at a branch point and
//!   run until the next branch point or leaf.
//!
//! Siblings come in the order the caller supplies them, which is id order and so creation order.
//! A `reply_to` is a line in a text file, so a cycle is a normal input: assembly marks every note
//! it places, so a cycle truncates the tree at the repeat instead of hanging.
//!
//! Ids in an adjacency map are their 128-bit values.

use std::collections::BTreeMap;
use vstd::prelude::*;

use crate::note::{NoteId, NoteMeta};

verus! {

broadcast use {
    vstd::seq::group_seq_axioms,
    vstd::laws_cmp::group_laws_cmp,
    vstd::std_specs::btree::group_btree_axioms,
};

/// One node of a thread tree: a note and its replies, in creation order.
#[derive(Debug, PartialEq, Eq)]
pub struct TreeNode {
    /// This node's note.
    pub note: NoteMeta,
    /// Direct replies, sorted by id and therefore by creation time.
    pub children: Vec<TreeNode>,
}

// =============================================================================================
// What a tree is
// =============================================================================================

/// The number of notes in a tree.
pub open spec fn size(t: TreeNode) -> nat
    decreases t, 0int,
{
    1 + sizes(t.children@, t.children@.len() as int)
}

/// The number of notes in the first `n` trees of `cs`.
pub open spec fn sizes(cs: Seq<TreeNode>, n: int) -> nat
    decreases cs, n,
{
    if n <= 0 || n > cs.len() {
        0
    } else {
        sizes(cs, n - 1) + size(cs[n - 1])
    }
}

/// The number of leaves of a tree.
pub open spec fn leaf_count(t: TreeNode) -> nat
    decreases t, 0int,
{
    if t.children@.len() == 0 {
        1
    } else {
        leaf_counts(t.children@, t.children@.len() as int)
    }
}

/// The number of leaves of the first `n` trees of `cs`.
pub open spec fn leaf_counts(cs: Seq<TreeNode>, n: int) -> nat
    decreases cs, n,
{
    if n <= 0 || n > cs.len() {
        0
    } else {
        leaf_counts(cs, n - 1) + leaf_count(cs[n - 1])
    }
}

/// The nodes of a tree depth-first, parents before children, siblings in order.
pub open spec fn preorder(t: TreeNode) -> Seq<TreeNode>
    decreases t, 0int,
{
    seq![t] + preorders(t.children@, t.children@.len() as int)
}

/// The nodes of the first `n` trees of `cs`, depth-first.
pub open spec fn preorders(cs: Seq<TreeNode>, n: int) -> Seq<TreeNode>
    decreases cs, n,
{
    if n <= 0 || n > cs.len() {
        Seq::empty()
    } else {
        preorders(cs, n - 1) + preorder(cs[n - 1])
    }
}

/// Every path from a tree's root to a leaf beneath it, leaves in order.
pub open spec fn paths_of(t: TreeNode) -> Seq<Seq<NoteId>>
    decreases t, 0int,
{
    if t.children@.len() == 0 {
        seq![seq![t.note.id]]
    } else {
        child_paths(t.note.id, t.children@, t.children@.len() as int)
    }
}

/// The paths of the first `n` trees of `cs`, each hung from `id`.
pub open spec fn child_paths(id: NoteId, cs: Seq<TreeNode>, n: int) -> Seq<Seq<NoteId>>
    decreases cs, n,
{
    if n <= 0 || n > cs.len() {
        Seq::empty()
    } else {
        child_paths(id, cs, n - 1) + paths_of(cs[n - 1]).map_values(
            |p: Seq<NoteId>| seq![id] + p,
        )
    }
}

/// The chain from `c` down through single replies, to the first node with none or several.
pub open spec fn chain(c: TreeNode) -> Seq<NoteId>
    decreases c,
{
    if c.children@.len() == 1 {
        seq![c.note.id] + chain(c.children@[0])
    } else {
        seq![c.note.id]
    }
}

/// The segments that hang from `id`, one through each of the first `n` trees of `cs`.
pub open spec fn heads(id: NoteId, cs: Seq<TreeNode>, n: int) -> Seq<Seq<NoteId>>
    decreases n,
{
    if n <= 0 || n > cs.len() {
        Seq::empty()
    } else {
        heads(id, cs, n - 1).push(seq![id] + chain(cs[n - 1]))
    }
}

/// The segments of a tree: one from the root through each reply, then those of the branch
/// point each of those ends at, in sibling order.
pub open spec fn segs(t: TreeNode) -> Seq<Seq<NoteId>>
    decreases t, 0int,
{
    heads(t.note.id, t.children@, t.children@.len() as int) + tails(
        t.children@,
        t.children@.len() as int,
    )
}

/// The segments below the ends of the chains through the first `n` trees of `cs`.
pub open spec fn tails(cs: Seq<TreeNode>, n: int) -> Seq<Seq<NoteId>>
    decreases cs, n,
{
    if n <= 0 || n > cs.len() {
        Seq::empty()
    } else {
        tails(cs, n - 1) + branch_segs(cs[n - 1])
    }
}

/// The segments below the end of the chain through `c`: those of the branch point it ends at.
pub open spec fn branch_segs(c: TreeNode) -> Seq<Seq<NoteId>>
    decreases c, 1int,
{
    if c.children@.len() == 1 {
        branch_segs(c.children@[0])
    } else if c.children@.len() > 1 {
        segs(c)
    } else {
        Seq::empty()
    }
}

/// The nodes a list of references points at.
pub open spec fn derefs(ns: Seq<&TreeNode>) -> Seq<TreeNode> {
    ns.map_values(|n: &TreeNode| *n)
}

proof fn lemma_sizes_grow(cs: Seq<TreeNode>, k: int, n: int)
    requires
        0 <= k < n <= cs.len(),
    ensures
        sizes(cs, k) + size(cs[k]) <= sizes(cs, n),
    decreases n - k,
{
    if k + 1 < n {
        lemma_sizes_grow(cs, k, n - 1);
    }
}

// =============================================================================================
// Trees
// =============================================================================================

impl TreeNode {
    /// A childless node.
    pub fn leaf(note: NoteMeta) -> (t: TreeNode)
        ensures
            t.note == note,
            t.children@.len() == 0,
    {
        TreeNode { note, children: Vec::new() }
    }

    /// This node's id.
    pub fn id(&self) -> (id: NoteId)
        ensures
            id == self.note.id,
    {
        self.note.id
    }

    /// The number of notes in this subtree, the node itself included. Never zero.
    pub fn len(&self) -> (n: usize)
        requires
            size(*self) <= usize::MAX,
        ensures
            n == size(*self),
        decreases self,
    {
        let mut total: usize = 1;
        let mut i: usize = 0;
        while i < self.children.len()
            invariant
                i <= self.children.len(),
                total == 1 + sizes(self.children@, i as int),
                size(*self) <= usize::MAX,
            decreases self.children.len() - i,
        {
            proof {
                lemma_sizes_grow(self.children@, i as int, self.children@.len() as int);
            }
            let c = self.children[i].len();
            total = total + c;
            i = i + 1;
        }
        total
    }

    /// Always `false`: a tree node is its own note, so a subtree is never empty.
    pub fn is_empty(&self) -> (b: bool)
        ensures
            !b,
    {
        false
    }

    /// The number of direct replies.
    pub fn reply_count(&self) -> (n: usize)
        ensures
            n == self.children@.len(),
    {
        self.children.len()
    }

    /// Every node in the subtree, depth-first, parents before children, siblings in order.
    pub fn iter(&self) -> (nodes: Vec<&TreeNode>)
        ensures
            derefs(nodes@) == preorder(*self),
    {
        let mut out: Vec<&TreeNode> = Vec::new();
        self.collect_nodes(&mut out);
        assert(derefs(out@) =~= preorder(*self));
        out
    }

    fn collect_nodes<'a>(&'a self, out: &mut Vec<&'a TreeNode>)
        ensures
            derefs(final(out)@) == derefs(old(out)@) + preorder(*self),
        decreases self,
    {
        let ghost start = derefs(out@);
        out.push(self);
        assert(derefs(out@) =~= start + seq![*self]);
        let mut i: usize = 0;
        while i < self.children.len()
            invariant
                i <= self.children.len(),
                derefs(out@) == start + seq![*self] + preorders(self.children@, i as int),
            decreases self.children.len() - i,
        {
            self.children[i].collect_nodes(out);
            proof {
                assert(preorders(self.children@, i + 1) == preorders(self.children@, i as int)
                    + preorder(self.children@[i as int]));
                assert(derefs(out@) =~= start + seq![*self] + preorders(self.children@, i + 1));
            }
            i = i + 1;
        }
        assert(derefs(out@) =~= start + preorder(*self));
    }

    /// **Form 1**: every path from this node to a leaf beneath it, one per leaf, each starting at
    /// this node. A childless node yields one path holding only itself.
    pub fn paths(&self) -> (ps: Vec<Vec<NoteId>>)
        ensures
            ps@.map_values(|p: Vec<NoteId>| p@) == paths_of(*self),
    {
        let mut out: Vec<Vec<NoteId>> = Vec::new();
        let mut prefix: Vec<NoteId> = Vec::new();
        collect_paths(self, &mut prefix, &mut out);
        assert(out@.map_values(|p: Vec<NoteId>| p@) =~= paths_of(*self).map_values(
            |p: Seq<NoteId>| Seq::<NoteId>::empty() + p,
        ));
        assert(paths_of(*self).map_values(|p: Seq<NoteId>| Seq::<NoteId>::empty() + p)
            =~= paths_of(*self));
        out
    }

    /// **Form 2**: the subtree cut into chains at its branch points. A segment starts at this
    /// node or at a node with several replies and runs down through single replies to a leaf or
    /// the next branch point, which it includes. A childless node has no segments.
    pub fn segments(&self) -> (ss: Vec<Segment>)
        ensures
            ss@.map_values(|s: Segment| s.nodes@) == segs(*self),
        decreases self, 0int,
    {
        let mut out: Vec<Segment> = Vec::new();
        let ghost view = |s: Segment| s.nodes@;
        let mut i: usize = 0;
        while i < self.children.len()
            invariant
                i <= self.children.len(),
                out@.map_values(view) == heads(self.note.id, self.children@, i as int),
                view == (|s: Segment| s.nodes@),
            decreases self.children.len() - i,
        {
            let mut nodes: Vec<NoteId> = Vec::new();
            nodes.push(self.note.id);
            push_chain(&self.children[i], &mut nodes);
            let ghost before = out@;
            out.push(Segment { nodes });
            assert(out@.map_values(view) =~= before.map_values(view).push(
                seq![self.note.id] + chain(self.children@[i as int]),
            ));
            i = i + 1;
        }
        let ghost h = out@.map_values(view);
        let mut j: usize = 0;
        while j < self.children.len()
            invariant
                j <= self.children.len(),
                h == heads(self.note.id, self.children@, self.children@.len() as int),
                out@.map_values(view) == h + tails(self.children@, j as int),
                view == (|s: Segment| s.nodes@),
            decreases self.children.len() - j,
        {
            let ghost before = out@;
            branch_segments(&self.children[j], &mut out);
            assert(out@.map_values(view) =~= h + tails(self.children@, j + 1));
            j = j + 1;
        }
        out
    }
}

/// Append the chain through `c` to `nodes`.
fn push_chain(c: &TreeNode, nodes: &mut Vec<NoteId>)
    ensures
        final(nodes)@ == old(nodes)@ + chain(*c),
    decreases c,
{
    nodes.push(c.note.id);
    if c.children.len() == 1 {
        push_chain(&c.children[0], nodes);
    }
    assert(final(nodes)@ =~= old(nodes)@ + chain(*c));
}

/// Append the segments below the end of the chain through `c`.
fn branch_segments(c: &TreeNode, out: &mut Vec<Segment>)
    ensures
        final(out)@.map_values(|s: Segment| s.nodes@) == old(out)@.map_values(|s: Segment| s.nodes@)
            + branch_segs(*c),
    decreases c, 1int,
{
    if c.children.len() == 1 {
        branch_segments(&c.children[0], out);
    } else if c.children.len() > 1 {
        let mut more = c.segments();
        let ghost before = out@;
        out.append(&mut more);
        assert(out@.map_values(|s: Segment| s.nodes@) =~= before.map_values(|s: Segment| s.nodes@)
            + segs(*c));
    } else {
        assert(out@.map_values(|s: Segment| s.nodes@) =~= old(out)@.map_values(
            |s: Segment| s.nodes@,
        ) + branch_segs(*c));
    }
}

/// Append, to `out`, `prefix` followed by each path of `node`.
fn collect_paths(node: &TreeNode, prefix: &mut Vec<NoteId>, out: &mut Vec<Vec<NoteId>>)
    ensures
        final(prefix)@ == old(prefix)@,
        final(out)@.map_values(|p: Vec<NoteId>| p@) == old(out)@.map_values(|p: Vec<NoteId>| p@)
            + paths_of(*node).map_values(|p: Seq<NoteId>| old(prefix)@ + p),
    decreases node,
{
    let ghost pre = prefix@;
    let ghost start = out@.map_values(|p: Vec<NoteId>| p@);
    prefix.push(node.note.id);
    if node.children.len() == 0 {
        let copy = copy_ids(prefix);
        out.push(copy);
        proof {
            let id = node.note.id;
            assert(paths_of(*node) == seq![seq![id]]);
            assert(paths_of(*node).map_values(|p: Seq<NoteId>| pre + p) =~= seq![pre + seq![id]]);
            assert(pre.push(id) =~= pre + seq![id]);
        }
        assert(out@.map_values(|p: Vec<NoteId>| p@) =~= start + paths_of(*node).map_values(
            |p: Seq<NoteId>| pre + p,
        ));
    } else {
        let ghost id = node.note.id;
        let mut i: usize = 0;
        while i < node.children.len()
            invariant
                i <= node.children.len(),
                node.children@.len() > 0,
                prefix@ == pre.push(id),
                id == node.note.id,
                out@.map_values(|p: Vec<NoteId>| p@) == start + child_paths(
                    id,
                    node.children@,
                    i as int,
                ).map_values(|p: Seq<NoteId>| pre + p),
            decreases node.children.len() - i,
        {
            let ghost before = out@.map_values(|p: Vec<NoteId>| p@);
            collect_paths(&node.children[i], prefix, out);
            proof {
                let c = node.children@[i as int];
                let hung = paths_of(c).map_values(|p: Seq<NoteId>| seq![id] + p);
                assert(paths_of(c).map_values(|p: Seq<NoteId>| pre.push(id) + p) =~= hung.map_values(
                    |p: Seq<NoteId>| pre + p,
                )) by {
                    assert forall|k: int| 0 <= k < hung.len() implies pre.push(id) + paths_of(
                        c,
                    )[k] == pre + hung[k] by {
                        assert(pre.push(id) + paths_of(c)[k] =~= pre + (seq![id] + paths_of(c)[k]));
                    }
                }
                assert(child_paths(id, node.children@, i + 1) == child_paths(
                    id,
                    node.children@,
                    i as int,
                ) + hung);
                assert(out@.map_values(|p: Vec<NoteId>| p@) =~= start + child_paths(
                    id,
                    node.children@,
                    i + 1,
                ).map_values(|p: Seq<NoteId>| pre + p));
            }
            i = i + 1;
        }
    }
    prefix.pop();
    assert(prefix@ =~= pre);
}

/// A copy of a list of ids.
fn copy_ids(ids: &Vec<NoteId>) -> (c: Vec<NoteId>)
    ensures
        c@ == ids@,
{
    let mut c: Vec<NoteId> = Vec::new();
    let mut i: usize = 0;
    while i < ids.len()
        invariant
            i <= ids.len(),
            c@ == ids@.take(i as int),
        decreases ids.len() - i,
    {
        c.push(ids[i]);
        assert(c@ =~= ids@.take(i + 1));
        i = i + 1;
    }
    assert(ids@.take(i as int) =~= ids@);
    c
}

// =============================================================================================
// Segments
// =============================================================================================

/// A chain of notes from a branch point (or the tree's own root) to the next one. A segment is a
/// run of edges, so one built by [`TreeNode::segments`] holds at least two ids.
#[derive(Debug, Clone, PartialEq, Eq)]
pub struct Segment {
    /// The chain, in reply order. `nodes[0]` is the anchor the segment hangs from.
    pub nodes: Vec<NoteId>,
}

impl Segment {
    /// The branch point this segment hangs from.
    pub fn anchor(&self) -> (id: NoteId)
        requires
            self.nodes@.len() >= 1,
        ensures
            id == self.nodes@[0],
    {
        self.nodes[0]
    }

    /// The segment's own notes: everything after the anchor.
    pub fn body(&self) -> (b: &[NoteId])
        requires
            self.nodes@.len() >= 1,
        ensures
            b@ == self.nodes@.skip(1),
    {
        let s = self.nodes.as_slice();
        let (_, rest) = s.split_at(1);
        assert(rest@ =~= self.nodes@.skip(1));
        rest
    }

    /// The number of edges this segment covers.
    pub fn edges(&self) -> (n: usize)
        requires
            self.nodes@.len() >= 1,
        ensures
            n == self.nodes@.len() - 1,
    {
        self.nodes.len() - 1
    }
}

// =============================================================================================
// What the projections promise
// =============================================================================================

proof fn lemma_child_paths_count(id: NoteId, cs: Seq<TreeNode>, n: int)
    requires
        0 <= n <= cs.len(),
        forall|k: int| 0 <= k < n ==> paths_of(#[trigger] cs[k]).len() == leaf_count(cs[k]),
    ensures
        child_paths(id, cs, n).len() == leaf_counts(cs, n),
    decreases n,
{
    if n > 0 {
        lemma_child_paths_count(id, cs, n - 1);
    }
}

/// There is one path per leaf.
pub proof fn lemma_one_path_per_leaf(t: TreeNode)
    ensures
        paths_of(t).len() == leaf_count(t),
    decreases t,
{
    let cs = t.children@;
    assert forall|k: int| 0 <= k < cs.len() implies paths_of(#[trigger] cs[k]).len() == leaf_count(
        cs[k],
    ) by {
        lemma_one_path_per_leaf(cs[k]);
    }
    if cs.len() > 0 {
        lemma_child_paths_count(t.note.id, cs, cs.len() as int);
    }
}

proof fn lemma_child_paths_start(id: NoteId, cs: Seq<TreeNode>, n: int)
    requires
        0 <= n <= cs.len(),
    ensures
        forall|k: int|
            0 <= k < child_paths(id, cs, n).len() ==> (#[trigger] child_paths(id, cs, n)[k]).len()
                >= 1 && child_paths(id, cs, n)[k][0] == id,
    decreases n,
{
    if n > 0 {
        lemma_child_paths_start(id, cs, n - 1);
        let prev = child_paths(id, cs, n - 1);
        let hung = paths_of(cs[n - 1]).map_values(|p: Seq<NoteId>| seq![id] + p);
        assert forall|k: int| 0 <= k < (prev + hung).len() implies (#[trigger] (prev + hung)[k]).len()
            >= 1 && (prev + hung)[k][0] == id by {
            if k >= prev.len() {
                assert((prev + hung)[k] == seq![id] + paths_of(cs[n - 1])[k - prev.len()]);
            }
        }
    }
}

/// Every path starts at the tree's root.
pub proof fn lemma_paths_start_at_root(t: TreeNode)
    ensures
        forall|k: int|
            0 <= k < paths_of(t).len() ==> (#[trigger] paths_of(t)[k]).len() >= 1 && paths_of(
                t,
            )[k][0] == t.note.id,
{
    if t.children@.len() > 0 {
        lemma_child_paths_start(t.note.id, t.children@, t.children@.len() as int);
        assert(paths_of(t) == child_paths(t.note.id, t.children@, t.children@.len() as int));
    } else {
        assert(paths_of(t) == seq![seq![t.note.id]]);
    }
}

proof fn lemma_chain_nonempty(c: TreeNode)
    ensures
        chain(c).len() >= 1,
        chain(c)[0] == c.note.id,
{
}

proof fn lemma_heads_long(id: NoteId, cs: Seq<TreeNode>, n: int)
    requires
        0 <= n <= cs.len(),
    ensures
        forall|k: int| 0 <= k < heads(id, cs, n).len() ==> (#[trigger] heads(id, cs, n)[k]).len() >= 2,
    decreases n,
{
    if n > 0 {
        lemma_heads_long(id, cs, n - 1);
        lemma_chain_nonempty(cs[n - 1]);
        let prev = heads(id, cs, n - 1);
        let last = seq![id] + chain(cs[n - 1]);
        assert(heads(id, cs, n) == prev.push(last));
        assert forall|k: int| 0 <= k < prev.push(last).len() implies (#[trigger] prev.push(last)[k]).len()
            >= 2 by {
            if k < prev.len() {
                assert(prev.push(last)[k] == prev[k]);
            }
        }
    }
}

proof fn lemma_tails_long(cs: Seq<TreeNode>, n: int)
    requires
        0 <= n <= cs.len(),
    ensures
        forall|k: int| 0 <= k < tails(cs, n).len() ==> (#[trigger] tails(cs, n)[k]).len() >= 2,
    decreases cs, n,
{
    if n > 0 {
        lemma_tails_long(cs, n - 1);
        lemma_branch_segs_long(cs[n - 1]);
        let a = tails(cs, n - 1);
        let b = branch_segs(cs[n - 1]);
        assert forall|k: int| 0 <= k < (a + b).len() implies (#[trigger] (a + b)[k]).len() >= 2 by {
            if k >= a.len() {
                assert((a + b)[k] == b[k - a.len()]);
            }
        }
    }
}

proof fn lemma_branch_segs_long(c: TreeNode)
    ensures
        forall|k: int| 0 <= k < branch_segs(c).len() ==> (#[trigger] branch_segs(c)[k]).len() >= 2,
    decreases c, 1int,
{
    if c.children@.len() == 1 {
        lemma_branch_segs_long(c.children@[0]);
        assert(branch_segs(c) == branch_segs(c.children@[0]));
    } else if c.children@.len() > 1 {
        lemma_segments_long(c);
        assert(branch_segs(c) == segs(c));
    } else {
        assert(branch_segs(c) == Seq::<Seq<NoteId>>::empty());
    }
}

/// Every segment holds at least one edge: two ids or more.
pub proof fn lemma_segments_long(t: TreeNode)
    ensures
        forall|k: int| 0 <= k < segs(t).len() ==> (#[trigger] segs(t)[k]).len() >= 2,
    decreases t, 0int,
{
    let cs = t.children@;
    lemma_heads_long(t.note.id, cs, cs.len() as int);
    lemma_tails_long(cs, cs.len() as int);
    let a = heads(t.note.id, cs, cs.len() as int);
    let b = tails(cs, cs.len() as int);
    assert forall|k: int| 0 <= k < (a + b).len() implies (#[trigger] (a + b)[k]).len() >= 2 by {
        if k >= a.len() {
            assert((a + b)[k] == b[k - a.len()]);
        }
    }
}

/// The edges a list of segments covers together: one fewer than each segment's nodes.
pub open spec fn edge_count(ss: Seq<Seq<NoteId>>) -> int
    decreases ss.len(),
{
    if ss.len() == 0 {
        0
    } else {
        edge_count(ss.drop_last()) + ss.last().len() - 1
    }
}

proof fn lemma_edge_count_concat(a: Seq<Seq<NoteId>>, b: Seq<Seq<NoteId>>)
    ensures
        edge_count(a + b) == edge_count(a) + edge_count(b),
    decreases b.len(),
{
    if b.len() == 0 {
        assert(a + b =~= a);
    } else {
        lemma_edge_count_concat(a, b.drop_last());
        assert((a + b).drop_last() =~= a + b.drop_last());
        assert((a + b).last() == b.last());
    }
}

/// The chain through `c` and the segments below its end cover every node of `c`'s tree once:
/// the chain's nodes, then one edge per node beneath.
proof fn lemma_chain_and_below(c: TreeNode)
    ensures
        chain(c).len() + edge_count(branch_segs(c)) == size(c),
    decreases c, 1int,
{
    let cs = c.children@;
    if cs.len() == 1 {
        lemma_chain_and_below(cs[0]);
        assert(sizes(cs, 0) == 0);
        assert(sizes(cs, 1) == size(cs[0]));
    } else if cs.len() > 1 {
        lemma_segments_cover_every_edge(c);
    } else {
        assert(sizes(cs, 0) == 0);
    }
}

proof fn lemma_forest_edges(id: NoteId, cs: Seq<TreeNode>, n: int)
    requires
        0 <= n <= cs.len(),
    ensures
        edge_count(heads(id, cs, n)) + edge_count(tails(cs, n)) == sizes(cs, n),
        heads(id, cs, n).len() == n,
    decreases cs, n,
{
    if n > 0 {
        lemma_forest_edges(id, cs, n - 1);
        lemma_chain_and_below(cs[n - 1]);
        let h = heads(id, cs, n - 1);
        let last = seq![id] + chain(cs[n - 1]);
        assert(h.push(last).drop_last() =~= h);
        lemma_edge_count_concat(tails(cs, n - 1), branch_segs(cs[n - 1]));
    }
}

/// The segments of a tree hold, together, as many edges as the tree has: one for every node but
/// the root. And a tree has segments exactly when its root has replies.
pub proof fn lemma_segments_cover_every_edge(t: TreeNode)
    ensures
        edge_count(segs(t)) == size(t) - 1,
        segs(t).len() == 0 <==> t.children@.len() == 0,
    decreases t, 0int,
{
    let cs = t.children@;
    lemma_forest_edges(t.note.id, cs, cs.len() as int);
    lemma_edge_count_concat(heads(t.note.id, cs, cs.len() as int), tails(cs, cs.len() as int));
    if cs.len() == 0 {
        assert(tails(cs, 0).len() == 0);
    }
}

/// The parent-child edges of a tree, as `(parent, child)` ids, counted with multiplicity.
pub open spec fn edge_bag(t: TreeNode) -> vstd::multiset::Multiset<(NoteId, NoteId)>
    decreases t, 0int,
{
    forest_bag(t.note.id, t.children@, t.children@.len() as int)
}

/// The edges from `id` to each of the first `n` trees of `cs`, and the edges within them.
pub open spec fn forest_bag(id: NoteId, cs: Seq<TreeNode>, n: int) -> vstd::multiset::Multiset<(NoteId, NoteId)>
    decreases cs, n,
{
    if n <= 0 || n > cs.len() {
        vstd::multiset::Multiset::empty()
    } else {
        forest_bag(id, cs, n - 1).insert((id, cs[n - 1].note.id)).add(edge_bag(cs[n - 1]))
    }
}

/// The consecutive pairs of a segment, counted with multiplicity.
pub open spec fn pair_bag(s: Seq<NoteId>) -> vstd::multiset::Multiset<(NoteId, NoteId)>
    decreases s.len(),
{
    if s.len() < 2 {
        vstd::multiset::Multiset::empty()
    } else {
        pair_bag(s.drop_first()).insert((s[0], s[1]))
    }
}

/// The consecutive pairs of every segment of a list, counted with multiplicity.
pub open spec fn pairs_of(ss: Seq<Seq<NoteId>>) -> vstd::multiset::Multiset<(NoteId, NoteId)>
    decreases ss.len(),
{
    if ss.len() == 0 {
        vstd::multiset::Multiset::empty()
    } else {
        pairs_of(ss.drop_last()).add(pair_bag(ss.last()))
    }
}

proof fn lemma_pairs_of_concat(a: Seq<Seq<NoteId>>, b: Seq<Seq<NoteId>>)
    ensures
        pairs_of(a + b) == pairs_of(a).add(pairs_of(b)),
    decreases b.len(),
{
    broadcast use vstd::multiset::group_multiset_axioms;

    if b.len() == 0 {
        assert(a + b =~= a);
        assert(pairs_of(a).add(pairs_of(b)) =~= pairs_of(a));
    } else {
        lemma_pairs_of_concat(a, b.drop_last());
        assert((a + b).drop_last() =~= a + b.drop_last());
        assert((a + b).last() == b.last());
        assert(pairs_of(a + b) =~= pairs_of(a).add(pairs_of(b)));
    }
}

/// The segment hanging from `id` through `c`, and the segments below the end of its chain, pair
/// up the edge from `id` to `c` and every edge beneath `c`.
proof fn lemma_chain_pairs(id: NoteId, c: TreeNode)
    ensures
        pair_bag(seq![id] + chain(c)).add(pairs_of(branch_segs(c))) == edge_bag(c).insert((id, c.note.id)),
    decreases c, 1int,
{
    broadcast use vstd::multiset::group_multiset_axioms;

    let cs = c.children@;
    let s = seq![id] + chain(c);
    lemma_chain_nonempty(c);
    assert(s.drop_first() =~= chain(c));
    assert(s[0] == id && s[1] == c.note.id);
    if cs.len() == 1 {
        let d = cs[0];
        lemma_chain_pairs(c.note.id, d);
        assert(chain(c) =~= seq![c.note.id] + chain(d));
        assert(forest_bag(c.note.id, cs, 0) == vstd::multiset::Multiset::<(NoteId, NoteId)>::empty());
        assert(edge_bag(c) =~= vstd::multiset::Multiset::<(NoteId, NoteId)>::empty().insert((c.note.id, d.note.id)).add(edge_bag(d)));
        assert(pair_bag(s) == pair_bag(chain(c)).insert((id, c.note.id)));
        assert(branch_segs(c) == branch_segs(d));
        let inner = pair_bag(seq![c.note.id] + chain(d));
        assert(pair_bag(chain(c)) == inner);
        assert(inner.add(pairs_of(branch_segs(d))) == edge_bag(d).insert((c.note.id, d.note.id)));
        assert(pair_bag(s).add(pairs_of(branch_segs(c))) =~= inner.add(pairs_of(branch_segs(d))).insert((id, c.note.id)));
        assert(pair_bag(s).add(pairs_of(branch_segs(c))) =~= edge_bag(c).insert((id, c.note.id)));
    } else {
        assert(chain(c) =~= seq![c.note.id]);
        assert(pair_bag(chain(c)) =~= vstd::multiset::Multiset::<(NoteId, NoteId)>::empty());
        if cs.len() > 1 {
            lemma_segments_pair_every_edge(c);
        } else {
            assert(edge_bag(c) =~= vstd::multiset::Multiset::<(NoteId, NoteId)>::empty());
            assert(pairs_of(branch_segs(c)) =~= vstd::multiset::Multiset::<(NoteId, NoteId)>::empty());
        }
        assert(pair_bag(s).add(pairs_of(branch_segs(c))) =~= edge_bag(c).insert((id, c.note.id)));
    }
}

proof fn lemma_forest_pairs(id: NoteId, cs: Seq<TreeNode>, n: int)
    requires
        0 <= n <= cs.len(),
    ensures
        pairs_of(heads(id, cs, n)).add(pairs_of(tails(cs, n))) == forest_bag(id, cs, n),
    decreases cs, n,
{
    broadcast use vstd::multiset::group_multiset_axioms;

    if n == 0 {
        assert(pairs_of(heads(id, cs, 0)).add(pairs_of(tails(cs, 0))) =~= forest_bag(id, cs, 0));
    } else {
        lemma_forest_pairs(id, cs, n - 1);
        lemma_chain_pairs(id, cs[n - 1]);
        let h = heads(id, cs, n - 1);
        let last = seq![id] + chain(cs[n - 1]);
        assert(h.push(last).drop_last() =~= h);
        lemma_pairs_of_concat(tails(cs, n - 1), branch_segs(cs[n - 1]));
        assert(heads(id, cs, n) == h.push(last));
        assert(pairs_of(heads(id, cs, n)) == pairs_of(h).add(pair_bag(last)));
        assert(tails(cs, n) == tails(cs, n - 1) + branch_segs(cs[n - 1]));
        assert(pairs_of(tails(cs, n)) == pairs_of(tails(cs, n - 1)).add(pairs_of(branch_segs(cs[n - 1]))));
        assert(forest_bag(id, cs, n) == forest_bag(id, cs, n - 1).insert((id, cs[n - 1].note.id)).add(edge_bag(cs[n - 1])));
        let a = pairs_of(h);
        let b = pairs_of(tails(cs, n - 1));
        let c = pair_bag(last);
        let d = pairs_of(branch_segs(cs[n - 1]));
        assert(a.add(b) == forest_bag(id, cs, n - 1));
        assert(c.add(d) == edge_bag(cs[n - 1]).insert((id, cs[n - 1].note.id)));
        assert(a.add(c).add(b.add(d)) =~= a.add(b).add(c.add(d)));
        assert(forest_bag(id, cs, n - 1).insert((id, cs[n - 1].note.id)).add(edge_bag(cs[n - 1])) =~= forest_bag(id, cs, n - 1).add(edge_bag(cs[n - 1]).insert((id, cs[n - 1].note.id))));
    }
}

/// Every edge of a tree lies in exactly as many segments as the tree has it: the consecutive
/// pairs of the segments, counted with multiplicity, are exactly the tree's `(parent, child)`
/// edges. With distinct ids, each edge lies in exactly one segment.
pub proof fn lemma_segments_pair_every_edge(t: TreeNode)
    ensures
        pairs_of(segs(t)) == edge_bag(t),
    decreases t, 0int,
{
    let cs = t.children@;
    lemma_forest_pairs(t.note.id, cs, cs.len() as int);
    lemma_pairs_of_concat(heads(t.note.id, cs, cs.len() as int), tails(cs, cs.len() as int));
}

/// Every segment a tree hands out holds an edge: at least two nodes, an anchor that is its first
/// node, and a body of the rest, one node per edge.
pub proof fn lemma_every_segment_holds_an_edge(t: TreeNode, ss: Seq<Segment>)
    requires
        ss.map_values(|s: Segment| s.nodes@) == segs(t),
    ensures
        forall|k: int|
            0 <= k < ss.len() ==> {
                let n = (#[trigger] ss[k]).nodes@;
                &&& n.len() >= 2
                &&& n.skip(1).len() == n.len() - 1
                &&& n == seq![n[0]] + n.skip(1)
            },
{
    lemma_segments_long(t);
    assert forall|k: int| 0 <= k < ss.len() implies (#[trigger] ss[k]).nodes@.len() >= 2 by {
        assert(ss.map_values(|s: Segment| s.nodes@)[k] == ss[k].nodes@);
    }
    assert forall|k: int| 0 <= k < ss.len() implies {
        let n = (#[trigger] ss[k]).nodes@;
        n == seq![n[0]] + n.skip(1)
    } by {
        let n = ss[k].nodes@;
        assert(n =~= seq![n[0]] + n.skip(1));
    }
}

// =============================================================================================
// Threads
// =============================================================================================

/// A thread, loaded once and projected many times.
#[derive(Debug, PartialEq, Eq)]
pub struct Thread {
    /// The note the thread was asked about.
    pub focus: NoteId,
    /// Root to parent of the focus. Always linear, and empty when the focus is a root.
    pub ancestors: Vec<NoteMeta>,
    /// The focus and everything beneath it.
    pub tree: TreeNode,
}

impl Thread {
    /// The root of the thread: the first ancestor, or the focus's own note when there is none.
    pub fn root(&self) -> (m: &NoteMeta)
        ensures
            *m == if self.ancestors@.len() > 0 {
                self.ancestors@[0]
            } else {
                self.tree.note
            },
    {
        if self.ancestors.len() > 0 {
            &self.ancestors[0]
        } else {
            &self.tree.note
        }
    }

    /// The single line from the thread root down to the focus.
    pub fn path_to_focus(&self) -> (p: Vec<NoteId>)
        ensures
            p@ == self.ancestors@.map_values(|m: NoteMeta| m.id).push(self.focus),
    {
        let mut p: Vec<NoteId> = Vec::new();
        let mut i: usize = 0;
        while i < self.ancestors.len()
            invariant
                i <= self.ancestors.len(),
                p@ == self.ancestors@.take(i as int).map_values(|m: NoteMeta| m.id),
            decreases self.ancestors.len() - i,
        {
            p.push(self.ancestors[i].id);
            assert(p@ =~= self.ancestors@.take(i + 1).map_values(|m: NoteMeta| m.id));
            i = i + 1;
        }
        assert(self.ancestors@.take(i as int) =~= self.ancestors@);
        p.push(self.focus);
        p
    }
}

// =============================================================================================
// Assembly
// =============================================================================================

/// The ids of a tree's notes, depth-first.
pub open spec fn tree_ids(t: TreeNode) -> Seq<u128> {
    preorder(t).map_values(|n: TreeNode| n.note.id.spec_value())
}

/// The ids of the first `n` trees of `cs`, depth-first.
pub open spec fn forest_ids(cs: Seq<TreeNode>, n: int) -> Seq<u128> {
    preorders(cs, n).map_values(|n: TreeNode| n.note.id.spec_value())
}

/// The number of distinct 128-bit values.
pub open spec fn u128_count() -> int {
    0x1_0000_0000_0000_0000_0000_0000_0000_0000int
}

/// An adjacency map with each list of replies taken as a sequence.
pub open spec fn reply_lists(m: Map<u128, Vec<NoteMeta>>) -> Map<u128, Seq<NoteMeta>> {
    m.map_values(|v: Vec<NoteMeta>| v@)
}

/// The ids of the replies an adjacency map lists for `x`.
pub open spec fn kid_ids(cm: Map<u128, Seq<NoteMeta>>, x: u128) -> Seq<u128> {
    if cm.contains_key(x) {
        cm[x].map_values(|m: NoteMeta| m.id.spec_value())
    } else {
        Seq::empty()
    }
}

/// Whether every child in `t` is a reply the map lists for its parent.
pub open spec fn wired(cm: Map<u128, Seq<NoteMeta>>, t: TreeNode) -> bool
    decreases t, 0int,
{
    wired_forest(cm, t.note.id.spec_value(), t.children@, t.children@.len() as int)
}

/// Whether the first `n` trees of `cs` hang from `p` as replies the map lists, each wired.
pub open spec fn wired_forest(cm: Map<u128, Seq<NoteMeta>>, p: u128, cs: Seq<TreeNode>, n: int) -> bool
    decreases cs, n,
{
    if n <= 0 || n > cs.len() {
        true
    } else {
        wired_forest(cm, p, cs, n - 1) && kid_ids(cm, p).contains(cs[n - 1].note.id.spec_value())
            && wired(cm, cs[n - 1])
    }
}

/// Whether each id of `path` is a reply the map lists for the one before it.
pub open spec fn is_reply_path(cm: Map<u128, Seq<NoteMeta>>, path: Seq<u128>) -> bool {
    forall|i: int| 0 <= i < path.len() - 1 ==> kid_ids(cm, #[trigger] path[i]).contains(path[i + 1])
}

/// Whether `b` is `a` or lies beneath it, following replies.
pub open spec fn reaches(cm: Map<u128, Seq<NoteMeta>>, a: u128, b: u128) -> bool {
    exists|path: Seq<u128>|
        #[trigger] is_reply_path(cm, path) && path.len() >= 1 && path[0] == a && path.last() == b
}

/// Everything beneath a note, the note included, following replies.
pub open spec fn beneath(cm: Map<u128, Seq<NoteMeta>>, a: u128) -> Set<u128> {
    Set::new(|b: u128| reaches(cm, a, b))
}

/// An id among the first `n` trees of a forest is in one of them.
proof fn lemma_forest_member(cs: Seq<TreeNode>, n: int, x: u128) -> (j: int)
    requires
        0 <= n <= cs.len(),
        forest_ids(cs, n).contains(x),
    ensures
        0 <= j < n,
        tree_ids(cs[j]).contains(x),
    decreases n,
{
    lemma_forest_step(cs, n - 1);
    let prev = forest_ids(cs, n - 1);
    let here = tree_ids(cs[n - 1]);
    let q = choose|q: int| 0 <= q < forest_ids(cs, n).len() && forest_ids(cs, n)[q] == x;
    if q < prev.len() {
        assert(prev[q] == x);
        lemma_forest_member(cs, n - 1, x)
    } else {
        assert(here[q - prev.len()] == x);
        n - 1
    }
}

/// A wired tree holds only notes beneath its root.
proof fn lemma_wired_reaches(cm: Map<u128, Seq<NoteMeta>>, t: TreeNode, x: u128)
    requires
        wired(cm, t),
        tree_ids(t).contains(x),
    ensures
        reaches(cm, t.note.id.spec_value(), x),
    decreases t, 0int,
{
    let a = t.note.id.spec_value();
    lemma_tree_ids_split(t);
    let n = t.children@.len() as int;
    let rest = forest_ids(t.children@, n);
    if x == a {
        let path = seq![a];
        assert(is_reply_path(cm, path));
    } else {
        let q = choose|q: int| 0 <= q < tree_ids(t).len() && tree_ids(t)[q] == x;
        assert(q > 0);
        assert(rest[q - 1] == x);
        let j = lemma_forest_member(t.children@, n, x);
        lemma_wired_forest_at(cm, a, t.children@, n, j);
        let c = t.children@[j];
        lemma_wired_reaches(cm, c, x);
        let path = choose|path: Seq<u128>|
            #[trigger] is_reply_path(cm, path) && path.len() >= 1 && path[0] == c.note.id.spec_value()
                && path.last() == x;
        let longer = seq![a] + path;
        assert forall|i: int| 0 <= i < longer.len() - 1 implies kid_ids(cm, #[trigger] longer[i]).contains(
            longer[i + 1],
        ) by {
            if i > 0 {
                assert(longer[i] == path[i - 1]);
                assert(longer[i + 1] == path[i]);
            }
        }
        assert(is_reply_path(cm, longer));
        assert(longer.last() == x);
    }
}

/// A tree of a wired forest is wired and hangs from the forest's parent.
proof fn lemma_wired_forest_at(cm: Map<u128, Seq<NoteMeta>>, p: u128, cs: Seq<TreeNode>, n: int, j: int)
    requires
        wired_forest(cm, p, cs, n),
        0 <= j < n <= cs.len(),
    ensures
        kid_ids(cm, p).contains(cs[j].note.id.spec_value()),
        wired(cm, cs[j]),
    decreases n,
{
    if j < n - 1 {
        lemma_wired_forest_at(cm, p, cs, n - 1, j);
    }
}

/// A set holding `a` and every reply of each member holds everything beneath `a`.
proof fn lemma_closed_holds_beneath(cm: Map<u128, Seq<NoteMeta>>, s: Set<u128>, path: Seq<u128>, i: int)
    requires
        is_reply_path(cm, path),
        path.len() >= 1,
        s.contains(path[0]),
        forall|x: u128, k: u128| s.contains(x) && kid_ids(cm, x).contains(k) ==> s.contains(k),
        0 <= i < path.len(),
    ensures
        s.contains(path[i]),
    decreases i,
{
    if i > 0 {
        lemma_closed_holds_beneath(cm, s, path, i - 1);
        assert(kid_ids(cm, path[i - 1]).contains(path[i]));
    }
}

/// An assembled tree holds each note beneath its root once, so it has as many nodes as there are
/// notes beneath the root.
pub proof fn lemma_assembled_size(cm: Map<u128, Seq<NoteMeta>>, t: TreeNode)
    requires
        tree_ids(t).no_duplicates(),
        forall|b: u128| #[trigger] tree_ids(t).contains(b) <==> reaches(cm, t.note.id.spec_value(), b),
    ensures
        beneath(cm, t.note.id.spec_value()).finite(),
        tree_ids(t).len() == beneath(cm, t.note.id.spec_value()).len(),
        preorder(t).len() == tree_ids(t).len(),
{
    let a = t.note.id.spec_value();
    assert(tree_ids(t).to_set() =~= beneath(cm, a));
    tree_ids(t).unique_seq_to_set();
}

/// A set of 128-bit values has at most [`u128_count`] members.
proof fn lemma_u128_set_bounded(s: Set<u128>)
    requires
        s.finite(),
    ensures
        s.len() <= u128_count(),
{
    let x = vstd::set_lib::set_int_range(0, u128_count());
    vstd::set_lib::lemma_int_range(0, u128_count());
    let f = |i: int| i as u128;
    let y = x.map(f);
    vstd::set_lib::lemma_map_size_bound(x, y, f);
    assert forall|v: u128| s.contains(v) implies y.contains(v) by {
        assert(x.contains(v as int));
        assert(f(v as int) == v);
    }
    vstd::set_lib::lemma_len_subset(s, y);
}

/// Adding a value not yet present makes a set larger.
proof fn lemma_strict_growth(a: Set<u128>, b: Set<u128>, x: u128)
    requires
        b.finite(),
        a.subset_of(b),
        b.contains(x),
        !a.contains(x),
    ensures
        a.len() < b.len(),
{
    vstd::set_lib::lemma_len_subset(a, b.remove(x));
}

/// Mark `id` as placed; whether it was new.
fn mark(seen: &mut BTreeMap<u128, ()>, id: u128) -> (fresh: bool)
    ensures
        final(seen)@.dom() == old(seen)@.dom().insert(id),
        fresh == !old(seen)@.dom().contains(id),
{
    let r = seen.insert(id, ());
    assert(final(seen)@.dom() =~= old(seen)@.dom().insert(id));
    r.is_none()
}

/// The replies `children_of` lists for `id`.
fn replies_of<'a>(children_of: &'a BTreeMap<u128, Vec<NoteMeta>>, id: u128) -> (r: Option<
    &'a Vec<NoteMeta>,
>)
    ensures
        r is Some == children_of@.contains_key(id),
        r matches Some(v) ==> *v == children_of@[id],
{
    children_of.get(&id)
}

impl TreeNode {
    /// Assemble the subtree rooted at `focus` from an adjacency map of parent id to replies.
    ///
    /// A note reached twice is not placed a second time, which is what makes a cycle terminate
    /// here: every id occurs in the assembled tree at most once.
    pub fn assemble(focus: NoteMeta, children_of: &BTreeMap<u128, Vec<NoteMeta>>) -> (t: TreeNode)
        ensures
            t.note == focus,
            tree_ids(t).no_duplicates(),
            wired(reply_lists(children_of@), t),
            forall|b: u128| #[trigger] tree_ids(t).contains(b) <==> reaches(reply_lists(children_of@), focus.id.spec_value(), b),
    {
        let mut seen: BTreeMap<u128, ()> = BTreeMap::new();
        mark(&mut seen, focus.id.as_u128());
        let ghost first = seen@.dom();
        let t = descend(focus, children_of, &mut seen);
        proof {
            let cm = reply_lists(children_of@);
            let a = focus.id.spec_value();
            lemma_tree_ids_root(t);
            let s = Set::new(|x: u128| tree_ids(t).contains(x));
            assert forall|x: u128, k: u128| s.contains(x) && kid_ids(cm, x).contains(k) implies s.contains(k) by {
                assert(seen@.dom().contains(k));
                if first.contains(k) {
                    assert(k == a);
                }
            }
            assert forall|b: u128| #[trigger] tree_ids(t).contains(b) <==> reaches(cm, a, b) by {
                if tree_ids(t).contains(b) {
                    lemma_wired_reaches(cm, t, b);
                }
                if reaches(cm, a, b) {
                    let path = choose|path: Seq<u128>|
                        #[trigger] is_reply_path(cm, path) && path.len() >= 1 && path[0] == a && path.last() == b;
                    lemma_closed_holds_beneath(cm, s, path, path.len() - 1);
                }
            }
        }
        t
    }
}

/// Recursive half of [`TreeNode::assemble`]: `note` is already placed, and each reply not yet
/// placed is placed and descended into, in order.
#[verifier::rlimit(40)]
fn descend(note: NoteMeta, children_of: &BTreeMap<u128, Vec<NoteMeta>>, seen: &mut BTreeMap<u128, ()>) -> (t: TreeNode)
    requires
        old(seen)@.dom().contains(note.id.spec_value()),
    ensures
        t.note == note,
        tree_ids(t).no_duplicates(),
        old(seen)@.dom().subset_of(final(seen)@.dom()),
        forall|k: int|
            1 <= k < tree_ids(t).len() ==> !old(seen)@.dom().contains(#[trigger] tree_ids(t)[k])
                && final(seen)@.dom().contains(tree_ids(t)[k]),
        wired(reply_lists(children_of@), t),
        forall|y: u128|
            #[trigger] final(seen)@.dom().contains(y) ==> old(seen)@.dom().contains(y) || tree_ids(
                t,
            ).contains(y),
        forall|x: u128, k: u128|
            tree_ids(t).contains(x) && #[trigger] kid_ids(reply_lists(children_of@), x).contains(k)
                ==> final(seen)@.dom().contains(k),
    decreases u128_count() - old(seen)@.dom().len(),
{
    let ghost start = seen@.dom();
    let ghost cm = reply_lists(children_of@);
    let ghost me = note.id.spec_value();
    proof {
        lemma_u128_set_bounded(start);
    }
    let mut picked: Vec<NoteMeta> = Vec::new();
    match replies_of(children_of, note.id.as_u128()) {
        Some(kids) => {
            let mut k: usize = 0;
            while k < kids.len()
                invariant
                    cm == reply_lists(children_of@),
                    cm.contains_key(me),
                    kids@ == cm[me],
                    k <= kids.len(),
                    start.subset_of(seen@.dom()),
                    seen@.dom().finite(),
                    forall|a: int, b: int|
                        0 <= a < b < picked@.len() ==> (#[trigger] picked@[a]).id.spec_value()
                            != (#[trigger] picked@[b]).id.spec_value(),
                    forall|a: int|
                        0 <= a < picked@.len() ==> !start.contains(
                            (#[trigger] picked@[a]).id.spec_value(),
                        ) && seen@.dom().contains(picked@[a].id.spec_value()),
                    forall|a: int|
                        0 <= a < picked@.len() ==> kid_ids(cm, me).contains(
                            (#[trigger] picked@[a]).id.spec_value(),
                        ),
                    forall|q: int| 0 <= q < k ==> seen@.dom().contains((#[trigger] kids@[q]).id.spec_value()),
                    forall|y: u128|
                        #[trigger] seen@.dom().contains(y) ==> start.contains(y) || exists|a: int|
                            0 <= a < picked@.len() && (#[trigger] picked@[a]).id.spec_value() == y,
                decreases kids.len() - k,
            {
                let id = kids[k].id.as_u128();
                let ghost before_seen = seen@.dom();
                let ghost before = picked@;
                proof {
                    assert(kid_ids(cm, me)[k as int] == id);
                }
                if mark(seen, id) {
                    picked.push(kids[k].copy());
                    assert forall|a: int| 0 <= a < before.len() implies before[a].id.spec_value()
                        != id by {}
                    assert forall|y: u128| #[trigger] seen@.dom().contains(y) implies start.contains(y) || exists|a: int|
                        0 <= a < picked@.len() && (#[trigger] picked@[a]).id.spec_value() == y by {
                        if y == id {
                            assert(picked@[before.len() as int].id.spec_value() == y);
                        } else {
                            assert(before_seen.contains(y));
                            if !start.contains(y) {
                                let a = choose|a: int| 0 <= a < before.len() && (#[trigger] before[a]).id.spec_value() == y;
                                assert(picked@[a] == before[a]);
                            }
                        }
                    }
                }
                k = k + 1;
            }
        },
        None => {},
    }
    proof {
        assert forall|kk: u128| #[trigger] kid_ids(cm, me).contains(kk) implies seen@.dom().contains(kk) by {
            if cm.contains_key(me) {
                let q = choose|q: int| 0 <= q < kid_ids(cm, me).len() && kid_ids(cm, me)[q] == kk;
                assert(cm[me][q].id.spec_value() == kk);
            }
        }
    }
    let ghost after_pick = seen@.dom();
    let mut children: Vec<TreeNode> = Vec::new();
    let mut i: usize = 0;
    while i < picked.len()
        invariant
            cm == reply_lists(children_of@),
            i <= picked.len(),
            children@.len() == i,
            start.subset_of(after_pick),
            after_pick.subset_of(seen@.dom()),
            seen@.dom().finite(),
            start.len() <= u128_count(),
            start == old(seen)@.dom(),
            start.contains(note.id.spec_value()),
            forall|a: int, b: int|
                0 <= a < b < picked@.len() ==> (#[trigger] picked@[a]).id.spec_value()
                    != (#[trigger] picked@[b]).id.spec_value(),
            forall|a: int|
                0 <= a < picked@.len() ==> !start.contains((#[trigger] picked@[a]).id.spec_value())
                    && after_pick.contains(picked@[a].id.spec_value()),
            forall|a: int| 0 <= a < i ==> (#[trigger] children@[a]).note == picked@[a],
            forest_ids(children@, i as int).no_duplicates(),
            forall|x: int|
                0 <= x < forest_ids(children@, i as int).len() ==> !start.contains(
                    #[trigger] forest_ids(children@, i as int)[x],
                ) && seen@.dom().contains(forest_ids(children@, i as int)[x]),
            forall|j: int, x: int|
                i <= j < picked@.len() && 0 <= x < forest_ids(children@, i as int).len()
                    ==> #[trigger] forest_ids(children@, i as int)[x] != (#[trigger] picked@[j]).id.spec_value(),
            forall|a: int|
                0 <= a < picked@.len() ==> kid_ids(cm, me).contains(
                    (#[trigger] picked@[a]).id.spec_value(),
                ),
            wired_forest(cm, me, children@, i as int),
            forall|kk: u128| #[trigger] kid_ids(cm, me).contains(kk) ==> seen@.dom().contains(kk),
            forall|y: u128|
                #[trigger] seen@.dom().contains(y) ==> start.contains(y) || (exists|a: int|
                    0 <= a < picked@.len() && (#[trigger] picked@[a]).id.spec_value() == y)
                    || forest_ids(children@, i as int).contains(y),
            forall|x: u128, kk: u128|
                forest_ids(children@, i as int).contains(x) && #[trigger] kid_ids(cm, x).contains(kk)
                    ==> seen@.dom().contains(kk),
        decreases picked.len() - i,
    {
        let ghost at_call = seen@.dom();
        let child_note = picked[i].copy();
        proof {
            lemma_strict_growth(start, at_call, child_note.id.spec_value());
            lemma_u128_set_bounded(at_call);
        }
        let sub = descend(child_note, children_of, seen);
        let ghost prev = forest_ids(children@, i as int);
        let ghost sub_ids = tree_ids(sub);
        let ghost old_cs = children@;
        children.push(sub);
        proof {
            assert(children@.take(i as int) =~= old_cs.take(i as int));
            lemma_preorders_prefix(children@, old_cs, i as int);
            lemma_wired_forest_prefix(cm, me, children@, old_cs, i as int);
            assert(forest_ids(children@, i as int) == prev);
            lemma_forest_step(children@, i as int);
            assert(children@[i as int] == sub);
            let now = forest_ids(children@, i + 1);
            assert(now == prev + sub_ids);
            assert(sub_ids.len() >= 1 && sub_ids[0] == picked@[i as int].id.spec_value()) by {
                lemma_tree_ids_root(sub);
            }
            assert forall|x: int| 0 <= x < now.len() implies !start.contains(#[trigger] now[x])
                && seen@.dom().contains(now[x]) by {
                if x >= prev.len() {
                    let y = x - prev.len();
                    assert(now[x] == sub_ids[y]);
                    if y == 0 {
                        assert(after_pick.contains(picked@[i as int].id.spec_value()));
                    }
                } else {
                    assert(now[x] == prev[x]);
                }
            }
            assert(now.no_duplicates()) by {
                assert forall|x: int, y: int| 0 <= x < y < now.len() implies now[x] != now[y] by {
                    if y >= prev.len() && x < prev.len() {
                        let yy = y - prev.len();
                        assert(now[y] == sub_ids[yy]);
                        assert(now[x] == prev[x]);
                        if yy == 0 {
                        } else {
                            assert(!at_call.contains(sub_ids[yy]));
                        }
                    } else if x >= prev.len() {
                        assert(now[x] == sub_ids[x - prev.len()]);
                        assert(now[y] == sub_ids[y - prev.len()]);
                    } else {
                        assert(now[x] == prev[x]);
                        assert(now[y] == prev[y]);
                    }
                }
            }
            assert forall|j: int, x: int|
                i + 1 <= j < picked@.len() && 0 <= x < now.len() implies #[trigger] now[x]
                != (#[trigger] picked@[j]).id.spec_value() by {
                if x >= prev.len() {
                    let y = x - prev.len();
                    assert(now[x] == sub_ids[y]);
                    if y == 0 {
                        assert(picked@[i as int].id.spec_value() != picked@[j].id.spec_value());
                    } else {
                        assert(after_pick.contains(picked@[j].id.spec_value()));
                        assert(!at_call.contains(sub_ids[y]));
                    }
                } else {
                    assert(now[x] == prev[x]);
                }
            }
            assert(wired_forest(cm, me, children@, i + 1));
            assert forall|x: u128| #[trigger] prev.contains(x) implies now.contains(x) by {
                let q = choose|q: int| 0 <= q < prev.len() && prev[q] == x;
                assert(now[q] == x);
            }
            assert forall|x: u128| #[trigger] sub_ids.contains(x) implies now.contains(x) by {
                let q = choose|q: int| 0 <= q < sub_ids.len() && sub_ids[q] == x;
                assert(now[prev.len() + q] == x);
            }
            assert forall|x: u128| #[trigger] now.contains(x) implies prev.contains(x) || sub_ids.contains(x) by {
                let q = choose|q: int| 0 <= q < now.len() && now[q] == x;
                if q < prev.len() {
                    assert(prev[q] == x);
                } else {
                    assert(sub_ids[q - prev.len()] == x);
                }
            }
            assert forall|y: u128|
                #[trigger] seen@.dom().contains(y) implies start.contains(y) || (exists|a: int|
                    0 <= a < picked@.len() && (#[trigger] picked@[a]).id.spec_value() == y)
                    || now.contains(y) by {
                if at_call.contains(y) {
                    if !start.contains(y) && !(exists|a: int|
                        0 <= a < picked@.len() && (#[trigger] picked@[a]).id.spec_value() == y) {
                        assert(prev.contains(y));
                    }
                } else {
                    assert(sub_ids.contains(y));
                }
            }
            assert forall|x: u128, kk: u128|
                now.contains(x) && #[trigger] kid_ids(cm, x).contains(kk) implies seen@.dom().contains(kk) by {
                if prev.contains(x) {
                    assert(at_call.contains(kk));
                }
            }
        }
        i = i + 1;
    }
    let t = TreeNode { note, children };
    proof {
        lemma_tree_ids_split(t);
        let rest = forest_ids(t.children@, t.children@.len() as int);
        assert(tree_ids(t) == seq![note.id.spec_value()] + rest);
        assert forall|x: int, y: int| 0 <= x < y < tree_ids(t).len() implies tree_ids(t)[x]
            != tree_ids(t)[y] by {
            assert(tree_ids(t)[y] == rest[y - 1]);
            if x == 0 {
            } else {
                assert(tree_ids(t)[x] == rest[x - 1]);
            }
        }
        assert forall|k: int| 1 <= k < tree_ids(t).len() implies !start.contains(
            #[trigger] tree_ids(t)[k],
        ) && seen@.dom().contains(tree_ids(t)[k]) by {
            assert(tree_ids(t)[k] == rest[k - 1]);
        }
        assert forall|x: u128| #[trigger] rest.contains(x) implies tree_ids(t).contains(x) by {
            let q = choose|q: int| 0 <= q < rest.len() && rest[q] == x;
            assert(tree_ids(t)[q + 1] == x);
        }
        assert(tree_ids(t)[0] == me);
        assert forall|y: u128|
            #[trigger] seen@.dom().contains(y) implies start.contains(y) || tree_ids(t).contains(y) by {
            if !start.contains(y) && !rest.contains(y) {
                let a = choose|a: int| 0 <= a < picked@.len() && (#[trigger] picked@[a]).id.spec_value() == y;
                let c = t.children@[a];
                lemma_tree_ids_root(c);
                lemma_forest_contains(t.children@, t.children@.len() as int, a);
                assert(tree_ids(c).contains(y));
            }
        }
        assert forall|x: u128, kk: u128|
            tree_ids(t).contains(x) && #[trigger] kid_ids(cm, x).contains(kk) implies seen@.dom().contains(kk) by {
            if x != me {
                let q = choose|q: int| 0 <= q < tree_ids(t).len() && tree_ids(t)[q] == x;
                assert(rest[q - 1] == x);
            }
        }
    }
    t
}

/// A wired forest is decided by its first `n` trees.
proof fn lemma_wired_forest_prefix(cm: Map<u128, Seq<NoteMeta>>, p: u128, cs: Seq<TreeNode>, ds: Seq<TreeNode>, n: int)
    requires
        0 <= n <= cs.len(),
        n <= ds.len(),
        cs.take(n) == ds.take(n),
    ensures
        wired_forest(cm, p, cs, n) == wired_forest(cm, p, ds, n),
    decreases n,
{
    if n > 0 {
        assert(cs.take(n - 1) =~= cs.take(n).take(n - 1));
        assert(ds.take(n - 1) =~= ds.take(n).take(n - 1));
        lemma_wired_forest_prefix(cm, p, cs, ds, n - 1);
        assert(cs[n - 1] == cs.take(n)[n - 1]);
        assert(ds[n - 1] == ds.take(n)[n - 1]);
    }
}

/// Every tree of a forest contributes its ids.
proof fn lemma_forest_contains(cs: Seq<TreeNode>, n: int, j: int)
    requires
        0 <= j < n <= cs.len(),
    ensures
        forall|x: u128| tree_ids(cs[j]).contains(x) ==> forest_ids(cs, n).contains(x),
    decreases n,
{
    lemma_forest_step(cs, n - 1);
    let prev = forest_ids(cs, n - 1);
    let here = tree_ids(cs[n - 1]);
    if j < n - 1 {
        lemma_forest_contains(cs, n - 1, j);
        assert forall|x: u128| tree_ids(cs[j]).contains(x) implies forest_ids(cs, n).contains(x) by {
            assert(prev.contains(x));
            let q = choose|q: int| 0 <= q < prev.len() && prev[q] == x;
            assert(forest_ids(cs, n)[q] == x);
        }
    } else {
        assert forall|x: u128| tree_ids(cs[j]).contains(x) implies forest_ids(cs, n).contains(x) by {
            let q = choose|q: int| 0 <= q < here.len() && here[q] == x;
            assert(forest_ids(cs, n)[prev.len() + q] == x);
        }
    }
}

proof fn lemma_preorders_prefix(cs: Seq<TreeNode>, ds: Seq<TreeNode>, n: int)
    requires
        0 <= n <= cs.len(),
        n <= ds.len(),
        cs.take(n) == ds.take(n),
    ensures
        preorders(cs, n) == preorders(ds, n),
    decreases n,
{
    if n > 0 {
        assert(cs.take(n - 1) =~= cs.take(n).take(n - 1));
        assert(ds.take(n - 1) =~= ds.take(n).take(n - 1));
        lemma_preorders_prefix(cs, ds, n - 1);
        assert(cs[n - 1] == cs.take(n)[n - 1]);
        assert(ds[n - 1] == ds.take(n)[n - 1]);
    }
}

/// Pushing a tree onto a forest appends its ids.
proof fn lemma_forest_step(cs: Seq<TreeNode>, i: int)
    requires
        0 <= i < cs.len(),
    ensures
        forest_ids(cs, i + 1) == forest_ids(cs, i) + tree_ids(cs[i]),
{
    let f = |n: TreeNode| n.note.id.spec_value();
    assert(preorders(cs, i + 1) == preorders(cs, i) + preorder(cs[i]));
    assert((preorders(cs, i) + preorder(cs[i])).map_values(f) =~= preorders(cs, i).map_values(f)
        + preorder(cs[i]).map_values(f));
}

proof fn lemma_tree_ids_root(t: TreeNode)
    ensures
        tree_ids(t).len() >= 1,
        tree_ids(t)[0] == t.note.id.spec_value(),
{
}

proof fn lemma_tree_ids_split(t: TreeNode)
    ensures
        tree_ids(t) == seq![t.note.id.spec_value()] + forest_ids(t.children@, t.children@.len() as int),
{
    let f = |n: TreeNode| n.note.id.spec_value();
    assert((seq![t] + preorders(t.children@, t.children@.len() as int)).map_values(f) =~= seq![
        t.note.id.spec_value(),
    ] + preorders(t.children@, t.children@.len() as int).map_values(f));
}

} // verus!
