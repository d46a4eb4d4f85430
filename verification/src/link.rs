//! `[[uuid]]` link extraction from a note body.
//!
//! The body is parsed to a markdown tree and only its text nodes are scanned, so a link written
//! inside fenced or inline code, or raw HTML, is being shown rather than made: those nodes hold no
//! text nodes. A text node is scanned in the body's own bytes, by the node's span, so offsets index
//! the file on disk and an escaped `\[\[` never reads as a link.
//!
//! A link is `[[uuid]]` or `[[uuid|label]]` on one line. Its target must be a UUID and nothing
//! else: `[[some title]]` is not a link at all.

use std::ops::Range;
use vstd::prelude::*;
use vstd::string::StrSliceExecFns;
use vstd::utf8::{
    decode_utf8, encode_utf8, encode_utf8_decode_utf8, encode_utf8_valid_utf8, is_char_boundary,
    valid_utf8,
};

use crate::note::{NoteId, uuid_text_value};
use crate::text::{lemma_ascii_boundaries, slice, trim, trimmed};

verus! {

/// One `[[uuid]]` or `[[uuid|label]]` found in a body.
///
/// Extraction is purely textual and never consults a vault: a link to a purged note extracts
/// exactly like a link to a live one.
#[derive(Debug)]
pub struct Link {
    /// The note this link points at.
    pub target: NoteId,
    /// The display text after `|`, trimmed. Never empty: `[[uuid|]]` is a link with no label.
    pub label: Option<String>,
    /// Byte range of the whole `[[…]]` within the body, delimiters included.
    pub span: Range<usize>,
}

/// What a link says, as plain values: target, label, and span.
pub type LinkView = (u128, Option<Seq<char>>, int, int);

impl View for Link {
    type V = LinkView;

    open spec fn view(&self) -> LinkView {
        (
            self.target.spec_value(),
            match self.label {
                Some(l) => Some(l@),
                None => None,
            },
            self.span.start as int,
            self.span.end as int,
        )
    }
}

// =============================================================================================
// What the scan finds
// =============================================================================================

/// The first index in `[from, upto)` where `x` is followed by another `x` inside the range.
pub open spec fn first_pair(t: Seq<u8>, from: int, upto: int, x: u8) -> Option<int>
    decreases upto - from,
{
    if from < 0 || from + 1 >= upto {
        None
    } else if t[from] == x && t[from + 1] == x {
        Some(from)
    } else {
        first_pair(t, from + 1, upto, x)
    }
}

/// The first index at or after `from` holding `x`, or `t.len()`.
pub open spec fn first_byte(t: Seq<u8>, from: int, x: u8) -> int
    decreases t.len() - from,
{
    if from < 0 || from >= t.len() {
        t.len() as int
    } else if t[from] == x {
        from
    } else {
        first_byte(t, from + 1, x)
    }
}

/// The target and label the text between the delimiters names, when its target, trimmed, reads
/// as a UUID. A label is trimmed, and an empty one is none.
pub open spec fn interior_link(inner: Seq<char>) -> Option<(u128, Option<Seq<char>>)> {
    let bar = inner.index_of_first('|');
    let (target, label) = match bar {
        Some(k) => (inner.take(k), Some(inner.skip(k + 1))),
        None => (inner, None),
    };
    match uuid_text_value(trimmed(target)) {
        Some(v) => Some(
            (
                v,
                match label {
                    Some(l) => if trimmed(l).len() > 0 {
                        Some(trimmed(l))
                    } else {
                        None
                    },
                    None => None,
                },
            ),
        ),
        None => None,
    }
}

/// The links in `t` found from `cursor` on, spans relative to `t` shifted by `base`.
///
/// Each `[[` opens a candidate; its `]]` must come before the next line break. A candidate that
/// does not name a UUID is no link, and the scan resumes just inside its opening delimiter, so
/// `[[[[uuid]]` still finds the link the second `[[` opens.
pub open spec fn scan_links(t: Seq<u8>, cursor: int, base: int) -> Seq<LinkView>
    decreases t.len() - cursor,
{
    if cursor < 0 || cursor > t.len() {
        Seq::empty()
    } else {
        match first_pair(t, cursor, t.len() as int, 91) {
            None => Seq::empty(),
            Some(open) => {
                proof {
                    lemma_first_pair_in(t, cursor, t.len() as int, 91);
                }
                let a = open + 2;
                let bound = first_byte(t, a, 10);
                proof {
                    lemma_first_byte_in(t, a, 10);
                    lemma_first_pair_in(t, a, bound, 93);
                }
                match first_pair(t, a, bound, 93) {
                    None => scan_links(t, a, base),
                    Some(close) => match interior_link(decode_utf8(t.subrange(a, close))) {
                        Some((v, l)) => seq![(v, l, base + open, base + close + 2)] + scan_links(
                            t,
                            close + 2,
                            base,
                        ),
                        None => scan_links(t, a, base),
                    },
                }
            },
        }
    }
}

/// The links of a body's text nodes, in node order, each scanned in the body's bytes by its span.
/// A node whose span does not lie on character boundaries of the body holds none.
pub open spec fn node_links(b: Seq<u8>, nodes: Seq<(bool, Option<(usize, usize)>)>) -> Seq<LinkView>
    decreases nodes.len(),
{
    if nodes.len() == 0 {
        Seq::empty()
    } else {
        let here = match nodes.last() {
            (true, Some((s, e))) => if s <= e <= b.len() && is_char_boundary(b, s as int)
                && is_char_boundary(b, e as int) {
                scan_links(b.subrange(s as int, e as int), 0, s as int)
            } else {
                Seq::empty()
            },
            _ => Seq::empty(),
        };
        node_links(b, nodes.drop_last()) + here
    }
}

/// `s` with `x` placed after every element whose start is at most `x`'s: one step of a stable
/// sort by span start.
pub open spec fn insert_by_start(s: Seq<LinkView>, x: LinkView) -> Seq<LinkView>
    decreases s.len(),
{
    if s.len() == 0 {
        seq![x]
    } else if s.last().2 <= x.2 {
        s.push(x)
    } else {
        insert_by_start(s.drop_last(), x).push(s.last())
    }
}

/// `s` stably sorted by span start.
pub open spec fn sorted_by_start(s: Seq<LinkView>) -> Seq<LinkView>
    decreases s.len(),
{
    if s.len() == 0 {
        Seq::empty()
    } else {
        insert_by_start(sorted_by_start(s.drop_last()), s.last())
    }
}

/// The preorder nodes of the markdown tree `markdown::to_mdast` builds for a body with the
/// default options: for each node, whether it is a text node, and its byte span when the parser
/// reports one. `None` when the parse fails.
pub uninterp spec fn mdast_nodes(body: Seq<char>) -> Option<Seq<(bool, Option<(usize, usize)>)>>;

/// The links `extract` finds in `body`, in the order they appear.
pub open spec fn body_links(body: Seq<char>) -> Seq<LinkView> {
    match mdast_nodes(body) {
        Some(nodes) => sorted_by_start(node_links(encode_utf8(body), nodes)),
        None => Seq::empty(),
    }
}

/// `markdown::to_mdast` with the default options, as the tree's nodes in preorder: for each,
/// whether it is a text node, and its byte span when the parser reports one.
///
/// Code, inline code and HTML nodes are literals with no children, so no text node lies inside
/// one: listing the text nodes of the whole tree is the same as walking it without entering them.
/// Nothing is claimed of the result beyond its name.
#[verifier::external_body]
fn preorder_nodes(body: &str) -> (r: Option<Vec<(bool, Option<(usize, usize)>)>>)
    ensures
        r is Some == mdast_nodes(body@) is Some,
        r matches Some(v) ==> mdast_nodes(body@) == Some(v@),
{
    let tree = markdown::to_mdast(body, &markdown::ParseOptions::default()).ok()?;
    let mut out = Vec::new();
    let mut stack = vec![&tree];
    while let Some(node) = stack.pop() {
        let span = node.position().map(|p| (p.start.offset, p.end.offset));
        out.push((matches!(node, markdown::mdast::Node::Text(_)), span));
        if let Some(children) = node.children() {
            stack.extend(children.iter().rev());
        }
    }
    Some(out)
}

/// The first index in `[from, upto)` where `x` is followed by another `x` inside the range.
fn find_pair(t: &Vec<u8>, from: usize, upto: usize, x: u8) -> (r: Option<usize>)
    requires
        upto <= t.len(),
    ensures
        r matches Some(i) ==> first_pair(t@, from as int, upto as int, x) == Some(i as int),
        r is None ==> first_pair(t@, from as int, upto as int, x) is None,
    decreases upto - from,
{
    if from >= upto || from + 1 >= upto {
        None
    } else if t[from] == x && t[from + 1] == x {
        Some(from)
    } else {
        find_pair(t, from + 1, upto, x)
    }
}

/// The first index at or after `from` holding `x`, or `t.len()`.
fn find_byte(t: &Vec<u8>, from: usize, x: u8) -> (r: usize)
    ensures
        r == first_byte(t@, from as int, x),
    decreases t.len() - from,
{
    if from >= t.len() {
        t.len()
    } else if t[from] == x {
        from
    } else {
        find_byte(t, from + 1, x)
    }
}

/// A first pair found in a range lies inside it.
pub proof fn lemma_first_pair_in(t: Seq<u8>, from: int, upto: int, x: u8)
    requires
        upto <= t.len(),
    ensures
        first_pair(t, from, upto, x) matches Some(i) ==> from <= i && i + 1 < upto && t[i] == x && t[i + 1] == x,
    decreases upto - from,
{
    if from >= 0 && from + 1 < upto && !(t[from] == x && t[from + 1] == x) {
        lemma_first_pair_in(t, from + 1, upto, x);
    }
}

/// The first byte found lies at or after where the search starts, and within the text.
pub proof fn lemma_first_byte_in(t: Seq<u8>, from: int, x: u8)
    requires
        0 <= from,
    ensures
        from <= first_byte(t, from, x) <= t.len() || (from > t.len() && first_byte(t, from, x) == t.len()),
    decreases t.len() - from,
{
    if from < t.len() && t[from] != x {
        lemma_first_byte_in(t, from + 1, x);
    }
}

/// The target and label named between a link's delimiters.
fn parse_interior(inner: &str) -> (r: Option<(NoteId, Option<String>)>)
    ensures
        match interior_link(inner@) {
            Some((v, l)) => r matches Some((id, label)) && id.spec_value() == v && match label {
                Some(x) => l == Some(x@),
                None => l is None,
            },
            None => r is None,
        },
{
    let n = inner.unicode_len();
    let mut k: usize = 0;
    while k < n && inner.get_char(k) != '|'
        invariant
            n == inner@.len(),
            k <= n,
            forall|q: int| 0 <= q < k ==> inner@[q] != '|',
        decreases n - k,
    {
        k = k + 1;
    }
    proof {
        inner@.index_of_first_ensures('|');
    }
    let (target, label) = if k < n {
        proof {
            assert(inner@.contains('|'));
        }
        (inner.substring_char(0, k), Some(inner.substring_char(k + 1, n)))
    } else {
        proof {
            assert(!inner@.contains('|'));
            assert(inner@.subrange(0, n as int) =~= inner@);
        }
        (inner.substring_char(0, n), None)
    };
    proof {
        if k < n {
            assert(inner@.index_of_first('|') == Some(k as int));
            assert(inner@.take(k as int) =~= target@);
            assert(inner@.skip(k + 1) =~= label->0@);
        }
    }
    let id = match NoteId::parse(trim(target)) {
        Some(id) => id,
        None => {
            return None;
        },
    };
    let label = match label {
        Some(l) => {
            let t = trim(l);
            if t.unicode_len() > 0 {
                Some(t.to_owned())
            } else {
                None
            }
        },
        None => None,
    };
    Some((id, label))
}

/// The views of a list of links.
pub open spec fn link_views(ls: Seq<Link>) -> Seq<LinkView> {
    ls.map_values(|l: Link| l@)
}

/// Scan the text node spanning bytes `[s, e)` of `body`, whose bytes are `b`, appending the
/// links it holds.
fn scan(body: &str, b: &[u8], s: usize, e: usize, out: &mut Vec<Link>)
    requires
        b@ == encode_utf8(body@),
        s <= e <= b.len(),
        is_char_boundary(b@, s as int),
        is_char_boundary(b@, e as int),
    ensures
        link_views(final(out)@) == link_views(old(out)@) + scan_links(b@.subrange(s as int, e as int), 0, s as int),
{
    let ghost start = link_views(out@);
    let mut t: Vec<u8> = Vec::new();
    let mut i: usize = s;
    while i < e
        invariant
            s <= i <= e <= b.len(),
            t@ == b@.subrange(s as int, i as int),
        decreases e - i,
    {
        t.push(b[i]);
        assert(t@ =~= b@.subrange(s as int, i + 1));
        i = i + 1;
    }
    let ghost tt = t@;
    proof {
        encode_utf8_valid_utf8(body@);
    }
    let mut cursor: usize = 0;
    loop
        invariant_except_break
            tt == t@,
            tt == b@.subrange(s as int, e as int),
            b@ == encode_utf8(body@),
            valid_utf8(b@),
            s <= e <= b.len(),
            cursor <= t.len(),
            start + scan_links(tt, 0, s as int) == link_views(out@) + scan_links(tt, cursor as int, s as int),
        ensures
            link_views(out@) == start + scan_links(tt, 0, s as int),
        decreases t.len() - cursor,
    {
        let open = match find_pair(&t, cursor, t.len(), 91) {
            Some(o) => o,
            None => {
                assert(scan_links(tt, cursor as int, s as int) =~= Seq::<LinkView>::empty());
                assert(link_views(out@) =~= link_views(out@) + Seq::<LinkView>::empty());
                break;
            },
        };
        proof {
            lemma_first_pair_in(tt, cursor as int, tt.len() as int, 91);
        }
        let a = open + 2;
        let bound = find_byte(&t, a, 10);
        proof {
            lemma_first_byte_in(tt, a as int, 10);
        }
        match find_pair(&t, a, bound, 93) {
            None => {
                cursor = a;
            },
            Some(close) => {
                proof {
                    lemma_first_pair_in(tt, a as int, bound as int, 93);
                    lemma_ascii_boundaries(b@, (s + open + 1) as int);
                    lemma_ascii_boundaries(b@, (s + close) as int);
                }
                let inner = slice(body, s + a, s + close);
                proof {
                    assert(encode_utf8(inner@) =~= tt.subrange(a as int, close as int));
                    encode_utf8_decode_utf8(inner@);
                }
                match parse_interior(inner) {
                    Some((target, label)) => {
                        let link = Link { target, label, span: Range { start: s + open, end: s + close + 2 } };
                        let ghost before = link_views(out@);
                        out.push(link);
                        proof {
                            assert(link_views(out@) =~= before.push(link@));
                            assert(scan_links(tt, cursor as int, s as int) == seq![link@] + scan_links(tt, close + 2, s as int));
                            assert(before.push(link@) + scan_links(tt, close + 2, s as int) =~= before + (seq![link@] + scan_links(tt, close + 2, s as int)));
                        }
                        cursor = close + 2;
                    },
                    None => {
                        cursor = a;
                    },
                }
            },
        }
    }
}

/// Inserting after the last element that starts no later is what [`insert_by_start`] does.
proof fn lemma_insert_by_start(s: Seq<LinkView>, x: LinkView, j: int)
    requires
        0 <= j <= s.len(),
        j > 0 ==> s[j - 1].2 <= x.2,
        forall|k: int| j <= k < s.len() ==> (#[trigger] s[k]).2 > x.2,
    ensures
        insert_by_start(s, x) == s.insert(j, x),
    decreases s.len(),
{
    if s.len() == 0 {
        assert(s.insert(j, x) =~= seq![x]);
    } else if s.last().2 <= x.2 {
        assert(j == s.len());
        assert(s.insert(j, x) =~= s.push(x));
    } else {
        lemma_insert_by_start(s.drop_last(), x, j);
        assert(s.insert(j, x) =~= s.drop_last().insert(j, x).push(s.last()));
    }
}

/// `links` stably sorted by where each starts.
fn sort_by_start(links: Vec<Link>) -> (out: Vec<Link>)
    ensures
        link_views(out@) == sorted_by_start(link_views(links@)),
{
    let ghost input = link_views(links@);
    let total = links.len();
    let mut rest = links;
    let mut reversed: Vec<Link> = Vec::new();
    while rest.len() > 0
        invariant
            link_views(rest@) + link_views(reversed@).reverse() == input,
        decreases rest.len(),
    {
        let ghost br = link_views(rest@);
        let ghost bv = link_views(reversed@);
        let l = rest.pop().unwrap();
        reversed.push(l);
        proof {
            assert(link_views(reversed@) =~= bv.push(l@));
            assert(bv.push(l@).reverse() =~= seq![l@] + bv.reverse());
            assert(br =~= link_views(rest@).push(l@));
            assert(link_views(rest@) + link_views(reversed@).reverse() =~= br + bv.reverse());
        }
    }
    assert(link_views(reversed@).reverse() =~= input);
    let mut out: Vec<Link> = Vec::new();
    let mut taken: usize = 0;
    proof {
        assert(input.take(0) =~= Seq::<LinkView>::empty());
    }
    while reversed.len() > 0
        invariant
            link_views(reversed@).reverse() == input.skip(taken as int),
            taken <= input.len() == total,
            link_views(out@) == sorted_by_start(input.take(taken as int)),
        decreases reversed.len(),
    {
        let ghost bv = link_views(reversed@);
        let x = reversed.pop().unwrap();
        proof {
            assert(bv.reverse().len() > 0);
            assert(bv.reverse()[0] == x@);
            assert(input.skip(taken as int)[0] == input[taken as int]);
            assert(link_views(reversed@) =~= bv.drop_last());
            assert(bv.drop_last().reverse() =~= bv.reverse().drop_first());
            assert(input.skip(taken as int + 1) =~= input.skip(taken as int).drop_first());
            assert(input.take(taken as int + 1).drop_last() =~= input.take(taken as int));
        }
        let ghost so = link_views(out@);
        let mut j: usize = out.len();
        while j > 0 && out[j - 1].span.start > x.span.start
            invariant
                j <= out.len(),
                so == link_views(out@),
                forall|k: int| j <= k < so.len() ==> (#[trigger] so[k]).2 > x@.2,
            decreases j,
        {
            j = j - 1;
        }
        proof {
            lemma_insert_by_start(so, x@, j as int);
        }
        out.insert(j, x);
        assert(link_views(out@) =~= so.insert(j as int, x@));
        taken = taken + 1;
    }
    proof {
        assert(input.skip(taken as int).len() == 0);
        assert(input.take(taken as int) =~= input);
    }
    out
}

/// Every link in `body`, in the order they appear. The same target linked twice yields two
/// links with different spans: each is a real position in the text.
pub fn extract(body: &str) -> (links: Vec<Link>)
    ensures
        link_views(links@) == body_links(body@),
{
    let nodes = match preorder_nodes(body) {
        Some(nodes) => nodes,
        None => {
            return Vec::new();
        },
    };
    let b = body.as_bytes();
    proof {
        assert(b@ == encode_utf8(body@));
    }
    let mut found: Vec<Link> = Vec::new();
    let mut i: usize = 0;
    while i < nodes.len()
        invariant
            b@ == encode_utf8(body@),
            i <= nodes.len(),
            link_views(found@) == node_links(b@, nodes@.take(i as int)),
        decreases nodes.len() - i,
    {
        proof {
            assert(nodes@.take(i + 1).drop_last() =~= nodes@.take(i as int));
        }
        match nodes[i] {
            (true, Some((s, e))) => {
                if s <= e && e <= b.len() && body.is_char_boundary(s) && body.is_char_boundary(e) {
                    scan(body, b, s, e, &mut found);
                } else {
                    assert(link_views(found@) =~= link_views(found@) + Seq::<LinkView>::empty());
                }
            },
            _ => {
                assert(link_views(found@) =~= link_views(found@) + Seq::<LinkView>::empty());
            },
        }
        i = i + 1;
    }
    proof {
        assert(nodes@.take(nodes.len() as int) =~= nodes@);
    }
    sort_by_start(found)
}

/// Each value of `s` once, at its first appearance.
pub open spec fn first_appearances(s: Seq<u128>) -> Seq<u128>
    decreases s.len(),
{
    if s.len() == 0 {
        Seq::empty()
    } else if first_appearances(s.drop_last()).contains(s.last()) {
        first_appearances(s.drop_last())
    } else {
        first_appearances(s.drop_last()).push(s.last())
    }
}

/// The targets of some links.
pub open spec fn link_targets(ls: Seq<LinkView>) -> Seq<u128> {
    ls.map_values(|l: LinkView| l.0)
}

/// Whether a list of ids holds `v`.
fn holds_id(ids: &Vec<NoteId>, v: u128) -> (b: bool)
    ensures
        b == ids@.map_values(|i: NoteId| i.spec_value()).contains(v),
{
    let mut k: usize = 0;
    while k < ids.len()
        invariant
            k <= ids.len(),
            forall|q: int| 0 <= q < k ==> (#[trigger] ids@[q]).spec_value() != v,
        decreases ids.len() - k,
    {
        if ids[k].as_u128() == v {
            assert(ids@.map_values(|i: NoteId| i.spec_value())[k as int] == v);
            return true;
        }
        k = k + 1;
    }
    proof {
        let vs = ids@.map_values(|i: NoteId| i.spec_value());
        if vs.contains(v) {
            let q = choose|q: int| 0 <= q < vs.len() && vs[q] == v;
            assert(ids@[q].spec_value() == v);
        }
    }
    false
}

/// The distinct link targets in a body, in first-appearance order: the note's edge set.
pub fn distinct_targets(body: &str) -> (ids: Vec<NoteId>)
    ensures
        ids@.map_values(|i: NoteId| i.spec_value()) == first_appearances(link_targets(body_links(body@))),
{
    let links = extract(body);
    let ghost ts = link_targets(link_views(links@));
    let mut ids: Vec<NoteId> = Vec::new();
    let mut i: usize = 0;
    proof {
        assert(ts.take(0) =~= Seq::<u128>::empty());
    }
    while i < links.len()
        invariant
            i <= links.len(),
            ts == link_targets(link_views(links@)),
            ids@.map_values(|x: NoteId| x.spec_value()) == first_appearances(ts.take(i as int)),
        decreases links.len() - i,
    {
        let target = links[i].target;
        proof {
            assert(ts.take(i + 1).drop_last() =~= ts.take(i as int));
            assert(ts.take(i + 1).last() == target.spec_value());
        }
        let ghost before = ids@;
        if !holds_id(&ids, target.as_u128()) {
            ids.push(target);
            assert(ids@.map_values(|x: NoteId| x.spec_value()) =~= before.map_values(|x: NoteId| x.spec_value()).push(target.spec_value()));
        }
        i = i + 1;
    }
    proof {
        assert(ts.take(links.len() as int) =~= ts);
    }
    ids
}

} // verus!
