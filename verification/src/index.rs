//! The decisions the index's incremental scan makes, apart from the database that holds its rows.
//!
//! The index is a rebuildable cache of what a vault scan found: change detection by
//! `(size, mtime_ns)` first and a content hash when that disagrees, and persistence of records
//! between processes. Nothing lives only in the database: every column is derived from a file.
//! What is here is what a sync decides for each file and what it hands the database.
//!
//! Paths are stored relative to the workspace root with forward slashes, so the database
//! survives being carried between machines.

use vstd::prelude::*;
use vstd::string::{StrSliceExecFns, StringExecFns};
use vstd::utf8::encode_utf8;

use crate::error::{Error, is_io_error, message_head};
use crate::frontmatter::{EntryView, FrontmatterSchema, Role, first_with_key, id_value, opt_text, role_text, type_text};
use crate::note::{NoteId, NoteMeta, uuid_text_value, v7_created_at};
use crate::query::{State, parse_state, state_text};
use crate::snapshot::{Problem, ProblemView, Record, RecordView, Snapshot, content, list_content, problem_views, reads_as, record_at, root_in, texts};
use std::collections::BTreeMap;


verus! {

broadcast use {vstd::laws_cmp::group_laws_cmp, vstd::std_specs::btree::group_btree_axioms};

// =============================================================================================
// Paths relative to the root
// =============================================================================================

/// Where the piece of `p` that starts at `i` ends: the next `/`, or the end.
pub open spec fn seg_end(p: Seq<char>, i: int) -> int
    decreases p.len() - i,
{
    if i < 0 || i >= p.len() {
        p.len() as int
    } else if p[i] == '/' {
        i
    } else {
        seg_end(p, i + 1)
    }
}

/// The components of `p` from `i` on: the pieces between separators, with repeated separators
/// ignored and `.` normalized away unless it begins a relative path.
pub open spec fn comps_from(p: Seq<char>, i: int, at_start: bool) -> Seq<Seq<char>>
    decreases p.len() - i,
{
    if i < 0 || i >= p.len() {
        Seq::empty()
    } else if p[i] == '/' {
        comps_from(p, i + 1, false)
    } else {
        let e = seg_end(p, i);
        if e <= i || e > p.len() {
            Seq::empty()
        } else if p.subrange(i, e) == seq!['.'] && !at_start {
            comps_from(p, e, false)
        } else {
            seq![p.subrange(i, e)] + comps_from(p, e, false)
        }
    }
}

/// A path's components as `std::path::Path::components` documents them for a Unix path: the root
/// `/` first when the path is absolute, then its pieces.
pub open spec fn components(p: Seq<char>) -> Seq<Seq<char>> {
    if p.len() > 0 && p[0] == '/' {
        seq![seq!['/']] + comps_from(p, 1, false)
    } else {
        comps_from(p, 0, true)
    }
}

/// Components written out with `/` between them.
pub open spec fn joined(cs: Seq<Seq<char>>) -> Seq<char>
    decreases cs.len(),
{
    if cs.len() == 0 {
        Seq::empty()
    } else if cs.len() == 1 {
        cs[0]
    } else {
        joined(cs.drop_last()) + seq!['/'] + cs.last()
    }
}

/// A note's path as the index stores it: its components after the root's, forward-slashed. A
/// path the root's components do not begin is kept whole rather than mangled.
pub open spec fn relative_text(root: Seq<char>, path: Seq<char>) -> Seq<char> {
    let rc = components(root);
    let pc = components(path);
    joined(
        if rc.is_prefix_of(pc) {
            pc.skip(rc.len() as int)
        } else {
            pc
        },
    )
}

/// A piece that starts on something other than a separator is not empty, and ends in `p`.
proof fn lemma_seg_end(p: Seq<char>, i: int)
    requires
        0 <= i <= p.len(),
    ensures
        i <= seg_end(p, i) <= p.len(),
        i < p.len() && p[i] != '/' ==> seg_end(p, i) > i,
    decreases p.len() - i,
{
    if i < p.len() && p[i] != '/' {
        lemma_seg_end(p, i + 1);
    }
}

/// Where the piece of `p` that starts at `i` ends, found.
fn find_seg_end(p: &str, i: usize) -> (e: usize)
    requires
        i <= p@.len(),
    ensures
        e == seg_end(p@, i as int),
        i <= e <= p@.len(),
    decreases p@.len() - i,
{
    if i >= p.unicode_len() {
        p.unicode_len()
    } else if p.get_char(i) == '/' {
        i
    } else {
        find_seg_end(p, i + 1)
    }
}

/// The components of `p` from `i` on.
fn comps_exec(p: &str, i: usize, at_start: bool, out: &mut Vec<String>)
    requires
        i <= p@.len(),
    ensures
        final(out)@.map_values(|c: String| c@) == old(out)@.map_values(|c: String| c@) + comps_from(
            p@,
            i as int,
            at_start,
        ),
    decreases p@.len() - i,
{
    let ghost before = old(out)@.map_values(|c: String| c@);
    if i >= p.unicode_len() {
        assert(out@.map_values(|c: String| c@) =~= before + Seq::<Seq<char>>::empty());
    } else if p.get_char(i) == '/' {
        comps_exec(p, i + 1, false, out);
    } else {
        let e = find_seg_end(p, i);
        let seg = p.substring_char(i, e);
        let is_dot = e == i + 1 && p.get_char(i) == '.';
        proof {
            lemma_seg_end(p@, i as int);
            if is_dot {
                assert(seg@ =~= seq!['.']);
            } else if e == i + 1 {
                assert(seg@ != seq!['.']) by {
                    assert(seg@[0] != '.');
                }
            } else {
                assert(seg@.len() != 1);
            }
        }
        if is_dot && !at_start {
            comps_exec(p, e, false, out);
        } else {
            out.push(seg.to_owned());
            assert(out@.map_values(|c: String| c@) =~= before.push(seg@));
            comps_exec(p, e, false, out);
            assert(before.push(seg@) + comps_from(p@, e as int, false) =~= before + (seq![seg@]
                + comps_from(p@, e as int, false)));
        }
    }
}

/// The components of a path.
fn components_of(p: &str) -> (cs: Vec<String>)
    ensures
        cs@.map_values(|c: String| c@) == components(p@),
{
    let mut cs: Vec<String> = Vec::new();
    if p.unicode_len() > 0 && p.get_char(0) == '/' {
        let slash = "/";
        proof {
            reveal_strlit("/");
        }
        let root_piece = slash.to_owned();
        assert(root_piece@ =~= seq!['/']);
        cs.push(root_piece);
        assert(cs@.map_values(|c: String| c@) =~= seq![seq!['/']]);
        comps_exec(p, 1, false, &mut cs);
    } else {
        assert(cs@.map_values(|c: String| c@) =~= Seq::<Seq<char>>::empty());
        comps_exec(p, 0, true, &mut cs);
        assert(cs@.map_values(|c: String| c@) =~= comps_from(p@, 0, true));
    }
    cs
}

/// A note's path as the index stores it: relative to the workspace root, forward slashes. A path
/// outside the root is left alone rather than mangled.
pub fn rel_path(root: &str, path: &str) -> (r: String)
    ensures
        r@ == relative_text(root@, path@),
{
    let rc = components_of(root);
    let pc = components_of(path);
    let ghost rv = rc@.map_values(|c: String| c@);
    let ghost pv = pc@.map_values(|c: String| c@);
    let mut prefix = rc.len() <= pc.len();
    let mut k: usize = 0;
    while prefix && k < rc.len()
        invariant
            rv == rc@.map_values(|c: String| c@),
            pv == pc@.map_values(|c: String| c@),
            prefix ==> rc.len() <= pc.len(),
            k <= rc.len(),
            prefix ==> forall|q: int| 0 <= q < k ==> rv[q] == pv[q],
            !prefix ==> !rv.is_prefix_of(pv),
        decreases rc.len() - k + if prefix { 1int } else { 0int },
    {
        if !crate::text::str_eq(rc[k].as_str(), pc[k].as_str()) {
            proof {
                assert(rv[k as int] != pv[k as int]);
            }
            prefix = false;
        } else {
            k = k + 1;
        }
    }
    proof {
        if prefix {
            assert(rv =~= pv.take(rv.len() as int));
        }
    }
    let start = if prefix {
        rc.len()
    } else {
        0
    };
    let ghost kept = pv.skip(start as int);
    proof {
        if !prefix {
            assert(kept =~= pv);
        }
    }
    let mut out = String::new();
    let mut j: usize = start;
    while j < pc.len()
        invariant
            pv == pc@.map_values(|c: String| c@),
            start <= j <= pc.len(),
            kept == pv.skip(start as int),
            out@ == joined(kept.take(j - start)),
        decreases pc.len() - j,
    {
        let ghost before = out@;
        if j > start {
            out.append("/");
            proof {
                reveal_strlit("/");
            }
        }
        out.append(pc[j].as_str());
        proof {
            let t = kept.take(j - start + 1);
            assert(t.drop_last() =~= kept.take(j - start));
            assert(t.last() == pv[j as int]);
            if j > start {
                assert(out@ =~= before + seq!['/'] + pv[j as int]);
            } else {
                assert(t =~= seq![pv[j as int]]);
                assert(out@ =~= pv[j as int]);
            }
        }
        j = j + 1;
    }
    proof {
        assert(kept.take(pc.len() - start) =~= kept);
    }
    out
}

/// `cur` with one more piece pushed the way `std::path::PathBuf::push` pushes a relative piece:
/// a separator first unless `cur` is empty or already ends in one.
pub open spec fn pushed(cur: Seq<char>, seg: Seq<char>) -> Seq<char> {
    if cur.len() > 0 && cur.last() != '/' {
        cur + seq!['/'] + seg
    } else {
        cur + seg
    }
}

/// The pieces of `s` between `/`s, empty ones included, as `str::split('/')` gives them.
pub open spec fn slash_pieces(s: Seq<char>) -> Seq<Seq<char>>
    decreases s.len(),
{
    if s.len() == 0 {
        seq![Seq::empty()]
    } else if s.last() == '/' {
        slash_pieces(s.drop_last()).push(Seq::empty())
    } else {
        let ps = slash_pieces(s.drop_last());
        ps.update(ps.len() - 1, ps.last().push(s.last()))
    }
}

/// `root` with each piece pushed in turn.
pub open spec fn pushed_all(root: Seq<char>, segs: Seq<Seq<char>>) -> Seq<char>
    decreases segs.len(),
{
    if segs.len() == 0 {
        root
    } else {
        pushed(pushed_all(root, segs.drop_last()), segs.last())
    }
}

/// There is always at least one piece.
proof fn lemma_slash_pieces_nonempty(s: Seq<char>)
    ensures
        slash_pieces(s).len() >= 1,
    decreases s.len(),
{
    if s.len() > 0 {
        lemma_slash_pieces_nonempty(s.drop_last());
    }
}

/// The inverse of [`rel_path`]: `rel`'s pieces pushed onto `root`.
pub fn abs_path(root: &str, rel: &str) -> (p: String)
    ensures
        p@ == pushed_all(root@, slash_pieces(rel@)),
{
    // Split `rel` into its pieces first.
    let n = rel.unicode_len();
    let mut pieces: Vec<String> = Vec::new();
    let mut piece_start: usize = 0;
    let mut i: usize = 0;
    proof {
        assert(rel@.take(0) =~= Seq::<char>::empty());
    }
    while i < n
        invariant
            n == rel@.len(),
            piece_start <= i <= n,
            pieces@.map_values(|c: String| c@).push(rel@.subrange(piece_start as int, i as int))
                == slash_pieces(rel@.take(i as int)),
        decreases n - i,
    {
        let ghost before = pieces@.map_values(|c: String| c@);
        proof {
            assert(rel@.take(i + 1).drop_last() =~= rel@.take(i as int));
            assert(rel@.take(i + 1).last() == rel@[i as int]);
        }
        if rel.get_char(i) == '/' {
            let ghost old_start = piece_start;
            pieces.push(rel.substring_char(piece_start, i).to_owned());
            piece_start = i + 1;
            proof {
                assert(pieces@.map_values(|c: String| c@) =~= before.push(
                    rel@.subrange(old_start as int, i as int),
                ));
                assert(rel@.subrange(piece_start as int, i + 1) =~= Seq::<char>::empty());
            }
        } else {
            proof {
                let ps = slash_pieces(rel@.take(i as int));
                assert(rel@.subrange(piece_start as int, i + 1) =~= rel@.subrange(piece_start as int, i as int).push(rel@[i as int]));
                assert(pieces@.map_values(|c: String| c@).push(rel@.subrange(piece_start as int, i + 1)) =~= ps.update(ps.len() - 1, ps.last().push(rel@[i as int])));
            }
        }
        i = i + 1;
    }
    pieces.push(rel.substring_char(piece_start, n).to_owned());
    proof {
        assert(rel@.take(n as int) =~= rel@);
    }
    let ghost segs = pieces@.map_values(|c: String| c@);
    assert(segs == slash_pieces(rel@));
    let mut path = root.to_owned();
    let mut k: usize = 0;
    proof {
        assert(segs.take(0) =~= Seq::<Seq<char>>::empty());
    }
    while k < pieces.len()
        invariant
            segs == pieces@.map_values(|c: String| c@),
            k <= pieces.len(),
            path@ == pushed_all(root@, segs.take(k as int)),
        decreases pieces.len() - k,
    {
        proof {
            assert(segs.take(k + 1).drop_last() =~= segs.take(k as int));
            assert(segs.take(k + 1).last() == pieces@[k as int]@);
        }
        let len = path.as_str().unicode_len();
        if len > 0 && path.as_str().get_char(len - 1) != '/' {
            path.append("/");
            proof {
                reveal_strlit("/");
            }
        }
        path.append(pieces[k].as_str());
        k = k + 1;
    }
    proof {
        assert(segs.take(pieces.len() as int) =~= segs);
    }
    path
}

// =============================================================================================
// The inverse of a relative path
// =============================================================================================

/// A piece a relative path may hold: not empty, no separator, and not `.`, which a path
/// normalizes away.
pub open spec fn normal_piece(s: Seq<char>) -> bool {
    s.len() > 0 && !s.contains('/') && s != seq!['.']
}

/// Pieces that are all [`normal_piece`]s.
pub open spec fn normal_pieces(ps: Seq<Seq<char>>) -> bool {
    forall|k: int| 0 <= k < ps.len() ==> normal_piece(#[trigger] ps[k])
}

/// A piece with no separator from `i` on ends at the end.
proof fn lemma_seg_end_no_slash(p: Seq<char>, i: int)
    requires
        0 <= i <= p.len(),
        forall|j: int| i <= j < p.len() ==> p[j] != '/',
    ensures
        seg_end(p, i) == p.len(),
    decreases p.len() - i,
{
    if i < p.len() {
        lemma_seg_end_no_slash(p, i + 1);
    }
}

/// Before the separator joining `x` and `y`, a piece ends where it ends in `x`.
proof fn lemma_seg_end_before(x: Seq<char>, y: Seq<char>, i: int)
    requires
        0 <= i <= x.len(),
    ensures
        seg_end(x + seq!['/'] + y, i) == seg_end(x, i),
    decreases x.len() - i,
{
    let p = x + seq!['/'] + y;
    if i < x.len() {
        assert(p[i] == x[i]);
        if x[i] != '/' {
            lemma_seg_end_before(x, y, i + 1);
        }
    } else {
        assert(p[i] == '/');
    }
}

/// After the separator joining `x` and `y`, pieces end where they end in `y`, shifted.
proof fn lemma_seg_end_after(x: Seq<char>, y: Seq<char>, j: int)
    requires
        0 <= j <= y.len(),
    ensures
        seg_end(x + seq!['/'] + y, x.len() + 1 + j) == x.len() + 1 + seg_end(y, j),
    decreases y.len() - j,
{
    let p = x + seq!['/'] + y;
    if j < y.len() {
        assert(p[x.len() + 1 + j] == y[j]);
        if y[j] != '/' {
            lemma_seg_end_after(x, y, j + 1);
        }
    }
}

/// The components of `x`, a separator and `y`, read from inside `x`: those of `x` from there,
/// then those after `x`.
proof fn lemma_comps_before(x: Seq<char>, y: Seq<char>, i: int, at: bool)
    requires
        0 <= i <= x.len(),
    ensures
        comps_from(x + seq!['/'] + y, i, at) == comps_from(x, i, at) + comps_from(
            x + seq!['/'] + y,
            x.len() as int,
            false,
        ),
    decreases x.len() - i,
{
    let p = x + seq!['/'] + y;
    let rest = comps_from(p, x.len() as int, false);
    if i == x.len() {
        assert(p[i] == '/');
        assert(comps_from(x, i, at) =~= Seq::<Seq<char>>::empty());
        assert(comps_from(x, i, at) + rest =~= rest);
    } else {
        assert(p[i] == x[i]);
        if x[i] == '/' {
            lemma_comps_before(x, y, i + 1, false);
        } else {
            lemma_seg_end(x, i);
            lemma_seg_end_before(x, y, i);
            let e = seg_end(x, i);
            assert(p.subrange(i, e) =~= x.subrange(i, e));
            lemma_comps_before(x, y, e, false);
            if !(x.subrange(i, e) == seq!['.'] && !at) {
                assert(seq![x.subrange(i, e)] + (comps_from(x, e, false) + rest) =~= (seq![
                    x.subrange(i, e),
                ] + comps_from(x, e, false)) + rest);
            }
        }
    }
}

/// The components after the separator joining `x` and `y` are those of `y`.
proof fn lemma_comps_after(x: Seq<char>, y: Seq<char>, j: int, at: bool)
    requires
        0 <= j <= y.len(),
    ensures
        comps_from(x + seq!['/'] + y, x.len() + 1 + j, at) == comps_from(y, j, at),
    decreases y.len() - j,
{
    let p = x + seq!['/'] + y;
    let off = x.len() + 1;
    if j < y.len() {
        assert(p[off + j] == y[j]);
        if y[j] == '/' {
            lemma_comps_after(x, y, j + 1, false);
        } else {
            lemma_seg_end(y, j);
            lemma_seg_end_after(x, y, j);
            let e = seg_end(y, j);
            assert(p.subrange(off + j, off + e) =~= y.subrange(j, e));
            lemma_comps_after(x, y, e, false);
        }
    }
}

/// The components of `x`, a separator and `y`, from `i` inside `x`: those of `x`, then those of
/// `y`.
proof fn lemma_comps_join(x: Seq<char>, y: Seq<char>, i: int, at: bool)
    requires
        0 <= i <= x.len(),
    ensures
        comps_from(x + seq!['/'] + y, i, at) == comps_from(x, i, at) + comps_from(y, 0, false),
{
    let p = x + seq!['/'] + y;
    lemma_comps_before(x, y, i, at);
    assert(p[x.len() as int] == '/');
    lemma_comps_after(x, y, 0, false);
}

/// A normal piece is one component.
proof fn lemma_comps_of_piece(y: Seq<char>)
    requires
        normal_piece(y),
    ensures
        comps_from(y, 0, false) == seq![y],
{
    assert forall|j: int| 0 <= j < y.len() implies y[j] != '/' by {
        if y[j] == '/' {
            assert(y.contains('/'));
        }
    }
    lemma_seg_end_no_slash(y, 0);
    assert(y.subrange(0, y.len() as int) =~= y);
    assert(comps_from(y, y.len() as int, false) =~= Seq::<Seq<char>>::empty());
    assert(seq![y] + Seq::<Seq<char>>::empty() =~= seq![y]);
}

/// Normal pieces written out with separators read back as those pieces.
proof fn lemma_comps_of_joined(ps: Seq<Seq<char>>)
    requires
        ps.len() >= 1,
        normal_pieces(ps),
    ensures
        comps_from(joined(ps), 0, false) == ps,
    decreases ps.len(),
{
    assert(normal_piece(ps[ps.len() - 1]));
    if ps.len() == 1 {
        lemma_comps_of_piece(ps[0]);
        assert(seq![ps[0]] =~= ps);
    } else {
        let dl = ps.drop_last();
        assert forall|k: int| 0 <= k < dl.len() implies normal_piece(#[trigger] dl[k]) by {
            assert(dl[k] == ps[k]);
        }
        lemma_comps_of_joined(dl);
        lemma_comps_join(joined(dl), ps.last(), 0, false);
        lemma_comps_of_piece(ps.last());
        assert(dl + seq![ps.last()] =~= ps);
    }
}

/// Text with no separator is one piece.
proof fn lemma_slash_pieces_plain(s: Seq<char>)
    requires
        !s.contains('/'),
    ensures
        slash_pieces(s) == seq![s],
    decreases s.len(),
{
    if s.len() > 0 {
        let d = s.drop_last();
        assert(!d.contains('/')) by {
            if d.contains('/') {
                let k = choose|k: int| 0 <= k < d.len() && d[k] == '/';
                assert(s[k] == '/');
            }
        }
        lemma_slash_pieces_plain(d);
        assert(s.last() != '/') by {
            if s.last() == '/' {
                assert(s[s.len() - 1] == '/');
            }
        }
        assert(d.push(s.last()) =~= s);
    } else {
        assert(s =~= Seq::<char>::empty());
    }
}

/// Split after a separator, the last piece is what follows it.
proof fn lemma_slash_pieces_join(x: Seq<char>, y: Seq<char>)
    requires
        !y.contains('/'),
    ensures
        slash_pieces(x + seq!['/'] + y) == slash_pieces(x).push(y),
    decreases y.len(),
{
    let s = x + seq!['/'] + y;
    if y.len() == 0 {
        assert(s.drop_last() =~= x);
        assert(y =~= Seq::<char>::empty());
    } else {
        let yd = y.drop_last();
        assert(!yd.contains('/')) by {
            if yd.contains('/') {
                let k = choose|k: int| 0 <= k < yd.len() && yd[k] == '/';
                assert(y[k] == '/');
            }
        }
        lemma_slash_pieces_join(x, yd);
        assert(s.drop_last() =~= x + seq!['/'] + yd);
        assert(s.last() == y.last());
        assert(y.last() != '/') by {
            if y.last() == '/' {
                assert(y[y.len() - 1] == '/');
            }
        }
        lemma_slash_pieces_nonempty(x);
        assert(yd.push(y.last()) =~= y);
    }
}

/// Normal pieces written out with separators split back into those pieces.
proof fn lemma_slash_pieces_of_joined(ps: Seq<Seq<char>>)
    requires
        ps.len() >= 1,
        normal_pieces(ps),
    ensures
        slash_pieces(joined(ps)) == ps,
    decreases ps.len(),
{
    assert(normal_piece(ps[ps.len() - 1]));
    if ps.len() == 1 {
        lemma_slash_pieces_plain(ps[0]);
        assert(seq![ps[0]] =~= ps);
    } else {
        let dl = ps.drop_last();
        assert forall|k: int| 0 <= k < dl.len() implies normal_piece(#[trigger] dl[k]) by {
            assert(dl[k] == ps[k]);
        }
        lemma_slash_pieces_of_joined(dl);
        lemma_slash_pieces_join(joined(dl), ps.last());
        assert(dl.push(ps.last()) =~= ps);
    }
}

/// Normal pieces written out end in a character that is not a separator.
proof fn lemma_joined_ends_plain(ps: Seq<Seq<char>>)
    requires
        ps.len() >= 1,
        normal_pieces(ps),
    ensures
        joined(ps).len() > 0,
        joined(ps).last() != '/',
    decreases ps.len(),
{
    let l = ps[ps.len() - 1];
    assert(normal_piece(l));
    assert(l.last() != '/') by {
        if l.last() == '/' {
            assert(l[l.len() - 1] == '/');
        }
    }
    if ps.len() > 1 {
        assert(ps.last() == l);
        let j = joined(ps.drop_last()) + seq!['/'] + ps.last();
        assert(j.last() == l.last());
    }
}

/// Pieces pushed onto a root that does not end in a separator are the root, a separator, and the
/// pieces written out.
proof fn lemma_pushed_all_joined(root: Seq<char>, ps: Seq<Seq<char>>)
    requires
        root.len() > 0,
        root.last() != '/',
        ps.len() >= 1,
        normal_pieces(ps),
    ensures
        pushed_all(root, ps) == root + seq!['/'] + joined(ps),
    decreases ps.len(),
{
    if ps.len() == 1 {
        assert(ps.drop_last() =~= Seq::<Seq<char>>::empty());
        assert(pushed_all(root, ps.drop_last()) == root);
        assert(ps.last() == ps[0]);
        assert(pushed_all(root, ps) == pushed(root, ps[0]));
    } else {
        let dl = ps.drop_last();
        assert forall|k: int| 0 <= k < dl.len() implies normal_piece(#[trigger] dl[k]) by {
            assert(dl[k] == ps[k]);
        }
        lemma_pushed_all_joined(root, dl);
        assert(pushed_all(root, ps) == pushed(pushed_all(root, dl), ps.last()));
        lemma_joined_ends_plain(dl);
        let cur = root + seq!['/'] + joined(dl);
        assert(cur.last() == joined(dl).last());
        assert(cur + seq!['/'] + ps.last() =~= root + seq!['/'] + (joined(dl) + seq!['/']
            + ps.last()));
    }
}

/// A note's relative path survives being joined onto the root and made relative again: for a
/// root that does not end in a separator and a relative path of normal pieces, `rel_path` of
/// `abs_path` is the relative path itself.
pub proof fn lemma_rel_path_inverts_abs_path(root: Seq<char>, ps: Seq<Seq<char>>)
    requires
        root.len() > 0,
        root.last() != '/',
        ps.len() >= 1,
        normal_pieces(ps),
    ensures
        relative_text(root, pushed_all(root, slash_pieces(joined(ps)))) == joined(ps),
{
    lemma_slash_pieces_of_joined(ps);
    lemma_pushed_all_joined(root, ps);
    let j = joined(ps);
    let p = root + seq!['/'] + j;
    lemma_comps_of_joined(ps);
    assert(p[0] == root[0]);
    if root[0] == '/' {
        lemma_comps_join(root, j, 1, false);
        assert(components(p) =~= components(root) + ps);
    } else {
        lemma_comps_join(root, j, 0, true);
        assert(components(p) =~= components(root) + ps);
    }
    let rc = components(root);
    assert(rc.is_prefix_of(components(p))) by {
        assert(components(p).take(rc.len() as int) =~= rc);
    }
    assert(components(p).skip(rc.len() as int) =~= ps);
}

// =============================================================================================
// Entries
// =============================================================================================

/// One note as the index holds it: the record, plus the columns that exist only so the next scan
/// can decide whether to read the file at all.
pub struct Entry {
    /// What the scan found, or what the index remembered.
    pub record: Record,
    /// `record.path` as the index stores it, relative to the root.
    pub rel: String,
    /// File size in bytes: half of the fast path.
    pub size: u64,
    /// Modification time in nanoseconds since the epoch, or `None` when the platform will not
    /// report one, in which case the hash is the only check there is.
    pub mtime_ns: Option<i64>,
    /// blake3 of the file's bytes, hex. What makes trusting mtime safe.
    pub hash: String,
    /// The whole frontmatter block as a JSON object, keyed by the key as written.
    pub raw: String,
    /// The root the row already holds; `None` for an entry the scan has just built.
    pub stored_root: Option<NoteId>,
}

/// What an entry holds, as plain values.
pub struct EntryRow {
    pub record: RecordView,
    pub rel: Seq<char>,
    pub size: u64,
    pub mtime_ns: Option<i64>,
    pub hash: Seq<char>,
    pub raw: Seq<char>,
    pub stored_root: Option<u128>,
}

impl View for Entry {
    type V = EntryRow;

    open spec fn view(&self) -> EntryRow {
        EntryRow {
            record: self.record@,
            rel: self.rel@,
            size: self.size,
            mtime_ns: self.mtime_ns,
            hash: self.hash@,
            raw: self.raw@,
            stored_root: id_value(self.stored_root),
        }
    }
}

/// An instant as the index stores it: nanoseconds in an `i64`, which carries the years 1677 to
/// 2262; an instant outside them has none.
pub open spec fn nanos_of(t: Option<i128>) -> Option<i64> {
    match t {
        Some(n) => if i64::MIN <= n && n <= i64::MAX {
            Some(n as i64)
        } else {
            None
        },
        None => None,
    }
}

/// An instant as the index stores it.
pub fn to_nanos(t: i128) -> (n: Option<i64>)
    ensures
        n == nanos_of(Some(t)),
{
    if i64::MIN as i128 <= t && t <= i64::MAX as i128 {
        Some(t as i64)
    } else {
        None
    }
}

/// The inverse of [`to_nanos`].
pub fn from_nanos(n: i64) -> (t: i128)
    ensures
        t == n,
        nanos_of(Some(t)) == Some(n),
{
    n as i128
}

impl Entry {
    /// Whether `stat` says this file is unchanged since the index last read it. A `None` mtime,
    /// now or when the row was written, never matches: size alone is not a change detector.
    pub fn looks_unchanged(&self, size: u64, mtime_ns: Option<i64>) -> (b: bool)
        ensures
            b == (self.size == size && self.mtime_ns is Some && self.mtime_ns == mtime_ns),
    {
        self.size == size && match (self.mtime_ns, mtime_ns) {
            (Some(a), Some(b)) => a == b,
            _ => false,
        }
    }

    /// A copy of this entry.
    pub fn copy(&self) -> (e: Entry)
        ensures
            e@ == self@,
            e.record.meta == self.record.meta,
    {
        Entry {
            record: self.record.copy(),
            rel: self.rel.clone(),
            size: self.size,
            mtime_ns: self.mtime_ns,
            hash: self.hash.clone(),
            raw: self.raw.clone(),
            stored_root: self.stored_root,
        }
    }
}

/// A reused record with the three fields it takes from this scan rather than from the row: the
/// file may have moved, and a touched file's mtime is new. Its root is cleared, for the walk over
/// the whole vault to fill.
pub open spec fn settled(v: RecordView, path: Seq<char>, state: State, edited_at: Option<i128>) -> RecordView {
    RecordView { path, state, edited_at, root: None, ..v }
}

/// Overwrite the fields a reused record must take from this scan rather than from the row.
pub fn settle(record: &mut Record, path: &str, state: State, edited_at: Option<i128>)
    ensures
        final(record)@ == settled(old(record)@, path@, state, edited_at),
        final(record).meta.id == old(record).meta.id,
{
    record.path = path.to_owned();
    record.state = state;
    record.edited_at = edited_at;
    record.meta.root = None;
}

// =============================================================================================
// Hashes
// =============================================================================================

/// blake3 of `bytes`, in lowercase hex.
pub uninterp spec fn blake3_hex(bytes: Seq<u8>) -> Seq<char>;

/// `blake3::hash`, rendered by `Hash::to_hex`: the digest of the bytes as 64 lowercase hex
/// digits. Claimed: the text is the one `blake3_hex` names for these bytes, and 64 long.
#[verifier::external_body]
fn content_hash(bytes: &[u8]) -> (h: String)
    ensures
        h@ == blake3_hex(bytes@),
        h@.len() == 64,
{
    blake3::hash(bytes).to_hex().to_string()
}

/// What one schema entry contributes to the fingerprint: its key, a NUL, its declared type, a
/// byte for whether it is required, and a newline.
pub open spec fn entry_fingerprint(e: EntryView) -> Seq<u8> {
    encode_utf8(e.key) + seq![0u8] + encode_utf8(type_text(e.field_type)) + seq![
        if e.required {
            1u8
        } else {
            0u8
        },
    ] + seq![10u8]
}

/// The bytes a schema's fingerprint digests: each entry's contribution, in manifest order.
pub open spec fn fingerprint_bytes(es: Seq<EntryView>) -> Seq<u8>
    decreases es.len(),
{
    if es.len() == 0 {
        Seq::empty()
    } else {
        fingerprint_bytes(es.drop_last()) + entry_fingerprint(es.last())
    }
}

/// `out` with `bytes` appended.
fn append_bytes(out: &mut Vec<u8>, bytes: &[u8])
    ensures
        final(out)@ == old(out)@ + bytes@,
{
    let mut i: usize = 0;
    while i < bytes.len()
        invariant
            i <= bytes.len(),
            out@ == old(out)@ + bytes@.take(i as int),
        decreases bytes.len() - i,
    {
        out.push(bytes[i]);
        proof {
            assert(bytes@.take(i + 1) =~= bytes@.take(i as int).push(bytes@[i as int]));
        }
        i = i + 1;
    }
    assert(bytes@.take(bytes.len() as int) =~= bytes@);
}

/// A stable digest of everything about a schema that changes what a note's row means: each
/// key, its declared type and whether it is required, in manifest order. A manifest edit that
/// changes it invalidates every cached row.
pub fn fingerprint_of(schema: &FrontmatterSchema) -> (f: String)
    ensures
        f@ == blake3_hex(fingerprint_bytes(schema@)),
{
    let entries = schema.entries();
    let ghost es = schema@;
    let mut bytes: Vec<u8> = Vec::new();
    let mut i: usize = 0;
    proof {
        assert(es.take(0) =~= Seq::<EntryView>::empty());
    }
    while i < entries.len()
        invariant
            i <= entries.len(),
            crate::frontmatter::entry_views(entries@) == es,
            bytes@ == fingerprint_bytes(es.take(i as int)),
        decreases entries.len() - i,
    {
        let entry = &entries[i];
        let ghost before = bytes@;
        proof {
            assert(es[i as int] == entry@);
            assert(es.take(i + 1).drop_last() =~= es.take(i as int));
        }
        append_bytes(&mut bytes, entry.key().as_bytes());
        append_bytes(&mut bytes, &[0u8]);
        let ty = entry.field_type().as_str();
        append_bytes(&mut bytes, ty.as_str().as_bytes());
        if entry.is_required() {
            append_bytes(&mut bytes, &[1u8]);
        } else {
            append_bytes(&mut bytes, &[0u8]);
        }
        append_bytes(&mut bytes, &[10u8]);
        proof {
            assert(bytes@ =~= before + entry_fingerprint(es[i as int]));
        }
        i = i + 1;
    }
    proof {
        assert(es.take(entries.len() as int) =~= es);
    }
    content_hash(bytes.as_slice())
}

// =============================================================================================
// One file
// =============================================================================================

/// An entry, and what it cost to get.
pub struct Read {
    /// The entry.
    pub entry: Entry,
    /// Whether the index needs to be told: `false` only on the fast path, where nothing about
    /// the row changed.
    pub fresh: bool,
    /// Whether the file's bytes were read.
    pub read: bool,
    /// Whether they were parsed: the expensive one.
    pub reparsed: bool,
}

/// A file this scan cannot turn into a row. Not an error: it becomes a problem.
pub struct Unindexable {
    /// Why.
    pub message: String,
}

/// The fast path: the file looks untouched, so its cached entry is reused, with this scan's
/// path, state and mtime, and the file is never opened. Otherwise the cached entry, if any, is
/// handed back for the file to be read.
pub fn reuse_unread(
    cached: Option<Entry>,
    path: &str,
    state: State,
    size: u64,
    edited_at: Option<i128>,
) -> (r: Result<Read, Option<Entry>>)
    ensures
        match cached {
            Some(e) => if e.size == size && e.mtime_ns is Some && e.mtime_ns == nanos_of(edited_at) {
                r matches Ok(read) && read.entry@ == (EntryRow {
                    record: settled(e.record@, path@, state, edited_at),
                    ..e@
                }) && !read.fresh && !read.read && !read.reparsed
            } else {
                r == Err::<Read, Option<Entry>>(Some(e))
            },
            None => r == Err::<Read, Option<Entry>>(None::<Entry>),
        },
{
    let mtime_ns = match edited_at {
        Some(t) => to_nanos(t),
        None => None,
    };
    match cached {
        Some(e) => {
            if e.looks_unchanged(size, mtime_ns) {
                let mut entry = e;
                settle(&mut entry.record, path, state, edited_at);
                Ok(Read { entry, fresh: false, read: false, reparsed: false })
            } else {
                Err(Some(e))
            }
        },
        None => Err(None),
    }
}

/// What a file that had to be parsed comes to: the parse's error; or, once it parsed, the error
/// rendering its frontmatter block as JSON; or a fresh entry for the record, with no root stored
/// yet.
pub open spec fn parsed_entry(
    parsed: Result<Record, Error>,
    raw: Result<Seq<char>, Seq<char>>,
    rel: Seq<char>,
    size: u64,
    edited_at: Option<i128>,
    hash: Seq<char>,
    r: Result<Read, Unindexable>,
) -> bool {
    match parsed {
        Err(e) => r matches Err(u) && u.message@.len() >= message_head(e).len()
            && u.message@.subrange(0, message_head(e).len() as int) == message_head(e) && (
        !is_io_error(e) ==> u.message@ == message_head(e)),
        Ok(rec) => match raw {
            Err(m) => r matches Err(u) && u.message@ == m,
            Ok(j) => r matches Ok(read) && read.entry@ == (EntryRow {
                record: rec@,
                rel,
                size,
                mtime_ns: nanos_of(edited_at),
                hash,
                raw: j,
                stored_root: None,
            }) && read.fresh && read.read && read.reparsed,
        },
    }
}

/// Whether the cached entry's hash is the hash of these bytes.
pub open spec fn same_bytes(cached: Option<Entry>, bytes: Seq<u8>) -> bool {
    cached matches Some(e) && e.hash@ == blake3_hex(bytes)
}

/// A file whose bytes were read. When they hash as the cached entry's did, mtime lied and the
/// bytes did not change: the entry is reused with this scan's path, state, size and mtime, and
/// nothing is parsed. Otherwise the file genuinely changed, or the index never saw it, and it is
/// parsed under `schema`, and its frontmatter block is stored as a JSON object.
pub fn read_bytes(
    schema: &FrontmatterSchema,
    path: &str,
    rel: &str,
    state: State,
    size: u64,
    edited_at: Option<i128>,
    cached: Option<Entry>,
    bytes: &[u8],
) -> (r: Result<Read, Unindexable>)
    ensures
        same_bytes(cached, bytes@) ==> (r matches Ok(read) && read.entry@ == (EntryRow {
            record: settled(cached->0.record@, path@, state, edited_at),
            rel: rel@,
            size,
            mtime_ns: nanos_of(edited_at),
            ..cached->0@
        }) && read.fresh && read.read && !read.reparsed),
        !same_bytes(cached, bytes@) ==> exists|parsed: Result<Record, Error>|
            reads_as(schema@, path@, state, edited_at, bytes@, parsed) && parsed_entry(
                parsed,
                raw_json_of(path@, bytes@),
                rel@,
                size,
                edited_at,
                blake3_hex(bytes@),
                r,
            ),
{
    let mtime_ns = match edited_at {
        Some(t) => to_nanos(t),
        None => None,
    };
    let hash = content_hash(bytes);
    match cached {
        Some(e) => {
            if crate::text::str_eq(e.hash.as_str(), hash.as_str()) {
                let mut entry = e;
                settle(&mut entry.record, path, state, edited_at);
                entry.rel = rel.to_owned();
                entry.size = size;
                entry.mtime_ns = mtime_ns;
                return Ok(Read { entry, fresh: true, read: true, reparsed: false });
            }
        },
        None => {},
    }
    let parsed = record_at(schema, path, state, edited_at, bytes);
    match parsed {
        Err(err) => Err(Unindexable { message: err.to_string() }),
        Ok(record) => match raw_json(path, bytes) {
            Err(m) => Err(Unindexable { message: m }),
            Ok(j) => Ok(
                Read {
                    entry: Entry {
                        record,
                        rel: rel.to_owned(),
                        size,
                        mtime_ns,
                        hash,
                        raw: j,
                        stored_root: None,
                    },
                    fresh: true,
                    read: true,
                    reparsed: true,
                },
            ),
        },
    }
}

// =============================================================================================
// Undeclared keys, from the stored frontmatter
// =============================================================================================

/// The keys of `raw` read as a JSON object, in the order it writes them; `None` when it is not
/// one.
pub uninterp spec fn json_object_keys(raw: Seq<char>) -> Option<Seq<Seq<char>>>;

/// `serde_json::from_str` into a `serde_json::Map`, which keeps the order keys are written in,
/// then its keys. Claimed:
/// the keys, in the order the map holds them, are the ones `json_object_keys` names, and a text
/// that does not parse as an object gives `None`.
#[verifier::external_body]
fn object_keys(raw: &str) -> (ks: Option<Vec<String>>)
    ensures
        match ks {
            Some(v) => json_object_keys(raw@) == Some(texts(v@)),
            None => json_object_keys(raw@) is None,
        },
{
    match serde_json::from_str::<serde_json::Map<String, serde_json::Value>>(raw) {
        Ok(map) => Some(map.keys().cloned().collect()),
        Err(_) => None,
    }
}

/// The keys among `ks` that `schema` declares no entry for, in order.
pub open spec fn undeclared_keys(ks: Seq<Seq<char>>, schema: Seq<EntryView>) -> Seq<Seq<char>>
    decreases ks.len(),
{
    if ks.len() == 0 {
        Seq::empty()
    } else if first_with_key(schema, ks.last(), 0, schema.len() as int) is Some {
        undeclared_keys(ks.drop_last(), schema)
    } else {
        undeclared_keys(ks.drop_last(), schema).push(ks.last())
    }
}

/// The frontmatter keys the stored block `raw` carries that the schema declares no entry for,
/// in the order the file writes them, answering to the schema as it is now. A block that will
/// not parse yields none: the file itself is still the truth.
pub fn undeclared_from(schema: &FrontmatterSchema, raw: &str) -> (us: Vec<String>)
    ensures
        texts(us@) == match json_object_keys(raw@) {
            Some(ks) => undeclared_keys(ks, schema@),
            None => Seq::empty(),
        },
{
    let keys = match object_keys(raw) {
        Some(ks) => ks,
        None => {
            return Vec::new();
        },
    };
    let ghost ks = texts(keys@);
    let mut us: Vec<String> = Vec::new();
    let mut i: usize = 0;
    proof {
        assert(ks.take(0) =~= Seq::<Seq<char>>::empty());
    }
    while i < keys.len()
        invariant
            i <= keys.len(),
            ks == texts(keys@),
            texts(us@) == undeclared_keys(ks.take(i as int), schema@),
        decreases keys.len() - i,
    {
        let key = keys[i].as_str();
        let ghost before = us@;
        proof {
            assert(ks.take(i + 1).drop_last() =~= ks.take(i as int));
            assert(ks.take(i + 1).last() == key@);
        }
        if !schema.contains(key) {
            us.push(key.to_owned());
            assert(texts(us@) =~= texts(before).push(key@));
        }
        i = i + 1;
    }
    proof {
        assert(ks.take(keys.len() as int) =~= ks);
    }
    us
}

// =============================================================================================
// One sync
// =============================================================================================

/// The cached paths no file answers to any more, in the cache's order: their rows go first, so
/// that a note that moved has its old row gone before its new path is written.
pub open spec fn gone(cached: Seq<Seq<char>>, present: Seq<Seq<char>>) -> Seq<Seq<char>>
    decreases cached.len(),
{
    if cached.len() == 0 {
        Seq::empty()
    } else if present.contains(cached.last()) {
        gone(cached.drop_last(), present)
    } else {
        gone(cached.drop_last(), present).push(cached.last())
    }
}

/// Whether `x` is among `ss`, found.
fn holds_text(ss: &Vec<String>, x: &str) -> (b: bool)
    ensures
        b == texts(ss@).contains(x@),
{
    let mut i: usize = 0;
    while i < ss.len()
        invariant
            i <= ss.len(),
            forall|q: int| 0 <= q < i ==> texts(ss@)[q] != x@,
        decreases ss.len() - i,
    {
        if crate::text::str_eq(ss[i].as_str(), x) {
            assert(texts(ss@)[i as int] == x@);
            return true;
        }
        i = i + 1;
    }
    false
}

/// The cached paths no file answers to any more.
pub fn gone_paths(cached: &Vec<String>, present: &Vec<String>) -> (g: Vec<String>)
    ensures
        texts(g@) == gone(texts(cached@), texts(present@)),
{
    let ghost cs = texts(cached@);
    let mut g: Vec<String> = Vec::new();
    let mut i: usize = 0;
    proof {
        assert(cs.take(0) =~= Seq::<Seq<char>>::empty());
    }
    while i < cached.len()
        invariant
            i <= cached.len(),
            cs == texts(cached@),
            texts(g@) == gone(cs.take(i as int), texts(present@)),
        decreases cached.len() - i,
    {
        let ghost before = g@;
        proof {
            assert(cs.take(i + 1).drop_last() =~= cs.take(i as int));
            assert(cs.take(i + 1).last() == cached@[i as int]@);
        }
        if !holds_text(present, cached[i].as_str()) {
            g.push(cached[i].clone());
            assert(texts(g@) =~= texts(before).push(cached@[i as int]@));
        }
        i = i + 1;
    }
    proof {
        assert(cs.take(cached.len() as int) =~= cs);
    }
    g
}

/// How much of the vault one scan had to look at.
#[derive(Debug, Clone, Copy, PartialEq, Eq, Structural)]
pub struct ScanCost {
    /// Files whose bytes were read, because `(size, mtime_ns)` did not match the index.
    pub read: usize,
    /// Files that were parsed, because the content hash did not match either.
    pub reparsed: usize,
}

impl Default for ScanCost {
    fn default() -> (c: ScanCost)
        ensures
            c.read == 0 && c.reparsed == 0,
    {
        ScanCost { read: 0, reparsed: 0 }
    }
}

/// The path of the first record in `recs` with id `id`.
pub open spec fn kept_path(recs: Seq<Record>, id: u128) -> Option<Seq<char>>
    decreases recs.len(),
{
    if recs.len() == 0 {
        None
    } else if recs[0].meta.id.spec_value() == id {
        Some(recs[0].path@)
    } else {
        kept_path(recs.drop_first(), id)
    }
}

/// The views of a list of entries.
pub open spec fn entry_rows(es: Seq<Entry>) -> Seq<EntryRow> {
    es.map_values(|e: Entry| e@)
}

/// A cost counter after one more file, when `b` says it counts: one more, held at the largest
/// count there is rather than wrapping.
pub open spec fn counted(n: usize, b: bool) -> usize {
    if b && n < usize::MAX {
        (n + 1) as usize
    } else {
        n
    }
}

/// [`counted`], computed.
fn count_one(n: usize, b: bool) -> (r: usize)
    ensures
        r == counted(n, b),
{
    if b && n < usize::MAX {
        n + 1
    } else {
        n
    }
}

/// What one sync has gathered so far, file by file in scan order: the records kept, the roots
/// their rows already hold, the problems raised, what reading cost, the rows to write, and the
/// paths whose rows must go.
pub struct SyncPlan {
    pub records: Vec<Record>,
    pub stored_roots: BTreeMap<u128, u128>,
    pub problems: Vec<Problem>,
    pub cost: ScanCost,
    pub writes: Vec<Entry>,
    pub evictions: Vec<String>,
}

/// The roots the snapshot derives that differ from what the rows hold: only those are written,
/// so that a quiet sync writes nothing.
pub open spec fn moved_upto(recs: Seq<Record>, stored: Map<u128, u128>, n: int) -> Seq<(u128, u128)>
    decreases n,
{
    if n <= 0 {
        Seq::empty()
    } else {
        let id = recs[n - 1].meta.id.spec_value();
        let root = root_in(recs, id);
        if stored.contains_key(id) && stored[id] == root {
            moved_upto(recs, stored, n - 1)
        } else {
            moved_upto(recs, stored, n - 1).push((id, root))
        }
    }
}

/// The values of a list of id pairs.
pub open spec fn id_pairs(ps: Seq<(NoteId, NoteId)>) -> Seq<(u128, u128)> {
    ps.map_values(|p: (NoteId, NoteId)| (p.0.spec_value(), p.1.spec_value()))
}

impl SyncPlan {
    /// Nothing gathered yet.
    pub fn new() -> (p: SyncPlan)
        ensures
            p.records@.len() == 0,
            p.stored_roots@ == Map::<u128, u128>::empty(),
            p.problems@.len() == 0,
            p.cost.read == 0 && p.cost.reparsed == 0,
            p.writes@.len() == 0,
            p.evictions@.len() == 0,
    {
        SyncPlan {
            records: Vec::new(),
            stored_roots: BTreeMap::new(),
            problems: Vec::new(),
            cost: ScanCost { read: 0, reparsed: 0 },
            writes: Vec::new(),
            evictions: Vec::new(),
        }
    }

    /// Where the first record kept with id `id` lives, found.
    fn kept(&self, id: NoteId) -> (k: Option<&String>)
        ensures
            match k {
                Some(p) => kept_path(self.records@, id.spec_value()) == Some(p@),
                None => kept_path(self.records@, id.spec_value()) is None,
            },
    {
        let ghost rs = self.records@;
        let mut i: usize = 0;
        assert(rs.skip(0) =~= rs);
        while i < self.records.len()
            invariant
                i <= self.records.len(),
                rs == self.records@,
                kept_path(rs, id.spec_value()) == kept_path(rs.skip(i as int), id.spec_value()),
            decreases self.records.len() - i,
        {
            proof {
                assert(rs.skip(i as int)[0] == rs[i as int]);
                assert(rs.skip(i as int).drop_first() =~= rs.skip(i + 1));
            }
            if self.records[i].meta.id.as_u128() == id.as_u128() {
                return Some(&self.records[i].path);
            }
            i = i + 1;
        }
        None
    }

    /// Take in the outcome of one file, in scan order. A file that could not be indexed is read
    /// and reported, and its row must go. A second file claiming an id already kept is reported
    /// naming the file kept, and its row must go. Anything else is kept; its entry is written
    /// if fresh, and the root its row holds remembered.
    pub fn take(&mut self, path: &str, rel: &str, outcome: Result<Read, Unindexable>)
        ensures
            match outcome {
                Err(u) => {
                    &&& final(self).cost.read == counted(old(self).cost.read, true)
                    &&& final(self).cost.reparsed == old(self).cost.reparsed
                    &&& problem_views(final(self).problems@) == problem_views(old(self).problems@).push(
                        ProblemView::Unreadable { path: path@, message: u.message@ },
                    )
                    &&& texts(final(self).evictions@) == texts(old(self).evictions@).push(rel@)
                    &&& final(self).records@ == old(self).records@
                    &&& final(self).writes@ == old(self).writes@
                    &&& final(self).stored_roots@ == old(self).stored_roots@
                },
                Ok(read) => {
                    let id = read.entry.record.meta.id.spec_value();
                    &&& final(self).cost.read == counted(old(self).cost.read, read.read)
                    &&& final(self).cost.reparsed == counted(old(self).cost.reparsed, read.reparsed)
                    &&& match kept_path(old(self).records@, id) {
                        Some(k) => {
                            &&& problem_views(final(self).problems@) == problem_views(
                                old(self).problems@,
                            ).push(ProblemView::DuplicateId { id, kept: k, ignored: path@ })
                            &&& texts(final(self).evictions@) == texts(old(self).evictions@).push(
                                rel@,
                            )
                            &&& final(self).records@ == old(self).records@
                            &&& final(self).writes@ == old(self).writes@
                            &&& final(self).stored_roots@ == old(self).stored_roots@
                        },
                        None => {
                            &&& final(self).problems@ == old(self).problems@
                            &&& final(self).evictions@ == old(self).evictions@
                            &&& final(self).records@ == old(self).records@.push(read.entry.record)
                            &&& entry_rows(final(self).writes@) == if read.fresh {
                                entry_rows(old(self).writes@).push(read.entry@)
                            } else {
                                entry_rows(old(self).writes@)
                            }
                            &&& final(self).stored_roots@ == match read.entry.stored_root {
                                Some(r) => old(self).stored_roots@.insert(id, r.spec_value()),
                                None => old(self).stored_roots@,
                            }
                        },
                    }
                },
            },
    {
        match outcome {
            Err(u) => {
                self.cost.read = count_one(self.cost.read, true);
                self.problems.push(Problem::Unreadable { path: path.to_owned(), message: u.message });
                self.evictions.push(rel.to_owned());
                proof {
                    assert(problem_views(self.problems@) =~= problem_views(old(self).problems@).push(
                        ProblemView::Unreadable { path: path@, message: u.message@ },
                    ));
                    assert(texts(self.evictions@) =~= texts(old(self).evictions@).push(rel@));
                }
            },
            Ok(read) => {
                self.cost.read = count_one(self.cost.read, read.read);
                self.cost.reparsed = count_one(self.cost.reparsed, read.reparsed);
                let id = read.entry.record.meta.id;
                match self.kept(id) {
                    Some(k) => {
                        let kept = k.clone();
                        self.problems.push(
                            Problem::DuplicateId { id, kept, ignored: path.to_owned() },
                        );
                        self.evictions.push(rel.to_owned());
                        proof {
                            assert(problem_views(self.problems@) =~= problem_views(
                                old(self).problems@,
                            ).push(
                                ProblemView::DuplicateId {
                                    id: id.spec_value(),
                                    kept: kept@,
                                    ignored: path@,
                                },
                            ));
                            assert(texts(self.evictions@) =~= texts(old(self).evictions@).push(
                                rel@,
                            ));
                        }
                    },
                    None => {
                        if read.fresh {
                            let w = read.entry.copy();
                            self.writes.push(w);
                            assert(entry_rows(self.writes@) =~= entry_rows(old(self).writes@).push(
                                read.entry@,
                            ));
                        }
                        match read.entry.stored_root {
                            Some(r) => {
                                self.stored_roots.insert(id.as_u128(), r.as_u128());
                            },
                            None => {},
                        }
                        self.records.push(read.entry.record);
                    },
                }
            },
        }
    }

    /// The snapshot of what was kept, and the roots it derives that differ from what the rows
    /// hold, for the index to write.
    pub fn finish(self) -> (r: (Snapshot, Vec<(NoteId, NoteId)>))
        ensures
            r.0.wf(),
            content(r.0.recs()) == list_content(self.records@),
            r.0.file_problem_list() == problem_views(self.problems@),
            id_pairs(r.1@) == moved_upto(r.0.recs(), self.stored_roots@, r.0.recs().len() as int),
    {
        let snapshot = Snapshot::from_parts(self.records, self.problems);
        let roots = snapshot.roots();
        let ghost recs = snapshot.recs();
        let mut moved: Vec<(NoteId, NoteId)> = Vec::new();
        let mut i: usize = 0;
        while i < roots.len()
            invariant
                i <= roots.len(),
                roots.len() == recs.len(),
                recs == snapshot.recs(),
                forall|p: int|
                    0 <= p < roots.len() ==> (#[trigger] roots@[p]).0 == recs[p].meta.id
                        && roots@[p].1.spec_value() == root_in(recs, recs[p].meta.id.spec_value()),
                id_pairs(moved@) == moved_upto(recs, self.stored_roots@, i as int),
            decreases roots.len() - i,
        {
            let (id, root) = roots[i];
            let ghost before = moved@;
            let same = match self.stored_roots.get(&id.as_u128()) {
                Some(held) => *held == root.as_u128(),
                None => false,
            };
            if !same {
                moved.push((id, root));
                assert(id_pairs(moved@) =~= id_pairs(before).push(
                    (id.spec_value(), root.spec_value()),
                ));
            }
            i = i + 1;
        }
        (snapshot, moved)
    }
}

// =============================================================================================
// Rows read back
// =============================================================================================

/// The texts of stored relation rows: `(from, role, to)`.
pub open spec fn text_triples(rows: Seq<(String, String, String)>) -> Seq<(Seq<char>, Seq<char>, Seq<char>)> {
    rows.map_values(|r: (String, String, String)| (r.0@, r.1@, r.2@))
}

/// The texts of stored link rows: `(from, to)`.
pub open spec fn text_pairs(rows: Seq<(String, String)>) -> Seq<(Seq<char>, Seq<char>)> {
    rows.map_values(|r: (String, String)| (r.0@, r.1@))
}

/// The declared relation edges per note, `(reply_to, quote)`, from relation rows read in order:
/// a row whose ids do not parse is skipped, and a role this build does not know is ignored.
pub open spec fn edges_upto(rows: Seq<(Seq<char>, Seq<char>, Seq<char>)>) -> Map<u128, (Option<u128>, Option<u128>)>
    decreases rows.len(),
{
    if rows.len() == 0 {
        Map::empty()
    } else {
        let m = edges_upto(rows.drop_last());
        let row = rows.last();
        match (uuid_text_value(row.0), uuid_text_value(row.2)) {
            (Some(a), Some(b)) => {
                let e = if m.contains_key(a) {
                    m[a]
                } else {
                    (None, None)
                };
                m.insert(
                    a,
                    if row.1 == role_text(Role::ReplyTo) {
                        (Some(b), e.1)
                    } else if row.1 == role_text(Role::QuoteTo) {
                        (e.0, Some(b))
                    } else {
                        e
                    },
                )
            },
            _ => m,
        }
    }
}

/// The declared relation edges per note, from the relation rows.
pub fn relation_edges(rows: &Vec<(String, String, String)>) -> (m: BTreeMap<u128, (Option<u128>, Option<u128>)>)
    ensures
        m@ == edges_upto(text_triples(rows@)),
{
    let ghost ts = text_triples(rows@);
    let mut m: BTreeMap<u128, (Option<u128>, Option<u128>)> = BTreeMap::new();
    let mut i: usize = 0;
    proof {
        assert(ts.take(0) =~= Seq::<(Seq<char>, Seq<char>, Seq<char>)>::empty());
    }
    while i < rows.len()
        invariant
            i <= rows.len(),
            ts == text_triples(rows@),
            m@ == edges_upto(ts.take(i as int)),
        decreases rows.len() - i,
    {
        let (f, role, t) = &rows[i];
        proof {
            assert(ts.take(i + 1).drop_last() =~= ts.take(i as int));
            assert(ts.take(i + 1).last() == (f@, role@, t@));
        }
        match (NoteId::parse(f.as_str()), NoteId::parse(t.as_str())) {
            (Some(a), Some(b)) => {
                let e = match m.get(&a.as_u128()) {
                    Some(e) => *e,
                    None => (None, None),
                };
                let ne = if crate::text::str_eq(role.as_str(), Role::ReplyTo.as_str()) {
                    (Some(b.as_u128()), e.1)
                } else if crate::text::str_eq(role.as_str(), Role::QuoteTo.as_str()) {
                    (e.0, Some(b.as_u128()))
                } else {
                    e
                };
                m.insert(a.as_u128(), ne);
            },
            _ => {},
        }
        i = i + 1;
    }
    proof {
        assert(ts.take(rows.len() as int) =~= ts);
    }
    m
}

/// The body links per note, from link rows read in order of note and position; a row whose ids
/// do not parse is skipped.
pub open spec fn links_upto(rows: Seq<(Seq<char>, Seq<char>)>) -> Map<u128, Seq<u128>>
    decreases rows.len(),
{
    if rows.len() == 0 {
        Map::empty()
    } else {
        let m = links_upto(rows.drop_last());
        let row = rows.last();
        match (uuid_text_value(row.0), uuid_text_value(row.1)) {
            (Some(a), Some(b)) => m.insert(
                a,
                if m.contains_key(a) {
                    m[a]
                } else {
                    Seq::empty()
                }.push(b),
            ),
            _ => m,
        }
    }
}

/// The id values of a map of id lists.
pub open spec fn id_lists(m: Map<u128, Vec<NoteId>>) -> Map<u128, Seq<u128>> {
    m.map_values(|v: Vec<NoteId>| crate::snapshot::id_values(v@))
}

/// The body links per note, from the link rows.
pub fn link_lists(rows: &Vec<(String, String)>) -> (m: BTreeMap<u128, Vec<NoteId>>)
    ensures
        id_lists(m@) == links_upto(text_pairs(rows@)),
{
    let ghost ts = text_pairs(rows@);
    let mut m: BTreeMap<u128, Vec<NoteId>> = BTreeMap::new();
    let mut i: usize = 0;
    proof {
        assert(ts.take(0) =~= Seq::<(Seq<char>, Seq<char>)>::empty());
        assert(id_lists(m@) =~= Map::<u128, Seq<u128>>::empty());
    }
    while i < rows.len()
        invariant
            i <= rows.len(),
            ts == text_pairs(rows@),
            id_lists(m@) == links_upto(ts.take(i as int)),
        decreases rows.len() - i,
    {
        let (f, t) = &rows[i];
        proof {
            assert(ts.take(i + 1).drop_last() =~= ts.take(i as int));
            assert(ts.take(i + 1).last() == (f@, t@));
        }
        match (NoteId::parse(f.as_str()), NoteId::parse(t.as_str())) {
            (Some(a), Some(b)) => {
                let ghost before = m@;
                let mut v = match m.remove(&a.as_u128()) {
                    Some(v) => v,
                    None => Vec::new(),
                };
                let ghost vb = v@;
                v.push(b);
                m.insert(a.as_u128(), v);
                proof {
                    let prev = links_upto(ts.take(i as int));
                    assert(crate::snapshot::id_values(vb.push(b)) =~= crate::snapshot::id_values(vb).push(b.spec_value()));
                    if before.contains_key(a.spec_value()) {
                        assert(vb == before[a.spec_value()]@);
                        assert(prev[a.spec_value()] == crate::snapshot::id_values(vb));
                    } else {
                        assert(vb.len() == 0);
                        assert(crate::snapshot::id_values(vb) =~= Seq::<u128>::empty());
                    }
                    assert(id_lists(m@) =~= prev.insert(a.spec_value(), crate::snapshot::id_values(vb).push(b.spec_value())));
                }
            },
            _ => {},
        }
        i = i + 1;
    }
    proof {
        assert(ts.take(rows.len() as int) =~= ts);
    }
    m
}

/// One `notes` row as the database hands it back.
pub struct StoredRow {
    pub id: String,
    pub rel: String,
    pub state: String,
    pub size: i64,
    pub mtime_ns: Option<i64>,
    pub hash: String,
    pub title: Option<String>,
    pub raw: String,
    pub root_id: String,
}

/// `notes.state` read back: `trashed` is the trash; anything else, which only a hand-edited
/// database holds, reads as active, the reading that keeps a note visible.
pub open spec fn stored_state(text: Seq<char>) -> State {
    if text == state_text(State::Trashed) {
        State::Trashed
    } else {
        State::Active
    }
}

/// A stored size read back; a negative one, which only a hand-edited database holds, is zero.
pub open spec fn stored_size(n: i64) -> u64 {
    if n < 0 {
        0
    } else {
        n as u64
    }
}

/// A stored mtime read back as an instant.
pub open spec fn instant_of(n: Option<i64>) -> Option<i128> {
    match n {
        Some(x) => Some(x as i128),
        None => None,
    }
}

/// The undeclared keys of a stored frontmatter block, answering to the schema as it is now.
pub open spec fn stored_undeclared(raw: Seq<char>, schema: Seq<EntryView>) -> Seq<Seq<char>> {
    match json_object_keys(raw) {
        Some(ks) => undeclared_keys(ks, schema),
        None => Seq::empty(),
    }
}

/// The entry a stored row stands for, with id `v`, edges `e` and links `l`: `created_at` decoded
/// from the id, never stored and trusted; the root left for the walk to fill; the path rejoined
/// to the root.
pub open spec fn entry_of_row(
    schema: Seq<EntryView>,
    root: Seq<char>,
    row: StoredRow,
    v: u128,
    e: (Option<u128>, Option<u128>),
    l: Seq<u128>,
) -> EntryRow {
    EntryRow {
        record: RecordView {
            id: v,
            created_at: v7_created_at(v),
            title: opt_text(row.title),
            root: None,
            reply_to: e.0,
            quote: e.1,
            path: pushed_all(root, slash_pieces(row.rel@)),
            state: stored_state(row.state@),
            edited_at: instant_of(row.mtime_ns),
            links: l,
            undeclared: stored_undeclared(row.raw@, schema),
        },
        rel: row.rel@,
        size: stored_size(row.size),
        mtime_ns: row.mtime_ns,
        hash: row.hash@,
        raw: row.raw@,
        stored_root: uuid_text_value(row.root_id@),
    }
}

/// The entries `rows` stand for, read in order, with the edges and links still unclaimed: a row
/// whose id does not parse is skipped, and a row takes its note's edges and links with it.
pub open spec fn load_fold(
    schema: Seq<EntryView>,
    root: Seq<char>,
    rows: Seq<StoredRow>,
    edges: Map<u128, (Option<u128>, Option<u128>)>,
    links: Map<u128, Seq<u128>>,
) -> (Seq<EntryRow>, Map<u128, (Option<u128>, Option<u128>)>, Map<u128, Seq<u128>>)
    decreases rows.len(),
{
    if rows.len() == 0 {
        (Seq::empty(), edges, links)
    } else {
        let st = load_fold(schema, root, rows.drop_last(), edges, links);
        let row = rows.last();
        match uuid_text_value(row.id@) {
            None => st,
            Some(v) => {
                let e = if st.1.contains_key(v) {
                    st.1[v]
                } else {
                    (None, None)
                };
                let l = if st.2.contains_key(v) {
                    st.2[v]
                } else {
                    Seq::empty()
                };
                (st.0.push(entry_of_row(schema, root, row, v, e, l)), st.1.remove(v), st.2.remove(v))
            },
        }
    }
}

/// An optional text, copied.
fn copy_opt_text(o: &Option<String>) -> (c: Option<String>)
    ensures
        opt_text(c) == opt_text(*o),
{
    match o {
        Some(t) => Some(t.clone()),
        None => None,
    }
}

/// An optional id value as an id.
fn opt_id(o: Option<u128>) -> (i: Option<NoteId>)
    ensures
        id_value(i) == o,
{
    match o {
        Some(v) => Some(NoteId::from_u128(v)),
        None => None,
    }
}

/// Every stored note as the entry it stands for, with its relation edges and body links, in
/// the order the rows come.
pub fn entries_from_rows(
    schema: &FrontmatterSchema,
    root: &str,
    rows: &Vec<StoredRow>,
    relations: &Vec<(String, String, String)>,
    links: &Vec<(String, String)>,
) -> (es: Vec<Entry>)
    ensures
        entry_rows(es@) == load_fold(
            schema@,
            root@,
            rows@,
            edges_upto(text_triples(relations@)),
            links_upto(text_pairs(links@)),
        ).0,
{
    let mut edges = relation_edges(relations);
    let mut lmap = link_lists(links);
    let ghost e0 = edges@;
    let ghost l0 = id_lists(lmap@);
    let mut es: Vec<Entry> = Vec::new();
    let mut i: usize = 0;
    proof {
        assert(rows@.take(0) =~= Seq::<StoredRow>::empty());
        assert(entry_rows(es@) =~= Seq::<EntryRow>::empty());
    }
    while i < rows.len()
        invariant
            i <= rows.len(),
            load_fold(schema@, root@, rows@.take(i as int), e0, l0) == (
                entry_rows(es@),
                edges@,
                id_lists(lmap@),
            ),
        decreases rows.len() - i,
    {
        let row = &rows[i];
        proof {
            assert(rows@.take(i + 1).drop_last() =~= rows@.take(i as int));
            assert(rows@.take(i + 1).last() == *row);
        }
        match NoteId::parse(row.id.as_str()) {
            None => {},
            Some(id) => {
                let v = id.as_u128();
                let ghost lb = lmap@;
                let e = match edges.remove(&v) {
                    Some(e) => e,
                    None => (None, None),
                };
                let l = match lmap.remove(&v) {
                    Some(l) => l,
                    None => Vec::new(),
                };
                proof {
                    if lb.contains_key(v) {
                        assert(l@ == lb[v]@);
                    } else {
                        assert(crate::snapshot::id_values(l@) =~= Seq::<u128>::empty());
                    }
                    assert(id_lists(lmap@) =~= id_lists(lb).remove(v));
                }
                let record = Record {
                    meta: NoteMeta {
                        id,
                        created_at: id.created_at(),
                        title: copy_opt_text(&row.title),
                        root: None,
                        reply_to: opt_id(e.0),
                        quote: opt_id(e.1),
                    },
                    path: abs_path(root, row.rel.as_str()),
                    state: parse_state(row.state.as_str()),
                    edited_at: match row.mtime_ns {
                        Some(n) => Some(from_nanos(n)),
                        None => None,
                    },
                    links: l,
                    undeclared: undeclared_from(schema, row.raw.as_str()),
                };
                let entry = Entry {
                    record,
                    rel: row.rel.clone(),
                    size: if row.size < 0 {
                        0
                    } else {
                        row.size as u64
                    },
                    mtime_ns: row.mtime_ns,
                    hash: row.hash.clone(),
                    raw: row.raw.clone(),
                    stored_root: NoteId::parse(row.root_id.as_str()),
                };
                let ghost before = entry_rows(es@);
                es.push(entry);
                proof {
                    assert(entry_rows(es@) =~= before.push(entry@));
                }
            },
        }
        i = i + 1;
    }
    proof {
        assert(rows@.take(rows.len() as int) =~= rows@);
    }
    es
}

// =============================================================================================
// Rows written
// =============================================================================================

/// An instant in RFC 3339 form, from whole seconds since the epoch and the nanoseconds past
/// them; `None` where no date can stand for it.
pub uninterp spec fn rfc3339_text(secs: i64, nsecs: u32) -> Option<Seq<char>>;

/// `chrono::DateTime::<Utc>::from_timestamp`, then `to_rfc3339`. Claimed: the text, or its
/// absence for an instant out of chrono's range, is the one `rfc3339_text` names.
#[verifier::external_body]
fn instant_text(secs: i64, nsecs: u32) -> (t: Option<String>)
    ensures
        opt_text(t) == rfc3339_text(secs, nsecs),
{
    match chrono::DateTime::<chrono::Utc>::from_timestamp(secs, nsecs) {
        Some(at) => Some(at.to_rfc3339()),
        None => None,
    }
}

/// Whole seconds of an instant in nanoseconds, rounding toward the past.
pub open spec fn secs_of(t: i128) -> int {
    if t >= 0 {
        t / 1_000_000_000
    } else {
        -((-t - 1) / 1_000_000_000) - 1
    }
}

/// The nanoseconds past [`secs_of`].
pub open spec fn nsecs_of(t: i128) -> int {
    t - secs_of(t) * 1_000_000_000
}

/// The instant a note row records as its creation time: RFC 3339, as the id decodes it. An
/// instant whose seconds no timestamp can hold has none.
pub open spec fn created_text(t: Option<i128>) -> Option<Seq<char>> {
    match t {
        Some(t) => if i64::MIN <= secs_of(t) <= i64::MAX {
            rfc3339_text(secs_of(t) as i64, nsecs_of(t) as u32)
        } else {
            None
        },
        None => None,
    }
}

/// An instant in RFC 3339 form.
fn created_column(t: Option<i128>) -> (c: Option<String>)
    ensures
        opt_text(c) == created_text(t),
{
    match t {
        Some(x) => {
            let secs: i128 = if x >= 0 {
                x / 1_000_000_000
            } else {
                -((-(x + 1)) / 1_000_000_000) - 1
            };
            if secs < i64::MIN as i128 || secs > i64::MAX as i128 {
                return None;
            }
            let nsecs: i128 = x - secs * 1_000_000_000;
            assert(0 <= nsecs < 1_000_000_000) by (nonlinear_arith)
                requires
                    secs == secs_of(x),
                    nsecs == x - secs * 1_000_000_000,
            {
            }
            instant_text(secs as i64, nsecs as u32)
        },
        None => None,
    }
}

/// What writing one entry puts in the database: the `notes` row, the declared relation edges as
/// `(role, target)`, and the body links as `(target, position)`.
pub struct RowsToWrite {
    pub id: String,
    pub path: String,
    pub state: String,
    pub size: i64,
    pub mtime_ns: Option<i64>,
    pub hash: String,
    pub title: Option<String>,
    pub created_at: Option<String>,
    pub root_id: String,
    pub raw: String,
    pub relations: Vec<(String, String)>,
    pub links: Vec<(String, i64)>,
}

/// The declared relation edges a record writes, reply first: each role with its target.
pub open spec fn relation_rows(meta: NoteMeta) -> Seq<(Seq<char>, Seq<char>)> {
    let r: Seq<(Seq<char>, Seq<char>)> = match meta.reply_to {
        Some(t) => seq![(role_text(Role::ReplyTo), t.text())],
        None => Seq::empty(),
    };
    match meta.quote {
        Some(t) => r.push((role_text(Role::QuoteTo), t.text())),
        None => r,
    }
}

/// Whether `w` is what writing `entry` under `root` puts in the database. The root the row holds
/// is the record's, or, before the walk has run, the note itself: never unknown.
pub open spec fn writes_as(w: RowsToWrite, root: Seq<char>, entry: Entry) -> bool {
    let meta = entry.record.meta;
    &&& w.id@ == meta.id.text()
    &&& w.path@ == relative_text(root, entry.record.path@)
    &&& w.state@ == state_text(entry.record.state)
    &&& w.size == entry.size as i64
    &&& w.mtime_ns == entry.mtime_ns
    &&& w.hash@ == entry.hash@
    &&& opt_text(w.title) == opt_text(meta.title)
    &&& opt_text(w.created_at) == created_text(meta.created_at)
    &&& w.root_id@ == match meta.root {
        Some(r) => r.text(),
        None => meta.id.text(),
    }
    &&& w.raw@ == entry.raw@
    &&& w.relations@.map_values(|p: (String, String)| (p.0@, p.1@)) == relation_rows(meta)
    &&& w.links@.len() == entry.record.links@.len()
    &&& forall|k: int|
        0 <= k < w.links@.len() ==> (#[trigger] w.links@[k]).0@ == entry.record.links@[k].text()
            && w.links@[k].1 == k as i64
}

/// The `notes` row the database hands back for rows `w` written: the same columns.
pub open spec fn stored_row_of(w: RowsToWrite) -> StoredRow {
    StoredRow {
        id: w.id,
        rel: w.path,
        state: w.state,
        size: w.size,
        mtime_ns: w.mtime_ns,
        hash: w.hash,
        title: w.title,
        raw: w.raw,
        root_id: w.root_id,
    }
}

/// What an entry's row reads back as, column by column: the title, the state, the size, the
/// mtime, the hash and the frontmatter block come back as they were written, and the path comes
/// back as the one relative to the root that was stored.
pub proof fn lemma_row_reads_back(
    schema: Seq<EntryView>,
    root: Seq<char>,
    entry: Entry,
    w: RowsToWrite,
    e: (Option<u128>, Option<u128>),
    l: Seq<u128>,
)
    requires
        writes_as(w, root, entry),
        entry.size <= i64::MAX,
    ensures
        ({
            let back = entry_of_row(schema, root, stored_row_of(w), entry.record.meta.id.spec_value(), e, l);
            &&& back.record.id == entry.record@.id
            &&& back.record.title == entry.record@.title
            &&& back.record.state == entry.record.state
            &&& back.record.edited_at == instant_of(entry.mtime_ns)
            &&& back.rel == relative_text(root, entry.record.path@)
            &&& back.size == entry.size
            &&& back.mtime_ns == entry.mtime_ns
            &&& back.hash == entry.hash@
            &&& back.raw == entry.raw@
        }),
{
    reveal_strlit("active");
    reveal_strlit("trashed");
    assert("active"@ != "trashed"@) by {
        assert("active"@.len() != "trashed"@.len());
    }
}

/// Whether the UUID parser reads the canonical text of `v` back as `v`, as the crate documents for
/// every value and as each call of its wrapper shows for the text it was given.
pub open spec fn reads_back(v: u128) -> bool {
    uuid_text_value(crate::note::hyphenated_text(v)) == Some(v)
}

/// The `relations` rows the database holds for rows `w` written: `(from, role, to)`.
pub open spec fn relation_table_of(w: RowsToWrite) -> Seq<(Seq<char>, Seq<char>, Seq<char>)> {
    w.relations@.map_values(|p: (String, String)| (w.id@, p.0@, p.1@))
}

/// The `links` rows the database holds for rows `w` written: `(from, to)`, in position order.
pub open spec fn link_table_of(w: RowsToWrite) -> Seq<(Seq<char>, Seq<char>)> {
    w.links@.map_values(|p: (String, i64)| (w.id@, p.0@))
}

proof fn lemma_links_table(a: Seq<char>, v: u128, ts: Seq<u128>)
    requires
        uuid_text_value(a) == Some(v),
        forall|k: int| 0 <= k < ts.len() ==> reads_back(#[trigger] ts[k]),
    ensures
        links_upto(ts.map_values(|t: u128| (a, crate::note::hyphenated_text(t)))) == if ts.len() == 0 {
            Map::<u128, Seq<u128>>::empty()
        } else {
            Map::<u128, Seq<u128>>::empty().insert(v, ts)
        },
    decreases ts.len(),
{
    let rows = ts.map_values(|t: u128| (a, crate::note::hyphenated_text(t)));
    if ts.len() > 0 {
        let d = ts.drop_last();
        assert(rows.drop_last() =~= d.map_values(|t: u128| (a, crate::note::hyphenated_text(t))));
        lemma_links_table(a, v, d);
        assert(reads_back(ts[ts.len() - 1]));
        assert(rows.last() == (a, crate::note::hyphenated_text(ts.last())));
        if d.len() > 0 {
            assert(d.push(ts.last()) =~= ts);
            assert(Map::<u128, Seq<u128>>::empty().insert(v, d).insert(v, ts) =~= Map::<u128, Seq<u128>>::empty().insert(v, ts));
        } else {
            assert(Seq::<u128>::empty().push(ts.last()) =~= ts);
        }
    }
}

/// A note's path survives being made relative to the root and joined back onto it.
proof fn lemma_path_rejoins(root: Seq<char>, ps: Seq<Seq<char>>)
    requires
        root.len() > 0,
        root.last() != '/',
        ps.len() >= 1,
        normal_pieces(ps),
    ensures
        pushed_all(root, slash_pieces(relative_text(root, root + seq!['/'] + joined(ps)))) == root + seq!['/'] + joined(ps),
{
    lemma_rel_path_inverts_abs_path(root, ps);
    lemma_slash_pieces_of_joined(ps);
    lemma_pushed_all_joined(root, ps);
}

/// What a note's rows read back as: the entry that was written, whole. Its record comes back with
/// the same id, `created_at`, title, relations, path, state and body links, its mtime as the edit
/// time, the root left for the walk to fill and the undeclared keys answering to the schema; the
/// row's root is the record's root, or before the walk the note itself. This holds of an entry
/// whose `created_at` is the one its id decodes and whose path lies under the root, where the
/// UUID parser reads each id's canonical text back.
pub proof fn lemma_rows_read_back(
    schema: Seq<EntryView>,
    root: Seq<char>,
    ps: Seq<Seq<char>>,
    entry: Entry,
    w: RowsToWrite,
)
    requires
        writes_as(w, root, entry),
        entry.size <= i64::MAX,
        entry.record.meta.created_at == v7_created_at(entry.record.meta.id.spec_value()),
        root.len() > 0,
        root.last() != '/',
        ps.len() >= 1,
        normal_pieces(ps),
        entry.record.path@ == root + seq!['/'] + joined(ps),
        reads_back(entry.record.meta.id.spec_value()),
        entry.record.meta.root matches Some(r) ==> reads_back(r.spec_value()),
        entry.record.meta.reply_to matches Some(r) ==> reads_back(r.spec_value()),
        entry.record.meta.quote matches Some(r) ==> reads_back(r.spec_value()),
        forall|k: int| 0 <= k < entry.record.links@.len() ==> reads_back(#[trigger] entry.record.links@[k].spec_value()),
    ensures
        load_fold(
            schema,
            root,
            seq![stored_row_of(w)],
            edges_upto(relation_table_of(w)),
            links_upto(link_table_of(w)),
        ).0 == seq![
            EntryRow {
                record: RecordView {
                    root: None,
                    edited_at: instant_of(entry.mtime_ns),
                    undeclared: stored_undeclared(entry.raw@, schema),
                    ..entry.record@
                },
                rel: relative_text(root, entry.record.path@),
                size: entry.size,
                mtime_ns: entry.mtime_ns,
                hash: entry.hash@,
                raw: entry.raw@,
                stored_root: Some(
                    match entry.record.meta.root {
                        Some(r) => r.spec_value(),
                        None => entry.record.meta.id.spec_value(),
                    },
                ),
            },
        ],
{
    let meta = entry.record.meta;
    let v = meta.id.spec_value();
    let rows = seq![stored_row_of(w)];
    // The links table.
    let ts = crate::snapshot::id_values(entry.record.links@);
    assert(link_table_of(w) =~= ts.map_values(|t: u128| (w.id@, crate::note::hyphenated_text(t)))) by {
        assert forall|k: int| 0 <= k < w.links@.len() implies #[trigger] link_table_of(w)[k] == (
            w.id@,
            crate::note::hyphenated_text(ts[k]),
        ) by {
            assert(w.links@[k].0@ == entry.record.links@[k].text());
        }
    }
    assert forall|k: int| 0 <= k < ts.len() implies reads_back(#[trigger] ts[k]) by {
        assert(ts[k] == entry.record.links@[k].spec_value());
    }
    lemma_links_table(w.id@, v, ts);
    let lm = links_upto(link_table_of(w));
    let l = if lm.contains_key(v) {
        lm[v]
    } else {
        Seq::empty()
    };
    assert(l =~= ts);
    // The relations table.
    reveal_strlit("relation:reply_to");
    reveal_strlit("relation:quote_to");
    assert(role_text(Role::ReplyTo) != role_text(Role::QuoteTo)) by {
        assert(role_text(Role::ReplyTo)[9] != role_text(Role::QuoteTo)[9]);
    }
    let rt = relation_table_of(w);
    let pairs = w.relations@.map_values(|p: (String, String)| (p.0@, p.1@));
    assert(pairs == relation_rows(meta));
    assert(rt.len() == pairs.len());
    assert forall|k: int| 0 <= k < rt.len() implies #[trigger] rt[k] == (w.id@, pairs[k].0, pairs[k].1) by {}
    let em = edges_upto(rt);
    let empty_rows = Seq::<(Seq<char>, Seq<char>, Seq<char>)>::empty();
    assert(edges_upto(empty_rows) == Map::<u128, (Option<u128>, Option<u128>)>::empty());
    assert(uuid_text_value(w.id@) == Some(v));
    match (meta.reply_to, meta.quote) {
        (Some(r), Some(q)) => {
            let r1 = (w.id@, role_text(Role::ReplyTo), r.text());
            let q1 = (w.id@, role_text(Role::QuoteTo), q.text());
            assert(relation_rows(meta) == seq![(role_text(Role::ReplyTo), r.text())].push(
                (role_text(Role::QuoteTo), q.text()),
            ));
            assert(rt =~= seq![r1, q1]);
            assert(rt.drop_last() =~= seq![r1]);
            assert(seq![r1].drop_last() =~= empty_rows);
            assert(uuid_text_value(r.text()) == Some(r.spec_value()));
            assert(uuid_text_value(q.text()) == Some(q.spec_value()));
            let m1 = edges_upto(seq![r1]);
            assert(m1 == Map::<u128, (Option<u128>, Option<u128>)>::empty().insert(v, (Some(r.spec_value()), None)));
            assert(em == m1.insert(v, (Some(r.spec_value()), Some(q.spec_value()))));
        },
        (Some(r), None) => {
            let r1 = (w.id@, role_text(Role::ReplyTo), r.text());
            assert(relation_rows(meta) == seq![(role_text(Role::ReplyTo), r.text())]);
            assert(rt =~= seq![r1]);
            assert(rt.drop_last() =~= empty_rows);
            assert(uuid_text_value(r.text()) == Some(r.spec_value()));
            assert(em == Map::<u128, (Option<u128>, Option<u128>)>::empty().insert(v, (Some(r.spec_value()), None)));
        },
        (None, Some(q)) => {
            let q1 = (w.id@, role_text(Role::QuoteTo), q.text());
            assert(relation_rows(meta) =~= seq![(role_text(Role::QuoteTo), q.text())]);
            assert(rt =~= seq![q1]);
            assert(rt.drop_last() =~= empty_rows);
            assert(uuid_text_value(q.text()) == Some(q.spec_value()));
            assert(em == Map::<u128, (Option<u128>, Option<u128>)>::empty().insert(v, (None, Some(q.spec_value()))));
        },
        (None, None) => {
            assert(relation_rows(meta) =~= Seq::<(Seq<char>, Seq<char>)>::empty());
            assert(rt.len() == 0);
            assert(!em.contains_key(v));
        },
    }
    let e = if em.contains_key(v) {
        em[v]
    } else {
        (None, None)
    };
    assert(e == (id_value(meta.reply_to), id_value(meta.quote)));
    // The row itself.
    assert(rows.drop_last() =~= Seq::<StoredRow>::empty());
    assert(uuid_text_value(stored_row_of(w).id@) == Some(v));
    lemma_row_reads_back(schema, root, entry, w, e, l);
    lemma_path_rejoins(root, ps);
    let back = entry_of_row(schema, root, stored_row_of(w), v, e, l);
    assert(back.record.path == entry.record.path@);
    assert(back.record.links == entry.record@.links);
    assert(back.stored_root == Some(
        match meta.root {
            Some(r) => r.spec_value(),
            None => v,
        },
    ));
    let want = EntryRow {
        record: RecordView {
            root: None,
            edited_at: instant_of(entry.mtime_ns),
            undeclared: stored_undeclared(entry.raw@, schema),
            ..entry.record@
        },
        rel: relative_text(root, entry.record.path@),
        size: entry.size,
        mtime_ns: entry.mtime_ns,
        hash: entry.hash@,
        raw: entry.raw@,
        stored_root: Some(
            match meta.root {
                Some(r) => r.spec_value(),
                None => v,
            },
        ),
    };
    assert(back.record == want.record);
    assert(back == want);
    let st = load_fold(schema, root, rows.drop_last(), em, lm);
    assert(st == (Seq::<EntryRow>::empty(), em, lm));
    assert(rows.last() == stored_row_of(w));
    assert(load_fold(schema, root, rows, em, lm).0 == Seq::<EntryRow>::empty().push(back));
    assert(Seq::<EntryRow>::empty().push(back) =~= seq![want]);
}

/// The rows one entry is written as.
pub fn rows_of(root: &str, entry: &Entry) -> (w: RowsToWrite)
    ensures
        writes_as(w, root@, *entry),
{
    let meta = &entry.record.meta;
    let mut relations: Vec<(String, String)> = Vec::new();
    match meta.reply_to {
        Some(t) => {
            relations.push((Role::ReplyTo.as_str().to_owned(), t.to_string()));
        },
        None => {},
    }
    let ghost r0 = relations@.map_values(|p: (String, String)| (p.0@, p.1@));
    match meta.quote {
        Some(t) => {
            relations.push((Role::QuoteTo.as_str().to_owned(), t.to_string()));
            assert(relations@.map_values(|p: (String, String)| (p.0@, p.1@)) =~= r0.push(
                (role_text(Role::QuoteTo), t.text()),
            ));
        },
        None => {},
    }
    assert(r0 =~= match meta.reply_to {
        Some(t) => seq![(role_text(Role::ReplyTo), t.text())],
        None => Seq::<(Seq<char>, Seq<char>)>::empty(),
    });
    let mut links: Vec<(String, i64)> = Vec::new();
    let mut k: usize = 0;
    while k < entry.record.links.len()
        invariant
            k <= entry.record.links@.len(),
            links@.len() == k,
            forall|q: int|
                0 <= q < k ==> (#[trigger] links@[q]).0@ == entry.record.links@[q].text()
                    && links@[q].1 == q as i64,
        decreases entry.record.links@.len() - k,
    {
        links.push((entry.record.links[k].to_string(), k as i64));
        k = k + 1;
    }
    let root_id = match meta.root {
        Some(r) => r.to_string(),
        None => meta.id.to_string(),
    };
    RowsToWrite {
        id: meta.id.to_string(),
        path: rel_path(root, entry.record.path.as_str()),
        state: entry.record.state.as_str().to_owned(),
        size: entry.size as i64,
        mtime_ns: entry.mtime_ns,
        hash: entry.hash.clone(),
        title: copy_opt_text(&meta.title),
        created_at: created_column(meta.created_at),
        root_id,
        raw: entry.raw.clone(),
        relations,
        links,
    }
}

// =============================================================================================
// The stored frontmatter block
// =============================================================================================

/// A block's YAML interior converted to JSON text, or the parser's message.
pub uninterp spec fn yaml_json_text(interior: Seq<char>) -> Result<Seq<char>, Seq<char>>;

/// `yaml_serde::from_str` into a `serde_json::Value`, then `serde_json::to_string`: the YAML read
/// as JSON, with `serde_json`'s `preserve_order` keeping the keys in the order the block writes
/// them. Claimed: the text, or the message of whichever call refused, is what `yaml_json_text`
/// names for the interior.
#[verifier::external_body]
fn yaml_as_json(interior: &str) -> (r: Result<String, String>)
    ensures
        crate::frontmatter::text_result(r) == yaml_json_text(interior@),
{
    match yaml_serde::from_str::<serde_json::Value>(interior) {
        Ok(value) => match serde_json::to_string(&value) {
            Ok(text) => Ok(text),
            Err(e) => Err(e.to_string()),
        },
        Err(e) => Err(e.to_string()),
    }
}

/// Why a document with no frontmatter block has none, as its error reads.
pub open spec fn missing_block_text(path: Seq<char>, b: Seq<u8>) -> Seq<char> {
    if crate::block::opens_with_fence(b) {
        "`"@ + path + "` has an unterminated frontmatter block: no closing `---` fence"@
    } else {
        "`"@ + path + "` has no frontmatter: expected a `---` fence on the first line"@
    }
}

/// The stored JSON of a block's interior: `{}` for an interior with nothing but white space, else
/// the interior read as JSON, a refusal naming the path.
pub open spec fn interior_json(path: Seq<char>, interior: Seq<char>) -> Result<Seq<char>, Seq<char>> {
    if crate::text::is_blank(interior) {
        Ok("{}"@)
    } else {
        match yaml_json_text(interior) {
            Ok(j) => Ok(j),
            Err(m) => Err(path + ": "@ + m),
        }
    }
}

/// The whole frontmatter block of a note file as a JSON object, keyed by the key as written, or
/// why there is none: text that is not UTF-8, a missing block, or YAML that does not convert.
pub open spec fn raw_json_of(path: Seq<char>, b: Seq<u8>) -> Result<Seq<char>, Seq<char>> {
    if !vstd::utf8::valid_utf8(b) {
        Err("`"@ + path + "` is not valid UTF-8"@)
    } else {
        match crate::block::block_span(vstd::utf8::decode_utf8(b)) {
            None => Err(missing_block_text(path, b)),
            Some((s, e)) => interior_json(
                path,
                vstd::utf8::decode_utf8(crate::block::interior_bytes(b, s, e)),
            ),
        }
    }
}

/// The error a missing block raises reads as [`missing_block_text`].
proof fn lemma_missing_block_text(e: Error, path: Seq<char>, b: Seq<u8>)
    requires
        crate::block::is_missing_block_error(e, path, b),
    ensures
        message_head(e) == missing_block_text(path, b),
{
}

/// The frontmatter block of a note file as the JSON object the index stores, so that undeclared
/// keys can answer to the schema as it is later.
pub fn raw_json(path: &str, bytes: &[u8]) -> (r: Result<String, String>)
    ensures
        crate::frontmatter::text_result(r) == raw_json_of(path@, bytes@),
{
    broadcast use vstd::utf8::encode_utf8_decode_utf8;

    let text = match crate::text::str_from_utf8(bytes) {
        Some(t) => t,
        None => {
            let e = Error::NotUtf8 { path: path.to_owned() };
            return Err(e.to_string());
        },
    };
    proof {
        vstd::utf8::encode_utf8_decode_utf8(text@);
        assert(text@ == vstd::utf8::decode_utf8(bytes@));
    }
    let split = match crate::block::split_document(path, text) {
        Ok(sp) => sp,
        Err(e) => {
            proof {
                lemma_missing_block_text(e, path@, bytes@);
            }
            return Err(e.to_string());
        },
    };
    proof {
        vstd::utf8::encode_utf8_decode_utf8(split.interior@);
    }
    if crate::text::str_is_blank(split.interior) {
        proof {
            reveal_strlit("{}");
        }
        return Ok("{}".to_owned());
    }
    match yaml_as_json(split.interior) {
        Ok(j) => Ok(j),
        Err(m) => {
            let mut out = path.to_owned();
            out.append(": ");
            out.append(m.as_str());
            proof {
                reveal_strlit(": ");
            }
            Err(out)
        },
    }
}

} // verus!
