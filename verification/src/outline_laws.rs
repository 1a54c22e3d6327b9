//! Laws of inserting paths into an outline: the order of insertions and their
//! repetition do not matter, and every node below the root that has children
//! is a folder.

use vstd::prelude::*;
use crate::selection::Picked;
use crate::structure::{
    all_inserts, child_named, children_insert, empty_outline, empty_root, inserted, lookup, outline_insert,
    picked_inserts, placed, structure_text, Outline,
};
use crate::path::relative_parts;
use crate::text::lemma_text_lt_order;

verus! {

/// Inserting two paths in either order gives the same outline.
pub proof fn lemma_insert_commutes(o: Outline, p: Seq<Seq<char>>, dp: bool, q: Seq<Seq<char>>, dq: bool)
    ensures
        outline_insert(outline_insert(o, p, dp), q, dq) == outline_insert(outline_insert(o, q, dq), p, dp),
    decreases p.len() + q.len(), 2int, 0int, 0int,
{
    if p.len() > 0 && q.len() > 0 {
        lemma_children_insert_commutes(o.children, p, dp, q, dq);
    }
}

/// Placing two paths that start with the same name in either order gives the same node.
proof fn lemma_placed_commutes(c: Outline, p: Seq<Seq<char>>, dp: bool, q: Seq<Seq<char>>, dq: bool)
    requires
        p.len() > 0,
        q.len() > 0,
    ensures
        placed(placed(c, p, dp), q, dq) == placed(placed(c, q, dq), p, dp),
    decreases p.len() + q.len(), 0int, 0int, 0int,
{
    let c2 = Outline { is_dir: true, children: c.children };
    if p.len() > 1 && q.len() > 1 {
        let rp = outline_insert(c2, p.drop_first(), dp);
        let rq = outline_insert(c2, q.drop_first(), dq);
        assert(Outline { is_dir: true, children: rp.children } == rp);
        assert(Outline { is_dir: true, children: rq.children } == rq);
        lemma_insert_commutes(c2, p.drop_first(), dp, q.drop_first(), dq);
    } else if p.len() > 1 {
        let rp = outline_insert(c2, p.drop_first(), dp);
        assert(Outline { is_dir: true || dq, children: rp.children } == rp);
    } else if q.len() > 1 {
        let rq = outline_insert(c2, q.drop_first(), dq);
        assert(Outline { is_dir: true || dp, children: rq.children } == rq);
    }
}

/// Inserting two paths into a list of named children in either order gives the same list.
proof fn lemma_children_insert_commutes(
    ch: Seq<(Seq<char>, Outline)>,
    p: Seq<Seq<char>>,
    dp: bool,
    q: Seq<Seq<char>>,
    dq: bool,
)
    requires
        p.len() > 0,
        q.len() > 0,
    ensures
        children_insert(children_insert(ch, p, dp), q, dq) == children_insert(children_insert(ch, q, dq), p, dp),
    decreases p.len() + q.len(), 1int, ch.len(), 1int,
{
    let a = p[0];
    let b = q[0];
    let e = empty_outline();
    lemma_text_lt_order(a, b, a);
    if a == b {
        if ch.len() == 0 || ch[0].0 == a || crate::text::text_lt(a, ch[0].0) {
            let c = if ch.len() > 0 && ch[0].0 == a { ch[0].1 } else { e };
            lemma_placed_commutes(c, p, dp, q, dq);
            let tail = if ch.len() > 0 && ch[0].0 == a { ch.drop_first() } else { ch };
            let xp = seq![(a, placed(c, p, dp))] + tail;
            let xq = seq![(a, placed(c, q, dq))] + tail;
            assert(children_insert(ch, p, dp) == xp);
            assert(children_insert(ch, q, dq) == xq);
            assert(xp[0].0 == a && xq[0].0 == a);
            assert(xp.drop_first() =~= tail);
            assert(xq.drop_first() =~= tail);
        } else {
            lemma_recurse_both(ch, p, dp, q, dq);
        }
    } else if ch.len() == 0 {
        let xp = seq![(a, placed(e, p, dp))];
        let xq = seq![(b, placed(e, q, dq))];
        assert(xp.drop_first() =~= Seq::<(Seq<char>, Outline)>::empty());
        assert(xq.drop_first() =~= Seq::<(Seq<char>, Outline)>::empty());
        if crate::text::text_lt(a, b) {
            assert(children_insert(xp.drop_first(), q, dq) == xq);
            assert(children_insert(xp, q, dq) == seq![xp[0]] + xq);
            assert(children_insert(xq, p, dp) == seq![(a, placed(e, p, dp))] + xq);
            assert(seq![xp[0]] + xq =~= seq![(a, placed(e, p, dp))] + xq);
        } else {
            assert(children_insert(xq.drop_first(), p, dp) == xp);
            assert(children_insert(xq, p, dp) == seq![xq[0]] + xp);
            assert(children_insert(xp, q, dq) == seq![(b, placed(e, q, dq))] + xp);
            assert(seq![xq[0]] + xp =~= seq![(b, placed(e, q, dq))] + xp);
        }
    } else {
        let c = ch[0].0;
        lemma_text_lt_order(a, c, b);
        lemma_text_lt_order(b, c, a);
        lemma_text_lt_order(a, b, c);
        lemma_text_lt_order(b, a, c);
        lemma_text_lt_order(c, a, b);
        lemma_text_lt_order(c, b, a);
        let a_here = c == a || crate::text::text_lt(a, c);
        let b_here = c == b || crate::text::text_lt(b, c);
        if !a_here && !b_here {
            lemma_recurse_both(ch, p, dp, q, dq);
        } else if a_here && !b_here {
            lemma_one_here(ch, p, dp, q, dq);
        } else if b_here && !a_here {
            lemma_one_here(ch, q, dq, p, dp);
        } else {
            lemma_both_here(ch, p, dp, q, dq);
        }
    }
}

/// When neither name goes before the first child, both insertions pass it by.
proof fn lemma_recurse_both(ch: Seq<(Seq<char>, Outline)>, p: Seq<Seq<char>>, dp: bool, q: Seq<Seq<char>>, dq: bool)
    requires
        p.len() > 0,
        q.len() > 0,
        ch.len() > 0,
        ch[0].0 != p[0] && !crate::text::text_lt(p[0], ch[0].0),
        ch[0].0 != q[0] && !crate::text::text_lt(q[0], ch[0].0),
    ensures
        children_insert(children_insert(ch, p, dp), q, dq) == children_insert(children_insert(ch, q, dq), p, dp),
    decreases p.len() + q.len(), 1int, ch.len(), 0int,
{
    let rest = ch.drop_first();
    let xp = seq![ch[0]] + children_insert(rest, p, dp);
    let xq = seq![ch[0]] + children_insert(rest, q, dq);
    assert(children_insert(ch, p, dp) == xp);
    assert(children_insert(ch, q, dq) == xq);
    assert(xp[0] == ch[0] && xq[0] == ch[0]);
    assert(xp.drop_first() =~= children_insert(rest, p, dp));
    assert(xq.drop_first() =~= children_insert(rest, q, dq));
    lemma_children_insert_commutes(rest, p, dp, q, dq);
}

/// When the first path's name goes at the front (or on the first child) and
/// the second's further on, both orders give the first's node, then the
/// second inserted into the rest.
proof fn lemma_one_here(ch: Seq<(Seq<char>, Outline)>, p: Seq<Seq<char>>, dp: bool, q: Seq<Seq<char>>, dq: bool)
    requires
        p.len() > 0,
        q.len() > 0,
        ch.len() > 0,
        p[0] != q[0],
        ch[0].0 == p[0] || crate::text::text_lt(p[0], ch[0].0),
        ch[0].0 != q[0] && !crate::text::text_lt(q[0], ch[0].0),
    ensures
        children_insert(children_insert(ch, p, dp), q, dq) == children_insert(children_insert(ch, q, dq), p, dp),
{
    let a = p[0];
    let b = q[0];
    let c = ch[0].0;
    lemma_text_lt_order(a, c, b);
    lemma_text_lt_order(b, a, c);
    lemma_text_lt_order(a, b, a);
    let rest = ch.drop_first();
    let xq = seq![ch[0]] + children_insert(rest, q, dq);
    assert(children_insert(ch, q, dq) == xq);
    assert(xq[0] == ch[0]);
    assert(xq.drop_first() =~= children_insert(rest, q, dq));
    if c == a {
        let xp = seq![(a, placed(ch[0].1, p, dp))] + rest;
        assert(children_insert(ch, p, dp) == xp);
        assert(xp[0].0 == a);
        assert(xp.drop_first() =~= rest);
        assert(!crate::text::text_lt(b, a));
        assert(children_insert(xp, q, dq) == seq![xp[0]] + children_insert(rest, q, dq));
        assert(children_insert(xq, p, dp) == seq![(a, placed(ch[0].1, p, dp))] + children_insert(rest, q, dq));
        assert(seq![xp[0]] + children_insert(rest, q, dq) =~= seq![(a, placed(ch[0].1, p, dp))] + children_insert(rest, q, dq));
    } else {
        let np = (a, placed(empty_outline(), p, dp));
        let xp = seq![np] + ch;
        assert(children_insert(ch, p, dp) == xp);
        assert(xp[0] == np);
        assert(xp.drop_first() =~= ch);
        assert(!crate::text::text_lt(b, a));
        assert(children_insert(xp, q, dq) == seq![np] + children_insert(ch, q, dq));
        assert(children_insert(xq, p, dp) == seq![np] + xq);
    }
}

/// When both names go at the front (or on the first child), they are placed in
/// name order in either case.
proof fn lemma_both_here(ch: Seq<(Seq<char>, Outline)>, p: Seq<Seq<char>>, dp: bool, q: Seq<Seq<char>>, dq: bool)
    requires
        p.len() > 0,
        q.len() > 0,
        ch.len() > 0,
        p[0] != q[0],
        ch[0].0 == p[0] || crate::text::text_lt(p[0], ch[0].0),
        ch[0].0 == q[0] || crate::text::text_lt(q[0], ch[0].0),
    ensures
        children_insert(children_insert(ch, p, dp), q, dq) == children_insert(children_insert(ch, q, dq), p, dp),
{
    let a = p[0];
    let b = q[0];
    let c = ch[0].0;
    lemma_text_lt_order(a, b, c);
    lemma_text_lt_order(b, a, c);
    lemma_text_lt_order(a, c, b);
    lemma_text_lt_order(b, c, a);
    lemma_text_lt_order(a, b, a);
    if crate::text::text_lt(a, b) {
        // then b is not the smaller, so b == c is impossible only if a < c; a sorts first either way
        lemma_front_pair(ch, p, dp, q, dq);
    } else {
        lemma_front_pair(ch, q, dq, p, dp);
    }
}

/// Both names go at the front, the first path's name the smaller: either order
/// puts the first's node first.
proof fn lemma_front_pair(ch: Seq<(Seq<char>, Outline)>, p: Seq<Seq<char>>, dp: bool, q: Seq<Seq<char>>, dq: bool)
    requires
        p.len() > 0,
        q.len() > 0,
        ch.len() > 0,
        p[0] != q[0],
        crate::text::text_lt(p[0], q[0]),
        ch[0].0 == p[0] || crate::text::text_lt(p[0], ch[0].0),
        ch[0].0 == q[0] || crate::text::text_lt(q[0], ch[0].0),
    ensures
        children_insert(children_insert(ch, p, dp), q, dq) == children_insert(children_insert(ch, q, dq), p, dp),
{
    let a = p[0];
    let b = q[0];
    let c = ch[0].0;
    let e = empty_outline();
    lemma_text_lt_order(a, b, c);
    lemma_text_lt_order(b, a, c);
    lemma_text_lt_order(a, c, b);
    lemma_text_lt_order(c, a, b);
    // a < b and b <= c, so a < c
    assert(crate::text::text_lt(a, c));
    assert(c != a);
    let np = (a, placed(e, p, dp));
    let xp = seq![np] + ch;
    assert(children_insert(ch, p, dp) == xp);
    assert(xp[0] == np);
    assert(xp.drop_first() =~= ch);
    assert(children_insert(xp, q, dq) == seq![np] + children_insert(ch, q, dq));
    let xq = children_insert(ch, q, dq);
    if c == b {
        let nq = (b, placed(ch[0].1, q, dq));
        assert(xq == seq![nq] + ch.drop_first());
        assert(xq[0] == nq);
    } else {
        let nq = (b, placed(e, q, dq));
        assert(xq == seq![nq] + ch);
        assert(xq[0] == nq);
    }
    assert(children_insert(xq, p, dp) == seq![np] + xq);
}

/// Inserting a path into an outline that already holds it changes nothing.
pub proof fn lemma_insert_idempotent(o: Outline, p: Seq<Seq<char>>, d: bool)
    ensures
        outline_insert(outline_insert(o, p, d), p, d) == outline_insert(o, p, d),
    decreases p.len(), 2int, 0int,
{
    if p.len() > 0 {
        lemma_children_insert_idempotent(o.children, p, d);
    }
}

/// Placing a path in the node it built gives that node back.
proof fn lemma_placed_idempotent(c: Outline, p: Seq<Seq<char>>, d: bool)
    requires
        p.len() > 0,
    ensures
        placed(placed(c, p, d), p, d) == placed(c, p, d),
    decreases p.len(), 0int, 0int,
{
    if p.len() > 1 {
        let c2 = Outline { is_dir: true, children: c.children };
        let r = outline_insert(c2, p.drop_first(), d);
        assert(Outline { is_dir: true, children: r.children } == r);
        lemma_insert_idempotent(c2, p.drop_first(), d);
    }
}

/// Inserting a path into a list of named children twice gives what once gives.
proof fn lemma_children_insert_idempotent(ch: Seq<(Seq<char>, Outline)>, p: Seq<Seq<char>>, d: bool)
    requires
        p.len() > 0,
    ensures
        children_insert(children_insert(ch, p, d), p, d) == children_insert(ch, p, d),
    decreases p.len(), 1int, ch.len(),
{
    let a = p[0];
    let e = empty_outline();
    lemma_text_lt_order(a, a, a);
    if ch.len() == 0 || ch[0].0 == a || crate::text::text_lt(a, ch[0].0) {
        let c = if ch.len() > 0 && ch[0].0 == a { ch[0].1 } else { e };
        let tail = if ch.len() > 0 && ch[0].0 == a { ch.drop_first() } else { ch };
        lemma_placed_idempotent(c, p, d);
        let x = seq![(a, placed(c, p, d))] + tail;
        assert(children_insert(ch, p, d) == x);
        assert(x[0].0 == a);
        assert(x.drop_first() =~= tail);
    } else {
        let rest = ch.drop_first();
        lemma_children_insert_idempotent(rest, p, d);
        let x = seq![ch[0]] + children_insert(rest, p, d);
        assert(children_insert(ch, p, d) == x);
        assert(x[0] == ch[0]);
        assert(x.drop_first() =~= children_insert(rest, p, d));
    }
}

/// Inserting a list of paths after another is inserting the two lists joined.
pub proof fn lemma_inserted_concat(o: Outline, a: Seq<(Seq<Seq<char>>, bool)>, b: Seq<(Seq<Seq<char>>, bool)>)
    ensures
        inserted(o, a + b) == inserted(inserted(o, a), b),
    decreases b.len(),
{
    if b.len() == 0 {
        assert(a + b =~= a);
    } else {
        lemma_inserted_concat(o, a, b.drop_last());
        assert((a + b).drop_last() =~= a + b.drop_last());
        assert((a + b).last() == b.last());
    }
}

/// One path inserted after a list of paths is the same as inserted before it.
proof fn lemma_insert_passes(o: Outline, b: Seq<(Seq<Seq<char>>, bool)>, x: (Seq<Seq<char>>, bool))
    ensures
        outline_insert(inserted(o, b), x.0, x.1) == inserted(outline_insert(o, x.0, x.1), b),
    decreases b.len(),
{
    if b.len() > 0 {
        let l = b.last();
        lemma_insert_commutes(inserted(o, b.drop_last()), l.0, l.1, x.0, x.1);
        lemma_insert_passes(o, b.drop_last(), x);
    }
}

/// A path already among the inserted ones changes nothing when inserted again.
proof fn lemma_insert_absorbed(o: Outline, ins: Seq<(Seq<Seq<char>>, bool)>, x: (Seq<Seq<char>>, bool))
    requires
        ins.contains(x),
    ensures
        outline_insert(inserted(o, ins), x.0, x.1) == inserted(o, ins),
    decreases ins.len(),
{
    let init = ins.drop_last();
    let l = ins.last();
    if l == x {
        lemma_insert_idempotent(inserted(o, init), x.0, x.1);
    } else {
        let k = choose|k: int| 0 <= k < ins.len() && ins[k] == x;
        assert(init[k] == x);
        lemma_insert_commutes(inserted(o, init), l.0, l.1, x.0, x.1);
        lemma_insert_absorbed(o, init, x);
    }
}

/// Paths that were all inserted already change nothing when inserted again.
proof fn lemma_all_absorbed(o: Outline, a: Seq<(Seq<Seq<char>>, bool)>, b: Seq<(Seq<Seq<char>>, bool)>)
    requires
        forall|x: (Seq<Seq<char>>, bool)| b.contains(x) ==> a.contains(x),
    ensures
        inserted(inserted(o, a), b) == inserted(o, a),
    decreases b.len(),
{
    if b.len() > 0 {
        assert forall|x: (Seq<Seq<char>>, bool)| b.drop_last().contains(x) implies a.contains(x) by {
            let k = choose|k: int| 0 <= k < b.drop_last().len() && b.drop_last()[k] == x;
            assert(b[k] == x);
        }
        lemma_all_absorbed(o, a, b.drop_last());
        assert(b[b.len() - 1] == b.last());
        assert(b.contains(b.last()));
        lemma_insert_absorbed(o, a, b.last());
    }
}

/// Two lists of paths inserted one after the other give the same outline in either order.
proof fn lemma_inserted_swap(o: Outline, a: Seq<(Seq<Seq<char>>, bool)>, b: Seq<(Seq<Seq<char>>, bool)>)
    ensures
        inserted(inserted(o, a), b) == inserted(inserted(o, b), a),
    decreases a.len(),
{
    if a.len() > 0 {
        let l = a.last();
        lemma_insert_passes(inserted(o, a.drop_last()), b, l);
        lemma_inserted_swap(o, a.drop_last(), b);
    }
}

/// The outline built by inserting a list of paths depends only on which paths
/// the list holds: not on their order, nor on how often each occurs.
pub proof fn lemma_inserted_depends_on_set(o: Outline, s1: Seq<(Seq<Seq<char>>, bool)>, s2: Seq<(Seq<Seq<char>>, bool)>)
    requires
        forall|x: (Seq<Seq<char>>, bool)| s1.contains(x) <==> s2.contains(x),
    ensures
        inserted(o, s1) == inserted(o, s2),
{
    lemma_all_absorbed(o, s1, s2);
    lemma_inserted_swap(o, s1, s2);
    lemma_all_absorbed(o, s2, s1);
}

/// Every node below this one that has children is a folder.
pub open spec fn folders_below(o: Outline) -> bool
    decreases o,
{
    forall|i: int|
        0 <= i < o.children.len() ==> ((#[trigger] o.children[i]).1.children.len() > 0 ==> o.children[i].1.is_dir)
            && folders_below(o.children[i].1)
}

/// A child below which (and at which) every node with children is a folder.
pub open spec fn folder_ok(c: Outline) -> bool {
    (c.children.len() > 0 ==> c.is_dir) && folders_below(c)
}

proof fn lemma_folders_below_means(o: Outline)
    ensures
        folders_below(o) <==> forall|i: int| 0 <= i < o.children.len() ==> folder_ok(#[trigger] o.children[i].1),
{
    if folders_below(o) {
        assert forall|i: int| 0 <= i < o.children.len() implies folder_ok(#[trigger] o.children[i].1) by {
            assert(o.children[i].1 == (o.children[i]).1);
        }
    }
    if forall|i: int| 0 <= i < o.children.len() ==> folder_ok(#[trigger] o.children[i].1) {
        assert forall|i: int| 0 <= i < o.children.len() implies ((#[trigger] o.children[i]).1.children.len() > 0
            ==> o.children[i].1.is_dir) && folders_below(o.children[i].1) by {
            assert(folder_ok(o.children[i].1));
        }
    }
}

proof fn lemma_no_children_ok(c: Outline)
    requires
        c.children.len() == 0,
    ensures
        folder_ok(c),
{
}

/// Inserting a path keeps every node with children a folder.
pub proof fn lemma_insert_keeps_folders(o: Outline, p: Seq<Seq<char>>, d: bool)
    requires
        folders_below(o),
    ensures
        folders_below(outline_insert(o, p, d)),
    decreases p.len(), 2int, 0int,
{
    if p.len() > 0 {
        lemma_folders_below_means(o);
        lemma_children_keep_folders(o.children, p, d);
        let r = outline_insert(o, p, d);
        assert(r.children == children_insert(o.children, p, d));
        assert forall|i: int| 0 <= i < r.children.len() implies folder_ok(#[trigger] r.children[i].1) by {
            assert(folder_ok(children_insert(o.children, p, d)[i].1));
        }
        lemma_folders_below_means(r);
    }
}

proof fn lemma_placed_keeps_folders(c: Outline, p: Seq<Seq<char>>, d: bool)
    requires
        folder_ok(c),
        p.len() > 0,
    ensures
        folder_ok(placed(c, p, d)),
    decreases p.len(), 0int, 0int,
{
    let c2 = Outline { is_dir: true, children: c.children };
    lemma_folders_below_means(c);
    lemma_folders_below_means(c2);
    if p.len() > 1 {
        lemma_insert_keeps_folders(c2, p.drop_first(), d);
    } else {
        lemma_folders_below_means(placed(c, p, d));
    }
}

proof fn lemma_children_keep_folders(ch: Seq<(Seq<char>, Outline)>, p: Seq<Seq<char>>, d: bool)
    requires
        p.len() > 0,
        forall|i: int| 0 <= i < ch.len() ==> folder_ok(#[trigger] ch[i].1),
    ensures
        forall|i: int| 0 <= i < children_insert(ch, p, d).len() ==> folder_ok(#[trigger] children_insert(ch, p, d)[i].1),
    decreases p.len(), 1int, ch.len(),
{
    let a = p[0];
    let e = empty_outline();
    let r = children_insert(ch, p, d);
    if ch.len() == 0 || ch[0].0 == a || crate::text::text_lt(a, ch[0].0) {
        let c = if ch.len() > 0 && ch[0].0 == a { ch[0].1 } else { e };
        let tail = if ch.len() > 0 && ch[0].0 == a { ch.drop_first() } else { ch };
        if !(ch.len() > 0 && ch[0].0 == a) {
            lemma_no_children_ok(e);
        }
        lemma_placed_keeps_folders(c, p, d);
        let x = seq![(a, placed(c, p, d))] + tail;
        assert(r == x);
        assert forall|i: int| 0 <= i < r.len() implies folder_ok(#[trigger] r[i].1) by {
            if i > 0 {
                if ch.len() > 0 && ch[0].0 == a {
                    assert(r[i] == ch[i]);
                } else {
                    assert(r[i] == ch[i - 1]);
                }
            }
        }
    } else {
        let rest = ch.drop_first();
        assert forall|i: int| 0 <= i < rest.len() implies folder_ok(#[trigger] rest[i].1) by {
            assert(rest[i] == ch[i + 1]);
        }
        lemma_children_keep_folders(rest, p, d);
        let x = seq![ch[0]] + children_insert(rest, p, d);
        assert(r == x);
        assert forall|i: int| 0 <= i < r.len() implies folder_ok(#[trigger] r[i].1) by {
            if i > 0 {
                assert(r[i] == children_insert(rest, p, d)[i - 1]);
            }
        }
    }
}

/// In an outline built by inserting paths into one whose nodes with children
/// are all folders, every node below the root that has children is a folder.
pub proof fn lemma_inserted_keeps_folders(o: Outline, ins: Seq<(Seq<Seq<char>>, bool)>)
    requires
        folders_below(o),
    ensures
        folders_below(inserted(o, ins)),
    decreases ins.len(),
{
    if ins.len() > 0 {
        lemma_inserted_keeps_folders(o, ins.drop_last());
        lemma_insert_keeps_folders(inserted(o, ins.drop_last()), ins.last().0, ins.last().1);
    }
}

/// A path is among the insertions of a selection exactly when one of the
/// selection's items puts it there.
proof fn lemma_all_inserts_contains(base: Seq<char>, sel: Seq<Picked>, x: (Seq<Seq<char>>, bool))
    ensures
        all_inserts(base, sel).contains(x) <==> exists|i: int|
            0 <= i < sel.len() && #[trigger] picked_inserts(base, sel[i]).contains(x),
    decreases sel.len(),
{
    if sel.len() > 0 {
        let init = sel.drop_last();
        let a = all_inserts(base, init);
        let b = picked_inserts(base, sel.last());
        lemma_all_inserts_contains(base, init, x);
        assert(all_inserts(base, sel) == a + b);
        if (a + b).contains(x) {
            let k = choose|k: int| 0 <= k < (a + b).len() && (a + b)[k] == x;
            if k < a.len() {
                assert(a[k] == x);
                let i = choose|i: int| 0 <= i < init.len() && #[trigger] picked_inserts(base, init[i]).contains(x);
                assert(sel[i] == init[i]);
            } else {
                assert(b[k - a.len()] == x);
                assert(sel[sel.len() - 1] == sel.last());
                assert(picked_inserts(base, sel[sel.len() - 1]).contains(x));
            }
        }
        if exists|i: int| 0 <= i < sel.len() && #[trigger] picked_inserts(base, sel[i]).contains(x) {
            let i = choose|i: int| 0 <= i < sel.len() && #[trigger] picked_inserts(base, sel[i]).contains(x);
            if i < init.len() {
                assert(init[i] == sel[i]);
                assert(picked_inserts(base, init[i]).contains(x));
                let k = choose|k: int| 0 <= k < a.len() && a[k] == x;
                assert((a + b)[k] == x);
            } else {
                assert(sel[i] == sel.last());
                let k = choose|k: int| 0 <= k < b.len() && b[k] == x;
                assert((a + b)[k + a.len()] == x);
            }
        }
    }
}

/// The structure view of a selection depends only on which items were picked:
/// reordering the selection, or naming an item more than once, gives the same text.
pub proof fn lemma_structure_ignores_order(base: Seq<char>, s1: Seq<Picked>, s2: Seq<Picked>)
    requires
        forall|p: Picked| s1.contains(p) <==> s2.contains(p),
    ensures
        structure_text(base, s1) == structure_text(base, s2),
{
    let a1 = all_inserts(base, s1);
    let a2 = all_inserts(base, s2);
    assert forall|x: (Seq<Seq<char>>, bool)| a1.contains(x) <==> a2.contains(x) by {
        lemma_all_inserts_contains(base, s1, x);
        lemma_all_inserts_contains(base, s2, x);
        if a1.contains(x) {
            let i = choose|i: int| 0 <= i < s1.len() && #[trigger] picked_inserts(base, s1[i]).contains(x);
            assert(s1.contains(s1[i]));
            let j = choose|j: int| 0 <= j < s2.len() && s2[j] == s1[i];
            assert(picked_inserts(base, s2[j]).contains(x));
        }
        if a2.contains(x) {
            let i = choose|i: int| 0 <= i < s2.len() && #[trigger] picked_inserts(base, s2[i]).contains(x);
            assert(s2.contains(s2[i]));
            let j = choose|j: int| 0 <= j < s1.len() && s1[j] == s2[i];
            assert(picked_inserts(base, s1[j]).contains(x));
        }
    }
    lemma_inserted_depends_on_set(empty_root(), a1, a2);
}

/// In the outline behind a structure view, every node below the root that has
/// children is a folder.
pub proof fn lemma_structure_folders(base: Seq<char>, sel: Seq<Picked>)
    ensures
        folders_below(inserted(empty_root(), all_inserts(base, sel))),
{
    assert(folders_below(empty_root()));
    lemma_inserted_keeps_folders(empty_root(), all_inserts(base, sel));
}

/// After inserting a path into a list of named children, the first child of
/// the path's first name is the node the path was placed in.
proof fn lemma_first_child_after_insert(ch: Seq<(Seq<char>, Outline)>, parts: Seq<Seq<char>>, d: bool) -> (c: Outline)
    requires
        parts.len() > 0,
    ensures
        child_named(children_insert(ch, parts, d), parts[0]) == Some(placed(c, parts, d)),
    decreases ch.len(),
{
    let a = parts[0];
    if ch.len() == 0 || ch[0].0 == a || crate::text::text_lt(a, ch[0].0) {
        let c = if ch.len() > 0 && ch[0].0 == a { ch[0].1 } else { empty_outline() };
        let tail = if ch.len() > 0 && ch[0].0 == a { ch.drop_first() } else { ch };
        let x = seq![(a, placed(c, parts, d))] + tail;
        assert(children_insert(ch, parts, d) == x);
        assert(x[0].0 == a);
        c
    } else {
        let rest = ch.drop_first();
        let c = lemma_first_child_after_insert(rest, parts, d);
        let x = seq![ch[0]] + children_insert(rest, parts, d);
        assert(children_insert(ch, parts, d) == x);
        assert(x[0] == ch[0]);
        assert(x.drop_first() =~= children_insert(rest, parts, d));
        c
    }
}

/// Right after a path is inserted, the outline has a node at that path, and
/// it is a folder when the path was inserted as one.
pub proof fn lemma_insert_makes_node(o: Outline, parts: Seq<Seq<char>>, d: bool)
    requires
        parts.len() > 0,
    ensures
        lookup(outline_insert(o, parts, d), parts) matches Some(n) && (d ==> n.is_dir),
    decreases parts.len(),
{
    let r = outline_insert(o, parts, d);
    let c = lemma_first_child_after_insert(o.children, parts, d);
    let pl = placed(c, parts, d);
    assert(child_named(r.children, parts[0]) == Some(pl));
    assert(lookup(r, parts) == lookup(pl, parts.drop_first()));
    if parts.len() > 1 {
        let c2 = Outline { is_dir: true, children: c.children };
        lemma_insert_makes_node(c2, parts.drop_first(), d);
    } else {
        assert(parts.drop_first().len() == 0);
    }
}

/// A path that a selection puts into the structure view has a node in the
/// finished outline, and a folder node when it was put there as a folder.
proof fn lemma_inserted_path_present(base: Seq<char>, sel: Seq<Picked>, x: (Seq<Seq<char>>, bool))
    requires
        all_inserts(base, sel).contains(x),
        x.0.len() > 0,
    ensures
        lookup(inserted(empty_root(), all_inserts(base, sel)), x.0) matches Some(n) && (x.1 ==> n.is_dir),
{
    let ins = all_inserts(base, sel);
    let o = inserted(empty_root(), ins);
    lemma_insert_absorbed(empty_root(), ins, x);
    lemma_insert_makes_node(o, x.0, x.1);
}

/// The structure view shows everything selected: for a picked folder, the
/// folder itself and every folder row of its walk are folders of the outline
/// and every other row of its walk is a node of it; a picked file is a node of
/// it (each at its path below `base`, when that path is not empty).
pub proof fn lemma_structure_shows_selection(base: Seq<char>, sel: Seq<Picked>, i: int)
    requires
        0 <= i < sel.len(),
    ensures
        ({
            let o = inserted(empty_root(), all_inserts(base, sel));
            match sel[i] {
                Picked::Folder { path, entries } => {
                    &&& relative_parts(path@, base).len() > 0 ==> (lookup(o, relative_parts(path@, base)) matches Some(n)
                        && n.is_dir)
                    &&& forall|j: int|
                        0 <= j < entries@.len() && relative_parts(entries@[j].path@, base).len() > 0 ==> (#[trigger] lookup(
                            o,
                            relative_parts(entries@[j].path@, base),
                        ) matches Some(n) && (entries@[j].is_dir ==> n.is_dir))
                },
                Picked::File { path } => relative_parts(path@, base).len() > 0 ==> lookup(
                    o,
                    relative_parts(path@, base),
                ) is Some,
                Picked::Missing => true,
            }
        }),
{
    let ins = all_inserts(base, sel);
    match sel[i] {
        Picked::Folder { path, entries } => {
            let pi = picked_inserts(base, sel[i]);
            let x = (relative_parts(path@, base), true);
            assert(pi[0] == x);
            assert(picked_inserts(base, sel[i]).contains(x));
            lemma_all_inserts_contains(base, sel, x);
            if x.0.len() > 0 {
                lemma_inserted_path_present(base, sel, x);
            }
            assert forall|j: int|
                0 <= j < entries@.len() && relative_parts(entries@[j].path@, base).len() > 0 implies (#[trigger] lookup(
                    inserted(empty_root(), ins),
                    relative_parts(entries@[j].path@, base),
                ) matches Some(n) && (entries@[j].is_dir ==> n.is_dir)) by {
                let y = (relative_parts(entries@[j].path@, base), entries@[j].is_dir);
                assert(pi[j + 1] == y);
                assert(picked_inserts(base, sel[i]).contains(y));
                lemma_all_inserts_contains(base, sel, y);
                lemma_inserted_path_present(base, sel, y);
            }
        },
        Picked::File { path } => {
            let x = (relative_parts(path@, base), false);
            assert(picked_inserts(base, sel[i])[0] == x);
            assert(picked_inserts(base, sel[i]).contains(x));
            lemma_all_inserts_contains(base, sel, x);
            if x.0.len() > 0 {
                lemma_inserted_path_present(base, sel, x);
            }
        },
        Picked::Missing => {},
    }
}

} // verus!
