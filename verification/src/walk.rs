//! Turning a directory tree read from disk into the picker's flat list of rows:
//! ignored names dropped, folders before files, names in order, pre-order.

use vstd::prelude::*;
use vstd::string::*;
use crate::order::{lemma_concat_contains, lemma_insert_point, lemma_insert_sorted, lemma_sorted_unique, strict_order, strictly_sorted};
use crate::text::{lemma_text_lt_order, same_text, text_less, text_lt};
use crate::tree::Entry;

verus! {

/// One item of a directory listing as read from disk: its name, its full path,
/// whether it is a folder, and (for a folder) its own listing.
pub struct DirNode {
    pub name: String,
    pub path: String,
    pub is_dir: bool,
    pub children: Vec<DirNode>,
}

/// Folders/files we never want in AI context.
pub open spec fn ignored_name(n: Seq<char>) -> bool {
    ||| n == ".git"@
    ||| n == ".github"@
    ||| n == "target"@
    ||| n == "node_modules"@
    ||| n == ".DS_Store"@
    ||| n == "dist"@
    ||| n == "build"@
    ||| n == ".idea"@
    ||| n == ".vscode"@
    ||| n == ".gitignore"@
}

/// Whether a file or folder name is one the walk skips.
pub fn is_ignored(name: &str) -> (ignored: bool)
    ensures
        ignored == ignored_name(name@),
{
    same_text(name, ".git") || same_text(name, ".github") || same_text(name, "target")
        || same_text(name, "node_modules") || same_text(name, ".DS_Store") || same_text(name, "dist")
        || same_text(name, "build") || same_text(name, ".idea") || same_text(name, ".vscode")
        || same_text(name, ".gitignore")
}

/// Item `a` of a listing is walked before item `b`: folders before files, then
/// names in order, and equal names in listing order.
pub open spec fn walk_before(items: Seq<DirNode>, a: usize, b: usize) -> bool {
    let x = items[a as int];
    let y = items[b as int];
    if x.is_dir != y.is_dir {
        x.is_dir
    } else if x.name@ != y.name@ {
        text_lt(x.name@, y.name@)
    } else {
        a < b
    }
}

/// `order` lists, in walk order, exactly the indices of the listing's items
/// whose names are not ignored.
pub open spec fn is_walk_order(items: Seq<DirNode>, order: Seq<usize>) -> bool {
    &&& strictly_sorted(order, |a: usize, b: usize| walk_before(items, a, b))
    &&& forall|i: usize| #[trigger] order.contains(i) <==> (i < items.len() && !ignored_name(items[i as int].name@))
}

/// The walk order of a listing.
pub open spec fn walk_order(items: Seq<DirNode>) -> Seq<usize> {
    choose|order: Seq<usize>| is_walk_order(items, order)
}

/// The walk order is a strict order.
pub proof fn lemma_walk_before_strict(items: Seq<DirNode>)
    ensures
        strict_order(|a: usize, b: usize| walk_before(items, a, b)),
{
    let lt = |a: usize, b: usize| walk_before(items, a, b);
    assert forall|x: usize| !#[trigger] lt(x, x) by {
        lemma_text_lt_order(items[x as int].name@, items[x as int].name@, items[x as int].name@);
    }
    assert forall|x: usize, y: usize, z: usize| #[trigger] lt(x, y) && #[trigger] lt(y, z) implies lt(x, z) by {
        lemma_text_lt_order(items[x as int].name@, items[y as int].name@, items[z as int].name@);
        lemma_text_lt_order(items[x as int].name@, items[z as int].name@, items[y as int].name@);
        lemma_text_lt_order(items[y as int].name@, items[x as int].name@, items[z as int].name@);
    }
}

/// Of two different items one is walked first.
pub proof fn lemma_walk_before_total(items: Seq<DirNode>, a: usize, b: usize)
    requires
        a != b,
    ensures
        walk_before(items, a, b) || walk_before(items, b, a),
{
    lemma_text_lt_order(items[a as int].name@, items[b as int].name@, items[b as int].name@);
}

/// Whether item `a` is walked before item `b`.
fn comes_before(items: &[DirNode], a: usize, b: usize) -> (before: bool)
    requires
        a < items@.len(),
        b < items@.len(),
    ensures
        before == walk_before(items@, a, b),
{
    let x = &items[a];
    let y = &items[b];
    if x.is_dir != y.is_dir {
        x.is_dir
    } else if !same_text(x.name.as_str(), y.name.as_str()) {
        text_less(x.name.as_str(), y.name.as_str())
    } else {
        a < b
    }
}

/// The indices of a listing's items in walk order, ignored names left out.
pub fn order_listing(items: &[DirNode]) -> (order: Vec<usize>)
    ensures
        is_walk_order(items@, order@),
        order@ == walk_order(items@),
{
    let ghost lt = |a: usize, b: usize| walk_before(items@, a, b);
    proof {
        lemma_walk_before_strict(items@);
    }
    let mut order: Vec<usize> = Vec::new();
    let n = items.len();
    let mut i: usize = 0;
    while i < n
        invariant
            n == items@.len(),
            i <= n,
            strict_order(lt),
            lt == (|a: usize, b: usize| walk_before(items@, a, b)),
            strictly_sorted(order@, lt),
            forall|k: usize| #[trigger] order@.contains(k) <==> (k < i && !ignored_name(items@[k as int].name@)),
        decreases n - i,
    {
        if !is_ignored(items[i].name.as_str()) {
            let mut p: usize = 0;
            proof {
                assert forall|q: int| 0 <= q < order@.len() implies #[trigger] order@[q] < i by {
                    assert(order@.contains(order@[q]));
                }
            }
            while p < order.len() && !comes_before(items, i, order[p])
                invariant
                    n == items@.len(),
                    i < n,
                    p <= order@.len(),
                    forall|k: usize| #[trigger] order@.contains(k) ==> k < i,
                    forall|q: int| 0 <= q < order@.len() ==> #[trigger] order@[q] < i,
                    forall|q: int| 0 <= q < p ==> !walk_before(items@, i, #[trigger] order@[q]),
                decreases order@.len() - p,
            {
                assert(order@.contains(order@[p as int]));
                p += 1;
            }
            let ghost old_order = order@;
            order.insert(p, i);
            proof {
                assert forall|a: int, b: int| 0 <= a < b < order@.len() implies lt(#[trigger] order@[a], #[trigger] order@[b]) by {
                    if b < p {
                        assert(order@[a] == old_order[a] && order@[b] == old_order[b]);
                    } else if b == p {
                        assert(order@[a] == old_order[a]);
                        assert(old_order[a] < i);
                        assert(!walk_before(items@, i, old_order[a]));
                        lemma_walk_before_total(items@, i, old_order[a]);
                    } else if a == p {
                        assert(order@[b] == old_order[b - 1]);
                        assert(walk_before(items@, i, old_order[p as int]));
                        if b - 1 > p {
                            assert(lt(old_order[p as int], old_order[b - 1]));
                            assert(lt(i, old_order[p as int]));
                        }
                    } else if a < p {
                        assert(order@[a] == old_order[a] && order@[b] == old_order[b - 1]);
                        assert(old_order[a] < i);
                        assert(!walk_before(items@, i, old_order[a]));
                        lemma_walk_before_total(items@, i, old_order[a]);
                        assert(lt(old_order[a], i));
                        assert(lt(i, old_order[p as int]));
                        if b - 1 > p {
                            assert(lt(old_order[p as int], old_order[b - 1]));
                        }
                    } else {
                        assert(order@[a] == old_order[a - 1] && order@[b] == old_order[b - 1]);
                    }
                }
                assert forall|k: usize| #[trigger] order@.contains(k) <==> (k < i + 1 && !ignored_name(items@[k as int].name@)) by {
                    if order@.contains(k) {
                        let q = choose|q: int| 0 <= q < order@.len() && order@[q] == k;
                        if q < p {
                            assert(old_order[q] == k);
                            assert(old_order.contains(k));
                        } else if q > p {
                            assert(old_order[q - 1] == k);
                            assert(old_order.contains(k));
                        }
                    }
                    if k < i + 1 && !ignored_name(items@[k as int].name@) {
                        if k == i {
                            assert(order@[p as int] == i);
                        } else {
                            assert(old_order.contains(k));
                            let q = choose|q: int| 0 <= q < old_order.len() && old_order[q] == k;
                            if q < p {
                                assert(order@[q] == k);
                            } else {
                                assert(order@[q + 1] == k);
                            }
                        }
                    }
                }
            }
        }
        i += 1;
    }
    proof {
        assert(is_walk_order(items@, order@));
        let w = walk_order(items@);
        assert(is_walk_order(items@, w));
        lemma_sorted_unique(order@, w, lt);
    }
    order
}

/// A walk order of the first `k` items: strictly in walk order, holding
/// exactly the indices below `k` whose names are not ignored.
proof fn lemma_prefix_order(items: Seq<DirNode>, k: int) -> (order: Seq<usize>)
    requires
        0 <= k <= items.len(),
        k <= usize::MAX + 1,
    ensures
        strictly_sorted(order, |a: usize, b: usize| walk_before(items, a, b)),
        forall|i: usize| #[trigger] order.contains(i) <==> (i < k && !ignored_name(items[i as int].name@)),
    decreases k,
{
    let lt = |a: usize, b: usize| walk_before(items, a, b);
    if k == 0 {
        Seq::empty()
    } else {
        let o = lemma_prefix_order(items, k - 1);
        let x = (k - 1) as usize;
        if ignored_name(items[k - 1].name@) {
            o
        } else {
            lemma_walk_before_strict(items);
            let p = lemma_insert_point(o, x, lt);
            assert forall|q: int| 0 <= q < p implies lt(#[trigger] o[q], x) by {
                assert(o.contains(o[q]));
                assert(o[q] != x);
                lemma_walk_before_total(items, o[q], x);
            }
            lemma_insert_sorted(o, x, p, lt);
            let r = o.insert(p, x);
            assert forall|i: usize| #[trigger] r.contains(i) <==> (i < k && !ignored_name(items[i as int].name@)) by {
                assert(x as int == k - 1);
                assert(r.contains(i) <==> (o.contains(i) || i == x));
                assert(o.contains(i) <==> (i < k - 1 && !ignored_name(items[i as int].name@)));
            }
            r
        }
    }
}

/// Every listing has a walk order, so `walk_order` is one.
pub proof fn lemma_walk_order_exists(items: Seq<DirNode>)
    ensures
        is_walk_order(items, walk_order(items)),
{
    let k = if items.len() <= usize::MAX { items.len() as int } else { usize::MAX + 1 };
    let o = lemma_prefix_order(items, k);
    assert(is_walk_order(items, o));
}

/// Every walked folder can be entered one level deeper without the depth
/// counter overflowing.
pub open spec fn depth_room(items: Seq<DirNode>, depth: int) -> bool
    decreases items,
{
    forall|i: int|
        0 <= i < items.len() && (#[trigger] items[i]).is_dir && !ignored_name(items[i].name@) ==> depth + 1
            <= usize::MAX && depth_room(items[i].children@, depth + 1)
}

/// Whether every walked folder can be entered one level deeper without the
/// depth counter overflowing.
pub fn has_depth_room(items: &[DirNode], depth: usize) -> (room: bool)
    ensures
        room == depth_room(items@, depth as int),
    decreases items@,
{
    let mut i: usize = 0;
    while i < items.len()
        invariant
            i <= items@.len(),
            forall|k: int|
                0 <= k < i && (#[trigger] items@[k]).is_dir && !ignored_name(items@[k].name@) ==> depth + 1
                    <= usize::MAX && depth_room(items@[k].children@, depth + 1),
        decreases items@.len() - i,
    {
        let node = &items[i];
        if node.is_dir && !is_ignored(node.name.as_str()) {
            if depth == usize::MAX {
                assert(items@[i as int] == *node);
                return false;
            }
            if !has_depth_room(node.children.as_slice(), depth + 1) {
                assert(items@[i as int] == *node);
                return false;
            }
        }
        i += 1;
    }
    true
}

/// The rows of a walk over a listing at `depth`: each item in walk order, and
/// after a folder the rows of its own listing one level deeper.
pub open spec fn rows_of(items: Seq<DirNode>, depth: int) -> Seq<(Seq<char>, int, bool)>
    decreases items, 1int, 0int,
{
    rows_from(items, walk_order(items), 0, depth)
}

/// The rows of the items at `order[k..]`.
pub open spec fn rows_from(items: Seq<DirNode>, order: Seq<usize>, k: int, depth: int) -> Seq<
    (Seq<char>, int, bool),
>
    decreases items, 0int, order.len() - k,
{
    if k < 0 || k >= order.len() || order[k] >= items.len() {
        Seq::empty()
    } else {
        let node = items[order[k] as int];
        seq![(node.path@, depth, node.is_dir)] + (if node.is_dir {
            rows_of(node.children@, depth + 1)
        } else {
            Seq::empty()
        }) + rows_from(items, order, k + 1, depth)
    }
}

/// A row as a plain value.
pub open spec fn entry_view(e: Entry) -> (Seq<char>, int, bool) {
    (e.path@, e.depth as int, e.is_dir)
}

/// Rows as plain values.
pub open spec fn entry_views(s: Seq<Entry>) -> Seq<(Seq<char>, int, bool)> {
    s.map_values(|e: Entry| entry_view(e))
}

fn walk(items: &[DirNode], depth: usize, out: &mut Vec<Entry>)
    requires
        depth_room(items@, depth as int),
    ensures
        entry_views(final(out)@) == entry_views(old(out)@) + rows_of(items@, depth as int),
    decreases items@,
{
    let order = order_listing(items);
    let ghost start = entry_views(out@);
    let mut k: usize = 0;
    while k < order.len()
        invariant
            is_walk_order(items@, order@),
            order@ == walk_order(items@),
            depth_room(items@, depth as int),
            k <= order@.len(),
            entry_views(out@) + rows_from(items@, order@, k as int, depth as int) == start + rows_from(
                items@,
                order@,
                0,
                depth as int,
            ),
        decreases order@.len() - k,
    {
        let ghost before = entry_views(out@);
        let idx = order[k];
        assert(order@.contains(idx));
        let node = &items[idx];
        out.push(Entry { path: node.path.clone(), depth, is_dir: node.is_dir });
        let ghost after_push = entry_views(out@);
        assert(after_push =~= before + seq![(node.path@, depth as int, node.is_dir)]);
        if node.is_dir {
            assert(depth_room(items@, depth as int));
            assert(items@[idx as int] == *node);
            assert(depth + 1 <= usize::MAX && depth_room(node.children@, depth + 1));
            walk(node.children.as_slice(), depth + 1, out);
        }
        proof {
            let sub = if node.is_dir { rows_of(node.children@, depth + 1) } else { Seq::empty() };
            assert(entry_views(out@) == after_push + sub);
            assert(rows_from(items@, order@, k as int, depth as int) == seq![(node.path@, depth as int, node.is_dir)] + sub
                + rows_from(items@, order@, k + 1, depth as int));
            assert(entry_views(out@) + rows_from(items@, order@, k + 1, depth as int) =~= before + rows_from(
                items@,
                order@,
                k as int,
                depth as int,
            ));
        }
        k += 1;
    }
}

/// Recursively walk a listing, returning every (non-ignored) folder and file.
/// Folders come before files at each level, both sorted alphabetically.
pub fn walk_tree(items: &[DirNode]) -> (entries: Vec<Entry>)
    requires
        depth_room(items@, 0),
    ensures
        entry_views(entries@) == rows_of(items@, 0),
        forall|chain: Seq<int>|
            is_chain(items@, chain) ==> #[trigger] entry_views(entries@).contains(
                (chain_node(items@, chain).path@, chain.len() - 1, chain_node(items@, chain).is_dir),
            ),
{
    let mut entries: Vec<Entry> = Vec::new();
    walk(items, 0, &mut entries);
    assert(entry_views(Seq::<Entry>::empty()) =~= Seq::empty());
    assert(Seq::<(Seq<char>, int, bool)>::empty() + rows_of(items@, 0) =~= rows_of(items@, 0));
    proof {
        assert forall|chain: Seq<int>|
            is_chain(items@, chain) implies #[trigger] entry_views(entries@).contains(
                (chain_node(items@, chain).path@, chain.len() - 1, chain_node(items@, chain).is_dir),
            ) by {
            lemma_walk_reaches_every_item(items@, chain, 0);
        }
    }
    entries
}

/// The item reached by following `chain` down a listing: the item at
/// `chain[0]`, then within its own listing the item at `chain[1]`, and so on.
pub open spec fn chain_node(items: Seq<DirNode>, chain: Seq<int>) -> DirNode
    decreases chain.len(),
{
    if chain.len() <= 1 {
        items[chain[0]]
    } else {
        chain_node(items[chain[0]].children@, chain.drop_first())
    }
}

/// `chain` leads down a listing through items whose names are not ignored:
/// each index names an item of the listing reached so far, and every item
/// but the last is a folder.
pub open spec fn is_chain(items: Seq<DirNode>, chain: Seq<int>) -> bool
    decreases chain.len(),
{
    &&& chain.len() > 0
    &&& 0 <= chain[0] < items.len()
    &&& chain[0] <= usize::MAX
    &&& !ignored_name(items[chain[0]].name@)
    &&& (chain.len() > 1 ==> items[chain[0]].is_dir && is_chain(items[chain[0]].children@, chain.drop_first()))
}

/// The rows from position `k` of a walk order on hold the row of every item
/// at a later position, and, for a folder, every row of its own walk.
proof fn lemma_rows_from_has(items: Seq<DirNode>, order: Seq<usize>, k: int, q: int, depth: int)
    requires
        0 <= k <= q < order.len(),
        forall|m: int| 0 <= m < order.len() ==> #[trigger] order[m] < items.len(),
    ensures
        ({
            let node = items[order[q] as int];
            &&& rows_from(items, order, k, depth).contains((node.path@, depth, node.is_dir))
            &&& node.is_dir ==> forall|r: (Seq<char>, int, bool)|
                rows_of(node.children@, depth + 1).contains(r) ==> #[trigger] rows_from(items, order, k, depth).contains(r)
        }),
    decreases q - k,
{
    let node = items[order[k] as int];
    let head = seq![(node.path@, depth, node.is_dir)];
    let sub = if node.is_dir { rows_of(node.children@, depth + 1) } else { Seq::empty() };
    let tail = rows_from(items, order, k + 1, depth);
    assert(order[k] < items.len());
    assert(rows_from(items, order, k, depth) == head + sub + tail);
    if k == q {
        assert(head[0] == (node.path@, depth, node.is_dir));
        lemma_concat_contains(head, sub, (node.path@, depth, node.is_dir));
        lemma_concat_contains(head + sub, tail, (node.path@, depth, node.is_dir));
        if node.is_dir {
            assert forall|r: (Seq<char>, int, bool)|
                rows_of(node.children@, depth + 1).contains(r) implies #[trigger] rows_from(items, order, k, depth).contains(r) by {
                lemma_concat_contains(head, sub, r);
                lemma_concat_contains(head + sub, tail, r);
            }
        }
    } else {
        lemma_rows_from_has(items, order, k + 1, q, depth);
        let target = items[order[q] as int];
        lemma_concat_contains(head + sub, tail, (target.path@, depth, target.is_dir));
        if target.is_dir {
            assert forall|r: (Seq<char>, int, bool)|
                rows_of(target.children@, depth + 1).contains(r) implies #[trigger] rows_from(items, order, k, depth).contains(r) by {
                assert(tail.contains(r));
                lemma_concat_contains(head + sub, tail, r);
            }
        }
    }
}

/// The walk is complete: following any chain of items whose names are not
/// ignored down from a listing walked at `depth` reaches an item that the walk
/// lists as a row, with its path and kind, one level deeper per step taken.
pub proof fn lemma_walk_reaches_every_item(items: Seq<DirNode>, chain: Seq<int>, depth: int)
    requires
        is_chain(items, chain),
    ensures
        rows_of(items, depth).contains(
            (chain_node(items, chain).path@, depth + chain.len() - 1, chain_node(items, chain).is_dir),
        ),
    decreases chain.len(),
{
    let order = walk_order(items);
    lemma_walk_order_exists(items);
    let i = chain[0] as usize;
    assert(order.contains(i));
    let q = choose|q: int| 0 <= q < order.len() && order[q] == i;
    assert forall|m: int| 0 <= m < order.len() implies #[trigger] order[m] < items.len() by {
        assert(order.contains(order[m]));
    }
    lemma_rows_from_has(items, order, 0, q, depth);
    assert(rows_of(items, depth) == rows_from(items, order, 0, depth));
    if chain.len() > 1 {
        let node = items[chain[0]];
        lemma_walk_reaches_every_item(node.children@, chain.drop_first(), depth + 1);
        let r = (chain_node(items, chain).path@, depth + chain.len() - 1, chain_node(items, chain).is_dir);
        assert(r == (chain_node(node.children@, chain.drop_first()).path@, (depth + 1) + chain.drop_first().len() - 1,
            chain_node(node.children@, chain.drop_first()).is_dir));
        assert(rows_of(node.children@, depth + 1).contains(r));
    }
}

/// The walk order puts every folder before every file, and items of the same
/// kind in order of their names (byte by byte); ignored names are left out and
/// every other item is walked.
pub proof fn lemma_walk_order_sorts(items: Seq<DirNode>, a: int, b: int)
    requires
        0 <= a < b < walk_order(items).len(),
    ensures
        ({
            let x = items[walk_order(items)[a] as int];
            let y = items[walk_order(items)[b] as int];
            &&& x.is_dir || !y.is_dir
            &&& x.is_dir == y.is_dir ==> x.name@ == y.name@ || text_lt(x.name@, y.name@)
            &&& !ignored_name(x.name@) && !ignored_name(y.name@)
        }),
{
    lemma_walk_order_exists(items);
    let o = walk_order(items);
    assert(walk_before(items, o[a], o[b]));
    assert(o.contains(o[a]) && o.contains(o[b]));
}

/// The names the walk skips, and that it skips no others.
pub proof fn lemma_ignored_names()
    ensures
        ignored_name(".git"@),
        ignored_name(".github"@),
        ignored_name("target"@),
        ignored_name("node_modules"@),
        ignored_name(".DS_Store"@),
        ignored_name("dist"@),
        ignored_name("build"@),
        ignored_name(".idea"@),
        ignored_name(".vscode"@),
        ignored_name(".gitignore"@),
        forall|n: Seq<char>| #[trigger] ignored_name(n) ==> n.len() >= 4 && (n[0] == '.' || n == "target"@ || n
            == "node_modules"@ || n == "dist"@ || n == "build"@),
{
    reveal_strlit(".git");
    reveal_strlit(".github");
    reveal_strlit("target");
    reveal_strlit("node_modules");
    reveal_strlit(".DS_Store");
    reveal_strlit("dist");
    reveal_strlit("build");
    reveal_strlit(".idea");
    reveal_strlit(".vscode");
    reveal_strlit(".gitignore");
}

} // verus!
