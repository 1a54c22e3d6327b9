//! The flat, pre-order list of rows that the picker shows, and the pure
//! operations on it: subtree ranges, selection toggling, parent links,
//! visibility and cursor/scroll arithmetic.

use vstd::prelude::*;

verus! {

/// One node from a directory walk: where it is, how deep, and whether it's a folder.
pub struct Entry {
    pub path: String,
    pub depth: usize,
    pub is_dir: bool,
}

/// Depth of row `i`.
pub open spec fn depth_at(entries: Seq<Entry>, i: int) -> int {
    entries[i].depth as int
}

/// Every row strictly between `i` and `k` (inclusive of `k`) is deeper than row `i`:
/// `k` lies inside the subtree rooted at `i` (or `k == i`).
pub open spec fn within_subtree(entries: Seq<Entry>, i: int, k: int) -> bool {
    forall|m: int| i < m <= k ==> #[trigger] depth_at(entries, m) > depth_at(entries, i)
}

/// `end` is the exclusive end of the subtree rooted at row `i`: the rows after `i`
/// and before `end` are all deeper than `i`, and `end` is the list's end or a row
/// no deeper than `i`.
pub open spec fn is_subtree_end(entries: Seq<Entry>, i: int, end: int) -> bool {
    &&& i < end <= entries.len()
    &&& within_subtree(entries, i, end - 1)
    &&& (end == entries.len() || depth_at(entries, end) <= depth_at(entries, i))
}

/// Exclusive end index of the subtree rooted at `index`. Because the walk
/// emits entries in pre-order, a node's descendants are exactly the following
/// rows with a greater depth.
pub fn subtree_end(entries: &[Entry], index: usize) -> (end: usize)
    requires
        index < entries@.len(),
    ensures
        is_subtree_end(entries@, index as int, end as int),
{
    let depth = entries[index].depth;
    let mut end = index + 1;
    while end < entries.len() && entries[end].depth > depth
        invariant
            index < end <= entries@.len(),
            depth == entries@[index as int].depth,
            within_subtree(entries@, index as int, end - 1),
        decreases entries@.len() - end,
    {
        end += 1;
    }
    end
}

/// The subtree end is unique: any two ends of the same subtree coincide.
pub proof fn lemma_subtree_end_unique(entries: Seq<Entry>, i: int, e1: int, e2: int)
    requires
        is_subtree_end(entries, i, e1),
        is_subtree_end(entries, i, e2),
    ensures
        e1 == e2,
{
    if e1 < e2 {
        assert(depth_at(entries, e1) > depth_at(entries, i));
    } else if e2 < e1 {
        assert(depth_at(entries, e2) > depth_at(entries, i));
    }
}

/// `after` is `before` with row `index` and every row of its subtree set to the
/// negation of `before[index]`, and all other rows as they were.
pub open spec fn is_toggled(entries: Seq<Entry>, before: Seq<bool>, index: int, after: Seq<bool>) -> bool {
    &&& after.len() == before.len()
    &&& exists|end: int|
        #![trigger is_subtree_end(entries, index, end)]
        {
            &&& is_subtree_end(entries, index, end)
            &&& forall|k: int|
                0 <= k < before.len() ==> #[trigger] after[k] == if index <= k < end {
                    !before[index]
                } else {
                    before[k]
                }
        }
}

/// Toggle the row under the cursor. For a folder this flips the folder and all
/// of its descendants to the same new value; for a file it flips only the file.
pub fn toggle(entries: &[Entry], checked: &mut [bool], index: usize)
    requires
        index < entries@.len(),
        index < old(checked)@.len(),
    ensures
        is_toggled(entries@, old(checked)@, index as int, final(checked)@),
{
    let new_value = !checked[index];
    let end = subtree_end(entries, index);
    let mut slot = index;
    while slot < end && slot < checked.len()
        invariant
            index <= slot <= end,
            is_subtree_end(entries@, index as int, end as int),
            new_value == !old(checked)@[index as int],
            checked@.len() == old(checked)@.len(),
            forall|k: int|
                0 <= k < checked@.len() ==> #[trigger] checked@[k] == if index <= k < slot {
                    new_value
                } else {
                    old(checked)@[k]
                },
        decreases end - slot,
    {
        checked[slot] = new_value;
        slot += 1;
    }
    assert(is_subtree_end(entries@, index as int, end as int));
}


/// Row `j` is a folder whose subtree still contains row `i`.
pub open spec fn encloses(entries: Seq<Entry>, j: int, i: int) -> bool {
    &&& 0 <= j < i
    &&& entries[j].is_dir
    &&& within_subtree(entries, j, i)
}

/// `link` names the enclosing folder of row `i`: the nearest earlier folder whose
/// subtree contains `i`, or none when no earlier folder does.
pub open spec fn is_parent_link(entries: Seq<Entry>, i: int, link: Option<usize>) -> bool {
    match link {
        Some(j) => {
            &&& encloses(entries, j as int, i)
            &&& forall|m: int| j < m < i ==> !#[trigger] encloses(entries, m, i)
        },
        None => forall|j: int| !#[trigger] encloses(entries, j, i),
    }
}

/// `p` lists the enclosing folder of every row of `entries`.
pub open spec fn are_parent_links(entries: Seq<Entry>, p: Seq<Option<usize>>) -> bool {
    &&& p.len() == entries.len()
    &&& forall|i: int| 0 <= i < entries.len() ==> is_parent_link(entries, i, #[trigger] p[i])
}

/// The folders that are still open after `done` rows: exactly the earlier
/// folders whose subtree reaches row `done - 1`, ordered by index and depth.
spec fn open_stack(entries: Seq<Entry>, stack: Seq<usize>, done: int) -> bool {
    &&& forall|a: int|
        0 <= a < stack.len() ==> encloses(entries, #[trigger] stack[a] as int, done - 1)
            || stack[a] == done - 1 && entries[done - 1].is_dir
    &&& forall|a: int| 0 <= a < stack.len() ==> #[trigger] stack[a] < done
    &&& forall|a: int, b: int|
        0 <= a < b < stack.len() ==> #[trigger] stack[a] < #[trigger] stack[b] && depth_at(
            entries,
            stack[a] as int,
        ) < depth_at(entries, stack[b] as int)
    &&& forall|j: int|
        0 <= j < done && entries[j].is_dir && within_subtree(entries, j, done - 1)
            ==> #[trigger] stack.contains(j as usize)
}

/// For each entry, the index of its enclosing folder (None for top-level rows).
/// Relies on the walk's pre-order output: an entry's parent is the nearest
/// earlier folder one depth shallower.
pub fn parent_indices(entries: &[Entry]) -> (parents: Vec<Option<usize>>)
    ensures
        are_parent_links(entries@, parents@),
{
    let mut parents: Vec<Option<usize>> = Vec::new();
    let mut ancestors: Vec<usize> = Vec::new();
    let n = entries.len();
    let mut i: usize = 0;
    while i < n
        invariant
            n == entries@.len(),
            i <= n,
            parents@.len() == i,
            open_stack(entries@, ancestors@, i as int),
            forall|k: int| 0 <= k < i ==> is_parent_link(entries@, k, #[trigger] parents@[k]),
        decreases n - i,
    {
        let d = entries[i].depth;
        let ghost start = ancestors@;
        while ancestors.len() > 0 && entries[ancestors[ancestors.len() - 1]].depth >= d
            invariant
                n == entries@.len(),
                i < n,
                d == entries@[i as int].depth,
                open_stack(entries@, start, i as int),
                ancestors@.len() <= start.len(),
                ancestors@ == start.subrange(0, ancestors@.len() as int),
                forall|a: int|
                    ancestors@.len() <= a < start.len() ==> depth_at(entries@, #[trigger] start[a] as int)
                        >= d,
            decreases ancestors@.len(),
        {
            ancestors.pop();
        }
        proof {
            let len = ancestors@.len() as int;
            // every remaining folder is shallower than row i
            assert forall|a: int| 0 <= a < len implies depth_at(entries@, #[trigger] ancestors@[a] as int) < d by {
                assert(ancestors@[a] == start[a]);
                assert(ancestors@[len - 1] == start[len - 1]);
                if a < len - 1 {
                    assert(start[a] < start[len - 1]);
                }
            }
        }
        let p: Option<usize> = if ancestors.len() > 0 {
            Some(ancestors[ancestors.len() - 1])
        } else {
            None
        };
        proof {
            let len = ancestors@.len() as int;
            assert forall|j: int| #[trigger] encloses(entries@, j, i as int) implies ancestors@.contains(j as usize) by {
                assert(within_subtree(entries@, j, i - 1));
                assert(start.contains(j as usize));
                let a = choose|a: int| 0 <= a < start.len() && start[a] == j as usize;
                assert(depth_at(entries@, i as int) > depth_at(entries@, j));
                if a >= len {
                    assert(depth_at(entries@, start[a] as int) >= d);
                }
                assert(ancestors@[a] == j as usize);
            }
            assert forall|a: int| 0 <= a < len implies encloses(entries@, #[trigger] ancestors@[a] as int, i as int) by {
                assert(ancestors@[a] == start[a]);
                let j = start[a] as int;
                assert(depth_at(entries@, j) < d);
                assert(encloses(entries@, j, i - 1) || j == i - 1 && entries@[i - 1].is_dir);
                assert forall|m: int| j < m <= i implies #[trigger] depth_at(entries@, m) > depth_at(entries@, j) by {
                    if m < i {
                        assert(within_subtree(entries@, j, i - 1));
                    }
                }
            }
            match p {
                Some(j) => {
                    assert(ancestors@[len - 1] == j);
                    assert forall|m: int| j < m < i implies !#[trigger] encloses(entries@, m, i as int) by {
                        if encloses(entries@, m, i as int) {
                            let b = choose|b: int| 0 <= b < len && ancestors@[b] == m as usize;
                            if b < len - 1 {
                                assert(ancestors@[b] < ancestors@[len - 1]);
                            }
                        }
                    }
                },
                None => {
                    assert forall|j: int| !#[trigger] encloses(entries@, j, i as int) by {
                        if encloses(entries@, j, i as int) {
                            assert(ancestors@.contains(j as usize));
                        }
                    }
                },
            }
        }
        let ghost mid = ancestors@;
        parents.push(p);
        if entries[i].is_dir {
            ancestors.push(i);
        }
        proof {
            let st = ancestors@;
            assert forall|j: int|
                0 <= j < i + 1 && entries@[j].is_dir && within_subtree(entries@, j, i as int)
                    implies #[trigger] st.contains(j as usize) by {
                if j == i {
                    assert(st[st.len() - 1] == i);
                } else {
                    assert(encloses(entries@, j, i as int));
                    assert(mid.contains(j as usize));
                    let a = choose|a: int| 0 <= a < mid.len() && mid[a] == j as usize;
                    assert(st[a] == j as usize);
                }
            }
        }
        i += 1;
    }
    parents
}


/// Row `i` is shown: a top-level row always is; any other row is shown when its
/// folder comes before it, is itself shown, and is open.
pub open spec fn shown(parents: Seq<Option<usize>>, expanded: Seq<bool>, i: int) -> bool
    decreases i,
{
    if i < 0 {
        false
    } else {
        match parents[i] {
            None => true,
            Some(p) => if p < i {
                shown(parents, expanded, p as int) && expanded[p as int]
            } else {
                false
            },
        }
    }
}

/// The links can be followed: every linked folder is a row of the list, and
/// an open-state is recorded for it whenever it is reached as a shown row.
pub open spec fn links_in_range(n: int, parents: Seq<Option<usize>>, expanded: Seq<bool>) -> bool {
    &&& parents.len() >= n
    &&& forall|i: int|
        0 <= i < n ==> match #[trigger] parents[i] {
            None => true,
            Some(p) => p < n && (p < i && shown(parents, expanded, p as int) ==> p < expanded.len()),
        }
}

/// `visible` lists, in increasing order, exactly the shown rows among the first `n`.
pub open spec fn lists_shown_rows(
    n: int,
    parents: Seq<Option<usize>>,
    expanded: Seq<bool>,
    visible: Seq<usize>,
) -> bool {
    &&& forall|k: int|
        0 <= k < visible.len() ==> #[trigger] visible[k] < n && shown(parents, expanded, visible[k] as int)
    &&& forall|a: int, b: int| 0 <= a < b < visible.len() ==> #[trigger] visible[a] < #[trigger] visible[b]
    &&& forall|i: int| 0 <= i < n && shown(parents, expanded, i) ==> #[trigger] visible.contains(i as usize)
}

/// Indices of the rows that should be shown: a row is visible when every folder
/// above it is open (expanded). Top-level rows are always visible.
pub fn visible_indices(entries: &[Entry], parents: &[Option<usize>], expanded: &[bool]) -> (visible: Vec<usize>)
    requires
        links_in_range(entries@.len() as int, parents@, expanded@),
    ensures
        lists_shown_rows(entries@.len() as int, parents@, expanded@, visible@),
{
    let n = entries.len();
    let mut is_visible: Vec<bool> = vec![false; n];
    let mut visible: Vec<usize> = Vec::new();
    let mut i: usize = 0;
    while i < n
        invariant
            n == entries@.len(),
            i <= n,
            links_in_range(n as int, parents@, expanded@),
            is_visible@.len() == n,
            forall|k: int| 0 <= k < n ==> #[trigger] is_visible@[k] == (k < i && shown(parents@, expanded@, k)),
            forall|k: int| 0 <= k < visible@.len() ==> #[trigger] visible@[k] < i && shown(parents@, expanded@, visible@[k] as int),
            forall|a: int, b: int| 0 <= a < b < visible@.len() ==> #[trigger] visible@[a] < #[trigger] visible@[b],
            forall|k: int| 0 <= k < i && shown(parents@, expanded@, k) ==> #[trigger] visible@.contains(k as usize),
        decreases n - i,
    {
        let link = parents[i];
        assert(links_in_range(n as int, parents@, expanded@));
        assert(link == parents@[i as int]);
        let now_shown = match link {
            None => true,
            Some(parent) => is_visible[parent] && expanded[parent],
        };
        assert(now_shown == shown(parents@, expanded@, i as int));
        is_visible.set(i, now_shown);
        if now_shown {
            let ghost before = visible@;
            visible.push(i);
            assert forall|k: int| 0 <= k <= i && shown(parents@, expanded@, k) implies #[trigger] visible@.contains(k as usize) by {
                if k == i {
                    assert(visible@[visible@.len() - 1] == i);
                } else {
                    assert(before.contains(k as usize));
                    let a = choose|a: int| 0 <= a < before.len() && before[a] == k as usize;
                    assert(visible@[a] == k as usize);
                }
            }
        }
        i += 1;
    }
    visible
}


/// `a - b`, or zero when `b` is the larger.
pub open spec fn sat_sub(a: int, b: int) -> int {
    if a > b {
        a - b
    } else {
        0
    }
}

/// Move the cursor up by `step`, stopping at the top.
pub fn move_up(cursor: usize, step: usize) -> (moved: usize)
    ensures
        moved == sat_sub(cursor as int, step as int),
{
    cursor.saturating_sub(step)
}

/// Move the cursor down by `step`, stopping at the last row.
pub fn move_down(cursor: usize, step: usize, len: usize) -> (moved: usize)
    requires
        cursor + step <= usize::MAX,
    ensures
        moved == if cursor + step < sat_sub(len as int, 1) {
            cursor + step
        } else {
            sat_sub(len as int, 1)
        },
{
    let target = cursor + step;
    let last = len.saturating_sub(1);
    if target < last {
        target
    } else {
        last
    }
}

/// The first visible row after scrolling just far enough to bring `cursor`
/// into a window of `viewport` rows that starts at `scroll`, before the window
/// is pulled back from past the end of a `len`-row list.
pub open spec fn follow_cursor(cursor: int, scroll: int, viewport: int) -> int {
    if cursor < scroll {
        cursor
    } else if cursor >= scroll + viewport {
        cursor + 1 - viewport
    } else {
        scroll
    }
}

/// The scroll offset the picker uses: the window follows the cursor, but never
/// starts later than `len - viewport` (zero when the list fits).
pub open spec fn scroll_for(cursor: int, scroll: int, viewport: int, len: int) -> int {
    let s = follow_cursor(cursor, scroll, viewport);
    let max_scroll = sat_sub(len, viewport);
    if s < max_scroll {
        s
    } else {
        max_scroll
    }
}

/// Compute the first-visible-row offset that keeps `cursor` within a window of
/// `viewport` rows, without scrolling past the end of a `len`-item list.
pub fn clamp_scroll(cursor: usize, scroll: usize, viewport: usize, len: usize) -> (first: usize)
    requires
        cursor >= scroll ==> scroll + viewport <= usize::MAX,
        cursor >= scroll + viewport ==> cursor < usize::MAX,
    ensures
        first == scroll_for(cursor as int, scroll as int, viewport as int, len as int),
{
    let mut scroll = scroll;
    if cursor < scroll {
        scroll = cursor;
    } else if cursor >= scroll + viewport {
        scroll = cursor + 1 - viewport;
    }
    let max_scroll = len.saturating_sub(viewport);
    if scroll < max_scroll {
        scroll
    } else {
        max_scroll
    }
}

/// A cursor on a row of the list stays inside the scrolled window, and the
/// window never starts past the point where it would run off the list's end.
pub proof fn lemma_scroll_keeps_cursor_in_view(cursor: int, scroll: int, viewport: int, len: int)
    requires
        0 <= cursor < len,
        0 <= scroll,
        1 <= viewport,
    ensures
        scroll_for(cursor, scroll, viewport, len) <= cursor < scroll_for(cursor, scroll, viewport, len)
            + viewport,
        scroll_for(cursor, scroll, viewport, len) <= sat_sub(len, viewport),
{
}

/// When the whole list fits in the window, the picker never scrolls.
pub proof fn lemma_fitting_list_never_scrolls(cursor: int, scroll: int, viewport: int, len: int)
    requires
        0 <= cursor,
        0 <= scroll,
        len <= viewport,
    ensures
        scroll_for(cursor, scroll, viewport, len) == 0,
{
}

/// Moving up never leaves the list's top, and moving down from a row of a
/// non-empty list lands on a row of the list.
pub proof fn lemma_moves_stay_on_rows(cursor: int, step: int, len: int)
    requires
        0 <= cursor < len,
        0 <= step,
    ensures
        0 <= sat_sub(cursor, step) <= cursor,
        0 <= (if cursor + step < sat_sub(len, 1) { cursor + step } else { sat_sub(len, 1) }) < len,
{
}


/// Toggling the same row twice gives back the selection it started from,
/// whenever that row's subtree was selected uniformly (all on or all off).
pub proof fn lemma_toggle_twice_restores(
    entries: Seq<Entry>,
    c0: Seq<bool>,
    c1: Seq<bool>,
    c2: Seq<bool>,
    index: int,
    end: int,
)
    requires
        0 <= index < c0.len(),
        is_subtree_end(entries, index, end),
        forall|k: int| index <= k < end && k < c0.len() ==> #[trigger] c0[k] == c0[index],
        is_toggled(entries, c0, index, c1),
        is_toggled(entries, c1, index, c2),
    ensures
        c2 == c0,
{
    let e1 = choose|e: int| #[trigger] is_subtree_end(entries, index, e) && forall|k: int|
        0 <= k < c0.len() ==> #[trigger] c1[k] == if index <= k < e { !c0[index] } else { c0[k] };
    let e2 = choose|e: int| #[trigger] is_subtree_end(entries, index, e) && forall|k: int|
        0 <= k < c1.len() ==> #[trigger] c2[k] == if index <= k < e { !c1[index] } else { c1[k] };
    lemma_subtree_end_unique(entries, index, e1, end);
    lemma_subtree_end_unique(entries, index, e2, end);
    assert(c1[index] == !c0[index]);
    assert(c2 =~= c0);
}

/// The folder linked as a row's parent really contains the row: the row lies
/// strictly inside that folder's subtree range.
pub proof fn lemma_parent_contains_row(entries: Seq<Entry>, links: Seq<Option<usize>>, i: int, end: int)
    requires
        are_parent_links(entries, links),
        0 <= i < entries.len(),
        links[i] is Some,
        is_subtree_end(entries, links[i]->0 as int, end),
    ensures
        links[i]->0 < i < end,
{
    let j = links[i]->0 as int;
    assert(is_parent_link(entries, i, links[i]));
    if end <= i {
        assert(depth_at(entries, end) > depth_at(entries, j));
    }
}

/// Top-level rows have no enclosing folder, so they are shown whatever is open.
pub proof fn lemma_top_level_always_shown(
    entries: Seq<Entry>,
    links: Seq<Option<usize>>,
    expanded: Seq<bool>,
    i: int,
)
    requires
        are_parent_links(entries, links),
        0 <= i < entries.len(),
        entries[i].depth == 0,
    ensures
        links[i] is None,
        shown(links, expanded, i),
{
    assert(is_parent_link(entries, i, links[i]));
    if links[i] is Some {
        let j = links[i]->0 as int;
        assert(depth_at(entries, i) > depth_at(entries, j));
    }
}

/// With no folder open, exactly the rows without an enclosing folder are shown.
pub proof fn lemma_nothing_open_shows_only_top_level(
    n: int,
    links: Seq<Option<usize>>,
    expanded: Seq<bool>,
    i: int,
)
    requires
        links_in_range(n, links, expanded),
        forall|k: int| 0 <= k < expanded.len() ==> !#[trigger] expanded[k],
        0 <= i < n,
    ensures
        shown(links, expanded, i) <==> links[i] is None,
{
    match links[i] {
        None => {},
        Some(p) => {
            if p < i && shown(links, expanded, p as int) {
                assert(p < expanded.len());
                assert(!expanded[p as int]);
            }
        },
    }
}

/// A row whose folder is closed is hidden, and a row is shown only when its
/// folder is shown and open.
pub proof fn lemma_closed_folder_hides_row(links: Seq<Option<usize>>, expanded: Seq<bool>, i: int)
    requires
        0 <= i < links.len(),
        links[i] is Some,
    ensures
        shown(links, expanded, i) <==> {
            let p = links[i]->0 as int;
            p < i && shown(links, expanded, p) && expanded[p]
        },
{
}

/// Opening more folders only adds shown rows: a row shown while some folders
/// are open stays shown when those and possibly more folders are open.
pub proof fn lemma_opening_more_keeps_rows_shown(
    entries: Seq<Entry>,
    links: Seq<Option<usize>>,
    fewer: Seq<bool>,
    more: Seq<bool>,
    i: int,
)
    requires
        are_parent_links(entries, links),
        fewer.len() == entries.len(),
        more.len() == entries.len(),
        forall|k: int| 0 <= k < fewer.len() && #[trigger] fewer[k] ==> more[k],
        0 <= i < entries.len(),
        shown(links, fewer, i),
    ensures
        shown(links, more, i),
    decreases i,
{
    assert(is_parent_link(entries, i, links[i]));
    if let Some(p) = links[i] {
        lemma_opening_more_keeps_rows_shown(entries, links, fewer, more, p as int);
        assert(fewer[p as int]);
    }
}

/// The rows listed as shown while some folders are open are all listed again
/// when those and possibly more folders are open.
pub proof fn lemma_opening_more_keeps_visible(
    entries: Seq<Entry>,
    links: Seq<Option<usize>>,
    fewer: Seq<bool>,
    more: Seq<bool>,
    visible_fewer: Seq<usize>,
    visible_more: Seq<usize>,
)
    requires
        are_parent_links(entries, links),
        fewer.len() == entries.len(),
        more.len() == entries.len(),
        forall|k: int| 0 <= k < fewer.len() && #[trigger] fewer[k] ==> more[k],
        lists_shown_rows(entries.len() as int, links, fewer, visible_fewer),
        lists_shown_rows(entries.len() as int, links, more, visible_more),
    ensures
        forall|k: int| 0 <= k < visible_fewer.len() ==> visible_more.contains(#[trigger] visible_fewer[k]),
{
    assert forall|k: int| 0 <= k < visible_fewer.len() implies visible_more.contains(#[trigger] visible_fewer[k]) by {
        let i = visible_fewer[k] as int;
        lemma_opening_more_keeps_rows_shown(entries, links, fewer, more, i);
        assert(visible_more.contains(i as usize));
    }
}

} // verus!
