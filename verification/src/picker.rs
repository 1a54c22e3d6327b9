//! The interactive picker as a state machine: the rows, what is selected and
//! open, the cursor, the scroll offset and the pending jump, changed one key at
//! a time. Reading keys and drawing stay with the caller.

use vstd::prelude::*;
use crate::tree::{
    are_parent_links, clamp_scroll, is_parent_link, is_toggled, lists_shown_rows, links_in_range,
    move_down, move_up, parent_indices, sat_sub, scroll_for, shown, toggle, visible_indices, Entry,
};

verus! {

/// A key press, as far as the picker tells keys apart.
pub enum KeyPress {
    Up,
    Down,
    Left,
    Right,
    Space,
    Enter,
    Escape,
    /// Any other key.
    Other,
    /// Reading the key failed.
    Unreadable,
}

/// What the caller does after a key.
pub enum Outcome {
    /// Draw the next frame and read the next key.
    Continue,
    /// Stop and use the selection.
    Confirm,
    /// Stop and select nothing.
    Cancel,
}

/// The picker's state.
pub struct Picker {
    /// The rows, in walk order.
    pub entries: Vec<Entry>,
    /// The enclosing folder of each row.
    pub parents: Vec<Option<usize>>,
    /// Which rows are selected (for output).
    pub checked: Vec<bool>,
    /// Which folders are open.
    pub expanded: Vec<bool>,
    /// Position within the currently visible rows.
    pub cursor: usize,
    /// First visible row of the window.
    pub scroll: usize,
    /// Built up by Left (+10 each), consumed by the next Up/Down.
    pub jump: usize,
}

/// The step an Up or Down key moves by: the pending jump, or one row.
pub open spec fn step_of(jump: usize) -> int {
    if jump > 1 {
        jump as int
    } else {
        1
    }
}

impl Picker {
    /// The picker's state is consistent: rows exist, links and flags cover every
    /// row, and cursor and scroll stay within the rows.
    pub open spec fn wf(self) -> bool {
        &&& 0 < self.entries@.len() <= isize::MAX
        &&& are_parent_links(self.entries@, self.parents@)
        &&& self.checked@.len() == self.entries@.len()
        &&& self.expanded@.len() == self.entries@.len()
        &&& self.cursor < self.entries@.len()
        &&& self.scroll <= self.entries@.len()
    }

    /// `visible` lists the rows shown in this state, and the cursor is on one.
    pub open spec fn showing(self, visible: Seq<usize>) -> bool {
        &&& lists_shown_rows(self.entries@.len() as int, self.parents@, self.expanded@, visible)
        &&& self.cursor < visible.len()
    }

    /// A picker over the rows of a walk, nothing selected or open, the cursor on
    /// the first row; none when there are no rows.
    pub fn new(entries: Vec<Entry>) -> (picker: Option<Picker>)
        requires
            entries@.len() <= isize::MAX,
        ensures
            picker is None <==> entries@.len() == 0,
            picker matches Some(p) ==> {
                &&& p.wf()
                &&& p.entries@ == entries@
                &&& forall|i: int| 0 <= i < entries@.len() ==> !#[trigger] p.checked@[i] && !p.expanded@[i]
                &&& p.cursor == 0 && p.scroll == 0 && p.jump == 0
            },
    {
        if entries.len() == 0 {
            return None;
        }
        let parents = parent_indices(entries.as_slice());
        let n = entries.len();
        let checked = vec![false; n];
        let expanded = vec![false; n];
        Some(Picker { entries, parents, checked, expanded, cursor: 0, scroll: 0, jump: 0 })
    }
}

/// Links that name each row's enclosing folder can be followed with any open-state
/// that covers every row.
pub proof fn lemma_links_in_range(entries: Seq<Entry>, links: Seq<Option<usize>>, expanded: Seq<bool>)
    requires
        are_parent_links(entries, links),
        expanded.len() == entries.len(),
    ensures
        links_in_range(entries.len() as int, links, expanded),
{
    assert forall|i: int| 0 <= i < entries.len() implies match #[trigger] links[i] {
        None => true,
        Some(p) => p < entries.len() && (p < i && shown(links, expanded, p as int) ==> p < expanded.len()),
    } by {
        assert(is_parent_link(entries, i, links[i]));
    }
}

/// A strictly increasing list of rows below `n` has at most `n` items; the
/// first row is always shown, so the list of shown rows is never empty.
pub proof fn lemma_visible_bounds(entries: Seq<Entry>, links: Seq<Option<usize>>, expanded: Seq<bool>, visible: Seq<usize>)
    requires
        entries.len() > 0,
        are_parent_links(entries, links),
        lists_shown_rows(entries.len() as int, links, expanded, visible),
    ensures
        0 < visible.len() <= entries.len(),
{
    assert(is_parent_link(entries, 0, links[0]));
    assert(links[0] is None);
    assert(shown(links, expanded, 0));
    let z: int = 0;
    assert(visible.contains(z as usize));
    lemma_increasing_at_least_index(visible, visible.len() as int - 1);
    assert(visible[visible.len() - 1] < entries.len());
}

proof fn lemma_increasing_at_least_index(s: Seq<usize>, k: int)
    requires
        forall|a: int, b: int| 0 <= a < b < s.len() ==> #[trigger] s[a] < #[trigger] s[b],
        0 <= k < s.len(),
    ensures
        s[k] >= k,
    decreases k,
{
    if k > 0 {
        lemma_increasing_at_least_index(s, k - 1);
        assert(s[k - 1] < s[k]);
    }
}

impl Picker {
    /// Starts a frame: the rows now shown, the cursor pulled back onto them, the
    /// window height for a terminal of `term_rows` lines (one line each for the
    /// title and the footer, at least one row), and the scroll offset that keeps
    /// the cursor in that window.
    pub fn begin_frame(&mut self, term_rows: u16) -> (frame: (Vec<usize>, usize))
        requires
            old(self).wf(),
        ensures
            final(self).wf(),
            lists_shown_rows(old(self).entries@.len() as int, old(self).parents@, old(self).expanded@, frame.0@),
            final(self).showing(frame.0@),
            final(self).cursor == if old(self).cursor < frame.0@.len() {
                old(self).cursor as int
            } else {
                frame.0@.len() - 1
            },
            frame.1 == if sat_sub(term_rows as int, 2) >= 1 {
                sat_sub(term_rows as int, 2)
            } else {
                1
            },
            final(self).scroll == scroll_for(final(self).cursor as int, old(self).scroll as int, frame.1 as int, frame.0@.len() as int),
            final(self).entries == old(self).entries,
            final(self).parents == old(self).parents,
            final(self).checked == old(self).checked,
            final(self).expanded == old(self).expanded,
            final(self).jump == old(self).jump,
    {
        proof {
            lemma_links_in_range(self.entries@, self.parents@, self.expanded@);
        }
        let visible = visible_indices(self.entries.as_slice(), self.parents.as_slice(), self.expanded.as_slice());
        proof {
            lemma_visible_bounds(self.entries@, self.parents@, self.expanded@, visible@);
        }
        if self.cursor >= visible.len() {
            self.cursor = visible.len() - 1;
        }
        let rows = (term_rows as usize).saturating_sub(2);
        let viewport = if rows >= 1 { rows } else { 1 };
        self.scroll = clamp_scroll(self.cursor, self.scroll, viewport, visible.len());
        (visible, viewport)
    }

    /// Applies one key: Up/Down move by the pending jump (default 1) and clear it,
    /// Left adds 10 to the jump, Right opens or closes the folder under the cursor,
    /// Space toggles the row under the cursor (and a folder's subtree), Enter or a
    /// failed read confirms, Escape cancels, and any other key does nothing.
    pub fn handle_key(&mut self, visible: &[usize], key: KeyPress) -> (outcome: Outcome)
        requires
            old(self).wf(),
            old(self).showing(visible@),
            key is Down ==> old(self).cursor + step_of(old(self).jump) <= usize::MAX,
            key is Left ==> old(self).jump + 10 <= usize::MAX,
        ensures
            final(self).wf(),
            final(self).entries == old(self).entries,
            final(self).parents == old(self).parents,
            final(self).scroll == old(self).scroll,
            match key {
                KeyPress::Up => {
                    &&& final(self).cursor == sat_sub(old(self).cursor as int, step_of(old(self).jump))
                    &&& final(self).jump == 0
                    &&& final(self).checked == old(self).checked
                    &&& final(self).expanded == old(self).expanded
                    &&& outcome is Continue
                },
                KeyPress::Down => {
                    &&& final(self).cursor == if old(self).cursor + step_of(old(self).jump) < visible@.len() - 1 {
                        old(self).cursor + step_of(old(self).jump)
                    } else {
                        visible@.len() - 1
                    }
                    &&& final(self).jump == 0
                    &&& final(self).checked == old(self).checked
                    &&& final(self).expanded == old(self).expanded
                    &&& outcome is Continue
                },
                KeyPress::Left => {
                    &&& final(self).jump == old(self).jump + 10
                    &&& final(self).cursor == old(self).cursor
                    &&& final(self).checked == old(self).checked
                    &&& final(self).expanded == old(self).expanded
                    &&& outcome is Continue
                },
                KeyPress::Right => {
                    let i = visible@[old(self).cursor as int] as int;
                    &&& final(self).expanded@ == if old(self).entries@[i].is_dir {
                        old(self).expanded@.update(i, !old(self).expanded@[i])
                    } else {
                        old(self).expanded@
                    }
                    &&& final(self).cursor == old(self).cursor
                    &&& final(self).jump == old(self).jump
                    &&& final(self).checked == old(self).checked
                    &&& outcome is Continue
                },
                KeyPress::Space => {
                    &&& is_toggled(
                        old(self).entries@,
                        old(self).checked@,
                        visible@[old(self).cursor as int] as int,
                        final(self).checked@,
                    )
                    &&& final(self).cursor == old(self).cursor
                    &&& final(self).jump == old(self).jump
                    &&& final(self).expanded == old(self).expanded
                    &&& outcome is Continue
                },
                KeyPress::Enter | KeyPress::Unreadable => {
                    &&& outcome is Confirm
                    &&& *final(self) == *old(self)
                },
                KeyPress::Escape => {
                    &&& outcome is Cancel
                    &&& *final(self) == *old(self)
                },
                KeyPress::Other => {
                    &&& outcome is Continue
                    &&& *final(self) == *old(self)
                },
            },
    {
        proof {
            lemma_visible_bounds(self.entries@, self.parents@, self.expanded@, visible@);
        }
        let step = if self.jump > 1 { self.jump } else { 1 };
        match key {
            KeyPress::Up => {
                self.cursor = move_up(self.cursor, step);
                self.jump = 0;
                Outcome::Continue
            },
            KeyPress::Down => {
                self.cursor = move_down(self.cursor, step, visible.len());
                self.jump = 0;
                Outcome::Continue
            },
            KeyPress::Left => {
                self.jump = self.jump + 10;
                Outcome::Continue
            },
            KeyPress::Right => {
                let i = visible[self.cursor];
                if self.entries[i].is_dir {
                    let open = self.expanded[i];
                    self.expanded.set(i, !open);
                }
                Outcome::Continue
            },
            KeyPress::Space => {
                let i = visible[self.cursor];
                toggle(self.entries.as_slice(), self.checked.as_mut_slice(), i);
                Outcome::Continue
            },
            KeyPress::Enter => Outcome::Confirm,
            KeyPress::Unreadable => Outcome::Confirm,
            KeyPress::Escape => Outcome::Cancel,
            KeyPress::Other => Outcome::Continue,
        }
    }

    /// The paths of the selected rows, in row order.
    pub fn selected_paths(&self) -> (paths: Vec<String>)
        ensures
            paths@.len() <= self.entries@.len(),
            crate::text::texts(paths@) == selected_rows(self.entries@, self.checked@),
    {
        let mut paths: Vec<String> = Vec::new();
        let n = if self.entries.len() < self.checked.len() { self.entries.len() } else { self.checked.len() };
        let mut i: usize = 0;
        while i < n
            invariant
                n <= self.entries@.len(),
                n <= self.checked@.len(),
                n == if self.entries@.len() < self.checked@.len() { self.entries@.len() } else { self.checked@.len() },
                i <= n,
                paths@.len() <= i,
                crate::text::texts(paths@) == selected_rows(self.entries@.take(i as int), self.checked@.take(i as int)),
            decreases n - i,
        {
            proof {
                assert(self.entries@.take(i + 1).drop_last() =~= self.entries@.take(i as int));
                assert(self.checked@.take(i + 1).drop_last() =~= self.checked@.take(i as int));
            }
            if self.checked[i] {
                let p = self.entries[i].path.clone();
                let ghost prev = paths@;
                paths.push(p);
                assert(crate::text::texts(paths@) =~= crate::text::texts(prev).push(self.entries@[i as int].path@));
            }
            i += 1;
        }
        proof {
            lemma_selected_rows_prefix(self.entries@, self.checked@);
        }
        paths
    }
}

/// The paths of the rows marked selected, in order; rows past the end of either
/// list are not considered.
pub open spec fn selected_rows(entries: Seq<Entry>, checked: Seq<bool>) -> Seq<Seq<char>>
    decreases entries.len() + checked.len(),
{
    if entries.len() == 0 || checked.len() == 0 {
        Seq::empty()
    } else if entries.len() > checked.len() {
        selected_rows(entries.take(checked.len() as int), checked)
    } else if checked.len() > entries.len() {
        selected_rows(entries, checked.take(entries.len() as int))
    } else if checked.last() {
        selected_rows(entries.drop_last(), checked.drop_last()).push(entries.last().path@)
    } else {
        selected_rows(entries.drop_last(), checked.drop_last())
    }
}

proof fn lemma_selected_rows_prefix(entries: Seq<Entry>, checked: Seq<bool>)
    ensures
        ({
            let n = if entries.len() < checked.len() { entries.len() } else { checked.len() };
            selected_rows(entries.take(n as int), checked.take(n as int)) == selected_rows(entries, checked)
        }),
{
    let n = if entries.len() < checked.len() { entries.len() } else { checked.len() };
    if entries.len() == checked.len() {
        assert(entries.take(n as int) =~= entries);
        assert(checked.take(n as int) =~= checked);
    } else if entries.len() < checked.len() {
        assert(entries.take(n as int) =~= entries);
    } else {
        assert(checked.take(n as int) =~= checked);
    }
}

} // verus!
