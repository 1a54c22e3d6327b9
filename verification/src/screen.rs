//! The picker's frame as text: a title, the window of visible rows, and a
//! footer, each cut to the terminal's width and styled for the terminal.

use vstd::prelude::*;
use vstd::string::*;
use crate::path::{components_of, file_name, file_name_of};
use crate::picker::Picker;
use crate::text::{decimal, lemma_repeated_len, push_decimal, push_repeated, repeated};
use crate::tree::Entry;

verus! {

/// What `console::truncate_str` makes of `s` for a width of `width` columns
/// with `tail` marking a cut.
pub uninterp spec fn truncated(s: Seq<char>, width: usize, tail: Seq<char>) -> Seq<char>;

/// Cuts `s` to `width` terminal columns with `console::truncate_str`, appending
/// `tail` where it cuts; the contract claims only that the result is
/// `truncated(s, width, tail)`. With the crate's default features (which keep
/// its ANSI-aware path on) the function subtracts the tail's display width from
/// `width`, so the one-column "…" tail needs at least one column.
#[verifier::external_body]
pub(crate) fn truncate_text(s: &str, width: usize, tail: &str) -> (out: String)
    requires
        tail@ == ""@ || (tail@ == "…"@ && width >= 1),
    ensures
        out@ == truncated(s@, width, tail@),
{
    console::truncate_str(s, width, tail).into_owned()
}

/// The escape code after which the terminal resets every style.
pub open spec fn reset_code() -> Seq<char> {
    "\u{1b}[0m"@
}

/// `s` as `console` writes it with the escape codes `codes`: between the
/// codes and the reset code when styling is on, else unchanged.
pub open spec fn styled(codes: Seq<char>, s: Seq<char>, on: bool) -> Seq<char> {
    if on {
        codes + s + reset_code()
    } else {
        s
    }
}

/// The codes `console` writes for bold text.
pub open spec fn bold_codes() -> Seq<char> {
    "\u{1b}[1m"@
}

/// The codes `console` writes for cyan bold text: the colour, then the attribute.
pub open spec fn cursor_codes() -> Seq<char> {
    "\u{1b}[36m\u{1b}[1m"@
}

/// The codes `console` writes for dim text.
pub open spec fn dim_codes() -> Seq<char> {
    "\u{1b}[2m"@
}

/// Whether `console` styles text written to standard output
/// (`console::colors_enabled`): it depends on the terminal and the
/// environment, so nothing is claimed of it.
#[verifier::external_body]
pub(crate) fn colours_enabled() -> (on: bool) {
    console::colors_enabled()
}

/// `console::style(s).force_styling(on).bold()` as text: with styling forced
/// to `on`, `s` between the bold code and the reset code, or `s` itself.
#[verifier::external_body]
pub(crate) fn style_bold(s: &str, on: bool) -> (out: String)
    ensures
        out@ == styled(bold_codes(), s@, on),
{
    console::style(s).force_styling(on).bold().to_string()
}

/// `console::style(s).force_styling(on).cyan().bold()` as text: with styling
/// forced to `on`, `s` after the cyan code and the bold code and before the
/// reset code, or `s` itself.
#[verifier::external_body]
pub(crate) fn style_cursor(s: &str, on: bool) -> (out: String)
    ensures
        out@ == styled(cursor_codes(), s@, on),
{
    console::style(s).force_styling(on).cyan().bold().to_string()
}

/// `console::style(s).force_styling(on).dim()` as text: with styling forced to
/// `on`, `s` between the dim code and the reset code, or `s` itself.
#[verifier::external_body]
pub(crate) fn style_dim(s: &str, on: bool) -> (out: String)
    ensures
        out@ == styled(dim_codes(), s@, on),
{
    console::style(s).force_styling(on).dim().to_string()
}

/// The title line of a frame.
pub open spec fn title_text() -> Seq<char> {
    "Select files/folders"@
}

/// The text of one row: a pointer at the cursor, the selection mark, indentation
/// by depth, then for a folder an open/closed arrow, its name and a slash, and
/// for a file two spaces and its name.
pub open spec fn row_text(e: Entry, is_checked: bool, is_open: bool, at_cursor: bool) -> Seq<char> {
    let pointer = if at_cursor {
        "❯"@
    } else {
        " "@
    };
    let mark = if is_checked {
        "[x]"@
    } else {
        "[ ]"@
    };
    let name = match file_name_of(components_of(e.path@)) {
        Some(n) => n,
        None => ""@,
    };
    let label = if e.is_dir {
        (if is_open {
            "▾"@
        } else {
            "▸"@
        }) + " "@ + name + "/"@
    } else {
        "  "@ + name
    };
    pointer + " "@ + mark + " "@ + repeated("  "@, e.depth as nat) + label
}

/// The name a row shows: the last component of the row's path when it is a
/// normal name, else nothing.
pub open spec fn shown_name(e: Entry) -> Seq<char> {
    match file_name_of(components_of(e.path@)) {
        Some(n) => n,
        None => ""@,
    }
}

/// What a row shows at fixed places: the pointer first (`❯` on the cursor's
/// row), the selection mark inside the brackets (`x` when selected), and right
/// after the indentation of two columns per level an arrow for a folder (`▾`
/// open, `▸` closed) or a blank for a file; a folder's row ends in `/`. So an
/// open and a closed folder never look the same.
pub proof fn lemma_row_marks(e: Entry, is_checked: bool, is_open: bool, at_cursor: bool)
    ensures
        ({
            let t = row_text(e, is_checked, is_open, at_cursor);
            let m = 6 + 2 * e.depth;
            &&& t.len() > m
            &&& t[0] == if at_cursor { '❯' } else { ' ' }
            &&& t[2] == '[' && t[4] == ']'
            &&& t[3] == if is_checked { 'x' } else { ' ' }
            &&& t[m] == if e.is_dir {
                if is_open { '▾' } else { '▸' }
            } else {
                ' '
            }
            &&& e.is_dir ==> t.last() == '/'
            &&& t.len() >= m + 2 + shown_name(e).len()
            &&& t.subrange(m + 2, m + 2 + shown_name(e).len()) == shown_name(e)
        }),
        e.is_dir ==> row_text(e, is_checked, true, at_cursor) != row_text(e, is_checked, false, at_cursor),
{
    reveal_strlit("❯");
    reveal_strlit(" ");
    reveal_strlit("[x]");
    reveal_strlit("[ ]");
    reveal_strlit("▾");
    reveal_strlit("▸");
    reveal_strlit("/");
    reveal_strlit("  ");
    reveal_strlit("");
    lemma_repeated_len("  "@, e.depth as nat);
    let name = match file_name_of(components_of(e.path@)) {
        Some(n) => n,
        None => ""@,
    };
    let t = row_text(e, is_checked, is_open, at_cursor);
    let pointer = if at_cursor { "❯"@ } else { " "@ };
    let mark = if is_checked { "[x]"@ } else { "[ ]"@ };
    let head = pointer + " "@ + mark + " "@ + repeated("  "@, e.depth as nat);
    assert(head.len() == 6 + 2 * e.depth);
    let label = if e.is_dir {
        (if is_open { "▾"@ } else { "▸"@ }) + " "@ + name + "/"@
    } else {
        "  "@ + name
    };
    assert(t == head + label);
    assert(label[0] == if e.is_dir { if is_open { '▾' } else { '▸' } } else { ' ' });
    assert(t[0] == head[0]);
    assert(t[2] == head[2] && t[3] == head[3] && t[4] == head[4]);
    assert(t[6 + 2 * e.depth] == label[0]);
    assert(name == shown_name(e));
    assert(label.subrange(2, (2 + name.len()) as int) =~= name);
    assert(t.subrange((head.len() + 2) as int, (head.len() + 2 + name.len()) as int) =~= label.subrange(2, (2 + name.len()) as int));
    if e.is_dir {
        assert(label.last() == '/');
        assert(t.last() == label.last());
        let topen = row_text(e, is_checked, true, at_cursor);
        let tclosed = row_text(e, is_checked, false, at_cursor);
        let lo = "▾"@ + " "@ + name + "/"@;
        let lc = "▸"@ + " "@ + name + "/"@;
        assert(topen == head + lo);
        assert(tclosed == head + lc);
        assert(topen[6 + 2 * e.depth] == '▾');
        assert(tclosed[6 + 2 * e.depth] == '▸');
    }
}

/// Builds the text of one row.
pub fn row_line(e: &Entry, is_checked: bool, is_open: bool, at_cursor: bool) -> (line: String)
    ensures
        line@ == row_text(*e, is_checked, is_open, at_cursor),
{
    let mut line = String::new();
    line.append(if at_cursor { "❯" } else { " " });
    line.append(" ");
    line.append(if is_checked { "[x]" } else { "[ ]" });
    line.append(" ");
    push_repeated(&mut line, "  ", e.depth);
    let name = match file_name(e.path.as_str()) {
        Some(n) => n,
        None => String::new(),
    };
    if e.is_dir {
        line.append(if is_open { "▾" } else { "▸" });
        line.append(" ");
        line.append(name.as_str());
        line.append("/");
    } else {
        line.append("  ");
        line.append(name.as_str());
    }
    proof {
        reveal_strlit("");
        let n = match file_name_of(components_of(e.path@)) {
            Some(n) => n,
            None => ""@,
        };
        assert(name@ == n);
    }
    assert(line@ =~= row_text(*e, is_checked, is_open, at_cursor));
    line
}

/// The footer: scroll markers, the cursor's position among the shown rows, how
/// many rows are selected, the pending jump, and the key hints.
pub open spec fn footer_text(more_above: bool, more_below: bool, position: nat, shown: nat, selected: nat, jump: nat) -> Seq<char> {
    (if more_above {
        "↑"@
    } else {
        " "@
    }) + (if more_below {
        "↓"@
    } else {
        " "@
    }) + " "@ + decimal(position) + "/"@ + decimal(shown) + " shown · "@ + decimal(selected) + " selected"@ + (
    if jump > 0 {
        " · jump "@ + decimal(jump)
    } else {
        ""@
    }) + " · → open · ← +10 · space select · enter ok · esc cancel"@
}

/// The footer starts with `↑` when rows are hidden above the window and `↓`
/// when rows are hidden below (blanks otherwise), then the cursor's position
/// and the number of shown rows as `position/shown`, then how many rows are
/// selected; it ends with the key hints.
pub proof fn lemma_footer_shape(more_above: bool, more_below: bool, position: nat, shown: nat, selected: nat, jump: nat)
    ensures
        ({
            let t = footer_text(more_above, more_below, position, shown, selected, jump);
            let counts = decimal(position) + "/"@ + decimal(shown) + " shown · "@ + decimal(selected) + " selected"@;
            let hints = " · → open · ← +10 · space select · enter ok · esc cancel"@;
            &&& t.len() >= 3 + counts.len() + hints.len()
            &&& t[0] == if more_above { '↑' } else { ' ' }
            &&& t[1] == if more_below { '↓' } else { ' ' }
            &&& t[2] == ' '
            &&& t.subrange(3, (3 + counts.len()) as int) == counts
            &&& t.subrange(t.len() - hints.len(), t.len() as int) == hints
        }),
{
    reveal_strlit("↑");
    reveal_strlit("↓");
    reveal_strlit(" ");
    let t = footer_text(more_above, more_below, position, shown, selected, jump);
    let a = if more_above { "↑"@ } else { " "@ };
    let b = if more_below { "↓"@ } else { " "@ };
    let counts = decimal(position) + "/"@ + decimal(shown) + " shown · "@ + decimal(selected) + " selected"@;
    let note = if jump > 0 { " · jump "@ + decimal(jump) } else { ""@ };
    let hints = " · → open · ← +10 · space select · enter ok · esc cancel"@;
    assert(t =~= a + b + " "@ + counts + note + hints);
    assert((a + b + " "@ + counts + note + hints).subrange(3, (3 + counts.len()) as int) =~= counts);
    assert((a + b + " "@ + counts + note + hints).subrange(t.len() - hints.len(), t.len() as int) =~= hints);
}

/// Builds the footer text.
pub fn footer_line(more_above: bool, more_below: bool, position: usize, shown: usize, selected: usize, jump: usize) -> (line: String)
    ensures
        line@ == footer_text(more_above, more_below, position as nat, shown as nat, selected as nat, jump as nat),
{
    let mut line = String::new();
    line.append(if more_above { "↑" } else { " " });
    line.append(if more_below { "↓" } else { " " });
    line.append(" ");
    push_decimal(&mut line, position);
    line.append("/");
    push_decimal(&mut line, shown);
    line.append(" shown · ");
    push_decimal(&mut line, selected);
    line.append(" selected");
    let ghost before_jump = line@;
    if jump > 0 {
        line.append(" · jump ");
        push_decimal(&mut line, jump);
        assert(line@ =~= before_jump + (" · jump "@ + decimal(jump as nat)));
    } else {
        proof {
            reveal_strlit("");
        }
        assert(line@ =~= before_jump + ""@);
    }
    line.append(" · → open · ← +10 · space select · enter ok · esc cancel");
    assert(line@ =~= footer_text(more_above, more_below, position as nat, shown as nat, selected as nat, jump as nat));
    line
}

/// How many flags are set.
pub open spec fn count_set(flags: Seq<bool>) -> nat
    decreases flags.len(),
{
    if flags.len() == 0 {
        0
    } else {
        count_set(flags.drop_last()) + if flags.last() {
            1nat
        } else {
            0nat
        }
    }
}

/// The count of set flags is the number of flags that are set.
pub proof fn lemma_count_set_counts(flags: Seq<bool>)
    ensures
        count_set(flags) == flags.filter(|b: bool| b).len(),
    decreases flags.len(),
{
    reveal(Seq::filter);
    let pred = |b: bool| b;
    if flags.len() > 0 {
        lemma_count_set_counts(flags.drop_last());
        let sub = flags.drop_last().filter(pred);
        assert(flags.filter(pred) == if pred(flags.last()) { sub.push(flags.last()) } else { sub });
    } else {
        assert(flags.filter(pred) == flags);
    }
}

/// Counts the set flags.
pub fn count_selected(flags: &[bool]) -> (count: usize)
    ensures
        count == count_set(flags@),
{
    let mut count: usize = 0;
    let mut i: usize = 0;
    while i < flags.len()
        invariant
            i <= flags@.len(),
            count == count_set(flags@.take(i as int)),
            count <= i,
        decreases flags@.len() - i,
    {
        assert(flags@.take(i + 1).drop_last() =~= flags@.take(i as int));
        if flags[i] {
            count += 1;
        }
        i += 1;
    }
    assert(flags@.take(flags@.len() as int) =~= flags@);
    count
}

/// The last row shown in the window (exclusive): the window's end or the list's.
pub open spec fn window_end(scroll: int, viewport: int, shown: int) -> int {
    if scroll + viewport < shown {
        scroll + viewport
    } else {
        shown
    }
}

impl Picker {
    /// The text of the window's `j`-th row, uncut.
    pub open spec fn row_at(self, visible: Seq<usize>, j: int) -> Seq<char> {
        let k = self.scroll + j;
        let i = visible[k] as int;
        row_text(self.entries@[i], self.checked@[i], self.expanded@[i], k == self.cursor)
    }

    /// Every row the window shows names a row that has an entry, a selection
    /// flag and an open flag.
    pub open spec fn window_in_bounds(self, visible: Seq<usize>, viewport: usize) -> bool {
        forall|k: int|
            self.scroll <= k < window_end(self.scroll as int, viewport as int, visible.len() as int) ==> {
                &&& #[trigger] visible[k] < self.entries@.len()
                &&& visible[k] < self.checked@.len()
                &&& visible[k] < self.expanded@.len()
            }
    }

    /// The frame's lines before styling: the title, each row of the window cut to
    /// `cols` columns with an ellipsis, and the footer cut to `cols` columns.
    pub fn frame_lines(&self, visible: &[usize], viewport: usize, cols: usize) -> (lines: Vec<String>)
        requires
            self.window_in_bounds(visible@, viewport),
            self.scroll + viewport <= usize::MAX,
            self.cursor < usize::MAX,
            window_end(self.scroll as int, viewport as int, visible@.len() as int) > self.scroll ==> cols >= 1,
        ensures
            ({
                let end = window_end(self.scroll as int, viewport as int, visible@.len() as int);
                let rows = if end > self.scroll { end - self.scroll } else { 0 };
                &&& lines@.len() == rows + 2
                &&& lines@[0]@ == title_text()
                &&& forall|j: int| 0 <= j < rows ==> #[trigger] lines@[j + 1]@ == truncated(self.row_at(visible@, j), cols, "…"@)
                &&& lines@[rows + 1]@ == truncated(
                    footer_text(
                        self.scroll > 0,
                        end < visible@.len(),
                        (self.cursor + 1) as nat,
                        visible@.len(),
                        count_set(self.checked@),
                        self.jump as nat,
                    ),
                    cols,
                    ""@,
                )
            }),
    {
        let mut lines: Vec<String> = Vec::new();
        lines.push(String::from_str("Select files/folders"));
        let end = if self.scroll + viewport < visible.len() { self.scroll + viewport } else { visible.len() };
        let ghost rows: int = if end > self.scroll { end - self.scroll } else { 0 };
        let mut k = self.scroll;
        while k < end
            invariant
                self.window_in_bounds(visible@, viewport),
                end > self.scroll ==> cols >= 1,
                end == window_end(self.scroll as int, viewport as int, visible@.len() as int),
                end <= visible@.len(),
                self.scroll <= k,
                k <= end || k == self.scroll,
                lines@.len() == k - self.scroll + 1,
                lines@[0]@ == title_text(),
                forall|j: int| 0 <= j < k - self.scroll ==> #[trigger] lines@[j + 1]@ == truncated(self.row_at(visible@, j), cols, "…"@),
            decreases end - k,
        {
            let i = visible[k];
            assert(visible@[k as int] < self.entries@.len());
            let raw = row_line(&self.entries[i], self.checked[i], self.expanded[i], k == self.cursor);
            let cut = truncate_text(raw.as_str(), cols, "…");
            let ghost prev = lines@;
            lines.push(cut);
            proof {
                assert(self.row_at(visible@, k - self.scroll) == raw@);
                assert forall|j: int| 0 <= j < k + 1 - self.scroll implies #[trigger] lines@[j + 1]@ == truncated(self.row_at(visible@, j), cols, "…"@) by {
                    if j < k - self.scroll {
                        assert(lines@[j + 1] == prev[j + 1]);
                    }
                }
            }
            k += 1;
        }
        let selected = count_selected(self.checked.as_slice());
        let footer = footer_line(self.scroll > 0, end < visible.len(), self.cursor + 1, visible.len(), selected, self.jump);
        let cut = truncate_text(footer.as_str(), cols, "");
        let ghost prev = lines@;
        lines.push(cut);
        proof {
            assert(lines@.len() == rows + 2);
            assert forall|j: int| 0 <= j < rows implies #[trigger] lines@[j + 1]@ == truncated(self.row_at(visible@, j), cols, "…"@) by {
                assert(lines@[j + 1] == prev[j + 1]);
            }
        }
        lines
    }

    /// `lines` is the frame with styling `on`: the title bold, each row of the
    /// window cut to `cols` columns with an ellipsis (the cursor's row cyan and
    /// bold), and the footer cut to `cols` columns and dim.
    pub open spec fn is_styled_frame(self, visible: Seq<usize>, viewport: usize, cols: usize, on: bool, lines: Seq<String>) -> bool {
        let end = window_end(self.scroll as int, viewport as int, visible.len() as int);
        let rows = if end > self.scroll { end - self.scroll } else { 0 };
        &&& lines.len() == rows + 2
        &&& lines[0]@ == styled(bold_codes(), title_text(), on)
        &&& forall|j: int|
            0 <= j < rows ==> {
                let plain = truncated(self.row_at(visible, j), cols, "…"@);
                #[trigger] lines[j + 1]@ == if self.scroll + j == self.cursor {
                    styled(cursor_codes(), plain, on)
                } else {
                    plain
                }
            }
        &&& lines[rows + 1]@ == styled(
            dim_codes(),
            truncated(
                footer_text(
                    self.scroll > 0,
                    end < visible.len(),
                    (self.cursor + 1) as nat,
                    visible.len(),
                    count_set(self.checked@),
                    self.jump as nat,
                ),
                cols,
                ""@,
            ),
            on,
        )
    }

    /// How line `u` of a frame of `n` lines is styled from its plain text: the
    /// title bold, the footer dim, the cursor's row cyan and bold, others plain.
    pub open spec fn styled_line(self, n: int, u: int, plain: Seq<char>, on: bool) -> Seq<char> {
        if u == 0 {
            styled(bold_codes(), plain, on)
        } else if u == n - 1 {
            styled(dim_codes(), plain, on)
        } else if self.scroll + u - 1 == self.cursor {
            styled(cursor_codes(), plain, on)
        } else {
            plain
        }
    }

    /// The frame's lines with styling `on`: the title bold, the cursor's row cyan
    /// and bold, and the footer dim; long rows cut to the terminal width.
    pub fn render_styled(&self, visible: &[usize], viewport: usize, cols: usize, on: bool) -> (lines: Vec<String>)
        requires
            self.window_in_bounds(visible@, viewport),
            self.scroll + viewport <= usize::MAX,
            self.cursor < usize::MAX,
            window_end(self.scroll as int, viewport as int, visible@.len() as int) > self.scroll ==> cols >= 1,
        ensures
            self.is_styled_frame(visible@, viewport, cols, on, lines@),
    {
        let plain = self.frame_lines(visible, viewport, cols);
        let n = plain.len();
        let mut lines: Vec<String> = Vec::new();
        let mut t: usize = 0;
        while t < n
            invariant
                n == plain@.len(),
                n >= 2,
                t <= n,
                lines@.len() == t,
                forall|u: int| 0 <= u < t ==> #[trigger] lines@[u]@ == self.styled_line(n as int, u, plain@[u]@, on),
            decreases n - t,
        {
            let line = if t == 0 {
                style_bold(plain[t].as_str(), on)
            } else if t == n - 1 {
                style_dim(plain[t].as_str(), on)
            } else if self.cursor >= self.scroll && t - 1 == self.cursor - self.scroll {
                style_cursor(plain[t].as_str(), on)
            } else {
                plain[t].clone()
            };
            let ghost prev = lines@;
            lines.push(line);
            proof {
                assert forall|u: int| 0 <= u < t + 1 implies #[trigger] lines@[u]@ == self.styled_line(n as int, u, plain@[u]@, on) by {
                    if u < t {
                        assert(lines@[u] == prev[u]);
                    }
                }
            }
            t += 1;
        }
        proof {
            let end = window_end(self.scroll as int, viewport as int, visible@.len() as int);
            let rows = if end > self.scroll { end - self.scroll } else { 0 };
            assert(lines@[0]@ == self.styled_line(n as int, 0, plain@[0]@, on));
            assert(lines@[n - 1]@ == self.styled_line(n as int, n - 1, plain@[n - 1]@, on));
            assert forall|j: int| 0 <= j < rows implies {
                let p = truncated(self.row_at(visible@, j), cols, "…"@);
                #[trigger] lines@[j + 1]@ == if self.scroll + j == self.cursor {
                    styled(cursor_codes(), p, on)
                } else {
                    p
                }
            } by {
                assert(lines@[j + 1]@ == self.styled_line(n as int, j + 1, plain@[j + 1]@, on));
                assert(plain@[j + 1]@ == truncated(self.row_at(visible@, j), cols, "…"@));
            }
        }
        lines
    }

    /// Draw the title, the visible window of rows, and a footer; returns the lines
    /// to write, whose count the caller clears next frame. Long rows are cut to
    /// the terminal width so nothing wraps onto a second line. The title is bold,
    /// the cursor's row cyan and bold, and the footer dim, when `console` styles
    /// standard output; the frame is then exactly the one for that setting.
    pub fn render(&self, visible: &[usize], viewport: usize, cols: usize) -> (lines: Vec<String>)
        requires
            self.window_in_bounds(visible@, viewport),
            self.scroll + viewport <= usize::MAX,
            self.cursor < usize::MAX,
            window_end(self.scroll as int, viewport as int, visible@.len() as int) > self.scroll ==> cols >= 1,
        ensures
            exists|on: bool| self.is_styled_frame(visible@, viewport, cols, on, lines@),
    {
        let on = colours_enabled();
        let lines = self.render_styled(visible, viewport, cols, on);
        assert(self.is_styled_frame(visible@, viewport, cols, on, lines@));
        lines
    }
}

} // verus!
