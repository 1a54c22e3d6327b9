//! The small file that remembers the last selection: the project root on the
//! first line, then one chosen path per line.

use vstd::prelude::*;
use vstd::string::*;
use crate::path::substring;
use crate::text::{push_char, texts};

verus! {

/// The text saved for a selection: the base path, then each path on a line of its own.
pub open spec fn selection_text(base: Seq<char>, paths: Seq<Seq<char>>) -> Seq<char>
    decreases paths.len(),
{
    if paths.len() == 0 {
        base
    } else {
        selection_text(base, paths.drop_last()) + "\n"@ + paths.last()
    }
}

/// The body of the state file for `base` and the chosen `paths`.
pub fn selection_body(base: &str, paths: &[String]) -> (body: String)
    ensures
        body@ == selection_text(base@, texts(paths@)),
{
    let mut body = String::from_str(base);
    let mut i: usize = 0;
    while i < paths.len()
        invariant
            i <= paths@.len(),
            body@ == selection_text(base@, texts(paths@.take(i as int))),
        decreases paths@.len() - i,
    {
        assert(texts(paths@.take(i + 1)).drop_last() =~= texts(paths@.take(i as int)));
        body.append("\n");
        body.append(paths[i].as_str());
        i += 1;
    }
    assert(paths@.take(paths@.len() as int) =~= paths@);
    body
}

/// Unicode white space, as `char::is_whitespace` recognises it.
pub open spec fn white(c: char) -> bool {
    ||| '\t' <= c <= '\r'
    ||| c == ' '
    ||| c == '\u{85}'
    ||| c == '\u{a0}'
    ||| c == '\u{1680}'
    ||| '\u{2000}' <= c <= '\u{200a}'
    ||| c == '\u{2028}'
    ||| c == '\u{2029}'
    ||| c == '\u{202f}'
    ||| c == '\u{205f}'
    ||| c == '\u{3000}'
}

/// Spaces, tabs, line breaks and the Unicode spaces are white space; letters,
/// digits, `/`, `.` and `-` are not.
pub proof fn lemma_white_chars()
    ensures
        white(' ') && white('\t') && white('\n') && white('\r') && white('\u{a0}') && white('\u{3000}'),
        forall|c: char| ('a' <= c <= 'z' || 'A' <= c <= 'Z' || '0' <= c <= '9' || c == '/' || c == '.' || c == '-')
            ==> !#[trigger] white(c),
{
}

/// Whether a character is white space.
pub fn is_white(c: char) -> (w: bool)
    ensures
        w == white(c),
{
    ('\t' <= c && c <= '\r') || c == ' ' || c == '\u{85}' || c == '\u{a0}' || c == '\u{1680}' || ('\u{2000}' <= c
        && c <= '\u{200a}') || c == '\u{2028}' || c == '\u{2029}' || c == '\u{202f}' || c == '\u{205f}' || c
        == '\u{3000}'
}

/// Where the text left after cutting leading white space starts.
pub open spec fn trim_start_at(s: Seq<char>, i: int) -> bool {
    &&& 0 <= i <= s.len()
    &&& forall|k: int| 0 <= k < i ==> white(#[trigger] s[k])
    &&& i < s.len() ==> !white(s[i])
}

/// `t` is `s` without its leading and trailing white space.
pub open spec fn trimmed(s: Seq<char>, t: Seq<char>) -> bool {
    exists|a: int, b: int|
        #![trigger s.subrange(a, b)]
        {
            &&& trim_start_at(s, a)
            &&& a <= b <= s.len()
            &&& forall|k: int| b <= k < s.len() ==> white(#[trigger] s[k])
            &&& (b > a ==> !white(s[b - 1]))
            &&& t == s.subrange(a, b)
        }
}

/// `s` without its leading and trailing white space (`str::trim`).
pub fn trim(s: &str) -> (t: String)
    ensures
        trimmed(s@, t@),
{
    let n = s.unicode_len();
    let mut a: usize = 0;
    while a < n && is_white(s.get_char(a))
        invariant
            n == s@.len(),
            a <= n,
            forall|k: int| 0 <= k < a ==> white(#[trigger] s@[k]),
        decreases n - a,
    {
        a += 1;
    }
    let mut b: usize = n;
    while b > a && is_white(s.get_char(b - 1))
        invariant
            n == s@.len(),
            a <= b <= n,
            forall|k: int| b <= k < n ==> white(#[trigger] s@[k]),
        decreases b,
    {
        b -= 1;
    }
    let t = substring(s, a, b);
    assert(trim_start_at(s@, a as int));
    assert(t@ == s@.subrange(a as int, b as int));
    t
}

/// Whether a text is empty once trimmed.
pub fn is_blank(s: &str) -> (blank: bool)
    ensures
        blank == forall|k: int| 0 <= k < s@.len() ==> white(#[trigger] s@[k]),
{
    let n = s.unicode_len();
    let mut i: usize = 0;
    while i < n
        invariant
            n == s@.len(),
            i <= n,
            forall|k: int| 0 <= k < i ==> white(#[trigger] s@[k]),
        decreases n - i,
    {
        if !is_white(s.get_char(i)) {
            return false;
        }
        i += 1;
    }
    true
}

/// A line with a carriage return before its line feed loses the return too.
pub open spec fn strip_cr(l: Seq<char>) -> Seq<char> {
    if l.len() > 0 && l.last() == '\r' {
        l.drop_last()
    } else {
        l
    }
}

/// The first line feed at or after `k`, or the text's length when there is none.
pub open spec fn next_newline(s: Seq<char>, k: int) -> int
    decreases s.len() - k,
{
    if k < 0 || k >= s.len() {
        s.len() as int
    } else if s[k] == '\n' {
        k
    } else {
        next_newline(s, k + 1)
    }
}

/// The next line feed lies between `k` and the end.
pub proof fn lemma_next_newline(s: Seq<char>, k: int, m: int)
    requires
        0 <= k <= m <= s.len(),
        forall|j: int| k <= j < m ==> s[j] != '\n',
        m == s.len() || s[m] == '\n',
    ensures
        next_newline(s, k) == m,
    decreases m - k,
{
    if k < m {
        lemma_next_newline(s, k + 1, m);
    }
}

/// The next line feed at or after `k` lies between `k` and the end.
pub proof fn lemma_next_newline_bounds(s: Seq<char>, k: int)
    requires
        0 <= k <= s.len(),
    ensures
        k <= next_newline(s, k) <= s.len(),
    decreases s.len() - k,
{
    if k < s.len() && s[k] != '\n' {
        lemma_next_newline_bounds(s, k + 1);
    }
}

/// The lines of a text (`str::lines`): split after each line feed, the feed
/// (and a carriage return before it) dropped; a final line feed ends the last
/// line rather than starting an empty one.
pub open spec fn lines_of(s: Seq<char>) -> Seq<Seq<char>>
    decreases s.len(),
{
    if s.len() == 0 {
        Seq::empty()
    } else {
        let i = next_newline(s, 0);
        if i < s.len() {
            proof {
                lemma_next_newline_bounds(s, 0);
            }
            seq![strip_cr(s.take(i))] + lines_of(s.skip(i + 1))
        } else {
            seq![s]
        }
    }
}

/// The lines that hold something besides white space, in order.
pub open spec fn non_blank(lines: Seq<Seq<char>>) -> Seq<Seq<char>>
    decreases lines.len(),
{
    if lines.len() == 0 {
        Seq::empty()
    } else if forall|k: int| 0 <= k < lines.last().len() ==> white(#[trigger] lines.last()[k]) {
        non_blank(lines.drop_last())
    } else {
        non_blank(lines.drop_last()).push(lines.last())
    }
}

/// Splits a text into its lines.
pub fn split_lines(s: &str) -> (lines: Vec<String>)
    ensures
        texts(lines@) == lines_of(s@),
{
    let n = s.unicode_len();
    let mut lines: Vec<String> = Vec::new();
    let mut start: usize = 0;
    let mut cur = String::new();
    let mut i: usize = 0;
    proof {
        assert(s@.skip(0) =~= s@);
        assert(texts(lines@) =~= Seq::<Seq<char>>::empty());
        assert(texts(lines@) + lines_of(s@.skip(0)) =~= lines_of(s@));
    }
    while i < n
        invariant
            n == s@.len(),
            start <= i <= n,
            cur@ == s@.subrange(start as int, i as int),
            forall|j: int| start <= j < i ==> s@[j] != '\n',
            texts(lines@) + lines_of(s@.skip(start as int)) == lines_of(s@),
        decreases n - i,
    {
        let c = s.get_char(i);
        if c == '\n' {
            proof {
                let rest = s@.skip(start as int);
                let k = (i - start) as int;
                assert forall|j: int| 0 <= j < k implies rest[j] != '\n' by {
                    assert(rest[j] == s@[start + j]);
                }
                lemma_next_newline(rest, 0, k);
                assert(rest.take(k) =~= cur@);
                assert(rest.skip(k + 1) =~= s@.skip(i + 1));
                assert(lines_of(rest) == seq![strip_cr(cur@)] + lines_of(s@.skip(i + 1)));
            }
            let ghost prev = texts(lines@);
            let ghost line_text = strip_cr(cur@);
            let line = drop_carriage_return(cur);
            lines.push(line);
            assert(texts(lines@) =~= prev.push(line_text));
            cur = String::new();
            start = i + 1;
            proof {
                assert(cur@ =~= s@.subrange(start as int, i + 1));
            }
        } else {
            push_char(&mut cur, c);
            assert(cur@ =~= s@.subrange(start as int, i + 1));
        }
        i += 1;
    }
    proof {
        let rest = s@.skip(start as int);
        assert(rest =~= cur@);
        if rest.len() > 0 {
            assert forall|j: int| 0 <= j < rest.len() implies rest[j] != '\n' by {
                assert(rest[j] == s@[start + j]);
            }
            lemma_next_newline(rest, 0, rest.len() as int);
            assert(lines_of(rest) == seq![rest]);
        }
    }
    if start < n {
        let ghost prev = texts(lines@);
        lines.push(cur);
        assert(texts(lines@) =~= prev.push(s@.skip(start as int)));
        assert(texts(lines@) =~= lines_of(s@));
    } else {
        assert(texts(lines@) =~= lines_of(s@));
    }
    lines
}

/// The line without a carriage return at its end.
fn drop_carriage_return(l: String) -> (out: String)
    ensures
        out@ == strip_cr(l@),
{
    let n = l.unicode_len();
    if n > 0 && l.get_char(n - 1) == '\r' {
        substring(l.as_str(), 0, n - 1)
    } else {
        l
    }
}

/// Reads a saved selection: the first line, trimmed, is the base path, and every
/// later line that is not blank is a path (as written); none when the text has
/// no lines at all.
pub fn parse_selection(contents: &str) -> (parsed: Option<(String, Vec<String>)>)
    ensures
        parsed is None <==> lines_of(contents@).len() == 0,
        parsed matches Some((base, paths)) ==> {
            &&& trimmed(lines_of(contents@)[0], base@)
            &&& texts(paths@) == non_blank(lines_of(contents@).drop_first())
        },
{
    let lines = split_lines(contents);
    if lines.len() == 0 {
        return None;
    }
    let base = trim(lines[0].as_str());
    let mut paths: Vec<String> = Vec::new();
    let mut i: usize = 1;
    while i < lines.len()
        invariant
            texts(lines@) == lines_of(contents@),
            1 <= i <= lines@.len(),
            texts(paths@) == non_blank(texts(lines@).subrange(1, i as int)),
        decreases lines@.len() - i,
    {
        proof {
            let all = texts(lines@);
            assert(all.subrange(1, i + 1).drop_last() =~= all.subrange(1, i as int));
            assert(all.subrange(1, i + 1).last() == lines@[i as int]@);
        }
        if !is_blank(lines[i].as_str()) {
            let ghost prev = paths@;
            paths.push(lines[i].clone());
            assert(texts(paths@) =~= texts(prev).push(lines@[i as int]@));
        }
        i += 1;
    }
    assert(texts(lines@).subrange(1, lines@.len() as int) =~= texts(lines@).drop_first());
    Some((base, paths))
}

/// A line with no line feed and no trailing carriage return, followed by a
/// line feed, is read back as that line.
proof fn lemma_lines_of_cons(a: Seq<char>, b: Seq<char>)
    requires
        forall|j: int| 0 <= j < a.len() ==> a[j] != '\n',
        a.len() == 0 || a.last() != '\r',
    ensures
        lines_of(a + "\n"@ + b) == seq![a] + lines_of(b),
{
    reveal_strlit("\n");
    let s = a + "\n"@ + b;
    assert(s[a.len() as int] == '\n');
    assert forall|j: int| 0 <= j < a.len() implies s[j] != '\n' by {
        assert(s[j] == a[j]);
    }
    lemma_next_newline(s, 0, a.len() as int);
    assert(s.take(a.len() as int) =~= a);
    assert(s.skip(a.len() as int + 1) =~= b);
}

/// A non-empty text with no line feed is a single line.
proof fn lemma_lines_of_single(a: Seq<char>)
    requires
        a.len() > 0,
        forall|j: int| 0 <= j < a.len() ==> a[j] != '\n',
    ensures
        lines_of(a) == seq![a],
{
    lemma_next_newline(a, 0, a.len() as int);
}

/// The saved text, read from the front: the base, a line feed, and the rest.
proof fn lemma_selection_text_front(base: Seq<char>, paths: Seq<Seq<char>>)
    requires
        paths.len() > 0,
    ensures
        selection_text(base, paths) == base + "\n"@ + selection_text(paths[0], paths.drop_first()),
    decreases paths.len(),
{
    if paths.len() == 1 {
        assert(paths.drop_last() =~= Seq::<Seq<char>>::empty());
        assert(paths.drop_first() =~= Seq::<Seq<char>>::empty());
        assert(selection_text(base, paths.drop_last()) == base);
        assert(selection_text(paths[0], paths.drop_first()) == paths[0]);
        assert(paths.last() == paths[0]);
    } else {
        let init = paths.drop_last();
        lemma_selection_text_front(base, init);
        assert(selection_text(base, paths) == selection_text(base, init) + "\n"@ + paths.last());
        assert(init[0] == paths[0]);
        assert(paths.drop_first().drop_last() =~= init.drop_first());
        assert(paths.drop_first().last() == paths.last());
        assert(selection_text(paths[0], paths.drop_first()) == selection_text(paths[0], init.drop_first()) + "\n"@
            + paths.last());
        assert(base + "\n"@ + selection_text(paths[0], init.drop_first()) + "\n"@ + paths.last() =~= base
            + "\n"@ + (selection_text(paths[0], init.drop_first()) + "\n"@ + paths.last()));
    }
}

/// A saved selection reads back as it was written: its first line is the base
/// path and its other lines are the chosen paths, whenever no line holds a line
/// feed or ends in a carriage return and the last line is not empty.
pub proof fn lemma_saved_selection_reads_back(base: Seq<char>, paths: Seq<Seq<char>>)
    requires
        forall|j: int| 0 <= j < base.len() ==> base[j] != '\n',
        base.len() == 0 || base.last() != '\r',
        forall|i: int, j: int| 0 <= i < paths.len() && 0 <= j < paths[i].len() ==> #[trigger] paths[i][j] != '\n',
        forall|i: int| 0 <= i < paths.len() ==> (#[trigger] paths[i]).len() == 0 || paths[i].last() != '\r',
        if paths.len() == 0 {
            base.len() > 0
        } else {
            paths.last().len() > 0
        },
    ensures
        lines_of(selection_text(base, paths)) == seq![base] + paths,
    decreases paths.len(),
{
    if paths.len() == 0 {
        lemma_lines_of_single(base);
        assert(seq![base] + paths =~= seq![base]);
    } else {
        lemma_selection_text_front(base, paths);
        lemma_lines_of_cons(base, selection_text(paths[0], paths.drop_first()));
        let rest = paths.drop_first();
        assert forall|i: int, j: int| 0 <= i < rest.len() && 0 <= j < rest[i].len() implies #[trigger] rest[i][j] != '\n' by {
            assert(rest[i] == paths[i + 1]);
        }
        assert forall|i: int| 0 <= i < rest.len() implies (#[trigger] rest[i]).len() == 0 || rest[i].last() != '\r' by {
            assert(rest[i] == paths[i + 1]);
        }
        assert forall|j: int| 0 <= j < paths[0].len() implies paths[0][j] != '\n' by {
            assert(paths[0][j] != '\n');
        }
        if rest.len() > 0 {
            assert(rest.last() == paths.last());
        }
        lemma_saved_selection_reads_back(paths[0], rest);
        assert(seq![base] + (seq![paths[0]] + rest) =~= seq![base] + paths);
    }
}

} // verus!
