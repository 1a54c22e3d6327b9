//! The structure view: selected paths gathered into a tree of names and
//! rendered as nested braces.

use vstd::prelude::*;
use crate::text::{texts, lemma_repeated_len, lemma_text_lt_order, push_repeated, repeated, same_text, text_less, text_lt};
use vstd::string::*;
use crate::path::{relative_components, relative_parts};
use crate::selection::Picked;

verus! {

/// A simple nested tree used to render the structure view. `is_dir` tells an
/// empty folder (rendered `{}`) apart from a file (rendered bare). Children are
/// kept sorted by name, each name once.
pub struct TreeNode {
    pub is_dir: bool,
    pub children: Vec<(String, TreeNode)>,
}

/// The mathematical content of a [`TreeNode`]: whether it is a folder, and its
/// named children in order.
pub struct Outline {
    pub is_dir: bool,
    pub children: Seq<(Seq<char>, Outline)>,
}

impl TreeNode {
    /// The outline this node holds.
    pub open spec fn outline(self) -> Outline
        decreases self,
    {
        Outline { is_dir: self.is_dir, children: outline_children(self.children@) }
    }
}

/// The outlines of a list of named nodes.
pub open spec fn outline_children(s: Seq<(String, TreeNode)>) -> Seq<(Seq<char>, Outline)>
    decreases s,
{
    if s.len() == 0 {
        Seq::empty()
    } else {
        seq![(s[0].0@, s[0].1.outline())] + outline_children(s.drop_first())
    }
}

/// A well-formed outline: at every level the children's names are strictly
/// increasing in the string order.
pub open spec fn outline_wf(o: Outline) -> bool
    decreases o,
{
    &&& forall|i: int, j: int|
        0 <= i < j < o.children.len() ==> text_lt(#[trigger] o.children[i].0, #[trigger] o.children[j].0)
    &&& forall|i: int| 0 <= i < o.children.len() ==> outline_wf(#[trigger] o.children[i].1)
}

/// A fresh, empty, non-folder node.
pub open spec fn empty_outline() -> Outline {
    Outline { is_dir: false, children: Seq::empty() }
}

/// Inserting the path `parts` below `o`: the node named by the path is created
/// when missing; the final component becomes a folder when `is_dir` (it is never
/// turned back into a file), and every component above it becomes a folder.
pub open spec fn outline_insert(o: Outline, parts: Seq<Seq<char>>, is_dir: bool) -> Outline
    decreases parts.len(), o.children.len() + 2,
{
    if parts.len() == 0 {
        o
    } else {
        Outline { is_dir: o.is_dir, children: children_insert(o.children, parts, is_dir) }
    }
}

/// The child named `parts[0]`, once the path's remainder has been placed in it.
pub open spec fn placed(child: Outline, parts: Seq<Seq<char>>, is_dir: bool) -> Outline
    decreases parts.len(), 0int,
{
    if parts.len() <= 1 {
        Outline { is_dir: child.is_dir || is_dir, children: child.children }
    } else {
        outline_insert(Outline { is_dir: true, children: child.children }, parts.drop_first(), is_dir)
    }
}

/// Inserting the path `parts` into a sorted list of named children.
pub open spec fn children_insert(
    ch: Seq<(Seq<char>, Outline)>,
    parts: Seq<Seq<char>>,
    is_dir: bool,
) -> Seq<(Seq<char>, Outline)>
    decreases parts.len(), ch.len() + 1,
{
    if parts.len() == 0 {
        ch
    } else if ch.len() == 0 {
        seq![(parts[0], placed(empty_outline(), parts, is_dir))]
    } else if ch[0].0 == parts[0] {
        seq![(parts[0], placed(ch[0].1, parts, is_dir))] + ch.drop_first()
    } else if text_lt(parts[0], ch[0].0) {
        seq![(parts[0], placed(empty_outline(), parts, is_dir))] + ch
    } else {
        seq![ch[0]] + children_insert(ch.drop_first(), parts, is_dir)
    }
}

/// The outline of a list of nodes, element by element.
pub proof fn lemma_outline_children(s: Seq<(String, TreeNode)>)
    ensures
        outline_children(s).len() == s.len(),
        forall|i: int| 0 <= i < s.len() ==> #[trigger] outline_children(s)[i] == (s[i].0@, s[i].1.outline()),
    decreases s.len(),
{
    if s.len() > 0 {
        lemma_outline_children(s.drop_first());
        assert forall|i: int| 0 <= i < s.len() implies #[trigger] outline_children(s)[i] == (s[i].0@, s[i].1.outline()) by {
            if i > 0 {
                assert(outline_children(s)[i] == outline_children(s.drop_first())[i - 1]);
                assert(s.drop_first()[i - 1] == s[i]);
            }
        }
    }
}

/// Two node lists with the same outline element by element have the same outline.
pub proof fn lemma_outline_children_ext(s: Seq<(String, TreeNode)>, t: Seq<(Seq<char>, Outline)>)
    requires
        s.len() == t.len(),
        forall|i: int| 0 <= i < s.len() ==> #[trigger] t[i] == (s[i].0@, s[i].1.outline()),
    ensures
        outline_children(s) == t,
{
    lemma_outline_children(s);
    assert(outline_children(s) =~= t);
}

/// Where the scan for `parts[0]` stops in a sorted list decides what inserting does.
pub proof fn lemma_children_insert_at(
    ch: Seq<(Seq<char>, Outline)>,
    parts: Seq<Seq<char>>,
    is_dir: bool,
    i: int,
)
    requires
        parts.len() > 0,
        0 <= i <= ch.len(),
        forall|j: int| 0 <= j < i ==> text_lt(#[trigger] ch[j].0, parts[0]),
        i < ch.len() ==> !text_lt(ch[i].0, parts[0]),
    ensures
        (i < ch.len() && ch[i].0 == parts[0]) ==> children_insert(ch, parts, is_dir) == ch.take(i)
            + seq![(parts[0], placed(ch[i].1, parts, is_dir))] + ch.skip(i + 1),
        !(i < ch.len() && ch[i].0 == parts[0]) ==> children_insert(ch, parts, is_dir) == ch.take(i)
            + seq![(parts[0], placed(empty_outline(), parts, is_dir))] + ch.skip(i),
    decreases i,
{
    if i == 0 {
        assert(ch.take(0) + seq![(parts[0], placed(empty_outline(), parts, is_dir))] + ch.skip(0)
            =~= seq![(parts[0], placed(empty_outline(), parts, is_dir))] + ch);
        if ch.len() > 0 {
            lemma_text_lt_order(ch[0].0, parts[0], parts[0]);
            assert(ch.take(0) + seq![(parts[0], placed(ch[0].1, parts, is_dir))] + ch.skip(1)
                =~= seq![(parts[0], placed(ch[0].1, parts, is_dir))] + ch.drop_first());
        }
    } else {
        let rest = ch.drop_first();
        assert(text_lt(ch[0].0, parts[0]));
        lemma_text_lt_order(ch[0].0, parts[0], parts[0]);
        assert forall|j: int| 0 <= j < i - 1 implies text_lt(#[trigger] rest[j].0, parts[0]) by {
            assert(rest[j] == ch[j + 1]);
        }
        lemma_children_insert_at(rest, parts, is_dir, i - 1);
        if i < ch.len() && ch[i].0 == parts[0] {
            assert(seq![ch[0]] + (rest.take(i - 1) + seq![(parts[0], placed(ch[i].1, parts, is_dir))] + rest.skip(i))
                =~= ch.take(i) + seq![(parts[0], placed(ch[i].1, parts, is_dir))] + ch.skip(i + 1));
        } else {
            assert(seq![ch[0]] + (rest.take(i - 1) + seq![(parts[0], placed(empty_outline(), parts, is_dir))] + rest.skip(i - 1))
                =~= ch.take(i) + seq![(parts[0], placed(empty_outline(), parts, is_dir))] + ch.skip(i));
        }
    }
}

impl TreeNode {
    /// Insert one path into the tree, marking the final component as a dir or file.
    pub fn insert(&mut self, parts: &[String], is_dir: bool)
        requires
            outline_wf(old(self).outline()),
        ensures
            outline_wf(final(self).outline()),
            final(self).outline() == outline_insert(old(self).outline(), texts(parts@), is_dir),
        decreases parts@.len(),
    {
        if parts.len() == 0 {
            return;
        }
        let ghost ch = outline_children(self.children@);
        proof {
            lemma_outline_children(self.children@);
        }
        let first = &parts[0];
        let mut i: usize = 0;
        while i < self.children.len() && text_less(self.children[i].0.as_str(), first.as_str())
            invariant
                i <= self.children@.len(),
                ch == outline_children(self.children@),
                ch.len() == self.children@.len(),
                forall|k: int| 0 <= k < ch.len() ==> #[trigger] ch[k] == (self.children@[k].0@, self.children@[k].1.outline()),
                forall|j: int| 0 <= j < i ==> text_lt(#[trigger] ch[j].0, first@),
            decreases self.children@.len() - i,
        {
            i += 1;
        }
        let found = i < self.children.len() && same_text(self.children[i].0.as_str(), first.as_str());
        let ghost old_children = self.children@;
        let (key, mut child) = if found {
            self.children.remove(i)
        } else {
            (first.clone(), TreeNode { is_dir: false, children: Vec::new() })
        };
        let ghost before = child.outline();
        proof {
            lemma_outline_children(Seq::empty());
            assert(texts(parts@)[0] == first@);
            lemma_children_insert_at(ch, texts(parts@), is_dir, i as int);
            assert(outline_wf(old(self).outline()));
            assert(old(self).outline().children == ch);
            if found {
                assert(outline_wf(old(self).outline().children[i as int].1));
            }
            assert(outline_wf(before));
        }
        if parts.len() == 1 {
            if is_dir {
                child.is_dir = true;
            }
            proof {
                assert(outline_children(child.children@) == before.children);
            }
        } else {
            child.is_dir = true;
            let rest = vstd::slice::slice_subrange(parts, 1, parts.len());
            proof {
                assert(texts(rest@) =~= texts(parts@).drop_first());
                assert(child.outline() == Outline { is_dir: true, children: before.children });
            }
            child.insert(rest, is_dir);
        }
        let ghost placed_child = child.outline();
        assert(placed_child == placed(before, texts(parts@), is_dir));
        self.children.insert(i, (key, child));
        proof {
            let new_ch = if found {
                ch.take(i as int) + seq![(first@, placed_child)] + ch.skip(i + 1)
            } else {
                ch.take(i as int) + seq![(first@, placed_child)] + ch.skip(i as int)
            };
            assert(key@ == first@);
            assert forall|k: int| 0 <= k < self.children@.len() implies #[trigger] new_ch[k] == (
            self.children@[k].0@, self.children@[k].1.outline()) by {
                if k < i {
                    assert(self.children@[k] == old_children[k]);
                } else if k > i {
                    if found {
                        assert(self.children@[k] == old_children[k]);
                    } else {
                        assert(self.children@[k] == old_children[k - 1]);
                    }
                }
            }
            lemma_outline_children_ext(self.children@, new_ch);
            assert(self.outline().children == new_ch);
            // sortedness and well-formedness of the new level
            let o = self.outline();
            assert(outline_wf(placed_child));
            assert(ch == old(self).outline().children);
            assert forall|a: int, b: int| 0 <= a < b < ch.len() implies text_lt(
                #[trigger] ch[a].0,
                #[trigger] ch[b].0,
            ) by {
                assert(ch == old(self).outline().children);
            }
            // the new name sorts before every later old name
            assert forall|b: int| i <= b < ch.len() && !(found && b == i) implies text_lt(first@, #[trigger] ch[b].0) by {
                if found {
                    assert(text_lt(ch[i as int].0, ch[b].0));
                } else {
                    lemma_text_lt_order(ch[i as int].0, first@, first@);
                    assert(text_lt(first@, ch[i as int].0));
                    if b > i {
                        assert(text_lt(ch[i as int].0, ch[b].0));
                        lemma_text_lt_order(first@, ch[i as int].0, ch[b].0);
                    }
                }
            }
            assert forall|a: int, b: int| 0 <= a < b < o.children.len() implies text_lt(
                #[trigger] o.children[a].0,
                #[trigger] o.children[b].0,
            ) by {
                let shift: int = if found { 0 } else { 1 };
                if a < i {
                    assert(o.children[a] == ch[a]);
                    if b < i {
                        assert(o.children[b] == ch[b]);
                    } else if b == i {
                        assert(o.children[b].0 == first@);
                    } else {
                        assert(o.children[b] == ch[b - shift]);
                        assert(text_lt(ch[a].0, first@));
                        assert(text_lt(first@, ch[b - shift].0));
                        lemma_text_lt_order(ch[a].0, first@, ch[b - shift].0);
                    }
                } else if a == i {
                    assert(o.children[a].0 == first@);
                    assert(o.children[b] == ch[b - shift]);
                    assert(text_lt(first@, ch[b - shift].0));
                } else {
                    assert(o.children[a] == ch[a - shift]);
                    assert(o.children[b] == ch[b - shift]);
                }
            }
            assert forall|a: int| 0 <= a < o.children.len() implies outline_wf(#[trigger] o.children[a].1) by {
                if a < i {
                    assert(o.children[a] == ch[a]);
                } else if a > i {
                    if found {
                        assert(o.children[a] == ch[a]);
                    } else {
                        assert(o.children[a] == ch[a - 1]);
                    }
                }
            }
        }
    }
}


/// The lines of one named child, given whether a sibling follows it and the
/// indentation depth: a file is its bare name, an empty folder `name {}`, and
/// any other folder `name {`, its children one level deeper, then `}`; all but
/// the last sibling end in a comma.
pub open spec fn entry_text(e: (Seq<char>, Outline), more: bool, depth: nat) -> Seq<char>
    decreases e, 0int,
{
    let indent = repeated("  "@, depth);
    let comma = if more {
        ","@
    } else {
        ""@
    };
    if e.1.is_dir {
        if e.1.children.len() == 0 {
            indent + e.0 + " {}"@ + comma + "\n"@
        } else {
            indent + e.0 + " {\n"@ + render_from(e.1.children, 0, depth + 1) + indent + "}"@ + comma
                + "\n"@
        }
    } else {
        indent + e.0 + comma + "\n"@
    }
}

/// A child's lines start with its indentation (two columns per level) and its
/// name; right after the name a folder shows ` {` and a file shows the comma
/// that separates it from a following sibling, or its line break; every
/// child's lines end in a line break.
pub proof fn lemma_entry_shows_kind(e: (Seq<char>, Outline), more: bool, depth: nat)
    ensures
        ({
            let t = entry_text(e, more, depth);
            let k = (2 * depth + e.0.len()) as int;
            &&& t.len() > k
            &&& t.subrange(0, k) == repeated("  "@, depth) + e.0
            &&& e.1.is_dir ==> t.len() >= k + 2 && t[k] == ' ' && t[k + 1] == '{'
            &&& !e.1.is_dir ==> t[k] == if more { ',' } else { '\n' }
            &&& t.last() == '\n'
        }),
{
    reveal_strlit("  ");
    reveal_strlit(",");
    reveal_strlit("");
    reveal_strlit("\n");
    reveal_strlit(" {}");
    reveal_strlit(" {\n");
    reveal_strlit("}");
    lemma_repeated_len("  "@, depth);
    let indent = repeated("  "@, depth);
    let head = indent + e.0;
    let comma = if more { ","@ } else { ""@ };
    let t = entry_text(e, more, depth);
    assert(head.len() == 2 * depth + e.0.len());
    if e.1.is_dir {
        if e.1.children.len() == 0 {
            assert(t == head + " {}"@ + comma + "\n"@);
        } else {
            let inner = render_from(e.1.children, 0, depth + 1);
            assert(t == head + " {\n"@ + inner + indent + "}"@ + comma + "\n"@);
        }
    } else {
        assert(t == head + comma + "\n"@);
    }
    assert(t.subrange(0, head.len() as int) =~= head);
}

/// The lines of the children from `start` on, at indentation `depth`.
pub open spec fn render_from(ch: Seq<(Seq<char>, Outline)>, start: int, depth: nat) -> Seq<char>
    decreases ch, ch.len() - start,
{
    if start < 0 || start >= ch.len() {
        Seq::empty()
    } else {
        entry_text(ch[start], start + 1 < ch.len(), depth) + render_from(ch, start + 1, depth)
    }
}

/// The depth counter never overflows while rendering the folders below `o`
/// when `o`'s children are rendered at `depth`.
pub open spec fn depth_fits(o: Outline, depth: int) -> bool
    decreases o,
{
    forall|i: int|
        0 <= i < o.children.len() && (#[trigger] o.children[i]).1.children.len() > 0 ==> depth + 1
            <= usize::MAX && depth_fits(o.children[i].1, depth + 1)
}

impl TreeNode {
    /// Render this node's children as comma-separated, indented entries.
    pub fn render_children(&self, out: &mut String, depth: usize)
        requires
            outline_wf(self.outline()),
            depth_fits(self.outline(), depth as int),
        ensures
            final(out)@ == old(out)@ + render_from(self.outline().children, 0, depth as nat),
        decreases self, 0int,
    {
        let ghost ch = self.outline().children;
        proof {
            lemma_outline_children(self.children@);
            lemma_fits_means(self.outline(), depth as int);
        }
        let mut indent = String::new();
        push_repeated(&mut indent, "  ", depth);
        let count = self.children.len();
        let mut i: usize = 0;
        while i < count
            invariant
                count == self.children@.len() == ch.len(),
                ch == self.outline().children,
                forall|k: int| 0 <= k < ch.len() ==> #[trigger] ch[k] == (self.children@[k].0@, self.children@[k].1.outline()),
                forall|k: int| 0 <= k < ch.len() ==> entry_fits(#[trigger] ch[k].1, depth as int),
                forall|k: int| 0 <= k < ch.len() ==> outline_wf(#[trigger] ch[k].1),
                indent@ == repeated("  "@, depth as nat),
                i <= count,
                out@ + render_from(ch, i as int, depth as nat) == old(out)@ + render_from(ch, 0, depth as nat),
            decreases count - i,
        {
            let ghost before = out@;
            let ghost e = ch[i as int];
            assert(e == (self.children@[i as int].0@, self.children@[i as int].1.outline()));
            assert(entry_fits(e.1, depth as int));
            render_entry(&self.children[i].0, &self.children[i].1, i + 1 < count, indent.as_str(), out, depth);
            proof {
                assert(render_from(ch, i as int, depth as nat) == entry_text(e, i + 1 < count, depth as nat)
                    + render_from(ch, i + 1, depth as nat));
                assert(out@ + render_from(ch, i + 1, depth as nat) =~= before + render_from(ch, i as int, depth as nat));
            }
            i += 1;
        }
    }
}

/// Writes the lines of one named child at indentation `depth`.
fn render_entry(name: &String, child: &TreeNode, more: bool, indent: &str, out: &mut String, depth: usize)
    requires
        indent@ == repeated("  "@, depth as nat),
        entry_fits(child.outline(), depth as int),
        outline_wf(child.outline()),
    ensures
        final(out)@ == old(out)@ + entry_text((name@, child.outline()), more, depth as nat),
    decreases child, 1int,
{
    let ghost e = (name@, child.outline());
    proof {
        lemma_outline_children(child.children@);
    }
    let comma = if more {
        ","
    } else {
        ""
    };
    if child.is_dir {
        if child.children.len() == 0 {
            out.append(indent);
            out.append(name.as_str());
            out.append(" {}");
            out.append(comma);
            out.append("\n");
            assert(out@ =~= old(out)@ + entry_text(e, more, depth as nat));
        } else {
            out.append(indent);
            out.append(name.as_str());
            out.append(" {\n");
            child.render_children(out, depth + 1);
            out.append(indent);
            out.append("}");
            out.append(comma);
            out.append("\n");
            assert(out@ =~= old(out)@ + entry_text(e, more, depth as nat));
        }
    } else {
        out.append(indent);
        out.append(name.as_str());
        out.append(comma);
        out.append("\n");
        assert(out@ =~= old(out)@ + entry_text(e, more, depth as nat));
    }
}

/// A named child can be rendered from `depth` without the depth counter overflowing.
pub open spec fn entry_fits(c: Outline, depth: int) -> bool {
    c.children.len() > 0 ==> depth + 1 <= usize::MAX && depth_fits(c, depth + 1)
}

proof fn lemma_children_fit_concat(a: Seq<(Seq<char>, Outline)>, b: Seq<(Seq<char>, Outline)>, d: int)
    requires
        forall|i: int| 0 <= i < a.len() ==> entry_fits(#[trigger] a[i].1, d),
        forall|i: int| 0 <= i < b.len() ==> entry_fits(#[trigger] b[i].1, d),
    ensures
        forall|i: int| 0 <= i < (a + b).len() ==> entry_fits(#[trigger] (a + b)[i].1, d),
{
    assert forall|i: int| 0 <= i < (a + b).len() implies entry_fits(#[trigger] (a + b)[i].1, d) by {
        if i < a.len() {
            assert((a + b)[i] == a[i]);
        } else {
            assert((a + b)[i] == b[i - a.len()]);
        }
    }
}

proof fn lemma_fits_means(o: Outline, d: int)
    ensures
        depth_fits(o, d) <==> forall|i: int| 0 <= i < o.children.len() ==> entry_fits(#[trigger] o.children[i].1, d),
{
    if depth_fits(o, d) {
        assert forall|i: int| 0 <= i < o.children.len() implies entry_fits(#[trigger] o.children[i].1, d) by {
            assert(o.children[i].1 == (o.children[i]).1);
        }
    }
    if forall|i: int| 0 <= i < o.children.len() ==> entry_fits(#[trigger] o.children[i].1, d) {
        assert forall|i: int|
            0 <= i < o.children.len() && (#[trigger] o.children[i]).1.children.len() > 0 implies d + 1
                <= usize::MAX && depth_fits(o.children[i].1, d + 1) by {
            assert(entry_fits(o.children[i].1, d));
        }
    }
}

proof fn lemma_fits_insert(o: Outline, parts: Seq<Seq<char>>, is_dir: bool, d: int)
    requires
        depth_fits(o, d),
        d + parts.len() <= usize::MAX + 1,
    ensures
        depth_fits(outline_insert(o, parts, is_dir), d),
    decreases parts.len(), o.children.len() + 2,
{
    if parts.len() > 0 {
        lemma_fits_means(o, d);
        lemma_fits_children(o.children, parts, is_dir, d);
        let r = outline_insert(o, parts, is_dir);
        assert(r.children == children_insert(o.children, parts, is_dir));
        assert forall|i: int| 0 <= i < r.children.len() implies entry_fits(#[trigger] r.children[i].1, d) by {
            assert(entry_fits(children_insert(o.children, parts, is_dir)[i].1, d));
        }
        lemma_fits_means(r, d);
    }
}

proof fn lemma_fits_placed(c: Outline, parts: Seq<Seq<char>>, is_dir: bool, d: int)
    requires
        entry_fits(c, d),
        1 <= parts.len(),
        d + parts.len() <= usize::MAX + 1,
    ensures
        entry_fits(placed(c, parts, is_dir), d),
    decreases parts.len(), 0int,
{
    if parts.len() > 1 {
        let c2 = Outline { is_dir: true, children: c.children };
        if c.children.len() > 0 {
            assert(depth_fits(c, d + 1));
            lemma_fits_means(c, d + 1);
            lemma_fits_means(c2, d + 1);
        } else {
            lemma_fits_means(c2, d + 1);
        }
        lemma_fits_insert(c2, parts.drop_first(), is_dir, d + 1);
    }
}

proof fn lemma_fits_children(ch: Seq<(Seq<char>, Outline)>, parts: Seq<Seq<char>>, is_dir: bool, d: int)
    requires
        forall|i: int| 0 <= i < ch.len() ==> entry_fits(#[trigger] ch[i].1, d),
        1 <= parts.len(),
        d + parts.len() <= usize::MAX + 1,
    ensures
        forall|i: int|
            0 <= i < children_insert(ch, parts, is_dir).len() ==> entry_fits(
                #[trigger] children_insert(ch, parts, is_dir)[i].1,
                d,
            ),
    decreases parts.len(), ch.len() + 1,
{
    let e = empty_outline();
    if ch.len() == 0 {
        lemma_fits_placed(e, parts, is_dir, d);
        lemma_children_fit_concat(seq![(parts[0], placed(e, parts, is_dir))], Seq::empty(), d);
        assert(seq![(parts[0], placed(e, parts, is_dir))] + Seq::<(Seq<char>, Outline)>::empty()
            =~= children_insert(ch, parts, is_dir));
    } else if ch[0].0 == parts[0] {
        lemma_fits_placed(ch[0].1, parts, is_dir, d);
        assert forall|i: int| 0 <= i < ch.drop_first().len() implies entry_fits(#[trigger] ch.drop_first()[i].1, d) by {
            assert(ch.drop_first()[i] == ch[i + 1]);
        }
        lemma_children_fit_concat(seq![(parts[0], placed(ch[0].1, parts, is_dir))], ch.drop_first(), d);
    } else if text_lt(parts[0], ch[0].0) {
        lemma_fits_placed(e, parts, is_dir, d);
        lemma_children_fit_concat(seq![(parts[0], placed(e, parts, is_dir))], ch, d);
    } else {
        assert forall|i: int| 0 <= i < ch.drop_first().len() implies entry_fits(#[trigger] ch.drop_first()[i].1, d) by {
            assert(ch.drop_first()[i] == ch[i + 1]);
        }
        lemma_fits_children(ch.drop_first(), parts, is_dir, d);
        lemma_children_fit_concat(seq![ch[0]], children_insert(ch.drop_first(), parts, is_dir), d);
    }
}


/// The child called `name` in a list of named children, if any (the first one).
pub open spec fn child_named(ch: Seq<(Seq<char>, Outline)>, name: Seq<char>) -> Option<Outline>
    decreases ch.len(),
{
    if ch.len() == 0 {
        None
    } else if ch[0].0 == name {
        Some(ch[0].1)
    } else {
        child_named(ch.drop_first(), name)
    }
}

/// The node reached from `o` by following the names in `parts`, if any.
pub open spec fn lookup(o: Outline, parts: Seq<Seq<char>>) -> Option<Outline>
    decreases parts.len(),
{
    if parts.len() == 0 {
        Some(o)
    } else {
        match child_named(o.children, parts[0]) {
            Some(c) => lookup(c, parts.drop_first()),
            None => None,
        }
    }
}

/// The node an insertion starts from below a level: the existing child, or a fresh one.
pub open spec fn existing_or_empty(c: Option<Outline>) -> Outline {
    match c {
        Some(n) => n,
        None => empty_outline(),
    }
}

/// In a sorted list, inserting a path places its first name exactly once, built
/// from the child of that name if there was one.
proof fn lemma_child_named_after_insert(ch: Seq<(Seq<char>, Outline)>, parts: Seq<Seq<char>>, is_dir: bool)
    requires
        parts.len() > 0,
        forall|i: int, j: int| 0 <= i < j < ch.len() ==> text_lt(#[trigger] ch[i].0, #[trigger] ch[j].0),
    ensures
        child_named(children_insert(ch, parts, is_dir), parts[0]) == Some(
            placed(existing_or_empty(child_named(ch, parts[0])), parts, is_dir),
        ),
    decreases ch.len(),
{
    if ch.len() > 0 && ch[0].0 != parts[0] {
        if text_lt(parts[0], ch[0].0) {
            // every later name is larger still, so the name is new
            lemma_child_named_absent(ch, parts[0]);
        } else {
            let rest = ch.drop_first();
            assert forall|i: int, j: int| 0 <= i < j < rest.len() implies text_lt(#[trigger] rest[i].0, #[trigger] rest[j].0) by {
                assert(rest[i] == ch[i + 1] && rest[j] == ch[j + 1]);
            }
            lemma_child_named_after_insert(rest, parts, is_dir);
            let r = children_insert(ch, parts, is_dir);
            assert(r == seq![ch[0]] + children_insert(rest, parts, is_dir));
            assert(r[0] == ch[0]);
            assert(r.drop_first() =~= children_insert(rest, parts, is_dir));
        }
    }
}

/// A name smaller than the first of a sorted list is not in the list.
proof fn lemma_child_named_absent(ch: Seq<(Seq<char>, Outline)>, name: Seq<char>)
    requires
        ch.len() > 0,
        text_lt(name, ch[0].0),
        forall|i: int, j: int| 0 <= i < j < ch.len() ==> text_lt(#[trigger] ch[i].0, #[trigger] ch[j].0),
    ensures
        child_named(ch, name) is None,
    decreases ch.len(),
{
    lemma_text_lt_order(name, ch[0].0, name);
    assert(ch[0].0 != name);
    let rest = ch.drop_first();
    assert(child_named(ch, name) == child_named(rest, name));
    if rest.len() > 0 {
        assert(rest[0] == ch[1]);
        assert(text_lt(ch[0].0, ch[1].0));
        lemma_text_lt_order(name, ch[0].0, ch[1].0);
        assert forall|i: int, j: int| 0 <= i < j < rest.len() implies text_lt(#[trigger] rest[i].0, #[trigger] rest[j].0) by {
            assert(rest[i] == ch[i + 1] && rest[j] == ch[j + 1]);
        }
        lemma_child_named_absent(rest, name);
    }
}

/// Inserting a path makes its node exist; the node is a folder when the path was
/// inserted as one or when it already was a folder (a folder is never turned back
/// into a file), and every node on the way to it is a folder.
pub proof fn lemma_insert_reaches_path(o: Outline, parts: Seq<Seq<char>>, is_dir: bool, k: int)
    requires
        outline_wf(o),
        parts.len() > 0,
        0 < k <= parts.len(),
    ensures
        lookup(outline_insert(o, parts, is_dir), parts.take(k)) matches Some(n) && (if k < parts.len() {
            n.is_dir
        } else {
            n.is_dir == (is_dir || (lookup(o, parts) matches Some(m) && m.is_dir))
        }),
    decreases parts.len(),
{
    let c = existing_or_empty(child_named(o.children, parts[0]));
    lemma_child_named_after_insert(o.children, parts, is_dir);
    let r = outline_insert(o, parts, is_dir);
    let pl = placed(c, parts, is_dir);
    assert(child_named(r.children, parts[0]) == Some(pl));
    assert(parts.take(k)[0] == parts[0]);
    assert(lookup(r, parts.take(k)) == lookup(pl, parts.take(k).drop_first()));
    if k == 1 {
        assert(parts.take(k).drop_first() =~= Seq::<Seq<char>>::empty());
        if parts.len() == 1 {
            assert(parts.drop_first() =~= Seq::<Seq<char>>::empty());
            assert(lookup(o, parts) == match child_named(o.children, parts[0]) {
                Some(m) => lookup(m, parts.drop_first()),
                None => None,
            });
        }
    } else {
        let rest = parts.drop_first();
        let c2 = Outline { is_dir: true, children: c.children };
        assert(outline_wf(c)) by {
            lemma_child_named_wf(o.children, parts[0]);
        }
        assert(outline_wf(c2));
        lemma_insert_reaches_path(c2, rest, is_dir, k - 1);
        assert(parts.take(k).drop_first() =~= rest.take(k - 1));
        if k == parts.len() {
            assert(rest.take(k - 1) =~= rest);
            assert(lookup(c2, rest) == lookup(c, rest));
            assert(lookup(o, parts) == match child_named(o.children, parts[0]) {
                Some(m) => lookup(m, rest),
                None => None,
            });
            if child_named(o.children, parts[0]) is None {
                assert(lookup(empty_outline(), rest) is None);
            }
        }
    }
}

/// The children of a well-formed outline are well-formed.
proof fn lemma_child_named_wf(ch: Seq<(Seq<char>, Outline)>, name: Seq<char>)
    requires
        forall|i: int| 0 <= i < ch.len() ==> outline_wf(#[trigger] ch[i].1),
    ensures
        outline_wf(existing_or_empty(child_named(ch, name))),
    decreases ch.len(),
{
    if ch.len() > 0 && ch[0].0 != name {
        let rest = ch.drop_first();
        assert forall|i: int| 0 <= i < rest.len() implies outline_wf(#[trigger] rest[i].1) by {
            assert(rest[i] == ch[i + 1]);
        }
        lemma_child_named_wf(rest, name);
    }
}

/// The paths a picked item puts into the structure view, each with whether it
/// is a folder: a folder itself and every row of its walk, or a file.
pub open spec fn picked_inserts(base: Seq<char>, p: Picked) -> Seq<(Seq<Seq<char>>, bool)> {
    match p {
        Picked::Folder { path, entries } => seq![(relative_parts(path@, base), true)]
            + entries@.map_values(|e: crate::tree::Entry| (relative_parts(e.path@, base), e.is_dir)),
        Picked::File { path } => seq![(relative_parts(path@, base), false)],
        Picked::Missing => Seq::empty(),
    }
}

/// The paths a whole selection puts into the structure view, in order.
pub open spec fn all_inserts(base: Seq<char>, selected: Seq<Picked>) -> Seq<(Seq<Seq<char>>, bool)>
    decreases selected.len(),
{
    if selected.len() == 0 {
        Seq::empty()
    } else {
        all_inserts(base, selected.drop_last()) + picked_inserts(base, selected.last())
    }
}

/// `o` after inserting each path of `ins` in turn.
pub open spec fn inserted(o: Outline, ins: Seq<(Seq<Seq<char>>, bool)>) -> Outline
    decreases ins.len(),
{
    if ins.len() == 0 {
        o
    } else {
        outline_insert(inserted(o, ins.drop_last()), ins.last().0, ins.last().1)
    }
}

/// The empty root of a structure view.
pub open spec fn empty_root() -> Outline {
    Outline { is_dir: false, children: Seq::empty() }
}

/// The structure text of a selection below `base`: the outline of every path it
/// covers, rendered one level deep inside an outer pair of braces.
pub open spec fn structure_text(base: Seq<char>, selected: Seq<Picked>) -> Seq<char> {
    "{\n"@ + render_from(inserted(empty_root(), all_inserts(base, selected)).children, 0, 1) + "}\n"@
}

/// Insert one path into the tree, marking the final component as a dir or file.
pub fn insert_path(root: &mut TreeNode, base: &str, path: &str, is_dir: bool)
    requires
        outline_wf(old(root).outline()),
        depth_fits(old(root).outline(), 1),
    ensures
        outline_wf(final(root).outline()),
        depth_fits(final(root).outline(), 1),
        final(root).outline() == outline_insert(old(root).outline(), relative_parts(path@, base@), is_dir),
{
    let parts = relative_components(path, base);
    let n = parts.len();
    proof {
        assert(relative_parts(path@, base@).len() == n);
        lemma_fits_insert(root.outline(), relative_parts(path@, base@), is_dir, 1);
    }
    root.insert(parts.as_slice(), is_dir);
}

/// Mode 1: a nested-brace view of everything in the selection. Folders are
/// rendered as `name { ... }`, empty folders as `name {}`, and files as bare
/// names. Siblings are comma-separated, one per line, indented by depth.
pub fn build_structure(base: &str, selected: &[Picked]) -> (out: String)
    ensures
        out@ == structure_text(base@, selected@),
{
    let mut root = TreeNode { is_dir: false, children: Vec::new() };
    proof {
        lemma_outline_children(root.children@);
        assert(root.outline() == empty_root());
        lemma_fits_means(root.outline(), 1);
    }
    let mut i: usize = 0;
    while i < selected.len()
        invariant
            i <= selected@.len(),
            outline_wf(root.outline()),
            depth_fits(root.outline(), 1),
            root.outline() == inserted(empty_root(), all_inserts(base@, selected@.take(i as int))),
        decreases selected@.len() - i,
    {
        let ghost done = all_inserts(base@, selected@.take(i as int));
        proof {
            assert(selected@.take(i + 1).drop_last() =~= selected@.take(i as int));
            assert(selected@.take(i + 1).last() == selected@[i as int]);
        }
        let ghost target = done + picked_inserts(base@, selected@[i as int]);
        match &selected[i] {
            Picked::Folder { path, entries } => {
                insert_path(&mut root, base, path.as_str(), true);
                let ghost first = done.push((relative_parts(path@, base@), true));
                proof {
                    assert(first.drop_last() =~= done);
                    assert(inserted(empty_root(), first) == root.outline());
                    assert(first + entries@.take(0).map_values(
                        |e: crate::tree::Entry| (relative_parts(e.path@, base@), e.is_dir),
                    ) =~= first);
                }
                let mut j: usize = 0;
                while j < entries.len()
                    invariant
                        j <= entries@.len(),
                        outline_wf(root.outline()),
                        depth_fits(root.outline(), 1),
                        root.outline() == inserted(empty_root(), first + entries@.take(j as int).map_values(
                            |e: crate::tree::Entry| (relative_parts(e.path@, base@), e.is_dir),
                        )),
                    decreases entries@.len() - j,
                {
                    let ghost prev = first + entries@.take(j as int).map_values(
                        |e: crate::tree::Entry| (relative_parts(e.path@, base@), e.is_dir),
                    );
                    insert_path(&mut root, base, entries[j].path.as_str(), entries[j].is_dir);
                    proof {
                        let next = first + entries@.take(j + 1).map_values(
                            |e: crate::tree::Entry| (relative_parts(e.path@, base@), e.is_dir),
                        );
                        assert(next.drop_last() =~= prev);
                        assert(next.last() == (relative_parts(entries@[j as int].path@, base@), entries@[j as int].is_dir));
                    }
                    j += 1;
                }
                proof {
                    assert(entries@.take(entries@.len() as int) =~= entries@);
                    assert(first + entries@.map_values(|e: crate::tree::Entry| (relative_parts(e.path@, base@), e.is_dir)) =~= target);
                }
            },
            Picked::File { path } => {
                insert_path(&mut root, base, path.as_str(), false);
                proof {
                    assert(target.drop_last() =~= done);
                }
            },
            Picked::Missing => {
                assert(target =~= done);
            },
        }
        i += 1;
    }
    proof {
        assert(selected@.take(selected@.len() as int) =~= selected@);
    }
    let mut out = String::from_str("{\n");
    root.render_children(&mut out, 1);
    out.append("}\n");
    out
}

} // verus!
