//! What a selected path turned out to be on disk, and what the library makes
//! of a selection: the flat list of files it covers, the contents listing, and
//! the small file that remembers it.

use vstd::prelude::*;
use crate::tree::Entry;
use crate::order::{lemma_sorted_unique, strict_order, strictly_sorted};
use crate::path::{components_of, part_view, parts_view, path_components, PartKind, PathPart};
use crate::text::{texts, lemma_text_lt_order, same_text, text_less, text_lt};

verus! {

/// A selected path, as the file system showed it.
pub enum Picked {
    /// A folder, with every row of a walk below it.
    Folder { path: String, entries: Vec<Entry> },
    /// A regular file.
    File { path: String },
    /// Neither (gone, or something else).
    Missing,
}


/// The files a selection names: each file of a picked folder's walk, and each
/// picked file, in order.
pub open spec fn candidate_files(selected: Seq<Picked>) -> Seq<Seq<char>>
    decreases selected.len(),
{
    if selected.len() == 0 {
        Seq::empty()
    } else {
        candidate_files(selected.drop_last()) + picked_files(selected.last())
    }
}

/// The files one picked item names.
pub open spec fn picked_files(p: Picked) -> Seq<Seq<char>> {
    match p {
        Picked::Folder { path, entries } => file_rows(entries@),
        Picked::File { path } => seq![path@],
        Picked::Missing => Seq::empty(),
    }
}

/// The paths of the rows of a walk that are files, in order.
pub open spec fn file_rows(entries: Seq<Entry>) -> Seq<Seq<char>>
    decreases entries.len(),
{
    if entries.len() == 0 {
        Seq::empty()
    } else if entries.last().is_dir {
        file_rows(entries.drop_last())
    } else {
        file_rows(entries.drop_last()).push(entries.last().path@)
    }
}

/// The rank of a component kind in the order of components.
pub open spec fn kind_rank(k: PartKind) -> int {
    match k {
        PartKind::Prefix => 0,
        PartKind::RootDir => 1,
        PartKind::CurDir => 2,
        PartKind::ParentDir => 3,
        PartKind::Normal => 4,
    }
}

/// The order of components: by kind, then by text.
pub open spec fn part_lt(a: (PartKind, Seq<char>), b: (PartKind, Seq<char>)) -> bool {
    kind_rank(a.0) < kind_rank(b.0) || (a.0 == b.0 && text_lt(a.1, b.1))
}

/// The order of paths: component by component, a proper prefix first.
pub open spec fn parts_lt(a: Seq<(PartKind, Seq<char>)>, b: Seq<(PartKind, Seq<char>)>) -> bool
    decreases a.len(),
{
    if a.len() == 0 {
        b.len() > 0
    } else if b.len() == 0 {
        false
    } else if a[0] != b[0] {
        part_lt(a[0], b[0])
    } else {
        parts_lt(a.drop_first(), b.drop_first())
    }
}

/// The component order is a strict total order.
pub proof fn lemma_part_lt_order(a: (PartKind, Seq<char>), b: (PartKind, Seq<char>), c: (PartKind, Seq<char>))
    ensures
        !part_lt(a, a),
        a != b ==> (part_lt(a, b) || part_lt(b, a)),
        part_lt(a, b) && part_lt(b, c) ==> part_lt(a, c),
{
    lemma_text_lt_order(a.1, b.1, c.1);
    lemma_text_lt_order(a.1, a.1, a.1);
    if a.0 == b.0 && a.1 == b.1 {
        assert(a == b);
    }
}

/// The path order is a strict total order.
pub proof fn lemma_parts_lt_order(
    a: Seq<(PartKind, Seq<char>)>,
    b: Seq<(PartKind, Seq<char>)>,
    c: Seq<(PartKind, Seq<char>)>,
)
    ensures
        !parts_lt(a, a),
        a != b ==> (parts_lt(a, b) || parts_lt(b, a)),
        parts_lt(a, b) && parts_lt(b, c) ==> parts_lt(a, c),
    decreases a.len(),
{
    if a.len() > 0 {
        lemma_part_lt_order(a[0], a[0], a[0]);
        if b.len() > 0 {
            lemma_part_lt_order(a[0], b[0], a[0]);
            if c.len() > 0 {
                lemma_part_lt_order(a[0], b[0], c[0]);
                lemma_part_lt_order(b[0], a[0], c[0]);
                lemma_part_lt_order(a[0], c[0], b[0]);
                lemma_parts_lt_order(a.drop_first(), b.drop_first(), c.drop_first());
            } else {
                lemma_parts_lt_order(a.drop_first(), b.drop_first(), b.drop_first());
            }
            if a.drop_first() == b.drop_first() && a[0] == b[0] {
                assert(a =~= seq![a[0]] + a.drop_first());
                assert(b =~= seq![b[0]] + b.drop_first());
            }
        } else {
            lemma_parts_lt_order(a.drop_first(), a.drop_first(), a.drop_first());
        }
    } else if b.len() == 0 {
        assert(a =~= b);
    }
}

/// Whether one path's components sort before another's.
fn parts_less(a: &Vec<PathPart>, b: &Vec<PathPart>) -> (less: bool)
    ensures
        less == parts_lt(parts_view(a@), parts_view(b@)),
{
    let ghost x = parts_view(a@);
    let ghost y = parts_view(b@);
    let mut i: usize = 0;
    proof {
        assert(x.skip(0) =~= x);
        assert(y.skip(0) =~= y);
    }
    while i < a.len() && i < b.len() && a[i].kind == b[i].kind && same_text(a[i].text.as_str(), b[i].text.as_str())
        invariant
            x == parts_view(a@),
            y == parts_view(b@),
            i <= a@.len(),
            i <= b@.len(),
            parts_lt(x, y) == parts_lt(x.skip(i as int), y.skip(i as int)),
        decreases a@.len() - i,
    {
        proof {
            assert(x[i as int] == y[i as int]);
            assert(x.skip(i as int).drop_first() =~= x.skip(i + 1));
            assert(y.skip(i as int).drop_first() =~= y.skip(i + 1));
        }
        i += 1;
    }
    if i == a.len() {
        i < b.len()
    } else if i == b.len() {
        false
    } else {
        assert(x.skip(i as int)[0] == x[i as int]);
        assert(y.skip(i as int)[0] == y[i as int]);
        let ka = kind_number(a[i].kind);
        let kb = kind_number(b[i].kind);
        if ka != kb {
            ka < kb
        } else {
            text_less(a[i].text.as_str(), b[i].text.as_str())
        }
    }
}

/// Whether two paths have the same components.
fn parts_equal(a: &Vec<PathPart>, b: &Vec<PathPart>) -> (same: bool)
    ensures
        same == (parts_view(a@) == parts_view(b@)),
{
    let ghost x = parts_view(a@);
    let ghost y = parts_view(b@);
    if a.len() != b.len() {
        assert(x.len() != y.len());
        return false;
    }
    let mut i: usize = 0;
    while i < a.len()
        invariant
            x == parts_view(a@),
            y == parts_view(b@),
            a@.len() == b@.len(),
            i <= a@.len(),
            forall|k: int| 0 <= k < i ==> x[k] == y[k],
        decreases a@.len() - i,
    {
        if a[i].kind != b[i].kind || !same_text(a[i].text.as_str(), b[i].text.as_str()) {
            assert(x[i as int] != y[i as int]);
            return false;
        }
        i += 1;
    }
    assert(x =~= y);
    true
}

/// The rank of a component kind, as a number.
fn kind_number(k: PartKind) -> (rank: u8)
    ensures
        rank == kind_rank(k),
{
    match k {
        PartKind::Prefix => 0,
        PartKind::RootDir => 1,
        PartKind::CurDir => 2,
        PartKind::ParentDir => 3,
        PartKind::Normal => 4,
    }
}

/// The components of a path, by which paths are ordered and compared.
pub type PathKey = Seq<(PartKind, Seq<char>)>;

/// A list of paths, each with its components.
pub open spec fn with_keys(paths: Seq<Seq<char>>) -> Seq<(PathKey, Seq<char>)> {
    paths.map_values(|p: Seq<char>| (components_of(p), p))
}

/// Paths with their components as plain values.
pub open spec fn keyed_view(v: Seq<(Vec<PathPart>, String)>) -> Seq<(PathKey, Seq<char>)> {
    v.map_values(|e: (Vec<PathPart>, String)| (parts_view(e.0@), e.1@))
}

/// The keys of `files` are in strictly increasing component order.
pub open spec fn in_key_order(files: Seq<(PathKey, Seq<char>)>) -> bool {
    forall|i: int, j: int| 0 <= i < j < files.len() ==> parts_lt(#[trigger] files[i].0, #[trigger] files[j].0)
}

/// Candidate `k` is the first candidate with its key.
pub open spec fn first_of_its_kind(cands: Seq<(PathKey, Seq<char>)>, k: int) -> bool {
    forall|m: int| 0 <= m < k ==> (#[trigger] cands[m]).0 != cands[k].0
}

/// `f` is the first candidate with its key.
pub open spec fn first_spelling(cands: Seq<(PathKey, Seq<char>)>, f: (PathKey, Seq<char>)) -> bool {
    exists|k: int| 0 <= k < cands.len() && cands[k] == f && #[trigger] first_of_its_kind(cands, k)
}

/// Some listed path has the key `key`.
pub open spec fn lists_key(files: Seq<(PathKey, Seq<char>)>, key: PathKey) -> bool {
    exists|i: int| 0 <= i < files.len() && (#[trigger] files[i]).0 == key
}

/// `files` is the sorted, de-duplicated form of `cands`: in key order, each key
/// once, each spelled as the first candidate with that key.
pub open spec fn sorted_unique(cands: Seq<(PathKey, Seq<char>)>, files: Seq<(PathKey, Seq<char>)>) -> bool {
    &&& in_key_order(files)
    &&& forall|i: int| 0 <= i < files.len() ==> first_spelling(cands, #[trigger] files[i])
    &&& forall|k: int| 0 <= k < cands.len() ==> lists_key(files, (#[trigger] cands[k]).0)
}

/// A candidate that comes later does not change which spelling comes first.
proof fn lemma_first_spelling_push(cands: Seq<(PathKey, Seq<char>)>, f: (PathKey, Seq<char>), c: (PathKey, Seq<char>))
    requires
        first_spelling(cands, f),
    ensures
        first_spelling(cands.push(c), f),
{
    let c2 = cands.push(c);
    let k = choose|k: int| 0 <= k < cands.len() && cands[k] == f && #[trigger] first_of_its_kind(cands, k);
    assert(c2[k] == f);
    assert forall|m: int| 0 <= m < k implies (#[trigger] c2[m]).0 != c2[k].0 by {
        assert(c2[m] == cands[m]);
    }
    assert(first_of_its_kind(c2, k));
}

/// A candidate whose key is already listed leaves the list as it is.
proof fn lemma_absorb_present(cands: Seq<(PathKey, Seq<char>)>, files: Seq<(PathKey, Seq<char>)>, c: (PathKey, Seq<char>), q: int)
    requires
        sorted_unique(cands, files),
        0 <= q < files.len(),
        files[q].0 == c.0,
    ensures
        sorted_unique(cands.push(c), files),
{
    let c2 = cands.push(c);
    assert forall|i: int| 0 <= i < files.len() implies first_spelling(c2, #[trigger] files[i]) by {
        lemma_first_spelling_push(cands, files[i], c);
    }
    assert forall|k: int| 0 <= k < c2.len() implies lists_key(files, (#[trigger] c2[k]).0) by {
        if k < cands.len() {
            assert(c2[k] == cands[k]);
        } else {
            assert(files[q].0 == c2[k].0);
        }
    }
}

/// Inserting at its place keeps the list in key order.
proof fn lemma_absorb_sorted(files: Seq<(PathKey, Seq<char>)>, c: (PathKey, Seq<char>), q: int)
    requires
        in_key_order(files),
        0 <= q <= files.len(),
        forall|i: int| 0 <= i < q ==> parts_lt((#[trigger] files[i]).0, c.0),
        q < files.len() ==> parts_lt(c.0, files[q].0),
    ensures
        in_key_order(files.insert(q, c)),
{
    let nf = files.insert(q, c);
    let key = c.0;
    assert forall|i: int, j: int| 0 <= i < j < nf.len() implies parts_lt(#[trigger] nf[i].0, #[trigger] nf[j].0) by {
        if j < q {
            assert(nf[i] == files[i] && nf[j] == files[j]);
        } else if j == q {
            assert(nf[i] == files[i]);
        } else if i == q {
            assert(nf[j] == files[j - 1]);
            if j - 1 > q {
                assert(parts_lt(files[q].0, files[j - 1].0));
                lemma_parts_lt_order(key, files[q].0, files[j - 1].0);
            }
        } else if i < q {
            assert(nf[i] == files[i] && nf[j] == files[j - 1]);
            assert(parts_lt(files[i].0, key));
            lemma_parts_lt_order(files[i].0, key, files[q].0);
            if j - 1 > q {
                assert(parts_lt(files[q].0, files[j - 1].0));
                lemma_parts_lt_order(files[i].0, files[q].0, files[j - 1].0);
            }
        } else {
            assert(nf[i] == files[i - 1] && nf[j] == files[j - 1]);
        }
    }
}

/// A key not yet listed is the key of no candidate so far.
proof fn lemma_new_key(cands: Seq<(PathKey, Seq<char>)>, files: Seq<(PathKey, Seq<char>)>, c: (PathKey, Seq<char>), q: int)
    requires
        sorted_unique(cands, files),
        0 <= q <= files.len(),
        forall|i: int| 0 <= i < q ==> parts_lt((#[trigger] files[i]).0, c.0),
        q < files.len() ==> parts_lt(c.0, files[q].0),
    ensures
        forall|m: int| 0 <= m < cands.len() ==> (#[trigger] cands[m]).0 != c.0,
{
    let key = c.0;
    lemma_parts_lt_order(key, key, key);
    assert forall|m: int| 0 <= m < cands.len() implies (#[trigger] cands[m]).0 != key by {
        assert(lists_key(files, cands[m].0));
        let i = choose|i: int| 0 <= i < files.len() && (#[trigger] files[i]).0 == cands[m].0;
        if cands[m].0 == key {
            if i < q {
                assert(parts_lt(files[i].0, key));
            } else if i > q {
                assert(parts_lt(files[q].0, files[i].0));
                lemma_parts_lt_order(key, files[q].0, files[i].0);
            }
        }
    }
}

/// A candidate whose key is not yet listed goes in at its place in the order.
proof fn lemma_absorb_insert(cands: Seq<(PathKey, Seq<char>)>, files: Seq<(PathKey, Seq<char>)>, c: (PathKey, Seq<char>), q: int)
    requires
        sorted_unique(cands, files),
        0 <= q <= files.len(),
        forall|i: int| 0 <= i < q ==> parts_lt((#[trigger] files[i]).0, c.0),
        q < files.len() ==> parts_lt(c.0, files[q].0),
    ensures
        sorted_unique(cands.push(c), files.insert(q, c)),
{
    let c2 = cands.push(c);
    let nf = files.insert(q, c);
    lemma_absorb_sorted(files, c, q);
    lemma_new_key(cands, files, c, q);
    assert forall|i: int| 0 <= i < nf.len() implies first_spelling(c2, #[trigger] nf[i]) by {
        if i == q {
            let k = cands.len() as int;
            assert(c2[k] == c);
            assert forall|m: int| 0 <= m < k implies (#[trigger] c2[m]).0 != c2[k].0 by {
                assert(c2[m] == cands[m]);
            }
            assert(first_of_its_kind(c2, k));
        } else if i < q {
            assert(nf[i] == files[i]);
            lemma_first_spelling_push(cands, files[i], c);
        } else {
            assert(nf[i] == files[i - 1]);
            lemma_first_spelling_push(cands, files[i - 1], c);
        }
    }
    assert forall|k: int| 0 <= k < c2.len() implies lists_key(nf, (#[trigger] c2[k]).0) by {
        if k < cands.len() {
            assert(c2[k] == cands[k]);
            assert(lists_key(files, cands[k].0));
            let i = choose|i: int| 0 <= i < files.len() && (#[trigger] files[i]).0 == cands[k].0;
            if i < q {
                assert(nf[i] == files[i]);
            } else {
                assert(nf[i + 1] == files[i]);
            }
        } else {
            assert(nf[q] == c2[k]);
        }
    }
}

/// A copy of a component list.
pub fn copy_parts(parts: &Vec<PathPart>) -> (copy: Vec<PathPart>)
    ensures
        parts_view(copy@) == parts_view(parts@),
{
    let mut copy: Vec<PathPart> = Vec::new();
    let mut i: usize = 0;
    while i < parts.len()
        invariant
            i <= parts@.len(),
            parts_view(copy@) == parts_view(parts@).take(i as int),
        decreases parts@.len() - i,
    {
        let ghost prev = copy@;
        copy.push(PathPart { kind: parts[i].kind, text: parts[i].text.clone() });
        assert(parts_view(copy@) =~= parts_view(prev).push(part_view(parts@[i as int])));
        assert(parts_view(parts@).take(i + 1) =~= parts_view(parts@).take(i as int).push(part_view(parts@[i as int])));
        i += 1;
    }
    assert(parts_view(parts@).take(parts@.len() as int) =~= parts_view(parts@));
    copy
}

/// Adds one candidate to a sorted, de-duplicated list.
fn absorb(acc: &mut Vec<(Vec<PathPart>, String)>, item: &(Vec<PathPart>, String), Ghost(cands): Ghost<Seq<(PathKey, Seq<char>)>>)
    requires
        sorted_unique(cands, keyed_view(old(acc)@)),
    ensures
        sorted_unique(cands.push((parts_view(item.0@), item.1@)), keyed_view(final(acc)@)),
{
    let ghost c = (parts_view(item.0@), item.1@);
    let ghost files = keyed_view(acc@);
    let mut q: usize = 0;
    while q < acc.len() && parts_less(&acc[q].0, &item.0)
        invariant
            q <= acc@.len(),
            files == keyed_view(acc@),
            c == (parts_view(item.0@), item.1@),
            forall|i: int| 0 <= i < q ==> parts_lt((#[trigger] files[i]).0, c.0),
        decreases acc@.len() - q,
    {
        assert(files[q as int].0 == parts_view(acc@[q as int].0@));
        q += 1;
    }
    if q < acc.len() && parts_equal(&acc[q].0, &item.0) {
        proof {
            assert(files[q as int].0 == parts_view(acc@[q as int].0@));
            lemma_absorb_present(cands, files, c, q as int);
        }
        return;
    }
    proof {
        if q < acc.len() {
            assert(files[q as int].0 == parts_view(acc@[q as int].0@));
            lemma_parts_lt_order(c.0, files[q as int].0, c.0);
        }
        lemma_absorb_insert(cands, files, c, q as int);
    }
    let parts = copy_parts(&item.0);
    acc.insert(q, (parts, item.1.clone()));
    assert(keyed_view(acc@) =~= files.insert(q as int, c));
}

/// Sorts paths by their components and keeps one path per distinct list of
/// components: the first one given.
pub fn sort_unique(cands: &[(Vec<PathPart>, String)]) -> (out: Vec<(Vec<PathPart>, String)>)
    ensures
        sorted_unique(keyed_view(cands@), keyed_view(out@)),
{
    let mut acc: Vec<(Vec<PathPart>, String)> = Vec::new();
    let mut i: usize = 0;
    while i < cands.len()
        invariant
            i <= cands@.len(),
            sorted_unique(keyed_view(cands@).take(i as int), keyed_view(acc@)),
        decreases cands@.len() - i,
    {
        absorb(&mut acc, &cands[i], Ghost(keyed_view(cands@).take(i as int)));
        assert(keyed_view(cands@).take(i as int).push((parts_view(cands@[i as int].0@), cands@[i as int].1@))
            =~= keyed_view(cands@).take(i + 1));
        i += 1;
    }
    assert(keyed_view(cands@).take(cands@.len() as int) =~= keyed_view(cands@));
    acc
}

/// The sorted, de-duplicated list of given candidates is unique: any two lists
/// that meet its description are the same list.
pub proof fn lemma_sorted_unique_is_unique(
    cands: Seq<(PathKey, Seq<char>)>,
    f: Seq<(PathKey, Seq<char>)>,
    g: Seq<(PathKey, Seq<char>)>,
)
    requires
        sorted_unique(cands, f),
        sorted_unique(cands, g),
    ensures
        f == g,
{
    let lt = |a: PathKey, b: PathKey| parts_lt(a, b);
    assert forall|x: PathKey| !#[trigger] lt(x, x) by {
        lemma_parts_lt_order(x, x, x);
    }
    assert forall|x: PathKey, y: PathKey, z: PathKey| #[trigger] lt(x, y) && #[trigger] lt(y, z) implies lt(x, z) by {
        lemma_parts_lt_order(x, y, z);
    }
    let kf = f.map_values(|e: (PathKey, Seq<char>)| e.0);
    let kg = g.map_values(|e: (PathKey, Seq<char>)| e.0);
    assert(strictly_sorted(kf, lt)) by {
        assert forall|i: int, j: int| 0 <= i < j < kf.len() implies lt(#[trigger] kf[i], #[trigger] kf[j]) by {
            assert(parts_lt(f[i].0, f[j].0));
        }
    }
    assert(strictly_sorted(kg, lt)) by {
        assert forall|i: int, j: int| 0 <= i < j < kg.len() implies lt(#[trigger] kg[i], #[trigger] kg[j]) by {
            assert(parts_lt(g[i].0, g[j].0));
        }
    }
    assert forall|x: PathKey| kf.contains(x) <==> kg.contains(x) by {
        if kf.contains(x) {
            let i = choose|i: int| 0 <= i < kf.len() && kf[i] == x;
            assert(first_spelling(cands, f[i]));
            let k = choose|k: int| 0 <= k < cands.len() && cands[k] == f[i] && #[trigger] first_of_its_kind(cands, k);
            assert(lists_key(g, cands[k].0));
            let j = choose|j: int| 0 <= j < g.len() && (#[trigger] g[j]).0 == cands[k].0;
            assert(kg[j] == x);
        }
        if kg.contains(x) {
            let i = choose|i: int| 0 <= i < kg.len() && kg[i] == x;
            assert(first_spelling(cands, g[i]));
            let k = choose|k: int| 0 <= k < cands.len() && cands[k] == g[i] && #[trigger] first_of_its_kind(cands, k);
            assert(lists_key(f, cands[k].0));
            let j = choose|j: int| 0 <= j < f.len() && (#[trigger] f[j]).0 == cands[k].0;
            assert(kf[j] == x);
        }
    }
    lemma_sorted_unique(kf, kg, lt);
    assert(f.len() == kf.len() && g.len() == kg.len());
    assert(f.len() == g.len());
    assert forall|i: int| 0 <= i < f.len() implies f[i] == g[i] by {
        assert(kf[i] == kg[i]);
        assert(first_spelling(cands, f[i]));
        assert(first_spelling(cands, g[i]));
        let k1 = choose|k: int| 0 <= k < cands.len() && cands[k] == f[i] && #[trigger] first_of_its_kind(cands, k);
        let k2 = choose|k: int| 0 <= k < cands.len() && cands[k] == g[i] && #[trigger] first_of_its_kind(cands, k);
        if k1 < k2 {
            assert(cands[k1].0 != cands[k2].0);
        } else if k2 < k1 {
            assert(cands[k2].0 != cands[k1].0);
        }
    }
    assert(f =~= g);
}

/// The picked item names the file `p`: it is that file, or a folder with a
/// non-folder row of that path anywhere in its walk.
pub open spec fn item_names_file(item: Picked, p: Seq<char>) -> bool {
    match item {
        Picked::Folder { path, entries } => exists|j: int|
            0 <= j < entries@.len() && !entries@[j].is_dir && #[trigger] entries@[j].path@ == p,
        Picked::File { path } => path@ == p,
        Picked::Missing => false,
    }
}

/// Some picked item names the file `p`.
pub open spec fn names_file(selected: Seq<Picked>, p: Seq<char>) -> bool {
    exists|i: int| 0 <= i < selected.len() && #[trigger] item_names_file(selected[i], p)
}

proof fn lemma_file_rows_contains(entries: Seq<Entry>, p: Seq<char>)
    ensures
        file_rows(entries).contains(p) <==> exists|j: int|
            0 <= j < entries.len() && !entries[j].is_dir && #[trigger] entries[j].path@ == p,
    decreases entries.len(),
{
    if entries.len() > 0 {
        let init = entries.drop_last();
        lemma_file_rows_contains(init, p);
        let last = entries.last();
        if file_rows(entries).contains(p) {
            let k = choose|k: int| 0 <= k < file_rows(entries).len() && file_rows(entries)[k] == p;
            if !last.is_dir && k == file_rows(init).len() {
                assert(entries[entries.len() - 1].path@ == p);
            } else {
                assert(file_rows(init)[k] == p);
                assert(file_rows(init).contains(p));
                let j = choose|j: int| 0 <= j < init.len() && !init[j].is_dir && #[trigger] init[j].path@ == p;
                assert(entries[j] == init[j]);
            }
        }
        if exists|j: int| 0 <= j < entries.len() && !entries[j].is_dir && #[trigger] entries[j].path@ == p {
            let j = choose|j: int| 0 <= j < entries.len() && !entries[j].is_dir && #[trigger] entries[j].path@ == p;
            if j == entries.len() - 1 {
                assert(file_rows(entries)[file_rows(init).len() as int] == p);
            } else {
                assert(init[j] == entries[j]);
                assert(file_rows(init).contains(p));
                let k = choose|k: int| 0 <= k < file_rows(init).len() && file_rows(init)[k] == p;
                assert(file_rows(entries)[k] == p);
            }
        }
    }
}

proof fn lemma_candidates_named(selected: Seq<Picked>, p: Seq<char>)
    ensures
        candidate_files(selected).contains(p) <==> names_file(selected, p),
    decreases selected.len(),
{
    if selected.len() > 0 {
        let init = selected.drop_last();
        let last = selected.last();
        lemma_candidates_named(init, p);
        let a = candidate_files(init);
        let b = picked_files(last);
        assert(candidate_files(selected) == a + b);
        assert(b.contains(p) <==> item_names_file(last, p)) by {
            match last {
                Picked::Folder { path, entries } => {
                    lemma_file_rows_contains(entries@, p);
                },
                Picked::File { path } => {
                    if b.contains(p) {
                        let k = choose|k: int| 0 <= k < b.len() && b[k] == p;
                    }
                    if path@ == p {
                        assert(b[0] == p);
                    }
                },
                Picked::Missing => {},
            }
        }
        if (a + b).contains(p) {
            let k = choose|k: int| 0 <= k < (a + b).len() && (a + b)[k] == p;
            if k < a.len() {
                assert(a[k] == p);
                assert(a.contains(p));
                let i = choose|i: int| 0 <= i < init.len() && #[trigger] item_names_file(init[i], p);
                assert(selected[i] == init[i]);
            } else {
                assert(b[k - a.len()] == p);
                assert(b.contains(p));
                assert(selected[selected.len() - 1] == last);
                assert(item_names_file(selected[selected.len() - 1], p));
            }
        }
        if names_file(selected, p) {
            let i = choose|i: int| 0 <= i < selected.len() && #[trigger] item_names_file(selected[i], p);
            if i < init.len() {
                assert(init[i] == selected[i]);
                assert(item_names_file(init[i], p));
                assert(a.contains(p));
                let k = choose|k: int| 0 <= k < a.len() && a[k] == p;
                assert((a + b)[k] == p);
            } else {
                assert(selected[i] == last);
                assert(b.contains(p));
                let k = choose|k: int| 0 <= k < b.len() && b[k] == p;
                assert((a + b)[k + a.len()] == p);
            }
        }
    }
}

/// The files collected from a selection are exactly the files it names: every
/// file a picked folder holds at any depth, and every picked file, is listed
/// (as the same path, component for component), and nothing else is.
pub proof fn lemma_collected_files_cover(selected: Seq<Picked>, files: Seq<Seq<char>>)
    requires
        sorted_unique(with_keys(candidate_files(selected)), with_keys(files)),
    ensures
        forall|p: Seq<char>|
            #[trigger] names_file(selected, p) ==> exists|k: int|
                0 <= k < files.len() && components_of(files[k]) == components_of(p),
        forall|k: int| 0 <= k < files.len() ==> names_file(selected, #[trigger] files[k]),
{
    let c = with_keys(candidate_files(selected));
    let f = with_keys(files);
    assert forall|p: Seq<char>| #[trigger] names_file(selected, p) implies exists|k: int|
        0 <= k < files.len() && components_of(files[k]) == components_of(p) by {
        lemma_candidates_named(selected, p);
        let m = choose|m: int| 0 <= m < candidate_files(selected).len() && candidate_files(selected)[m] == p;
        assert(c[m] == (components_of(p), p));
        assert(lists_key(f, c[m].0));
        let k = choose|k: int| 0 <= k < f.len() && (#[trigger] f[k]).0 == c[m].0;
        assert(f[k].0 == components_of(files[k]));
    }
    assert forall|k: int| 0 <= k < files.len() implies names_file(selected, #[trigger] files[k]) by {
        assert(first_spelling(c, f[k]));
        let q = choose|q: int| 0 <= q < c.len() && c[q] == f[k] && #[trigger] first_of_its_kind(c, q);
        assert(c[q].1 == candidate_files(selected)[q]);
        assert(f[k].1 == files[k]);
        assert(candidate_files(selected).contains(files[k]));
        lemma_candidates_named(selected, files[k]);
    }
}

/// Expand the user's selection into a flat, sorted, de-duplicated list of files.
/// A selected folder contributes every file inside it; a selected file is kept.
pub fn collect_files(selected: &[Picked]) -> (files: Vec<String>)
    ensures
        sorted_unique(with_keys(candidate_files(selected@)), with_keys(texts(files@))),
        forall|p: Seq<char>|
            #[trigger] names_file(selected@, p) ==> exists|k: int|
                0 <= k < files@.len() && components_of(files@[k]@) == components_of(p),
        forall|k: int| 0 <= k < files@.len() ==> #[trigger] names_file(selected@, files@[k]@),
{
    let mut cands: Vec<(Vec<PathPart>, String)> = Vec::new();
    let mut i: usize = 0;
    while i < selected.len()
        invariant
            i <= selected@.len(),
            keyed_view(cands@) == with_keys(candidate_files(selected@.take(i as int))),
        decreases selected@.len() - i,
    {
        let ghost done = candidate_files(selected@.take(i as int));
        proof {
            assert(selected@.take(i + 1).drop_last() =~= selected@.take(i as int));
            assert(candidate_files(selected@.take(i + 1)) == done + picked_files(selected@[i as int]));
        }
        match &selected[i] {
            Picked::Folder { path, entries } => {
                let mut j: usize = 0;
                proof {
                    assert(entries@.take(0) =~= Seq::<Entry>::empty());
                    assert(done + file_rows(entries@.take(0)) =~= done);
                }
                while j < entries.len()
                    invariant
                        j <= entries@.len(),
                        keyed_view(cands@) == with_keys(done + file_rows(entries@.take(j as int))),
                    decreases entries@.len() - j,
                {
                    proof {
                        assert(entries@.take(j + 1).drop_last() =~= entries@.take(j as int));
                        assert(entries@.take(j + 1).last() == entries@[j as int]);
                    }
                    if !entries[j].is_dir {
                        let p = entries[j].path.clone();
                        let parts = path_components(p.as_str());
                        let ghost prev = keyed_view(cands@);
                        cands.push((parts, p));
                        assert(keyed_view(cands@) =~= prev.push((components_of(entries@[j as int].path@), entries@[j as int].path@)));
                        assert(with_keys(done + file_rows(entries@.take(j + 1))) =~= with_keys(done + file_rows(entries@.take(j as int))).push(
                            (components_of(entries@[j as int].path@), entries@[j as int].path@)));
                    } else {
                        assert(file_rows(entries@.take(j + 1)) == file_rows(entries@.take(j as int)));
                    }
                    j += 1;
                }
                assert(entries@.take(entries@.len() as int) =~= entries@);
            },
            Picked::File { path } => {
                let p = path.clone();
                let parts = path_components(p.as_str());
                let ghost prev = keyed_view(cands@);
                cands.push((parts, p));
                assert(keyed_view(cands@) =~= prev.push((components_of(path@), path@)));
                assert(with_keys(done + seq![path@]) =~= with_keys(done).push((components_of(path@), path@)));
            },
            Picked::Missing => {
                assert(done + Seq::<Seq<char>>::empty() =~= done);
            },
        }
        i += 1;
    }
    assert(selected@.take(selected@.len() as int) =~= selected@);
    let sorted = sort_unique(cands.as_slice());
    let mut files: Vec<String> = Vec::new();
    let mut k: usize = 0;
    while k < sorted.len()
        invariant
            k <= sorted@.len(),
            files@.len() == k,
            forall|m: int| 0 <= m < k ==> #[trigger] files@[m]@ == sorted@[m].1@,
        decreases sorted@.len() - k,
    {
        files.push(sorted[k].1.clone());
        k += 1;
    }
    proof {
        let kv = keyed_view(sorted@);
        let c = with_keys(candidate_files(selected@));
        // every listed path carries its own components
        assert forall|m: int| 0 <= m < kv.len() implies #[trigger] kv[m] == (components_of(kv[m].1), kv[m].1) by {
            assert(first_spelling(c, kv[m]));
            let q = choose|q: int| 0 <= q < c.len() && c[q] == kv[m] && #[trigger] first_of_its_kind(c, q);
        }
        assert(with_keys(texts(files@)) =~= kv);
        lemma_collected_files_cover(selected@, texts(files@));
        assert forall|k: int| 0 <= k < files@.len() implies #[trigger] names_file(selected@, files@[k]@) by {
            assert(texts(files@)[k] == files@[k]@);
        }
        assert forall|p: Seq<char>| #[trigger] names_file(selected@, p) implies exists|k: int|
            0 <= k < files@.len() && components_of(files@[k]@) == components_of(p) by {
            let k = choose|k: int| 0 <= k < texts(files@).len() && components_of(texts(files@)[k]) == components_of(p);
            assert(texts(files@)[k] == files@[k]@);
        }
    }
    files
}

} // verus!
