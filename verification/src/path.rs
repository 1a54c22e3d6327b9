//! Paths as the library sees them: strings, split into components by the
//! standard library, and the questions the picker and the renderers ask of
//! them (file name, extension, component order).

use vstd::prelude::*;
use vstd::string::*;

verus! {

/// The kind of one path component, in the order in which components compare.
#[derive(PartialEq, Eq, Structural, Clone, Copy, Debug)]
pub enum PartKind {
    Prefix,
    RootDir,
    CurDir,
    ParentDir,
    Normal,
}

/// One component of a path: its kind and its text.
pub struct PathPart {
    pub kind: PartKind,
    pub text: String,
}

/// The components into which the standard library splits `path`, each as its
/// kind and its (lossily converted) text.
pub uninterp spec fn components_of(path: Seq<char>) -> Seq<(PartKind, Seq<char>)>;

/// A component as a plain value.
pub open spec fn part_view(p: PathPart) -> (PartKind, Seq<char>) {
    (p.kind, p.text@)
}

/// Splits `path` into components with `std::path::Path::components`; the
/// contract claims only that the result is `components_of(path)`, one entry per
/// component in order.
#[verifier::external_body]
pub(crate) fn path_components(path: &str) -> (parts: Vec<PathPart>)
    ensures
        parts_view(parts@) == components_of(path@),
{
    let mut parts = Vec::new();
    for c in std::path::Path::new(path).components() {
        let kind = match c {
            std::path::Component::Prefix(_) => PartKind::Prefix,
            std::path::Component::RootDir => PartKind::RootDir,
            std::path::Component::CurDir => PartKind::CurDir,
            std::path::Component::ParentDir => PartKind::ParentDir,
            std::path::Component::Normal(_) => PartKind::Normal,
        };
        parts.push(PathPart { kind, text: c.as_os_str().to_string_lossy().into_owned() });
    }
    parts
}

/// What remains of `path` once the leading components that make up `base` are
/// taken off, or none when `base` is not a prefix of `path`.
pub uninterp spec fn relative_to(path: Seq<char>, base: Seq<char>) -> Option<Seq<char>>;

/// `Path::strip_prefix`: `path` relative to `base`, lossily converted to text;
/// the contract claims only that the result is `relative_to(path, base)`.
#[verifier::external_body]
pub(crate) fn strip_base(path: &str, base: &str) -> (rel: Option<String>)
    ensures
        rel matches Some(r) ==> relative_to(path@, base@) == Some(r@),
        rel is None ==> relative_to(path@, base@) is None,
{
    match std::path::Path::new(path).strip_prefix(base) {
        Ok(rel) => Some(rel.to_string_lossy().into_owned()),
        Err(_) => None,
    }
}

/// The path shown for `path` below `base`: relative to `base` when `base` is a
/// prefix of it, else the path as it is.
pub open spec fn shown_relative(path: Seq<char>, base: Seq<char>) -> Seq<char> {
    match relative_to(path, base) {
        Some(r) => r,
        None => path,
    }
}

/// `path` relative to `base` when `base` is a prefix of it, else `path` itself.
pub fn relative_or_whole(path: &str, base: &str) -> (rel: String)
    ensures
        rel@ == shown_relative(path@, base@),
{
    match strip_base(path, base) {
        Some(r) => r,
        None => path.to_owned(),
    }
}

/// The texts of the components of `path` below `base`.
pub open spec fn relative_parts(path: Seq<char>, base: Seq<char>) -> Seq<Seq<char>> {
    components_of(shown_relative(path, base)).map_values(|c: (PartKind, Seq<char>)| c.1)
}

/// The text of each component, in order.
pub fn part_texts(parts: &[PathPart]) -> (names: Vec<String>)
    ensures
        names@.map_values(|n: String| n@) == parts_view(parts@).map_values(|c: (PartKind, Seq<char>)| c.1),
{
    let ghost comps = parts_view(parts@);
    let mut names: Vec<String> = Vec::new();
    let mut i: usize = 0;
    while i < parts.len()
        invariant
            i <= parts@.len() == comps.len(),
            comps == parts_view(parts@),
            names@.len() == i,
            forall|k: int| 0 <= k < i ==> #[trigger] names@[k]@ == comps[k].1,
        decreases parts@.len() - i,
    {
        assert(part_view(parts@[i as int]) == comps[i as int]);
        names.push(parts[i].text.clone());
        i += 1;
    }
    assert(names@.map_values(|n: String| n@) =~= comps.map_values(|c: (PartKind, Seq<char>)| c.1));
    names
}

/// The names of the components of `path` below `base`, one string each.
pub fn relative_components(path: &str, base: &str) -> (names: Vec<String>)
    ensures
        names@.map_values(|n: String| n@) == relative_parts(path@, base@),
{
    let rel = relative_or_whole(path, base);
    let parts = path_components(rel.as_str());
    part_texts(parts.as_slice())
}

/// The final component of a path, when it is a normal name.
pub open spec fn file_name_of(parts: Seq<(PartKind, Seq<char>)>) -> Option<Seq<char>> {
    if parts.len() > 0 && parts.last().0 == PartKind::Normal {
        Some(parts.last().1)
    } else {
        None
    }
}

/// A list of components as plain values.
pub open spec fn parts_view(parts: Seq<PathPart>) -> Seq<(PartKind, Seq<char>)> {
    parts.map_values(|p: PathPart| part_view(p))
}

/// The final component of a component list, when it is a normal name.
pub fn final_name(parts: &[PathPart]) -> (name: Option<String>)
    ensures
        name matches Some(n) ==> file_name_of(parts_view(parts@)) == Some(n@),
        name is None ==> file_name_of(parts_view(parts@)) is None,
{
    let n = parts.len();
    if n == 0 {
        return None;
    }
    assert(part_view(parts@[n - 1]) == parts_view(parts@).last());
    if parts[n - 1].kind == PartKind::Normal {
        Some(parts[n - 1].text.clone())
    } else {
        None
    }
}

/// The final component of `path`, when it is a normal name (`Path::file_name`).
pub fn file_name(path: &str) -> (name: Option<String>)
    ensures
        name matches Some(n) ==> file_name_of(components_of(path@)) == Some(n@),
        name is None ==> file_name_of(components_of(path@)) is None,
{
    let parts = path_components(path);
    final_name(parts.as_slice())
}

/// The extension of a file name: what follows its last dot, unless that dot
/// is the name's first character or there is no dot at all.
pub open spec fn extension_of(name: Seq<char>) -> Option<Seq<char>> {
    if exists|i: int| 0 < i < name.len() && name[i] == '.' {
        let i = choose|i: int|
            0 < i < name.len() && name[i] == '.' && forall|j: int| i < j < name.len() ==> name[j] != '.';
        Some(name.subrange(i + 1, name.len() as int))
    } else {
        None
    }
}

/// The extension of `name`, as `Path::extension` finds it in a file name.
pub fn extension(name: &str) -> (ext: Option<String>)
    ensures
        ext matches Some(e) ==> extension_of(name@) == Some(e@),
        ext is None ==> extension_of(name@) is None,
{
    let n = name.unicode_len();
    let mut i = n;
    while i > 0
        invariant
            i <= n == name@.len(),
            forall|j: int| i <= j < n ==> name@[j] != '.',
        decreases i,
    {
        if name.get_char(i - 1) == '.' {
            let dot = i - 1;
            if dot == 0 {
                assert(!exists|k: int| 0 < k < name@.len() && name@[k] == '.');
                return None;
            }
            assert(0 < dot < name@.len() && name@[dot as int] == '.' && forall|j: int| dot < j < name@.len() ==> name@[j] != '.');
            proof {
                let c = choose|k: int|
                    0 < k < name@.len() && name@[k] == '.' && forall|j: int| k < j < name@.len() ==> name@[j] != '.';
                assert(c == dot);
            }
            return Some(substring(name, dot + 1, n));
        }
        i -= 1;
    }
    None
}

/// The characters of `s` from `from` up to `to`.
pub fn substring(s: &str, from: usize, to: usize) -> (sub: String)
    requires
        from <= to <= s@.len(),
    ensures
        sub@ == s@.subrange(from as int, to as int),
{
    let mut out = String::new();
    let mut i = from;
    while i < to
        invariant
            from <= i <= to <= s@.len(),
            out@ == s@.subrange(from as int, i as int),
        decreases to - i,
    {
        crate::text::push_char(&mut out, s.get_char(i));
        assert(out@ =~= s@.subrange(from as int, (i + 1) as int));
        i += 1;
    }
    out
}

} // verus!
