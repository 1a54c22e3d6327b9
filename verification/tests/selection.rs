use bmo::selection::{collect_files, Picked};
use bmo::tree::Entry;
use bmo::path::{PartKind, PathPart};
use bmo::selection::sort_unique;

fn e(path: &str, depth: usize, is_dir: bool) -> Entry {
    Entry { path: String::from(path), depth, is_dir }
}

#[test]
fn collect_files_sorts_and_dedups() {
    let selected = vec![
        Picked::Folder {
            path: String::from("/p/src"),
            entries: vec![e("/p/src/b.rs", 0, false), e("/p/src/a.rs", 0, false), e("/p/src/sub", 0, true)],
        },
        Picked::File { path: String::from("/p/src/a.rs") },
        Picked::File { path: String::from("/p/z.txt") },
        Picked::Missing,
    ];
    assert_eq!(collect_files(&selected), vec!["/p/src/a.rs", "/p/src/b.rs", "/p/z.txt"]);
}

#[test]
fn collect_files_orders_by_components_not_bytes() {
    let selected = vec![
        Picked::File { path: String::from("/p/a-b") },
        Picked::File { path: String::from("/p/a/b") },
    ];
    assert_eq!(collect_files(&selected), vec!["/p/a/b", "/p/a-b"]);
}

#[test]
fn collect_files_keeps_first_spelling_of_equal_paths() {
    let selected = vec![
        Picked::File { path: String::from("/p//a") },
        Picked::File { path: String::from("/p/a") },
    ];
    assert_eq!(collect_files(&selected), vec!["/p//a"]);
}

#[test]
fn collect_files_of_nothing_is_empty() {
    assert!(collect_files(&[Picked::Missing]).is_empty());
}


fn parts(list: &[(PartKind, &str)]) -> Vec<PathPart> {
    list.iter().map(|(k, t)| PathPart { kind: *k, text: String::from(*t) }).collect()
}

#[test]
fn sort_unique_orders_by_given_components() {
    let cands = vec![
        (parts(&[(PartKind::Normal, "b")]), String::from("b")),
        (parts(&[(PartKind::RootDir, "/"), (PartKind::Normal, "z")]), String::from("/z")),
        (parts(&[(PartKind::CurDir, "."), (PartKind::Normal, "a")]), String::from("./a")),
        (parts(&[(PartKind::Normal, "b")]), String::from("b-again")),
        (parts(&[(PartKind::Normal, "a"), (PartKind::Normal, "b")]), String::from("a/b")),
        (parts(&[(PartKind::Normal, "a")]), String::from("a")),
    ];
    let out: Vec<String> = sort_unique(&cands).into_iter().map(|(_, p)| p).collect();
    assert_eq!(out, vec!["/z", "./a", "a", "a/b", "b"]);
}
