use bmo::selection::Picked;
use bmo::structure::{build_structure, insert_path, TreeNode};
use bmo::tree::Entry;

fn e(path: &str, depth: usize, is_dir: bool) -> Entry {
    Entry { path: String::from(path), depth, is_dir }
}

#[test]
fn structure_nests_folders_and_sorts_siblings() {
    let selected = vec![
        Picked::Folder {
            path: String::from("/p/src"),
            entries: vec![e("/p/src/a.rs", 0, false), e("/p/src/sub", 0, true), e("/p/src/sub/b.rs", 1, false)],
        },
        Picked::File { path: String::from("/p/root.txt") },
    ];
    let out = build_structure("/p", &selected);
    assert_eq!(
        out,
        "{\n  root.txt,\n  src {\n    a.rs,\n    sub {\n      b.rs\n    }\n  }\n}\n"
    );
}

#[test]
fn structure_shows_empty_folders_with_empty_braces() {
    let selected = vec![
        Picked::Folder { path: String::from("/p/empty"), entries: vec![] },
        Picked::File { path: String::from("/p/a.txt") },
        Picked::Missing,
    ];
    assert_eq!(build_structure("/p", &selected), "{\n  a.txt,\n  empty {}\n}\n");
}

#[test]
fn structure_of_nothing_is_empty_braces() {
    assert_eq!(build_structure("/p", &[]), "{\n}\n");
    assert_eq!(build_structure("/p", &[Picked::Missing]), "{\n}\n");
}

#[test]
fn structure_keeps_paths_outside_base_whole() {
    let selected = vec![Picked::File { path: String::from("/q/x.rs") }];
    // "/q/x.rs" is not below "/p": its components are "/", "q", "x.rs".
    assert_eq!(build_structure("/p", &selected), "{\n  / {\n    q {\n      x.rs\n    }\n  }\n}\n");
}

#[test]
fn inserting_a_file_under_a_known_folder_keeps_it_a_folder() {
    let mut root = TreeNode { is_dir: false, children: Vec::new() };
    insert_path(&mut root, "/p", "/p/src", true);
    insert_path(&mut root, "/p", "/p/src", false);
    assert_eq!(root.children.len(), 1);
    assert_eq!(root.children[0].0, "src");
    assert!(root.children[0].1.is_dir);
    let mut out = String::new();
    root.render_children(&mut out, 1);
    assert_eq!(out, "  src {}\n");
}

#[test]
fn inserting_the_same_path_twice_adds_it_once() {
    let mut root = TreeNode { is_dir: false, children: Vec::new() };
    insert_path(&mut root, "/p", "/p/a/b.rs", false);
    insert_path(&mut root, "/p", "/p/a/b.rs", false);
    let mut out = String::new();
    root.render_children(&mut out, 0);
    assert_eq!(out, "a {\n  b.rs\n}\n");
}

#[test]
fn tree_children_stay_sorted_by_name_bytes() {
    let mut root = TreeNode { is_dir: false, children: Vec::new() };
    for name in ["zeta", "Alpha", "beta", "alpha", "Zeta"] {
        root.insert(&[String::from(name)], false);
    }
    let names: Vec<&str> = root.children.iter().map(|c| c.0.as_str()).collect();
    assert_eq!(names, vec!["Alpha", "Zeta", "alpha", "beta", "zeta"]);
}

fn sample_selection() -> (Picked, Picked, Picked) {
    let folder = Picked::Folder {
        path: String::from("/p/src"),
        entries: vec![e("/p/src/a.rs", 0, false), e("/p/src/sub", 0, true), e("/p/src/sub/b.rs", 1, false)],
    };
    let file = Picked::File { path: String::from("/p/root.txt") };
    let inner = Picked::File { path: String::from("/p/src/sub/b.rs") };
    (folder, file, inner)
}

#[test]
fn structure_ignores_order_and_repetition_of_the_selection() {
    let (f1, r1, i1) = sample_selection();
    let (f2, r2, i2) = sample_selection();
    let (f3, _, _) = sample_selection();
    let one = build_structure("/p", &[f1, r1, i1]);
    let other = build_structure("/p", &[i2, r2, f2, f3]);
    assert_eq!(one, other);
    assert_eq!(one, "{\n  root.txt,\n  src {\n    a.rs,\n    sub {\n      b.rs\n    }\n  }\n}\n");
}

#[test]
fn insertions_in_any_order_build_the_same_tree() {
    let paths: [(&str, bool); 4] = [("/p/a/b.rs", false), ("/p/a", false), ("/p/c", true), ("/p/a/d", true)];
    let mut forward = TreeNode { is_dir: false, children: Vec::new() };
    for (path, is_dir) in paths.iter() {
        insert_path(&mut forward, "/p", path, *is_dir);
    }
    let mut backward = TreeNode { is_dir: false, children: Vec::new() };
    for (path, is_dir) in paths.iter().rev() {
        insert_path(&mut backward, "/p", path, *is_dir);
        insert_path(&mut backward, "/p", path, *is_dir);
    }
    let mut a = String::new();
    forward.render_children(&mut a, 0);
    let mut b = String::new();
    backward.render_children(&mut b, 0);
    assert_eq!(a, b);
    // "a" was inserted as a file, but it has children, so it is a folder.
    assert_eq!(a, "a {\n  b.rs,\n  d {}\n},\nc {}\n");
    assert!(forward.children[0].1.is_dir);
    assert!(backward.children[0].1.is_dir);
}
