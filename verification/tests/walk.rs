use bmo::walk::{has_depth_room, is_ignored, order_listing, walk_tree, DirNode};

fn file(name: &str, path: &str) -> DirNode {
    DirNode { name: String::from(name), path: String::from(path), is_dir: false, children: vec![] }
}

fn dir(name: &str, path: &str, children: Vec<DirNode>) -> DirNode {
    DirNode { name: String::from(name), path: String::from(path), is_dir: true, children }
}

fn listing() -> Vec<DirNode> {
    vec![
        file("b.txt", "/p/b.txt"),
        dir("src", "/p/src", vec![file("z.rs", "/p/src/z.rs"), file("a.rs", "/p/src/a.rs")]),
        dir(".git", "/p/.git", vec![file("HEAD", "/p/.git/HEAD")]),
        file("a.txt", "/p/a.txt"),
        dir("docs", "/p/docs", vec![]),
        file("node_modules", "/p/node_modules"),
    ]
}

#[test]
fn walk_puts_folders_first_then_files_alphabetically() {
    let rows = walk_tree(&listing());
    let got: Vec<(&str, usize, bool)> = rows.iter().map(|r| (r.path.as_str(), r.depth, r.is_dir)).collect();
    assert_eq!(
        got,
        vec![
            ("/p/docs", 0, true),
            ("/p/src", 0, true),
            ("/p/src/a.rs", 1, false),
            ("/p/src/z.rs", 1, false),
            ("/p/a.txt", 0, false),
            ("/p/b.txt", 0, false),
        ]
    );
}

#[test]
fn walk_skips_ignored_names() {
    assert!(is_ignored(".git"));
    assert!(is_ignored("node_modules"));
    assert!(is_ignored(".gitignore"));
    assert!(!is_ignored("src"));
    assert!(!is_ignored(".gitattributes"));
    let order = order_listing(&listing());
    assert_eq!(order, vec![4, 1, 3, 0]);
}

#[test]
fn walk_of_empty_listing_is_empty() {
    assert!(walk_tree(&[]).is_empty());
}

#[test]
fn walk_keeps_listing_order_for_equal_names() {
    let items = vec![file("x", "/one/x"), file("x", "/two/x")];
    let rows = walk_tree(&items);
    assert_eq!(rows[0].path, "/one/x");
    assert_eq!(rows[1].path, "/two/x");
}

#[test]
fn depth_room_holds_for_real_trees() {
    assert!(has_depth_room(&listing(), 0));
    assert!(!has_depth_room(&[dir("a", "/a", vec![])], usize::MAX));
    assert!(has_depth_room(&[file("a", "/a")], usize::MAX));
}
