use bmo::path::{extension, file_name, final_name, part_texts, relative_components, relative_or_whole, PartKind, PathPart};

#[test]
fn final_name_is_the_last_normal_component() {
    let parts = vec![
        PathPart { kind: PartKind::RootDir, text: String::from("/") },
        PathPart { kind: PartKind::Normal, text: String::from("a.rs") },
    ];
    assert_eq!(final_name(&parts), Some(String::from("a.rs")));
    let up = vec![PathPart { kind: PartKind::ParentDir, text: String::from("..") }];
    assert_eq!(final_name(&up), None);
    assert_eq!(final_name(&[]), None);
    assert_eq!(part_texts(&parts), vec!["/", "a.rs"]);
}

#[test]
fn file_names_and_extensions() {
    assert_eq!(file_name("/p/src/main.rs"), Some(String::from("main.rs")));
    assert_eq!(file_name("/p/src/"), Some(String::from("src")));
    assert_eq!(file_name("/"), None);
    assert_eq!(file_name("a/.."), None);
    assert_eq!(extension("main.rs"), Some(String::from("rs")));
    assert_eq!(extension("archive.tar.gz"), Some(String::from("gz")));
    assert_eq!(extension(".bashrc"), None);
    assert_eq!(extension("Makefile"), None);
    assert_eq!(extension("dot."), Some(String::new()));
}

#[test]
fn paths_relative_to_the_base() {
    assert_eq!(relative_or_whole("/p/src/a.rs", "/p"), "src/a.rs");
    assert_eq!(relative_or_whole("/p", "/p"), "");
    assert_eq!(relative_or_whole("/q/a.rs", "/p"), "/q/a.rs");
    assert_eq!(relative_or_whole("/pp/a.rs", "/p"), "/pp/a.rs");
    assert_eq!(relative_components("/p/src/a.rs", "/p"), vec!["src", "a.rs"]);
    assert_eq!(relative_components("/q/a.rs", "/p"), vec!["/", "q", "a.rs"]);
}
