use bmo::contents::{build_contents, ends_with_line_break, FileText};
use bmo::lang::lang_for;

#[test]
fn contents_fence_each_file_with_its_language() {
    let files = vec![
        FileText { path: String::from("/p/src/main.rs"), contents: Some(String::from("fn main() {}")) },
        FileText { path: String::from("/p/notes.md"), contents: Some(String::from("# hi\n")) },
        FileText { path: String::from("/p/img.png"), contents: None },
    ];
    assert_eq!(
        build_contents("/p", &files),
        "// @File: src/main.rs\n```rust\nfn main() {}\n```\n\n\
         // @File: notes.md\n```markdown\n# hi\n```\n\n\
         // @File: img.png (skipped: not text)\n\n"
    );
}

#[test]
fn contents_of_empty_file_gets_a_line_break() {
    let files = vec![FileText { path: String::from("/elsewhere/Makefile"), contents: Some(String::new()) }];
    assert_eq!(build_contents("/p", &files), "// @File: /elsewhere/Makefile\n```\n\n```\n\n");
}

#[test]
fn line_break_detection() {
    assert!(ends_with_line_break("a\n"));
    assert!(!ends_with_line_break("a"));
    assert!(!ends_with_line_break(""));
}

#[test]
fn language_hints_follow_the_extension() {
    assert_eq!(lang_for("src/lib.rs"), "rust");
    assert_eq!(lang_for("a/b.tsx"), "tsx");
    assert_eq!(lang_for("x.h"), "c");
    assert_eq!(lang_for("x.hpp"), "cpp");
    assert_eq!(lang_for("ci.yml"), "yaml");
    assert_eq!(lang_for("archive.tar.gz"), "");
    assert_eq!(lang_for(".bashrc"), "");
    assert_eq!(lang_for("Makefile"), "");
    assert_eq!(lang_for("x.RS"), "");
    assert_eq!(lang_for("dir/.."), "");
}
