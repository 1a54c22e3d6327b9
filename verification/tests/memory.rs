use bmo::memory::{is_blank, parse_selection, selection_body, split_lines, trim};

#[test]
fn selection_body_puts_base_then_paths_on_lines() {
    let paths = vec![String::from("/p/a"), String::from("/p/b")];
    assert_eq!(selection_body("/p", &paths), "/p\n/p/a\n/p/b");
    assert_eq!(selection_body("/p", &[]), "/p");
}

#[test]
fn parse_selection_trims_base_and_drops_blank_lines() {
    let parsed = parse_selection("  /p  \n/p/a\n\n   \n/p/b\r\n /p/c \n").unwrap();
    assert_eq!(parsed.0, "/p");
    assert_eq!(parsed.1, vec!["/p/a", "/p/b", " /p/c "]);
}

#[test]
fn parse_selection_of_empty_text_is_none() {
    assert!(parse_selection("").is_none());
    assert_eq!(parse_selection("\n").unwrap(), (String::new(), vec![]));
}

#[test]
fn saved_selection_reads_back() {
    let paths = vec![String::from("/p/src"), String::from("/p/README.md")];
    let body = selection_body("/p", &paths);
    let (base, read) = parse_selection(&body).unwrap();
    assert_eq!(base, "/p");
    assert_eq!(read, paths);
}

#[test]
fn lines_split_like_str_lines() {
    for text in ["", "a", "a\n", "a\r\nb", "\n\n", "x\ry\n", "a\r"] {
        let expected: Vec<String> = text.lines().map(String::from).collect();
        assert_eq!(split_lines(text), expected, "{:?}", text);
    }
}

#[test]
fn trim_matches_str_trim() {
    for text in ["", "  ", " a ", "\t\u{a0}a b\u{3000}\n", "x"] {
        assert_eq!(trim(text), text.trim(), "{:?}", text);
        assert_eq!(is_blank(text), text.trim().is_empty(), "{:?}", text);
    }
}
