use bmo::cli::{compose_both, mode_for_choice, parse_flag, Flag, Mode};

fn args(list: &[&str]) -> Vec<String> {
    list.iter().map(|s| s.to_string()).collect()
}

#[test]
fn flags_are_read_from_the_first_argument() {
    assert!(matches!(parse_flag(&args(&[])), Flag::NoFlag));
    assert!(matches!(parse_flag(&args(&["-last"])), Flag::Last));
    assert!(matches!(parse_flag(&args(&["--last", "-help"])), Flag::Last));
    for h in ["-help", "--help", "-h", "help"] {
        assert!(matches!(parse_flag(&args(&[h])), Flag::Help));
    }
    match parse_flag(&args(&["-x", "-last"])) {
        Flag::Unknown(s) => assert_eq!(s, "-x"),
        _ => panic!("expected an unknown flag"),
    }
    assert!(matches!(parse_flag(&args(&["last"])), Flag::Unknown(_)));
}

#[test]
fn menu_choices_map_to_modes() {
    assert!(matches!(mode_for_choice(0), Mode::Contents));
    assert!(matches!(mode_for_choice(1), Mode::Structure));
    assert!(matches!(mode_for_choice(2), Mode::Both));
    assert!(matches!(mode_for_choice(7), Mode::Both));
}

#[test]
fn both_views_are_joined_under_headings() {
    assert_eq!(
        compose_both("{\n}\n", "// @File: a\n"),
        "# File structure\n\n```\n{\n}\n```\n\n# Files\n\n// @File: a\n"
    );
}
