use bmo::picker::{KeyPress, Outcome, Picker};
use bmo::tree::Entry;

fn e(path: &str, depth: usize, is_dir: bool) -> Entry {
    Entry { path: String::from(path), depth, is_dir }
}

fn sample() -> Vec<Entry> {
    vec![
        e("src", 0, true),
        e("src/a.rs", 1, false),
        e("src/sub", 1, true),
        e("src/sub/b.rs", 2, false),
        e("root.txt", 0, false),
    ]
}

#[test]
fn empty_walk_gives_no_picker() {
    assert!(Picker::new(vec![]).is_none());
}

#[test]
fn keys_move_open_select_and_confirm() {
    let mut p = Picker::new(sample()).unwrap();
    let (visible, viewport) = p.begin_frame(10);
    assert_eq!(visible, vec![0, 4]);
    assert_eq!(viewport, 8);
    assert!(matches!(p.handle_key(&visible, KeyPress::Right), Outcome::Continue));
    assert!(p.expanded[0]);
    let (visible, _) = p.begin_frame(10);
    assert_eq!(visible, vec![0, 1, 2, 4]);
    assert!(matches!(p.handle_key(&visible, KeyPress::Down), Outcome::Continue));
    assert_eq!(p.cursor, 1);
    p.handle_key(&visible, KeyPress::Space);
    assert_eq!(p.checked, vec![false, true, false, false, false]);
    // selecting does not open anything
    assert_eq!(p.expanded, vec![true, false, false, false, false]);
    p.handle_key(&visible, KeyPress::Left);
    p.handle_key(&visible, KeyPress::Left);
    assert_eq!(p.jump, 20);
    p.handle_key(&visible, KeyPress::Down);
    assert_eq!(p.cursor, 3);
    assert_eq!(p.jump, 0);
    p.handle_key(&visible, KeyPress::Up);
    assert_eq!(p.cursor, 2);
    p.handle_key(&visible, KeyPress::Other);
    assert_eq!(p.cursor, 2);
    assert!(matches!(p.handle_key(&visible, KeyPress::Enter), Outcome::Confirm));
    assert_eq!(p.selected_paths(), vec!["src/a.rs"]);
}

#[test]
fn escape_cancels_and_failed_reads_confirm() {
    let mut p = Picker::new(sample()).unwrap();
    let (visible, _) = p.begin_frame(3);
    assert!(matches!(p.handle_key(&visible, KeyPress::Escape), Outcome::Cancel));
    assert!(matches!(p.handle_key(&visible, KeyPress::Unreadable), Outcome::Confirm));
}

#[test]
fn right_on_a_file_does_nothing_and_space_on_folder_selects_subtree() {
    let mut p = Picker::new(sample()).unwrap();
    let (visible, _) = p.begin_frame(10);
    p.handle_key(&visible, KeyPress::Down); // root.txt
    p.handle_key(&visible, KeyPress::Right);
    assert_eq!(p.expanded, vec![false; 5]);
    p.handle_key(&visible, KeyPress::Up);
    p.handle_key(&visible, KeyPress::Space);
    assert_eq!(p.checked, vec![true, true, true, true, false]);
    assert_eq!(p.selected_paths(), vec!["src", "src/a.rs", "src/sub", "src/sub/b.rs"]);
}

#[test]
fn collapsing_pulls_the_cursor_back_onto_the_shown_rows() {
    let mut p = Picker::new(sample()).unwrap();
    p.expanded = vec![true, false, true, false, false];
    let (visible, _) = p.begin_frame(10);
    assert_eq!(visible, vec![0, 1, 2, 3, 4]);
    p.handle_key(&visible, KeyPress::Left);
    p.handle_key(&visible, KeyPress::Down);
    assert_eq!(p.cursor, 4);
    p.expanded = vec![false; 5];
    let (visible, _) = p.begin_frame(10);
    assert_eq!(visible, vec![0, 4]);
    assert_eq!(p.cursor, 1);
}

#[test]
fn frame_lines_show_rows_and_footer() {
    let mut p = Picker::new(sample()).unwrap();
    let (visible, viewport) = p.begin_frame(10);
    let lines = p.frame_lines(&visible, viewport, 200);
    assert_eq!(
        lines,
        vec![
            "Select files/folders",
            "❯ [ ] ▸ src/",
            "  [ ]   root.txt",
            "   1/2 shown · 0 selected · → open · ← +10 · space select · enter ok · esc cancel",
        ]
    );
}

#[test]
fn frame_lines_mark_scrolling_jump_and_open_folders() {
    let mut p = Picker::new(sample()).unwrap();
    p.expanded = vec![true, false, true, false, false];
    p.checked = vec![false, false, true, true, false];
    let (visible, _) = p.begin_frame(10);
    p.handle_key(&visible, KeyPress::Left);
    p.handle_key(&visible, KeyPress::Down); // cursor to the last row
    let (visible, viewport) = p.begin_frame(4); // two rows of window
    assert_eq!(viewport, 2);
    assert_eq!(p.scroll, 3);
    p.handle_key(&visible, KeyPress::Left);
    let lines = p.frame_lines(&visible, viewport, 200);
    assert_eq!(
        lines,
        vec![
            "Select files/folders",
            "  [x]       b.rs",
            "❯ [ ]   root.txt",
            "↑  5/5 shown · 2 selected · jump 10 · → open · ← +10 · space select · enter ok · esc cancel",
        ]
    );
    let _ = p.frame_lines(&visible, viewport, 200);
    let opened = p.frame_lines(&visible, 2, 200);
    assert_eq!(opened.len(), 4);
}

#[test]
fn frame_lines_cut_long_rows_to_the_width() {
    let mut p = Picker::new(sample()).unwrap();
    let (visible, viewport) = p.begin_frame(10);
    let lines = p.frame_lines(&visible, viewport, 6);
    assert_eq!(lines[1], "❯ [ ]…");
    assert_eq!(lines[3], "   1/2");
}

#[test]
fn rendered_lines_carry_the_plain_text() {
    let mut p = Picker::new(sample()).unwrap();
    let (visible, viewport) = p.begin_frame(10);
    let plain = p.frame_lines(&visible, viewport, 200);
    let styled = p.render(&visible, viewport, 200);
    assert_eq!(styled.len(), plain.len());
    for (s, t) in styled.iter().zip(plain.iter()) {
        assert!(s.contains(t.as_str()));
    }
    assert_eq!(styled[2], plain[2]);
}

#[test]
fn frame_lines_draw_any_in_bounds_window() {
    // All five rows listed as visible although nothing is open; the frame is
    // drawn from the indices it is given.
    let mut p = Picker::new(sample()).unwrap();
    p.cursor = 1;
    p.scroll = 1;
    let visible = vec![0, 1, 2, 3, 4];
    let lines = p.frame_lines(&visible, 2, 200);
    assert_eq!(
        lines,
        vec![
            "Select files/folders",
            "❯ [ ]     a.rs",
            "  [ ]   ▸ sub/",
            "↑↓ 2/5 shown · 0 selected · → open · ← +10 · space select · enter ok · esc cancel",
        ]
    );
    assert_eq!(p.render(&visible, 2, 200).len(), 4);
}

#[test]
fn rendered_lines_are_plain_or_wrapped_in_their_codes() {
    let mut p = Picker::new(sample()).unwrap();
    p.expanded = vec![true, false, false, false, false];
    let (visible, viewport) = p.begin_frame(10);
    let plain = p.frame_lines(&visible, viewport, 200);
    let n = plain.len();
    let wrapped = |codes: &str, t: &str| format!("{}{}\x1b[0m", codes, t);
    let off = p.render_styled(&visible, viewport, 200, false);
    assert_eq!(off, plain);
    let on = p.render_styled(&visible, viewport, 200, true);
    assert_eq!(on[0], wrapped("\x1b[1m", &plain[0]));
    assert_eq!(on[1], wrapped("\x1b[36m\x1b[1m", &plain[1]));
    for u in 2..n - 1 {
        assert_eq!(on[u], plain[u]);
    }
    assert_eq!(on[n - 1], wrapped("\x1b[2m", &plain[n - 1]));
    let either = p.render(&visible, viewport, 200);
    assert!(either == off || either == on);
}

#[test]
fn an_empty_window_draws_at_zero_columns() {
    let mut p = Picker::new(sample()).unwrap();
    let (visible, _) = p.begin_frame(10);
    let lines = p.frame_lines(&visible, 0, 0);
    assert_eq!(lines, vec!["Select files/folders", ""]);
    assert_eq!(p.render_styled(&visible, 0, 0, false), lines);
}
