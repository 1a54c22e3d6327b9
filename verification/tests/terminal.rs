use bmo::tree::{clamp_scroll, move_down, move_up, parent_indices, subtree_end, toggle, visible_indices, Entry};

fn e(path: &str, depth: usize, is_dir: bool) -> Entry {
    Entry { path: String::from(path), depth, is_dir }
}

// Tree used below:
//   src/        (0)
//     a.rs      (1)
//     sub/      (1)
//       b.rs    (2)
//   root.txt    (0)
fn sample() -> Vec<Entry> {
    vec![
        e("src", 0, true),
        e("src/a.rs", 1, false),
        e("src/sub", 1, true),
        e("src/sub/b.rs", 2, false),
        e("root.txt", 0, false),
    ]
}

#[test]
fn toggling_a_folder_cascades_to_all_descendants() {
    let entries = sample();
    let mut checked = vec![false; entries.len()];

    toggle(&entries, &mut checked, 0); // toggle src/
    assert_eq!(checked, vec![true, true, true, true, false]);

    toggle(&entries, &mut checked, 0); // toggle src/ again -> clears subtree
    assert_eq!(checked, vec![false, false, false, false, false]);
}

#[test]
fn toggling_a_file_leaves_its_parent_folder_alone() {
    let entries = sample();
    let mut checked = vec![true; entries.len()]; // everything on
    toggle(&entries, &mut checked, 1); // deselect src/a.rs
    // a.rs is off, but src/ (0) and the rest stay on
    assert_eq!(checked, vec![true, false, true, true, true]);
}

#[test]
fn parent_indices_point_to_enclosing_folder() {
    let entries = sample();
    // src(0)->None, a.rs(1)->src(0), sub(2)->src(0), b.rs(3)->sub(2), root.txt(4)->None
    assert_eq!(parent_indices(&entries), vec![None, Some(0), Some(0), Some(2), None]);
}

#[test]
fn nothing_open_shows_only_top_level() {
    let entries = sample();
    let parents = parent_indices(&entries);
    let expanded = vec![false; entries.len()];
    // Only the depth-0 rows: src (0) and root.txt (4).
    assert_eq!(visible_indices(&entries, &parents, &expanded), vec![0, 4]);
}

#[test]
fn opening_a_folder_reveals_only_its_direct_children() {
    let entries = sample();
    let parents = parent_indices(&entries);
    let mut expanded = vec![false; entries.len()];
    expanded[0] = true; // open src/
    // src's direct children show (a.rs, sub) but sub's child b.rs stays hidden.
    assert_eq!(visible_indices(&entries, &parents, &expanded), vec![0, 1, 2, 4]);
}

#[test]
fn opening_nested_folders_reveals_deeper_rows() {
    let entries = sample();
    let parents = parent_indices(&entries);
    let mut expanded = vec![false; entries.len()];
    expanded[0] = true; // src/
    expanded[2] = true; // sub/
    assert_eq!(visible_indices(&entries, &parents, &expanded), vec![0, 1, 2, 3, 4]);
}

#[test]
fn selecting_a_folder_does_not_open_it() {
    // Selection (checked) must not affect visibility; only expansion does.
    let entries = sample();
    let parents = parent_indices(&entries);
    let mut checked = vec![false; entries.len()];
    toggle(&entries, &mut checked, 0); // select src/ and its subtree
    let expanded = vec![false; entries.len()]; // nothing opened
    assert_eq!(visible_indices(&entries, &parents, &expanded), vec![0, 4]);
}

#[test]
fn jump_moves_by_step_and_clamps() {
    assert_eq!(move_down(0, 20, 100), 20);
    assert_eq!(move_up(20, 20), 0);
    assert_eq!(move_down(95, 20, 100), 99); // clamps at the last row
    assert_eq!(move_up(5, 20), 0); // clamps at the top
    assert_eq!(move_down(0, 1, 100), 1); // ordinary single step
}

#[test]
fn subtree_end_of_a_leaf_is_the_next_row() {
    let entries = sample();
    assert_eq!(subtree_end(&entries, 1), 2); // a.rs has no descendants
    assert_eq!(subtree_end(&entries, 0), 4); // src/ covers rows 0..4
}

// viewport of 5 rows over a 20-item list unless noted.
#[test]
fn scroll_keeps_cursor_in_view() {
    // Near the top: no scrolling needed.
    assert_eq!(clamp_scroll(0, 0, 5, 20), 0);
    assert_eq!(clamp_scroll(4, 0, 5, 20), 0);
    // Stepping past the bottom edge scrolls down by one.
    assert_eq!(clamp_scroll(5, 0, 5, 20), 1);
    // Jumping to the last item pins the window to the end.
    assert_eq!(clamp_scroll(19, 1, 5, 20), 15); // max_scroll = 20 - 5
    // Wrapping back to the top scrolls all the way up.
    assert_eq!(clamp_scroll(0, 15, 5, 20), 0);
    // Moving up within the window above the fold.
    assert_eq!(clamp_scroll(14, 15, 5, 20), 14);
}

#[test]
fn scroll_stays_zero_when_list_fits() {
    // viewport bigger than the list: never scrolls.
    assert_eq!(clamp_scroll(0, 0, 10, 3), 0);
    assert_eq!(clamp_scroll(2, 0, 10, 3), 0);
}

#[test]
fn each_parent_folder_contains_its_rows() {
    let entries = sample();
    let parents = parent_indices(&entries);
    for (i, p) in parents.iter().enumerate() {
        if let Some(p) = p {
            assert!(*p < i && i < subtree_end(&entries, *p));
        }
    }
}

#[test]
fn scroll_back_to_cursor_needs_no_window_arithmetic() {
    // The cursor above the window only moves the window up; the window's end
    // is never computed, so a far-off scroll offset is fine.
    assert_eq!(clamp_scroll(0, usize::MAX, 5, 20), 0);
    assert_eq!(clamp_scroll(3, usize::MAX - 1, usize::MAX, 20), 0);
}

#[test]
fn opening_more_folders_keeps_shown_rows() {
    let entries = sample();
    let parents = parent_indices(&entries);
    let fewer = visible_indices(&entries, &parents, &[true, false, false, false, false]);
    let more = visible_indices(&entries, &parents, &[true, false, true, false, false]);
    assert!(fewer.iter().all(|i| more.contains(i)));
    assert_eq!(fewer, vec![0, 1, 2, 4]);
    assert_eq!(more, vec![0, 1, 2, 3, 4]);
}
