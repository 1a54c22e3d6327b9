use bmo::clipboard::{after_attempt, clipboard_commands, first_step, NextStep, Platform};

fn names(platform: Platform) -> Vec<(String, Vec<String>)> {
    clipboard_commands(platform).into_iter().map(|c| (c.program, c.args)).collect()
}

#[test]
fn clipboard_programs_per_platform() {
    assert_eq!(names(Platform::MacOs), vec![(String::from("pbcopy"), vec![])]);
    assert_eq!(names(Platform::Windows), vec![(String::from("clip"), vec![])]);
    assert_eq!(
        names(Platform::Other),
        vec![
            (String::from("wl-copy"), vec![]),
            (String::from("xclip"), vec![String::from("-selection"), String::from("clipboard")]),
            (String::from("xsel"), vec![String::from("--clipboard"), String::from("--input")]),
        ]
    );
}

#[test]
fn clipboard_tries_in_order_until_one_takes_the_text() {
    assert!(matches!(first_step(3), NextStep::Try(0)));
    assert!(matches!(first_step(0), NextStep::NoneWorked));
    assert!(matches!(after_attempt(0, 3, false), NextStep::Try(1)));
    assert!(matches!(after_attempt(1, 3, true), NextStep::Copied));
    assert!(matches!(after_attempt(2, 3, false), NextStep::NoneWorked));
}
