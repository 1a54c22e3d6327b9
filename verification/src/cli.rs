//! The command line and the output-format choice.

use vstd::prelude::*;
use crate::text::same_text;
use vstd::string::*;

verus! {

/// Which command-line shortcut the user invoked.
pub enum Flag {
    /// No flag: pick files interactively.
    NoFlag,
    /// `-last`: reuse the previous selection.
    Last,
    /// `-help`: print usage and exit.
    Help,
    /// An unrecognized option.
    Unknown(String),
}

/// The spellings of the `-last` shortcut.
pub open spec fn is_last_flag(a: Seq<char>) -> bool {
    a == "-last"@ || a == "--last"@
}

/// The spellings of the `-help` shortcut.
pub open spec fn is_help_flag(a: Seq<char>) -> bool {
    a == "-help"@ || a == "--help"@ || a == "-h"@ || a == "help"@
}

/// The spellings of the shortcuts: `-last` and `--last` reuse the previous
/// selection; `-help`, `--help`, `-h` and `help` print usage; none of these is
/// both.
pub proof fn lemma_flag_spellings()
    ensures
        is_last_flag("-last"@),
        is_last_flag("--last"@),
        is_help_flag("-help"@),
        is_help_flag("--help"@),
        is_help_flag("-h"@),
        is_help_flag("help"@),
        forall|a: Seq<char>| is_last_flag(a) ==> !#[trigger] is_help_flag(a),
{
    reveal_strlit("-last");
    reveal_strlit("--last");
    reveal_strlit("-help");
    reveal_strlit("--help");
    reveal_strlit("-h");
    reveal_strlit("help");
    assert("-last"@[1] == 'l' && "-help"@[1] == 'h' && "-h"@[1] == 'h' && "help"@[0] == 'h' && "-last"@[0] == '-');
    assert("--last"@[2] == 'l' && "--help"@[2] == 'h' && "--last"@.len() == 6 && "--help"@.len() == 6);
    assert("-last"@.len() == 5 && "-help"@.len() == 5 && "-h"@.len() == 2 && "help"@.len() == 4);
}

/// Decide which shortcut (if any) was passed. Only the first argument matters.
pub fn parse_flag(args: &[String]) -> (flag: Flag)
    ensures
        args@.len() == 0 ==> flag is NoFlag,
        args@.len() > 0 ==> {
            let a = args@[0]@;
            if is_last_flag(a) {
                flag is Last
            } else if is_help_flag(a) {
                flag is Help
            } else {
                flag matches Flag::Unknown(s) && s@ == a
            }
        },
{
    if args.len() == 0 {
        return Flag::NoFlag;
    }
    let a = args[0].as_str();
    if same_text(a, "-last") || same_text(a, "--last") {
        Flag::Last
    } else if same_text(a, "-help") || same_text(a, "--help") || same_text(a, "-h") || same_text(a, "help") {
        Flag::Help
    } else {
        Flag::Unknown(a.to_owned())
    }
}

/// What the user wants the tool to print.
pub enum Mode {
    Structure,
    Contents,
    Both,
}

/// The output kind for the entry chosen in the format menu, whose entries are,
/// in order: names with contents, structure, both.
pub fn mode_for_choice(index: usize) -> (mode: Mode)
    ensures
        index == 0 ==> mode is Contents,
        index == 1 ==> mode is Structure,
        index >= 2 ==> mode is Both,
{
    match index {
        0 => Mode::Contents,
        1 => Mode::Structure,
        _ => Mode::Both,
    }
}

/// The output for both views: the structure in a code fence under one heading,
/// then the file contents under another.
pub open spec fn both_text(structure: Seq<char>, contents: Seq<char>) -> Seq<char> {
    "# File structure\n\n```\n"@ + structure + "```\n\n# Files\n\n"@ + contents
}

/// Joins the structure view and the contents view into one document.
pub fn compose_both(structure: &str, contents: &str) -> (out: String)
    ensures
        out@ == both_text(structure@, contents@),
{
    let mut s = String::from_str("# File structure\n\n```\n");
    s.append(structure);
    s.append("```\n\n# Files\n\n");
    s.append(contents);
    s
}

} // verus!
