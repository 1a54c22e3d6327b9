//! Which clipboard programs to try, and in what order: the caller runs each
//! one and reports whether it took the text; the first that does ends the search.

use vstd::prelude::*;
use vstd::string::*;

verus! {

/// The platform the program was built for.
pub enum Platform {
    MacOs,
    Windows,
    /// Anything else (Linux and the other Unix-likes).
    Other,
}

/// A program that reads text on its standard input into the clipboard.
pub struct ClipboardCommand {
    pub program: String,
    pub args: Vec<String>,
}

/// A clipboard command as plain values: the program and its arguments.
pub open spec fn command_view(c: ClipboardCommand) -> (Seq<char>, Seq<Seq<char>>) {
    (c.program@, c.args@.map_values(|a: String| a@))
}

/// The clipboard programs of each platform, in the order they are tried.
pub open spec fn clipboard_programs(p: Platform) -> Seq<(Seq<char>, Seq<Seq<char>>)> {
    match p {
        Platform::MacOs => seq![("pbcopy"@, Seq::empty())],
        Platform::Windows => seq![("clip"@, Seq::empty())],
        Platform::Other => seq![
            ("wl-copy"@, Seq::empty()),
            ("xclip"@, seq!["-selection"@, "clipboard"@]),
            ("xsel"@, seq!["--clipboard"@, "--input"@]),
        ],
    }
}

fn command(program: &str, args: &[&str]) -> (c: ClipboardCommand)
    ensures
        c.program@ == program@,
        c.args@.len() == args@.len(),
        forall|i: int| 0 <= i < args@.len() ==> #[trigger] c.args@[i]@ == args@[i]@,
{
    let mut list: Vec<String> = Vec::new();
    let mut i: usize = 0;
    while i < args.len()
        invariant
            i <= args@.len(),
            list@.len() == i,
            forall|k: int| 0 <= k < i ==> #[trigger] list@[k]@ == args@[k]@,
        decreases args@.len() - i,
    {
        list.push(String::from_str(args[i]));
        i += 1;
    }
    ClipboardCommand { program: String::from_str(program), args: list }
}

/// The clipboard programs to try on `platform`, in order.
pub fn clipboard_commands(platform: Platform) -> (cmds: Vec<ClipboardCommand>)
    ensures
        cmds@.map_values(|c: ClipboardCommand| command_view(c)) == clipboard_programs(platform),
{
    let mut cmds: Vec<ClipboardCommand> = Vec::new();
    match platform {
        Platform::MacOs => {
            cmds.push(command("pbcopy", &[]));
        },
        Platform::Windows => {
            cmds.push(command("clip", &[]));
        },
        Platform::Other => {
            cmds.push(command("wl-copy", &[]));
            cmds.push(command("xclip", &["-selection", "clipboard"]));
            cmds.push(command("xsel", &["--clipboard", "--input"]));
        },
    }
    proof {
        let v = cmds@.map_values(|c: ClipboardCommand| command_view(c));
        let want = clipboard_programs(platform);
        assert(v.len() == want.len());
        assert forall|k: int| 0 <= k < v.len() implies v[k] == want[k] by {
            assert(v[k] == command_view(cmds@[k]));
            assert(cmds@[k].args@.map_values(|a: String| a@) =~= want[k].1);
        }
        assert(v =~= want);
    }
    cmds
}

/// What to do next while copying to the clipboard.
pub enum NextStep {
    /// Run the command at this index.
    Try(usize),
    /// A command took the text.
    Copied,
    /// Every command was tried and none took the text.
    NoneWorked,
}

/// The first step: the first command, or none when there are no commands.
pub fn first_step(count: usize) -> (next: NextStep)
    ensures
        count > 0 ==> next == NextStep::Try(0),
        count == 0 ==> next is NoneWorked,
{
    if count > 0 {
        NextStep::Try(0)
    } else {
        NextStep::NoneWorked
    }
}

/// The step after command `index` of `count` was run: done when it took the
/// text (it started, read all of the text and exited successfully), else the
/// next command, or the end of the search after the last one.
pub fn after_attempt(index: usize, count: usize, took_text: bool) -> (next: NextStep)
    requires
        index < count,
    ensures
        took_text ==> next is Copied,
        !took_text && index + 1 < count ==> next == NextStep::Try((index + 1) as usize),
        !took_text && index + 1 == count ==> next is NoneWorked,
{
    if took_text {
        NextStep::Copied
    } else if index + 1 < count {
        NextStep::Try(index + 1)
    } else {
        NextStep::NoneWorked
    }
}

} // verus!
