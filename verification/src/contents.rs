//! The contents view: each selected file's path followed by its text in a
//! Markdown code fence.

use vstd::prelude::*;
use vstd::string::*;
use crate::lang::{lang_for, language_for_path};
use crate::path::{relative_or_whole, shown_relative};

verus! {

/// A file to list, with its text when it could be read as text.
pub struct FileText {
    pub path: String,
    pub contents: Option<String>,
}

/// The text ends with a line break.
pub open spec fn ends_with_newline(t: Seq<char>) -> bool {
    t.len() > 0 && t.last() == '\n'
}

/// The listing of one file below `base`: a `// @File:` header with its relative
/// path, then its text in a code fence tagged with its language (a line break
/// added when the text lacks a final one), or a note that it is not text.
pub open spec fn file_block(base: Seq<char>, f: FileText) -> Seq<char> {
    let rel = shown_relative(f.path@, base);
    match f.contents {
        Some(c) => "// @File: "@ + rel + "\n"@ + "```"@ + language_for_path(f.path@) + "\n"@ + c@ + (if ends_with_newline(c@) {
            ""@
        } else {
            "\n"@
        }) + "```\n\n"@,
        None => "// @File: "@ + rel + " (skipped: not text)\n\n"@,
    }
}

/// A file's listing starts with `// @File: ` and the file's path below the
/// base. A text file's listing then holds the text itself, unchanged, after the
/// header line and the opening fence; the text always ends in a line break
/// before the closing fence, which ends the listing followed by a blank line.
/// A file that is not text ends its listing with a blank line.
pub proof fn lemma_file_block_shape(base: Seq<char>, f: FileText)
    ensures
        ({
            let b = file_block(base, f);
            let rel = shown_relative(f.path@, base);
            let header = "// @File: "@ + rel;
            &&& b.len() >= header.len() + 2
            &&& b.subrange(0, header.len() as int) == header
            &&& b.subrange(b.len() - 2, b.len() as int) == "\n\n"@
            &&& f.contents matches Some(c) ==> {
                let start = (header.len() + 4 + language_for_path(f.path@).len() + 1) as int;
                &&& b.len() >= start + c@.len() + 5
                &&& b.subrange(start, start + c@.len()) == c@
                &&& b.subrange(b.len() - 6, b.len() as int) == "\n```\n\n"@
            }
        }),
{
    reveal_strlit("// @File: ");
    reveal_strlit("\n");
    reveal_strlit("```");
    reveal_strlit("");
    reveal_strlit("```\n\n");
    reveal_strlit(" (skipped: not text)\n\n");
    reveal_strlit("\n\n");
    reveal_strlit("\n```\n\n");
    let b = file_block(base, f);
    let rel = shown_relative(f.path@, base);
    let header = "// @File: "@ + rel;
    match f.contents {
        Some(c) => {
            let lang = language_for_path(f.path@);
            let fix = if ends_with_newline(c@) { ""@ } else { "\n"@ };
            let front = header + "\n"@ + "```"@ + lang + "\n"@;
            assert(b == front + c@ + fix + "```\n\n"@);
            assert(b.subrange(0, header.len() as int) =~= header);
            assert(b.subrange(front.len() as int, (front.len() + c@.len()) as int) =~= c@);
            let body = c@ + fix;
            assert(body.len() > 0 && body.last() == '\n');
            assert(b == front + body + "```\n\n"@);
            assert(b.subrange(b.len() - 6, b.len() as int) =~= "\n```\n\n"@);
            assert(b.subrange(b.len() - 2, b.len() as int) =~= "\n\n"@);
        },
        None => {
            assert(b == header + " (skipped: not text)\n\n"@);
            assert(b.subrange(0, header.len() as int) =~= header);
            assert(b.subrange(b.len() - 2, b.len() as int) =~= "\n\n"@);
        },
    }
}

/// The listings of all files, one after another.
pub open spec fn contents_text(base: Seq<char>, files: Seq<FileText>) -> Seq<char>
    decreases files.len(),
{
    if files.len() == 0 {
        Seq::empty()
    } else {
        contents_text(base, files.drop_last()) + file_block(base, files.last())
    }
}

/// Whether a text ends with a line break.
pub fn ends_with_line_break(t: &str) -> (ends: bool)
    ensures
        ends == ends_with_newline(t@),
{
    let n = t.unicode_len();
    n > 0 && t.get_char(n - 1) == '\n'
}

/// Mode 2: each file's relative path followed by its contents in a code fence.
pub fn build_contents(base: &str, files: &[FileText]) -> (out: String)
    ensures
        out@ == contents_text(base@, files@),
{
    let mut out = String::new();
    let mut i: usize = 0;
    while i < files.len()
        invariant
            i <= files@.len(),
            out@ == contents_text(base@, files@.take(i as int)),
        decreases files@.len() - i,
    {
        proof {
            assert(files@.take(i + 1).drop_last() =~= files@.take(i as int));
            reveal_strlit("");
        }
        let f = &files[i];
        let ghost before = out@;
        let rel = relative_or_whole(f.path.as_str(), base);
        match &f.contents {
            Some(contents) => {
                out.append("// @File: ");
                out.append(rel.as_str());
                out.append("\n");
                out.append("```");
                out.append(lang_for(f.path.as_str()));
                out.append("\n");
                out.append(contents.as_str());
                if !ends_with_line_break(contents.as_str()) {
                    out.append("\n");
                }
                out.append("```\n\n");
            },
            None => {
                out.append("// @File: ");
                out.append(rel.as_str());
                out.append(" (skipped: not text)\n\n");
            },
        }
        assert(out@ =~= before + file_block(base@, files@[i as int]));
        i += 1;
    }
    assert(files@.take(files@.len() as int) =~= files@);
    out
}

} // verus!
