//! Which Markdown code-fence language hint goes with a file.

use vstd::prelude::*;
use vstd::string::*;
use crate::path::{components_of, extension, extension_of, file_name, file_name_of};
use crate::text::same_text;

verus! {

/// The code-fence language hint for a file extension; empty when unknown.
pub open spec fn language_for_extension(ext: Seq<char>) -> Seq<char> {
    if ext == "rs"@ {
        "rust"@
    } else if ext == "py"@ {
        "python"@
    } else if ext == "js"@ {
        "javascript"@
    } else if ext == "ts"@ {
        "typescript"@
    } else if ext == "jsx"@ {
        "jsx"@
    } else if ext == "tsx"@ {
        "tsx"@
    } else if ext == "go"@ {
        "go"@
    } else if ext == "java"@ {
        "java"@
    } else if ext == "c"@ {
        "c"@
    } else if ext == "h"@ {
        "c"@
    } else if ext == "cpp"@ {
        "cpp"@
    } else if ext == "cc"@ {
        "cpp"@
    } else if ext == "cxx"@ {
        "cpp"@
    } else if ext == "hpp"@ {
        "cpp"@
    } else if ext == "rb"@ {
        "ruby"@
    } else if ext == "php"@ {
        "php"@
    } else if ext == "sh"@ {
        "bash"@
    } else if ext == "html"@ {
        "html"@
    } else if ext == "css"@ {
        "css"@
    } else if ext == "json"@ {
        "json"@
    } else if ext == "toml"@ {
        "toml"@
    } else if ext == "yaml"@ {
        "yaml"@
    } else if ext == "yml"@ {
        "yaml"@
    } else if ext == "md"@ {
        "markdown"@
    } else if ext == "sql"@ {
        "sql"@
    } else {
        ""@
    }
}

/// The language hints: each known extension with its language, and no hint
/// for an extension outside the table (such as `txt`, or none at all).
#[verifier::rlimit(50)]
pub proof fn lemma_language_table()
    ensures
        language_for_extension("rs"@) == "rust"@,
        language_for_extension("py"@) == "python"@,
        language_for_extension("js"@) == "javascript"@,
        language_for_extension("ts"@) == "typescript"@,
        language_for_extension("jsx"@) == "jsx"@,
        language_for_extension("tsx"@) == "tsx"@,
        language_for_extension("go"@) == "go"@,
        language_for_extension("java"@) == "java"@,
        language_for_extension("c"@) == "c"@,
        language_for_extension("h"@) == "c"@,
        language_for_extension("cpp"@) == "cpp"@,
        language_for_extension("cc"@) == "cpp"@,
        language_for_extension("cxx"@) == "cpp"@,
        language_for_extension("hpp"@) == "cpp"@,
        language_for_extension("rb"@) == "ruby"@,
        language_for_extension("php"@) == "php"@,
        language_for_extension("sh"@) == "bash"@,
        language_for_extension("html"@) == "html"@,
        language_for_extension("css"@) == "css"@,
        language_for_extension("json"@) == "json"@,
        language_for_extension("toml"@) == "toml"@,
        language_for_extension("yaml"@) == "yaml"@,
        language_for_extension("yml"@) == "yaml"@,
        language_for_extension("md"@) == "markdown"@,
        language_for_extension("sql"@) == "sql"@,
        language_for_extension("txt"@) == ""@,
        language_for_extension(""@) == ""@,
{
    // spell out each extension, so that any two of them differ in length or
    // in some character
    reveal_strlit("rs");
    assert("rs"@.len() == 2 && "rs"@[0] == 'r' && "rs"@[1] == 's');
    reveal_strlit("py");
    assert("py"@.len() == 2 && "py"@[0] == 'p' && "py"@[1] == 'y');
    reveal_strlit("js");
    assert("js"@.len() == 2 && "js"@[0] == 'j' && "js"@[1] == 's');
    reveal_strlit("ts");
    assert("ts"@.len() == 2 && "ts"@[0] == 't' && "ts"@[1] == 's');
    reveal_strlit("jsx");
    assert("jsx"@.len() == 3 && "jsx"@[0] == 'j' && "jsx"@[1] == 's' && "jsx"@[2] == 'x');
    reveal_strlit("tsx");
    assert("tsx"@.len() == 3 && "tsx"@[0] == 't' && "tsx"@[1] == 's' && "tsx"@[2] == 'x');
    reveal_strlit("go");
    assert("go"@.len() == 2 && "go"@[0] == 'g' && "go"@[1] == 'o');
    reveal_strlit("java");
    assert("java"@.len() == 4 && "java"@[0] == 'j' && "java"@[1] == 'a' && "java"@[2] == 'v' && "java"@[3] == 'a');
    reveal_strlit("c");
    assert("c"@.len() == 1 && "c"@[0] == 'c');
    reveal_strlit("h");
    assert("h"@.len() == 1 && "h"@[0] == 'h');
    reveal_strlit("cpp");
    assert("cpp"@.len() == 3 && "cpp"@[0] == 'c' && "cpp"@[1] == 'p' && "cpp"@[2] == 'p');
    reveal_strlit("cc");
    assert("cc"@.len() == 2 && "cc"@[0] == 'c' && "cc"@[1] == 'c');
    reveal_strlit("cxx");
    assert("cxx"@.len() == 3 && "cxx"@[0] == 'c' && "cxx"@[1] == 'x' && "cxx"@[2] == 'x');
    reveal_strlit("hpp");
    assert("hpp"@.len() == 3 && "hpp"@[0] == 'h' && "hpp"@[1] == 'p' && "hpp"@[2] == 'p');
    reveal_strlit("rb");
    assert("rb"@.len() == 2 && "rb"@[0] == 'r' && "rb"@[1] == 'b');
    reveal_strlit("php");
    assert("php"@.len() == 3 && "php"@[0] == 'p' && "php"@[1] == 'h' && "php"@[2] == 'p');
    reveal_strlit("sh");
    assert("sh"@.len() == 2 && "sh"@[0] == 's' && "sh"@[1] == 'h');
    reveal_strlit("html");
    assert("html"@.len() == 4 && "html"@[0] == 'h' && "html"@[1] == 't' && "html"@[2] == 'm' && "html"@[3] == 'l');
    reveal_strlit("css");
    assert("css"@.len() == 3 && "css"@[0] == 'c' && "css"@[1] == 's' && "css"@[2] == 's');
    reveal_strlit("json");
    assert("json"@.len() == 4 && "json"@[0] == 'j' && "json"@[1] == 's' && "json"@[2] == 'o' && "json"@[3] == 'n');
    reveal_strlit("toml");
    assert("toml"@.len() == 4 && "toml"@[0] == 't' && "toml"@[1] == 'o' && "toml"@[2] == 'm' && "toml"@[3] == 'l');
    reveal_strlit("yaml");
    assert("yaml"@.len() == 4 && "yaml"@[0] == 'y' && "yaml"@[1] == 'a' && "yaml"@[2] == 'm' && "yaml"@[3] == 'l');
    reveal_strlit("yml");
    assert("yml"@.len() == 3 && "yml"@[0] == 'y' && "yml"@[1] == 'm' && "yml"@[2] == 'l');
    reveal_strlit("md");
    assert("md"@.len() == 2 && "md"@[0] == 'm' && "md"@[1] == 'd');
    reveal_strlit("sql");
    assert("sql"@.len() == 3 && "sql"@[0] == 's' && "sql"@[1] == 'q' && "sql"@[2] == 'l');
    reveal_strlit("txt");
    assert("txt"@.len() == 3 && "txt"@[0] == 't' && "txt"@[1] == 'x' && "txt"@[2] == 't');
    reveal_strlit("");
    assert(""@.len() == 0);
}

/// The code-fence language hint of a path: that of its file name's extension,
/// or empty when it has none.
pub open spec fn language_for_path(path: Seq<char>) -> Seq<char> {
    match file_name_of(components_of(path)) {
        Some(name) => match extension_of(name) {
            Some(ext) => language_for_extension(ext),
            None => ""@,
        },
        None => ""@,
    }
}

fn language_for_extension_exec(ext: &str) -> (lang: &'static str)
    ensures
        lang@ == language_for_extension(ext@),
{
    if same_text(ext, "rs") {
        "rust"
    } else if same_text(ext, "py") {
        "python"
    } else if same_text(ext, "js") {
        "javascript"
    } else if same_text(ext, "ts") {
        "typescript"
    } else if same_text(ext, "jsx") {
        "jsx"
    } else if same_text(ext, "tsx") {
        "tsx"
    } else if same_text(ext, "go") {
        "go"
    } else if same_text(ext, "java") {
        "java"
    } else if same_text(ext, "c") {
        "c"
    } else if same_text(ext, "h") {
        "c"
    } else if same_text(ext, "cpp") {
        "cpp"
    } else if same_text(ext, "cc") {
        "cpp"
    } else if same_text(ext, "cxx") {
        "cpp"
    } else if same_text(ext, "hpp") {
        "cpp"
    } else if same_text(ext, "rb") {
        "ruby"
    } else if same_text(ext, "php") {
        "php"
    } else if same_text(ext, "sh") {
        "bash"
    } else if same_text(ext, "html") {
        "html"
    } else if same_text(ext, "css") {
        "css"
    } else if same_text(ext, "json") {
        "json"
    } else if same_text(ext, "toml") {
        "toml"
    } else if same_text(ext, "yaml") {
        "yaml"
    } else if same_text(ext, "yml") {
        "yaml"
    } else if same_text(ext, "md") {
        "markdown"
    } else if same_text(ext, "sql") {
        "sql"
    } else {
        ""
    }
}

/// Map a file extension to a Markdown code-fence language hint.
pub fn lang_for(path: &str) -> (lang: &'static str)
    ensures
        lang@ == language_for_path(path@),
{
    match file_name(path) {
        Some(name) => match extension(name.as_str()) {
            Some(ext) => language_for_extension_exec(ext.as_str()),
            None => "",
        },
        None => "",
    }
}

} // verus!
