use vstd::prelude::*;

use crate::process::FileInput;
use crate::strutil::{
    spec_ends_with_ci, spec_tail_after_last, spec_trim, str_ends_with_ci, str_eq,
    str_tail_after_last, str_trim,
};

verus! {

/// The switch of markdown assembly.
pub struct MarkdownOptions {
    pub include_path_headers: bool,
}

impl Default for MarkdownOptions {
    /// Path headers are included.
    fn default() -> (r: Self)
        ensures
            r.include_path_headers == true,
    {
        MarkdownOptions { include_path_headers: true }
    }
}

/// The fenced-code-block language tag a path gets: decided by the text
/// after the last dot (the whole path when there is none), with one
/// case-insensitive fallback for makefiles.
pub open spec fn spec_detect_language(p: Seq<char>) -> Seq<char> {
    let e = spec_tail_after_last(p, '.');
    if e == "js"@ || e == "mjs"@ || e == "cjs"@ {
        "javascript"@
    } else if e == "ts"@ || e == "mts"@ || e == "cts"@ {
        "typescript"@
    } else if e == "tsx"@ {
        "tsx"@
    } else if e == "jsx"@ {
        "jsx"@
    } else if e == "py"@ {
        "python"@
    } else if e == "rs"@ {
        "rust"@
    } else if e == "go"@ {
        "go"@
    } else if e == "java"@ {
        "java"@
    } else if e == "c"@ || e == "h"@ {
        "c"@
    } else if e == "cpp"@ || e == "cxx"@ || e == "cc"@ || e == "hpp"@ || e == "hxx"@ {
        "cpp"@
    } else if e == "cs"@ {
        "csharp"@
    } else if e == "php"@ {
        "php"@
    } else if e == "rb"@ {
        "ruby"@
    } else if e == "swift"@ {
        "swift"@
    } else if e == "kt"@ || e == "kts"@ {
        "kotlin"@
    } else if e == "html"@ || e == "htm"@ {
        "html"@
    } else if e == "css"@ {
        "css"@
    } else if e == "scss"@ {
        "scss"@
    } else if e == "json"@ {
        "json"@
    } else if e == "xml"@ {
        "xml"@
    } else if e == "yaml"@ || e == "yml"@ {
        "yaml"@
    } else if e == "toml"@ {
        "toml"@
    } else if e == "sh"@ || e == "bash"@ || e == "zsh"@ {
        "bash"@
    } else if e == "sql"@ {
        "sql"@
    } else if e == "md"@ || e == "mdx"@ {
        "markdown"@
    } else if e == "dockerfile"@ {
        "dockerfile"@
    } else if spec_ends_with_ci(p, "makefile"@) {
        "makefile"@
    } else {
        ""@
    }
}

/// Runtime value of [`spec_detect_language`].
pub fn detect_language(path: &str) -> (r: &'static str)
    ensures
        r@ == spec_detect_language(path@),
{
    let e = str_tail_after_last(path, '.');
    if str_eq(e, "js") || str_eq(e, "mjs") || str_eq(e, "cjs") {
        "javascript"
    } else if str_eq(e, "ts") || str_eq(e, "mts") || str_eq(e, "cts") {
        "typescript"
    } else if str_eq(e, "tsx") {
        "tsx"
    } else if str_eq(e, "jsx") {
        "jsx"
    } else if str_eq(e, "py") {
        "python"
    } else if str_eq(e, "rs") {
        "rust"
    } else if str_eq(e, "go") {
        "go"
    } else if str_eq(e, "java") {
        "java"
    } else if str_eq(e, "c") || str_eq(e, "h") {
        "c"
    } else if str_eq(e, "cpp") || str_eq(e, "cxx") || str_eq(e, "cc") || str_eq(e, "hpp")
        || str_eq(e, "hxx") {
        "cpp"
    } else if str_eq(e, "cs") {
        "csharp"
    } else if str_eq(e, "php") {
        "php"
    } else if str_eq(e, "rb") {
        "ruby"
    } else if str_eq(e, "swift") {
        "swift"
    } else if str_eq(e, "kt") || str_eq(e, "kts") {
        "kotlin"
    } else if str_eq(e, "html") || str_eq(e, "htm") {
        "html"
    } else if str_eq(e, "css") {
        "css"
    } else if str_eq(e, "scss") {
        "scss"
    } else if str_eq(e, "json") {
        "json"
    } else if str_eq(e, "xml") {
        "xml"
    } else if str_eq(e, "yaml") || str_eq(e, "yml") {
        "yaml"
    } else if str_eq(e, "toml") {
        "toml"
    } else if str_eq(e, "sh") || str_eq(e, "bash") || str_eq(e, "zsh") {
        "bash"
    } else if str_eq(e, "sql") {
        "sql"
    } else if str_eq(e, "md") || str_eq(e, "mdx") {
        "markdown"
    } else if str_eq(e, "dockerfile") {
        "dockerfile"
    } else if str_ends_with_ci(path, "makefile") {
        "makefile"
    } else {
        ""
    }
}

// ---------- the merged document ----------

/// One file's fenced block: an optional path header, the language-tagged
/// fence, the trimmed content, and the closing fence.
pub open spec fn spec_block(f: FileInput, headers: bool) -> Seq<char> {
    (if headers {
        "#### File: `"@ + f.path@ + "`\n"@
    } else {
        Seq::empty()
    }) + "```"@ + spec_detect_language(f.path@) + "\n"@ + spec_trim(f.content@) + "\n```\n\n"@
}

pub open spec fn spec_blocks(files: Seq<FileInput>, headers: bool) -> Seq<char>
    decreases files.len(),
{
    if files.len() == 0 {
        Seq::empty()
    } else {
        spec_blocks(files.drop_last(), headers) + spec_block(files.last(), headers)
    }
}

/// The whole document: every block in input order, trimmed; no files
/// give an empty document.
pub open spec fn spec_merge(files: Seq<FileInput>, headers: bool) -> Seq<char> {
    if files.len() == 0 {
        Seq::empty()
    } else {
        spec_trim(spec_blocks(files, headers))
    }
}

/// Assemble the paste-ready document: one fenced code block per file,
/// with a language tag inferred from the extension and an optional path
/// header.
pub fn merge_files_to_markdown(files: &Vec<FileInput>, options: &MarkdownOptions) -> (r: String)
    ensures
        r@ == spec_merge(files@, options.include_path_headers),
{
    let headers = options.include_path_headers;
    if files.len() == 0 {
        let r = String::new();
        proof {
            assert(r@ =~= spec_merge(files@, headers));
        }
        return r;
    }
    let mut out = String::new();
    let mut i: usize = 0;
    proof {
        assert(files@.take(0) =~= Seq::<FileInput>::empty());
        assert(out@ =~= spec_blocks(files@.take(0), headers));
    }
    while i < files.len()
        invariant
            headers == options.include_path_headers,
            i <= files@.len(),
            out@ == spec_blocks(files@.take(i as int), headers),
        decreases files@.len() - i,
    {
        proof {
            assert(files@.take(i + 1).drop_last() =~= files@.take(i as int));
            assert(files@.take(i + 1).last() == files@[i as int]);
        }
        let ghost before = out@;
        if headers {
            out.append("#### File: `");
            out.append(files[i].path.as_str());
            out.append("`\n");
        }
        out.append("```");
        out.append(detect_language(files[i].path.as_str()));
        out.append("\n");
        out.append(str_trim(files[i].content.as_str()));
        out.append("\n```\n\n");
        proof {
            assert(out@ =~= before + spec_block(files@[i as int], headers));
        }
        i = i + 1;
    }
    proof {
        assert(files@.take(files@.len() as int) =~= files@);
    }
    let r = str_trim(out.as_str()).to_owned();
    r
}

} // verus!
