use vstd::prelude::*;

use crate::paths::spec_file_name;
use crate::paths::extract_file_name;
use crate::strutil::{spec_ci_eq_seq, spec_has_char, spec_tail_after_last};
use crate::strutil::{str_eq_ci, str_has_char, str_tail_after_last};

verus! {

/// File extensions taken to be text.
pub open spec fn spec_text_ext(e: Seq<char>) -> bool {
    ||| spec_ci_eq_seq(e, "txt"@)
    ||| spec_ci_eq_seq(e, "md"@)
    ||| spec_ci_eq_seq(e, "markdown"@)
    ||| spec_ci_eq_seq(e, "rst"@)
    ||| spec_ci_eq_seq(e, "rs"@)
    ||| spec_ci_eq_seq(e, "js"@)
    ||| spec_ci_eq_seq(e, "mjs"@)
    ||| spec_ci_eq_seq(e, "cjs"@)
    ||| spec_ci_eq_seq(e, "ts"@)
    ||| spec_ci_eq_seq(e, "tsx"@)
    ||| spec_ci_eq_seq(e, "jsx"@)
    ||| spec_ci_eq_seq(e, "json"@)
    ||| spec_ci_eq_seq(e, "toml"@)
    ||| spec_ci_eq_seq(e, "yaml"@)
    ||| spec_ci_eq_seq(e, "yml"@)
    ||| spec_ci_eq_seq(e, "xml"@)
    ||| spec_ci_eq_seq(e, "html"@)
    ||| spec_ci_eq_seq(e, "htm"@)
    ||| spec_ci_eq_seq(e, "css"@)
    ||| spec_ci_eq_seq(e, "scss"@)
    ||| spec_ci_eq_seq(e, "py"@)
    ||| spec_ci_eq_seq(e, "rb"@)
    ||| spec_ci_eq_seq(e, "go"@)
    ||| spec_ci_eq_seq(e, "java"@)
    ||| spec_ci_eq_seq(e, "c"@)
    ||| spec_ci_eq_seq(e, "h"@)
    ||| spec_ci_eq_seq(e, "cpp"@)
    ||| spec_ci_eq_seq(e, "hpp"@)
    ||| spec_ci_eq_seq(e, "cc"@)
    ||| spec_ci_eq_seq(e, "cs"@)
    ||| spec_ci_eq_seq(e, "php"@)
    ||| spec_ci_eq_seq(e, "swift"@)
    ||| spec_ci_eq_seq(e, "kt"@)
    ||| spec_ci_eq_seq(e, "sh"@)
    ||| spec_ci_eq_seq(e, "bash"@)
    ||| spec_ci_eq_seq(e, "zsh"@)
    ||| spec_ci_eq_seq(e, "sql"@)
    ||| spec_ci_eq_seq(e, "ini"@)
    ||| spec_ci_eq_seq(e, "cfg"@)
    ||| spec_ci_eq_seq(e, "conf"@)
    ||| spec_ci_eq_seq(e, "csv"@)
    ||| spec_ci_eq_seq(e, "svg"@)
    ||| spec_ci_eq_seq(e, "lock"@)
    ||| spec_ci_eq_seq(e, "gitignore"@)
}

/// File extensions taken to be binary.
pub open spec fn spec_binary_ext(e: Seq<char>) -> bool {
    ||| spec_ci_eq_seq(e, "png"@)
    ||| spec_ci_eq_seq(e, "jpg"@)
    ||| spec_ci_eq_seq(e, "jpeg"@)
    ||| spec_ci_eq_seq(e, "gif"@)
    ||| spec_ci_eq_seq(e, "bmp"@)
    ||| spec_ci_eq_seq(e, "ico"@)
    ||| spec_ci_eq_seq(e, "webp"@)
    ||| spec_ci_eq_seq(e, "pdf"@)
    ||| spec_ci_eq_seq(e, "zip"@)
    ||| spec_ci_eq_seq(e, "tar"@)
    ||| spec_ci_eq_seq(e, "gz"@)
    ||| spec_ci_eq_seq(e, "bz2"@)
    ||| spec_ci_eq_seq(e, "xz"@)
    ||| spec_ci_eq_seq(e, "7z"@)
    ||| spec_ci_eq_seq(e, "rar"@)
    ||| spec_ci_eq_seq(e, "exe"@)
    ||| spec_ci_eq_seq(e, "dll"@)
    ||| spec_ci_eq_seq(e, "so"@)
    ||| spec_ci_eq_seq(e, "dylib"@)
    ||| spec_ci_eq_seq(e, "o"@)
    ||| spec_ci_eq_seq(e, "obj"@)
    ||| spec_ci_eq_seq(e, "class"@)
    ||| spec_ci_eq_seq(e, "jar"@)
    ||| spec_ci_eq_seq(e, "bin"@)
    ||| spec_ci_eq_seq(e, "dat"@)
    ||| spec_ci_eq_seq(e, "db"@)
    ||| spec_ci_eq_seq(e, "sqlite"@)
    ||| spec_ci_eq_seq(e, "mp3"@)
    ||| spec_ci_eq_seq(e, "mp4"@)
    ||| spec_ci_eq_seq(e, "avi"@)
    ||| spec_ci_eq_seq(e, "mov"@)
    ||| spec_ci_eq_seq(e, "wav"@)
    ||| spec_ci_eq_seq(e, "ogg"@)
    ||| spec_ci_eq_seq(e, "flac"@)
    ||| spec_ci_eq_seq(e, "woff"@)
    ||| spec_ci_eq_seq(e, "woff2"@)
    ||| spec_ci_eq_seq(e, "ttf"@)
    ||| spec_ci_eq_seq(e, "otf"@)
    ||| spec_ci_eq_seq(e, "eot"@)
    ||| spec_ci_eq_seq(e, "wasm"@)
    ||| spec_ci_eq_seq(e, "pyc"@)
}

/// Extensionless names that are nonetheless well-known text files.
pub open spec fn spec_special_name(n: Seq<char>) -> bool {
    ||| spec_ci_eq_seq(n, "license"@)
    ||| spec_ci_eq_seq(n, "readme"@)
    ||| spec_ci_eq_seq(n, "makefile"@)
    ||| spec_ci_eq_seq(n, "dockerfile"@)
}

/// The path-based text heuristic: well-known text names and extensions are
/// text, well-known binary extensions are binary, anything unknown counts
/// as text so that unrecognized sources are not dropped.
pub open spec fn spec_likely_text(p: Seq<char>) -> bool {
    let name = spec_file_name(p);
    if spec_special_name(name) {
        true
    } else if spec_has_char(name, '.') {
        let ext = spec_tail_after_last(name, '.');
        if spec_text_ext(ext) {
            true
        } else if spec_binary_ext(ext) {
            false
        } else {
            true
        }
    } else {
        true
    }
}

/// Runtime check for [`spec_likely_text`].
pub fn is_likely_text(path: &str) -> (r: bool)
    ensures
        r == spec_likely_text(path@),
{
    let name = extract_file_name(path);
    let n = name.as_str();
    if str_eq_ci(n, "license") || str_eq_ci(n, "readme") || str_eq_ci(n, "makefile") || str_eq_ci(
        n,
        "dockerfile",
    ) {
        return true;
    }
    if !str_has_char(n, '.') {
        return true;
    }
    let ext = str_tail_after_last(n, '.');
    if str_eq_ci(ext, "txt") || str_eq_ci(ext, "md") || str_eq_ci(ext, "markdown") || str_eq_ci(
        ext,
        "rst",
    ) || str_eq_ci(ext, "rs") || str_eq_ci(ext, "js") || str_eq_ci(ext, "mjs") || str_eq_ci(
        ext,
        "cjs",
    ) || str_eq_ci(ext, "ts") || str_eq_ci(ext, "tsx") || str_eq_ci(ext, "jsx") || str_eq_ci(
        ext,
        "json",
    ) || str_eq_ci(ext, "toml") || str_eq_ci(ext, "yaml") || str_eq_ci(ext, "yml") || str_eq_ci(
        ext,
        "xml",
    ) || str_eq_ci(ext, "html") || str_eq_ci(ext, "htm") || str_eq_ci(ext, "css") || str_eq_ci(
        ext,
        "scss",
    ) || str_eq_ci(ext, "py") || str_eq_ci(ext, "rb") || str_eq_ci(ext, "go") || str_eq_ci(
        ext,
        "java",
    ) || str_eq_ci(ext, "c") || str_eq_ci(ext, "h") || str_eq_ci(ext, "cpp") || str_eq_ci(
        ext,
        "hpp",
    ) || str_eq_ci(ext, "cc") || str_eq_ci(ext, "cs") || str_eq_ci(ext, "php") || str_eq_ci(
        ext,
        "swift",
    ) || str_eq_ci(ext, "kt") || str_eq_ci(ext, "sh") || str_eq_ci(ext, "bash") || str_eq_ci(
        ext,
        "zsh",
    ) || str_eq_ci(ext, "sql") || str_eq_ci(ext, "ini") || str_eq_ci(ext, "cfg") || str_eq_ci(
        ext,
        "conf",
    ) || str_eq_ci(ext, "csv") || str_eq_ci(ext, "svg") || str_eq_ci(ext, "lock") || str_eq_ci(
        ext,
        "gitignore",
    ) {
        return true;
    }
    if str_eq_ci(ext, "png") || str_eq_ci(ext, "jpg") || str_eq_ci(ext, "jpeg") || str_eq_ci(
        ext,
        "gif",
    ) || str_eq_ci(ext, "bmp") || str_eq_ci(ext, "ico") || str_eq_ci(ext, "webp") || str_eq_ci(
        ext,
        "pdf",
    ) || str_eq_ci(ext, "zip") || str_eq_ci(ext, "tar") || str_eq_ci(ext, "gz") || str_eq_ci(
        ext,
        "bz2",
    ) || str_eq_ci(ext, "xz") || str_eq_ci(ext, "7z") || str_eq_ci(ext, "rar") || str_eq_ci(
        ext,
        "exe",
    ) || str_eq_ci(ext, "dll") || str_eq_ci(ext, "so") || str_eq_ci(ext, "dylib") || str_eq_ci(
        ext,
        "o",
    ) || str_eq_ci(ext, "obj") || str_eq_ci(ext, "class") || str_eq_ci(ext, "jar") || str_eq_ci(
        ext,
        "bin",
    ) || str_eq_ci(ext, "dat") || str_eq_ci(ext, "db") || str_eq_ci(ext, "sqlite") || str_eq_ci(
        ext,
        "mp3",
    ) || str_eq_ci(ext, "mp4") || str_eq_ci(ext, "avi") || str_eq_ci(ext, "mov") || str_eq_ci(
        ext,
        "wav",
    ) || str_eq_ci(ext, "ogg") || str_eq_ci(ext, "flac") || str_eq_ci(ext, "woff") || str_eq_ci(
        ext,
        "woff2",
    ) || str_eq_ci(ext, "ttf") || str_eq_ci(ext, "otf") || str_eq_ci(ext, "eot") || str_eq_ci(
        ext,
        "wasm",
    ) || str_eq_ci(ext, "pyc") {
        return false;
    }
    true
}

// ---------- content heuristic ----------

/// A control character other than tab, newline and carriage return.
pub open spec fn is_ctrl_char(c: char) -> bool {
    let u = c as u32;
    (u < 32 && u != 9 && u != 10 && u != 13) || u == 127
}

pub open spec fn spec_ctrl_count(s: Seq<char>) -> int
    decreases s.len(),
{
    if s.len() == 0 {
        0
    } else {
        spec_ctrl_count(s.drop_last()) + if is_ctrl_char(s[s.len() - 1]) {
            1int
        } else {
            0int
        }
    }
}

proof fn lemma_ctrl_count_bounds(s: Seq<char>)
    ensures
        0 <= spec_ctrl_count(s) <= s.len(),
    decreases s.len(),
{
    if s.len() > 0 {
        lemma_ctrl_count_bounds(s.drop_last());
    }
}

/// Content is taken for binary when it holds a NUL byte or when more than
/// ten percent of its characters are control characters.
pub open spec fn spec_looks_binary(s: Seq<char>) -> bool {
    spec_has_char(s, '\0') || 10 * spec_ctrl_count(s) > s.len()
}

/// Runtime check for [`spec_looks_binary`].
pub fn looks_binary(content: &str) -> (r: bool)
    ensures
        r == spec_looks_binary(content@),
{
    let len = content.unicode_len();
    let mut count: usize = 0;
    let mut i: usize = 0;
    while i < len
        invariant
            len == content@.len(),
            i <= len,
            count == spec_ctrl_count(content@.take(i as int)),
            count <= i,
            forall|j: int| 0 <= j < i ==> content@[j] != '\0',
        decreases len - i,
    {
        let c = content.get_char(i);
        if c == '\0' {
            return true;
        }
        let u = c as u32;
        let ctrl = (u < 32 && u != 9 && u != 10 && u != 13) || u == 127;
        proof {
            assert(content@.take(i + 1).drop_last() =~= content@.take(i as int));
            assert(content@.take(i + 1)[i as int] == content@[i as int]);
        }
        if ctrl {
            count = count + 1;
        }
        i = i + 1;
    }
    proof {
        assert(content@.take(len as int) =~= content@);
    }
    let threshold = len / 10;
    let r = count > threshold;
    proof {
        assert((count > len / 10) == (10 * count > len)) by (nonlinear_arith);
    }
    r
}

} // verus!
