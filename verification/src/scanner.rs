//! Which files are indexed.
//!
//! The rules follow `rg`: hidden files, files over a size limit and binary
//! files (by extension or a null byte in the first 512 bytes) are skipped, as
//! are some directories that hold nothing to search.

use crate::text::{text_equal, texts};
use vstd::prelude::*;
use vstd::slice::slice_to_vec;
use vstd::string::StringExecFns;

verus! {

/// Default maximum indexed file size (bytes).
pub const DEFAULT_MAX_FILE_SIZE: u64 = 0x10_0000;

/// How much of a file is looked at to tell whether it is binary.
pub const SNIFF_LEN: usize = 512;

/// Tuning knobs of a scan.
pub struct ScanOptions {
    /// Files larger than this many bytes are skipped.
    pub max_file_size: u64,
    /// When `true`, symbolic links to files and directories are followed
    /// (directory cycles are detected and pruned).
    pub follow_symlinks: bool,
}

impl Default for ScanOptions {
    fn default() -> (opts: Self)
        ensures
            opts == (ScanOptions {
                max_file_size: DEFAULT_MAX_FILE_SIZE,
                follow_symlinks: false,
            }),
    {
        ScanOptions { max_file_size: DEFAULT_MAX_FILE_SIZE, follow_symlinks: false }
    }
}

/// Directories that are not searched.
pub open spec fn ignored_dirs() -> Seq<Seq<char>> {
    seq![
        "node_modules"@,
        "_build"@,
        "deps"@,
        ".elixir_ls"@,
        ".idea"@,
        ".vscode"@,
        "target"@,
        "vendor"@,
        "dist"@,
        "build"@,
        "out"@,
    ]
}

/// The override globs that leave out a directory and all in it, at the root and
/// below.
pub open spec fn dir_globs(dir: Seq<char>) -> Seq<Seq<char>> {
    seq!["!"@ + dir, "!"@ + dir + "/**"@, "!**/"@ + dir, "!**/"@ + dir + "/**"@]
}

/// The override globs for the first `k` ignored directories.
pub open spec fn ignore_globs(k: int) -> Seq<Seq<char>>
    decreases k,
{
    if k <= 0 {
        Seq::empty()
    } else {
        ignore_globs(k - 1) + dir_globs(ignored_dirs()[k - 1])
    }
}

/// One override glob.
fn glob(before: &str, dir: &str, after: &str) -> (out: String)
    ensures
        out@ == before@ + dir@ + after@,
{
    let mut out = before.to_owned();
    out.append(dir);
    out.append(after);
    out
}

/// Adds the override globs for one directory.
fn push_globs(out: &mut Vec<String>, dir: &str)
    ensures
        texts(final(out)@) == texts(old(out)@) + dir_globs(dir@),
{
    proof {
        reveal_strlit("");
    }
    let ghost base = texts(out@);
    let first = glob("!", dir, "");
    let second = glob("!", dir, "/**");
    let third = glob("!**/", dir, "");
    let fourth = glob("!**/", dir, "/**");
    assert("!"@ + dir@ + ""@ =~= "!"@ + dir@);
    assert("!**/"@ + dir@ + ""@ =~= "!**/"@ + dir@);
    let ghost added = seq![first@, second@, third@, fourth@];
    out.push(first);
    out.push(second);
    out.push(third);
    out.push(fourth);
    assert(texts(out@) =~= base + added);
}

/// The override globs of a scan, in the order in which they are added.
pub fn override_globs() -> (globs: Vec<String>)
    ensures
        texts(globs@) == ignore_globs(ignored_dirs().len() as int),
{
    let dirs: [&'static str; 11] = [
        "node_modules",
        "_build",
        "deps",
        ".elixir_ls",
        ".idea",
        ".vscode",
        "target",
        "vendor",
        "dist",
        "build",
        "out",
    ];
    let mut globs: Vec<String> = Vec::new();
    let mut i: usize = 0;
    assert(texts(globs@) =~= ignore_globs(0));
    while i < 11
        invariant
            i <= 11,
            forall|k: int| 0 <= k < 11 ==> (#[trigger] dirs@[k])@ == ignored_dirs()[k],
            texts(globs@) == ignore_globs(i as int),
        decreases 11 - i,
    {
        push_globs(&mut globs, dirs[i]);
        i += 1;
    }
    globs
}

/// Extensions treated as binary (never indexed), in lower case.
pub open spec fn binary_extensions() -> Seq<Seq<char>> {
    seq![
        "png"@,
        "jpg"@,
        "jpeg"@,
        "gif"@,
        "bmp"@,
        "ico"@,
        "svg"@,
        "woff"@,
        "woff2"@,
        "ttf"@,
        "eot"@,
        "mp3"@,
        "mp4"@,
        "avi"@,
        "mov"@,
        "pdf"@,
        "zip"@,
        "tar"@,
        "gz"@,
        "bz2"@,
        "xz"@,
        "7z"@,
        "rar"@,
        "exe"@,
        "dll"@,
        "so"@,
        "dylib"@,
        "o"@,
        "a"@,
        "beam"@,
        "class"@,
        "jar"@,
        "war"@,
        "pyc"@,
        "pyo"@,
        "ds_store"@,
        "lock"@,
        "node"@,
        "wasm"@,
        "bin"@,
        "obj"@,
        "db"@,
        "sqlite"@,
        "sqlite3"@,
        "log"@,
    ]
}

/// `c` in lower case, if it is an ASCII letter.
pub open spec fn lower_char(c: char) -> char {
    if 'A' <= c <= 'Z' {
        (c as u32 + 32) as char
    } else {
        c
    }
}

/// `text` with its ASCII letters in lower case.
pub open spec fn lower_text(text: Seq<char>) -> Seq<char> {
    text.map_values(|c: char| lower_char(c))
}

/// `c` in lower case, if it is an ASCII letter.
fn to_lower(c: char) -> (lower: char)
    ensures
        lower == lower_char(c),
{
    if 'A' <= c && c <= 'Z' {
        ((c as u8) + 32) as char
    } else {
        c
    }
}

/// `text` with its ASCII letters in lower case.
fn lowered(text: &str) -> (out: String)
    ensures
        out@ == lower_text(text@),
{
    let mut out = String::new();
    assert(out@ =~= lower_text(text@.take(0)));
    for c in it: text.chars()
        invariant
            it.seq() == text@,
            out@ == lower_text(text@.take(it.index())),
    {
        out.push(to_lower(c));
        assert(out@ =~= lower_text(text@.take(it.index() + 1)));
    }
    assert(text@.take(text@.len() as int) =~= text@);
    out
}

/// Whether `ext` is treated as binary.
pub fn is_binary_extension(ext: &str) -> (binary: bool)
    ensures
        binary == binary_extensions().contains(lower_text(ext@)),
{
    let lower = lowered(ext);
    let list: [&'static str; 45] = [
        "png",
        "jpg",
        "jpeg",
        "gif",
        "bmp",
        "ico",
        "svg",
        "woff",
        "woff2",
        "ttf",
        "eot",
        "mp3",
        "mp4",
        "avi",
        "mov",
        "pdf",
        "zip",
        "tar",
        "gz",
        "bz2",
        "xz",
        "7z",
        "rar",
        "exe",
        "dll",
        "so",
        "dylib",
        "o",
        "a",
        "beam",
        "class",
        "jar",
        "war",
        "pyc",
        "pyo",
        "ds_store",
        "lock",
        "node",
        "wasm",
        "bin",
        "obj",
        "db",
        "sqlite",
        "sqlite3",
        "log",
    ];
    let mut i: usize = 0;
    while i < 45
        invariant
            i <= 45,
            lower@ == lower_text(ext@),
            binary_extensions().len() == 45,
            forall|k: int| 0 <= k < 45 ==> (#[trigger] list@[k])@ == binary_extensions()[k],
            forall|k: int| 0 <= k < i ==> #[trigger] binary_extensions()[k] != lower@,
        decreases 45 - i,
    {
        if text_equal(list[i], lower.as_str()) {
            assert(binary_extensions()[i as int] == lower@);
            return true;
        }
        i += 1;
    }
    false
}

/// The name of a file starts with a dot. A name that is not text does not.
pub open spec fn is_hidden_name(name: Option<Seq<char>>) -> bool {
    match name {
        Some(n) => n.len() > 0 && n[0] == '.',
        None => false,
    }
}

/// Whether a file is hidden, by its name.
pub fn is_hidden(name: Option<&str>) -> (hidden: bool)
    ensures
        hidden == is_hidden_name(
            match name {
                Some(n) => Some(n@),
                None => None,
            },
        ),
{
    match name {
        Some(n) => {
            if n.unicode_len() == 0 {
                false
            } else {
                n.get_char(0) == '.'
            }
        },
        None => false,
    }
}

/// There is a null byte in the first 512 bytes.
pub open spec fn has_nul(bytes: Seq<u8>) -> bool {
    exists|i: int| 0 <= i < bytes.len() && i < SNIFF_LEN && #[trigger] bytes[i] == 0
}

/// Whether there is a null byte in the first 512 bytes.
fn finds_nul(bytes: &[u8]) -> (found: bool)
    ensures
        found == has_nul(bytes@),
{
    let mut i: usize = 0;
    while i < bytes.len() && i < SNIFF_LEN
        invariant
            i <= bytes@.len(),
            i <= SNIFF_LEN,
            forall|k: int| 0 <= k < i ==> #[trigger] bytes@[k] != 0,
        decreases bytes@.len() - i,
    {
        if bytes[i] == 0 {
            assert(bytes@[i as int] == 0);
            return true;
        }
        i += 1;
    }
    false
}

/// Whether what was read of the start of a file has a null byte in its first
/// 512 bytes. A file that cannot be opened counts as one that has.
pub fn contains_nul_byte(head: Option<&[u8]>) -> (binary: bool)
    ensures
        binary == match head {
            None => true,
            Some(bytes) => has_nul(bytes@),
        },
{
    match head {
        None => true,
        Some(bytes) => finds_nul(bytes),
    }
}

/// What a scan knows of a file before it opens it.
pub struct FileFacts {
    /// Its name, if that is text.
    pub name: Option<String>,
    /// The extension of its name, if there is one and it is text.
    pub extension: Option<String>,
    /// Its size, if that could be had.
    pub size: Option<u64>,
}

/// A file with these facts is worth opening: it is not hidden, not binary by
/// its extension, and neither empty nor too large.
pub open spec fn is_worth_opening(facts: FileFacts, opts: ScanOptions) -> bool {
    &&& !is_hidden_name(
        match facts.name {
            Some(n) => Some(n@),
            None => None,
        },
    )
    &&& match facts.extension {
        Some(ext) => !binary_extensions().contains(lower_text(ext@)),
        None => true,
    }
    &&& match facts.size {
        Some(size) => 0 < size <= opts.max_file_size,
        None => false,
    }
}

/// Whether a file is worth opening.
pub fn may_index(facts: &FileFacts, opts: &ScanOptions) -> (yes: bool)
    ensures
        yes == is_worth_opening(*facts, *opts),
{
    let hidden: bool = match &facts.name {
        Some(n) => is_hidden(Some(n.as_str())),
        None => is_hidden(None),
    };
    if hidden {
        return false;
    }
    let binary: bool = match &facts.extension {
        Some(ext) => is_binary_extension(ext.as_str()),
        None => false,
    };
    if binary {
        return false;
    }
    match facts.size {
        Some(size) => size != 0 && size <= opts.max_file_size,
        None => false,
    }
}

/// Whether a file is indexed, given the start of its content as it was read.
pub fn indexable_file(facts: &FileFacts, head: Option<&[u8]>, opts: &ScanOptions) -> (yes: bool)
    ensures
        yes == (is_worth_opening(*facts, *opts) && match head {
            None => false,
            Some(bytes) => !has_nul(bytes@),
        }),
{
    may_index(facts, opts) && !contains_nul_byte(head)
}

/// Whether a directory entry of this type is looked at: files are, and symbolic
/// links if they are followed.
pub fn is_scanned_type(is_file: bool, is_symlink: bool, opts: &ScanOptions) -> (yes: bool)
    ensures
        yes == (is_file || (opts.follow_symlinks && is_symlink)),
{
    is_file || (opts.follow_symlinks && is_symlink)
}

/// The verbatim prefix `\\?\`.
pub const VERBATIM_PREFIX: [u8; 4] = [92, 92, 63, 92];

/// What follows it in a network path: `UNC\`.
pub const UNC_PREFIX: [u8; 4] = [85, 78, 67, 92];

/// A Windows path without the verbatim prefix, in its conventional form.
pub open spec fn without_verbatim(path: Seq<u8>) -> Seq<u8> {
    if VERBATIM_PREFIX@.is_prefix_of(path) {
        let rest = path.skip(4);
        if UNC_PREFIX@.is_prefix_of(rest) {
            seq![92u8, 92u8] + rest.skip(4)
        } else {
            rest
        }
    } else {
        path
    }
}

/// Whether `path` starts with these four bytes.
fn has_prefix(path: &[u8], from: usize, prefix: &[u8; 4]) -> (yes: bool)
    requires
        from <= path@.len(),
    ensures
        yes == prefix@.is_prefix_of(path@.skip(from as int)),
{
    if path.len() - from < 4 {
        return false;
    }
    let ghost rest = path@.skip(from as int);
    let yes: bool = path[from] == prefix[0] && path[from + 1] == prefix[1] && path[from + 2]
        == prefix[2] && path[from + 3] == prefix[3];
    proof {
        if yes {
            assert(prefix@ =~= rest.subrange(0, 4));
        } else if prefix@.is_prefix_of(rest) {
            assert(rest.subrange(0, 4)[0] == rest[0]);
            assert(rest.subrange(0, 4)[1] == rest[1]);
            assert(rest.subrange(0, 4)[2] == rest[2]);
            assert(rest.subrange(0, 4)[3] == rest[3]);
        }
    }
    yes
}

/// The root of a scan as it is shown: its canonical form, or the root itself
/// where there is none, without the `\\?\` prefix that canonical paths have on
/// Windows. The prefix is noise in output and confuses tooling that splits on
/// `:` or parses paths.
pub fn display_root(root: &[u8], canonical: Option<&[u8]>, windows: bool) -> (shown: Vec<u8>)
    ensures
        shown@ == {
            let path = match canonical {
                Some(c) => c@,
                None => root@,
            };
            if windows {
                without_verbatim(path)
            } else {
                path
            }
        },
{
    let path = match canonical {
        Some(c) => c,
        None => root,
    };
    assert(path@.skip(0) =~= path@);
    if windows && has_prefix(path, 0, &VERBATIM_PREFIX) {
        if has_prefix(path, 4, &UNC_PREFIX) {
            assert(path@.skip(4).skip(4) =~= path@.skip(8));
            let mut shown: Vec<u8> = Vec::new();
            shown.push(92);
            shown.push(92);
            let mut rest = slice_to_vec(vstd::slice::slice_subrange(path, 8, path.len()));
            assert(rest@ =~= path@.skip(8));
            shown.append(&mut rest);
            assert(shown@ =~= seq![92u8, 92u8] + path@.skip(8));
            shown
        } else {
            let rest = vstd::slice::slice_subrange(path, 4, path.len());
            assert(rest@ =~= path@.skip(4));
            slice_to_vec(rest)
        }
    } else {
        slice_to_vec(path)
    }
}

/// `text` is `word`, some of whose letters may be capitals.
pub open spec fn is_spelled(text: Seq<char>, word: Seq<char>) -> bool {
    &&& text.len() == word.len()
    &&& forall|i: int|
        0 <= i < text.len() ==> #[trigger] text[i] == word[i] || ('A' <= text[i] <= 'Z'
            && text[i] as int + 32 == word[i] as int)
}

proof fn lemma_spelled(text: Seq<char>, word: Seq<char>)
    requires
        forall|i: int| 0 <= i < word.len() ==> !('A' <= #[trigger] word[i] <= 'Z'),
    ensures
        lower_text(text) == word <==> is_spelled(text, word),
{
    if is_spelled(text, word) {
        assert forall|i: int| 0 <= i < text.len() implies lower_text(text)[i] == word[i] by {
            let (c, d) = (text[i], word[i]);
            assert(!('A' <= d <= 'Z'));
            assert(lower_text(text)[i] == lower_char(c));
            assert(lower_char(c) as int == d as int);
        }
        assert(lower_text(text) =~= word);
    }
    if lower_text(text) == word {
        assert forall|i: int| 0 <= i < text.len() implies #[trigger] text[i] == word[i] || ('A'
            <= text[i] <= 'Z' && text[i] as int + 32 == word[i] as int) by {
            assert(lower_text(text)[i] == lower_char(text[i]));
        }
    }
}

/// A file counts as binary by its extension exactly if that is one of these, in
/// small or capital letters.
pub proof fn binary_extensions_by_name(ext: Seq<char>)
    ensures
        binary_extensions().contains(lower_text(ext)) <==> {
            ||| is_spelled(ext, "png"@)
            ||| is_spelled(ext, "jpg"@)
            ||| is_spelled(ext, "jpeg"@)
            ||| is_spelled(ext, "gif"@)
            ||| is_spelled(ext, "bmp"@)
            ||| is_spelled(ext, "ico"@)
            ||| is_spelled(ext, "svg"@)
            ||| is_spelled(ext, "woff"@)
            ||| is_spelled(ext, "woff2"@)
            ||| is_spelled(ext, "ttf"@)
            ||| is_spelled(ext, "eot"@)
            ||| is_spelled(ext, "mp3"@)
            ||| is_spelled(ext, "mp4"@)
            ||| is_spelled(ext, "avi"@)
            ||| is_spelled(ext, "mov"@)
            ||| is_spelled(ext, "pdf"@)
            ||| is_spelled(ext, "zip"@)
            ||| is_spelled(ext, "tar"@)
            ||| is_spelled(ext, "gz"@)
            ||| is_spelled(ext, "bz2"@)
            ||| is_spelled(ext, "xz"@)
            ||| is_spelled(ext, "7z"@)
            ||| is_spelled(ext, "rar"@)
            ||| is_spelled(ext, "exe"@)
            ||| is_spelled(ext, "dll"@)
            ||| is_spelled(ext, "so"@)
            ||| is_spelled(ext, "dylib"@)
            ||| is_spelled(ext, "o"@)
            ||| is_spelled(ext, "a"@)
            ||| is_spelled(ext, "beam"@)
            ||| is_spelled(ext, "class"@)
            ||| is_spelled(ext, "jar"@)
            ||| is_spelled(ext, "war"@)
            ||| is_spelled(ext, "pyc"@)
            ||| is_spelled(ext, "pyo"@)
            ||| is_spelled(ext, "ds_store"@)
            ||| is_spelled(ext, "lock"@)
            ||| is_spelled(ext, "node"@)
            ||| is_spelled(ext, "wasm"@)
            ||| is_spelled(ext, "bin"@)
            ||| is_spelled(ext, "obj"@)
            ||| is_spelled(ext, "db"@)
            ||| is_spelled(ext, "sqlite"@)
            ||| is_spelled(ext, "sqlite3"@)
            ||| is_spelled(ext, "log"@)
        },
{
    let list = binary_extensions();
    let lower = lower_text(ext);
    reveal_strlit("png");
    lemma_spelled(ext, "png"@);
    reveal_strlit("jpg");
    lemma_spelled(ext, "jpg"@);
    reveal_strlit("jpeg");
    lemma_spelled(ext, "jpeg"@);
    reveal_strlit("gif");
    lemma_spelled(ext, "gif"@);
    reveal_strlit("bmp");
    lemma_spelled(ext, "bmp"@);
    reveal_strlit("ico");
    lemma_spelled(ext, "ico"@);
    reveal_strlit("svg");
    lemma_spelled(ext, "svg"@);
    reveal_strlit("woff");
    lemma_spelled(ext, "woff"@);
    reveal_strlit("woff2");
    lemma_spelled(ext, "woff2"@);
    reveal_strlit("ttf");
    lemma_spelled(ext, "ttf"@);
    reveal_strlit("eot");
    lemma_spelled(ext, "eot"@);
    reveal_strlit("mp3");
    lemma_spelled(ext, "mp3"@);
    reveal_strlit("mp4");
    lemma_spelled(ext, "mp4"@);
    reveal_strlit("avi");
    lemma_spelled(ext, "avi"@);
    reveal_strlit("mov");
    lemma_spelled(ext, "mov"@);
    reveal_strlit("pdf");
    lemma_spelled(ext, "pdf"@);
    reveal_strlit("zip");
    lemma_spelled(ext, "zip"@);
    reveal_strlit("tar");
    lemma_spelled(ext, "tar"@);
    reveal_strlit("gz");
    lemma_spelled(ext, "gz"@);
    reveal_strlit("bz2");
    lemma_spelled(ext, "bz2"@);
    reveal_strlit("xz");
    lemma_spelled(ext, "xz"@);
    reveal_strlit("7z");
    lemma_spelled(ext, "7z"@);
    reveal_strlit("rar");
    lemma_spelled(ext, "rar"@);
    reveal_strlit("exe");
    lemma_spelled(ext, "exe"@);
    reveal_strlit("dll");
    lemma_spelled(ext, "dll"@);
    reveal_strlit("so");
    lemma_spelled(ext, "so"@);
    reveal_strlit("dylib");
    lemma_spelled(ext, "dylib"@);
    reveal_strlit("o");
    lemma_spelled(ext, "o"@);
    reveal_strlit("a");
    lemma_spelled(ext, "a"@);
    reveal_strlit("beam");
    lemma_spelled(ext, "beam"@);
    reveal_strlit("class");
    lemma_spelled(ext, "class"@);
    reveal_strlit("jar");
    lemma_spelled(ext, "jar"@);
    reveal_strlit("war");
    lemma_spelled(ext, "war"@);
    reveal_strlit("pyc");
    lemma_spelled(ext, "pyc"@);
    reveal_strlit("pyo");
    lemma_spelled(ext, "pyo"@);
    reveal_strlit("ds_store");
    lemma_spelled(ext, "ds_store"@);
    reveal_strlit("lock");
    lemma_spelled(ext, "lock"@);
    reveal_strlit("node");
    lemma_spelled(ext, "node"@);
    reveal_strlit("wasm");
    lemma_spelled(ext, "wasm"@);
    reveal_strlit("bin");
    lemma_spelled(ext, "bin"@);
    reveal_strlit("obj");
    lemma_spelled(ext, "obj"@);
    reveal_strlit("db");
    lemma_spelled(ext, "db"@);
    reveal_strlit("sqlite");
    lemma_spelled(ext, "sqlite"@);
    reveal_strlit("sqlite3");
    lemma_spelled(ext, "sqlite3"@);
    reveal_strlit("log");
    lemma_spelled(ext, "log"@);
    assert(list.len() == 45);
    if list.contains(lower) {
        let k = list.index_of(lower);
        assert(list[k] == lower);
    }
    assert(list[0] == "png"@);
    assert(list[1] == "jpg"@);
    assert(list[2] == "jpeg"@);
    assert(list[3] == "gif"@);
    assert(list[4] == "bmp"@);
    assert(list[5] == "ico"@);
    assert(list[6] == "svg"@);
    assert(list[7] == "woff"@);
    assert(list[8] == "woff2"@);
    assert(list[9] == "ttf"@);
    assert(list[10] == "eot"@);
    assert(list[11] == "mp3"@);
    assert(list[12] == "mp4"@);
    assert(list[13] == "avi"@);
    assert(list[14] == "mov"@);
    assert(list[15] == "pdf"@);
    assert(list[16] == "zip"@);
    assert(list[17] == "tar"@);
    assert(list[18] == "gz"@);
    assert(list[19] == "bz2"@);
    assert(list[20] == "xz"@);
    assert(list[21] == "7z"@);
    assert(list[22] == "rar"@);
    assert(list[23] == "exe"@);
    assert(list[24] == "dll"@);
    assert(list[25] == "so"@);
    assert(list[26] == "dylib"@);
    assert(list[27] == "o"@);
    assert(list[28] == "a"@);
    assert(list[29] == "beam"@);
    assert(list[30] == "class"@);
    assert(list[31] == "jar"@);
    assert(list[32] == "war"@);
    assert(list[33] == "pyc"@);
    assert(list[34] == "pyo"@);
    assert(list[35] == "ds_store"@);
    assert(list[36] == "lock"@);
    assert(list[37] == "node"@);
    assert(list[38] == "wasm"@);
    assert(list[39] == "bin"@);
    assert(list[40] == "obj"@);
    assert(list[41] == "db"@);
    assert(list[42] == "sqlite"@);
    assert(list[43] == "sqlite3"@);
    assert(list[44] == "log"@);
}

proof fn lemma_extension_lengths()
    ensures
        "png"@.len() == 3,
        "jpg"@.len() == 3,
        "jpeg"@.len() == 4,
        "gif"@.len() == 3,
        "bmp"@.len() == 3,
        "ico"@.len() == 3,
        "svg"@.len() == 3,
        "woff"@.len() == 4,
        "woff2"@.len() == 5,
        "ttf"@.len() == 3,
        "eot"@.len() == 3,
        "mp3"@.len() == 3,
        "mp4"@.len() == 3,
        "avi"@.len() == 3,
        "mov"@.len() == 3,
        "pdf"@.len() == 3,
        "zip"@.len() == 3,
        "tar"@.len() == 3,
        "gz"@.len() == 2,
        "bz2"@.len() == 3,
        "xz"@.len() == 2,
        "7z"@.len() == 2,
        "rar"@.len() == 3,
        "exe"@.len() == 3,
        "dll"@.len() == 3,
        "so"@.len() == 2,
        "dylib"@.len() == 5,
        "o"@.len() == 1,
        "a"@.len() == 1,
        "beam"@.len() == 4,
        "class"@.len() == 5,
        "jar"@.len() == 3,
        "war"@.len() == 3,
        "pyc"@.len() == 3,
        "pyo"@.len() == 3,
        "ds_store"@.len() == 8,
        "lock"@.len() == 4,
        "node"@.len() == 4,
        "wasm"@.len() == 4,
        "bin"@.len() == 3,
        "obj"@.len() == 3,
        "db"@.len() == 2,
        "sqlite"@.len() == 6,
        "sqlite3"@.len() == 7,
        "log"@.len() == 3,
{
    reveal_strlit("png");
    reveal_strlit("jpg");
    reveal_strlit("jpeg");
    reveal_strlit("gif");
    reveal_strlit("bmp");
    reveal_strlit("ico");
    reveal_strlit("svg");
    reveal_strlit("woff");
    reveal_strlit("woff2");
    reveal_strlit("ttf");
    reveal_strlit("eot");
    reveal_strlit("mp3");
    reveal_strlit("mp4");
    reveal_strlit("avi");
    reveal_strlit("mov");
    reveal_strlit("pdf");
    reveal_strlit("zip");
    reveal_strlit("tar");
    reveal_strlit("gz");
    reveal_strlit("bz2");
    reveal_strlit("xz");
    reveal_strlit("7z");
    reveal_strlit("rar");
    reveal_strlit("exe");
    reveal_strlit("dll");
    reveal_strlit("so");
    reveal_strlit("dylib");
    reveal_strlit("o");
    reveal_strlit("a");
    reveal_strlit("beam");
    reveal_strlit("class");
    reveal_strlit("jar");
    reveal_strlit("war");
    reveal_strlit("pyc");
    reveal_strlit("pyo");
    reveal_strlit("ds_store");
    reveal_strlit("lock");
    reveal_strlit("node");
    reveal_strlit("wasm");
    reveal_strlit("bin");
    reveal_strlit("obj");
    reveal_strlit("db");
    reveal_strlit("sqlite");
    reveal_strlit("sqlite3");
    reveal_strlit("log");
}

/// Sources and other texts do not count as binary by their extension.
pub proof fn text_extensions_are_not_binary()
    ensures
        !binary_extensions().contains(lower_text("c"@)),
        !binary_extensions().contains(lower_text("h"@)),
        !binary_extensions().contains(lower_text("py"@)),
        !binary_extensions().contains(lower_text("rs"@)),
        !binary_extensions().contains(lower_text("js"@)),
        !binary_extensions().contains(lower_text("ts"@)),
        !binary_extensions().contains(lower_text("go"@)),
        !binary_extensions().contains(lower_text("md"@)),
        !binary_extensions().contains(lower_text("sh"@)),
        !binary_extensions().contains(lower_text("txt"@)),
        !binary_extensions().contains(lower_text("css"@)),
        !binary_extensions().contains(lower_text("cpp"@)),
        !binary_extensions().contains(lower_text("java"@)),
        !binary_extensions().contains(lower_text("json"@)),
        !binary_extensions().contains(lower_text("toml"@)),
        !binary_extensions().contains(lower_text("yaml"@)),
        !binary_extensions().contains(lower_text("html"@)),
{
    assert(!binary_extensions().contains(lower_text("c"@))) by {
        lemma_extension_lengths();
        binary_extensions_by_name("c"@);
        reveal_strlit("c");
        reveal_strlit("o");
        assert("c"@[0] != "o"@[0]);
        reveal_strlit("a");
        assert("c"@[0] != "a"@[0]);
    }
    assert(!binary_extensions().contains(lower_text("h"@))) by {
        lemma_extension_lengths();
        binary_extensions_by_name("h"@);
        reveal_strlit("h");
        reveal_strlit("o");
        assert("h"@[0] != "o"@[0]);
        reveal_strlit("a");
        assert("h"@[0] != "a"@[0]);
    }
    assert(!binary_extensions().contains(lower_text("py"@))) by {
        lemma_extension_lengths();
        binary_extensions_by_name("py"@);
        reveal_strlit("py");
        reveal_strlit("gz");
        assert("py"@[0] != "gz"@[0]);
        reveal_strlit("xz");
        assert("py"@[0] != "xz"@[0]);
        reveal_strlit("7z");
        assert("py"@[0] != "7z"@[0]);
        reveal_strlit("so");
        assert("py"@[0] != "so"@[0]);
        reveal_strlit("db");
        assert("py"@[0] != "db"@[0]);
    }
    assert(!binary_extensions().contains(lower_text("rs"@))) by {
        lemma_extension_lengths();
        binary_extensions_by_name("rs"@);
        reveal_strlit("rs");
        reveal_strlit("gz");
        assert("rs"@[0] != "gz"@[0]);
        reveal_strlit("xz");
        assert("rs"@[0] != "xz"@[0]);
        reveal_strlit("7z");
        assert("rs"@[0] != "7z"@[0]);
        reveal_strlit("so");
        assert("rs"@[0] != "so"@[0]);
        reveal_strlit("db");
        assert("rs"@[0] != "db"@[0]);
    }
    assert(!binary_extensions().contains(lower_text("js"@))) by {
        lemma_extension_lengths();
        binary_extensions_by_name("js"@);
        reveal_strlit("js");
        reveal_strlit("gz");
        assert("js"@[0] != "gz"@[0]);
        reveal_strlit("xz");
        assert("js"@[0] != "xz"@[0]);
        reveal_strlit("7z");
        assert("js"@[0] != "7z"@[0]);
        reveal_strlit("so");
        assert("js"@[0] != "so"@[0]);
        reveal_strlit("db");
        assert("js"@[0] != "db"@[0]);
    }
    assert(!binary_extensions().contains(lower_text("ts"@))) by {
        lemma_extension_lengths();
        binary_extensions_by_name("ts"@);
        reveal_strlit("ts");
        reveal_strlit("gz");
        assert("ts"@[0] != "gz"@[0]);
        reveal_strlit("xz");
        assert("ts"@[0] != "xz"@[0]);
        reveal_strlit("7z");
        assert("ts"@[0] != "7z"@[0]);
        reveal_strlit("so");
        assert("ts"@[0] != "so"@[0]);
        reveal_strlit("db");
        assert("ts"@[0] != "db"@[0]);
    }
    assert(!binary_extensions().contains(lower_text("go"@))) by {
        lemma_extension_lengths();
        binary_extensions_by_name("go"@);
        reveal_strlit("go");
        reveal_strlit("gz");
        assert("go"@[1] != "gz"@[1]);
        reveal_strlit("xz");
        assert("go"@[0] != "xz"@[0]);
        reveal_strlit("7z");
        assert("go"@[0] != "7z"@[0]);
        reveal_strlit("so");
        assert("go"@[0] != "so"@[0]);
        reveal_strlit("db");
        assert("go"@[0] != "db"@[0]);
    }
    assert(!binary_extensions().contains(lower_text("md"@))) by {
        lemma_extension_lengths();
        binary_extensions_by_name("md"@);
        reveal_strlit("md");
        reveal_strlit("gz");
        assert("md"@[0] != "gz"@[0]);
        reveal_strlit("xz");
        assert("md"@[0] != "xz"@[0]);
        reveal_strlit("7z");
        assert("md"@[0] != "7z"@[0]);
        reveal_strlit("so");
        assert("md"@[0] != "so"@[0]);
        reveal_strlit("db");
        assert("md"@[0] != "db"@[0]);
    }
    assert(!binary_extensions().contains(lower_text("sh"@))) by {
        lemma_extension_lengths();
        binary_extensions_by_name("sh"@);
        reveal_strlit("sh");
        reveal_strlit("gz");
        assert("sh"@[0] != "gz"@[0]);
        reveal_strlit("xz");
        assert("sh"@[0] != "xz"@[0]);
        reveal_strlit("7z");
        assert("sh"@[0] != "7z"@[0]);
        reveal_strlit("so");
        assert("sh"@[1] != "so"@[1]);
        reveal_strlit("db");
        assert("sh"@[0] != "db"@[0]);
    }
    assert(!binary_extensions().contains(lower_text("txt"@))) by {
        lemma_extension_lengths();
        binary_extensions_by_name("txt"@);
        reveal_strlit("txt");
        reveal_strlit("png");
        assert("txt"@[0] != "png"@[0]);
        reveal_strlit("jpg");
        assert("txt"@[0] != "jpg"@[0]);
        reveal_strlit("gif");
        assert("txt"@[0] != "gif"@[0]);
        reveal_strlit("bmp");
        assert("txt"@[0] != "bmp"@[0]);
        reveal_strlit("ico");
        assert("txt"@[0] != "ico"@[0]);
        reveal_strlit("svg");
        assert("txt"@[0] != "svg"@[0]);
        reveal_strlit("ttf");
        assert("txt"@[1] != "ttf"@[1]);
        reveal_strlit("eot");
        assert("txt"@[0] != "eot"@[0]);
        reveal_strlit("mp3");
        assert("txt"@[0] != "mp3"@[0]);
        reveal_strlit("mp4");
        assert("txt"@[0] != "mp4"@[0]);
        reveal_strlit("avi");
        assert("txt"@[0] != "avi"@[0]);
        reveal_strlit("mov");
        assert("txt"@[0] != "mov"@[0]);
        reveal_strlit("pdf");
        assert("txt"@[0] != "pdf"@[0]);
        reveal_strlit("zip");
        assert("txt"@[0] != "zip"@[0]);
        reveal_strlit("tar");
        assert("txt"@[1] != "tar"@[1]);
        reveal_strlit("bz2");
        assert("txt"@[0] != "bz2"@[0]);
        reveal_strlit("rar");
        assert("txt"@[0] != "rar"@[0]);
        reveal_strlit("exe");
        assert("txt"@[0] != "exe"@[0]);
        reveal_strlit("dll");
        assert("txt"@[0] != "dll"@[0]);
        reveal_strlit("jar");
        assert("txt"@[0] != "jar"@[0]);
        reveal_strlit("war");
        assert("txt"@[0] != "war"@[0]);
        reveal_strlit("pyc");
        assert("txt"@[0] != "pyc"@[0]);
        reveal_strlit("pyo");
        assert("txt"@[0] != "pyo"@[0]);
        reveal_strlit("bin");
        assert("txt"@[0] != "bin"@[0]);
        reveal_strlit("obj");
        assert("txt"@[0] != "obj"@[0]);
        reveal_strlit("log");
        assert("txt"@[0] != "log"@[0]);
    }
    assert(!binary_extensions().contains(lower_text("css"@))) by {
        lemma_extension_lengths();
        binary_extensions_by_name("css"@);
        reveal_strlit("css");
        reveal_strlit("png");
        assert("css"@[0] != "png"@[0]);
        reveal_strlit("jpg");
        assert("css"@[0] != "jpg"@[0]);
        reveal_strlit("gif");
        assert("css"@[0] != "gif"@[0]);
        reveal_strlit("bmp");
        assert("css"@[0] != "bmp"@[0]);
        reveal_strlit("ico");
        assert("css"@[0] != "ico"@[0]);
        reveal_strlit("svg");
        assert("css"@[0] != "svg"@[0]);
        reveal_strlit("ttf");
        assert("css"@[0] != "ttf"@[0]);
        reveal_strlit("eot");
        assert("css"@[0] != "eot"@[0]);
        reveal_strlit("mp3");
        assert("css"@[0] != "mp3"@[0]);
        reveal_strlit("mp4");
        assert("css"@[0] != "mp4"@[0]);
        reveal_strlit("avi");
        assert("css"@[0] != "avi"@[0]);
        reveal_strlit("mov");
        assert("css"@[0] != "mov"@[0]);
        reveal_strlit("pdf");
        assert("css"@[0] != "pdf"@[0]);
        reveal_strlit("zip");
        assert("css"@[0] != "zip"@[0]);
        reveal_strlit("tar");
        assert("css"@[0] != "tar"@[0]);
        reveal_strlit("bz2");
        assert("css"@[0] != "bz2"@[0]);
        reveal_strlit("rar");
        assert("css"@[0] != "rar"@[0]);
        reveal_strlit("exe");
        assert("css"@[0] != "exe"@[0]);
        reveal_strlit("dll");
        assert("css"@[0] != "dll"@[0]);
        reveal_strlit("jar");
        assert("css"@[0] != "jar"@[0]);
        reveal_strlit("war");
        assert("css"@[0] != "war"@[0]);
        reveal_strlit("pyc");
        assert("css"@[0] != "pyc"@[0]);
        reveal_strlit("pyo");
        assert("css"@[0] != "pyo"@[0]);
        reveal_strlit("bin");
        assert("css"@[0] != "bin"@[0]);
        reveal_strlit("obj");
        assert("css"@[0] != "obj"@[0]);
        reveal_strlit("log");
        assert("css"@[0] != "log"@[0]);
    }
    assert(!binary_extensions().contains(lower_text("cpp"@))) by {
        lemma_extension_lengths();
        binary_extensions_by_name("cpp"@);
        reveal_strlit("cpp");
        reveal_strlit("png");
        assert("cpp"@[0] != "png"@[0]);
        reveal_strlit("jpg");
        assert("cpp"@[0] != "jpg"@[0]);
        reveal_strlit("gif");
        assert("cpp"@[0] != "gif"@[0]);
        reveal_strlit("bmp");
        assert("cpp"@[0] != "bmp"@[0]);
        reveal_strlit("ico");
        assert("cpp"@[0] != "ico"@[0]);
        reveal_strlit("svg");
        assert("cpp"@[0] != "svg"@[0]);
        reveal_strlit("ttf");
        assert("cpp"@[0] != "ttf"@[0]);
        reveal_strlit("eot");
        assert("cpp"@[0] != "eot"@[0]);
        reveal_strlit("mp3");
        assert("cpp"@[0] != "mp3"@[0]);
        reveal_strlit("mp4");
        assert("cpp"@[0] != "mp4"@[0]);
        reveal_strlit("avi");
        assert("cpp"@[0] != "avi"@[0]);
        reveal_strlit("mov");
        assert("cpp"@[0] != "mov"@[0]);
        reveal_strlit("pdf");
        assert("cpp"@[0] != "pdf"@[0]);
        reveal_strlit("zip");
        assert("cpp"@[0] != "zip"@[0]);
        reveal_strlit("tar");
        assert("cpp"@[0] != "tar"@[0]);
        reveal_strlit("bz2");
        assert("cpp"@[0] != "bz2"@[0]);
        reveal_strlit("rar");
        assert("cpp"@[0] != "rar"@[0]);
        reveal_strlit("exe");
        assert("cpp"@[0] != "exe"@[0]);
        reveal_strlit("dll");
        assert("cpp"@[0] != "dll"@[0]);
        reveal_strlit("jar");
        assert("cpp"@[0] != "jar"@[0]);
        reveal_strlit("war");
        assert("cpp"@[0] != "war"@[0]);
        reveal_strlit("pyc");
        assert("cpp"@[0] != "pyc"@[0]);
        reveal_strlit("pyo");
        assert("cpp"@[0] != "pyo"@[0]);
        reveal_strlit("bin");
        assert("cpp"@[0] != "bin"@[0]);
        reveal_strlit("obj");
        assert("cpp"@[0] != "obj"@[0]);
        reveal_strlit("log");
        assert("cpp"@[0] != "log"@[0]);
    }
    assert(!binary_extensions().contains(lower_text("java"@))) by {
        lemma_extension_lengths();
        binary_extensions_by_name("java"@);
        reveal_strlit("java");
        reveal_strlit("jpeg");
        assert("java"@[1] != "jpeg"@[1]);
        reveal_strlit("woff");
        assert("java"@[0] != "woff"@[0]);
        reveal_strlit("beam");
        assert("java"@[0] != "beam"@[0]);
        reveal_strlit("lock");
        assert("java"@[0] != "lock"@[0]);
        reveal_strlit("node");
        assert("java"@[0] != "node"@[0]);
        reveal_strlit("wasm");
        assert("java"@[0] != "wasm"@[0]);
    }
    assert(!binary_extensions().contains(lower_text("json"@))) by {
        lemma_extension_lengths();
        binary_extensions_by_name("json"@);
        reveal_strlit("json");
        reveal_strlit("jpeg");
        assert("json"@[1] != "jpeg"@[1]);
        reveal_strlit("woff");
        assert("json"@[0] != "woff"@[0]);
        reveal_strlit("beam");
        assert("json"@[0] != "beam"@[0]);
        reveal_strlit("lock");
        assert("json"@[0] != "lock"@[0]);
        reveal_strlit("node");
        assert("json"@[0] != "node"@[0]);
        reveal_strlit("wasm");
        assert("json"@[0] != "wasm"@[0]);
    }
    assert(!binary_extensions().contains(lower_text("toml"@))) by {
        lemma_extension_lengths();
        binary_extensions_by_name("toml"@);
        reveal_strlit("toml");
        reveal_strlit("jpeg");
        assert("toml"@[0] != "jpeg"@[0]);
        reveal_strlit("woff");
        assert("toml"@[0] != "woff"@[0]);
        reveal_strlit("beam");
        assert("toml"@[0] != "beam"@[0]);
        reveal_strlit("lock");
        assert("toml"@[0] != "lock"@[0]);
        reveal_strlit("node");
        assert("toml"@[0] != "node"@[0]);
        reveal_strlit("wasm");
        assert("toml"@[0] != "wasm"@[0]);
    }
    assert(!binary_extensions().contains(lower_text("yaml"@))) by {
        lemma_extension_lengths();
        binary_extensions_by_name("yaml"@);
        reveal_strlit("yaml");
        reveal_strlit("jpeg");
        assert("yaml"@[0] != "jpeg"@[0]);
        reveal_strlit("woff");
        assert("yaml"@[0] != "woff"@[0]);
        reveal_strlit("beam");
        assert("yaml"@[0] != "beam"@[0]);
        reveal_strlit("lock");
        assert("yaml"@[0] != "lock"@[0]);
        reveal_strlit("node");
        assert("yaml"@[0] != "node"@[0]);
        reveal_strlit("wasm");
        assert("yaml"@[0] != "wasm"@[0]);
    }
    assert(!binary_extensions().contains(lower_text("html"@))) by {
        lemma_extension_lengths();
        binary_extensions_by_name("html"@);
        reveal_strlit("html");
        reveal_strlit("jpeg");
        assert("html"@[0] != "jpeg"@[0]);
        reveal_strlit("woff");
        assert("html"@[0] != "woff"@[0]);
        reveal_strlit("beam");
        assert("html"@[0] != "beam"@[0]);
        reveal_strlit("lock");
        assert("html"@[0] != "lock"@[0]);
        reveal_strlit("node");
        assert("html"@[0] != "node"@[0]);
        reveal_strlit("wasm");
        assert("html"@[0] != "wasm"@[0]);
    }
}

/// A visible file that is neither empty nor larger than the limit, whose
/// extension does not count as binary and whose first 512 bytes hold no null
/// byte is indexed; any other is not.
pub proof fn visible_text_files_are_indexed(facts: FileFacts, opts: ScanOptions, bytes: Seq<u8>)
    ensures
        is_worth_opening(facts, opts) && !has_nul(bytes) <==> {
            &&& facts.name matches Some(name) ==> name@.len() == 0 || name@[0] != '.'
            &&& facts.extension matches Some(ext) ==> !binary_extensions().contains(
                lower_text(ext@),
            )
            &&& facts.size matches Some(size) && 1 <= size <= opts.max_file_size
            &&& forall|i: int| 0 <= i < bytes.len() && i < 512 ==> #[trigger] bytes[i] != 0
        },
        DEFAULT_MAX_FILE_SIZE == 1024 * 1024,
{
}

/// A name is hidden exactly if it starts with a dot, whatever follows.
pub proof fn dotted_names_are_hidden(c: char, rest: Seq<char>)
    ensures
        is_hidden_name(Some(seq![c] + rest)) <==> c == '.',
        !is_hidden_name(Some(Seq::empty())),
        !is_hidden_name(None),
{
}

/// One null byte in the first 512 makes a file binary; what comes after them
/// does not count.
pub proof fn null_bytes_count_in_the_first_512(bytes: Seq<u8>, rest: Seq<u8>, at: int)
    ensures
        0 <= at < bytes.len() && at < 512 && bytes[at] == 0 ==> has_nul(bytes),
        bytes.len() >= 512 ==> has_nul(bytes + rest) == has_nul(bytes),
        has_nul(bytes) ==> has_nul(bytes + rest),
{
    let all = bytes + rest;
    if has_nul(bytes) {
        let i = choose|i: int| 0 <= i < bytes.len() && i < SNIFF_LEN && #[trigger] bytes[i] == 0;
        assert(all[i] == 0);
    }
    if bytes.len() >= 512 && has_nul(all) {
        let i = choose|i: int| 0 <= i < all.len() && i < SNIFF_LEN && #[trigger] all[i] == 0;
        assert(bytes[i] == 0);
    }
}

/// There are four globs for each directory that is left out: for the directory
/// and for all in it, at the root and below. These are the directories.
pub proof fn left_out_directories_by_name()
    ensures
        ignore_globs(ignored_dirs().len() as int) == Seq::<Seq<char>>::empty()
            + seq!["!"@ + "node_modules"@, "!"@ + "node_modules"@ + "/**"@, "!**/"@ + "node_modules"@, "!**/"@ + "node_modules"@ + "/**"@]
            + seq!["!"@ + "_build"@, "!"@ + "_build"@ + "/**"@, "!**/"@ + "_build"@, "!**/"@ + "_build"@ + "/**"@]
            + seq!["!"@ + "deps"@, "!"@ + "deps"@ + "/**"@, "!**/"@ + "deps"@, "!**/"@ + "deps"@ + "/**"@]
            + seq!["!"@ + ".elixir_ls"@, "!"@ + ".elixir_ls"@ + "/**"@, "!**/"@ + ".elixir_ls"@, "!**/"@ + ".elixir_ls"@ + "/**"@]
            + seq!["!"@ + ".idea"@, "!"@ + ".idea"@ + "/**"@, "!**/"@ + ".idea"@, "!**/"@ + ".idea"@ + "/**"@]
            + seq!["!"@ + ".vscode"@, "!"@ + ".vscode"@ + "/**"@, "!**/"@ + ".vscode"@, "!**/"@ + ".vscode"@ + "/**"@]
            + seq!["!"@ + "target"@, "!"@ + "target"@ + "/**"@, "!**/"@ + "target"@, "!**/"@ + "target"@ + "/**"@]
            + seq!["!"@ + "vendor"@, "!"@ + "vendor"@ + "/**"@, "!**/"@ + "vendor"@, "!**/"@ + "vendor"@ + "/**"@]
            + seq!["!"@ + "dist"@, "!"@ + "dist"@ + "/**"@, "!**/"@ + "dist"@, "!**/"@ + "dist"@ + "/**"@]
            + seq!["!"@ + "build"@, "!"@ + "build"@ + "/**"@, "!**/"@ + "build"@, "!**/"@ + "build"@ + "/**"@]
            + seq!["!"@ + "out"@, "!"@ + "out"@ + "/**"@, "!**/"@ + "out"@, "!**/"@ + "out"@ + "/**"@],
{
    reveal_with_fuel(ignore_globs, 12);
    let dirs = ignored_dirs();
    assert(dirs.len() == 11);
    assert(dirs[0] == "node_modules"@);
    assert(dirs[1] == "_build"@);
    assert(dirs[2] == "deps"@);
    assert(dirs[3] == ".elixir_ls"@);
    assert(dirs[4] == ".idea"@);
    assert(dirs[5] == ".vscode"@);
    assert(dirs[6] == "target"@);
    assert(dirs[7] == "vendor"@);
    assert(dirs[8] == "dist"@);
    assert(dirs[9] == "build"@);
    assert(dirs[10] == "out"@);
}

/// What is shown of a path: without the verbatim prefix, two backslashes in
/// front of a network path in place of it, and as it is where there is none.
pub proof fn verbatim_prefixes_are_dropped(rest: Seq<u8>)
    ensures
        without_verbatim(seq![92u8, 92, 63, 92, 85, 78, 67, 92] + rest) == seq![92u8, 92] + rest,
        rest.take(4) != seq![85u8, 78, 67, 92] || rest.len() < 4 ==> without_verbatim(
            seq![92u8, 92, 63, 92] + rest,
        ) == rest,
        rest.take(4) != seq![92u8, 92, 63, 92] || rest.len() < 4 ==> without_verbatim(rest) == rest,
{
    let unc = seq![92u8, 92, 63, 92, 85, 78, 67, 92] + rest;
    assert(VERBATIM_PREFIX@ =~= unc.subrange(0, 4));
    assert(UNC_PREFIX@ =~= unc.skip(4).subrange(0, 4));
    assert(unc.skip(4).skip(4) =~= rest);
    let verbatim = seq![92u8, 92, 63, 92] + rest;
    assert(VERBATIM_PREFIX@ =~= verbatim.subrange(0, 4));
    assert(verbatim.skip(4) =~= rest);
    if rest.len() >= 4 {
        assert(rest.subrange(0, 4) =~= rest.take(4));
        assert(UNC_PREFIX@ =~= seq![85u8, 78, 67, 92]);
        assert(VERBATIM_PREFIX@ =~= seq![92u8, 92, 63, 92]);
    }
}

} // verus!
