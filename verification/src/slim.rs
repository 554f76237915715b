//! Lossy slimming of source text: comment stripping by language, blank-line
//! collapsing, whitespace squeezing, repeat folding and outline extraction.

use vstd::prelude::*;
use crate::json::{Json, JsonView, array_view, members_view};
use crate::search::{compile_pattern, pattern_is_match, regex_error, regex_matches, Pattern};
use crate::text::{
    all_ws, chars_eq, chars_of, str_in, copy_range, decimal, is_all_ws, is_ws, join_chars,
    join_lines, lines, lines_of, push_decimal, push_str, str_eq, string_from_chars, trim_end,
    trim_end_chars, trim_start, trim_start_len, views,
};

verus! {

// ---------------------------------------------------------------------------
// Comment styles
// ---------------------------------------------------------------------------

/// The comment syntax of a language: line-comment openers, and block
/// comments as (opener, closer) pairs.
pub struct CommentStyle {
    pub line: &'static [&'static str],
    pub block: &'static [(&'static str, &'static str)],
}

/// The characters of a comment style's tokens.
pub struct StyleView {
    pub line: Seq<Seq<char>>,
    pub block: Seq<(Seq<char>, Seq<char>)>,
}

impl View for CommentStyle {
    type V = StyleView;

    open spec fn view(&self) -> StyleView {
        StyleView {
            line: self.line@.map_values(|s: &str| s@),
            block: self.block@.map_values(|b: (&str, &str)| (b.0@, b.1@)),
        }
    }
}

/// Extensions whose comments are `//` and `/* */`.
pub open spec fn is_c_family(ext: Seq<char>) -> bool {
    ||| ext == "rs"@ ||| ext == "js"@ ||| ext == "jsx"@ ||| ext == "ts"@ ||| ext == "tsx"@
    ||| ext == "mjs"@ ||| ext == "cjs"@ ||| ext == "java"@ ||| ext == "c"@ ||| ext == "h"@
    ||| ext == "cpp"@ ||| ext == "cc"@ ||| ext == "hpp"@ ||| ext == "go"@ ||| ext == "swift"@
    ||| ext == "kt"@ ||| ext == "kts"@ ||| ext == "scala"@ ||| ext == "cs"@ ||| ext == "dart"@
    ||| ext == "php"@ ||| ext == "css"@ ||| ext == "scss"@ ||| ext == "less"@
    ||| ext == "proto"@ ||| ext == "zig"@ ||| ext == "m"@ ||| ext == "mm"@
}

/// Extensions whose comments start with `#`.
pub open spec fn is_hash_family(ext: Seq<char>) -> bool {
    ||| ext == "py"@ ||| ext == "rb"@ ||| ext == "sh"@ ||| ext == "bash"@ ||| ext == "zsh"@
    ||| ext == "fish"@ ||| ext == "yaml"@ ||| ext == "yml"@ ||| ext == "toml"@ ||| ext == "pl"@
    ||| ext == "r"@ ||| ext == "jl"@ ||| ext == "ex"@ ||| ext == "exs"@ ||| ext == "tf"@
    ||| ext == "nix"@ ||| ext == "mk"@ ||| ext == "cmake"@ ||| ext == "dockerfile"@
    ||| ext == "gitignore"@ ||| ext == "env"@
}

/// Extensions whose only comments are `<!-- -->`.
pub open spec fn is_markup_family(ext: Seq<char>) -> bool {
    ||| ext == "html"@ ||| ext == "htm"@ ||| ext == "xml"@ ||| ext == "vue"@
    ||| ext == "svelte"@ ||| ext == "svg"@
}

/// The comment syntax for a (lower-case) file extension.
pub open spec fn style_for(ext: Seq<char>) -> StyleView {
    if is_c_family(ext) {
        StyleView { line: seq![seq!['/', '/']], block: seq![(seq!['/', '*'], seq!['*', '/'])] }
    } else if is_hash_family(ext) {
        StyleView { line: seq![seq!['#']], block: seq![] }
    } else if ext == "sql"@ {
        StyleView { line: seq![seq!['-', '-']], block: seq![(seq!['/', '*'], seq!['*', '/'])] }
    } else if ext == "lua"@ {
        StyleView {
            line: seq![seq!['-', '-']],
            block: seq![(seq!['-', '-', '[', '['], seq![']', ']'])],
        }
    } else if is_markup_family(ext) {
        StyleView { line: seq![], block: seq![(seq!['<', '!', '-', '-'], seq!['-', '-', '>'])] }
    } else {
        StyleView { line: seq![], block: seq![] }
    }
}

/// The comment syntax used for files with extension `ext`.
pub fn comment_style(ext: &str) -> (r: CommentStyle)
    ensures
        r@ == style_for(ext@),
{
    let c_family: &[&str] = &[
        "rs", "js", "jsx", "ts", "tsx", "mjs", "cjs", "java", "c", "h", "cpp", "cc", "hpp", "go",
        "swift", "kt", "kts", "scala", "cs", "dart", "php", "css", "scss", "less", "proto", "zig",
        "m", "mm",
    ];
    let hash_family: &[&str] = &[
        "py", "rb", "sh", "bash", "zsh", "fish", "yaml", "yml", "toml", "pl", "r", "jl", "ex",
        "exs", "tf", "nix", "mk", "cmake", "dockerfile", "gitignore", "env",
    ];
    let markup_family: &[&str] = &["html", "htm", "xml", "vue", "svelte", "svg"];
    proof {
        reveal_strlit("//");
        reveal_strlit("/*");
        reveal_strlit("*/");
        reveal_strlit("#");
        reveal_strlit("--");
        reveal_strlit("--[[");
        reveal_strlit("]]");
        reveal_strlit("<!--");
        reveal_strlit("-->");
        assert("//"@ =~= seq!['/', '/']);
        assert("/*"@ =~= seq!['/', '*']);
        assert("*/"@ =~= seq!['*', '/']);
        assert("#"@ =~= seq!['#']);
        assert("--"@ =~= seq!['-', '-']);
        assert("--[["@ =~= seq!['-', '-', '[', '[']);
        assert("]]"@ =~= seq![']', ']']);
        assert("<!--"@ =~= seq!['<', '!', '-', '-']);
        assert("-->"@ =~= seq!['-', '-', '>']);
    }
    let c = str_in(ext, c_family);
    assert(c == is_c_family(ext@));
    if c {
        let r = CommentStyle { line: &["//"], block: &[("/*", "*/")] };
        assert(r@.line =~= style_for(ext@).line);
        assert(r@.block =~= style_for(ext@).block);
        return r;
    }
    let h = str_in(ext, hash_family);
    assert(h == is_hash_family(ext@));
    if h {
        let r = CommentStyle { line: &["#"], block: &[] };
        assert(r@.line =~= style_for(ext@).line);
        assert(r@.block =~= style_for(ext@).block);
        return r;
    }
    if str_eq(ext, "sql") {
        let r = CommentStyle { line: &["--"], block: &[("/*", "*/")] };
        assert(r@.line =~= style_for(ext@).line);
        assert(r@.block =~= style_for(ext@).block);
        return r;
    }
    if str_eq(ext, "lua") {
        let r = CommentStyle { line: &["--"], block: &[("--[[", "]]")] };
        assert(r@.line =~= style_for(ext@).line);
        assert(r@.block =~= style_for(ext@).block);
        return r;
    }
    let m = str_in(ext, markup_family);
    assert(m == is_markup_family(ext@));
    if m {
        let r = CommentStyle { line: &[], block: &[("<!--", "-->")] };
        assert(r@.line =~= style_for(ext@).line);
        assert(r@.block =~= style_for(ext@).block);
        return r;
    }
    let r = CommentStyle { line: &[], block: &[] };
    assert(r@.line =~= style_for(ext@).line);
    assert(r@.block =~= style_for(ext@).block);
    r
}


// ---------------------------------------------------------------------------
// Comment stripping
// ---------------------------------------------------------------------------

/// The pattern `p` occurs in `cs` at position `i`.
pub open spec fn starts_at(cs: Seq<char>, i: int, p: Seq<char>) -> bool {
    forall|k: int| 0 <= k < p.len() ==> 0 <= i + k && i + k < cs.len() && cs[i + k] == #[trigger] p[k]
}

pub proof fn lemma_starts_at_bound(cs: Seq<char>, i: int, p: Seq<char>)
    requires
        starts_at(cs, i, p),
        p.len() > 0,
    ensures
        i + p.len() <= cs.len(),
{
    let k: int = p.len() - 1;
    let x = p[k];
}

/// A block comment with opener `o` begins at `i`.
pub open spec fn opens(cs: Seq<char>, i: int, o: Seq<char>) -> bool {
    o.len() > 0 && starts_at(cs, i, o)
}

/// The first block comment style, from the `k`-th on, whose opener begins at `i`.
pub open spec fn first_block(cs: Seq<char>, i: int, blocks: Seq<(Seq<char>, Seq<char>)>, k: int) -> Option<int>
    decreases blocks.len() - k,
{
    if k < 0 || k >= blocks.len() {
        None
    } else if opens(cs, i, blocks[k].0) {
        Some(k)
    } else {
        first_block(cs, i, blocks, k + 1)
    }
}

/// A line comment opener begins at `i`.
pub open spec fn line_at(cs: Seq<char>, i: int, toks: Seq<Seq<char>>) -> bool {
    exists|k: int|
        0 <= k < toks.len() && (#[trigger] toks[k]).len() > 0 && toks[k][0] != '\n' && starts_at(
            cs,
            i,
            toks[k],
        )
}

/// Where the comment scanner stands.
pub enum ScanMode {
    Code,
    Quoted(char),
    LineComment,
    Shebang,
    Block(Seq<char>),
}

pub open spec fn mode_rank(m: ScanMode) -> nat {
    if m is Code {
        0
    } else {
        1
    }
}

pub proof fn lemma_first_block(cs: Seq<char>, i: int, blocks: Seq<(Seq<char>, Seq<char>)>, k: int)
    ensures
        first_block(cs, i, blocks, k) matches Some(j) ==> k <= j < blocks.len() && opens(
            cs,
            i,
            blocks[j].0,
        ),
    decreases blocks.len() - k,
{
    if 0 <= k < blocks.len() && !opens(cs, i, blocks[k].0) {
        lemma_first_block(cs, i, blocks, k + 1);
    }
}

/// What remains of `cs[i..]` once comments are removed, the scanner being in mode `m`
/// at `i`. Text in quotes (`"`, `'`, `` ` ``, with backslash escapes) is kept; a block
/// comment is dropped but for its line feeds; a line comment is dropped up to its
/// line feed; a `#!` line at the very start is kept.
pub open spec fn scan(cs: Seq<char>, st: StyleView, i: int, m: ScanMode) -> Seq<char>
    decreases cs.len() - i, mode_rank(m),
{
    if i < 0 || i >= cs.len() {
        seq![]
    } else {
        let c = cs[i];
        match m {
            ScanMode::Quoted(q) => {
                if c == '\\' && i + 1 < cs.len() {
                    seq![c, cs[i + 1]] + scan(cs, st, i + 2, m)
                } else if c == q {
                    seq![c] + scan(cs, st, i + 1, ScanMode::Code)
                } else {
                    seq![c] + scan(cs, st, i + 1, m)
                }
            },
            ScanMode::Block(close) => {
                if starts_at(cs, i, close) {
                    proof {
                        if close.len() > 0 {
                            lemma_starts_at_bound(cs, i, close);
                        }
                    }
                    scan(cs, st, i + close.len(), ScanMode::Code)
                } else {
                    (if c == '\n' {
                        seq!['\n']
                    } else {
                        seq![]
                    }) + scan(cs, st, i + 1, m)
                }
            },
            ScanMode::Shebang => {
                if c == '\n' {
                    scan(cs, st, i, ScanMode::Code)
                } else {
                    seq![c] + scan(cs, st, i + 1, m)
                }
            },
            ScanMode::LineComment => {
                if c == '\n' {
                    scan(cs, st, i, ScanMode::Code)
                } else {
                    scan(cs, st, i + 1, m)
                }
            },
            ScanMode::Code => {
                match first_block(cs, i, st.block, 0) {
                    Some(j) => {
                        proof {
                            lemma_first_block(cs, i, st.block, 0);
                            lemma_starts_at_bound(cs, i, st.block[j].0);
                        }
                        scan(cs, st, i + st.block[j].0.len(), ScanMode::Block(st.block[j].1))
                    },
                    None => {
                        if line_at(cs, i, st.line) {
                            if i == 0 && starts_at(cs, 0, seq!['#', '!']) {
                                seq![c] + scan(cs, st, 1, ScanMode::Shebang)
                            } else {
                                scan(cs, st, i + 1, ScanMode::LineComment)
                            }
                        } else if c == '"' || c == '\'' || c == '`' {
                            seq![c] + scan(cs, st, i + 1, ScanMode::Quoted(c))
                        } else {
                            seq![c] + scan(cs, st, i + 1, ScanMode::Code)
                        }
                    },
                }
            },
        }
    }
}

pub(crate) proof fn lemma_scan_quoted(cs: Seq<char>, st: StyleView, i: int, q: char)
    requires
        0 <= i < cs.len(),
    ensures
        scan(cs, st, i, ScanMode::Quoted(q)) == if cs[i] == '\\' && i + 1 < cs.len() {
            seq![cs[i], cs[i + 1]] + scan(cs, st, i + 2, ScanMode::Quoted(q))
        } else if cs[i] == q {
            seq![cs[i]] + scan(cs, st, i + 1, ScanMode::Code)
        } else {
            seq![cs[i]] + scan(cs, st, i + 1, ScanMode::Quoted(q))
        },
{
}

pub(crate) proof fn lemma_scan_code(cs: Seq<char>, st: StyleView, i: int)
    requires
        0 <= i < cs.len(),
        first_block(cs, i, st.block, 0) is None,
    ensures
        scan(cs, st, i, ScanMode::Code) == if line_at(cs, i, st.line) {
            if i == 0 && starts_at(cs, 0, seq!['#', '!']) {
                seq![cs[i]] + scan(cs, st, 1, ScanMode::Shebang)
            } else {
                scan(cs, st, i + 1, ScanMode::LineComment)
            }
        } else if cs[i] == '"' || cs[i] == '\'' || cs[i] == '`' {
            seq![cs[i]] + scan(cs, st, i + 1, ScanMode::Quoted(cs[i]))
        } else {
            seq![cs[i]] + scan(cs, st, i + 1, ScanMode::Code)
        },
{
}

pub(crate) proof fn lemma_scan_block_open(cs: Seq<char>, st: StyleView, i: int, j: int)
    requires
        0 <= i < cs.len(),
        first_block(cs, i, st.block, 0) == Some(j),
    ensures
        scan(cs, st, i, ScanMode::Code) == scan(
            cs,
            st,
            i + st.block[j].0.len(),
            ScanMode::Block(st.block[j].1),
        ),
{
}

pub(crate) proof fn lemma_scan_block(cs: Seq<char>, st: StyleView, i: int, close: Seq<char>)
    requires
        0 <= i < cs.len(),
    ensures
        scan(cs, st, i, ScanMode::Block(close)) == if starts_at(cs, i, close) {
            scan(cs, st, i + close.len(), ScanMode::Code)
        } else {
            (if cs[i] == '\n' {
                seq!['\n']
            } else {
                seq![]
            }) + scan(cs, st, i + 1, ScanMode::Block(close))
        },
{
}

pub(crate) proof fn lemma_scan_shebang(cs: Seq<char>, st: StyleView, i: int)
    requires
        0 <= i < cs.len(),
    ensures
        scan(cs, st, i, ScanMode::Shebang) == if cs[i] == '\n' {
            scan(cs, st, i, ScanMode::Code)
        } else {
            seq![cs[i]] + scan(cs, st, i + 1, ScanMode::Shebang)
        },
{
}

pub(crate) proof fn lemma_scan_line_comment(cs: Seq<char>, st: StyleView, i: int)
    requires
        0 <= i < cs.len(),
    ensures
        scan(cs, st, i, ScanMode::LineComment) == if cs[i] == '\n' {
            scan(cs, st, i, ScanMode::Code)
        } else {
            scan(cs, st, i + 1, ScanMode::LineComment)
        },
{
}

pub(crate) proof fn lemma_scan_end(cs: Seq<char>, st: StyleView, i: int, m: ScanMode)
    requires
        i >= cs.len(),
    ensures
        scan(cs, st, i, m) == Seq::<char>::empty(),
{
}

/// `src` with the comments of the language of extension `ext` removed.
pub open spec fn stripped(src: Seq<char>, ext: Seq<char>) -> Seq<char> {
    let st = style_for(ext);
    if st.line.len() == 0 && st.block.len() == 0 {
        src
    } else {
        scan(src, st, 0, ScanMode::Code)
    }
}

/// Whether `p` occurs in `cs` at `i`.
pub fn starts_with_chars(cs: &Vec<char>, i: usize, p: &Vec<char>) -> (r: bool)
    ensures
        r == starts_at(cs@, i as int, p@),
{
    if p.len() == 0 {
        return true;
    }
    if i >= cs.len() || p.len() > cs.len() - i {
        proof {
            let x = p@[p@.len() - 1];
        }
        return false;
    }
    let n = cs.len();
    let mut k: usize = 0;
    while k < p.len()
        invariant
            k <= p@.len(),
            n == cs@.len(),
            i + p@.len() <= cs@.len(),
            forall|j: int| 0 <= j < k ==> cs@[i + j] == #[trigger] p@[j],
        decreases p@.len() - k,
    {
        if cs[i + k] != p[k] {
            return false;
        }
        k = k + 1;
    }
    true
}

/// Whether the characters of `pat` occur in `chars` at position `i`.
pub fn starts_with_at(chars: &[char], i: usize, pat: &str) -> (r: bool)
    ensures
        r == starts_at(chars@, i as int, pat@),
{
    let p = chars_of(pat);
    if p.len() == 0 {
        return true;
    }
    if i >= chars.len() || p.len() > chars.len() - i {
        proof {
            let x = p@[p@.len() - 1];
        }
        return false;
    }
    let n = chars.len();
    let mut k: usize = 0;
    while k < p.len()
        invariant
            k <= p@.len(),
            n == chars@.len(),
            p@ == pat@,
            i + p@.len() <= chars@.len(),
            forall|j: int| 0 <= j < k ==> chars@[i + j] == #[trigger] p@[j],
        decreases p@.len() - k,
    {
        if chars[i + k] != p[k] {
            return false;
        }
        k = k + 1;
    }
    true
}

fn find_block(cs: &Vec<char>, i: usize, blocks: &Vec<(Vec<char>, Vec<char>)>) -> (r: Option<usize>)
    ensures
        match r {
            Some(k) => k < blocks@.len() && first_block(
                cs@,
                i as int,
                block_views(blocks@),
                0,
            ) == Some(k as int),
            None => first_block(cs@, i as int, block_views(blocks@), 0) is None,
        },
{
    let ghost bv = block_views(blocks@);
    let mut k: usize = 0;
    while k < blocks.len()
        invariant
            k <= blocks@.len(),
            bv == block_views(blocks@),
            first_block(cs@, i as int, bv, 0) == first_block(cs@, i as int, bv, k as int),
        decreases blocks@.len() - k,
    {
        if blocks[k].0.len() > 0 && starts_with_chars(cs, i, &blocks[k].0) {
            return Some(k);
        }
        k = k + 1;
    }
    None
}

fn find_line(cs: &Vec<char>, i: usize, toks: &Vec<Vec<char>>) -> (r: bool)
    ensures
        r == line_at(cs@, i as int, views(toks@)),
{
    let ghost tv = views(toks@);
    let mut k: usize = 0;
    while k < toks.len()
        invariant
            k <= toks@.len(),
            tv == views(toks@),
            forall|j: int|
                0 <= j < k ==> !((#[trigger] tv[j]).len() > 0 && tv[j][0] != '\n' && starts_at(
                    cs@,
                    i as int,
                    tv[j],
                )),
        decreases toks@.len() - k,
    {
        if toks[k].len() > 0 && toks[k][0] != '\n' && starts_with_chars(cs, i, &toks[k]) {
            assert(tv[k as int] == toks@[k as int]@);
            return true;
        }
        k = k + 1;
    }
    false
}

/// The characters of (opener, closer) pairs.
pub open spec fn block_views(b: Seq<(Vec<char>, Vec<char>)>) -> Seq<(Seq<char>, Seq<char>)> {
    Seq::new(b.len(), |i: int| (b[i].0@, b[i].1@))
}

fn style_chars(style: &CommentStyle) -> (r: (Vec<Vec<char>>, Vec<(Vec<char>, Vec<char>)>))
    ensures
        views(r.0@) == style@.line,
        block_views(r.1@) == style@.block,
{
    let mut line: Vec<Vec<char>> = Vec::new();
    let mut k: usize = 0;
    while k < style.line.len()
        invariant
            k <= style.line@.len(),
            views(line@) =~= style@.line.take(k as int),
        decreases style.line@.len() - k,
    {
        let t = chars_of(style.line[k]);
        let ghost prev = line@;
        line.push(t);
        assert(views(line@) =~= views(prev).push(t@));
        assert(style@.line.take(k + 1) =~= style@.line.take(k as int).push(style@.line[k as int]));
        assert(style@.line[k as int] == style.line@[k as int]@);
        k = k + 1;
    }
    assert(style@.line.take(style.line@.len() as int) == style@.line);
    let mut block: Vec<(Vec<char>, Vec<char>)> = Vec::new();
    let mut k: usize = 0;
    while k < style.block.len()
        invariant
            k <= style.block@.len(),
            block_views(block@) =~= style@.block.take(k as int),
        decreases style.block@.len() - k,
    {
        let (o, c) = style.block[k];
        let pair = (chars_of(o), chars_of(c));
        let ghost prev = block@;
        block.push(pair);
        assert(block_views(block@) =~= block_views(prev).push((pair.0@, pair.1@)));
        assert(style@.block.take(k + 1) =~= style@.block.take(k as int).push(style@.block[k as int]));
        assert(style@.block[k as int] == (style.block@[k as int].0@, style.block@[k as int].1@));
        k = k + 1;
    }
    assert(style@.block.take(style.block@.len() as int) == style@.block);
    (line, block)
}

/// Removes the comments of the language of extension `ext` from `src`,
/// keeping quoted text, the line feeds of block comments and a leading `#!` line.
pub fn strip_comments(src: &str, ext: &str) -> (r: String)
    ensures
        r@ == stripped(src@, ext@),
{
    let style = comment_style(ext);
    if style.line.len() == 0 && style.block.len() == 0 {
        return String::from_str(src);
    }
    let ghost st = style_for(ext@);
    let (line_toks, blocks) = style_chars(&style);
    let cs = chars_of(src);
    let n = cs.len();
    let shebang: Vec<char> = vec!['#', '!'];
    let mut out: Vec<char> = Vec::new();
    let mut i: usize = 0;
    let mut in_str: Option<char> = None;
    let ghost goal = scan(cs@, st, 0, ScanMode::Code);
    while i < n
        invariant
            n == cs@.len(),
            cs@ == src@,
            st == style_for(ext@),
            views(line_toks@) == st.line,
            block_views(blocks@) == st.block,
            shebang@ == seq!['#', '!'],
            i <= n,
            out@ + scan(
                cs@,
                st,
                i as int,
                match in_str {
                    Some(q) => ScanMode::Quoted(q),
                    None => ScanMode::Code,
                },
            ) == goal,
        decreases n - i,
    {
        let c = cs[i];
        let ghost o = out@;
        if let Some(q) = in_str {
            proof {
                lemma_scan_quoted(cs@, st, i as int, q);
            }
            out.push(c);
            if c == '\\' && i + 1 < n {
                out.push(cs[i + 1]);
                assert(scan(cs@, st, i as int, ScanMode::Quoted(q)) == seq![c, cs@[i + 1]] + scan(
                    cs@,
                    st,
                    i + 2,
                    ScanMode::Quoted(q),
                ));
                assert(out@ + scan(cs@, st, i + 2, ScanMode::Quoted(q)) =~= o + (seq![c, cs@[i + 1]]
                    + scan(cs@, st, i + 2, ScanMode::Quoted(q))));
                i += 2;
                continue;
            }
            if c == q {
                in_str = None;
                assert(out@ + scan(cs@, st, i + 1, ScanMode::Code) =~= o + (seq![c] + scan(
                    cs@,
                    st,
                    i + 1,
                    ScanMode::Code,
                )));
            } else {
                assert(out@ + scan(cs@, st, i + 1, ScanMode::Quoted(q)) =~= o + (seq![c] + scan(
                    cs@,
                    st,
                    i + 1,
                    ScanMode::Quoted(q),
                )));
            }
            i += 1;
            continue;
        }
        if let Some(k) = find_block(&cs, i, &blocks) {
            let ghost close_v = st.block[k as int].1;
            let ghost start = i;
            proof {
                lemma_first_block(cs@, i as int, st.block, 0);
                lemma_starts_at_bound(cs@, i as int, st.block[k as int].0);
                assert(st.block[k as int].0 == blocks@[k as int].0@);
                lemma_scan_block_open(cs@, st, i as int, k as int);
            }
            i += blocks[k].0.len();
            let close = &blocks[k].1;
            assert(close@ == close_v);
            while i < n && !starts_with_chars(&cs, i, close)
                invariant
                    n == cs@.len(),
                    start < i <= n,
                    close@ == close_v,
                    out@ + scan(cs@, st, i as int, ScanMode::Block(close_v)) == goal,
                decreases n - i,
            {
                proof {
                    lemma_scan_block(cs@, st, i as int, close_v);
                }
                let ghost o3 = out@;
                if cs[i] == '\n' {
                    out.push('\n');
                    assert(out@ + scan(cs@, st, i + 1, ScanMode::Block(close_v)) =~= o3 + (seq!['\n'] + scan(cs@, st, i + 1, ScanMode::Block(close_v))));
                } else {
                    assert(o3 + scan(cs@, st, i + 1, ScanMode::Block(close_v)) =~= o3 + (Seq::<char>::empty() + scan(cs@, st, i + 1, ScanMode::Block(close_v))));
                }
                i += 1;
            }
            if i >= n {
                proof {
                    lemma_scan_end(cs@, st, i as int, ScanMode::Block(close_v));
                    lemma_scan_end(cs@, st, i as int, ScanMode::Code);
                }
            }
            if i < n {
                proof {
                    lemma_scan_block(cs@, st, i as int, close_v);
                    if close_v.len() > 0 {
                        lemma_starts_at_bound(cs@, i as int, close_v);
                    }
                }
                i += close.len();
            }
            continue;
        }
        if find_line(&cs, i, &line_toks) {
            proof {
                let k = choose|k: int|
                    0 <= k < st.line.len() && (#[trigger] st.line[k]).len() > 0 && st.line[k][0]
                        != '\n' && starts_at(cs@, i as int, st.line[k]);
                assert(cs@[i as int + 0] == st.line[k][0]);
                lemma_scan_code(cs@, st, i as int);
            }
            if i == 0 && starts_with_chars(&cs, 0, &shebang) {
                out.push(cs[i]);
                i += 1;
                assert(out@ + scan(cs@, st, 1, ScanMode::Shebang) =~= o + (seq![c] + scan(
                    cs@,
                    st,
                    1,
                    ScanMode::Shebang,
                )));
                while i < n && cs[i] != '\n'
                    invariant
                        n == cs@.len(),
                        1 <= i <= n,
                        out@ + scan(cs@, st, i as int, ScanMode::Shebang) == goal,
                    decreases n - i,
                {
                    proof {
                        lemma_scan_shebang(cs@, st, i as int);
                    }
                    let ghost o2 = out@;
                    out.push(cs[i]);
                    assert(out@ + scan(cs@, st, i + 1, ScanMode::Shebang) =~= o2 + (seq![cs@[i as int]]
                        + scan(cs@, st, i + 1, ScanMode::Shebang)));
                    i += 1;
                }
                proof {
                    if i < n {
                        lemma_scan_shebang(cs@, st, i as int);
                    } else {
                        lemma_scan_end(cs@, st, i as int, ScanMode::Shebang);
                        lemma_scan_end(cs@, st, i as int, ScanMode::Code);
                    }
                }
                continue;
            }
            let ghost start = i;
            i += 1;
            while i < n && cs[i] != '\n'
                invariant
                    n == cs@.len(),
                    start < i <= n,
                    out@ + scan(cs@, st, i as int, ScanMode::LineComment) == goal,
                decreases n - i,
            {
                proof {
                    lemma_scan_line_comment(cs@, st, i as int);
                }
                i += 1;
            }
            proof {
                if i < n {
                    lemma_scan_line_comment(cs@, st, i as int);
                } else {
                    lemma_scan_end(cs@, st, i as int, ScanMode::LineComment);
                    lemma_scan_end(cs@, st, i as int, ScanMode::Code);
                }
            }
            continue;
        }
        proof {
            lemma_scan_code(cs@, st, i as int);
        }
        if c == '"' || c == '\'' || c == '`' {
            in_str = Some(c);
            out.push(c);
            assert(out@ + scan(cs@, st, i + 1, ScanMode::Quoted(c)) =~= o + (seq![c] + scan(
                cs@,
                st,
                i + 1,
                ScanMode::Quoted(c),
            )));
            i += 1;
            continue;
        }
        out.push(c);
        assert(out@ + scan(cs@, st, i + 1, ScanMode::Code) =~= o + (seq![c] + scan(
            cs@,
            st,
            i + 1,
            ScanMode::Code,
        )));
        i += 1;
    }
    proof {
        lemma_scan_end(
            cs@,
            st,
            i as int,
            match in_str {
                Some(q) => ScanMode::Quoted(q),
                None => ScanMode::Code,
            },
        );
    }
    string_from_chars(&out)
}


// ---------------------------------------------------------------------------
// JSON pruning
// ---------------------------------------------------------------------------

/// Limits for JSON pruning.
pub struct JsonOpts {
    pub max_depth: usize,
    pub max_array: usize,
    pub max_string: usize,
}

/// A string of more than `max` characters: its first `max` characters and
/// a note of how many were cut.
pub open spec fn cut_string(s: Seq<char>, max: nat) -> Seq<char> {
    s.take(max as int) + "…[+"@ + decimal((s.len() - max) as nat) + " chars]"@
}

/// `v` pruned with `depth` levels of containers left: strings over
/// `max_string` characters cut; arrays cut to `max_array` items plus a note
/// of how many more there were; a container with no depth left replaced by
/// a string that counts its items or keys.
pub open spec fn pruned(v: JsonView, depth: nat, o: JsonOpts) -> JsonView
    decreases v,
{
    match v {
        JsonView::String(s) => {
            if s.len() > o.max_string {
                JsonView::String(cut_string(s, o.max_string as nat))
            } else {
                v
            }
        },
        JsonView::Array(a) => {
            if depth == 0 {
                JsonView::String("[…"@ + decimal(a.len()) + " items]"@)
            } else {
                let kept = pruned_items(a, o.max_array as nat, (depth - 1) as nat, o);
                if a.len() > o.max_array {
                    JsonView::Array(
                        kept.push(
                            JsonView::String(
                                "…+"@ + decimal((a.len() - o.max_array) as nat) + " more items"@,
                            ),
                        ),
                    )
                } else {
                    JsonView::Array(kept)
                }
            }
        },
        JsonView::Object(m) => {
            if depth == 0 {
                JsonView::String("{…"@ + decimal(m.len()) + " keys}"@)
            } else {
                JsonView::Object(pruned_members(m, (depth - 1) as nat, o))
            }
        },
        _ => v,
    }
}

/// The first `n` items of `a`, each pruned.
pub open spec fn pruned_items(a: Seq<JsonView>, n: nat, depth: nat, o: JsonOpts) -> Seq<JsonView>
    decreases a,
{
    if a.len() == 0 || n == 0 {
        seq![]
    } else {
        seq![pruned(a[0], depth, o)] + pruned_items(a.drop_first(), (n - 1) as nat, depth, o)
    }
}

/// The members of an object, each value pruned.
pub open spec fn pruned_members(m: Seq<(Seq<char>, JsonView)>, depth: nat, o: JsonOpts) -> Seq<
    (Seq<char>, JsonView),
>
    decreases m,
{
    if m.len() == 0 {
        seq![]
    } else {
        seq![(m[0].0, pruned(m[0].1, depth, o))] + pruned_members(m.drop_first(), depth, o)
    }
}

pub proof fn lemma_array_view_len(a: Seq<Json>)
    ensures
        array_view(a).len() == a.len(),
    decreases a.len(),
{
    if a.len() > 0 {
        lemma_array_view_len(a.drop_first());
    }
}

pub proof fn lemma_array_view_index(a: Seq<Json>, i: int)
    requires
        0 <= i < a.len(),
    ensures
        array_view(a)[i] == a[i]@,
    decreases a.len(),
{
    lemma_array_view_len(a.drop_first());
    if i > 0 {
        lemma_array_view_index(a.drop_first(), i - 1);
    }
}

pub proof fn lemma_members_view_len(m: Seq<(String, Json)>)
    ensures
        members_view(m).len() == m.len(),
    decreases m.len(),
{
    if m.len() > 0 {
        lemma_members_view_len(m.drop_first());
    }
}

pub proof fn lemma_members_view_index(m: Seq<(String, Json)>, i: int)
    requires
        0 <= i < m.len(),
    ensures
        members_view(m)[i] == (m[i].0@, m[i].1@),
    decreases m.len(),
{
    lemma_members_view_len(m.drop_first());
    if i > 0 {
        lemma_members_view_index(m.drop_first(), i - 1);
    }
}

/// `pruned_items` over a prefix, item by item.
pub proof fn lemma_pruned_items_push(a: Seq<JsonView>, k: nat, depth: nat, o: JsonOpts)
    requires
        k < a.len(),
    ensures
        pruned_items(a, (k + 1) as nat, depth, o) == pruned_items(a, k, depth, o).push(
            pruned(a[k as int], depth, o),
        ),
    decreases k,
{
    if k > 0 {
        lemma_pruned_items_push(a.drop_first(), (k - 1) as nat, depth, o);
        assert(a.drop_first()[k - 1] == a[k as int]);
        assert((seq![pruned(a[0], depth, o)] + pruned_items(a.drop_first(), (k - 1) as nat, depth, o).push(
            pruned(a[k as int], depth, o),
        )) =~= (seq![pruned(a[0], depth, o)] + pruned_items(a.drop_first(), (k - 1) as nat, depth, o)).push(
            pruned(a[k as int], depth, o),
        ));
    } else {
        assert(pruned_items(a.drop_first(), 0, depth, o) == Seq::<JsonView>::empty());
        assert(pruned_items(a, 0, depth, o) == Seq::<JsonView>::empty());
        assert(seq![pruned(a[0], depth, o)] + Seq::<JsonView>::empty() =~= Seq::<JsonView>::empty().push(
            pruned(a[0], depth, o),
        ));
    }
}

/// `pruned_members` over a prefix, member by member.
pub proof fn lemma_pruned_members_push(m: Seq<(Seq<char>, JsonView)>, k: int, depth: nat, o: JsonOpts)
    requires
        0 <= k < m.len(),
    ensures
        pruned_members(m.take(k + 1), depth, o) == pruned_members(m.take(k), depth, o).push(
            (m[k].0, pruned(m[k].1, depth, o)),
        ),
    decreases k,
{
    if k > 0 {
        lemma_pruned_members_push(m.drop_first(), k - 1, depth, o);
        assert(m.take(k + 1).drop_first() =~= m.drop_first().take(k));
        assert(m.take(k).drop_first() =~= m.drop_first().take(k - 1));
        assert(m.take(k + 1)[0] == m[0]);
        assert(m.take(k)[0] == m[0]);
        assert((seq![(m[0].0, pruned(m[0].1, depth, o))] + pruned_members(m.drop_first().take(k - 1), depth, o).push(
            (m[k].0, pruned(m[k].1, depth, o)),
        )) =~= (seq![(m[0].0, pruned(m[0].1, depth, o))] + pruned_members(m.drop_first().take(k - 1), depth, o)).push(
            (m[k].0, pruned(m[k].1, depth, o)),
        ));
    } else {
        assert(m.take(1).drop_first() =~= Seq::<(Seq<char>, JsonView)>::empty());
        assert(m.take(0) =~= Seq::<(Seq<char>, JsonView)>::empty());
        assert(pruned_members(m.take(1).drop_first(), depth, o) =~= Seq::<(Seq<char>, JsonView)>::empty());
        assert(seq![(m[0].0, pruned(m[0].1, depth, o))] + Seq::<(Seq<char>, JsonView)>::empty() =~= Seq::<
            (Seq<char>, JsonView),
        >::empty().push((m[0].0, pruned(m[0].1, depth, o))));
    }
}

/// A string value holding `cs`.
fn json_string(cs: &Vec<char>) -> (r: Json)
    ensures
        r@ == JsonView::String(cs@),
{
    Json::String(string_from_chars(cs))
}

/// An independent copy of `v`.
#[verifier::loop_isolation(false)]
pub fn copy_json(v: &Json) -> (r: Json)
    ensures
        r@ == v@,
    decreases v,
{
    match v {
        Json::Null => Json::Null,
        Json::Bool(b) => Json::Bool(*b),
        Json::Number(n) => Json::Number(n.clone()),
        Json::String(s) => Json::String(s.clone()),
        Json::Array(a) => {
            let mut out: Vec<Json> = Vec::new();
            let mut k: usize = 0;
            while k < a.len()
                invariant
                    k <= a@.len(),
                    array_view(out@) == array_view(a@.take(k as int)),
                decreases a@.len() - k,
            {
                let c = copy_json(&a[k]);
                proof {
                    lemma_array_view_push(out@, c);
                    lemma_array_view_push(a@.take(k as int), a@[k as int]);
                    assert(a@.take(k + 1) == a@.take(k as int).push(a@[k as int]));
                }
                out.push(c);
                k = k + 1;
            }
            assert(a@.take(k as int) == a@);
            Json::Array(out)
        },
        Json::Object(m) => {
            let mut out: Vec<(String, Json)> = Vec::new();
            let mut k: usize = 0;
            while k < m.len()
                invariant
                    k <= m@.len(),
                    members_view(out@) == members_view(m@.take(k as int)),
                decreases m@.len() - k,
            {
                let c = copy_json(&m[k].1);
                let key = m[k].0.clone();
                proof {
                    lemma_members_view_push(out@, (key, c));
                    lemma_members_view_push(m@.take(k as int), m@[k as int]);
                    assert(m@.take(k + 1) == m@.take(k as int).push(m@[k as int]));
                }
                out.push((key, c));
                k = k + 1;
            }
            assert(m@.take(k as int) == m@);
            Json::Object(out)
        },
    }
}

pub proof fn lemma_array_view_push(a: Seq<Json>, x: Json)
    ensures
        array_view(a.push(x)) == array_view(a).push(x@),
    decreases a.len(),
{
    if a.len() == 0 {
        assert(a.push(x).drop_first() =~= Seq::<Json>::empty());
        assert(a.push(x)[0] == x);
        assert(array_view(Seq::<Json>::empty()) == Seq::<JsonView>::empty());
        assert(array_view(a) == Seq::<JsonView>::empty());
        assert(array_view(a.push(x)) =~= seq![x@]);
    } else {
        lemma_array_view_push(a.drop_first(), x);
        assert(a.push(x).drop_first() =~= a.drop_first().push(x));
        assert(array_view(a.push(x)) =~= array_view(a).push(x@));
    }
}

pub proof fn lemma_members_view_push(m: Seq<(String, Json)>, x: (String, Json))
    ensures
        members_view(m.push(x)) == members_view(m).push((x.0@, x.1@)),
    decreases m.len(),
{
    if m.len() == 0 {
        assert(m.push(x).drop_first() =~= Seq::<(String, Json)>::empty());
        assert(m.push(x)[0] == x);
        assert(members_view(Seq::<(String, Json)>::empty()) == Seq::<(Seq<char>, JsonView)>::empty());
        assert(members_view(m) == Seq::<(Seq<char>, JsonView)>::empty());
        assert(members_view(m.push(x)) =~= seq![(x.0@, x.1@)]);
    } else {
        lemma_members_view_push(m.drop_first(), x);
        assert(m.push(x).drop_first() =~= m.drop_first().push(x));
        assert(members_view(m.push(x)) =~= members_view(m).push((x.0@, x.1@)));
    }
}

/// Prunes a JSON value for display: limits nesting to `depth` levels of
/// containers, keeps the first `max_array` items of each array and the first
/// `max_string` characters of each string, noting what was left out.
#[verifier::loop_isolation(false)]
pub fn prune_json(v: &Json, depth: usize, o: &JsonOpts) -> (r: Json)
    ensures
        r@ == pruned(v@, depth as nat, *o),
    decreases v,
{
    match v {
        Json::String(s) => {
            let cs = chars_of(s.as_str());
            let len = cs.len();
            if len > o.max_string {
                let mut out: Vec<char> = Vec::new();
                let mut k: usize = 0;
                while k < o.max_string
                    invariant
                        k <= o.max_string < len == cs@.len(),
                        out@ == cs@.take(k as int),
                    decreases o.max_string - k,
                {
                    out.push(cs[k]);
                    k = k + 1;
                    assert(cs@.take(k as int) == cs@.take(k - 1).push(cs@[k - 1]));
                }
                push_str(&mut out, "…[+");
                push_decimal(&mut out, (len - o.max_string) as u128);
                push_str(&mut out, " chars]");
                assert(out@ =~= cut_string(s@, o.max_string as nat));
                json_string(&out)
            } else {
                copy_json(v)
            }
        },
        Json::Array(a) => {
            proof {
                lemma_array_view_len(a@);
            }
            if depth == 0 {
                let mut out: Vec<char> = Vec::new();
                push_str(&mut out, "[…");
                push_decimal(&mut out, a.len() as u128);
                push_str(&mut out, " items]");
                return json_string(&out);
            }
            let ghost av = array_view(a@);
            let mut out: Vec<Json> = Vec::new();
            let mut k: usize = 0;
            while k < a.len() && k < o.max_array
                invariant
                    k <= a@.len(),
                    k <= o.max_array,
                    av == array_view(a@),
                    av.len() == a@.len(),
                    depth > 0,
                    array_view(out@) == pruned_items(av, k as nat, (depth - 1) as nat, *o),
                decreases a@.len() - k,
            {
                proof {
                    lemma_array_view_index(a@, k as int);
                    lemma_pruned_items_push(av, k as nat, (depth - 1) as nat, *o);
                }
                let p = prune_json(&a[k], depth - 1, o);
                proof {
                    lemma_array_view_push(out@, p);
                }
                out.push(p);
                k = k + 1;
            }
            proof {
                lemma_pruned_items_full(av, k as nat, o.max_array as nat, (depth - 1) as nat, *o);
            }
            if a.len() > o.max_array {
                let mut note: Vec<char> = Vec::new();
                push_str(&mut note, "…+");
                push_decimal(&mut note, (a.len() - o.max_array) as u128);
                push_str(&mut note, " more items");
                let extra = json_string(&note);
                proof {
                    lemma_array_view_push(out@, extra);
                }
                out.push(extra);
            }
            Json::Array(out)
        },
        Json::Object(m) => {
            proof {
                lemma_members_view_len(m@);
            }
            if depth == 0 {
                let mut out: Vec<char> = Vec::new();
                push_str(&mut out, "{…");
                push_decimal(&mut out, m.len() as u128);
                push_str(&mut out, " keys}");
                return json_string(&out);
            }
            let ghost mv = members_view(m@);
            let mut out: Vec<(String, Json)> = Vec::new();
            let mut k: usize = 0;
            assert(mv.take(0) =~= Seq::<(Seq<char>, JsonView)>::empty());
            while k < m.len()
                invariant
                    k <= m@.len(),
                    mv == members_view(m@),
                    mv.len() == m@.len(),
                    depth > 0,
                    members_view(out@) == pruned_members(mv.take(k as int), (depth - 1) as nat, *o),
                decreases m@.len() - k,
            {
                proof {
                    lemma_members_view_index(m@, k as int);
                    lemma_pruned_members_push(mv, k as int, (depth - 1) as nat, *o);
                }
                let p = prune_json(&m[k].1, depth - 1, o);
                let key = m[k].0.clone();
                proof {
                    lemma_members_view_push(out@, (key, p));
                }
                out.push((key, p));
                k = k + 1;
            }
            assert(mv.take(k as int) == mv);
            Json::Object(out)
        },
        _ => copy_json(v),
    }
}

/// Taking more items than `k` when `k` already covers the array changes nothing.
pub proof fn lemma_pruned_items_full(a: Seq<JsonView>, k: nat, n: nat, depth: nat, o: JsonOpts)
    requires
        k <= a.len(),
        k <= n,
        k == a.len() || k == n,
    ensures
        pruned_items(a, k, depth, o) == pruned_items(a, n, depth, o),
    decreases a.len(),
{
    if a.len() > 0 && k > 0 {
        lemma_pruned_items_full(a.drop_first(), (k - 1) as nat, (n - 1) as nat, depth, o);
    } else if k == 0 && a.len() > 0 {
        assert(n == 0);
    }
}


// ---------------------------------------------------------------------------
// Blank lines, repeated lines, inner whitespace
// ---------------------------------------------------------------------------

/// The lines of `src` with trailing whitespace trimmed.
pub open spec fn trimmed_lines(src: Seq<char>) -> Seq<Seq<char>> {
    lines(src).map_values(|l: Seq<char>| trim_end(l))
}

/// Line `i` of `t` survives blank collapsing: it has text, or it is the
/// first blank line after a line with text.
pub open spec fn blank_kept(t: Seq<Seq<char>>, i: int) -> bool {
    t[i].len() > 0 || (i > 0 && t[i - 1].len() > 0)
}

/// The lines among the first `k` of `t` that survive blank collapsing.
pub open spec fn kept_lines(t: Seq<Seq<char>>, k: int) -> Seq<Seq<char>>
    decreases k,
{
    if k <= 0 {
        seq![]
    } else if blank_kept(t, k - 1) {
        kept_lines(t, k - 1).push(t[k - 1])
    } else {
        kept_lines(t, k - 1)
    }
}

/// `ls` without its trailing empty lines.
pub open spec fn drop_trailing_empty(ls: Seq<Seq<char>>) -> Seq<Seq<char>>
    decreases ls.len(),
{
    if ls.len() > 0 && ls.last().len() == 0 {
        drop_trailing_empty(ls.drop_last())
    } else {
        ls
    }
}

/// `src` with trailing whitespace trimmed from each line, each run of blank
/// lines reduced to one, and no blank line at the start or the end.
pub open spec fn blank_collapsed(src: Seq<char>) -> Seq<char> {
    let t = trimmed_lines(src);
    join_lines(drop_trailing_empty(kept_lines(t, t.len() as int)))
}

/// Trims trailing whitespace and collapses runs of blank lines to one.
pub fn collapse_blank(src: &str) -> (r: String)
    ensures
        r@ == blank_collapsed(src@),
{
    let ls = lines_of(src);
    let ghost t = trimmed_lines(src@);
    let n = ls.len();
    let mut out: Vec<Vec<char>> = Vec::new();
    let mut blank_run: usize = 0;
    let mut i: usize = 0;
    while i < n
        invariant
            n == ls@.len(),
            views(ls@) == lines(src@),
            t == trimmed_lines(src@),
            t.len() == n,
            i <= n,
            blank_run <= i,
            views(out@) == kept_lines(t, i as int),
            (blank_run == 0) == (i == 0 || t[i - 1].len() > 0),
            (i > 0 && t[i - 1].len() > 0) ==> out@.len() > 0,
        decreases n - i,
    {
        let line = trim_end_chars(&ls[i]);
        assert(line@ == t[i as int]);
        let ghost prev = out@;
        if line.len() == 0 {
            blank_run += 1;
            if blank_run <= 1 && out.len() > 0 {
                assert(t[i as int] =~= Seq::<char>::empty());
                let e: Vec<char> = Vec::new();
                assert(e@ =~= Seq::<char>::empty());
                out.push(e);
                assert(views(out@) =~= views(prev).push(t[i as int]));
            }
        } else {
            blank_run = 0;
            out.push(line);
            assert(views(out@) =~= views(prev).push(t[i as int]));
        }
        i += 1;
    }
    while out.len() > 0 && out[out.len() - 1].len() == 0
        invariant
            drop_trailing_empty(views(out@)) == drop_trailing_empty(kept_lines(t, t.len() as int)),
        decreases out@.len(),
    {
        let ghost prev = out@;
        out.pop();
        assert(views(out@) =~= views(prev).drop_last());
    }
    let joined = join_chars(&out);
    string_from_chars(&joined)
}

/// Where the run of lines equal to `ls[i]` ends, looking from `j` on.
pub open spec fn run_end(ls: Seq<Seq<char>>, i: int, j: int) -> int
    decreases ls.len() - j,
{
    if j < 0 || j >= ls.len() || ls[j] != ls[i] {
        j
    } else {
        run_end(ls, i, j + 1)
    }
}

pub proof fn lemma_run_end(ls: Seq<Seq<char>>, i: int, j: int)
    requires
        0 <= j,
    ensures
        j <= run_end(ls, i, j),
        j <= ls.len() ==> run_end(ls, i, j) <= ls.len(),
        forall|k: int| j <= k < run_end(ls, i, j) ==> ls[k] == ls[i],
    decreases ls.len() - j,
{
    if j < ls.len() && ls[j] == ls[i] {
        lemma_run_end(ls, i, j + 1);
    }
}

/// The line standing for a folded run of `n` equal lines.
pub open spec fn repeat_note(n: nat) -> Seq<char> {
    "… (same line ×"@ + decimal(n) + ")"@
}

/// The lines of `ls` from `i` on, each run of three or more equal lines with
/// text kept twice and followed by a note of its length.
pub open spec fn deduped(ls: Seq<Seq<char>>, i: int) -> Seq<Seq<char>>
    decreases ls.len() - i,
{
    if i < 0 || i >= ls.len() {
        seq![]
    } else {
        let j = run_end(ls, i, i + 1);
        proof {
            lemma_run_end(ls, i, i + 1);
        }
        (if j - i >= 3 && !all_ws(ls[i]) {
            seq![ls[i], ls[i], repeat_note((j - i) as nat)]
        } else {
            ls.subrange(i, j)
        }) + deduped(ls, j)
    }
}

/// Folds runs of three or more identical non-blank lines into two copies
/// of the line and a `… (same line ×N)` note.
pub fn dedupe_lines(src: &str) -> (r: String)
    ensures
        r@ == join_lines(deduped(lines(src@), 0)),
{
    let ls = lines_of(src);
    let ghost lv = lines(src@);
    let n = ls.len();
    let mut out: Vec<Vec<char>> = Vec::new();
    let mut i: usize = 0;
    while i < n
        invariant
            n == ls@.len(),
            views(ls@) == lv,
            lv == lines(src@),
            i <= n,
            views(out@) + deduped(lv, i as int) == deduped(lv, 0),
        decreases n - i,
    {
        let mut j = i + 1;
        while j < n && chars_eq(&ls[j], &ls[i])
            invariant
                n == ls@.len(),
                views(ls@) == lv,
                i < j <= n,
                run_end(lv, i as int, i + 1) == run_end(lv, i as int, j as int),
            decreases n - j,
        {
            assert(lv[j as int] == ls@[j as int]@);
            assert(lv[i as int] == ls@[i as int]@);
            j += 1;
        }
        proof {
            if j < n {
                assert(lv[j as int] == ls@[j as int]@);
                assert(lv[i as int] == ls@[i as int]@);
            }
            lemma_run_end(lv, i as int, i + 1);
        }
        let run = j - i;
        let ghost prev = views(out@);
        if run >= 3 && !is_all_ws(&ls[i]) {
            let first = copy_range(&ls[i], 0, ls[i].len());
            assert(first@ =~= lv[i as int]);
            out.push(first);
            let second = copy_range(&ls[i], 0, ls[i].len());
            assert(second@ =~= lv[i as int]);
            out.push(second);
            let mut note: Vec<char> = Vec::new();
            push_str(&mut note, "… (same line ×");
            push_decimal(&mut note, run as u128);
            push_str(&mut note, ")");
            assert(note@ =~= repeat_note(run as nat));
            out.push(note);
            assert(views(out@) =~= prev + seq![lv[i as int], lv[i as int], repeat_note(run as nat)]);
        } else {
            let mut k = i;
            while k < j
                invariant
                    n == ls@.len(),
                    views(ls@) == lv,
                    i <= k <= j <= n,
                    views(out@) == prev + lv.subrange(i as int, k as int),
                decreases j - k,
            {
                let ghost before = views(out@);
                let line = copy_range(&ls[k], 0, ls[k].len());
                assert(line@ =~= lv[k as int]);
                out.push(line);
                assert(views(out@) =~= before.push(lv[k as int]));
                assert(lv.subrange(i as int, k + 1) =~= lv.subrange(i as int, k as int).push(
                    lv[k as int],
                ));
                k += 1;
            }
        }
        assert(deduped(lv, i as int) == (if run >= 3 && !all_ws(lv[i as int]) {
            seq![lv[i as int], lv[i as int], repeat_note(run as nat)]
        } else {
            lv.subrange(i as int, j as int)
        }) + deduped(lv, j as int));
        assert(views(out@) + deduped(lv, j as int) =~= prev + deduped(lv, i as int));
        i = j;
    }
    assert(deduped(lv, n as int) == Seq::<Seq<char>>::empty());
    assert(views(out@) =~= deduped(lv, 0));
    let joined = join_chars(&out);
    string_from_chars(&joined)
}

/// A space or a tab.
pub open spec fn is_blank(c: char) -> bool {
    c == ' ' || c == '\t'
}

/// `s` with each run of spaces and tabs turned into one space; `prev` tells
/// whether a run is already open before `s`.
pub open spec fn squeezed(s: Seq<char>, prev: bool) -> Seq<char>
    decreases s.len(),
{
    if s.len() == 0 {
        seq![]
    } else if is_blank(s[0]) {
        (if prev {
            seq![]
        } else {
            seq![' ']
        }) + squeezed(s.drop_first(), true)
    } else {
        seq![s[0]] + squeezed(s.drop_first(), false)
    }
}

/// A line with its leading whitespace kept, its other runs of spaces and
/// tabs turned into single spaces, and its trailing whitespace removed.
pub open spec fn squeezed_line(l: Seq<char>) -> Seq<char> {
    let indent = (l.len() - trim_start(l).len()) as int;
    l.take(indent) + trim_end(squeezed(l.skip(indent), false))
}

pub proof fn lemma_trim_start_suffix(s: Seq<char>)
    ensures
        trim_start(s).len() <= s.len(),
        trim_start(s) == s.skip(s.len() - trim_start(s).len()),
    decreases s.len(),
{
    if s.len() > 0 && is_ws(s[0]) {
        lemma_trim_start_suffix(s.drop_first());
        assert(s.drop_first().skip(s.drop_first().len() - trim_start(s.drop_first()).len()) =~= s.skip(
            s.len() - trim_start(s).len(),
        ));
    } else {
        assert(s.skip(0) == s);
    }
}

fn squeeze_line(l: &Vec<char>) -> (r: Vec<char>)
    ensures
        r@ == squeezed_line(l@),
{
    let b = trim_start_len(l);
    proof {
        lemma_trim_start_suffix(l@);
        assert(l@.skip(b as int).len() == trim_start(l@).len());
    }
    let mut out = copy_range(l, 0, b);
    assert(out@ == l@.take(b as int));
    let mut rest: Vec<char> = Vec::new();
    let mut prev = false;
    let mut k = b;
    let ghost tail = l@.skip(b as int);
    assert(tail.skip(0) == tail);
    while k < l.len()
        invariant
            b <= k <= l@.len(),
            tail == l@.skip(b as int),
            rest@ + squeezed(l@.skip(k as int), prev) == squeezed(tail, false),
        decreases l@.len() - k,
    {
        let c = l[k];
        let ghost r0 = rest@;
        assert(l@.skip(k as int).drop_first() == l@.skip(k + 1));
        assert(l@.skip(k as int)[0] == c);
        if c == ' ' || c == '\t' {
            if !prev {
                rest.push(' ');
                assert(rest@ + squeezed(l@.skip(k + 1), true) =~= r0 + (seq![' '] + squeezed(l@.skip(k + 1), true)));
            } else {
                assert(rest@ + squeezed(l@.skip(k + 1), true) =~= r0 + (Seq::<char>::empty() + squeezed(l@.skip(k + 1), true)));
            }
            prev = true;
        } else {
            prev = false;
            rest.push(c);
            assert(rest@ + squeezed(l@.skip(k + 1), false) =~= r0 + (seq![c] + squeezed(l@.skip(k + 1), false)));
        }
        k += 1;
    }
    assert(l@.skip(k as int) =~= Seq::<char>::empty());
    assert(rest@ =~= squeezed(tail, false));
    let trimmed = trim_end_chars(&rest);
    let ghost o = out@;
    crate::text::push_all(&mut out, &trimmed);
    out
}

/// Squeezes runs of spaces and tabs inside each line to one space, keeping
/// leading indentation and dropping trailing whitespace.
pub fn collapse_inner_spaces(src: &str) -> (r: String)
    ensures
        r@ == join_lines(lines(src@).map_values(|l: Seq<char>| squeezed_line(l))),
{
    let ls = lines_of(src);
    let ghost lv = lines(src@);
    let mut out: Vec<Vec<char>> = Vec::new();
    let mut k: usize = 0;
    while k < ls.len()
        invariant
            k <= ls@.len(),
            views(ls@) == lv,
            views(out@) =~= lv.take(k as int).map_values(|l: Seq<char>| squeezed_line(l)),
        decreases ls@.len() - k,
    {
        let l = squeeze_line(&ls[k]);
        assert(lv[k as int] == ls@[k as int]@);
        let ghost before = views(out@);
        out.push(l);
        assert(views(out@) =~= before.push(l@));
        assert(lv.take(k + 1) =~= lv.take(k as int).push(lv[k as int]));
        k += 1;
    }
    assert(lv.take(k as int) == lv);
    let joined = join_chars(&out);
    string_from_chars(&joined)
}


// ---------------------------------------------------------------------------
// Outline
// ---------------------------------------------------------------------------

/// A line that declares a function, type, module or similar item.
pub const SIGNATURE_PATTERN: &'static str = r#"^\s*(?:(?:pub(?:\([^)]*\))?|export|default|public|private|protected|internal|package|static|async|abstract|final|sealed|override|open|extern(?:\s+"[^"]*")?|unsafe|inline|virtual|declare|partial|data|suspend)\s+)*(?:fn|func|function|def|class|interface|struct|enum|trait|impl|type|protocol|extension|module|namespace|object|record|macro_rules!)\b"#;

/// A line that binds an arrow function to a name.
pub const ARROW_PATTERN: &'static str = r"^\s*(?:export\s+)?(?:const|let|var)\s+[A-Za-z_$][\w$]*\s*(?::[^=]+)?=\s*(?:async\s*)?(?:\([^)]*\)|[A-Za-z_$][\w$]*)\s*=>";

/// A Markdown heading.
pub const HEADING_PATTERN: &'static str = r"^#{1,6}\s";

/// The answer when no line qualifies.
pub const NO_OUTLINE: &'static str = "(no signatures/headings found — try mode=slim)";

/// Lines longer than this are cut in an outline.
pub const OUTLINE_WIDTH: usize = 160;

/// `pattern` compiles and matches `line`.
pub open spec fn hits(pattern: Seq<char>, line: Seq<char>) -> bool {
    regex_error(pattern, false) is None && regex_matches(pattern, false, line)
}

/// Markdown extensions.
pub open spec fn is_markdown(ext: Seq<char>) -> bool {
    ext == "md"@ || ext == "mdx"@ || ext == "markdown"@
}

/// A line that belongs in the outline: a heading in Markdown, a signature
/// or an arrow-function binding elsewhere.
pub open spec fn outline_hit(line: Seq<char>, md: bool) -> bool {
    if md {
        hits(HEADING_PATTERN@, line)
    } else {
        hits(SIGNATURE_PATTERN@, line) || hits(ARROW_PATTERN@, line)
    }
}

/// A line as an outline shows it: trailing whitespace dropped, cut at 160
/// characters with `…` appended.
pub open spec fn outline_display(line: Seq<char>) -> Seq<char> {
    let d = trim_end(line);
    if d.len() > 160 {
        d.take(160).push('…')
    } else {
        d
    }
}

/// The outline entries of the first `k` lines: `L<number>: <line>`.
pub open spec fn outline_entries(ls: Seq<Seq<char>>, md: bool, k: int) -> Seq<Seq<char>>
    decreases k,
{
    if k <= 0 {
        seq![]
    } else if outline_hit(ls[k - 1], md) {
        outline_entries(ls, md, k - 1).push(
            seq!['L'] + decimal(k as nat) + seq![':', ' '] + outline_display(ls[k - 1]),
        )
    } else {
        outline_entries(ls, md, k - 1)
    }
}

/// The outline of `src`: its entries one per line, or a note that none was found.
pub open spec fn outline_of(src: Seq<char>, ext: Seq<char>) -> Seq<char> {
    let ls = lines(src);
    let e = outline_entries(ls, is_markdown(ext), ls.len() as int);
    if e.len() == 0 {
        NO_OUTLINE@
    } else {
        join_lines(e)
    }
}

fn matches_compiled(p: &Result<Pattern, String>, src: &str, line: &str) -> (r: bool)
    requires
        match p {
            Ok(q) => q@ == (src@, false) && regex_error(src@, false) is None,
            Err(e) => regex_error(src@, false) == Some(e@),
        },
    ensures
        r == hits(src@, line@),
{
    match p {
        Ok(q) => pattern_is_match(q, line),
        Err(_) => false,
    }
}

/// Lists the signature lines (or Markdown headings) of `src` with their
/// 1-based line numbers.
pub fn outline(src: &str, ext: &str) -> (r: String)
    ensures
        r@ == outline_of(src@, ext@),
{
    let is_md = str_eq(ext, "md") || str_eq(ext, "mdx") || str_eq(ext, "markdown");
    let sig = compile_pattern(SIGNATURE_PATTERN, false);
    let arrow = compile_pattern(ARROW_PATTERN, false);
    let heading = compile_pattern(HEADING_PATTERN, false);
    let ls = lines_of(src);
    let ghost lv = lines(src@);
    let mut out: Vec<Vec<char>> = Vec::new();
    let mut i: usize = 0;
    while i < ls.len()
        invariant
            i <= ls@.len(),
            views(ls@) == lv,
            lv == lines(src@),
            is_md == is_markdown(ext@),
            match sig {
                Ok(q) => q@ == (SIGNATURE_PATTERN@, false) && regex_error(SIGNATURE_PATTERN@, false) is None,
                Err(e) => regex_error(SIGNATURE_PATTERN@, false) == Some(e@),
            },
            match arrow {
                Ok(q) => q@ == (ARROW_PATTERN@, false) && regex_error(ARROW_PATTERN@, false) is None,
                Err(e) => regex_error(ARROW_PATTERN@, false) == Some(e@),
            },
            match heading {
                Ok(q) => q@ == (HEADING_PATTERN@, false) && regex_error(HEADING_PATTERN@, false) is None,
                Err(e) => regex_error(HEADING_PATTERN@, false) == Some(e@),
            },
            views(out@) == outline_entries(lv, is_md, i as int),
        decreases ls@.len() - i,
    {
        let text = string_from_chars(&ls[i]);
        assert(text@ == lv[i as int]);
        let hit = if is_md {
            matches_compiled(&heading, HEADING_PATTERN, text.as_str())
        } else {
            matches_compiled(&sig, SIGNATURE_PATTERN, text.as_str()) || matches_compiled(
                &arrow,
                ARROW_PATTERN,
                text.as_str(),
            )
        };
        let ghost before = views(out@);
        if hit {
            let disp = trim_end_chars(&ls[i]);
            let mut entry: Vec<char> = Vec::new();
            entry.push('L');
            push_decimal(&mut entry, (i as u128) + 1);
            entry.push(':');
            entry.push(' ');
            if disp.len() > OUTLINE_WIDTH {
                crate::text::push_range(&mut entry, &disp, 0, OUTLINE_WIDTH);
                entry.push('…');
            } else {
                crate::text::push_all(&mut entry, &disp);
            }
            assert(entry@ =~= seq!['L'] + decimal((i + 1) as nat) + seq![':', ' '] + outline_display(
                lv[i as int],
            ));
            out.push(entry);
            assert(views(out@) =~= before.push(entry@));
        }
        i += 1;
    }
    assert(lv.len() == ls@.len());
    if out.len() == 0 {
        return String::from_str(NO_OUTLINE);
    }
    let joined = join_chars(&out);
    string_from_chars(&joined)
}

} // verus!
