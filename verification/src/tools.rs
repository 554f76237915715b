//! The computations behind the server's tools: file-name handling, size
//! labels, the reports each tool answers with, search and directory maps.

use vstd::prelude::*;
use crate::slim::{
    blank_collapsed, collapse_blank, collapse_inner_spaces, dedupe_lines, deduped, outline,
    outline_of, squeezed_line, strip_comments, stripped, JsonOpts,
};
use crate::search::{compile_pattern, escaped, pattern_is_match, regex_error, regex_escape, regex_matches, Pattern};
use crate::text::{
    trim, trim_chars, chars_of, copy_range, decimal, digit, digit_char, join_chars, join_lines, lines, lines_of,
    lowercase, push_all, push_decimal, push_joined, push_str, str_eq, str_in, string_from_chars,
    to_lowercase, views,
};
use crate::tokens::{
    ascii_count, capped, count_ascii, estimate, estimate_chars, estimate_tokens, saved_label,
    saved_pct, truncate_tokens,
};

verus! {

// ---------------------------------------------------------------------------
// Paths
// ---------------------------------------------------------------------------

/// Splitting `s` at each `sep`: the pieces already closed, and the open one.
pub open spec fn split_scan(s: Seq<char>, sep: char) -> (Seq<Seq<char>>, Seq<char>)
    decreases s.len(),
{
    if s.len() == 0 {
        (seq![], seq![])
    } else {
        let (done, cur) = split_scan(s.drop_last(), sep);
        if s.last() == sep {
            (done.push(cur), seq![])
        } else {
            (done, cur.push(s.last()))
        }
    }
}

/// The pieces of `s` between occurrences of `sep`, as `str::split` gives them.
pub open spec fn split_on(s: Seq<char>, sep: char) -> Seq<Seq<char>> {
    let (done, cur) = split_scan(s, sep);
    done.push(cur)
}

/// The path components among the first `k` pieces: empty pieces and `.` are not components.
pub open spec fn components(pieces: Seq<Seq<char>>, k: int) -> Seq<Seq<char>>
    decreases k,
{
    if k <= 0 {
        seq![]
    } else if pieces[k - 1].len() == 0 || pieces[k - 1] == seq!['.'] {
        components(pieces, k - 1)
    } else {
        components(pieces, k - 1).push(pieces[k - 1])
    }
}

/// The final component of a path, unless it is `..` or there is none (`Path::file_name`).
pub open spec fn file_name(path: Seq<char>) -> Option<Seq<char>> {
    let pieces = split_on(path, '/');
    let cs = components(pieces, pieces.len() as int);
    if cs.len() == 0 || cs.last() == seq!['.', '.'] {
        None
    } else {
        Some(cs.last())
    }
}

/// The position of the last `.` in the first `k` characters of `s`.
pub open spec fn last_dot(s: Seq<char>, k: int) -> Option<int>
    decreases k,
{
    if k <= 0 {
        None
    } else if s[k - 1] == '.' {
        Some(k - 1)
    } else {
        last_dot(s, k - 1)
    }
}

/// The text after the last `.` of a file name that has something before that dot
/// (`Path::extension`).
pub open spec fn extension(path: Seq<char>) -> Option<Seq<char>> {
    match file_name(path) {
        Some(name) => match last_dot(name, name.len() as int) {
            Some(d) => if d == 0 {
                None
            } else {
                Some(name.skip(d + 1))
            },
            None => None,
        },
        None => None,
    }
}

/// The lower-cased extension of `path`, empty when it has none.
pub open spec fn ext_key(path: Seq<char>) -> Seq<char> {
    match extension(path) {
        Some(e) => lowercase(e),
        None => seq![],
    }
}

fn split_chars(s: &Vec<char>, sep: char) -> (r: Vec<Vec<char>>)
    ensures
        crate::text::views(r@) == split_on(s@, sep),
{
    let mut done: Vec<Vec<char>> = Vec::new();
    let mut cur: Vec<char> = Vec::new();
    let mut i: usize = 0;
    while i < s.len()
        invariant
            i <= s@.len(),
            (crate::text::views(done@), cur@) == split_scan(s@.take(i as int), sep),
        decreases s@.len() - i,
    {
        assert(s@.take(i + 1).drop_last() == s@.take(i as int));
        let c = s[i];
        if c == sep {
            let ghost before = crate::text::views(done@);
            let ghost c0 = cur@;
            done.push(cur);
            assert(crate::text::views(done@) =~= before.push(c0));
            cur = Vec::new();
        } else {
            cur.push(c);
        }
        i = i + 1;
    }
    assert(s@.take(i as int) == s@);
    let ghost before = crate::text::views(done@);
    let ghost c0 = cur@;
    done.push(cur);
    assert(crate::text::views(done@) =~= before.push(c0));
    done
}

/// The extension of a file path, lower-cased; empty when there is none.
pub fn ext_of(path: &str) -> (r: String)
    ensures
        r@ == ext_key(path@),
{
    let cs = chars_of(path);
    let pieces = split_chars(&cs, '/');
    let ghost pv = crate::text::views(pieces@);
    let mut comps: Vec<Vec<char>> = Vec::new();
    let mut k: usize = 0;
    while k < pieces.len()
        invariant
            k <= pieces@.len(),
            pv == crate::text::views(pieces@),
            pv == split_on(path@, '/'),
            crate::text::views(comps@) == components(pv, k as int),
        decreases pieces@.len() - k,
    {
        assert(pv[k as int] == pieces@[k as int]@);
        let p = &pieces[k];
        let is_dot = p.len() == 1 && p[0] == '.';
        assert(is_dot == (p@ == seq!['.'])) by {
            if p@.len() == 1 && p@[0] == '.' {
                assert(p@ =~= seq!['.']);
            }
        }
        if p.len() != 0 && !is_dot {
            let ghost before = crate::text::views(comps@);
            let c = copy_range(p, 0, p.len());
            assert(c@ =~= p@);
            comps.push(c);
            assert(crate::text::views(comps@) =~= before.push(pv[k as int]));
        }
        k = k + 1;
    }
    if comps.len() == 0 {
        return String::new();
    }
    let last = &comps[comps.len() - 1];
    assert(last@ == crate::text::views(comps@).last());
    let is_parent = last.len() == 2 && last[0] == '.' && last[1] == '.';
    assert(is_parent == (last@ == seq!['.', '.'])) by {
        if last@.len() == 2 && last@[0] == '.' && last@[1] == '.' {
            assert(last@ =~= seq!['.', '.']);
        }
    }
    if is_parent {
        return String::new();
    }
    let mut d = last.len();
    while d > 0 && last[d - 1] != '.'
        invariant
            d <= last@.len(),
            last_dot(last@, last@.len() as int) == last_dot(last@, d as int),
        decreases d,
    {
        d = d - 1;
    }
    if d <= 1 {
        return String::new();
    }
    let e = copy_range(last, d, last.len());
    assert(e@ =~= last@.skip(d as int));
    let es = string_from_chars(&e);
    to_lowercase(es.as_str())
}

/// Directory names a tree walk never enters.
pub const SKIP_DIRS: [&'static str; 21] = [
    ".git", ".hg", ".svn", "node_modules", "target", "dist", "build", "out", ".next", ".nuxt",
    ".venv", "venv", "__pycache__", "vendor", ".idea", ".vscode", ".cache", "coverage",
    ".terraform", "Pods", "DerivedData",
];

/// A directory a walk skips: a build, vendor or tool directory, or any
/// hidden one (a name starting with `.`, other than `.` and `..`).
pub open spec fn skipped_dir(name: Seq<char>) -> bool {
    ||| exists|k: int| 0 <= k < SKIP_DIRS@.len() && name == (#[trigger] SKIP_DIRS@[k])@
    ||| (name.len() > 0 && name[0] == '.' && name != "."@ && name != ".."@)
}

/// Whether a directory walk skips a directory of this name.
pub fn should_skip_dir(name: &str) -> (r: bool)
    ensures
        r == skipped_dir(name@),
{
    let listed: &[&str] = &SKIP_DIRS;
    assert(listed@ == SKIP_DIRS@);
    if str_in(name, listed) {
        return true;
    }
    let cs = chars_of(name);
    cs.len() > 0 && cs[0] == '.' && !str_eq(name, ".") && !str_eq(name, "..")
}

// ---------------------------------------------------------------------------
// Sizes
// ---------------------------------------------------------------------------

/// `b / d` in tenths, rounded to nearest with ties to even.
pub open spec fn tenths(b: nat, d: nat) -> nat {
    let q = b * 10 / d;
    let r = b * 10 % d;
    if 2 * r > d || (2 * r == d && q % 2 == 1) {
        q + 1
    } else {
        q
    }
}

/// A count of tenths written with one decimal place.
pub open spec fn one_decimal(t: nat) -> Seq<char> {
    decimal(t / 10).push('.').push(digit(t % 10))
}

/// A byte count as a short label: bytes below 1 KiB, else KiB or MiB with
/// one decimal.
pub open spec fn size_label(b: nat) -> Seq<char> {
    if b < 1024 {
        decimal(b) + seq!['B']
    } else if b < 1024 * 1024 {
        one_decimal(tenths(b, 1024)) + seq!['K', 'B']
    } else {
        one_decimal(tenths(b, 1024 * 1024)) + seq!['M', 'B']
    }
}

fn push_one_decimal(out: &mut Vec<char>, b: u64, d: u64)
    requires
        d > 0,
    ensures
        final(out)@ == old(out)@ + one_decimal(tenths(b as nat, d as nat)),
{
    let q: u128 = (b as u128) * 10 / (d as u128);
    let r: u128 = (b as u128) * 10 % (d as u128);
    let t: u128 = if 2 * r > d as u128 || (2 * r == d as u128 && q % 2 == 1) {
        q + 1
    } else {
        q
    };
    assert(t == tenths(b as nat, d as nat));
    push_decimal(out, t / 10);
    out.push('.');
    out.push(digit_char((t % 10) as usize));
}

/// A human-readable size: `512B`, `1.5KB`, `2.0MB`.
pub fn human_size(bytes: u64) -> (r: String)
    ensures
        r@ == size_label(bytes as nat),
{
    let mut out: Vec<char> = Vec::new();
    if bytes < 1024 {
        push_decimal(&mut out, bytes as u128);
        out.push('B');
    } else if bytes < 1024 * 1024 {
        push_one_decimal(&mut out, bytes, 1024);
        out.push('K');
        out.push('B');
    } else {
        push_one_decimal(&mut out, bytes, 1024 * 1024);
        out.push('M');
        out.push('B');
    }
    assert(out@ =~= size_label(bytes as nat));
    string_from_chars(&out)
}


// ---------------------------------------------------------------------------
// Tool reports
// ---------------------------------------------------------------------------

/// The characters of an optional string.
pub open spec fn opt_chars(o: Option<&str>) -> Option<Seq<char>> {
    match o {
        Some(s) => Some(s@),
        None => None,
    }
}

/// The lines a 1-based `offset` (at least 1) and a `limit` select.
pub open spec fn line_window(ls: Seq<Seq<char>>, offset: Option<usize>, limit: Option<usize>) -> Seq<Seq<char>> {
    let off: int = match offset {
        Some(o) => if o < 1 {
            1
        } else {
            o as int
        },
        None => 1,
    };
    let lim: int = match limit {
        Some(l) => l as int,
        None => usize::MAX as int,
    };
    let start = if off - 1 < ls.len() {
        off - 1
    } else {
        ls.len() as int
    };
    let end = if start + lim < ls.len() {
        start + lim
    } else {
        ls.len() as int
    };
    ls.subrange(start, end)
}

/// The text `read_slim` works on: the selected lines when a range was
/// asked for, else all of it.
pub open spec fn read_window(text: Seq<char>, has_range: bool, offset: Option<usize>, limit: Option<usize>) -> Seq<char> {
    if has_range {
        join_lines(line_window(lines(text), offset, limit))
    } else {
        text
    }
}

/// `read_slim`'s mode, `slim` unless given.
pub open spec fn mode_name(mode: Option<Seq<char>>) -> Seq<char> {
    match mode {
        Some(m) => m,
        None => "slim"@,
    }
}

/// What `read_slim` makes of `work` in a mode: the outline, the raw text, or
/// the text with comments stripped (unless turned off) and blank lines collapsed.
pub open spec fn read_rendered(work: Seq<char>, mode: Seq<char>, strip: Option<bool>, ext: Seq<char>) -> Seq<char> {
    if mode == "outline"@ {
        outline_of(work, ext)
    } else if mode == "raw"@ {
        work
    } else {
        blank_collapsed(
            if strip != Some(false) {
                stripped(work, ext)
            } else {
                work
            },
        )
    }
}

/// ` [capped]` when the output was cut.
pub open spec fn capped_note(cut: bool) -> Seq<char> {
    if cut {
        " [capped]"@
    } else {
        seq![]
    }
}

/// The token figures of a report: `~before→~after tok (saving)`.
pub open spec fn token_figures(orig: nat, new: nat) -> Seq<char> {
    " ~"@ + decimal(orig) + "→~"@ + decimal(new) + " tok ("@ + saved_label(orig, new) + ")"@
}

/// The answer of `read_slim` for a file at `path` holding `text`.
pub open spec fn read_report(
    path: Seq<char>,
    text: Seq<char>,
    has_range: bool,
    offset: Option<usize>,
    limit: Option<usize>,
    mode: Option<Seq<char>>,
    strip: Option<bool>,
    cap: nat,
) -> Seq<char> {
    let m = mode_name(mode);
    let work = read_rendered(read_window(text, has_range, offset, limit), m, strip, ext_key(path));
    let (fin, cut) = capped(work, cap);
    "[token-slim] "@ + path + " mode="@ + m + " lines="@ + decimal(lines(text).len()) + token_figures(
        estimate(text),
        estimate(fin),
    ) + capped_note(cut) + "\n"@ + fin
}

fn push_figures(out: &mut Vec<char>, orig: usize, new: usize)
    ensures
        final(out)@ == old(out)@ + token_figures(orig as nat, new as nat),
{
    push_str(out, " ~");
    push_decimal(out, orig as u128);
    push_str(out, "→~");
    push_decimal(out, new as u128);
    push_str(out, " tok (");
    let pct = saved_pct(orig, new);
    push_str(out, pct.as_str());
    push_str(out, ")");
    assert(final(out)@ =~= old(out)@ + token_figures(orig as nat, new as nat));
}

fn push_capped_note(out: &mut Vec<char>, cut: bool)
    ensures
        final(out)@ == old(out)@ + capped_note(cut),
{
    if cut {
        push_str(out, " [capped]");
    } else {
        assert(old(out)@ + capped_note(cut) =~= old(out)@);
    }
}

/// `read_slim` on a file already read: selects the line range, applies the
/// mode, caps the result at `cap` tokens and heads it with the token figures.
pub fn read_slim_report(
    path: &str,
    text: &str,
    has_range: bool,
    offset: Option<usize>,
    limit: Option<usize>,
    mode: Option<&str>,
    strip: Option<bool>,
    cap: usize,
) -> (r: String)
    ensures
        r@ == read_report(path@, text@, has_range, offset, limit, opt_chars(mode), strip, cap as nat),
{
    let orig_tok = estimate_tokens(text);
    let ls = lines_of(text);
    let ghost lv = lines(text@);
    let total_lines = ls.len();
    let work: String = if has_range {
        let off: usize = match offset {
            Some(o) => if o < 1 {
                1
            } else {
                o
            },
            None => 1,
        };
        let lim: usize = match limit {
            Some(l) => l,
            None => usize::MAX,
        };
        let start = if off - 1 < ls.len() {
            off - 1
        } else {
            ls.len()
        };
        let end = if lim < ls.len() - start {
            start + lim
        } else {
            ls.len()
        };
        let mut w: Vec<char> = Vec::new();
        push_joined(&mut w, &ls, start, end);
        assert(w@ =~= read_window(text@, has_range, offset, limit));
        string_from_chars(&w)
    } else {
        String::from_str(text)
    };
    let m: &str = match mode {
        Some(m) => m,
        None => "slim",
    };
    let ext = ext_of(path);
    let rendered: String = if str_eq(m, "outline") {
        outline(work.as_str(), ext.as_str())
    } else if str_eq(m, "raw") {
        work
    } else {
        let strip_it = match strip {
            Some(b) => b,
            None => true,
        };
        if strip_it {
            let t = strip_comments(work.as_str(), ext.as_str());
            collapse_blank(t.as_str())
        } else {
            collapse_blank(work.as_str())
        }
    };
    let (fin, cut) = truncate_tokens(rendered.as_str(), cap);
    let new_tok = estimate_tokens(fin.as_str());
    let mut out: Vec<char> = Vec::new();
    push_str(&mut out, "[token-slim] ");
    push_str(&mut out, path);
    push_str(&mut out, " mode=");
    push_str(&mut out, m);
    push_str(&mut out, " lines=");
    push_decimal(&mut out, total_lines as u128);
    push_figures(&mut out, orig_tok, new_tok);
    push_capped_note(&mut out, cut);
    push_str(&mut out, "\n");
    push_str(&mut out, fin.as_str());
    assert(out@ =~= read_report(path@, text@, has_range, offset, limit, opt_chars(mode), strip, cap as nat));
    string_from_chars(&out)
}

/// `text_slim`'s level, `normal` unless given.
pub open spec fn level_name(level: Option<Seq<char>>) -> Seq<char> {
    match level {
        Some(l) => l,
        None => "normal"@,
    }
}

/// The text `text_slim` produces before capping: blank lines collapsed, and
/// at the aggressive level inner whitespace squeezed and repeats folded.
pub open spec fn text_work(text: Seq<char>, level: Seq<char>) -> Seq<char> {
    let w = blank_collapsed(text);
    if level == "aggressive"@ {
        let sq = join_lines(lines(w).map_values(|l: Seq<char>| squeezed_line(l)));
        join_lines(deduped(lines(sq), 0))
    } else {
        w
    }
}

/// The answer of `text_slim`.
pub open spec fn text_report(text: Seq<char>, level: Option<Seq<char>>, cap: nat) -> Seq<char> {
    let l = level_name(level);
    let (fin, cut) = capped(text_work(text, l), cap);
    "[token-slim] text level="@ + l + token_figures(estimate(text), estimate(fin)) + capped_note(cut)
        + "\n"@ + fin
}

/// `text_slim`: compresses `text` at the given level, caps it at `cap` tokens
/// and heads it with the token figures.
pub fn text_slim_report(text: &str, level: Option<&str>, cap: usize) -> (r: String)
    ensures
        r@ == text_report(text@, opt_chars(level), cap as nat),
{
    let orig_tok = estimate_tokens(text);
    let l: &str = match level {
        Some(l) => l,
        None => "normal",
    };
    let mut work = collapse_blank(text);
    if str_eq(l, "aggressive") {
        work = collapse_inner_spaces(work.as_str());
        work = dedupe_lines(work.as_str());
    }
    let (fin, cut) = truncate_tokens(work.as_str(), cap);
    let new_tok = estimate_tokens(fin.as_str());
    let mut out: Vec<char> = Vec::new();
    push_str(&mut out, "[token-slim] text level=");
    push_str(&mut out, l);
    push_figures(&mut out, orig_tok, new_tok);
    push_capped_note(&mut out, cut);
    push_str(&mut out, "\n");
    push_str(&mut out, fin.as_str());
    assert(out@ =~= text_report(text@, opt_chars(level), cap as nat));
    string_from_chars(&out)
}

/// The answer of `json_slim`: the limits, the token figures from the input
/// text to the pruned output, then the output.
pub open spec fn json_report(o: JsonOpts, text: Seq<char>, out: Seq<char>) -> Seq<char> {
    "[token-slim] json depth≤"@ + decimal(o.max_depth as nat) + " array≤"@ + decimal(
        o.max_array as nat,
    ) + " string≤"@ + decimal(o.max_string as nat) + token_figures(estimate(text), estimate(out))
        + "\n"@ + out
}

/// `json_slim`'s answer for an input `text` that pruned to the compact JSON `out`.
pub fn json_slim_report(o: &JsonOpts, text: &str, out: &str) -> (r: String)
    ensures
        r@ == json_report(*o, text@, out@),
{
    let orig_tok = estimate_tokens(text);
    let new_tok = estimate_tokens(out);
    let mut v: Vec<char> = Vec::new();
    push_str(&mut v, "[token-slim] json depth≤");
    push_decimal(&mut v, o.max_depth as u128);
    push_str(&mut v, " array≤");
    push_decimal(&mut v, o.max_array as u128);
    push_str(&mut v, " string≤");
    push_decimal(&mut v, o.max_string as u128);
    push_figures(&mut v, orig_tok, new_tok);
    push_str(&mut v, "\n");
    push_str(&mut v, out);
    assert(v@ =~= json_report(*o, text@, out@));
    string_from_chars(&v)
}

/// The answer of `token_count`: the estimate with the counts behind it, and
/// token figures that show nothing removed, as the text is only counted.
pub open spec fn count_report(label: Seq<char>, text: Seq<char>) -> Seq<char> {
    "[token-slim] "@ + label + ": ≈"@ + decimal(estimate(text)) + " tokens (chars="@ + decimal(
        text.len(),
    ) + ", ascii="@ + decimal(ascii_count(text)) + ", non-ascii="@ + decimal(
        (text.len() - ascii_count(text)) as nat,
    ) + ", lines="@ + decimal(lines(text).len()) + ") heuristic ±20%"@ + token_figures(
        estimate(text),
        estimate(text),
    )
}

/// `token_count`: estimates the tokens of `text`, shown under `label`.
pub fn token_count_report(label: &str, text: &str) -> (r: String)
    ensures
        r@ == count_report(label@, text@),
{
    let cs = chars_of(text);
    let est = estimate_chars(&cs);
    let ascii = count_ascii(&cs);
    let nlines = crate::text::split_lines(&cs).len();
    let mut v: Vec<char> = Vec::new();
    push_str(&mut v, "[token-slim] ");
    push_str(&mut v, label);
    push_str(&mut v, ": ≈");
    push_decimal(&mut v, est as u128);
    push_str(&mut v, " tokens (chars=");
    push_decimal(&mut v, cs.len() as u128);
    push_str(&mut v, ", ascii=");
    push_decimal(&mut v, ascii as u128);
    push_str(&mut v, ", non-ascii=");
    push_decimal(&mut v, (cs.len() - ascii) as u128);
    push_str(&mut v, ", lines=");
    push_decimal(&mut v, nlines as u128);
    push_str(&mut v, ") heuristic ±20%");
    push_figures(&mut v, est, est);
    assert(v@ =~= count_report(label@, text@));
    string_from_chars(&v)
}


// ---------------------------------------------------------------------------
// Search
// ---------------------------------------------------------------------------

/// Files larger than this are not searched.
pub const MAX_GREP_FILE_BYTES: u64 = 2_000_000;

/// Files larger than this are not read.
pub const MAX_READ_FILE_BYTES: u64 = 10_000_000;

/// How many leading bytes are inspected for a NUL.
pub const BINARY_PROBE: usize = 4096;

/// The file holds a NUL byte among its first 4096 bytes.
pub open spec fn binary_bytes(raw: Seq<u8>) -> bool {
    exists|i: int| 0 <= i < raw.len() && i < 4096 && raw[i] == 0
}

/// Whether the bytes of a file look binary: a NUL among the first 4096.
pub fn looks_binary(raw: &[u8]) -> (r: bool)
    ensures
        r == binary_bytes(raw@),
{
    let mut i: usize = 0;
    while i < raw.len() && i < BINARY_PROBE
        invariant
            i <= raw@.len(),
            i <= 4096,
            forall|j: int| 0 <= j < i ==> raw@[j] != 0,
        decreases raw@.len() - i,
    {
        if raw[i] == 0 {
            return true;
        }
        i += 1;
    }
    false
}

/// Why a file cannot be read as text: too large, or binary.
pub open spec fn unreadable_reason(path: Seq<char>, raw: Seq<u8>) -> Option<Seq<char>> {
    if raw.len() > 10_000_000 {
        Some(path + ": file too large ("@ + decimal(raw.len()) + " bytes)"@)
    } else if binary_bytes(raw) {
        Some(path + ": binary file"@)
    } else {
        None
    }
}

/// The complaint about a file read from `path`, if it is too large or binary.
pub fn text_file_problem(path: &str, raw: &[u8]) -> (r: Option<String>)
    ensures
        match r {
            Some(m) => unreadable_reason(path@, raw@) == Some(m@),
            None => unreadable_reason(path@, raw@) is None,
        },
{
    let mut v: Vec<char> = Vec::new();
    if raw.len() as u64 > MAX_READ_FILE_BYTES {
        push_str(&mut v, path);
        push_str(&mut v, ": file too large (");
        push_decimal(&mut v, raw.len() as u128);
        push_str(&mut v, " bytes)");
        assert(v@ =~= path@ + ": file too large ("@ + decimal(raw@.len()) + " bytes)"@);
        return Some(string_from_chars(&v));
    }
    if looks_binary(raw) {
        push_str(&mut v, path);
        push_str(&mut v, ": binary file");
        assert(v@ =~= path@ + ": binary file"@);
        return Some(string_from_chars(&v));
    }
    None
}

/// `s` without leading dots (`trim_start_matches('.')`).
pub open spec fn trim_dots(s: Seq<char>) -> Seq<char>
    decreases s.len(),
{
    if s.len() > 0 && s[0] == '.' {
        trim_dots(s.drop_first())
    } else {
        s
    }
}

/// The extension filter given as a comma-separated list, its first `k`
/// pieces: each piece trimmed, stripped of leading dots and lower-cased;
/// empty pieces dropped.
pub open spec fn ext_list(pieces: Seq<Seq<char>>, k: int) -> Seq<Seq<char>>
    decreases k,
{
    if k <= 0 {
        seq![]
    } else {
        let e = lowercase(trim_dots(trim(pieces[k - 1])));
        if e.len() == 0 {
            ext_list(pieces, k - 1)
        } else {
            ext_list(pieces, k - 1).push(e)
        }
    }
}

/// The extensions a comma-separated filter names.
pub open spec fn ext_filter(e: Seq<char>) -> Seq<Seq<char>> {
    let pieces = split_on(e, ',');
    ext_list(pieces, pieces.len() as int)
}

fn parse_ext_filter(e: &str) -> (r: Vec<Vec<char>>)
    ensures
        views(r@) == ext_filter(e@),
{
    let cs = chars_of(e);
    let pieces = split_chars(&cs, ',');
    let ghost pv = views(pieces@);
    let mut out: Vec<Vec<char>> = Vec::new();
    let mut k: usize = 0;
    while k < pieces.len()
        invariant
            k <= pieces@.len(),
            pv == views(pieces@),
            pv == split_on(e@, ','),
            views(out@) == ext_list(pv, k as int),
        decreases pieces@.len() - k,
    {
        assert(pv[k as int] == pieces@[k as int]@);
        let t = trim_chars(&pieces[k]);
        let mut b: usize = 0;
        assert(t@.skip(0) == t@);
        while b < t.len() && t[b] == '.'
            invariant
                b <= t@.len(),
                trim_dots(t@.skip(b as int)) == trim_dots(t@),
            decreases t@.len() - b,
        {
            assert(t@.skip(b as int).drop_first() == t@.skip(b + 1));
            b += 1;
        }
        let d = copy_range(&t, b, t.len());
        assert(d@ == t@.skip(b as int));
        let ds = string_from_chars(&d);
        let low = to_lowercase(ds.as_str());
        let lc = chars_of(low.as_str());
        if lc.len() > 0 {
            let ghost before = views(out@);
            out.push(lc);
            assert(views(out@) =~= before.push(lowercase(trim_dots(trim(pv[k as int])))));
        }
        k += 1;
    }
    out
}

/// What a search stands at.
pub struct GrepView {
    pub pattern: (Seq<char>, bool),
    pub exts: Option<Seq<Seq<char>>>,
    pub max_results: nat,
    pub results: Seq<Seq<char>>,
    pub scanned: nat,
    pub seen_tokens: nat,
    pub capped: bool,
}

/// A search in progress: the compiled pattern, the extension filter, the
/// result cap, the `path:line:text` results so far, how many files were
/// searched, the estimated tokens of the files searched, and whether the cap
/// was reached.
pub struct Grep {
    pattern: Pattern,
    exts: Option<Vec<Vec<char>>>,
    max_results: usize,
    results: Vec<Vec<char>>,
    scanned: usize,
    seen: usize,
    capped: bool,
}

impl View for Grep {
    type V = GrepView;

    closed spec fn view(&self) -> GrepView {
        GrepView {
            pattern: self.pattern@,
            exts: match self.exts {
                Some(v) => Some(views(v@)),
                None => None,
            },
            max_results: self.max_results as nat,
            results: views(self.results@),
            scanned: self.scanned as nat,
            seen_tokens: self.seen as nat,
            capped: self.capped,
        }
    }
}

/// The regular expression searched for: the pattern itself, or its escaped
/// form when it is meant literally.
pub open spec fn grep_source(pattern: Seq<char>, literal: bool) -> Seq<char> {
    if literal {
        escaped(pattern)
    } else {
        pattern
    }
}

/// A matched line as a result shows it: trimmed, cut at 200 characters with `…`.
pub open spec fn grep_display(line: Seq<char>) -> Seq<char> {
    let d = trim(line);
    if d.len() > 200 {
        d.take(200).push('…')
    } else {
        d
    }
}

/// The results for the first `k` lines of a file shown as `rel`: one
/// `rel:line:text` entry per matching line.
pub open spec fn file_hits(p: (Seq<char>, bool), rel: Seq<char>, ls: Seq<Seq<char>>, k: int) -> Seq<Seq<char>>
    decreases k,
{
    if k <= 0 {
        seq![]
    } else if regex_matches(p.0, p.1, ls[k - 1]) {
        file_hits(p, rel, ls, k - 1).push(
            rel + seq![':'] + decimal(k as nat) + seq![':'] + grep_display(ls[k - 1]),
        )
    } else {
        file_hits(p, rel, ls, k - 1)
    }
}

pub proof fn lemma_file_hits_prefix(p: (Seq<char>, bool), rel: Seq<char>, ls: Seq<Seq<char>>, k: int, n: int)
    requires
        0 <= k <= n,
    ensures
        file_hits(p, rel, ls, k).len() <= file_hits(p, rel, ls, n).len(),
        file_hits(p, rel, ls, n).take(file_hits(p, rel, ls, k).len() as int) == file_hits(p, rel, ls, k),
    decreases n - k,
{
    if k < n {
        lemma_file_hits_prefix(p, rel, ls, k, n - 1);
        let a = file_hits(p, rel, ls, n - 1);
        let b = file_hits(p, rel, ls, n);
        let c = file_hits(p, rel, ls, k);
        if b.len() > a.len() {
            assert(b.take(c.len() as int) =~= a.take(c.len() as int));
        }
    } else {
        assert(file_hits(p, rel, ls, n).take(file_hits(p, rel, ls, n).len() as int) =~= file_hits(p, rel, ls, n));
    }
}

/// How many more results fit under the cap.
pub open spec fn room(len: nat, max: nat) -> nat {
    if max > len {
        (max - len) as nat
    } else {
        0
    }
}

/// Two token counts added, held at `usize::MAX` when the sum is larger.
pub open spec fn token_sum(a: nat, b: nat) -> nat {
    if a + b > usize::MAX {
        usize::MAX as nat
    } else {
        a + b
    }
}

/// A search after searching a file shown as `rel` with contents `content`.
pub open spec fn after_file(g: GrepView, rel: Seq<char>, content: Seq<char>) -> GrepView {
    let ls = lines(content);
    let hits = file_hits(g.pattern, rel, ls, ls.len() as int);
    let n = room(g.results.len(), g.max_results);
    if g.capped {
        g
    } else {
        GrepView {
            results: g.results + if hits.len() < n {
                hits
            } else {
                hits.take(n as int)
            },
            scanned: g.scanned + 1,
            seen_tokens: token_sum(g.seen_tokens, estimate(content)),
            capped: hits.len() > 0 && hits.len() >= n,
            ..g
        }
    }
}

/// The answer of `grep_slim`: the pattern, the root, how many matches and
/// files, the tokens of the files searched against those of the results,
/// whether the cap was reached, then the results.
pub open spec fn grep_report(pattern: Seq<char>, root: Seq<char>, g: GrepView) -> Seq<char> {
    let header = "[token-slim] grep /"@ + pattern + "/ in "@ + root + ": "@ + decimal(g.results.len())
        + " matches, "@ + decimal(g.scanned) + " files scanned"@ + token_figures(
        g.seen_tokens,
        estimate(join_lines(g.results)),
    ) + if g.capped {
        " [capped at "@ + decimal(g.max_results) + " — narrow the pattern or add ext filter]"@
    } else {
        seq![]
    };
    if g.results.len() == 0 {
        header
    } else {
        header + "\n"@ + join_lines(g.results)
    }
}

impl Grep {
    /// Starts a search for `pattern` (a regular expression, or literal text
    /// when `literal`), case-insensitive if asked, capped at `max_results`,
    /// limited to the extensions of a comma-separated `ext` list when given.
    /// Fails with `invalid regex: ...` when the expression does not compile.
    pub fn new(pattern: &str, ignore_case: bool, literal: bool, max_results: usize, ext: Option<&str>) -> (r: Result<Grep, String>)
        ensures
            match r {
                Ok(g) => {
                    &&& regex_error(grep_source(pattern@, literal), ignore_case) is None
                    &&& g@ == GrepView {
                        pattern: (grep_source(pattern@, literal), ignore_case),
                        exts: match ext {
                            Some(e) => Some(ext_filter(e@)),
                            None => None,
                        },
                        max_results: max_results as nat,
                        results: seq![],
                        scanned: 0,
                        seen_tokens: 0,
                        capped: false,
                    }
                },
                Err(m) => exists|e: Seq<char>|
                    regex_error(grep_source(pattern@, literal), ignore_case) == Some(e) && m@
                        == "invalid regex: "@ + e,
            },
    {
        let exts = match ext {
            Some(e) => Some(parse_ext_filter(e)),
            None => None,
        };
        let pat: String = if literal {
            regex_escape(pattern)
        } else {
            String::from_str(pattern)
        };
        match compile_pattern(pat.as_str(), ignore_case) {
            Ok(p) => {
                let g = Grep { pattern: p, exts, max_results, results: Vec::new(), scanned: 0, seen: 0, capped: false };
                assert(views(g.results@) =~= Seq::<Seq<char>>::empty());
                Ok(g)
            },
            Err(e) => {
                let mut v: Vec<char> = Vec::new();
                push_str(&mut v, "invalid regex: ");
                push_str(&mut v, e.as_str());
                Err(string_from_chars(&v))
            },
        }
    }

    /// Whether a file at `path` passes the extension filter.
    pub fn wants(&self, path: &str) -> (r: bool)
        ensures
            r == (self@.exts is None || self@.exts.unwrap().contains(ext_key(path@))),
    {
        match &self.exts {
            None => true,
            Some(list) => {
                assert(self@.exts == Some(views(list@)));
                let e = ext_of(path);
                let ec = chars_of(e.as_str());
                let mut k: usize = 0;
                while k < list.len()
                    invariant
                        k <= list@.len(),
                        self@.exts == Some(views(list@)),
                        ec@ == ext_key(path@),
                        forall|j: int| 0 <= j < k ==> views(list@)[j] != ec@,
                    decreases list@.len() - k,
                {
                    if crate::text::chars_eq(&list[k], &ec) {
                        assert(views(list@)[k as int] == ext_key(path@));
                        assert(views(list@).contains(ext_key(path@)));
                        return true;
                    }
                    k += 1;
                }
                false
            },
        }
    }

    /// How many files were searched so far.
    pub fn scanned(&self) -> (r: usize)
        ensures
            r == self@.scanned,
    {
        self.scanned
    }

    /// Whether the search is over: the result cap was reached.
    pub fn is_capped(&self) -> (r: bool)
        ensures
            r == self@.capped,
    {
        self.capped
    }

    /// Searches one file shown as `rel`, adding a result per matching line
    /// until the cap is reached. Returns whether the cap is reached.
    pub fn scan_file(&mut self, rel: &str, content: &str) -> (r: bool)
        requires
            old(self)@.scanned < usize::MAX,
        ensures
            final(self)@ == after_file(old(self)@, rel@, content@),
            r == final(self)@.capped,
    {
        if self.capped {
            return true;
        }
        let ghost g0 = self@;
        self.scanned = self.scanned + 1;
        let e = estimate_tokens(content);
        if self.seen > usize::MAX - e {
            self.seen = usize::MAX;
        } else {
            self.seen = self.seen + e;
        }
        let ghost seen1 = token_sum(g0.seen_tokens, estimate(content@));
        assert(self@.seen_tokens == seen1);
        let ls = lines_of(content);
        let ghost lv = lines(content@);
        let ghost p = self.pattern@;
        let ghost n = room(g0.results.len(), g0.max_results);
        let relc = chars_of(rel);
        let mut i: usize = 0;
        let mut capped = false;
        while i < ls.len()
            invariant_except_break
                !capped,
                file_hits(p, rel@, lv, i as int).len() < n || file_hits(p, rel@, lv, i as int).len() == 0,
                views(self.results@) == g0.results + file_hits(p, rel@, lv, i as int),
            invariant
                i <= ls@.len(),
                views(ls@) == lv,
                lv == lines(content@),
                relc@ == rel@,
                self.pattern@ == p,
                p == g0.pattern,
                self.max_results as nat == g0.max_results,
                n == room(g0.results.len(), g0.max_results),
                !g0.capped,
                self@.exts == g0.exts,
                self@.max_results == g0.max_results,
                self@.scanned == g0.scanned + 1,
                self@.seen_tokens == seen1,
                !self.capped,
            ensures
                i <= ls@.len(),
                self.pattern@ == p,
                self@.exts == g0.exts,
                self@.max_results == g0.max_results,
                self@.scanned == g0.scanned + 1,
                self@.seen_tokens == seen1,
                capped ==> file_hits(p, rel@, lv, i as int).len() > 0 && file_hits(p, rel@, lv, i as int).len() >= n
                    && views(self.results@) == g0.results + file_hits(p, rel@, lv, i as int).take(n as int),
                !capped ==> i == ls@.len() && (file_hits(p, rel@, lv, i as int).len() < n || file_hits(
                    p,
                    rel@,
                    lv,
                    i as int,
                ).len() == 0) && views(self.results@) == g0.results + file_hits(p, rel@, lv, i as int),
            decreases ls@.len() - i,
        {
            assert(lv[i as int] == ls@[i as int]@);
            let text = string_from_chars(&ls[i]);
            if pattern_is_match(&self.pattern, text.as_str()) {
                let ghost before = views(self.results@);
                let ghost hits_i = file_hits(p, rel@, lv, i as int);
                if self.results.len() < self.max_results {
                    let d = trim_chars(&ls[i]);
                    let mut entry: Vec<char> = Vec::new();
                    push_all(&mut entry, &relc);
                    entry.push(':');
                    push_decimal(&mut entry, (i as u128) + 1);
                    entry.push(':');
                    if d.len() > 200 {
                        crate::text::push_range(&mut entry, &d, 0, 200);
                        entry.push('…');
                    } else {
                        push_all(&mut entry, &d);
                    }
                    assert(entry@ =~= rel@ + seq![':'] + decimal((i + 1) as nat) + seq![':'] + grep_display(lv[i as int]));
                    self.results.push(entry);
                    assert(views(self.results@) =~= before.push(entry@));
                    assert(file_hits(p, rel@, lv, i + 1) == hits_i.push(entry@));
                    assert(views(self.results@) =~= g0.results + file_hits(p, rel@, lv, i + 1));
                    i += 1;
                    if self.results.len() >= self.max_results {
                        capped = true;
                        assert(file_hits(p, rel@, lv, i as int).take(n as int) =~= file_hits(p, rel@, lv, i as int));
                        break;
                    }
                } else {
                    // the cap leaves no room: only the first match of a search capped at 0 gets here
                    assert(views(self.results@).len() == self.results@.len());
                    assert(self.results@.len() == g0.results.len() + hits_i.len());
                    assert(hits_i.len() == 0);
                    assert(n == 0);
                    i += 1;
                    capped = true;
                    assert(file_hits(p, rel@, lv, i as int).take(0) =~= Seq::<Seq<char>>::empty());
                    assert(views(self.results@) =~= g0.results + file_hits(p, rel@, lv, i as int).take(n as int));
                    break;
                }
            } else {
                i += 1;
            }
        }
        proof {
            lemma_file_hits_prefix(p, rel@, lv, i as int, lv.len() as int);
            if capped {
                let fi = file_hits(p, rel@, lv, i as int);
                let fa = file_hits(p, rel@, lv, lv.len() as int);
                assert(fa.take(fi.len() as int) == fi);
                assert(fa.take(n as int) =~= fi.take(n as int));
            } else {
                assert(i == lv.len());
            }
        }
        self.capped = capped;
        assert(self@.results =~= after_file(g0, rel@, content@).results);
        capped
    }

    /// The answer of `grep_slim` for `pattern` searched under `root`.
    pub fn report(&self, pattern: &str, root: &str) -> (r: String)
        ensures
            r@ == grep_report(pattern@, root@, self@),
    {
        let mut v: Vec<char> = Vec::new();
        push_str(&mut v, "[token-slim] grep /");
        push_str(&mut v, pattern);
        push_str(&mut v, "/ in ");
        push_str(&mut v, root);
        push_str(&mut v, ": ");
        push_decimal(&mut v, self.results.len() as u128);
        push_str(&mut v, " matches, ");
        push_decimal(&mut v, self.scanned as u128);
        push_str(&mut v, " files scanned");
        let shown = join_chars(&self.results);
        let shown_tok = estimate_chars(&shown);
        push_figures(&mut v, self.seen, shown_tok);
        if self.capped {
            push_str(&mut v, " [capped at ");
            push_decimal(&mut v, self.max_results as u128);
            push_str(&mut v, " — narrow the pattern or add ext filter]");
        }
        if self.results.len() > 0 {
            push_str(&mut v, "\n");
            push_joined(&mut v, &self.results, 0, self.results.len());
            assert(views(self.results@).subrange(0, self.results@.len() as int) == views(self.results@));
        }
        assert(v@ =~= grep_report(pattern@, root@, self@));
        string_from_chars(&v)
    }
}


// ---------------------------------------------------------------------------
// Directory maps
// ---------------------------------------------------------------------------

/// `a` comes before `b` in code-point order (the order of `String`).
pub open spec fn name_lt(a: Seq<char>, b: Seq<char>) -> bool
    decreases a.len(),
{
    if a.len() == 0 {
        b.len() > 0
    } else if b.len() == 0 {
        false
    } else if a[0] != b[0] {
        a[0] < b[0]
    } else {
        name_lt(a.drop_first(), b.drop_first())
    }
}

/// Whether `a` comes before `b` in code-point order.
pub fn chars_lt(a: &Vec<char>, b: &Vec<char>) -> (r: bool)
    ensures
        r == name_lt(a@, b@),
{
    let mut k: usize = 0;
    assert(a@.skip(0) == a@);
    assert(b@.skip(0) == b@);
    while k < a.len() && k < b.len() && a[k] == b[k]
        invariant
            k <= a@.len(),
            k <= b@.len(),
            name_lt(a@, b@) == name_lt(a@.skip(k as int), b@.skip(k as int)),
        decreases a@.len() - k,
    {
        assert(a@.skip(k as int).drop_first() == a@.skip(k + 1));
        assert(b@.skip(k as int).drop_first() == b@.skip(k + 1));
        k += 1;
    }
    if k == a.len() {
        k < b.len()
    } else if k == b.len() {
        false
    } else {
        a[k] < b[k]
    }
}

/// Where `x` goes among the indices `s` kept in name order: before the first
/// one whose name comes after its own, looking from position `i`.
pub open spec fn insert_pos(names: Seq<Seq<char>>, s: Seq<int>, x: int, i: int) -> int
    decreases s.len() - i,
{
    if i < 0 || i >= s.len() {
        s.len() as int
    } else if name_lt(names[x], names[s[i]]) {
        i
    } else {
        insert_pos(names, s, x, i + 1)
    }
}

pub proof fn lemma_insert_pos(names: Seq<Seq<char>>, s: Seq<int>, x: int, i: int)
    requires
        0 <= i <= s.len(),
    ensures
        i <= insert_pos(names, s, x, i) <= s.len(),
    decreases s.len() - i,
{
    if i < s.len() && !name_lt(names[x], names[s[i]]) {
        lemma_insert_pos(names, s, x, i + 1);
    }
}

/// The indices `0..k` of `names` in name order; equal names keep their order.
pub open spec fn name_order(names: Seq<Seq<char>>, k: int) -> Seq<int>
    decreases k,
{
    if k <= 0 {
        seq![]
    } else {
        let s = name_order(names, k - 1);
        s.insert(insert_pos(names, s, k - 1, 0), k - 1)
    }
}

pub proof fn lemma_name_order(names: Seq<Seq<char>>, k: int)
    requires
        0 <= k,
    ensures
        name_order(names, k).len() == k,
        forall|j: int| 0 <= j < k ==> 0 <= #[trigger] name_order(names, k)[j] < k,
    decreases k,
{
    if k > 0 {
        lemma_name_order(names, k - 1);
        let s = name_order(names, k - 1);
        lemma_insert_pos(names, s, k - 1, 0);
        let p = insert_pos(names, s, k - 1, 0);
        assert forall|j: int| 0 <= j < k implies 0 <= #[trigger] name_order(names, k)[j] < k by {
            if j < p {
                assert(name_order(names, k)[j] == s[j]);
            } else if j > p {
                assert(name_order(names, k)[j] == s[j - 1]);
            }
        }
    }
}

/// The positions of `names` in name order.
fn sorted_positions(names: &Vec<Vec<char>>) -> (r: Vec<usize>)
    ensures
        r@.len() == names@.len(),
        forall|j: int| 0 <= j < r@.len() ==> #[trigger] r@[j] as int == name_order(views(names@), names@.len() as int)[j],
        forall|j: int| 0 <= j < r@.len() ==> #[trigger] r@[j] < names@.len(),
{
    let ghost nv = views(names@);
    let mut order: Vec<usize> = Vec::new();
    let mut k: usize = 0;
    while k < names.len()
        invariant
            k <= names@.len(),
            nv == views(names@),
            order@.len() == k,
            forall|j: int| 0 <= j < k ==> #[trigger] order@[j] as int == name_order(nv, k as int)[j],
            forall|j: int| 0 <= j < k ==> #[trigger] order@[j] < k,
        decreases names@.len() - k,
    {
        let ghost s = name_order(nv, k as int);
        proof {
            lemma_name_order(nv, k as int);
            lemma_insert_pos(nv, s, k as int, 0);
        }
        let mut p: usize = 0;
        while p < order.len() && !chars_lt(&names[k], &names[order[p]])
            invariant
                p <= order@.len(),
                order@.len() == k,
                k < names@.len(),
                nv == views(names@),
                s == name_order(nv, k as int),
                s.len() == k,
                forall|j: int| 0 <= j < k ==> #[trigger] order@[j] as int == s[j],
                forall|j: int| 0 <= j < k ==> #[trigger] order@[j] < k,
                insert_pos(nv, s, k as int, 0) == insert_pos(nv, s, k as int, p as int),
            decreases order@.len() - p,
        {
            assert(nv[k as int] == names@[k as int]@);
            assert(nv[order@[p as int] as int] == names@[order@[p as int] as int]@);
            p += 1;
        }
        proof {
            if p < order@.len() {
                assert(nv[k as int] == names@[k as int]@);
                assert(nv[order@[p as int] as int] == names@[order@[p as int] as int]@);
            }
        }
        let ghost before = order@;
        order.insert(p, k);
        proof {
            let t = name_order(nv, k + 1);
            assert(t == s.insert(p as int, k as int));
            assert forall|j: int| 0 <= j < k + 1 implies #[trigger] order@[j] as int == t[j] by {
                if j < p {
                    assert(order@[j] == before[j]);
                } else if j > p {
                    assert(order@[j] == before[j - 1]);
                }
            }
            assert forall|j: int| 0 <= j < k + 1 implies #[trigger] order@[j] < k + 1 by {
                if j < p {
                    assert(order@[j] == before[j]);
                } else if j > p {
                    assert(order@[j] == before[j - 1]);
                }
            }
        }
        k += 1;
    }
    order
}

/// The entries of a directory that a map shows: its subdirectories (each
/// with its own entries, empty where the walk went no deeper) and its files
/// with their sizes in bytes.
pub struct DirListing {
    pub dirs: Vec<(String, DirListing)>,
    pub files: Vec<(String, u64)>,
}

/// The content of a directory listing.
pub struct ListingView {
    pub dirs: Seq<(Seq<char>, ListingView)>,
    pub files: Seq<(Seq<char>, nat)>,
}

pub open spec fn listing_view(l: DirListing) -> ListingView
    decreases l,
{
    ListingView { dirs: dirs_view(l.dirs@), files: files_view(l.files@) }
}

pub open spec fn dirs_view(d: Seq<(String, DirListing)>) -> Seq<(Seq<char>, ListingView)>
    decreases d,
{
    if d.len() == 0 {
        seq![]
    } else {
        seq![(d[0].0@, listing_view(d[0].1))] + dirs_view(d.drop_first())
    }
}

pub open spec fn files_view(f: Seq<(String, u64)>) -> Seq<(Seq<char>, nat)> {
    Seq::new(f.len(), |i: int| (f[i].0@, f[i].1 as nat))
}

impl View for DirListing {
    type V = ListingView;

    open spec fn view(&self) -> ListingView {
        listing_view(*self)
    }
}

pub proof fn lemma_dirs_view(d: Seq<(String, DirListing)>)
    ensures
        dirs_view(d).len() == d.len(),
        forall|i: int| 0 <= i < d.len() ==> #[trigger] dirs_view(d)[i] == (d[i].0@, d[i].1@),
    decreases d.len(),
{
    if d.len() > 0 {
        lemma_dirs_view(d.drop_first());
        assert forall|i: int| 0 <= i < d.len() implies #[trigger] dirs_view(d)[i] == (d[i].0@, d[i].1@) by {
            if i > 0 {
                assert(dirs_view(d)[i] == dirs_view(d.drop_first())[i - 1]);
            }
        }
    }
}

/// Two spaces per level.
pub open spec fn indent(level: nat) -> Seq<char>
    decreases level,
{
    if level == 0 {
        seq![]
    } else {
        indent((level - 1) as nat) + seq![' ', ' ']
    }
}

/// The line that ends a level cut short by the entry cap.
pub open spec fn cap_line(level: nat) -> Seq<char> {
    indent(level) + "… [entry cap reached]"@
}

/// The names of some directory entries.
pub open spec fn dir_names(d: Seq<(Seq<char>, ListingView)>) -> Seq<Seq<char>> {
    d.map_values(|e: (Seq<char>, ListingView)| e.0)
}

pub open spec fn file_names(f: Seq<(Seq<char>, nat)>) -> Seq<Seq<char>> {
    f.map_values(|e: (Seq<char>, nat)| e.0)
}

/// The lines a directory map shows for `t` at `level`, with `count`
/// entries shown before it, and the count after: nothing below
/// `max_depth` or once `max_entries` entries are shown; else its
/// subdirectories in name order, each followed by its own map, then its
/// files in name order with their sizes. Skipped directories never show.
pub open spec fn map_lines(t: ListingView, level: nat, max_depth: nat, max_entries: nat, count: nat) -> (Seq<Seq<char>>, nat)
    decreases t, 0nat,
{
    if level >= max_depth || count >= max_entries {
        (seq![], count)
    } else {
        let (dl, dc, stop) = map_dirs(
            t.dirs,
            name_order(dir_names(t.dirs), t.dirs.len() as int),
            0,
            level,
            max_depth,
            max_entries,
            count,
        );
        if stop {
            (dl, dc)
        } else {
            let (fl, fc) = map_files(
                t.files,
                name_order(file_names(t.files), t.files.len() as int),
                0,
                level,
                max_entries,
                dc,
            );
            (dl + fl, fc)
        }
    }
}

/// The lines for the subdirectories at positions `order[j..]`, the count
/// after them, and whether the cap cut them short. Directories a walk skips
/// (`skipped_dir`) are left out.
pub open spec fn map_dirs(
    dirs: Seq<(Seq<char>, ListingView)>,
    order: Seq<int>,
    j: int,
    level: nat,
    max_depth: nat,
    max_entries: nat,
    count: nat,
) -> (Seq<Seq<char>>, nat, bool)
    decreases dirs, order.len() - j,
{
    if j < 0 || j >= order.len() {
        (seq![], count, false)
    } else if 0 <= order[j] < dirs.len() && skipped_dir(dirs[order[j]].0) {
        map_dirs(dirs, order, j + 1, level, max_depth, max_entries, count)
    } else if count >= max_entries {
        (seq![cap_line(level)], count, true)
    } else if 0 <= order[j] < dirs.len() {
        let (sl, sc) = map_lines(dirs[order[j]].1, level + 1, max_depth, max_entries, count + 1);
        let (rl, rc, rs) = map_dirs(dirs, order, j + 1, level, max_depth, max_entries, sc);
        (seq![indent(level) + dirs[order[j]].0 + seq!['/']] + sl + rl, rc, rs)
    } else {
        (seq![], count, false)
    }
}

/// The lines for the files at positions `order[j..]` and the count after them.
pub open spec fn map_files(
    files: Seq<(Seq<char>, nat)>,
    order: Seq<int>,
    j: int,
    level: nat,
    max_entries: nat,
    count: nat,
) -> (Seq<Seq<char>>, nat)
    decreases order.len() - j,
{
    if j < 0 || j >= order.len() {
        (seq![], count)
    } else if count >= max_entries {
        (seq![cap_line(level)], count)
    } else if 0 <= order[j] < files.len() {
        let (rl, rc) = map_files(files, order, j + 1, level, max_entries, count + 1);
        (
            seq![indent(level) + files[order[j]].0 + seq![' '] + size_label(files[order[j]].1)] + rl,
            rc,
        )
    } else {
        (seq![], count)
    }
}

fn push_indent(out: &mut Vec<char>, level: usize)
    ensures
        final(out)@ == old(out)@ + indent(level as nat),
    decreases level,
{
    if level > 0 {
        push_indent(out, level - 1);
        out.push(' ');
        out.push(' ');
        assert(final(out)@ =~= old(out)@ + indent(level as nat));
    } else {
        assert(old(out)@ + indent(0) =~= old(out)@);
    }
}

fn cap_line_chars(level: usize) -> (r: Vec<char>)
    ensures
        r@ == cap_line(level as nat),
{
    let mut v: Vec<char> = Vec::new();
    push_indent(&mut v, level);
    push_str(&mut v, "… [entry cap reached]");
    assert(v@ =~= cap_line(level as nat));
    v
}

fn name_chars_dirs(d: &Vec<(String, DirListing)>) -> (r: Vec<Vec<char>>)
    ensures
        views(r@) == dir_names(dirs_view(d@)),
{
    proof {
        lemma_dirs_view(d@);
    }
    let mut out: Vec<Vec<char>> = Vec::new();
    let mut k: usize = 0;
    while k < d.len()
        invariant
            k <= d@.len(),
            dirs_view(d@).len() == d@.len(),
            forall|i: int| 0 <= i < d@.len() ==> #[trigger] dirs_view(d@)[i] == (d@[i].0@, d@[i].1@),
            views(out@) =~= dir_names(dirs_view(d@)).take(k as int),
        decreases d@.len() - k,
    {
        let c = chars_of(d[k].0.as_str());
        let ghost before = views(out@);
        out.push(c);
        assert(views(out@) =~= before.push(c@));
        assert(dir_names(dirs_view(d@)).take(k + 1) =~= dir_names(dirs_view(d@)).take(k as int).push(
            dirs_view(d@)[k as int].0,
        ));
        k += 1;
    }
    assert(dir_names(dirs_view(d@)).take(k as int) =~= dir_names(dirs_view(d@)));
    out
}

fn name_chars_files(f: &Vec<(String, u64)>) -> (r: Vec<Vec<char>>)
    ensures
        views(r@) == file_names(files_view(f@)),
{
    let mut out: Vec<Vec<char>> = Vec::new();
    let mut k: usize = 0;
    while k < f.len()
        invariant
            k <= f@.len(),
            views(out@) =~= file_names(files_view(f@)).take(k as int),
        decreases f@.len() - k,
    {
        let c = chars_of(f[k].0.as_str());
        let ghost before = views(out@);
        out.push(c);
        assert(views(out@) =~= before.push(c@));
        assert(file_names(files_view(f@)).take(k + 1) =~= file_names(files_view(f@)).take(k as int).push(
            files_view(f@)[k as int].0,
        ));
        k += 1;
    }
    assert(file_names(files_view(f@)).take(k as int) =~= file_names(files_view(f@)));
    out
}

/// Appends the map of `t` at `level` to `lines`, counting shown entries in `count`.
fn walk_map(t: &DirListing, level: usize, max_depth: usize, max_entries: usize, lines: &mut Vec<Vec<char>>, count: &mut usize)
    requires
        *old(count) <= max_entries,
    ensures
        views(final(lines)@) == views(old(lines)@) + map_lines(t@, level as nat, max_depth as nat, max_entries as nat, *old(count) as nat).0,
        *final(count) as nat == map_lines(t@, level as nat, max_depth as nat, max_entries as nat, *old(count) as nat).1,
        *final(count) <= max_entries,
    decreases t,
{
    if level >= max_depth || *count >= max_entries {
        assert(views(lines@) =~= views(lines@) + Seq::<Seq<char>>::empty());
        return;
    }
    let ghost tv = t@;
    let ghost l0 = views(lines@);
    let ghost c0 = *count as nat;
    proof {
        lemma_dirs_view(t.dirs@);
    }
    let dnames = name_chars_dirs(&t.dirs);
    let dorder = sorted_positions(&dnames);
    let ghost dord = name_order(dir_names(tv.dirs), tv.dirs.len() as int);
    proof {
        lemma_name_order(dir_names(tv.dirs), tv.dirs.len() as int);
        assert(views(dnames@).len() == dnames@.len());
    }
    assert(dorder@.len() == dord.len());
    let mut j: usize = 0;
    let mut stopped = false;
    while j < dorder.len()
        invariant_except_break
            !stopped,
            ({
                let a = map_dirs(tv.dirs, dord, 0, level as nat, max_depth as nat, max_entries as nat, c0);
                let r = map_dirs(tv.dirs, dord, j as int, level as nat, max_depth as nat, max_entries as nat, *count as nat);
                views(lines@) + r.0 == l0 + a.0 && r.1 == a.1 && r.2 == a.2
            }),
        invariant
            j <= dorder@.len(),
            *count <= max_entries,
            level < max_depth,
            tv == t@,
            tv.dirs == dirs_view(t.dirs@),
            dirs_view(t.dirs@).len() == t.dirs@.len(),
            forall|i: int| 0 <= i < t.dirs@.len() ==> #[trigger] dirs_view(t.dirs@)[i] == (t.dirs@[i].0@, t.dirs@[i].1@),
            dord == name_order(dir_names(tv.dirs), tv.dirs.len() as int),
            dorder@.len() == dord.len(),
            forall|i: int| 0 <= i < dorder@.len() ==> #[trigger] dorder@[i] as int == dord[i],
            forall|i: int| 0 <= i < dorder@.len() ==> #[trigger] dorder@[i] < t.dirs@.len(),
        ensures
            ({
                let a = map_dirs(tv.dirs, dord, 0, level as nat, max_depth as nat, max_entries as nat, c0);
                views(lines@) == l0 + a.0 && *count as nat == a.1 && a.2 == stopped
            }),
        decreases dorder@.len() - j,
    {
        let k = dorder[j];
        assert(tv.dirs[k as int] == (t.dirs@[k as int].0@, t.dirs@[k as int].1@));
        if should_skip_dir(t.dirs[k].0.as_str()) {
            j += 1;
            continue;
        }
        if *count >= max_entries {
            let ghost before = views(lines@);
            lines.push(cap_line_chars(level));
            assert(views(lines@) =~= before + seq![cap_line(level as nat)]);
            stopped = true;
            break;
        }
        let ghost before = views(lines@);
        let ghost cj = *count as nat;
        let mut line: Vec<char> = Vec::new();
        push_indent(&mut line, level);
        push_str(&mut line, t.dirs[k].0.as_str());
        line.push('/');
        assert(tv.dirs[k as int] == (t.dirs@[k as int].0@, t.dirs@[k as int].1@));
        assert(line@ =~= indent(level as nat) + tv.dirs[k as int].0 + seq!['/']);
        lines.push(line);
        *count += 1;
        let ghost mid = views(lines@);
        assert(mid =~= before.push(line@));
        walk_map(&t.dirs[k].1, level + 1, max_depth, max_entries, lines, count);
        proof {
            let s = map_lines(tv.dirs[k as int].1, (level + 1) as nat, max_depth as nat, max_entries as nat, cj + 1);
            let r = map_dirs(tv.dirs, dord, j + 1, level as nat, max_depth as nat, max_entries as nat, s.1);
            assert(map_dirs(tv.dirs, dord, j as int, level as nat, max_depth as nat, max_entries as nat, cj) == (
                seq![indent(level as nat) + tv.dirs[k as int].0 + seq!['/']] + s.0 + r.0, r.1, r.2));
            assert(views(lines@) + r.0 =~= before + (seq![indent(level as nat) + tv.dirs[k as int].0 + seq!['/']] + s.0 + r.0));
        }
        j += 1;
    }
    if stopped {
        return;
    }
    let fnames = name_chars_files(&t.files);
    let forder = sorted_positions(&fnames);
    let ghost ford = name_order(file_names(tv.files), tv.files.len() as int);
    proof {
        lemma_name_order(file_names(tv.files), tv.files.len() as int);
        assert(views(fnames@).len() == fnames@.len());
    }
    let ghost l1 = views(lines@);
    let ghost c1 = *count as nat;
    let mut j: usize = 0;
    while j < forder.len()
        invariant_except_break
            ({
                let a = map_files(tv.files, ford, 0, level as nat, max_entries as nat, c1);
                let r = map_files(tv.files, ford, j as int, level as nat, max_entries as nat, *count as nat);
                views(lines@) + r.0 == l1 + a.0 && r.1 == a.1
            }),
        invariant
            j <= forder@.len(),
            *count <= max_entries,
            tv == t@,
            tv.files == files_view(t.files@),
            ford == name_order(file_names(tv.files), tv.files.len() as int),
            forder@.len() == ford.len(),
            forall|i: int| 0 <= i < forder@.len() ==> #[trigger] forder@[i] as int == ford[i],
            forall|i: int| 0 <= i < forder@.len() ==> #[trigger] forder@[i] < t.files@.len(),
        ensures
            ({
                let a = map_files(tv.files, ford, 0, level as nat, max_entries as nat, c1);
                views(lines@) == l1 + a.0 && *count as nat == a.1
            }),
        decreases forder@.len() - j,
    {
        if *count >= max_entries {
            let ghost before = views(lines@);
            lines.push(cap_line_chars(level));
            assert(views(lines@) =~= before + seq![cap_line(level as nat)]);
            break;
        }
        let k = forder[j];
        let ghost before = views(lines@);
        let ghost cj = *count as nat;
        let mut line: Vec<char> = Vec::new();
        push_indent(&mut line, level);
        push_str(&mut line, t.files[k].0.as_str());
        line.push(' ');
        let size = human_size(t.files[k].1);
        push_str(&mut line, size.as_str());
        assert(tv.files[k as int] == (t.files@[k as int].0@, t.files@[k as int].1 as nat));
        assert(line@ =~= indent(level as nat) + tv.files[k as int].0 + seq![' '] + size_label(tv.files[k as int].1));
        lines.push(line);
        *count += 1;
        proof {
            let r = map_files(tv.files, ford, j + 1, level as nat, max_entries as nat, cj + 1);
            assert(views(lines@) + r.0 =~= before + (seq![line@] + r.0));
        }
        j += 1;
    }
    proof {
        let a = map_files(tv.files, ford, 0, level as nat, max_entries as nat, c1);
        let d = map_dirs(tv.dirs, dord, 0, level as nat, max_depth as nat, max_entries as nat, c0);
        assert(views(lines@) =~= l0 + (d.0 + a.0));
    }
}

/// The answer of `dir_map` for the directory `root`: the depth, the entries
/// shown, the tokens of the map without the entry cap against those of the
/// map shown, then the map.
pub open spec fn dir_map_report(root: Seq<char>, t: ListingView, max_depth: nat, max_entries: nat) -> Seq<char> {
    let (ls, n) = map_lines(t, 0, max_depth, max_entries, 0);
    let full = map_lines(t, 0, max_depth, usize::MAX as nat, 0).0;
    "[token-slim] dir_map "@ + root + " depth≤"@ + decimal(max_depth) + " entries="@ + decimal(n)
        + token_figures(estimate(join_lines(full)), estimate(join_lines(ls))) + "\n"@ + join_lines(ls)
}

/// `dir_map`: a compact map of the directory `root`, whose entries are
/// `tree`, down to `max_depth` levels and at most `max_entries` entries.
pub fn dir_map_text(root: &str, tree: &DirListing, max_depth: usize, max_entries: usize) -> (r: String)
    ensures
        r@ == dir_map_report(root@, tree@, max_depth as nat, max_entries as nat),
{
    let mut lines: Vec<Vec<char>> = Vec::new();
    let mut count: usize = 0;
    walk_map(tree, 0, max_depth, max_entries, &mut lines, &mut count);
    let mut all: Vec<Vec<char>> = Vec::new();
    let mut all_count: usize = 0;
    walk_map(tree, 0, max_depth, usize::MAX, &mut all, &mut all_count);
    assert(views(all@) =~= Seq::<Seq<char>>::empty() + map_lines(tree@, 0, max_depth as nat, usize::MAX as nat, 0).0);
    let full_tok = estimate_chars(&join_chars(&all));
    let mut v: Vec<char> = Vec::new();
    push_str(&mut v, "[token-slim] dir_map ");
    push_str(&mut v, root);
    push_str(&mut v, " depth≤");
    push_decimal(&mut v, max_depth as u128);
    push_str(&mut v, " entries=");
    push_decimal(&mut v, count as u128);
    assert(views(lines@) =~= Seq::<Seq<char>>::empty() + map_lines(tree@, 0, max_depth as nat, max_entries as nat, 0).0);
    let body = join_chars(&lines);
    let shown_tok = estimate_chars(&body);
    push_figures(&mut v, full_tok, shown_tok);
    push_str(&mut v, "\n");
    push_all(&mut v, &body);
    assert(v@ =~= dir_map_report(root@, tree@, max_depth as nat, max_entries as nat));
    string_from_chars(&v)
}


// ---------------------------------------------------------------------------
// The files a search goes through
// ---------------------------------------------------------------------------

/// At most this many files are gathered for a search.
pub const MAX_FILES_SCANNED: usize = 20_000;

/// `s` cut to its first `n` elements when it is longer.
pub open spec fn at_most<A>(s: Seq<A>, n: nat) -> Seq<A> {
    if s.len() > n {
        s.take(n as int)
    } else {
        s
    }
}

/// The files under a listing in the order a search visits them, as paths
/// below `prefix`: the directory's own files in listing order, then the
/// files under each subdirectory, subdirectories taken in name order and
/// skipped directories (`skipped_dir`) left out.
pub open spec fn walk_files(t: ListingView, prefix: Seq<char>) -> Seq<Seq<char>>
    decreases t, 0nat,
{
    file_names(t.files).map_values(|n: Seq<char>| prefix + n) + walk_dirs(
        t.dirs,
        name_order(dir_names(t.dirs), t.dirs.len() as int),
        0,
        prefix,
    )
}

/// The files under the subdirectories at positions `order[j..]`.
pub open spec fn walk_dirs(dirs: Seq<(Seq<char>, ListingView)>, order: Seq<int>, j: int, prefix: Seq<char>) -> Seq<
    Seq<char>,
>
    decreases dirs, order.len() - j,
{
    if j < 0 || j >= order.len() {
        seq![]
    } else if 0 <= order[j] < dirs.len() && skipped_dir(dirs[order[j]].0) {
        walk_dirs(dirs, order, j + 1, prefix)
    } else if 0 <= order[j] < dirs.len() {
        walk_files(dirs[order[j]].1, prefix + dirs[order[j]].0 + seq!['/']) + walk_dirs(
            dirs,
            order,
            j + 1,
            prefix,
        )
    } else {
        seq![]
    }
}

proof fn lemma_at_most_full<A>(a: Seq<A>, b: Seq<A>, n: nat)
    requires
        a.len() >= n,
    ensures
        at_most(a + b, n) == at_most(a, n),
{
    assert((a + b).take(n as int) =~= a.take(n as int));
}

proof fn lemma_at_most_twice<A>(a: Seq<A>, b: Seq<A>, n: nat)
    ensures
        at_most(at_most(a, n) + b, n) == at_most(a + b, n),
{
    if a.len() > n {
        assert((a.take(n as int) + b).take(n as int) =~= a.take(n as int));
        assert((a + b).take(n as int) =~= a.take(n as int));
    }
}

/// Appends to `out` the files under `t`, below `prefix`, in visiting order,
/// stopping once `out` holds `cap` paths.
fn gather_files(t: &DirListing, prefix: &Vec<char>, cap: usize, out: &mut Vec<Vec<char>>)
    requires
        old(out)@.len() <= cap,
    ensures
        views(final(out)@) == at_most(views(old(out)@) + walk_files(t@, prefix@), cap as nat),
    decreases t,
{
    let ghost tv = t@;
    let ghost o0 = views(out@);
    let ghost fl = file_names(tv.files).map_values(|n: Seq<char>| prefix@ + n);
    let ghost dord = name_order(dir_names(tv.dirs), tv.dirs.len() as int);
    let ghost d0 = walk_dirs(tv.dirs, dord, 0, prefix@);
    let ghost goal = at_most(o0 + walk_files(tv, prefix@), cap as nat);
    proof {
        lemma_dirs_view(t.dirs@);
        lemma_name_order(dir_names(tv.dirs), tv.dirs.len() as int);
        assert(walk_files(tv, prefix@) == fl + d0);
    }
    let mut j: usize = 0;
    while j < t.files.len()
        invariant
            j <= t.files@.len(),
            out@.len() <= cap,
            tv == t@,
            tv.files == files_view(t.files@),
            fl == file_names(tv.files).map_values(|n: Seq<char>| prefix@ + n),
            fl.len() == t.files@.len(),
            goal == at_most(o0 + (fl + d0), cap as nat),
            goal == at_most(views(old(out)@) + walk_files(t@, prefix@), cap as nat),
            at_most(views(out@) + fl.skip(j as int) + d0, cap as nat) == goal,
        decreases t.files@.len() - j,
    {
        if out.len() >= cap {
            proof {
                lemma_at_most_full(views(out@), fl.skip(j as int) + d0, cap as nat);
                assert(views(out@) + fl.skip(j as int) + d0 =~= views(out@) + (fl.skip(j as int) + d0));
                assert(views(out@).take(cap as int) =~= views(out@));
            }
            return;
        }
        let mut path: Vec<char> = Vec::new();
        push_all(&mut path, prefix);
        push_str(&mut path, t.files[j].0.as_str());
        assert(path@ == fl[j as int]);
        let ghost before = views(out@);
        out.push(path);
        assert(views(out@) =~= before.push(fl[j as int]));
        assert(views(out@) + fl.skip(j + 1) + d0 =~= before + fl.skip(j as int) + d0);
        j += 1;
    }
    assert(fl.skip(j as int) =~= Seq::<Seq<char>>::empty());
    assert(views(out@) + fl.skip(j as int) + d0 =~= views(out@) + d0);
    let dnames = name_chars_dirs(&t.dirs);
    let dorder = sorted_positions(&dnames);
    assert(views(dnames@).len() == dnames@.len());
    assert(dorder@.len() == dord.len());
    let mut j: usize = 0;
    while j < dorder.len()
        invariant
            j <= dorder@.len(),
            out@.len() <= cap,
            tv == t@,
            tv.dirs == dirs_view(t.dirs@),
            dirs_view(t.dirs@).len() == t.dirs@.len(),
            forall|i: int| 0 <= i < t.dirs@.len() ==> #[trigger] dirs_view(t.dirs@)[i] == (t.dirs@[i].0@, t.dirs@[i].1@),
            dord == name_order(dir_names(tv.dirs), tv.dirs.len() as int),
            d0 == walk_dirs(tv.dirs, dord, 0, prefix@),
            dorder@.len() == dord.len(),
            forall|i: int| 0 <= i < dorder@.len() ==> #[trigger] dorder@[i] as int == dord[i],
            forall|i: int| 0 <= i < dorder@.len() ==> #[trigger] dorder@[i] < t.dirs@.len(),
            goal == at_most(o0 + (fl + d0), cap as nat),
            goal == at_most(views(old(out)@) + walk_files(t@, prefix@), cap as nat),
            at_most(views(out@) + walk_dirs(tv.dirs, dord, j as int, prefix@), cap as nat) == goal,
        decreases dorder@.len() - j,
    {
        let k = dorder[j];
        assert(tv.dirs[k as int] == (t.dirs@[k as int].0@, t.dirs@[k as int].1@));
        if should_skip_dir(t.dirs[k].0.as_str()) {
            j += 1;
            continue;
        }
        if out.len() >= cap {
            proof {
                lemma_at_most_full(views(out@), walk_dirs(tv.dirs, dord, j as int, prefix@), cap as nat);
                assert(views(out@).take(cap as int) =~= views(out@));
            }
            return;
        }
        let mut sub: Vec<char> = Vec::new();
        push_all(&mut sub, prefix);
        push_str(&mut sub, t.dirs[k].0.as_str());
        sub.push('/');
        assert(tv.dirs[k as int] == (t.dirs@[k as int].0@, t.dirs@[k as int].1@));
        assert(sub@ =~= prefix@ + tv.dirs[k as int].0 + seq!['/']);
        let ghost before = views(out@);
        gather_files(&t.dirs[k].1, &sub, cap, out);
        proof {
            let w = walk_files(tv.dirs[k as int].1, sub@);
            let rest = walk_dirs(tv.dirs, dord, j + 1, prefix@);
            assert(walk_dirs(tv.dirs, dord, j as int, prefix@) == w + rest);
            lemma_at_most_twice(before + w, rest, cap as nat);
            assert(before + w + rest =~= before + (w + rest));
        }
        j += 1;
    }
    proof {
        assert(walk_dirs(tv.dirs, dord, j as int, prefix@) == Seq::<Seq<char>>::empty());
        assert(views(out@) + Seq::<Seq<char>>::empty() =~= views(out@));
    }
}

/// The files a search under a directory goes through, as paths relative to
/// it (`sub/name`): each directory's own files in listing order, then its
/// subdirectories in name order; at most `MAX_FILES_SCANNED` of them.
pub fn search_files(tree: &DirListing) -> (r: Vec<String>)
    ensures
        r@.map_values(|s: String| s@) == at_most(walk_files(tree@, seq![]), MAX_FILES_SCANNED as nat),
{
    let mut paths: Vec<Vec<char>> = Vec::new();
    let prefix: Vec<char> = Vec::new();
    assert(prefix@ =~= Seq::<char>::empty());
    gather_files(tree, &prefix, MAX_FILES_SCANNED, &mut paths);
    assert(views(paths@) =~= at_most(walk_files(tree@, seq![]), MAX_FILES_SCANNED as nat));
    let mut r: Vec<String> = Vec::new();
    let mut k: usize = 0;
    while k < paths.len()
        invariant
            k <= paths@.len(),
            r@.map_values(|s: String| s@) =~= views(paths@).take(k as int),
        decreases paths@.len() - k,
    {
        let s = string_from_chars(&paths[k]);
        r.push(s);
        assert(views(paths@).take(k + 1) =~= views(paths@).take(k as int).push(paths@[k as int]@));
        k += 1;
    }
    assert(views(paths@).take(k as int) =~= views(paths@));
    r
}


} // verus!
