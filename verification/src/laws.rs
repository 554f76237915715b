//! Properties that hold of every input: what stripping, collapsing,
//! folding, capping, pruning, searching and mapping keep or bound, and how
//! the server's listing and answers fit together.

use vstd::prelude::*;
use crate::slim::{
    blank_kept, deduped, drop_trailing_empty, first_block, kept_lines, lemma_first_block,
    lemma_run_end, lemma_scan_block, lemma_scan_block_open, lemma_scan_code,
    lemma_scan_end, lemma_scan_line_comment, lemma_scan_quoted, lemma_scan_shebang, line_at,
    run_end, scan, starts_at, stripped, style_for, trimmed_lines, blank_collapsed, ScanMode, StyleView,
};
use crate::json::JsonView;
use crate::protocol::{listed_tools, tool_spec};
use crate::tools::{
    after_file, capped_note, count_report, dir_map_report, ext_key, grep_report, json_report, level_name,
    map_dirs, map_files, map_lines, mode_name, read_rendered, read_report, read_window, text_report,
    text_work, token_figures, file_hits, grep_source, GrepView, ListingView,
};
use crate::slim::{pruned, pruned_items, pruned_members, JsonOpts};
use crate::text::{all_ws, decimal, is_ascii_char, is_ws, join_lines, line_scan, lines, strip_cr, trim_end};
use crate::tokens::{
    ascii_count, capped, estimate, head_count, head_end, snip_marker, lemma_ascii_count_bound, lemma_head_count_bound,
    lemma_tail_count_bound, line_cost, tail_count, tail_start, total_cost,
};

verus! {

// ---------------------------------------------------------------------------
// Comment stripping keeps line breaks and never lengthens the text
// ---------------------------------------------------------------------------

/// The number of line feeds in `s`.
pub open spec fn newlines(s: Seq<char>) -> nat
    decreases s.len(),
{
    if s.len() == 0 {
        0
    } else {
        (if s[0] == '\n' {
            1nat
        } else {
            0nat
        }) + newlines(s.drop_first())
    }
}

/// `s` holds no line feed.
pub open spec fn no_newline(s: Seq<char>) -> bool {
    forall|k: int| 0 <= k < s.len() ==> #[trigger] s[k] != '\n'
}

/// No comment token of the style holds a line feed.
pub open spec fn style_ok(st: StyleView) -> bool {
    &&& forall|k: int| 0 <= k < st.line.len() ==> no_newline(#[trigger] st.line[k])
    &&& forall|k: int|
        0 <= k < st.block.len() ==> no_newline((#[trigger] st.block[k]).0) && no_newline(
            st.block[k].1,
        )
}

proof fn lemma_newlines_concat(a: Seq<char>, b: Seq<char>)
    ensures
        newlines(a + b) == newlines(a) + newlines(b),
    decreases a.len(),
{
    if a.len() > 0 {
        assert((a + b).drop_first() =~= a.drop_first() + b);
        lemma_newlines_concat(a.drop_first(), b);
    } else {
        assert(a + b =~= b);
    }
}

proof fn lemma_newlines_none(s: Seq<char>)
    requires
        no_newline(s),
    ensures
        newlines(s) == 0,
    decreases s.len(),
{
    if s.len() > 0 {
        assert(s[0] != '\n');
        lemma_newlines_none(s.drop_first());
    }
}

proof fn lemma_newlines_single(c: char)
    ensures
        newlines(seq![c]) == if c == '\n' {
            1nat
        } else {
            0nat
        },
        newlines(Seq::<char>::empty()) == 0,
{
    assert(seq![c].drop_first() =~= Seq::<char>::empty());
    assert(newlines(Seq::<char>::empty()) == 0);
    assert(seq![c][0] == c);
    assert(newlines(seq![c]) == (if c == '\n' {
        1nat
    } else {
        0nat
    }) + newlines(seq![c].drop_first()));
}

proof fn lemma_skip_split(cs: Seq<char>, i: int, j: int)
    requires
        0 <= i <= j <= cs.len(),
    ensures
        newlines(cs.skip(i)) == newlines(cs.subrange(i, j)) + newlines(cs.skip(j)),
        cs.skip(i).len() == (j - i) + cs.skip(j).len(),
{
    assert(cs.skip(i) =~= cs.subrange(i, j) + cs.skip(j));
    lemma_newlines_concat(cs.subrange(i, j), cs.skip(j));
}

/// Skipping a token that occurs at `i` skips no line feed.
proof fn lemma_skip_token(cs: Seq<char>, i: int, p: Seq<char>)
    requires
        0 <= i,
        starts_at(cs, i, p),
        no_newline(p),
        i + p.len() <= cs.len(),
    ensures
        newlines(cs.skip(i)) == newlines(cs.skip(i + p.len())),
        cs.skip(i).len() == p.len() + cs.skip(i + p.len()).len(),
{
    assert forall|k: int| 0 <= k < p.len() implies cs.subrange(i, i + p.len())[k] == p[k] by {
        let x = p[k];
    }
    assert(cs.subrange(i, i + p.len()) =~= p);
    lemma_newlines_none(p);
    lemma_skip_split(cs, i, i + p.len());
}

proof fn lemma_step(cs: Seq<char>, i: int, kept: Seq<char>, k: int)
    requires
        0 <= i,
        0 <= k,
        i + k <= cs.len(),
        kept =~= cs.subrange(i, i + k),
    ensures
        newlines(cs.skip(i)) == newlines(kept) + newlines(cs.skip(i + k)),
        cs.skip(i).len() == kept.len() + cs.skip(i + k).len(),
{
    lemma_skip_split(cs, i, i + k);
}

proof fn lemma_token_bound(cs: Seq<char>, i: int, p: Seq<char>)
    requires
        0 <= i,
        starts_at(cs, i, p),
    ensures
        i + p.len() <= cs.len() || p.len() == 0,
{
    if p.len() > 0 {
        let k: int = p.len() - 1;
        let x = p[k];
    }
}

/// Scanning from `i` keeps exactly the line feeds of `cs[i..]` and emits
/// no more characters than it reads.
proof fn lemma_scan_shape(cs: Seq<char>, st: StyleView, i: int, m: ScanMode)
    requires
        style_ok(st),
        0 <= i <= cs.len(),
        m matches ScanMode::Block(c) ==> no_newline(c),
    ensures
        newlines(scan(cs, st, i, m)) == newlines(cs.skip(i)),
        scan(cs, st, i, m).len() <= cs.skip(i).len(),
    decreases cs.len() - i, crate::slim::mode_rank(m),
{
    if i == cs.len() {
        lemma_scan_end(cs, st, i, m);
        assert(cs.skip(i) =~= Seq::<char>::empty());
        return;
    }
    let c = cs[i];
    match m {
        ScanMode::Quoted(q) => {
            lemma_scan_quoted(cs, st, i, q);
            if c == '\\' && i + 1 < cs.len() {
                lemma_scan_shape(cs, st, i + 2, m);
                lemma_step(cs, i, seq![c, cs[i + 1]], 2);
                lemma_newlines_concat(seq![c, cs[i + 1]], scan(cs, st, i + 2, m));
            } else if c == q {
                lemma_scan_shape(cs, st, i + 1, ScanMode::Code);
                lemma_step(cs, i, seq![c], 1);
                lemma_newlines_concat(seq![c], scan(cs, st, i + 1, ScanMode::Code));
            } else {
                lemma_scan_shape(cs, st, i + 1, m);
                lemma_step(cs, i, seq![c], 1);
                lemma_newlines_concat(seq![c], scan(cs, st, i + 1, m));
            }
        },
        ScanMode::Block(close) => {
            lemma_scan_block(cs, st, i, close);
            if starts_at(cs, i, close) {
                lemma_token_bound(cs, i, close);
                lemma_scan_shape(cs, st, i + close.len(), ScanMode::Code);
                lemma_skip_token(cs, i, close);
            } else {
                let e: Seq<char> = if c == '\n' {
                    seq!['\n']
                } else {
                    seq![]
                };
                lemma_scan_shape(cs, st, i + 1, m);
                lemma_step(cs, i, seq![c], 1);
                lemma_newlines_concat(e, scan(cs, st, i + 1, m));
                lemma_newlines_single(c);
                lemma_newlines_single('\n');
            }
        },
        ScanMode::Shebang => {
            lemma_scan_shebang(cs, st, i);
            if c == '\n' {
                lemma_scan_shape(cs, st, i, ScanMode::Code);
            } else {
                lemma_scan_shape(cs, st, i + 1, m);
                lemma_step(cs, i, seq![c], 1);
                lemma_newlines_concat(seq![c], scan(cs, st, i + 1, m));
            }
        },
        ScanMode::LineComment => {
            lemma_scan_line_comment(cs, st, i);
            if c == '\n' {
                lemma_scan_shape(cs, st, i, ScanMode::Code);
            } else {
                lemma_scan_shape(cs, st, i + 1, m);
                lemma_step(cs, i, seq![c], 1);
                lemma_newlines_single(c);
            }
        },
        ScanMode::Code => {
            match first_block(cs, i, st.block, 0) {
                Some(j) => {
                    lemma_first_block(cs, i, st.block, 0);
                    lemma_scan_block_open(cs, st, i, j);
                    let o = st.block[j].0;
                    assert(no_newline(o) && no_newline(st.block[j].1));
                    lemma_token_bound(cs, i, o);
                    lemma_scan_shape(cs, st, i + o.len(), ScanMode::Block(st.block[j].1));
                    lemma_skip_token(cs, i, o);
                },
                None => {
                    lemma_scan_code(cs, st, i);
                    if line_at(cs, i, st.line) {
                        if i == 0 && starts_at(cs, 0, seq!['#', '!']) {
                            lemma_scan_shape(cs, st, 1, ScanMode::Shebang);
                            lemma_step(cs, i, seq![c], 1);
                            lemma_newlines_concat(seq![c], scan(cs, st, 1, ScanMode::Shebang));
                        } else {
                            let k = choose|k: int|
                                0 <= k < st.line.len() && (#[trigger] st.line[k]).len() > 0
                                    && st.line[k][0] != '\n' && starts_at(cs, i, st.line[k]);
                            let x = st.line[k][0];
                            assert(c != '\n');
                            lemma_scan_shape(cs, st, i + 1, ScanMode::LineComment);
                            lemma_step(cs, i, seq![c], 1);
                            lemma_newlines_single(c);
                        }
                    } else if c == '"' || c == '\'' || c == '`' {
                        lemma_scan_shape(cs, st, i + 1, ScanMode::Quoted(c));
                        lemma_step(cs, i, seq![c], 1);
                        lemma_newlines_concat(seq![c], scan(cs, st, i + 1, ScanMode::Quoted(c)));
                    } else {
                        lemma_scan_shape(cs, st, i + 1, ScanMode::Code);
                        lemma_step(cs, i, seq![c], 1);
                        lemma_newlines_concat(seq![c], scan(cs, st, i + 1, ScanMode::Code));
                    }
                },
            }
        },
    }
}

proof fn lemma_style_ok(ext: Seq<char>)
    ensures
        style_ok(style_for(ext)),
{
    let st = style_for(ext);
    assert forall|k: int| 0 <= k < st.line.len() implies no_newline(#[trigger] st.line[k]) by {}
    assert forall|k: int| 0 <= k < st.block.len() implies no_newline((#[trigger] st.block[k]).0)
        && no_newline(st.block[k].1) by {}
}

/// Stripping comments keeps every line break of the source, so line
/// numbers in the result still point at the same source lines.
pub proof fn law_strip_keeps_line_breaks(src: Seq<char>, ext: Seq<char>)
    ensures
        newlines(stripped(src, ext)) == newlines(src),
{
    lemma_style_ok(ext);
    let st = style_for(ext);
    if !(st.line.len() == 0 && st.block.len() == 0) {
        lemma_scan_shape(src, st, 0, ScanMode::Code);
        assert(src.skip(0) =~= src);
    }
}

/// Stripping comments never makes a text longer.
pub proof fn law_strip_never_lengthens(src: Seq<char>, ext: Seq<char>)
    ensures
        stripped(src, ext).len() <= src.len(),
{
    lemma_style_ok(ext);
    let st = style_for(ext);
    if !(st.line.len() == 0 && st.block.len() == 0) {
        lemma_scan_shape(src, st, 0, ScanMode::Code);
        assert(src.skip(0) =~= src);
    }
}


/// `a` is `b` with some characters deleted: its characters occur in `b`,
/// in order.
pub open spec fn is_subseq(a: Seq<char>, b: Seq<char>) -> bool
    decreases b.len(),
{
    if a.len() == 0 {
        true
    } else if b.len() == 0 {
        false
    } else if a[0] == b[0] {
        is_subseq(a.drop_first(), b.drop_first())
    } else {
        is_subseq(a, b.drop_first())
    }
}

proof fn lemma_subseq_refl(a: Seq<char>)
    ensures
        is_subseq(a, a),
    decreases a.len(),
{
    if a.len() > 0 {
        lemma_subseq_refl(a.drop_first());
    }
}

proof fn lemma_subseq_keep(c: char, a: Seq<char>, b: Seq<char>)
    requires
        is_subseq(a, b),
    ensures
        is_subseq(seq![c] + a, seq![c] + b),
{
    assert((seq![c] + a).drop_first() =~= a);
    assert((seq![c] + b).drop_first() =~= b);
    assert((seq![c] + a)[0] == c);
    assert((seq![c] + b)[0] == c);
}

proof fn lemma_subseq_drop_front(a: Seq<char>, b: Seq<char>)
    requires
        is_subseq(a, b),
        a.len() > 0,
    ensures
        is_subseq(a.drop_first(), b),
    decreases b.len(), 0nat,
{
    if b.len() > 0 {
        if a[0] == b[0] {
            // `a.drop_first()` is in `b.drop_first()`, so also in `b`.
            lemma_subseq_skip(b[0], a.drop_first(), b.drop_first());
            assert(seq![b[0]] + b.drop_first() =~= b);
        } else {
            lemma_subseq_drop_front(a, b.drop_first());
            lemma_subseq_skip(b[0], a.drop_first(), b.drop_first());
            assert(seq![b[0]] + b.drop_first() =~= b);
        }
    }
}

proof fn lemma_subseq_skip(c: char, a: Seq<char>, b: Seq<char>)
    requires
        is_subseq(a, b),
    ensures
        is_subseq(a, seq![c] + b),
    decreases b.len(), 1nat,
{
    assert((seq![c] + b).drop_first() =~= b);
    assert((seq![c] + b)[0] == c);
    if a.len() > 0 && a[0] == c {
        lemma_subseq_drop_front(a, b);
    }
}

proof fn lemma_skip_front(cs: Seq<char>, i: int)
    requires
        0 <= i < cs.len(),
    ensures
        cs.skip(i) == seq![cs[i]] + cs.skip(i + 1),
{
    assert(cs.skip(i) =~= seq![cs[i]] + cs.skip(i + 1));
}

proof fn lemma_subseq_skip_n(cs: Seq<char>, i: int, j: int, a: Seq<char>)
    requires
        0 <= i <= j <= cs.len(),
        is_subseq(a, cs.skip(j)),
    ensures
        is_subseq(a, cs.skip(i)),
    decreases j - i,
{
    if i < j {
        lemma_subseq_skip_n(cs, i + 1, j, a);
        lemma_skip_front(cs, i);
        lemma_subseq_skip(cs[i], a, cs.skip(i + 1));
    }
}

/// Keeping `cs[i]` in front of what scanning from `i + 1` keeps.
proof fn lemma_subseq_step(cs: Seq<char>, i: int, rest: Seq<char>)
    requires
        0 <= i < cs.len(),
        is_subseq(rest, cs.skip(i + 1)),
    ensures
        is_subseq(seq![cs[i]] + rest, cs.skip(i)),
{
    lemma_skip_front(cs, i);
    lemma_subseq_keep(cs[i], rest, cs.skip(i + 1));
}

/// What scanning from `i` keeps is `cs[i..]` with characters deleted.
proof fn lemma_scan_subseq(cs: Seq<char>, st: StyleView, i: int, m: ScanMode)
    requires
        0 <= i <= cs.len(),
    ensures
        is_subseq(scan(cs, st, i, m), cs.skip(i)),
    decreases cs.len() - i, crate::slim::mode_rank(m),
{
    if i == cs.len() {
        lemma_scan_end(cs, st, i, m);
        return;
    }
    let c = cs[i];
    match m {
        ScanMode::Quoted(q) => {
            lemma_scan_quoted(cs, st, i, q);
            if c == '\\' && i + 1 < cs.len() {
                lemma_scan_subseq(cs, st, i + 2, m);
                lemma_subseq_step(cs, i + 1, scan(cs, st, i + 2, m));
                lemma_subseq_step(cs, i, seq![cs[i + 1]] + scan(cs, st, i + 2, m));
                assert(seq![c] + (seq![cs[i + 1]] + scan(cs, st, i + 2, m)) =~= seq![c, cs[i + 1]] + scan(
                    cs,
                    st,
                    i + 2,
                    m,
                ));
            } else if c == q {
                lemma_scan_subseq(cs, st, i + 1, ScanMode::Code);
                lemma_subseq_step(cs, i, scan(cs, st, i + 1, ScanMode::Code));
            } else {
                lemma_scan_subseq(cs, st, i + 1, m);
                lemma_subseq_step(cs, i, scan(cs, st, i + 1, m));
            }
        },
        ScanMode::Block(close) => {
            lemma_scan_block(cs, st, i, close);
            if starts_at(cs, i, close) {
                lemma_token_bound(cs, i, close);
                if close.len() > 0 {
                    lemma_scan_subseq(cs, st, i + close.len(), ScanMode::Code);
                    lemma_subseq_skip_n(cs, i, i + close.len(), scan(cs, st, i + close.len(), ScanMode::Code));
                } else {
                    lemma_scan_subseq(cs, st, i, ScanMode::Code);
                }
            } else {
                lemma_scan_subseq(cs, st, i + 1, m);
                if c == '\n' {
                    lemma_subseq_step(cs, i, scan(cs, st, i + 1, m));
                } else {
                    lemma_skip_front(cs, i);
                    lemma_subseq_skip(c, scan(cs, st, i + 1, m), cs.skip(i + 1));
                    assert(Seq::<char>::empty() + scan(cs, st, i + 1, m) =~= scan(cs, st, i + 1, m));
                }
            }
        },
        ScanMode::Shebang => {
            lemma_scan_shebang(cs, st, i);
            if c == '\n' {
                lemma_scan_subseq(cs, st, i, ScanMode::Code);
            } else {
                lemma_scan_subseq(cs, st, i + 1, m);
                lemma_subseq_step(cs, i, scan(cs, st, i + 1, m));
            }
        },
        ScanMode::LineComment => {
            lemma_scan_line_comment(cs, st, i);
            if c == '\n' {
                lemma_scan_subseq(cs, st, i, ScanMode::Code);
            } else {
                lemma_scan_subseq(cs, st, i + 1, m);
                lemma_skip_front(cs, i);
                lemma_subseq_skip(c, scan(cs, st, i + 1, m), cs.skip(i + 1));
            }
        },
        ScanMode::Code => {
            match first_block(cs, i, st.block, 0) {
                Some(j) => {
                    lemma_first_block(cs, i, st.block, 0);
                    lemma_scan_block_open(cs, st, i, j);
                    let o = st.block[j].0;
                    lemma_token_bound(cs, i, o);
                    lemma_scan_subseq(cs, st, i + o.len(), ScanMode::Block(st.block[j].1));
                    lemma_subseq_skip_n(cs, i, i + o.len(), scan(cs, st, i + o.len(), ScanMode::Block(st.block[j].1)));
                },
                None => {
                    lemma_scan_code(cs, st, i);
                    if line_at(cs, i, st.line) {
                        if i == 0 && starts_at(cs, 0, seq!['#', '!']) {
                            lemma_scan_subseq(cs, st, 1, ScanMode::Shebang);
                            lemma_subseq_step(cs, i, scan(cs, st, 1, ScanMode::Shebang));
                        } else {
                            lemma_scan_subseq(cs, st, i + 1, ScanMode::LineComment);
                            lemma_skip_front(cs, i);
                            lemma_subseq_skip(c, scan(cs, st, i + 1, ScanMode::LineComment), cs.skip(i + 1));
                        }
                    } else if c == '"' || c == '\'' || c == '`' {
                        lemma_scan_subseq(cs, st, i + 1, ScanMode::Quoted(c));
                        lemma_subseq_step(cs, i, scan(cs, st, i + 1, ScanMode::Quoted(c)));
                    } else {
                        lemma_scan_subseq(cs, st, i + 1, ScanMode::Code);
                        lemma_subseq_step(cs, i, scan(cs, st, i + 1, ScanMode::Code));
                    }
                },
            }
        },
    }
}

/// Stripping comments only deletes characters: the result is the source
/// with some characters left out, none added, changed or moved.
pub proof fn law_strip_only_deletes(src: Seq<char>, ext: Seq<char>)
    ensures
        is_subseq(stripped(src, ext), src),
{
    let st = style_for(ext);
    if st.line.len() == 0 && st.block.len() == 0 {
        lemma_subseq_refl(src);
    } else {
        lemma_scan_subseq(src, st, 0, ScanMode::Code);
        assert(src.skip(0) =~= src);
    }
}

// ---------------------------------------------------------------------------
// Blank collapsing leaves clean lines and single blank lines
// ---------------------------------------------------------------------------

proof fn lemma_trim_end_clean(s: Seq<char>)
    ensures
        trim_end(s).len() == 0 || !is_ws(trim_end(s).last()),
    decreases s.len(),
{
    if s.len() > 0 && is_ws(s.last()) {
        lemma_trim_end_clean(s.drop_last());
    }
}

/// The lines blank collapsing keeps from `t`: each is one of `t`, none
/// starts the list empty, no two empty ones are adjacent, and the last kept
/// line is `t[k - 1]` when that one has text.
proof fn lemma_kept_shape(t: Seq<Seq<char>>, k: int)
    requires
        0 <= k <= t.len(),
    ensures
        ({
            let r = kept_lines(t, k);
            &&& forall|a: int| #![trigger r[a]] 0 <= a < r.len() ==> exists|b: int| #![trigger t[b]] 0 <= b < k && r[a] == t[b]
            &&& r.len() > 0 ==> r[0].len() > 0
            &&& forall|a: int| 0 <= a < r.len() - 1 ==> !(#[trigger] r[a].len() == 0 && r[a + 1].len() == 0)
            &&& (k > 0 && t[k - 1].len() > 0) ==> r.len() > 0 && r.last() == t[k - 1]
        }),
    decreases k,
{
    if k > 0 {
        lemma_kept_shape(t, k - 1);
        let p = kept_lines(t, k - 1);
        let r = kept_lines(t, k);
        if blank_kept(t, k - 1) {
            assert(r == p.push(t[k - 1]));
            assert forall|a: int| #![trigger r[a]] 0 <= a < r.len() implies exists|b: int| #![trigger t[b]] 0 <= b < k && r[a] == t[b] by {
                if a < p.len() {
                    assert(r[a] == p[a]);
                } else {
                    assert(r[a] == t[k - 1]);
                }
            }
            assert forall|a: int| 0 <= a < r.len() - 1 implies !(#[trigger] r[a].len() == 0 && r[a + 1].len() == 0) by {
                if a < p.len() - 1 {
                    assert(r[a] == p[a] && r[a + 1] == p[a + 1]);
                } else {
                    assert(r[a + 1] == t[k - 1]);
                    if t[k - 1].len() == 0 {
                        assert(p.last() == t[k - 2]);
                    }
                }
            }
            if p.len() == 0 {
                assert(t[k - 1].len() > 0);
            } else {
                assert(r[0] == p[0]);
            }
        }
    }
}

proof fn lemma_drop_trailing_empty(ls: Seq<Seq<char>>)
    ensures
        drop_trailing_empty(ls).len() <= ls.len(),
        drop_trailing_empty(ls) == ls.take(drop_trailing_empty(ls).len() as int),
        drop_trailing_empty(ls).len() > 0 ==> drop_trailing_empty(ls).last().len() > 0,
    decreases ls.len(),
{
    if ls.len() > 0 && ls.last().len() == 0 {
        lemma_drop_trailing_empty(ls.drop_last());
        let d = drop_trailing_empty(ls.drop_last());
        assert(ls.drop_last().take(d.len() as int) =~= ls.take(d.len() as int));
    } else {
        assert(ls.take(ls.len() as int) =~= ls);
    }
}

/// The lines `collapse_blank` joins have no trailing whitespace, the first
/// and the last have text, and no two blank lines are adjacent.
pub proof fn law_collapse_blank_shape(src: Seq<char>)
    ensures
        ({
            let t = trimmed_lines(src);
            let r = drop_trailing_empty(kept_lines(t, t.len() as int));
            &&& forall|a: int| 0 <= a < r.len() ==> #[trigger] r[a].len() == 0 || !is_ws(r[a].last())
            &&& r.len() > 0 ==> r[0].len() > 0 && r.last().len() > 0
            &&& forall|a: int| 0 <= a < r.len() - 1 ==> !(#[trigger] r[a].len() == 0 && r[a + 1].len() == 0)
        }),
{
    let t = trimmed_lines(src);
    let k = kept_lines(t, t.len() as int);
    let r = drop_trailing_empty(k);
    lemma_kept_shape(t, t.len() as int);
    lemma_drop_trailing_empty(k);
    assert forall|a: int| 0 <= a < r.len() implies #[trigger] r[a].len() == 0 || !is_ws(r[a].last()) by {
        assert(r[a] == k[a]);
        let b = choose|b: int| #![trigger t[b]] 0 <= b < t.len() && k[a] == t[b];
        assert(t[b] == trim_end(lines(src)[b]));
        lemma_trim_end_clean(lines(src)[b]);
    }
    assert forall|a: int| 0 <= a < r.len() - 1 implies !(#[trigger] r[a].len() == 0 && r[a + 1].len() == 0) by {
        assert(r[a] == k[a] && r[a + 1] == k[a + 1]);
    }
    if r.len() > 0 {
        assert(r[0] == k[0]);
    }
}

// ---------------------------------------------------------------------------
// Collapsing blank lines twice is collapsing them once
// ---------------------------------------------------------------------------

/// Lines as blank collapsing leaves them: no line feed inside, no trailing
/// whitespace, text on the first and the last, no two blank ones adjacent.
pub open spec fn clean_lines(r: Seq<Seq<char>>) -> bool {
    &&& forall|a: int| 0 <= a < r.len() ==> no_newline(#[trigger] r[a])
    &&& forall|a: int| 0 <= a < r.len() ==> #[trigger] r[a].len() == 0 || !is_ws(r[a].last())
    &&& r.len() > 0 ==> r[0].len() > 0 && r.last().len() > 0
    &&& forall|a: int| 0 <= a < r.len() - 1 ==> !(#[trigger] r[a].len() == 0 && r[a + 1].len() == 0)
}

proof fn lemma_line_scan_plain(a: Seq<char>, s: Seq<char>)
    requires
        no_newline(s),
    ensures
        line_scan(a + s) == (line_scan(a).0, line_scan(a).1 + s),
    decreases s.len(),
{
    if s.len() == 0 {
        assert(a + s =~= a);
        assert(line_scan(a).1 + s =~= line_scan(a).1);
    } else {
        let x = s[s.len() - 1];
        lemma_line_scan_plain(a, s.drop_last());
        assert((a + s).drop_last() =~= a + s.drop_last());
        assert((a + s).last() == s.last());
        assert(line_scan(a).1 + s.drop_last() + seq![s.last()] =~= line_scan(a).1 + s);
    }
}

proof fn lemma_line_scan_join(r: Seq<Seq<char>>)
    requires
        r.len() > 0,
        forall|a: int| 0 <= a < r.len() ==> no_newline(#[trigger] r[a]),
        forall|a: int| 0 <= a < r.len() ==> #[trigger] r[a].len() == 0 || !is_ws(r[a].last()),
    ensures
        line_scan(join_lines(r)) == (r.drop_last(), r.last()),
    decreases r.len(),
{
    if r.len() == 1 {
        lemma_line_scan_plain(seq![], r[0]);
        assert(Seq::<char>::empty() + r[0] =~= r[0]);
        assert(Seq::<char>::empty() + r[0] =~= r[0]);
        assert(r.drop_last() =~= Seq::<Seq<char>>::empty());
    } else {
        let p = r.drop_last();
        assert forall|a: int| 0 <= a < p.len() implies no_newline(#[trigger] p[a]) by {
            assert(p[a] == r[a]);
        }
        assert forall|a: int| 0 <= a < p.len() implies #[trigger] p[a].len() == 0 || !is_ws(p[a].last()) by {
            assert(p[a] == r[a]);
        }
        lemma_line_scan_join(p);
        let j = join_lines(p);
        let jn = j + seq!['\n'];
        assert(jn.drop_last() =~= j);
        let last_p = p.last();
        assert(strip_cr(last_p) == last_p) by {
            if last_p.len() > 0 {
                assert(!is_ws(last_p.last()));
            }
        }
        assert(line_scan(jn) == (p.drop_last().push(last_p), Seq::<char>::empty()));
        assert(p.drop_last().push(last_p) =~= p);
        lemma_line_scan_plain(jn, r.last());
        assert(Seq::<char>::empty() + r.last() =~= r.last());
        assert(join_lines(r) == jn + r.last());
    }
}

proof fn lemma_lines_of_join(r: Seq<Seq<char>>)
    requires
        clean_lines(r),
    ensures
        lines(join_lines(r)) == r,
{
    if r.len() > 0 {
        lemma_line_scan_join(r);
        assert(r.drop_last().push(r.last()) =~= r);
    }
}

proof fn lemma_kept_all(r: Seq<Seq<char>>, k: int)
    requires
        clean_lines(r),
        0 <= k <= r.len(),
    ensures
        kept_lines(r, k) == r.take(k),
    decreases k,
{
    if k > 0 {
        lemma_kept_all(r, k - 1);
        assert(blank_kept(r, k - 1)) by {
            if r[k - 1].len() == 0 {
                assert(k - 1 > 0);
                assert(!(r[k - 2].len() == 0 && r[k - 1].len() == 0));
            }
        }
        assert(r.take(k - 1).push(r[k - 1]) =~= r.take(k));
    } else {
        assert(r.take(0) =~= Seq::<Seq<char>>::empty());
    }
}

proof fn lemma_line_scan_no_newline(s: Seq<char>)
    ensures
        forall|a: int| 0 <= a < line_scan(s).0.len() ==> no_newline(#[trigger] line_scan(s).0[a]),
        no_newline(line_scan(s).1),
    decreases s.len(),
{
    if s.len() > 0 {
        lemma_line_scan_no_newline(s.drop_last());
        let (d, c) = line_scan(s.drop_last());
        if s.last() == '\n' {
            assert(no_newline(strip_cr(c))) by {
                if c.len() > 0 && c.last() == '\r' {
                    assert forall|k: int| 0 <= k < c.drop_last().len() implies #[trigger] c.drop_last()[k] != '\n' by {
                        assert(c.drop_last()[k] == c[k]);
                    }
                }
            }
            assert forall|a: int| 0 <= a < d.push(strip_cr(c)).len() implies no_newline(#[trigger] d.push(strip_cr(c))[a]) by {
                if a < d.len() {
                    assert(d.push(strip_cr(c))[a] == d[a]);
                }
            }
        } else {
            assert forall|k: int| 0 <= k < c.push(s.last()).len() implies #[trigger] c.push(s.last())[k] != '\n' by {
                if k < c.len() {
                    assert(c.push(s.last())[k] == c[k]);
                }
            }
        }
    }
}

proof fn lemma_trim_end_prefix(s: Seq<char>)
    ensures
        trim_end(s).len() <= s.len(),
        trim_end(s) == s.take(trim_end(s).len() as int),
    decreases s.len(),
{
    if s.len() > 0 && is_ws(s.last()) {
        lemma_trim_end_prefix(s.drop_last());
        assert(s.drop_last().take(trim_end(s).len() as int) =~= s.take(trim_end(s).len() as int));
    } else {
        assert(s.take(s.len() as int) =~= s);
    }
}

/// The lines of a collapsed text are clean.
proof fn lemma_collapsed_clean(src: Seq<char>)
    ensures
        clean_lines(drop_trailing_empty(kept_lines(trimmed_lines(src), trimmed_lines(src).len() as int))),
{
    let t = trimmed_lines(src);
    let k = kept_lines(t, t.len() as int);
    let r = drop_trailing_empty(k);
    law_collapse_blank_shape(src);
    lemma_kept_shape(t, t.len() as int);
    lemma_drop_trailing_empty(k);
    lemma_line_scan_no_newline(src);
    assert forall|a: int| 0 <= a < r.len() implies no_newline(#[trigger] r[a]) by {
        assert(r[a] == k[a]);
        let b = choose|b: int| #![trigger t[b]] 0 <= b < t.len() && k[a] == t[b];
        let l = lines(src)[b];
        assert(t[b] == trim_end(l));
        assert(no_newline(l)) by {
            let (d, c) = line_scan(src);
            if b < d.len() {
                assert(l == d[b]);
            } else {
                assert(l == c);
            }
        }
        lemma_trim_end_prefix(l);
        assert forall|i: int| 0 <= i < trim_end(l).len() implies #[trigger] trim_end(l)[i] != '\n' by {
            assert(trim_end(l)[i] == l[i]);
        }
    }
}

/// Collapsing blank lines in a text whose blank lines are already collapsed
/// changes nothing.
pub proof fn law_collapse_blank_idempotent(src: Seq<char>)
    ensures
        blank_collapsed(blank_collapsed(src)) == blank_collapsed(src),
{
    let t = trimmed_lines(src);
    let r = drop_trailing_empty(kept_lines(t, t.len() as int));
    lemma_collapsed_clean(src);
    let c = join_lines(r);
    assert(c == blank_collapsed(src));
    lemma_lines_of_join(r);
    assert(trimmed_lines(c) =~= r) by {
        assert forall|a: int| 0 <= a < r.len() implies #[trigger] trimmed_lines(c)[a] == r[a] by {
            assert(trimmed_lines(c)[a] == trim_end(r[a]));
        }
    }
    lemma_kept_all(r, r.len() as int);
    assert(r.take(r.len() as int) =~= r);
    assert(drop_trailing_empty(r) == r);
}

// ---------------------------------------------------------------------------
// Repeat folding leaves text without long repeats unchanged
// ---------------------------------------------------------------------------

/// No three adjacent equal lines of `ls` have text.
pub open spec fn no_long_repeats(ls: Seq<Seq<char>>) -> bool {
    forall|i: int|
        0 <= i && i + 2 < ls.len() && #[trigger] ls[i] == ls[i + 1] && ls[i] == ls[i + 2] ==> all_ws(ls[i])
}

proof fn lemma_deduped_identity(ls: Seq<Seq<char>>, i: int)
    requires
        no_long_repeats(ls),
        0 <= i <= ls.len(),
    ensures
        deduped(ls, i) == ls.skip(i),
    decreases ls.len() - i,
{
    if i == ls.len() {
        assert(ls.skip(i) =~= Seq::<Seq<char>>::empty());
    } else {
        let j = run_end(ls, i, i + 1);
        lemma_run_end(ls, i, i + 1);
        lemma_deduped_identity(ls, j);
        if j - i >= 3 {
            assert(ls[i + 1] == ls[i]);
            assert(ls[i + 2] == ls[i]);
        }
        assert(ls.skip(i) =~= ls.subrange(i, j) + ls.skip(j));
    }
}

/// Folding repeats changes nothing in lines where no run of three or more
/// equal lines has text.
pub proof fn law_dedupe_keeps_short_runs(ls: Seq<Seq<char>>)
    requires
        no_long_repeats(ls),
    ensures
        deduped(ls, 0) == ls,
{
    lemma_deduped_identity(ls, 0);
    assert(ls.skip(0) =~= ls);
}


// ---------------------------------------------------------------------------
// Token estimates and capping
// ---------------------------------------------------------------------------

/// A text never counts more tokens than it has characters.
pub proof fn law_estimate_at_most_chars(s: Seq<char>)
    ensures
        estimate(s) <= s.len(),
{
    lemma_ascii_count_bound(s);
}

/// A text whose estimate is within the cap comes back unchanged, and
/// whenever nothing is cut the text comes back unchanged.
pub proof fn law_fitting_text_unchanged(text: Seq<char>, max: nat)
    ensures
        estimate(text) <= max ==> capped(text, max) == (text, false),
        !capped(text, max).1 ==> capped(text, max).0 == text,
{
}

proof fn lemma_total_cost_front(x: Seq<char>, s: Seq<Seq<char>>)
    ensures
        total_cost(seq![x] + s) == line_cost(x) + total_cost(s),
    decreases s.len(),
{
    if s.len() == 0 {
        assert((seq![x] + s).drop_last() =~= Seq::<Seq<char>>::empty());
        assert(seq![x] + s =~= seq![x]);
        assert(total_cost(Seq::<Seq<char>>::empty()) == 0);
        assert((seq![x] + s).last() == x);
    } else {
        lemma_total_cost_front(x, s.drop_last());
        assert((seq![x] + s).drop_last() =~= seq![x] + s.drop_last());
        assert((seq![x] + s).last() == s.last());
    }
}

proof fn lemma_head_cost(ls: Seq<Seq<char>>, budget: int)
    requires
        budget >= 0,
    ensures
        head_count(ls, budget) <= ls.len(),
        total_cost(ls.take(head_count(ls, budget) as int)) <= budget,
    decreases ls.len(),
{
    lemma_head_count_bound(ls, budget);
    if ls.len() == 0 || line_cost(ls[0]) > budget {
        assert(ls.take(0) =~= Seq::<Seq<char>>::empty());
    } else {
        let rest = ls.drop_first();
        let b2 = budget - line_cost(ls[0]);
        lemma_head_cost(rest, b2);
        let h2 = head_count(rest, b2);
        assert(ls.take(1 + h2 as int) =~= seq![ls[0]] + rest.take(h2 as int));
        lemma_total_cost_front(ls[0], rest.take(h2 as int));
    }
}

proof fn lemma_tail_cost(ls: Seq<Seq<char>>, budget: int)
    requires
        budget >= 0,
    ensures
        tail_count(ls, budget) <= ls.len(),
        total_cost(ls.skip(ls.len() - tail_count(ls, budget))) <= budget,
    decreases ls.len(),
{
    lemma_tail_count_bound(ls, budget);
    if ls.len() == 0 || line_cost(ls.last()) > budget {
        assert(ls.skip(ls.len() as int) =~= Seq::<Seq<char>>::empty());
    } else {
        let rest = ls.drop_last();
        let b2 = budget - line_cost(ls.last());
        lemma_tail_cost(rest, b2);
        let t2 = tail_count(rest, b2);
        let sk = ls.skip(ls.len() - (1 + t2));
        assert(sk.drop_last() =~= rest.skip(rest.len() - t2));
        assert(sk.last() == ls.last());
    }
}

/// Four times the estimate of `s` before rounding up: one per ASCII
/// character, four per other character.
pub open spec fn weight(s: Seq<char>) -> nat {
    ascii_count(s) + 4 * (s.len() - ascii_count(s)) as nat
}

proof fn lemma_weight_push(s: Seq<char>, x: char)
    ensures
        weight(s.push(x)) == weight(s) + if is_ascii_char(x) {
            1nat
        } else {
            4nat
        },
{
    assert(s.push(x).drop_last() =~= s);
    lemma_ascii_count_bound(s);
}

proof fn lemma_estimate_weight(s: Seq<char>)
    ensures
        weight(s) <= 4 * estimate(s),
{
    lemma_ascii_count_bound(s);
    let a = ascii_count(s);
    let o = (s.len() - a) as nat;
    assert(a <= 4 * ((a + 3) / 4)) by (nonlinear_arith);
}

/// Reading `s` line by line: what it weighs is covered by the cost of the
/// lines already closed and the weight of the open one.
proof fn lemma_scan_weight(s: Seq<char>)
    ensures
        weight(s) <= 4 * total_cost(line_scan(s).0) + weight(line_scan(s).1),
    decreases s.len(),
{
    if s.len() == 0 {
        assert(ascii_count(s) == 0);
    } else {
        let p = s.drop_last();
        let x = s.last();
        lemma_scan_weight(p);
        assert(p.push(x) =~= s);
        lemma_weight_push(p, x);
        let (done, cur) = line_scan(p);
        assert(weight(p) <= 4 * total_cost(done) + weight(cur));
        if x == '\n' {
            let l = strip_cr(cur);
            lemma_estimate_weight(l);
            assert(weight(cur) <= weight(l) + 1) by {
                if cur.len() > 0 && cur.last() == '\r' {
                    assert(cur.drop_last().push('\r') =~= cur);
                    lemma_weight_push(cur.drop_last(), '\r');
                }
            }
            assert(line_scan(s) == (done.push(l), Seq::<char>::empty()));
            assert(total_cost(done.push(l)) == total_cost(done) + estimate(l) + 1) by {
                assert(done.push(l).drop_last() =~= done);
            }
            assert(weight(Seq::<char>::empty()) == 0) by {
                assert(ascii_count(Seq::<char>::empty()) == 0);
            }
            assert(weight(s) == weight(p) + 1);
        } else {
            assert(line_scan(s) == (done, cur.push(x)));
            lemma_weight_push(cur, x);
        }
    }
}

/// The estimate of a text is at most the cost of its lines.
proof fn lemma_estimate_within_lines(s: Seq<char>)
    ensures
        estimate(s) <= total_cost(lines(s)),
{
    lemma_scan_weight(s);
    let (done, cur) = line_scan(s);
    let t = total_cost(lines(s));
    if cur.len() > 0 {
        lemma_estimate_weight(cur);
        assert(lines(s).drop_last() =~= done);
    } else {
        assert(ascii_count(cur) == 0) by {
            assert(cur =~= Seq::<char>::empty());
        }
    }
    assert(weight(s) <= 4 * t);
    lemma_ascii_count_bound(s);
    let a = ascii_count(s);
    let o = (s.len() - a) as nat;
    assert((a + 3) / 4 + o <= t) by (nonlinear_arith)
        requires
            a + 4 * o <= 4 * t,
    ;
}

proof fn lemma_total_cost_split(ls: Seq<Seq<char>>, h: int)
    requires
        0 <= h <= ls.len(),
    ensures
        total_cost(ls) == total_cost(ls.take(h)) + total_cost(ls.skip(h)),
    decreases ls.len(),
{
    if h < ls.len() {
        let dl = ls.drop_last();
        lemma_total_cost_split(dl, h);
        assert(dl.take(h) =~= ls.take(h));
        assert(ls.skip(h).drop_last() =~= dl.skip(h));
        assert(ls.skip(h).last() == ls.last());
    } else {
        assert(ls.take(h) =~= ls);
        assert(ls.skip(h) =~= Seq::<Seq<char>>::empty());
        assert(total_cost(Seq::<Seq<char>>::empty()) == 0);
    }
}

/// A text is cut exactly when its estimate is over the cap: within the cap
/// it comes back whole, and over it some lines are always cut, since lines
/// that all fit the head and tail budgets cost no more than the cap.
pub proof fn law_cut_exactly_when_over(text: Seq<char>, max: nat)
    ensures
        capped(text, max).1 <==> estimate(text) > max,
{
    if estimate(text) > max {
        let ls = lines(text);
        let h = head_end(text, max);
        let t = tail_start(text, max);
        lemma_head_cost(ls, (max * 7 / 10) as int);
        let rest = ls.subrange(h as int, ls.len() as int);
        lemma_tail_cost(rest, (max * 2 / 10) as int);
        if t <= h {
            let tc = tail_count(rest, (max * 2 / 10) as int);
            assert(tc == rest.len());
            assert(rest.skip(rest.len() - tc) =~= rest);
            assert(ls.subrange(0, h as int) =~= ls.take(h as int));
            lemma_total_cost_split(ls, h as int);
            assert(ls.skip(h as int) =~= rest);
            lemma_estimate_within_lines(text);
            assert(max * 7 / 10 + max * 2 / 10 <= max) by (nonlinear_arith);
            assert(false);
        }
    }
}

/// When a text is cut, the kept head costs at most 70% of the cap and the
/// kept tail at most 20% of it.
pub proof fn law_cut_within_budgets(text: Seq<char>, max: nat)
    ensures
        capped(text, max).1 ==> ({
            let ls = lines(text);
            &&& total_cost(ls.subrange(0, head_end(text, max) as int)) <= max * 7 / 10
            &&& total_cost(ls.subrange(tail_start(text, max) as int, ls.len() as int)) <= max * 2 / 10
        }),
{
    let ls = lines(text);
    let h = head_end(text, max);
    lemma_head_cost(ls, (max * 7 / 10) as int);
    assert(ls.subrange(0, h as int) == ls.take(h as int));
    let mid = ls.subrange(h as int, ls.len() as int);
    lemma_tail_cost(mid, (max * 2 / 10) as int);
    let t = tail_start(text, max);
    assert(ls.subrange(t as int, ls.len() as int) =~= mid.skip(mid.len() - tail_count(mid, (max * 2 / 10) as int)));
}


// ---------------------------------------------------------------------------
// Pruning changes nothing within the limits, and bounds depth and arrays
// ---------------------------------------------------------------------------

/// `v` is within the limits: no string longer than `max_string`, no array
/// longer than `max_array`, and no container deeper than `depth` levels.
pub open spec fn within_limits(v: JsonView, depth: nat, o: JsonOpts) -> bool
    decreases v,
{
    match v {
        JsonView::String(s) => s.len() <= o.max_string,
        JsonView::Array(a) => depth > 0 && a.len() <= o.max_array && items_within(
            a,
            (depth - 1) as nat,
            o,
        ),
        JsonView::Object(m) => depth > 0 && members_within(m, (depth - 1) as nat, o),
        _ => true,
    }
}

pub open spec fn items_within(a: Seq<JsonView>, depth: nat, o: JsonOpts) -> bool
    decreases a,
{
    a.len() == 0 || (within_limits(a[0], depth, o) && items_within(a.drop_first(), depth, o))
}

pub open spec fn members_within(m: Seq<(Seq<char>, JsonView)>, depth: nat, o: JsonOpts) -> bool
    decreases m,
{
    m.len() == 0 || (within_limits(m[0].1, depth, o) && members_within(m.drop_first(), depth, o))
}

proof fn lemma_pruned_within(v: JsonView, depth: nat, o: JsonOpts)
    requires
        within_limits(v, depth, o),
    ensures
        pruned(v, depth, o) == v,
    decreases v,
{
    match v {
        JsonView::Array(a) => {
            lemma_items_within(a, o.max_array as nat, (depth - 1) as nat, o);
        },
        JsonView::Object(m) => {
            lemma_members_within(m, (depth - 1) as nat, o);
        },
        _ => {},
    }
}

proof fn lemma_items_within(a: Seq<JsonView>, n: nat, depth: nat, o: JsonOpts)
    requires
        items_within(a, depth, o),
        a.len() <= n,
    ensures
        pruned_items(a, n, depth, o) == a,
    decreases a,
{
    if a.len() > 0 {
        lemma_pruned_within(a[0], depth, o);
        lemma_items_within(a.drop_first(), (n - 1) as nat, depth, o);
        assert(seq![a[0]] + a.drop_first() =~= a);
    } else {
        assert(a =~= Seq::<JsonView>::empty());
    }
}

proof fn lemma_members_within(m: Seq<(Seq<char>, JsonView)>, depth: nat, o: JsonOpts)
    requires
        members_within(m, depth, o),
    ensures
        pruned_members(m, depth, o) == m,
    decreases m,
{
    if m.len() > 0 {
        lemma_pruned_within(m[0].1, depth, o);
        lemma_members_within(m.drop_first(), depth, o);
        assert(seq![(m[0].0, m[0].1)] + m.drop_first() =~= m);
    } else {
        assert(m =~= Seq::<(Seq<char>, JsonView)>::empty());
    }
}

/// `v` as pruning at `depth` leaves it: containers nested at most `depth`
/// deep, and each array holding at most `max_array` items and a note.
pub open spec fn sampled(v: JsonView, depth: nat, o: JsonOpts) -> bool
    decreases v,
{
    match v {
        JsonView::Array(a) => depth > 0 && a.len() <= o.max_array + 1 && forall|i: int|
            0 <= i < a.len() ==> sampled(#[trigger] a[i], (depth - 1) as nat, o),
        JsonView::Object(m) => depth > 0 && forall|i: int|
            0 <= i < m.len() ==> sampled(#[trigger] m[i].1, (depth - 1) as nat, o),
        _ => true,
    }
}

proof fn lemma_pruned_items_shape(a: Seq<JsonView>, n: nat, depth: nat, o: JsonOpts)
    ensures
        pruned_items(a, n, depth, o).len() == if a.len() < n {
            a.len()
        } else {
            n
        },
        forall|i: int|
            0 <= i < pruned_items(a, n, depth, o).len() ==> #[trigger] pruned_items(a, n, depth, o)[i]
                == pruned(a[i], depth, o),
    decreases a.len(),
{
    if a.len() > 0 && n > 0 {
        lemma_pruned_items_shape(a.drop_first(), (n - 1) as nat, depth, o);
        let r = pruned_items(a, n, depth, o);
        let t = pruned_items(a.drop_first(), (n - 1) as nat, depth, o);
        assert forall|i: int| 0 <= i < r.len() implies #[trigger] r[i] == pruned(a[i], depth, o) by {
            if i > 0 {
                assert(r[i] == t[i - 1]);
                assert(a.drop_first()[i - 1] == a[i]);
            }
        }
    }
}

proof fn lemma_pruned_members_shape(m: Seq<(Seq<char>, JsonView)>, depth: nat, o: JsonOpts)
    ensures
        pruned_members(m, depth, o).len() == m.len(),
        forall|i: int|
            0 <= i < m.len() ==> #[trigger] pruned_members(m, depth, o)[i] == (m[i].0, pruned(m[i].1, depth, o)),
    decreases m.len(),
{
    if m.len() > 0 {
        lemma_pruned_members_shape(m.drop_first(), depth, o);
        let r = pruned_members(m, depth, o);
        let t = pruned_members(m.drop_first(), depth, o);
        assert forall|i: int| 0 <= i < m.len() implies #[trigger] r[i] == (m[i].0, pruned(m[i].1, depth, o)) by {
            if i > 0 {
                assert(r[i] == t[i - 1]);
                assert(m.drop_first()[i - 1] == m[i]);
            }
        }
    }
}

/// Pruning keeps containers at most `depth` deep and cuts each array to at
/// most `max_array` items and a note of the rest.
pub proof fn law_prune_bounds_depth_and_arrays(v: JsonView, depth: nat, o: JsonOpts)
    ensures
        sampled(pruned(v, depth, o), depth, o),
    decreases v,
{
    match v {
        JsonView::Array(a) => {
            if depth > 0 {
                let d = (depth - 1) as nat;
                let kept = pruned_items(a, o.max_array as nat, d, o);
                lemma_pruned_items_shape(a, o.max_array as nat, d, o);
                assert forall|i: int| 0 <= i < kept.len() implies sampled(#[trigger] kept[i], d, o) by {
                    law_prune_bounds_depth_and_arrays(a[i], d, o);
                }
                if a.len() > o.max_array {
                    let note = JsonView::String("…+"@ + decimal((a.len() - o.max_array) as nat) + " more items"@);
                    let all = kept.push(note);
                    assert forall|i: int| 0 <= i < all.len() implies sampled(#[trigger] all[i], d, o) by {
                        if i < kept.len() {
                            assert(all[i] == kept[i]);
                        }
                    }
                }
            }
        },
        JsonView::Object(m) => {
            if depth > 0 {
                let d = (depth - 1) as nat;
                let kept = pruned_members(m, d, o);
                lemma_pruned_members_shape(m, d, o);
                assert forall|i: int| 0 <= i < kept.len() implies sampled(#[trigger] kept[i].1, d, o) by {
                    law_prune_bounds_depth_and_arrays(m[i].1, d, o);
                }
            }
        },
        _ => {},
    }
}

/// Pruning a document that is within the limits gives it back unchanged.
pub proof fn law_prune_within_limits_is_identity(v: JsonView, depth: nat, o: JsonOpts)
    requires
        within_limits(v, depth, o),
    ensures
        pruned(v, depth, o) == v,
{
    lemma_pruned_within(v, depth, o);
}


// ---------------------------------------------------------------------------
// Search results and map entries stay within their caps
// ---------------------------------------------------------------------------

/// A search holds at most `max_results` results.
pub open spec fn grep_bounded(g: GrepView) -> bool {
    g.results.len() <= g.max_results
}

/// Searching another file keeps a search within its result cap.
pub proof fn law_grep_stays_within_cap(g: GrepView, rel: Seq<char>, content: Seq<char>)
    requires
        grep_bounded(g),
    ensures
        grep_bounded(after_file(g, rel, content)),
{
}

/// A line that ends in `]`: the note that the entry cap cut a level short.
/// Directory lines end in `/` and file lines in their size's `B`.
pub open spec fn is_cap_note(line: Seq<char>) -> bool {
    line.len() > 0 && line.last() == ']'
}

/// The number of lines of `ls` that show an entry, not a cap note.
pub open spec fn entries(ls: Seq<Seq<char>>) -> nat
    decreases ls.len(),
{
    if ls.len() == 0 {
        0
    } else {
        entries(ls.drop_last()) + if is_cap_note(ls.last()) {
            0nat
        } else {
            1nat
        }
    }
}

proof fn lemma_entries_concat(a: Seq<Seq<char>>, b: Seq<Seq<char>>)
    ensures
        entries(a + b) == entries(a) + entries(b),
    decreases b.len(),
{
    if b.len() == 0 {
        assert(a + b =~= a);
    } else {
        lemma_entries_concat(a, b.drop_last());
        assert((a + b).drop_last() =~= a + b.drop_last());
    }
}

proof fn lemma_entries_one(x: Seq<char>)
    ensures
        entries(seq![x]) == if is_cap_note(x) {
            0nat
        } else {
            1nat
        },
{
    assert(seq![x].drop_last() =~= Seq::<Seq<char>>::empty());
    assert(entries(Seq::<Seq<char>>::empty()) == 0);
    assert(seq![x].last() == x);
}

proof fn lemma_cap_line_is_note(level: nat)
    ensures
        is_cap_note(crate::tools::cap_line(level)),
{
    reveal_strlit("… [entry cap reached]");
    let c = crate::tools::cap_line(level);
    assert(c.last() == "… [entry cap reached]"@.last());
}

/// Counting the map of a listing: each line that shows an entry adds one to
/// the count, a cap note adds nothing, and the count stays within the cap.
proof fn lemma_map_count(t: ListingView, level: nat, max_depth: nat, max_entries: nat, count: nat)
    requires
        count <= max_entries,
    ensures
        count <= map_lines(t, level, max_depth, max_entries, count).1 <= max_entries,
        map_lines(t, level, max_depth, max_entries, count).1 == count + entries(
            map_lines(t, level, max_depth, max_entries, count).0,
        ),
    decreases t, 0nat,
{
    if !(level >= max_depth || count >= max_entries) {
        let order = crate::tools::name_order(crate::tools::dir_names(t.dirs), t.dirs.len() as int);
        lemma_map_dirs_count(t.dirs, order, 0, level, max_depth, max_entries, count);
        let d = map_dirs(t.dirs, order, 0, level, max_depth, max_entries, count);
        let forder = crate::tools::name_order(crate::tools::file_names(t.files), t.files.len() as int);
        lemma_map_files_count(t.files, forder, 0, level, max_entries, d.1);
        let f = map_files(t.files, forder, 0, level, max_entries, d.1);
        lemma_entries_concat(d.0, f.0);
    } else {
        assert(entries(Seq::<Seq<char>>::empty()) == 0);
    }
}

proof fn lemma_map_dirs_count(
    dirs: Seq<(Seq<char>, ListingView)>,
    order: Seq<int>,
    j: int,
    level: nat,
    max_depth: nat,
    max_entries: nat,
    count: nat,
)
    requires
        count <= max_entries,
    ensures
        count <= map_dirs(dirs, order, j, level, max_depth, max_entries, count).1 <= max_entries,
        map_dirs(dirs, order, j, level, max_depth, max_entries, count).1 == count + entries(
            map_dirs(dirs, order, j, level, max_depth, max_entries, count).0,
        ),
    decreases dirs, order.len() - j,
{
    if j < 0 || j >= order.len() {
        assert(entries(Seq::<Seq<char>>::empty()) == 0);
    } else if 0 <= order[j] < dirs.len() && crate::tools::skipped_dir(dirs[order[j]].0) {
        lemma_map_dirs_count(dirs, order, j + 1, level, max_depth, max_entries, count);
    } else if count >= max_entries {
        lemma_cap_line_is_note(level);
        lemma_entries_one(crate::tools::cap_line(level));
    } else if 0 <= order[j] < dirs.len() {
        lemma_map_count(dirs[order[j]].1, level + 1, max_depth, max_entries, count + 1);
        let s = map_lines(dirs[order[j]].1, level + 1, max_depth, max_entries, count + 1);
        lemma_map_dirs_count(dirs, order, j + 1, level, max_depth, max_entries, s.1);
        let r = map_dirs(dirs, order, j + 1, level, max_depth, max_entries, s.1);
        let line = crate::tools::indent(level) + dirs[order[j]].0 + seq!['/'];
        lemma_entries_one(line);
        lemma_entries_concat(seq![line], s.0);
        lemma_entries_concat(seq![line] + s.0, r.0);
    } else {
        assert(entries(Seq::<Seq<char>>::empty()) == 0);
    }
}

proof fn lemma_size_label_last(b: nat)
    ensures
        crate::tools::size_label(b).last() == 'B',
{
}

proof fn lemma_map_files_count(
    files: Seq<(Seq<char>, nat)>,
    order: Seq<int>,
    j: int,
    level: nat,
    max_entries: nat,
    count: nat,
)
    requires
        count <= max_entries,
    ensures
        count <= map_files(files, order, j, level, max_entries, count).1 <= max_entries,
        map_files(files, order, j, level, max_entries, count).1 == count + entries(
            map_files(files, order, j, level, max_entries, count).0,
        ),
    decreases order.len() - j,
{
    if j < 0 || j >= order.len() {
        assert(entries(Seq::<Seq<char>>::empty()) == 0);
    } else if count >= max_entries {
        lemma_cap_line_is_note(level);
        lemma_entries_one(crate::tools::cap_line(level));
    } else if 0 <= order[j] < files.len() {
        lemma_map_files_count(files, order, j + 1, level, max_entries, count + 1);
        let r = map_files(files, order, j + 1, level, max_entries, count + 1);
        let f = files[order[j]];
        let line = crate::tools::indent(level) + f.0 + seq![' '] + crate::tools::size_label(f.1);
        lemma_size_label_last(f.1);
        lemma_entries_one(line);
        lemma_entries_concat(seq![line], r.0);
    } else {
        assert(entries(Seq::<Seq<char>>::empty()) == 0);
    }
}

/// A directory map never shows more than `max_entries` entries.
pub proof fn law_dir_map_within_cap(t: ListingView, max_depth: nat, max_entries: nat)
    ensures
        map_lines(t, 0, max_depth, max_entries, 0).1 <= max_entries,
{
    lemma_map_count(t, 0, max_depth, max_entries, 0);
}

/// Mapping a listing from a count within the cap adds to the count exactly
/// the lines that show an entry (a cap note adds nothing), never passes the
/// cap, and adds nothing at all below `max_depth` or once the cap is reached.
pub proof fn law_map_counts_entries(t: ListingView, level: nat, max_depth: nat, max_entries: nat, count: nat)
    requires
        count <= max_entries,
    ensures
        map_lines(t, level, max_depth, max_entries, count).1 == count + entries(
            map_lines(t, level, max_depth, max_entries, count).0,
        ),
        map_lines(t, level, max_depth, max_entries, count).1 <= max_entries,
        (level >= max_depth || count >= max_entries) ==> map_lines(t, level, max_depth, max_entries, count) == (
            Seq::<Seq<char>>::empty(),
            count,
        ),
{
    lemma_map_count(t, level, max_depth, max_entries, count);
}

// ---------------------------------------------------------------------------
// The tools listed are the tools that can be called
// ---------------------------------------------------------------------------

/// Each tool that `tools/list` shows can be called by its name, and a name
/// that calls a tool is one that `tools/list` shows.
pub proof fn law_listed_tools_are_callable(name: Seq<char>)
    ensures
        forall|k: int| 0 <= k < listed_tools().len() ==> (#[trigger] tool_spec(listed_tools()[k])) is Some,
        tool_spec(name) is Some ==> listed_tools().contains(name),
{
    if tool_spec(name) is Some {
        if name == "read_slim"@ {
            assert(listed_tools()[0] == name);
        } else if name == "grep_slim"@ {
            assert(listed_tools()[1] == name);
        } else if name == "dir_map"@ {
            assert(listed_tools()[2] == name);
        } else if name == "json_slim"@ {
            assert(listed_tools()[3] == name);
        } else if name == "text_slim"@ {
            assert(listed_tools()[4] == name);
        } else {
            assert(listed_tools()[5] == name);
        }
    }
}

// ---------------------------------------------------------------------------
// Every answer is headed alike
// ---------------------------------------------------------------------------

/// `s` begins with `p`.
pub open spec fn begins_with(s: Seq<char>, p: Seq<char>) -> bool {
    p.len() <= s.len() && s.take(p.len() as int) == p
}

proof fn lemma_begins_with_concat(a: Seq<char>, b: Seq<char>, p: Seq<char>)
    requires
        begins_with(a, p),
    ensures
        begins_with(a + b, p),
{
    assert((a + b).take(p.len() as int) =~= a.take(p.len() as int));
}

proof fn lemma_heads()
    ensures
        begins_with("[token-slim] "@, "[token-slim] "@),
        begins_with("[token-slim] text level="@, "[token-slim] "@),
        begins_with("[token-slim] json depth≤"@, "[token-slim] "@),
        begins_with("[token-slim] grep /"@, "[token-slim] "@),
        begins_with("[token-slim] dir_map "@, "[token-slim] "@),
{
    reveal_strlit("[token-slim] ");
    reveal_strlit("[token-slim] text level=");
    reveal_strlit("[token-slim] json depth≤");
    reveal_strlit("[token-slim] grep /");
    reveal_strlit("[token-slim] dir_map ");
    assert("[token-slim] "@.take(13) =~= "[token-slim] "@);
    assert("[token-slim] text level="@.take(13) =~= "[token-slim] "@);
    assert("[token-slim] json depth≤"@.take(13) =~= "[token-slim] "@);
    assert("[token-slim] grep /"@.take(13) =~= "[token-slim] "@);
    assert("[token-slim] dir_map "@.take(13) =~= "[token-slim] "@);
}

/// The `n` characters of `s` from position `k`.
pub open spec fn window(s: Seq<char>, k: int, n: int) -> Seq<char> {
    s.subrange(k, k + n)
}

/// `s` begins with `[token-slim] ` and shows the token figures
/// `~x→~y tok (saving)` for `x` tokens before and `y` after.
pub open spec fn shows_figures(s: Seq<char>, x: nat, y: nat) -> bool {
    let f = token_figures(x, y);
    &&& begins_with(s, "[token-slim] "@)
    &&& exists|k: int| 0 <= k && k + f.len() <= s.len() && #[trigger] window(s, k, f.len() as int) == f
}

/// A text made of a head that begins with `[token-slim] `, the figures and a tail.
proof fn lemma_shows(s: Seq<char>, head: Seq<char>, pre: Seq<char>, x: nat, y: nat, post: Seq<char>)
    requires
        begins_with(head, "[token-slim] "@),
        s == pre + token_figures(x, y) + post,
        s == head + s.skip(head.len() as int),
    ensures
        shows_figures(s, x, y),
{
    lemma_begins_with_concat(head, s.skip(head.len() as int), "[token-slim] "@);
    let f = token_figures(x, y);
    assert(window(s, pre.len() as int, f.len() as int) =~= f);
}

/// Every tool's answer begins with `[token-slim] ` and shows the tokens
/// before and after: the text read against the text answered for
/// `read_slim` and `text_slim`, the input against the output for
/// `json_slim`, the files searched against the results for `grep_slim`, the
/// uncapped map against the map shown for `dir_map`, and the text's estimate
/// both times for `token_count`, which removes nothing.
pub proof fn law_answers_show_figures(
    path: Seq<char>,
    text: Seq<char>,
    has_range: bool,
    offset: Option<usize>,
    limit: Option<usize>,
    mode: Option<Seq<char>>,
    level: Option<Seq<char>>,
    strip: Option<bool>,
    cap: nat,
    o: JsonOpts,
    out: Seq<char>,
    pattern: Seq<char>,
    g: GrepView,
    t: ListingView,
    max_depth: nat,
    max_entries: nat,
)
    ensures
        shows_figures(
            read_report(path, text, has_range, offset, limit, mode, strip, cap),
            estimate(text),
            estimate(
                capped(
                    read_rendered(read_window(text, has_range, offset, limit), mode_name(mode), strip, ext_key(path)),
                    cap,
                ).0,
            ),
        ),
        shows_figures(
            text_report(text, level, cap),
            estimate(text),
            estimate(capped(text_work(text, level_name(level)), cap).0),
        ),
        shows_figures(json_report(o, text, out), estimate(text), estimate(out)),
        shows_figures(count_report(path, text), estimate(text), estimate(text)),
        shows_figures(grep_report(pattern, path, g), g.seen_tokens, estimate(join_lines(g.results))),
        shows_figures(
            dir_map_report(path, t, max_depth, max_entries),
            estimate(join_lines(map_lines(t, 0, max_depth, usize::MAX as nat, 0).0)),
            estimate(join_lines(map_lines(t, 0, max_depth, max_entries, 0).0)),
        ),
{
    lemma_heads();
    lemma_read_shows(path, text, has_range, offset, limit, mode, strip, cap);
    lemma_text_shows(text, level, cap);
    lemma_json_shows(o, text, out);
    lemma_count_shows(path, text);
    lemma_grep_shows(pattern, path, g);
    lemma_map_shows(path, t, max_depth, max_entries);
}

proof fn lemma_read_shows(
    path: Seq<char>,
    text: Seq<char>,
    has_range: bool,
    offset: Option<usize>,
    limit: Option<usize>,
    mode: Option<Seq<char>>,
    strip: Option<bool>,
    cap: nat,
)
    ensures
        shows_figures(
            read_report(path, text, has_range, offset, limit, mode, strip, cap),
            estimate(text),
            estimate(
                capped(
                    read_rendered(read_window(text, has_range, offset, limit), mode_name(mode), strip, ext_key(path)),
                    cap,
                ).0,
            ),
        ),
{
    lemma_heads();
    let r = read_report(path, text, has_range, offset, limit, mode, strip, cap);
    let m = mode_name(mode);
    let (fin, cut) = capped(read_rendered(read_window(text, has_range, offset, limit), m, strip, ext_key(path)), cap);
    let h = "[token-slim] "@;
    let pre = h + path + " mode="@ + m + " lines="@ + decimal(lines(text).len());
    let post = capped_note(cut) + "\n"@ + fin;
    assert(r =~= pre + token_figures(estimate(text), estimate(fin)) + post);
    assert(r =~= h + r.skip(h.len() as int));
    lemma_shows(r, h, pre, estimate(text), estimate(fin), post);
}

proof fn lemma_text_shows(text: Seq<char>, level: Option<Seq<char>>, cap: nat)
    ensures
        shows_figures(
            text_report(text, level, cap),
            estimate(text),
            estimate(capped(text_work(text, level_name(level)), cap).0),
        ),
{
    lemma_heads();
    let x = text_report(text, level, cap);
    let l = level_name(level);
    let (fin, cut) = capped(text_work(text, l), cap);
    let h = "[token-slim] text level="@;
    let pre = h + l;
    let post = capped_note(cut) + "\n"@ + fin;
    assert(x =~= pre + token_figures(estimate(text), estimate(fin)) + post);
    assert(x =~= h + x.skip(h.len() as int));
    lemma_shows(x, h, pre, estimate(text), estimate(fin), post);
}

proof fn lemma_json_shows(o: JsonOpts, text: Seq<char>, out: Seq<char>)
    ensures
        shows_figures(json_report(o, text, out), estimate(text), estimate(out)),
{
    lemma_heads();
    let x = json_report(o, text, out);
    let h = "[token-slim] json depth≤"@;
    let pre = h + decimal(o.max_depth as nat) + " array≤"@ + decimal(o.max_array as nat) + " string≤"@
        + decimal(o.max_string as nat);
    let post = "\n"@ + out;
    assert(x =~= pre + token_figures(estimate(text), estimate(out)) + post);
    assert(x =~= h + x.skip(h.len() as int));
    lemma_shows(x, h, pre, estimate(text), estimate(out), post);
}

proof fn lemma_count_shows(label: Seq<char>, text: Seq<char>)
    ensures
        shows_figures(count_report(label, text), estimate(text), estimate(text)),
{
    lemma_heads();
    let x = count_report(label, text);
    let h = "[token-slim] "@;
    let f = token_figures(estimate(text), estimate(text));
    let pre = x.take(x.len() - f.len());
    assert(x =~= pre + f + Seq::<char>::empty());
    assert(x =~= h + x.skip(h.len() as int));
    lemma_shows(x, h, pre, estimate(text), estimate(text), Seq::<char>::empty());
}

proof fn lemma_grep_shows(pattern: Seq<char>, root: Seq<char>, g: GrepView)
    ensures
        shows_figures(grep_report(pattern, root, g), g.seen_tokens, estimate(join_lines(g.results))),
{
    lemma_heads();
    let x = grep_report(pattern, root, g);
    let h = "[token-slim] grep /"@;
    let pre = h + pattern + "/ in "@ + root + ": "@ + decimal(g.results.len()) + " matches, "@ + decimal(
        g.scanned,
    ) + " files scanned"@;
    let f = token_figures(g.seen_tokens, estimate(join_lines(g.results)));
    let post = x.skip((pre.len() + f.len()) as int);
    assert(x =~= pre + f + post);
    assert(x =~= h + x.skip(h.len() as int));
    lemma_shows(x, h, pre, g.seen_tokens, estimate(join_lines(g.results)), post);
}

proof fn lemma_map_shows(root: Seq<char>, t: ListingView, max_depth: nat, max_entries: nat)
    ensures
        shows_figures(
            dir_map_report(root, t, max_depth, max_entries),
            estimate(join_lines(map_lines(t, 0, max_depth, usize::MAX as nat, 0).0)),
            estimate(join_lines(map_lines(t, 0, max_depth, max_entries, 0).0)),
        ),
{
    lemma_heads();
    let x = dir_map_report(root, t, max_depth, max_entries);
    let (ls, n) = map_lines(t, 0, max_depth, max_entries, 0);
    let a = estimate(join_lines(map_lines(t, 0, max_depth, usize::MAX as nat, 0).0));
    let b = estimate(join_lines(ls));
    let h = "[token-slim] dir_map "@;
    let pre = h + root + " depth≤"@ + decimal(max_depth) + " entries="@ + decimal(n);
    let post = "\n"@ + join_lines(ls);
    assert(x =~= pre + token_figures(a, b) + post);
    assert(x =~= h + x.skip(h.len() as int));
    lemma_shows(x, h, pre, a, b, post);
}

// ---------------------------------------------------------------------------
// Each language gets its comment syntax
// ---------------------------------------------------------------------------

/// Extensions of languages whose comments are `//` and `/* */`: Rust, JS/TS,
/// Go, Java, C/C++, C#, Swift, Kotlin, Scala, Dart, PHP, CSS, Protobuf, Zig,
/// Objective-C.
pub open spec fn slash_comment_exts() -> Seq<Seq<char>> {
    seq!["rs"@, "js"@, "jsx"@, "ts"@, "tsx"@, "mjs"@, "cjs"@, "java"@, "c"@, "h"@, "cpp"@, "cc"@, "hpp"@, "go"@, "swift"@, "kt"@, "kts"@, "scala"@, "cs"@, "dart"@, "php"@, "css"@, "scss"@, "less"@, "proto"@, "zig"@, "m"@, "mm"@]
}

/// Extensions of languages whose comments start with `#`: Python, Ruby,
/// shells, YAML, TOML, Perl, R, Julia, Elixir, Terraform, Nix, Make, CMake,
/// Dockerfile, ignore and env files.
pub open spec fn hash_comment_exts() -> Seq<Seq<char>> {
    seq!["py"@, "rb"@, "sh"@, "bash"@, "zsh"@, "fish"@, "yaml"@, "yml"@, "toml"@, "pl"@, "r"@, "jl"@, "ex"@, "exs"@, "tf"@, "nix"@, "mk"@, "cmake"@, "dockerfile"@, "gitignore"@, "env"@]
}

/// Extensions of markup whose comments are `<!-- -->`.
pub open spec fn markup_comment_exts() -> Seq<Seq<char>> {
    seq!["html"@, "htm"@, "xml"@, "vue"@, "svelte"@, "svg"@]
}


/// The comment syntax each language gets: `//` and `/* */` for the C-like
/// languages, `#` for the scripting and configuration languages, `--` and
/// `/* */` for SQL, `--` and `--[[ ]]` for Lua, `<!-- -->` for markup, and
/// none for any other extension.
pub proof fn law_comment_styles(ext: Seq<char>)
    ensures
        slash_comment_exts().contains(ext) ==> style_for(ext) == (StyleView {
            line: seq![seq!['/', '/']],
            block: seq![(seq!['/', '*'], seq!['*', '/'])],
        }),
        hash_comment_exts().contains(ext) ==> style_for(ext) == (StyleView { line: seq![seq!['#']], block: seq![] }),
        ext == "sql"@ ==> style_for(ext) == (StyleView {
            line: seq![seq!['-', '-']],
            block: seq![(seq!['/', '*'], seq!['*', '/'])],
        }),
        ext == "lua"@ ==> style_for(ext) == (StyleView {
            line: seq![seq!['-', '-']],
            block: seq![(seq!['-', '-', '[', '['], seq![']', ']'])],
        }),
        markup_comment_exts().contains(ext) ==> style_for(ext) == (StyleView {
            line: seq![],
            block: seq![(seq!['<', '!', '-', '-'], seq!['-', '-', '>'])],
        }),
        !slash_comment_exts().contains(ext) && !hash_comment_exts().contains(ext) && ext != "sql"@ && ext
            != "lua"@ && !markup_comment_exts().contains(ext) ==> style_for(ext) == (StyleView {
            line: seq![],
            block: seq![],
        }),
{
    reveal_strlit("rs");
    assert("rs"@ =~= seq!['r', 's']);
    assert("rs"@[0] == 'r');
    reveal_strlit("js");
    assert("js"@ =~= seq!['j', 's']);
    assert("js"@[0] == 'j');
    reveal_strlit("jsx");
    assert("jsx"@ =~= seq!['j', 's', 'x']);
    assert("jsx"@[0] == 'j');
    reveal_strlit("ts");
    assert("ts"@ =~= seq!['t', 's']);
    assert("ts"@[0] == 't');
    reveal_strlit("tsx");
    assert("tsx"@ =~= seq!['t', 's', 'x']);
    assert("tsx"@[0] == 't');
    reveal_strlit("mjs");
    assert("mjs"@ =~= seq!['m', 'j', 's']);
    assert("mjs"@[0] == 'm');
    reveal_strlit("cjs");
    assert("cjs"@ =~= seq!['c', 'j', 's']);
    assert("cjs"@[0] == 'c');
    reveal_strlit("java");
    assert("java"@ =~= seq!['j', 'a', 'v', 'a']);
    assert("java"@[0] == 'j');
    reveal_strlit("c");
    assert("c"@ =~= seq!['c']);
    assert("c"@[0] == 'c');
    reveal_strlit("h");
    assert("h"@ =~= seq!['h']);
    assert("h"@[0] == 'h');
    reveal_strlit("cpp");
    assert("cpp"@ =~= seq!['c', 'p', 'p']);
    assert("cpp"@[0] == 'c');
    reveal_strlit("cc");
    assert("cc"@ =~= seq!['c', 'c']);
    assert("cc"@[0] == 'c');
    reveal_strlit("hpp");
    assert("hpp"@ =~= seq!['h', 'p', 'p']);
    assert("hpp"@[0] == 'h');
    reveal_strlit("go");
    assert("go"@ =~= seq!['g', 'o']);
    assert("go"@[0] == 'g');
    reveal_strlit("swift");
    assert("swift"@ =~= seq!['s', 'w', 'i', 'f', 't']);
    assert("swift"@[0] == 's');
    reveal_strlit("kt");
    assert("kt"@ =~= seq!['k', 't']);
    assert("kt"@[0] == 'k');
    reveal_strlit("kts");
    assert("kts"@ =~= seq!['k', 't', 's']);
    assert("kts"@[0] == 'k');
    reveal_strlit("scala");
    assert("scala"@ =~= seq!['s', 'c', 'a', 'l', 'a']);
    assert("scala"@[0] == 's');
    reveal_strlit("cs");
    assert("cs"@ =~= seq!['c', 's']);
    assert("cs"@[0] == 'c');
    reveal_strlit("dart");
    assert("dart"@ =~= seq!['d', 'a', 'r', 't']);
    assert("dart"@[0] == 'd');
    reveal_strlit("php");
    assert("php"@ =~= seq!['p', 'h', 'p']);
    assert("php"@[0] == 'p');
    reveal_strlit("css");
    assert("css"@ =~= seq!['c', 's', 's']);
    assert("css"@[0] == 'c');
    reveal_strlit("scss");
    assert("scss"@ =~= seq!['s', 'c', 's', 's']);
    assert("scss"@[0] == 's');
    reveal_strlit("less");
    assert("less"@ =~= seq!['l', 'e', 's', 's']);
    assert("less"@[0] == 'l');
    reveal_strlit("proto");
    assert("proto"@ =~= seq!['p', 'r', 'o', 't', 'o']);
    assert("proto"@[0] == 'p');
    reveal_strlit("zig");
    assert("zig"@ =~= seq!['z', 'i', 'g']);
    assert("zig"@[0] == 'z');
    reveal_strlit("m");
    assert("m"@ =~= seq!['m']);
    assert("m"@[0] == 'm');
    reveal_strlit("mm");
    assert("mm"@ =~= seq!['m', 'm']);
    assert("mm"@[0] == 'm');
    reveal_strlit("py");
    assert("py"@ =~= seq!['p', 'y']);
    assert("py"@[0] == 'p');
    reveal_strlit("rb");
    assert("rb"@ =~= seq!['r', 'b']);
    assert("rb"@[0] == 'r');
    reveal_strlit("sh");
    assert("sh"@ =~= seq!['s', 'h']);
    assert("sh"@[0] == 's');
    reveal_strlit("bash");
    assert("bash"@ =~= seq!['b', 'a', 's', 'h']);
    assert("bash"@[0] == 'b');
    reveal_strlit("zsh");
    assert("zsh"@ =~= seq!['z', 's', 'h']);
    assert("zsh"@[0] == 'z');
    reveal_strlit("fish");
    assert("fish"@ =~= seq!['f', 'i', 's', 'h']);
    assert("fish"@[0] == 'f');
    reveal_strlit("yaml");
    assert("yaml"@ =~= seq!['y', 'a', 'm', 'l']);
    assert("yaml"@[0] == 'y');
    reveal_strlit("yml");
    assert("yml"@ =~= seq!['y', 'm', 'l']);
    assert("yml"@[0] == 'y');
    reveal_strlit("toml");
    assert("toml"@ =~= seq!['t', 'o', 'm', 'l']);
    assert("toml"@[0] == 't');
    reveal_strlit("pl");
    assert("pl"@ =~= seq!['p', 'l']);
    assert("pl"@[0] == 'p');
    reveal_strlit("r");
    assert("r"@ =~= seq!['r']);
    assert("r"@[0] == 'r');
    reveal_strlit("jl");
    assert("jl"@ =~= seq!['j', 'l']);
    assert("jl"@[0] == 'j');
    reveal_strlit("ex");
    assert("ex"@ =~= seq!['e', 'x']);
    assert("ex"@[0] == 'e');
    reveal_strlit("exs");
    assert("exs"@ =~= seq!['e', 'x', 's']);
    assert("exs"@[0] == 'e');
    reveal_strlit("tf");
    assert("tf"@ =~= seq!['t', 'f']);
    assert("tf"@[0] == 't');
    reveal_strlit("nix");
    assert("nix"@ =~= seq!['n', 'i', 'x']);
    assert("nix"@[0] == 'n');
    reveal_strlit("mk");
    assert("mk"@ =~= seq!['m', 'k']);
    assert("mk"@[0] == 'm');
    reveal_strlit("cmake");
    assert("cmake"@ =~= seq!['c', 'm', 'a', 'k', 'e']);
    assert("cmake"@[0] == 'c');
    reveal_strlit("dockerfile");
    assert("dockerfile"@ =~= seq!['d', 'o', 'c', 'k', 'e', 'r', 'f', 'i', 'l', 'e']);
    assert("dockerfile"@[0] == 'd');
    reveal_strlit("gitignore");
    assert("gitignore"@ =~= seq!['g', 'i', 't', 'i', 'g', 'n', 'o', 'r', 'e']);
    assert("gitignore"@[0] == 'g');
    reveal_strlit("env");
    assert("env"@ =~= seq!['e', 'n', 'v']);
    assert("env"@[0] == 'e');
    reveal_strlit("sql");
    assert("sql"@ =~= seq!['s', 'q', 'l']);
    assert("sql"@[0] == 's');
    reveal_strlit("lua");
    assert("lua"@ =~= seq!['l', 'u', 'a']);
    assert("lua"@[0] == 'l');
    reveal_strlit("html");
    assert("html"@ =~= seq!['h', 't', 'm', 'l']);
    assert("html"@[0] == 'h');
    reveal_strlit("htm");
    assert("htm"@ =~= seq!['h', 't', 'm']);
    assert("htm"@[0] == 'h');
    reveal_strlit("xml");
    assert("xml"@ =~= seq!['x', 'm', 'l']);
    assert("xml"@[0] == 'x');
    reveal_strlit("vue");
    assert("vue"@ =~= seq!['v', 'u', 'e']);
    assert("vue"@[0] == 'v');
    reveal_strlit("svelte");
    assert("svelte"@ =~= seq!['s', 'v', 'e', 'l', 't', 'e']);
    assert("svelte"@[0] == 's');
    reveal_strlit("svg");
    assert("svg"@ =~= seq!['s', 'v', 'g']);
    assert("svg"@[0] == 's');
    if slash_comment_exts().contains(ext) {
        let k = choose|k: int| 0 <= k < slash_comment_exts().len() && slash_comment_exts()[k] == ext;
        assert(crate::slim::is_c_family(ext));
    }
    if hash_comment_exts().contains(ext) {
        let k = choose|k: int| 0 <= k < hash_comment_exts().len() && hash_comment_exts()[k] == ext;
        assert(crate::slim::is_hash_family(ext));
        if ext == "py"@ { assert(!crate::slim::is_c_family(ext)); } else if ext == "rb"@ { assert(!crate::slim::is_c_family(ext)); } else if ext == "sh"@ { assert(!crate::slim::is_c_family(ext)); } else if ext == "bash"@ { assert(!crate::slim::is_c_family(ext)); } else if ext == "zsh"@ { assert(!crate::slim::is_c_family(ext)); } else if ext == "fish"@ { assert(!crate::slim::is_c_family(ext)); } else if ext == "yaml"@ { assert(!crate::slim::is_c_family(ext)); } else if ext == "yml"@ { assert(!crate::slim::is_c_family(ext)); } else if ext == "toml"@ { assert(!crate::slim::is_c_family(ext)); } else if ext == "pl"@ { assert(!crate::slim::is_c_family(ext)); } else if ext == "r"@ { assert(!crate::slim::is_c_family(ext)); } else if ext == "jl"@ { assert(!crate::slim::is_c_family(ext)); } else if ext == "ex"@ { assert(!crate::slim::is_c_family(ext)); } else if ext == "exs"@ { assert(!crate::slim::is_c_family(ext)); } else if ext == "tf"@ { assert(!crate::slim::is_c_family(ext)); } else if ext == "nix"@ { assert(!crate::slim::is_c_family(ext)); } else if ext == "mk"@ { assert(!crate::slim::is_c_family(ext)); } else if ext == "cmake"@ { assert(!crate::slim::is_c_family(ext)); } else if ext == "dockerfile"@ { assert(!crate::slim::is_c_family(ext)); } else if ext == "gitignore"@ { assert(!crate::slim::is_c_family(ext)); } else if ext == "env"@ { assert(!crate::slim::is_c_family(ext)); }
    }
    if markup_comment_exts().contains(ext) {
        let k = choose|k: int| 0 <= k < markup_comment_exts().len() && markup_comment_exts()[k] == ext;
        assert(crate::slim::is_markup_family(ext));
        if ext == "html"@ { assert(!crate::slim::is_c_family(ext)); assert(!crate::slim::is_hash_family(ext)); } else if ext == "htm"@ { assert(!crate::slim::is_c_family(ext)); assert(!crate::slim::is_hash_family(ext)); } else if ext == "xml"@ { assert(!crate::slim::is_c_family(ext)); assert(!crate::slim::is_hash_family(ext)); } else if ext == "vue"@ { assert(!crate::slim::is_c_family(ext)); assert(!crate::slim::is_hash_family(ext)); } else if ext == "svelte"@ { assert(!crate::slim::is_c_family(ext)); assert(!crate::slim::is_hash_family(ext)); } else if ext == "svg"@ { assert(!crate::slim::is_c_family(ext)); assert(!crate::slim::is_hash_family(ext)); }
    }
    if ext == "sql"@ || ext == "lua"@ {
        assert(!crate::slim::is_c_family(ext));
        assert(!crate::slim::is_hash_family(ext));
    }
    if crate::slim::is_c_family(ext) {
        assert(slash_comment_exts().contains(ext)) by {
            if ext == "rs"@ { assert(slash_comment_exts()[0] == ext); } if ext == "js"@ { assert(slash_comment_exts()[1] == ext); } if ext == "jsx"@ { assert(slash_comment_exts()[2] == ext); } if ext == "ts"@ { assert(slash_comment_exts()[3] == ext); } if ext == "tsx"@ { assert(slash_comment_exts()[4] == ext); } if ext == "mjs"@ { assert(slash_comment_exts()[5] == ext); } if ext == "cjs"@ { assert(slash_comment_exts()[6] == ext); } if ext == "java"@ { assert(slash_comment_exts()[7] == ext); } if ext == "c"@ { assert(slash_comment_exts()[8] == ext); } if ext == "h"@ { assert(slash_comment_exts()[9] == ext); } if ext == "cpp"@ { assert(slash_comment_exts()[10] == ext); } if ext == "cc"@ { assert(slash_comment_exts()[11] == ext); } if ext == "hpp"@ { assert(slash_comment_exts()[12] == ext); } if ext == "go"@ { assert(slash_comment_exts()[13] == ext); } if ext == "swift"@ { assert(slash_comment_exts()[14] == ext); } if ext == "kt"@ { assert(slash_comment_exts()[15] == ext); } if ext == "kts"@ { assert(slash_comment_exts()[16] == ext); } if ext == "scala"@ { assert(slash_comment_exts()[17] == ext); } if ext == "cs"@ { assert(slash_comment_exts()[18] == ext); } if ext == "dart"@ { assert(slash_comment_exts()[19] == ext); } if ext == "php"@ { assert(slash_comment_exts()[20] == ext); } if ext == "css"@ { assert(slash_comment_exts()[21] == ext); } if ext == "scss"@ { assert(slash_comment_exts()[22] == ext); } if ext == "less"@ { assert(slash_comment_exts()[23] == ext); } if ext == "proto"@ { assert(slash_comment_exts()[24] == ext); } if ext == "zig"@ { assert(slash_comment_exts()[25] == ext); } if ext == "m"@ { assert(slash_comment_exts()[26] == ext); } if ext == "mm"@ { assert(slash_comment_exts()[27] == ext); } 
        }
    }
    if crate::slim::is_hash_family(ext) {
        assert(hash_comment_exts().contains(ext)) by {
            if ext == "py"@ { assert(hash_comment_exts()[0] == ext); } if ext == "rb"@ { assert(hash_comment_exts()[1] == ext); } if ext == "sh"@ { assert(hash_comment_exts()[2] == ext); } if ext == "bash"@ { assert(hash_comment_exts()[3] == ext); } if ext == "zsh"@ { assert(hash_comment_exts()[4] == ext); } if ext == "fish"@ { assert(hash_comment_exts()[5] == ext); } if ext == "yaml"@ { assert(hash_comment_exts()[6] == ext); } if ext == "yml"@ { assert(hash_comment_exts()[7] == ext); } if ext == "toml"@ { assert(hash_comment_exts()[8] == ext); } if ext == "pl"@ { assert(hash_comment_exts()[9] == ext); } if ext == "r"@ { assert(hash_comment_exts()[10] == ext); } if ext == "jl"@ { assert(hash_comment_exts()[11] == ext); } if ext == "ex"@ { assert(hash_comment_exts()[12] == ext); } if ext == "exs"@ { assert(hash_comment_exts()[13] == ext); } if ext == "tf"@ { assert(hash_comment_exts()[14] == ext); } if ext == "nix"@ { assert(hash_comment_exts()[15] == ext); } if ext == "mk"@ { assert(hash_comment_exts()[16] == ext); } if ext == "cmake"@ { assert(hash_comment_exts()[17] == ext); } if ext == "dockerfile"@ { assert(hash_comment_exts()[18] == ext); } if ext == "gitignore"@ { assert(hash_comment_exts()[19] == ext); } if ext == "env"@ { assert(hash_comment_exts()[20] == ext); } 
        }
    }
    if crate::slim::is_markup_family(ext) {
        assert(markup_comment_exts().contains(ext)) by {
            if ext == "html"@ { assert(markup_comment_exts()[0] == ext); } if ext == "htm"@ { assert(markup_comment_exts()[1] == ext); } if ext == "xml"@ { assert(markup_comment_exts()[2] == ext); } if ext == "vue"@ { assert(markup_comment_exts()[3] == ext); } if ext == "svelte"@ { assert(markup_comment_exts()[4] == ext); } if ext == "svg"@ { assert(markup_comment_exts()[5] == ext); } 
        }
    }
}

proof fn lemma_line_comment_to_end(cs: Seq<char>, st: StyleView, i: int)
    requires
        0 <= i <= cs.len(),
        forall|k: int| i <= k < cs.len() ==> cs[k] != '\n',
    ensures
        scan(cs, st, i, ScanMode::LineComment) == Seq::<char>::empty(),
    decreases cs.len() - i,
{
    if i == cs.len() {
        lemma_scan_end(cs, st, i, ScanMode::LineComment);
    } else {
        lemma_scan_line_comment(cs, st, i);
        lemma_line_comment_to_end(cs, st, i + 1);
    }
}

/// A line comment that runs to the end of the text is removed whole: for
/// the C-like languages a text `//…` without a line break strips to nothing,
/// and so does `#…` for the `#` languages (unless it is a `#!` line).
pub proof fn law_line_comment_removed(ext: Seq<char>, s: Seq<char>)
    requires
        no_newline(s),
    ensures
        slash_comment_exts().contains(ext) ==> stripped(seq!['/', '/'] + s, ext) == Seq::<char>::empty(),
        hash_comment_exts().contains(ext) && (s.len() == 0 || s[0] != '!') ==> stripped(seq!['#'] + s, ext)
            == Seq::<char>::empty(),
{
    law_comment_styles(ext);
    let st = style_for(ext);
    if slash_comment_exts().contains(ext) {
        let cs = seq!['/', '/'] + s;
        assert(cs[0] == '/' && cs[1] == '/');
        assert(!crate::slim::opens(cs, 0, st.block[0].0)) by {
            assert(st.block[0].0[1] == '*');
        }
        assert(crate::slim::first_block(cs, 0, st.block, 1) is None);
        assert(crate::slim::first_block(cs, 0, st.block, 0) is None);
        assert(line_at(cs, 0, st.line)) by {
            let t = st.line[0];
            assert(starts_at(cs, 0, t));
        }
        assert(!starts_at(cs, 0, seq!['#', '!'])) by {
            let x = seq!['#', '!'][0];
        }
        lemma_scan_code(cs, st, 0);
        assert forall|k: int| 1 <= k < cs.len() implies cs[k] != '\n' by {
            if k >= 2 {
                assert(cs[k] == s[k - 2]);
            }
        }
        lemma_line_comment_to_end(cs, st, 1);
    }
    if hash_comment_exts().contains(ext) && (s.len() == 0 || s[0] != '!') {
        let cs = seq!['#'] + s;
        assert(cs[0] == '#');
        assert(crate::slim::first_block(cs, 0, st.block, 0) is None);
        assert(line_at(cs, 0, st.line)) by {
            let t = st.line[0];
            assert(starts_at(cs, 0, t));
        }
        assert(!starts_at(cs, 0, seq!['#', '!'])) by {
            let x = seq!['#', '!'][1];
            if s.len() > 0 {
                assert(cs[1] == s[0]);
            }
        }
        lemma_scan_code(cs, st, 0);
        assert forall|k: int| 1 <= k < cs.len() implies cs[k] != '\n' by {
            assert(cs[k] == s[k - 1]);
        }
        lemma_line_comment_to_end(cs, st, 1);
    }
}

/// The lines `ls` cut between `h` and `t`: the lines before `h`, a marker
/// counting the lines and tokens left out, and the lines from `t` on, each
/// run in source order.
pub open spec fn in_order_cut(ls: Seq<Seq<char>>, h: int, t: int) -> Seq<char> {
    join_lines(ls.take(h)) + snip_marker((t - h) as nat, total_cost(ls.subrange(h, t))) + join_lines(ls.skip(t))
}

/// A cut text is its first lines, a marker, and its last lines: one run
/// from the start and one run to the end of its lines, both in source
/// order, with the marker counting what lies between.
pub proof fn law_cut_keeps_head_and_tail_in_order(text: Seq<char>, max: nat)
    ensures
        capped(text, max).1 ==> exists|h: int, t: int|
            0 <= h < t <= lines(text).len() && capped(text, max).0 == #[trigger] in_order_cut(lines(text), h, t),
{
    if capped(text, max).1 {
        let ls = lines(text);
        let h = head_end(text, max) as int;
        let t = tail_start(text, max) as int;
        lemma_head_count_bound(ls, (max * 7 / 10) as int);
        let rest = ls.subrange(h, ls.len() as int);
        lemma_tail_count_bound(rest, (max * 2 / 10) as int);
        assert(ls.subrange(0, h) =~= ls.take(h));
        assert(ls.subrange(t, ls.len() as int) =~= ls.skip(t));
        assert(capped(text, max).0 == in_order_cut(ls, h, t));
    }
}

/// A search that is not literal looks for the user's pattern exactly as
/// given, with the case sensitivity asked for: a fresh search through a
/// one-line file finds that line exactly when the pattern, compiled with
/// that case sensitivity, matches it.
pub proof fn law_plain_search_matches_as_given(
    p: Seq<char>,
    ignore_case: bool,
    exts: Option<Seq<Seq<char>>>,
    max_results: nat,
    rel: Seq<char>,
    line: Seq<char>,
)
    requires
        no_newline(line),
        line.len() > 0,
        max_results >= 1,
    ensures
        grep_source(p, false) == p,
        ({
            let g = GrepView {
                pattern: (grep_source(p, false), ignore_case),
                exts,
                max_results,
                results: seq![],
                scanned: 0,
                seen_tokens: 0,
                capped: false,
            };
            after_file(g, rel, line).results.len() == if crate::search::regex_matches(p, ignore_case, line) {
                1nat
            } else {
                0nat
            }
        }),
{
    lemma_line_scan_plain(seq![], line);
    assert(Seq::<char>::empty() + line =~= line);
    assert(Seq::<char>::empty() + line =~= line);
    assert(lines(line) =~= seq![line]);
    let pat = (p, ignore_case);
    let ls = seq![line];
    assert(ls[0] == line);
    assert(file_hits(pat, rel, ls, 0) == Seq::<Seq<char>>::empty());
    let hits = file_hits(pat, rel, ls, 1);
    assert(hits.len() == if crate::search::regex_matches(p, ignore_case, line) { 1nat } else { 0nat });
}

/// `l` begins with `n` spaces.
pub open spec fn starts_blank(l: Seq<char>, n: nat) -> bool {
    n <= l.len() && forall|k: int| 0 <= k < n ==> #[trigger] l[k] == ' '
}

/// Every line of `ls` begins with `n` spaces.
pub open spec fn indented(ls: Seq<Seq<char>>, n: nat) -> bool {
    forall|i: int| 0 <= i < ls.len() ==> #[trigger] starts_blank(ls[i], n)
}

/// The indentation of a map entry at level `level` is exactly two spaces
/// per level.
pub proof fn law_indent_two_spaces_per_level(level: nat)
    ensures
        crate::tools::indent(level).len() == 2 * level,
        forall|k: int| 0 <= k < 2 * level ==> #[trigger] crate::tools::indent(level)[k] == ' ',
    decreases level,
{
    if level > 0 {
        law_indent_two_spaces_per_level((level - 1) as nat);
        let p = crate::tools::indent((level - 1) as nat);
        assert forall|k: int| 0 <= k < 2 * level implies #[trigger] crate::tools::indent(level)[k] == ' ' by {
            if k < p.len() {
                assert(crate::tools::indent(level)[k] == p[k]);
            }
        }
    }
}

proof fn lemma_line_indented(x: Seq<char>, level: nat, rest: Seq<char>)
    requires
        x == crate::tools::indent(level) + rest,
    ensures
        indented(seq![x], 2 * level),
{
    law_indent_two_spaces_per_level(level);
    assert(starts_blank(x, 2 * level)) by {
        assert forall|k: int| 0 <= k < 2 * level implies #[trigger] x[k] == ' ' by {
            assert(x[k] == crate::tools::indent(level)[k]);
        }
    }
    assert(seq![x][0] == x);
}

proof fn lemma_indented_concat(a: Seq<Seq<char>>, b: Seq<Seq<char>>, n: nat)
    requires
        indented(a, n),
        indented(b, n),
    ensures
        indented(a + b, n),
{
    assert forall|i: int| 0 <= i < (a + b).len() implies #[trigger] starts_blank((a + b)[i], n) by {
        if i < a.len() {
            assert((a + b)[i] == a[i]);
        } else {
            assert((a + b)[i] == b[i - a.len()]);
        }
    }
}

proof fn lemma_indented_weaken(a: Seq<Seq<char>>, m: nat, n: nat)
    requires
        indented(a, m),
        n <= m,
    ensures
        indented(a, n),
{
    assert forall|i: int| 0 <= i < a.len() implies #[trigger] starts_blank(a[i], n) by {
        assert(starts_blank(a[i], m));
    }
}

proof fn lemma_map_indented(t: ListingView, level: nat, max_depth: nat, max_entries: nat, count: nat)
    ensures
        indented(map_lines(t, level, max_depth, max_entries, count).0, 2 * level),
    decreases t, 0nat,
{
    if !(level >= max_depth || count >= max_entries) {
        let order = crate::tools::name_order(crate::tools::dir_names(t.dirs), t.dirs.len() as int);
        lemma_map_dirs_indented(t.dirs, order, 0, level, max_depth, max_entries, count);
        let d = map_dirs(t.dirs, order, 0, level, max_depth, max_entries, count);
        let forder = crate::tools::name_order(crate::tools::file_names(t.files), t.files.len() as int);
        lemma_map_files_indented(t.files, forder, 0, level, max_entries, d.1);
        let f = map_files(t.files, forder, 0, level, max_entries, d.1);
        lemma_indented_concat(d.0, f.0, 2 * level);
    }
}

proof fn lemma_map_dirs_indented(
    dirs: Seq<(Seq<char>, ListingView)>,
    order: Seq<int>,
    j: int,
    level: nat,
    max_depth: nat,
    max_entries: nat,
    count: nat,
)
    ensures
        indented(map_dirs(dirs, order, j, level, max_depth, max_entries, count).0, 2 * level),
    decreases dirs, order.len() - j,
{
    if j < 0 || j >= order.len() {
    } else if 0 <= order[j] < dirs.len() && crate::tools::skipped_dir(dirs[order[j]].0) {
        lemma_map_dirs_indented(dirs, order, j + 1, level, max_depth, max_entries, count);
    } else if count >= max_entries {
        lemma_line_indented(crate::tools::cap_line(level), level, "… [entry cap reached]"@);
    } else if 0 <= order[j] < dirs.len() {
        lemma_map_indented(dirs[order[j]].1, level + 1, max_depth, max_entries, count + 1);
        let s = map_lines(dirs[order[j]].1, level + 1, max_depth, max_entries, count + 1);
        lemma_indented_weaken(s.0, 2 * (level + 1), 2 * level);
        lemma_map_dirs_indented(dirs, order, j + 1, level, max_depth, max_entries, s.1);
        let r = map_dirs(dirs, order, j + 1, level, max_depth, max_entries, s.1);
        let line = crate::tools::indent(level) + dirs[order[j]].0 + seq!['/'];
        assert(line =~= crate::tools::indent(level) + (dirs[order[j]].0 + seq!['/']));
        lemma_line_indented(line, level, dirs[order[j]].0 + seq!['/']);
        lemma_indented_concat(seq![line], s.0, 2 * level);
        lemma_indented_concat(seq![line] + s.0, r.0, 2 * level);
    }
}

proof fn lemma_map_files_indented(
    files: Seq<(Seq<char>, nat)>,
    order: Seq<int>,
    j: int,
    level: nat,
    max_entries: nat,
    count: nat,
)
    ensures
        indented(map_files(files, order, j, level, max_entries, count).0, 2 * level),
    decreases order.len() - j,
{
    if j < 0 || j >= order.len() {
    } else if count >= max_entries {
        lemma_line_indented(crate::tools::cap_line(level), level, "… [entry cap reached]"@);
    } else if 0 <= order[j] < files.len() {
        lemma_map_files_indented(files, order, j + 1, level, max_entries, count + 1);
        let r = map_files(files, order, j + 1, level, max_entries, count + 1);
        let f = files[order[j]];
        let tail = f.0 + seq![' '] + crate::tools::size_label(f.1);
        let line = crate::tools::indent(level) + f.0 + seq![' '] + crate::tools::size_label(f.1);
        assert(line =~= crate::tools::indent(level) + tail);
        lemma_line_indented(line, level, tail);
        lemma_indented_concat(seq![line], r.0, 2 * level);
    }
}

/// Every line a map draws for a directory at level `level` (its entries,
/// its subdirectories' entries, and any cap note) begins with two spaces per
/// level, so an entry is always indented deeper than the directory holding it.
pub proof fn law_map_lines_indented(t: ListingView, level: nat, max_depth: nat, max_entries: nat, count: nat)
    ensures
        indented(map_lines(t, level, max_depth, max_entries, count).0, 2 * level),
{
    lemma_map_indented(t, level, max_depth, max_entries, count);
}

/// Only the aggressive level squeezes spaces and folds repeated lines: at
/// any other level, the default included, the text worked on is exactly the
/// text with its blank lines collapsed, and the answer ends with that text
/// capped.
pub proof fn law_only_aggressive_folds(text: Seq<char>, level: Option<Seq<char>>, cap: nat)
    requires
        level != Some("aggressive"@),
    ensures
        text_work(text, level_name(level)) == blank_collapsed(text),
        ({
            let fin = capped(blank_collapsed(text), cap).0;
            let r = text_report(text, level, cap);
            fin.len() <= r.len() && r.skip(r.len() - fin.len()) == fin
        }),
{
    if level is None {
        reveal_strlit("normal");
        reveal_strlit("aggressive");
        assert("normal"@.len() != "aggressive"@.len());
    }
    let fin = capped(blank_collapsed(text), cap).0;
    let r = text_report(text, level, cap);
    let l = level_name(level);
    let c = capped(text_work(text, l), cap);
    let head = "[token-slim] text level="@ + l + token_figures(estimate(text), estimate(c.0)) + capped_note(c.1)
        + "\n"@;
    assert(r =~= head + fin);
    assert(r.skip(head.len() as int) =~= fin);
}

} // verus!
