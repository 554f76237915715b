//! Model-agnostic token estimation: a quarter token per ASCII character,
//! rounded up over the whole text, plus one token per other character.

use vstd::prelude::*;
use crate::text::{
    char_is_ascii, chars_of, decimal, is_ascii_char, join_lines, lines, lines_of, push_decimal,
    push_joined, push_str, string_from_chars, views,
};

verus! {

/// The number of ASCII characters in `s`.
pub open spec fn ascii_count(s: Seq<char>) -> nat
    decreases s.len(),
{
    if s.len() == 0 {
        0
    } else {
        ascii_count(s.drop_last()) + if is_ascii_char(s.last()) {
            1nat
        } else {
            0nat
        }
    }
}

/// The estimated token count of `s`: `ceil(ascii / 4) + non_ascii`.
pub open spec fn estimate(s: Seq<char>) -> nat {
    (ascii_count(s) + 3) / 4 + (s.len() - ascii_count(s)) as nat
}

pub proof fn lemma_ascii_count_bound(s: Seq<char>)
    ensures
        ascii_count(s) <= s.len(),
    decreases s.len(),
{
    if s.len() > 0 {
        lemma_ascii_count_bound(s.drop_last());
    }
}

/// The number of ASCII characters in a character sequence.
pub fn count_ascii(cs: &Vec<char>) -> (r: usize)
    ensures
        r == ascii_count(cs@),
        r <= cs@.len(),
{
    let mut ascii: usize = 0;
    let mut k: usize = 0;
    while k < cs.len()
        invariant
            k <= cs@.len(),
            ascii == ascii_count(cs@.take(k as int)),
            ascii <= k,
        decreases cs@.len() - k,
    {
        assert(cs@.take(k + 1).drop_last() == cs@.take(k as int));
        if char_is_ascii(cs[k]) {
            ascii += 1;
        }
        k = k + 1;
    }
    assert(cs@.take(k as int) == cs@);
    ascii
}

/// The token estimate of a character sequence.
pub fn estimate_chars(cs: &Vec<char>) -> (r: usize)
    ensures
        r == estimate(cs@),
        r <= cs@.len(),
{
    let ascii = count_ascii(cs);
    let other = cs.len() - ascii;
    let q = ascii / 4 + if ascii % 4 != 0 {
        1
    } else {
        0
    };
    q + other
}

/// Estimates the number of tokens of `s` for LLM tokenizers (about ±20%).
pub fn estimate_tokens(s: &str) -> (r: usize)
    ensures
        r == estimate(s@),
{
    let cs = chars_of(s);
    estimate_chars(&cs)
}

/// The saving from `orig` to `new` tokens as a percentage label.
pub open spec fn saved_label(orig: nat, new: nat) -> Seq<char> {
    if orig == 0 || new >= orig {
        seq!['±', '0', '%']
    } else {
        seq!['-'] + decimal(((orig - new) * 100 / (orig as int)) as nat) + seq!['%']
    }
}

/// The saving from `orig` to `new` tokens, rounded down to a percent: `-NN%`,
/// or `±0%` when nothing was saved.
pub fn saved_pct(orig: usize, new: usize) -> (r: String)
    ensures
        r@ == saved_label(orig as nat, new as nat),
{
    let mut out: Vec<char> = Vec::new();
    if orig == 0 || new >= orig {
        out.push('±');
        out.push('0');
        out.push('%');
        assert(out@ =~= seq!['±', '0', '%']);
        return string_from_chars(&out);
    }
    let pct: u128 = ((orig - new) as u128) * 100 / (orig as u128);
    out.push('-');
    push_decimal(&mut out, pct);
    out.push('%');
    assert(out@ =~= seq!['-'] + decimal(((orig - new) * 100 / (orig as int)) as nat) + seq!['%']);
    string_from_chars(&out)
}

/// What a line costs against a token budget: its estimate plus one for the line break.
pub open spec fn line_cost(l: Seq<char>) -> nat {
    estimate(l) + 1
}

/// The total cost of some lines.
pub open spec fn total_cost(ls: Seq<Seq<char>>) -> nat
    decreases ls.len(),
{
    if ls.len() == 0 {
        0
    } else {
        total_cost(ls.drop_last()) + line_cost(ls.last())
    }
}

/// How many lines, from the front, fit in `budget`.
pub open spec fn head_count(ls: Seq<Seq<char>>, budget: int) -> nat
    decreases ls.len(),
{
    if ls.len() == 0 || line_cost(ls[0]) > budget {
        0
    } else {
        1 + head_count(ls.drop_first(), budget - line_cost(ls[0]))
    }
}

/// How many lines, from the back, fit in `budget`.
pub open spec fn tail_count(ls: Seq<Seq<char>>, budget: int) -> nat
    decreases ls.len(),
{
    if ls.len() == 0 || line_cost(ls.last()) > budget {
        0
    } else {
        1 + tail_count(ls.drop_last(), budget - line_cost(ls.last()))
    }
}

/// The marker put where lines were cut out.
pub open spec fn snip_marker(lines: nat, tokens: nat) -> Seq<char> {
    "\n… [token-slim: "@ + decimal(lines) + " lines / ~"@ + decimal(tokens)
        + " tok snipped — use offset/limit or grep_slim for the rest] …\n"@
}

/// Where the kept head of `text` ends, under a cap of `max` tokens.
pub open spec fn head_end(text: Seq<char>, max: nat) -> nat {
    head_count(lines(text), (max * 7 / 10) as int)
}

/// Where the kept tail of `text` begins, under a cap of `max` tokens.
pub open spec fn tail_start(text: Seq<char>, max: nat) -> nat {
    let ls = lines(text);
    let h = head_end(text, max);
    (ls.len() - tail_count(ls.subrange(h as int, ls.len() as int), (max * 2 / 10) as int)) as nat
}

/// `text` capped to about `max` tokens: unchanged when its estimate is within
/// `max`; otherwise its first lines within 70% of `max` and its last lines
/// within 20% of `max`, with a marker between them that counts what was cut.
/// The flag tells whether anything was cut.
pub open spec fn capped(text: Seq<char>, max: nat) -> (Seq<char>, bool) {
    let ls = lines(text);
    let h = head_end(text, max);
    let t = tail_start(text, max);
    if estimate(text) <= max || t <= h {
        (text, false)
    } else {
        (
            join_lines(ls.subrange(0, h as int)) + snip_marker(
                (t - h) as nat,
                total_cost(ls.subrange(h as int, t as int)),
            ) + join_lines(ls.subrange(t as int, ls.len() as int)),
            true,
        )
    }
}

pub proof fn lemma_head_count_bound(ls: Seq<Seq<char>>, budget: int)
    ensures
        head_count(ls, budget) <= ls.len(),
    decreases ls.len(),
{
    if ls.len() > 0 && line_cost(ls[0]) <= budget {
        lemma_head_count_bound(ls.drop_first(), budget - line_cost(ls[0]));
    }
}

pub proof fn lemma_tail_count_bound(ls: Seq<Seq<char>>, budget: int)
    ensures
        tail_count(ls, budget) <= ls.len(),
    decreases ls.len(),
{
    if ls.len() > 0 && line_cost(ls.last()) <= budget {
        lemma_tail_count_bound(ls.drop_last(), budget - line_cost(ls.last()));
    }
}

/// Caps `text` at roughly `max` tokens, keeping about 70% of the budget from
/// the head and 20% from the tail, with a snip marker between them. Returns
/// the text and whether it was cut.
pub fn truncate_tokens(text: &str, max: usize) -> (r: (String, bool))
    ensures
        (r.0@, r.1) == capped(text@, max as nat),
{
    let cs = chars_of(text);
    let total = estimate_chars(&cs);
    if total <= max {
        return (String::from_str(text), false);
    }
    let lines_v = lines_of(text);
    let ghost ls = lines(text@);
    let n = lines_v.len();
    let head_budget: u128 = (max as u128) * 7 / 10;
    let tail_budget: u128 = (max as u128) * 2 / 10;
    assert(head_budget <= usize::MAX as u128);
    assert(tail_budget <= usize::MAX as u128);
    let mut head: usize = 0;
    let mut used: u128 = 0;
    assert(ls.subrange(0, n as int) == ls);
    while head < n
        invariant
            views(lines_v@) == ls,
            n == ls.len(),
            head <= n,
            used <= head_budget,
            head_budget <= usize::MAX as u128,
            head_count(ls, head_budget as int) == head + head_count(
                ls.subrange(head as int, n as int),
                head_budget - used,
            ),
        ensures
            head <= n,
            head == head_count(ls, head_budget as int),
        decreases n - head,
    {
        let ghost rest = ls.subrange(head as int, n as int);
        assert(rest[0] == lines_v@[head as int]@);
        assert(rest.drop_first() == ls.subrange(head + 1, n as int));
        let t: u128 = estimate_chars(&lines_v[head]) as u128 + 1;
        if used + t > head_budget {
            break;
        }
        used = used + t;
        head = head + 1;
    }
    proof {
        lemma_tail_count_bound(ls.subrange(head as int, n as int), tail_budget as int);
    }
    let ghost mid = ls.subrange(head as int, n as int);
    let mut tail: usize = n;
    let mut used: u128 = 0;
    while tail > head
        invariant
            views(lines_v@) == ls,
            n == ls.len(),
            mid == ls.subrange(head as int, n as int),
            head <= tail <= n,
            used <= tail_budget,
            tail_budget <= usize::MAX as u128,
            tail_count(mid, tail_budget as int) == (n - tail) + tail_count(
                ls.subrange(head as int, tail as int),
                tail_budget - used,
            ),
        ensures
            head <= tail <= n,
            n - tail == tail_count(mid, tail_budget as int),
        decreases tail - head,
    {
        let ghost part = ls.subrange(head as int, tail as int);
        assert(part.last() == lines_v@[tail - 1]@);
        assert(part.drop_last() == ls.subrange(head as int, tail - 1));
        let t: u128 = estimate_chars(&lines_v[tail - 1]) as u128 + 1;
        if used + t > tail_budget {
            break;
        }
        used = used + t;
        tail = tail - 1;
    }
    assert(ls.subrange(head as int, tail as int).len() == 0 ==> tail_count(
        ls.subrange(head as int, tail as int),
        tail_budget - used,
    ) == 0);
    if tail <= head {
        return (String::from_str(text), false);
    }
    let snipped: usize = tail - head;
    let mut snipped_tok: u128 = 0;
    let mut k: usize = head;
    while k < tail
        invariant
            views(lines_v@) == ls,
            n == ls.len(),
            head <= k <= tail <= n,
            snipped_tok == total_cost(ls.subrange(head as int, k as int)),
            snipped_tok <= (k - head) as u128 * 0x1_0000_0000_0000_0000u128,
        decreases tail - k,
    {
        assert(ls.subrange(head as int, k + 1).drop_last() == ls.subrange(head as int, k as int));
        assert(ls.subrange(head as int, k + 1).last() == lines_v@[k as int]@);
        let t: u128 = estimate_chars(&lines_v[k]) as u128 + 1;
        snipped_tok = snipped_tok + t;
        k = k + 1;
    }
    let mut out: Vec<char> = Vec::new();
    push_joined(&mut out, &lines_v, 0, head);
    push_str(&mut out, "\n… [token-slim: ");
    push_decimal(&mut out, snipped as u128);
    push_str(&mut out, " lines / ~");
    push_decimal(&mut out, snipped_tok);
    push_str(&mut out, " tok snipped — use offset/limit or grep_slim for the rest] …\n");
    push_joined(&mut out, &lines_v, tail, n);
    assert(out@ =~= join_lines(ls.subrange(0, head as int)) + snip_marker(
        (tail - head) as nat,
        total_cost(ls.subrange(head as int, tail as int)),
    ) + join_lines(ls.subrange(tail as int, n as int)));
    (string_from_chars(&out), true)
}

} // verus!
