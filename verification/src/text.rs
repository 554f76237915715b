//! Character-level building blocks: whitespace, trimming, line splitting,
//! joining and decimal rendering, each with the mathematical statement of
//! what it computes over `Seq<char>`.

use vstd::prelude::*;

verus! {

// ---------------------------------------------------------------------------
// Specifications
// ---------------------------------------------------------------------------

/// Unicode `White_Space`, the property behind `char::is_whitespace`.
pub open spec fn is_ws(c: char) -> bool {
    ||| ('\u{9}' <= c && c <= '\u{d}')
    ||| c == ' '
    ||| c == '\u{85}'
    ||| c == '\u{a0}'
    ||| c == '\u{1680}'
    ||| ('\u{2000}' <= c && c <= '\u{200a}')
    ||| c == '\u{2028}'
    ||| c == '\u{2029}'
    ||| c == '\u{202f}'
    ||| c == '\u{205f}'
    ||| c == '\u{3000}'
}

/// A character below U+0080.
pub open spec fn is_ascii_char(c: char) -> bool {
    (c as u32) < 128
}

/// `s` with its trailing whitespace removed.
pub open spec fn trim_end(s: Seq<char>) -> Seq<char>
    decreases s.len(),
{
    if s.len() > 0 && is_ws(s.last()) {
        trim_end(s.drop_last())
    } else {
        s
    }
}

/// `s` with its leading whitespace removed.
pub open spec fn trim_start(s: Seq<char>) -> Seq<char>
    decreases s.len(),
{
    if s.len() > 0 && is_ws(s[0]) {
        trim_start(s.drop_first())
    } else {
        s
    }
}

/// `s` with whitespace removed at both ends.
pub open spec fn trim(s: Seq<char>) -> Seq<char> {
    trim_start(trim_end(s))
}

/// Every character of `s` is whitespace.
pub open spec fn all_ws(s: Seq<char>) -> bool {
    forall|i: int| 0 <= i < s.len() ==> is_ws(#[trigger] s[i])
}

/// A line taken from between two line feeds loses one carriage return at its end.
pub open spec fn strip_cr(l: Seq<char>) -> Seq<char> {
    if l.len() > 0 && l.last() == '\r' {
        l.drop_last()
    } else {
        l
    }
}

/// Scanning `s` for line feeds: the lines already closed by a `'\n'`, and
/// the characters read since the last one.
pub open spec fn line_scan(s: Seq<char>) -> (Seq<Seq<char>>, Seq<char>)
    decreases s.len(),
{
    if s.len() == 0 {
        (seq![], seq![])
    } else {
        let (done, cur) = line_scan(s.drop_last());
        if s.last() == '\n' {
            (done.push(strip_cr(cur)), seq![])
        } else {
            (done, cur.push(s.last()))
        }
    }
}

/// The lines of `s` as `str::lines` gives them: split at `'\n'`, a `'\r'`
/// before the `'\n'` dropped, and no empty line after a final `'\n'`.
pub open spec fn lines(s: Seq<char>) -> Seq<Seq<char>> {
    let (done, cur) = line_scan(s);
    if cur.len() > 0 {
        done.push(cur)
    } else {
        done
    }
}

/// The lines `ls` joined with `'\n'` between them.
pub open spec fn join_lines(ls: Seq<Seq<char>>) -> Seq<char>
    decreases ls.len(),
{
    if ls.len() == 0 {
        seq![]
    } else if ls.len() == 1 {
        ls[0]
    } else {
        join_lines(ls.drop_last()) + seq!['\n'] + ls.last()
    }
}

/// The character sequences held by a vector of character vectors.
pub open spec fn views(v: Seq<Vec<char>>) -> Seq<Seq<char>> {
    Seq::new(v.len(), |i: int| v[i]@)
}

/// The decimal digit for `d < 10`.
pub open spec fn digit(d: nat) -> char {
    ((48 + d) as u32) as char
}

/// The decimal rendering of `n`, without leading zeros.
pub open spec fn decimal(n: nat) -> Seq<char>
    decreases n,
{
    if n < 10 {
        seq![digit(n)]
    } else {
        decimal(n / 10).push(digit(n % 10))
    }
}

// ---------------------------------------------------------------------------
// Trusted conversions between `String` and characters
// ---------------------------------------------------------------------------

/// Calls `Iterator::collect` into a `String` over the given characters; the
/// string holds exactly those characters, in order.
#[verifier::external_body]
pub(crate) fn string_from_chars(cs: &Vec<char>) -> (r: String)
    ensures
        r@ == cs@,
{
    cs.iter().collect()
}

/// What `str::to_lowercase` returns for a string: Unicode lower-case
/// mapping, character by character, with its context rules.
pub uninterp spec fn lowercase(s: Seq<char>) -> Seq<char>;

/// Calls `str::to_lowercase`; the result is the lower-case mapping of the
/// argument, which depends on the argument alone.
#[verifier::external_body]
pub(crate) fn to_lowercase(s: &str) -> (r: String)
    ensures
        r@ == lowercase(s@),
{
    s.to_lowercase()
}

// ---------------------------------------------------------------------------
// Executable building blocks
// ---------------------------------------------------------------------------

/// The characters of a string slice, in order.
pub fn chars_of(s: &str) -> (r: Vec<char>)
    ensures
        r@ == s@,
{
    let mut out: Vec<char> = Vec::new();
    for c in it: s.chars()
        invariant
            out@ == it.seq().take(it.index() as int),
    {
        out.push(c);
    }
    out
}

/// Whether two character vectors hold the same characters.
pub fn chars_eq(a: &Vec<char>, b: &Vec<char>) -> (r: bool)
    ensures
        r == (a@ == b@),
{
    if a.len() != b.len() {
        return false;
    }
    let mut k: usize = 0;
    while k < a.len()
        invariant
            k <= a@.len() == b@.len(),
            forall|i: int| 0 <= i < k ==> a@[i] == b@[i],
        decreases a@.len() - k,
    {
        if a[k] != b[k] {
            return false;
        }
        k = k + 1;
    }
    assert(a@ =~= b@);
    true
}

/// Whether two string slices hold the same characters.
pub fn str_eq(a: &str, b: &str) -> (r: bool)
    ensures
        r == (a@ == b@),
{
    let ca = chars_of(a);
    let cb = chars_of(b);
    chars_eq(&ca, &cb)
}

/// Whether `s` is one of `names`.
pub fn str_in(s: &str, names: &[&str]) -> (r: bool)
    ensures
        r == exists|k: int| 0 <= k < names@.len() && s@ == (#[trigger] names@[k])@,
{
    let mut k: usize = 0;
    while k < names.len()
        invariant
            k <= names@.len(),
            forall|j: int| 0 <= j < k ==> s@ != (#[trigger] names@[j])@,
        decreases names@.len() - k,
    {
        if str_eq(s, names[k]) {
            return true;
        }
        k = k + 1;
    }
    false
}

/// `char::is_whitespace`.
pub fn char_is_whitespace(c: char) -> (r: bool)
    ensures
        r == is_ws(c),
{
    ('\u{9}' <= c && c <= '\u{d}') || c == ' ' || c == '\u{85}' || c == '\u{a0}' || c
        == '\u{1680}' || ('\u{2000}' <= c && c <= '\u{200a}') || c == '\u{2028}' || c
        == '\u{2029}' || c == '\u{202f}' || c == '\u{205f}' || c == '\u{3000}'
}

/// `char::is_ascii`.
pub fn char_is_ascii(c: char) -> (r: bool)
    ensures
        r == is_ascii_char(c),
{
    (c as u32) < 128
}

/// Appends `src[lo..hi]` to `out`.
pub fn push_range(out: &mut Vec<char>, src: &Vec<char>, lo: usize, hi: usize)
    requires
        lo <= hi <= src@.len(),
    ensures
        final(out)@ == old(out)@ + src@.subrange(lo as int, hi as int),
{
    let mut k = lo;
    while k < hi
        invariant
            lo <= k <= hi <= src@.len(),
            out@ == old(out)@ + src@.subrange(lo as int, k as int),
        decreases hi - k,
    {
        out.push(src[k]);
        k = k + 1;
        assert(src@.subrange(lo as int, k as int) == src@.subrange(lo as int, k - 1).push(
            src@[k - 1],
        ));
    }
}

/// Appends all of `src` to `out`.
pub fn push_all(out: &mut Vec<char>, src: &Vec<char>)
    ensures
        final(out)@ == old(out)@ + src@,
{
    push_range(out, src, 0, src.len());
    assert(src@.subrange(0, src@.len() as int) == src@);
}

/// Appends the characters of `s` to `out`.
pub fn push_str(out: &mut Vec<char>, s: &str)
    ensures
        final(out)@ == old(out)@ + s@,
{
    let cs = chars_of(s);
    push_all(out, &cs);
}

/// `src[lo..hi]` as a vector of its own.
pub fn copy_range(src: &Vec<char>, lo: usize, hi: usize) -> (r: Vec<char>)
    requires
        lo <= hi <= src@.len(),
    ensures
        r@ == src@.subrange(lo as int, hi as int),
{
    let mut out: Vec<char> = Vec::new();
    push_range(&mut out, src, lo, hi);
    out
}

/// Where the trailing whitespace of `s` begins.
pub fn trim_end_len(s: &Vec<char>) -> (r: usize)
    ensures
        r <= s@.len(),
        s@.take(r as int) == trim_end(s@),
{
    let mut e = s.len();
    assert(s@.take(e as int) == s@);
    while e > 0 && char_is_whitespace(s[e - 1])
        invariant
            e <= s@.len(),
            trim_end(s@.take(e as int)) == trim_end(s@),
        decreases e,
    {
        assert(s@.take(e as int).drop_last() == s@.take(e - 1));
        e = e - 1;
    }
    e
}

/// Where the leading whitespace of `s` ends.
pub fn trim_start_len(s: &Vec<char>) -> (r: usize)
    ensures
        r <= s@.len(),
        s@.skip(r as int) == trim_start(s@),
{
    let mut b: usize = 0;
    assert(s@.skip(0) == s@);
    while b < s.len() && char_is_whitespace(s[b as usize])
        invariant
            b <= s@.len(),
            trim_start(s@.skip(b as int)) == trim_start(s@),
        decreases s@.len() - b,
    {
        assert(s@.skip(b as int).drop_first() == s@.skip(b + 1));
        b = b + 1;
    }
    b
}

/// `s` without trailing whitespace.
pub fn trim_end_chars(s: &Vec<char>) -> (r: Vec<char>)
    ensures
        r@ == trim_end(s@),
{
    let e = trim_end_len(s);
    let r = copy_range(s, 0, e);
    assert(s@.subrange(0, e as int) == s@.take(e as int));
    r
}

/// `s` without whitespace at either end.
pub fn trim_chars(s: &Vec<char>) -> (r: Vec<char>)
    ensures
        r@ == trim(s@),
{
    let t = trim_end_chars(s);
    let b = trim_start_len(&t);
    let r = copy_range(&t, b, t.len());
    assert(t@.subrange(b as int, t@.len() as int) == t@.skip(b as int));
    r
}

/// Whether `s` is whitespace only.
pub fn is_all_ws(s: &Vec<char>) -> (r: bool)
    ensures
        r == all_ws(s@),
{
    let mut k: usize = 0;
    while k < s.len()
        invariant
            k <= s@.len(),
            forall|i: int| 0 <= i < k ==> is_ws(#[trigger] s@[i]),
        decreases s@.len() - k,
    {
        if !char_is_whitespace(s[k]) {
            return false;
        }
        k = k + 1;
    }
    true
}

/// The lines of a character sequence, as `str::lines` splits them.
pub fn split_lines(s: &Vec<char>) -> (r: Vec<Vec<char>>)
    ensures
        views(r@) == lines(s@),
{
    let mut done: Vec<Vec<char>> = Vec::new();
    let mut cur: Vec<char> = Vec::new();
    let mut i: usize = 0;
    while i < s.len()
        invariant
            i <= s@.len(),
            (views(done@), cur@) == line_scan(s@.take(i as int)),
        decreases s@.len() - i,
    {
        assert(s@.take(i + 1).drop_last() == s@.take(i as int));
        let c = s[i];
        if c == '\n' {
            let ghost before = views(done@);
            let ghost old_cur = cur@;
            if cur.len() > 0 && cur[cur.len() - 1] == '\r' {
                cur.pop();
                assert(cur@ =~= old_cur.drop_last());
            }
            assert(cur@ == strip_cr(old_cur));
            done.push(cur);
            assert(views(done@) =~= before.push(strip_cr(old_cur)));
            cur = Vec::new();
        } else {
            cur.push(c);
        }
        i = i + 1;
    }
    assert(s@.take(i as int) == s@);
    if cur.len() > 0 {
        let ghost before = views(done@);
        let ghost c = cur@;
        done.push(cur);
        assert(views(done@) =~= before.push(c));
    }
    done
}

/// The lines of a string slice.
pub fn lines_of(s: &str) -> (r: Vec<Vec<char>>)
    ensures
        views(r@) == lines(s@),
{
    let cs = chars_of(s);
    split_lines(&cs)
}

/// Appends `ls` joined with `'\n'` to `out`.
pub fn push_joined(out: &mut Vec<char>, ls: &Vec<Vec<char>>, lo: usize, hi: usize)
    requires
        lo <= hi <= ls@.len(),
    ensures
        final(out)@ == old(out)@ + join_lines(views(ls@).subrange(lo as int, hi as int)),
{
    let ghost dv = views(ls@);
    let mut k = lo;
    while k < hi
        invariant
            lo <= k <= hi <= ls@.len(),
            dv == views(ls@),
            out@ == old(out)@ + join_lines(dv.subrange(lo as int, k as int)),
        decreases hi - k,
    {
        let ghost prev = out@;
        if k > lo {
            out.push('\n');
        }
        push_all(out, &ls[k]);
        k = k + 1;
        let ghost part = dv.subrange(lo as int, k as int);
        assert(part.drop_last() == dv.subrange(lo as int, k - 1));
        assert(part.last() == ls[k - 1]@);
        if k - 1 > lo {
            assert(join_lines(part) == join_lines(part.drop_last()) + seq!['\n'] + part.last());
        } else {
            assert(join_lines(dv.subrange(lo as int, k - 1)) == Seq::<char>::empty());
            assert(join_lines(part) == part[0]);
        }
    }
}

/// `ls` joined with `'\n'`.
pub fn join_chars(ls: &Vec<Vec<char>>) -> (r: Vec<char>)
    ensures
        r@ == join_lines(views(ls@)),
{
    let mut out: Vec<char> = Vec::new();
    push_joined(&mut out, ls, 0, ls.len());
    assert(views(ls@).subrange(0, ls@.len() as int) == views(ls@));
    out
}

/// The digit character for `d`.
pub fn digit_char(d: usize) -> (r: char)
    requires
        d < 10,
    ensures
        r == digit(d as nat),
{
    let b: u8 = (48 + d) as u8;
    let r = b as char;
    assert(r == digit(d as nat)) by {
        assert((48 + d) as u32 == b as u32);
    }
    r
}

/// Appends the decimal rendering of `n` to `out`.
pub fn push_decimal(out: &mut Vec<char>, n: u128)
    ensures
        final(out)@ == old(out)@ + decimal(n as nat),
    decreases n,
{
    if n >= 10 {
        push_decimal(out, n / 10);
    }
    out.push(digit_char((n % 10) as usize));
}

} // verus!
