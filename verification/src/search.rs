//! Regular expressions, through the `regex` crate.

use vstd::prelude::*;

verus! {

#[verifier::external_type_specification]
#[verifier::external_body]
pub struct ExRegex(regex::Regex);

/// Why `RegexBuilder::build` refuses `pattern` with the given case
/// sensitivity (the error's message), or `None` when it compiles.
pub uninterp spec fn regex_error(pattern: Seq<char>, case_insensitive: bool) -> Option<Seq<char>>;

/// Whether the compiled `pattern` matches somewhere in `text`
/// (`Regex::is_match`).
pub uninterp spec fn regex_matches(pattern: Seq<char>, case_insensitive: bool, text: Seq<char>) -> bool;

/// A compiled regular expression, with the text and case sensitivity it
/// was compiled from. Only `compile_pattern` builds one, and nothing
/// changes it afterwards.
pub struct Pattern {
    re: regex::Regex,
    source: String,
    case_insensitive: bool,
}

impl View for Pattern {
    type V = (Seq<char>, bool);

    closed spec fn view(&self) -> (Seq<char>, bool) {
        (self.source@, self.case_insensitive)
    }
}

/// Calls `RegexBuilder::new(pattern).case_insensitive(..).build()`. On
/// success the pattern keeps its source text and case flag; on failure the
/// error is rendered with its `Display` text. Which of the two happens, and
/// the message, depend on the pattern and the flag alone.
#[verifier::external_body]
pub(crate) fn compile_pattern(pattern: &str, case_insensitive: bool) -> (r: Result<Pattern, String>)
    ensures
        match r {
            Ok(p) => p@ == (pattern@, case_insensitive) && regex_error(pattern@, case_insensitive)
                is None,
            Err(e) => regex_error(pattern@, case_insensitive) == Some(e@),
        },
{
    match regex::RegexBuilder::new(pattern).case_insensitive(case_insensitive).build() {
        Ok(re) => Ok(Pattern { re, source: pattern.to_string(), case_insensitive }),
        Err(e) => Err(e.to_string()),
    }
}

/// Calls `Regex::is_match` on the compiled expression held by `p`; the
/// answer depends on the source text and case flag `p` was compiled from,
/// and on `text`.
#[verifier::external_body]
pub(crate) fn pattern_is_match(p: &Pattern, text: &str) -> (r: bool)
    ensures
        r == regex_matches(p@.0, p@.1, text@),
{
    p.re.is_match(text)
}

/// The characters `regex::escape` prefixes with a backslash.
pub open spec fn is_meta(c: char) -> bool {
    ||| c == '\\' ||| c == '.' ||| c == '+' ||| c == '*' ||| c == '?' ||| c == '('
    ||| c == ')' ||| c == '|' ||| c == '[' ||| c == ']' ||| c == '{' ||| c == '}'
    ||| c == '^' ||| c == '$' ||| c == '#' ||| c == '&' ||| c == '-' ||| c == '~'
}

/// `s` with a backslash before each regex meta character.
pub open spec fn escaped(s: Seq<char>) -> Seq<char>
    decreases s.len(),
{
    if s.len() == 0 {
        seq![]
    } else {
        escaped(s.drop_last()) + if is_meta(s.last()) {
            seq!['\\', s.last()]
        } else {
            seq![s.last()]
        }
    }
}

/// Calls `regex::escape`, which puts a backslash before each meta character
/// and copies every other character.
#[verifier::external_body]
pub(crate) fn regex_escape(s: &str) -> (r: String)
    ensures
        r@ == escaped(s@),
{
    regex::escape(s)
}

} // verus!
