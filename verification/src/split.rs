//! Splitting a term at a delimiter that swallows the white space behind it.
//!
//! A term such as `rock# live, acoustic` is cut at each `#` into required
//! sections and each section at each `,` into alternatives. The cutting is
//! done by a regular expression made of the delimiter and `\s*`.

use regex::Regex;
use vstd::prelude::*;

verus! {

/// White space as the pattern class `\s` takes it: the characters that have
/// the Unicode property `White_Space`.
pub open spec fn is_space(c: char) -> bool {
    ||| ('\t' <= c && c <= '\r')
    ||| c == ' '
    ||| c == '\u{85}'
    ||| c == '\u{a0}'
    ||| c == '\u{1680}'
    ||| ('\u{2000}' <= c && c <= '\u{200a}')
    ||| c == '\u{2028}'
    ||| c == '\u{2029}'
    ||| c == '\u{202f}'
    ||| c == '\u{205f}'
    ||| c == '\u{3000}'
}

/// The text without its leading white space.
pub open spec fn skip_spaces(text: Seq<char>) -> Seq<char>
    decreases text.len(),
{
    if text.len() > 0 && is_space(text[0]) {
        skip_spaces(text.drop_first())
    } else {
        text
    }
}

/// The position of the first `delimiter` in the text, or the length of the
/// text if there is none.
pub open spec fn first_index(text: Seq<char>, delimiter: char) -> int
    decreases text.len(),
{
    if text.len() == 0 || text[0] == delimiter {
        0
    } else {
        1 + first_index(text.drop_first(), delimiter)
    }
}

/// The pieces of the text between delimiters, where each delimiter takes the
/// white space that follows it along. A text without a delimiter is one
/// piece; a delimiter at either end leaves an empty piece there.
pub open spec fn split_sections(text: Seq<char>, delimiter: char) -> Seq<Seq<char>>
    decreases text.len(),
{
    let at = first_index(text, delimiter);
    if 0 <= at < text.len() {
        proof {
            lemma_skip_spaces_is_suffix(text.skip(at + 1));
        }
        seq![text.take(at)] + split_sections(skip_spaces(text.skip(at + 1)), delimiter)
    } else {
        seq![text]
    }
}

/// The two characters at which terms are cut.
pub open spec fn is_delimiter(c: char) -> bool {
    c == '#' || c == ','
}

/// The pattern that matches `delimiter` and all white space behind it.
pub open spec fn separator_pattern(delimiter: char) -> Seq<char> {
    seq![delimiter, '\\', 's', '*']
}

/// Skipping white space drops characters from the front and none else.
pub proof fn lemma_skip_spaces_is_suffix(text: Seq<char>)
    ensures
        skip_spaces(text).len() <= text.len(),
        skip_spaces(text) == text.skip(text.len() - skip_spaces(text).len()),
        skip_spaces(text).len() > 0 ==> !is_space(skip_spaces(text)[0]),
    decreases text.len(),
{
    if text.len() > 0 && is_space(text[0]) {
        let rest = text.drop_first();
        lemma_skip_spaces_is_suffix(rest);
        assert(rest.skip(rest.len() - skip_spaces(rest).len()) =~= text.skip(
            text.len() - skip_spaces(rest).len(),
        ));
    } else {
        assert(text.skip(0) =~= text);
    }
}

/// The first delimiter stands where `first_index` says, and none before it.
pub proof fn lemma_first_index(text: Seq<char>, delimiter: char)
    ensures
        0 <= first_index(text, delimiter) <= text.len(),
        first_index(text, delimiter) < text.len() ==> text[first_index(text, delimiter)]
            == delimiter,
        forall|i: int| 0 <= i < first_index(text, delimiter) ==> text[i] != delimiter,
    decreases text.len(),
{
    if text.len() == 0 || text[0] == delimiter {
    } else {
        let rest = text.drop_first();
        lemma_first_index(rest, delimiter);
        assert forall|i: int| 0 <= i < first_index(text, delimiter) implies text[i]
            != delimiter by {
            if i > 0 {
                assert(text[i] == rest[i - 1]);
            }
        }
    }
}

/// A text that holds no delimiter is a single piece.
pub proof fn lemma_split_without_delimiter(text: Seq<char>, delimiter: char)
    requires
        !text.contains(delimiter),
    ensures
        split_sections(text, delimiter) == seq![text],
{
    lemma_first_index(text, delimiter);
    let at = first_index(text, delimiter);
    if at < text.len() {
        assert(text.contains(delimiter));
    }
}

/// A split never yields nothing: there is always at least one piece.
pub proof fn lemma_split_is_not_empty(text: Seq<char>, delimiter: char)
    ensures
        split_sections(text, delimiter).len() >= 1,
    decreases text.len(),
{
    let at = first_index(text, delimiter);
    if 0 <= at < text.len() {
        lemma_skip_spaces_is_suffix(text.skip(at + 1));
        lemma_split_is_not_empty(skip_spaces(text.skip(at + 1)), delimiter);
    }
}

/// `regex::Regex::new` on the pattern, then `Regex::split` on the text, each
/// piece copied into a `String`.
///
/// The pattern is a delimiter (`#` or `,`) followed by `\s*`, which compiles
/// and matches the delimiter with the longest run of white space after it.
/// `split` yields the parts of the text that no match covers, in order, the
/// empty parts included.
#[verifier::external_body]
pub(crate) fn split_on(pattern: &str, text: &str) -> (pieces: Vec<String>)
    requires
        is_delimiter(pattern@[0]),
        pattern@ == separator_pattern(pattern@[0]),
    ensures
        pieces.deep_view() == split_sections(text@, pattern@[0]),
{
    Regex::new(pattern).expect("Invalid regex").split(text).map(|piece| piece.to_owned()).collect()
}

} // verus!
