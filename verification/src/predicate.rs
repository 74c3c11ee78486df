//! Terms and what they say of a path.
//!
//! A term is cut into required sections at `#` and each section into
//! alternatives at `,`. It holds of a path when every section has an
//! alternative that occurs in the path. A leading `!` makes it an exclusion.

use crate::error::{outcome_view, Failure, SelectError};
use crate::path::{fragment_of, relative_fragment, PathName};
use crate::split::{split_on, split_sections};
use crate::text::{contains_text, is_substring, lowercase, strip_start, unicode_lower};
use vstd::prelude::*;

verus! {

/// One parsed term.
#[derive(Debug, Clone, PartialEq, Eq)]
pub struct Predicate {
    /// Whether a path that the term holds of is left out rather than taken.
    pub is_exclusion: bool,
    /// The required sections, each with its alternatives.
    pub sections: Vec<Vec<String>>,
}

/// A `Predicate` with its texts as sequences of characters.
pub ghost struct PredicateView {
    pub is_exclusion: bool,
    pub sections: Seq<Seq<Seq<char>>>,
}

impl View for Predicate {
    type V = PredicateView;

    open spec fn view(&self) -> PredicateView {
        PredicateView { is_exclusion: self.is_exclusion, sections: self.sections.deep_view() }
    }
}

/// A section is satisfied when one of its alternatives occurs in the fragment.
pub open spec fn section_holds(alternatives: Seq<Seq<char>>, fragment: Seq<char>) -> bool {
    exists|j: int| 0 <= j < alternatives.len() && is_substring(#[trigger] alternatives[j], fragment)
}

impl PredicateView {
    /// The predicate holds when all of its sections are satisfied.
    pub open spec fn holds(self, fragment: Seq<char>) -> bool {
        forall|i: int|
            0 <= i < self.sections.len() ==> section_holds(#[trigger] self.sections[i], fragment)
    }
}

/// The alternatives of each of the given sections.
pub open spec fn split_alternatives(sections: Seq<Seq<char>>) -> Seq<Seq<Seq<char>>> {
    Seq::new(sections.len(), |i: int| split_sections(sections[i], ','))
}

/// The predicate that a lower-cased term stands for.
pub open spec fn parsed(lowered: Seq<char>) -> PredicateView {
    let is_exclusion = lowered.len() > 0 && lowered[0] == '!';
    let body = if is_exclusion {
        lowered.skip(1)
    } else {
        lowered
    };
    PredicateView { is_exclusion, sections: split_alternatives(split_sections(body, '#')) }
}

/// Parses a term that is in lower case already.
pub fn parse_lowered(lowered: &str) -> (predicate: Predicate)
    ensures
        predicate@ == parsed(lowered@),
{
    proof {
        reveal_strlit("!");
        reveal_strlit("#\\s*");
        reveal_strlit(",\\s*");
    }
    let stripped = strip_start(lowered, "!");
    let is_exclusion = stripped.is_some();
    let body = match stripped {
        Some(tail) => {
            assert(tail@ =~= lowered@.skip(1));
            assert(lowered@[0] == '!');
            tail
        },
        None => {
            assert(!(lowered@.len() > 0 && lowered@[0] == '!')) by {
                if lowered@.len() > 0 && lowered@[0] == '!' {
                    assert(lowered@.subrange(0, 1) =~= "!"@);
                }
            }
            lowered
        },
    };
    assert("#\\s*"@ =~= seq!['#', '\\', 's', '*']);
    assert(",\\s*"@ =~= seq![',', '\\', 's', '*']);
    let pieces = split_on("#\\s*", body);
    let mut sections: Vec<Vec<String>> = Vec::new();
    let mut i: usize = 0;
    while i < pieces.len()
        invariant
            i <= pieces.len(),
            ",\\s*"@ =~= seq![',', '\\', 's', '*'],
            sections.deep_view() =~= split_alternatives(pieces.deep_view()).take(i as int),
        decreases pieces.len() - i,
    {
        let alternatives = split_on(",\\s*", pieces[i].as_str());
        let ghost before = sections.deep_view();
        sections.push(alternatives);
        assert(sections.deep_view() =~= before.push(alternatives.deep_view()));
        i += 1;
    }
    assert(sections.deep_view() =~= split_alternatives(pieces.deep_view()));
    Predicate { is_exclusion, sections }
}

/// Parses a term: the term is lower-cased, a leading `!` marks an exclusion
/// and is taken off, and the rest is cut into sections and alternatives.
/// Every text is a term; an empty section or alternative is kept as it is.
pub fn parse_term(raw: &str) -> (predicate: Predicate)
    ensures
        predicate@ == parsed(unicode_lower(raw@)),
{
    let lowered = lowercase(raw);
    parse_lowered(lowered.as_str())
}

/// Whether one of the alternatives occurs in the fragment.
fn any_alternative_in(alternatives: &Vec<String>, fragment: &str) -> (found: bool)
    ensures
        found == section_holds(alternatives.deep_view(), fragment@),
{
    let mut j: usize = 0;
    while j < alternatives.len()
        invariant
            j <= alternatives.len(),
            forall|k: int| 0 <= k < j ==> !is_substring(alternatives.deep_view()[k], fragment@),
        decreases alternatives.len() - j,
    {
        if contains_text(fragment, alternatives[j].as_str()) {
            assert(is_substring(alternatives.deep_view()[j as int], fragment@));
            return true;
        }
        j += 1;
    }
    false
}

impl Predicate {
    /// Whether the predicate holds of a fragment, that is of a path made
    /// relative and lower-cased by `fragment_of`.
    pub fn holds_in(&self, fragment: &str) -> (holds: bool)
        ensures
            holds == self@.holds(fragment@),
    {
        let mut i: usize = 0;
        while i < self.sections.len()
            invariant
                i <= self.sections.len(),
                forall|k: int| 0 <= k < i ==> section_holds(self@.sections[k], fragment@),
            decreases self.sections.len() - i,
        {
            if !any_alternative_in(&self.sections[i], fragment) {
                assert(!section_holds(self@.sections[i as int], fragment@));
                return false;
            }
            i += 1;
        }
        true
    }
}

/// What matching a predicate against a path comes to: whether the predicate
/// holds of the path's fragment, or the failure for a path that is no text.
pub open spec fn match_outcome(predicate: PredicateView, root: Seq<char>, path: PathName) -> Result<
    bool,
    Failure,
> {
    match path {
        PathName::Text(text) => Ok(predicate.holds(relative_fragment(root, text@))),
        PathName::Garbled(shown) => Err(Failure::Encoding { path: shown@ }),
    }
}

/// Matches a predicate against a path under `root`. The match is on
/// substrings, without regard to the case of ASCII letters, and relative to
/// the root. A path that cannot be put into text fails the match with an
/// encoding error that names it; it is not passed over.
pub fn matches(predicate: &Predicate, root: &str, path: &PathName) -> (outcome: Result<
    bool,
    SelectError,
>)
    ensures
        outcome_view(outcome) == match_outcome(predicate@, root@, *path),
{
    match path {
        PathName::Text(text) => {
            let fragment = fragment_of(root, text.as_str());
            Ok(predicate.holds_in(fragment.as_str()))
        },
        PathName::Garbled(shown) => Err(SelectError::Encoding { path: shown.clone() }),
    }
}

/// An empty alternative occurs in every fragment, so a section that has one
/// is always satisfied.
pub proof fn lemma_empty_alternative_satisfies(alternatives: Seq<Seq<char>>, fragment: Seq<char>)
    requires
        alternatives.contains(Seq::<char>::empty()),
    ensures
        section_holds(alternatives, fragment),
{
    crate::text::lemma_empty_occurs_everywhere(fragment);
    let j = choose|j: int| 0 <= j < alternatives.len() && alternatives[j] == Seq::<char>::empty();
    assert(is_substring(alternatives[j], fragment));
}

} // verus!
