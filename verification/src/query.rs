//! Queries: the terms of one run, and which paths they select.

use crate::error::{outcome_view, Failure, SelectError};
use crate::path::{fragment_of, relative_fragment, PathName};
use crate::predicate::{parse_term, parsed, Predicate, PredicateView};
use crate::text::unicode_lower;
use vstd::prelude::*;

verus! {

/// The predicates of one run, in the order in which the terms were given.
#[derive(Debug, Clone, PartialEq, Eq)]
pub struct Query {
    pub predicates: Vec<Predicate>,
}

impl View for Query {
    type V = Seq<PredicateView>;

    open spec fn view(&self) -> Seq<PredicateView> {
        Seq::new(self.predicates@.len(), |i: int| self.predicates@[i]@)
    }
}

/// Whether some exclusion of the query holds of the fragment.
pub open spec fn is_excluded(query: Seq<PredicateView>, fragment: Seq<char>) -> bool {
    exists|i: int|
        0 <= i < query.len() && (#[trigger] query[i]).is_exclusion && query[i].holds(fragment)
}

/// Whether the query has a predicate that is no exclusion.
pub open spec fn has_inclusion(query: Seq<PredicateView>) -> bool {
    exists|i: int| 0 <= i < query.len() && !(#[trigger] query[i]).is_exclusion
}

/// Whether some inclusion of the query holds of the fragment.
pub open spec fn is_included(query: Seq<PredicateView>, fragment: Seq<char>) -> bool {
    exists|i: int|
        0 <= i < query.len() && !(#[trigger] query[i]).is_exclusion && query[i].holds(fragment)
}

/// A fragment is selected when no exclusion holds of it and, if the query
/// has inclusions at all, one of them holds of it.
pub open spec fn is_selected(query: Seq<PredicateView>, fragment: Seq<char>) -> bool {
    !is_excluded(query, fragment) && (!has_inclusion(query) || is_included(query, fragment))
}

/// What a query says of a path under `root`. The empty query takes every
/// path without looking at it. Any other query fails on a path that is no
/// text, and else says whether the path's fragment is selected.
pub open spec fn selection(query: Seq<PredicateView>, root: Seq<char>, path: PathName) -> Result<
    bool,
    Failure,
> {
    if query.len() == 0 {
        Ok(true)
    } else {
        match path {
            PathName::Text(text) => Ok(is_selected(query, relative_fragment(root, text@))),
            PathName::Garbled(shown) => Err(Failure::Encoding { path: shown@ }),
        }
    }
}

/// The predicates that the given terms stand for.
pub open spec fn parsed_terms(terms: Seq<Seq<char>>) -> Seq<PredicateView> {
    Seq::new(terms.len(), |i: int| parsed(unicode_lower(terms[i])))
}

impl Query {
    /// Parses each term into its predicate.
    pub fn parse(terms: &Vec<String>) -> (query: Query)
        ensures
            query@ == parsed_terms(terms.deep_view()),
    {
        let mut predicates: Vec<Predicate> = Vec::new();
        let mut i: usize = 0;
        while i < terms.len()
            invariant
                i <= terms.len(),
                predicates@.len() == i,
                forall|k: int|
                    0 <= k < i ==> (#[trigger] predicates@[k])@ == parsed(
                        unicode_lower(terms@[k]@),
                    ),
            decreases terms.len() - i,
        {
            predicates.push(parse_term(terms[i].as_str()));
            i += 1;
        }
        let query = Query { predicates };
        assert(query@ =~= parsed_terms(terms.deep_view()));
        query
    }

    /// Whether the query selects a fragment, that is a path made relative
    /// and lower-cased by `fragment_of`.
    pub fn selects_fragment(&self, fragment: &str) -> (selected: bool)
        ensures
            selected == is_selected(self@, fragment@),
    {
        let mut any_inclusion = false;
        let mut included = false;
        let mut i: usize = 0;
        while i < self.predicates.len()
            invariant
                i <= self.predicates.len(),
                !is_excluded(self@.take(i as int), fragment@),
                any_inclusion == has_inclusion(self@.take(i as int)),
                included == is_included(self@.take(i as int), fragment@),
            decreases self.predicates.len() - i,
        {
            let predicate = &self.predicates[i];
            let holds = predicate.holds_in(fragment);
            let ghost before = self@.take(i as int);
            let ghost after = self@.take(i + 1);
            assert(after[i as int] == predicate@);
            assert(forall|k: int| 0 <= k < i ==> after[k] == before[k]);
            if predicate.is_exclusion {
                if holds {
                    assert(is_excluded(self@, fragment@)) by {
                        assert(self@[i as int].is_exclusion && self@[i as int].holds(fragment@));
                    }
                    return false;
                }
            } else {
                any_inclusion = true;
                if holds {
                    included = true;
                }
            }
            assert(!is_excluded(after, fragment@)) by {
                if is_excluded(after, fragment@) {
                    let k = choose|k: int|
                        0 <= k < after.len() && (#[trigger] after[k]).is_exclusion && after[k].holds(
                            fragment@,
                        );
                    if k < i {
                        assert(before[k].is_exclusion && before[k].holds(fragment@));
                    }
                }
            }
            assert(any_inclusion == has_inclusion(after)) by {
                if has_inclusion(before) {
                    let k = choose|k: int| 0 <= k < before.len() && !(#[trigger] before[k]).is_exclusion;
                    assert(!after[k].is_exclusion);
                }
                if has_inclusion(after) {
                    let k = choose|k: int| 0 <= k < after.len() && !(#[trigger] after[k]).is_exclusion;
                    if k < i {
                        assert(!before[k].is_exclusion);
                    }
                }
                if !predicate.is_exclusion {
                    assert(!after[i as int].is_exclusion);
                }
            }
            assert(included == is_included(after, fragment@)) by {
                if is_included(before, fragment@) {
                    let k = choose|k: int|
                        0 <= k < before.len() && !(#[trigger] before[k]).is_exclusion
                            && before[k].holds(fragment@);
                    assert(!after[k].is_exclusion && after[k].holds(fragment@));
                }
                if is_included(after, fragment@) {
                    let k = choose|k: int|
                        0 <= k < after.len() && !(#[trigger] after[k]).is_exclusion && after[k].holds(
                            fragment@,
                        );
                    if k < i {
                        assert(!before[k].is_exclusion && before[k].holds(fragment@));
                    }
                }
                if !predicate.is_exclusion && holds {
                    assert(!after[i as int].is_exclusion && after[i as int].holds(fragment@));
                }
            }
            i += 1;
        }
        assert(self@.take(i as int) =~= self@);
        !any_inclusion || included
    }

    /// Whether the query selects a path under `root`.
    pub fn selects(&self, root: &str, path: &PathName) -> (outcome: Result<bool, SelectError>)
        ensures
            outcome_view(outcome) == selection(self@, root@, *path),
    {
        if self.predicates.len() == 0 {
            return Ok(true);
        }
        match path {
            PathName::Text(text) => {
                let fragment = fragment_of(root, text.as_str());
                Ok(self.selects_fragment(fragment.as_str()))
            },
            PathName::Garbled(shown) => Err(SelectError::Encoding { path: shown.clone() }),
        }
    }
}

/// The empty query selects every fragment, and takes every path.
pub proof fn lemma_empty_query_selects_all(root: Seq<char>, path: PathName, fragment: Seq<char>)
    ensures
        is_selected(Seq::<PredicateView>::empty(), fragment),
        selection(Seq::<PredicateView>::empty(), root, path) == Ok::<bool, Failure>(true),
{
}

/// An exclusion that holds of a fragment keeps it out, whatever else the
/// query holds.
pub proof fn lemma_exclusion_wins(query: Seq<PredicateView>, at: int, fragment: Seq<char>)
    requires
        0 <= at < query.len(),
        query[at].is_exclusion,
        query[at].holds(fragment),
    ensures
        !is_selected(query, fragment),
{
}

/// A query that has predicates, none of them an exclusion, selects a
/// fragment exactly when one of its predicates holds of it.
pub proof fn lemma_inclusions_select_by_any(query: Seq<PredicateView>, fragment: Seq<char>)
    requires
        query.len() > 0,
        forall|i: int| 0 <= i < query.len() ==> !(#[trigger] query[i]).is_exclusion,
    ensures
        is_selected(query, fragment) <==> exists|i: int|
            0 <= i < query.len() && (#[trigger] query[i]).holds(fragment),
{
    assert(!query[0].is_exclusion);
    if is_selected(query, fragment) {
        let k = choose|k: int|
            0 <= k < query.len() && !(#[trigger] query[k]).is_exclusion && query[k].holds(fragment);
        assert(query[k].holds(fragment));
    }
    if exists|i: int| 0 <= i < query.len() && (#[trigger] query[i]).holds(fragment) {
        let k = choose|k: int| 0 <= k < query.len() && (#[trigger] query[k]).holds(fragment);
        assert(!query[k].is_exclusion && query[k].holds(fragment));
    }
}

/// A query of exclusions alone selects whatever none of them holds of.
pub proof fn lemma_exclusions_alone(query: Seq<PredicateView>, fragment: Seq<char>)
    requires
        forall|i: int| 0 <= i < query.len() ==> (#[trigger] query[i]).is_exclusion,
    ensures
        is_selected(query, fragment) <==> !is_excluded(query, fragment),
{
}

} // verus!
