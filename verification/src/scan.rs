//! The scan of a directory listing.
//!
//! Walking the tree is left to the caller, who hands over what the walk
//! yields, one event at a time and in the order of the walk. The scanner
//! decides what each event means: which entries are taken, which failures
//! are passed over, which abort the run, and when the walk may stop.

use crate::error::{outcome_view, Failure, SelectError};
use crate::path::PathName;
use crate::predicate::PredicateView;
use crate::query::{selection, Query};
use vstd::prelude::*;

verus! {

/// An entry that the walk has found.
#[derive(Debug, Clone, PartialEq, Eq)]
pub struct Entry {
    pub path: PathName,
    pub is_dir: bool,
}

/// What the walk yields at one step.
#[derive(Debug, Clone, PartialEq, Eq)]
pub enum WalkEvent {
    /// The walk has reached an entry.
    Found(Entry),
    /// The walk could not read something, `depth` levels below the root.
    /// Depth 0 is the root itself.
    Failed { depth: usize },
}

/// Whether the walk should go on after an event.
#[derive(Debug, Clone, Copy, PartialEq, Eq, Structural)]
pub enum Progress {
    /// More entries can be taken.
    Continue,
    /// The limit is reached: the walk can stop, nothing more will be taken.
    Done,
}

/// The state of a scan: what it looks for, and what it has taken so far.
pub ghost struct ScanState {
    pub root: Seq<char>,
    pub query: Seq<PredicateView>,
    pub limit: Option<usize>,
    pub chosen: Seq<Seq<char>>,
}

/// The outcome of a scan with its texts as sequences of characters.
pub open spec fn listing_view(outcome: Result<Vec<String>, SelectError>) -> Result<
    Seq<Seq<char>>,
    Failure,
> {
    match outcome {
        Ok(paths) => Ok(paths.deep_view()),
        Err(error) => Err(error@),
    }
}

/// The text of the entry that an event brings, if a scan of `query` under
/// `root` takes it: the entry is no directory, its path is text, and the
/// query selects it.
pub open spec fn taken_text(query: Seq<PredicateView>, root: Seq<char>, event: WalkEvent) -> Option<
    Seq<char>,
> {
    match event {
        WalkEvent::Found(Entry { path: PathName::Text(text), is_dir: false }) => {
            if selection(query, root, PathName::Text(text)) == Ok::<bool, Failure>(true) {
                Some(text@)
            } else {
                None
            }
        },
        _ => None,
    }
}

/// The failure with which an event aborts a scan of `query` under `root`,
/// if it does: the root could not be read, or an entry that the query would
/// have to look at is no text.
pub open spec fn fatal_failure(query: Seq<PredicateView>, root: Seq<char>, event: WalkEvent) -> Option<
    Failure,
> {
    match event {
        WalkEvent::Failed { depth } => {
            if depth == 0 {
                Some(Failure::Traversal { root })
            } else {
                None
            }
        },
        WalkEvent::Found(Entry { path: PathName::Garbled(shown), is_dir: false }) => Some(
            Failure::Encoding { path: shown@ },
        ),
        _ => None,
    }
}

impl ScanState {
    /// The state before the first event.
    pub open spec fn start(root: Seq<char>, query: Seq<PredicateView>, limit: Option<usize>) -> ScanState {
        ScanState { root, query, limit, chosen: Seq::empty() }
    }

    /// Whether as many paths are taken as the limit allows.
    pub open spec fn is_full(self) -> bool {
        self.limit matches Some(most) && self.chosen.len() >= most
    }

    /// Whether no more paths are taken than the limit allows.
    pub open spec fn within_limit(self) -> bool {
        self.limit matches Some(most) ==> self.chosen.len() <= most
    }

    /// The state with one more path taken.
    pub open spec fn with_chosen(self, path: Seq<char>) -> ScanState {
        ScanState { chosen: self.chosen.push(path), ..self }
    }

    /// The state after an event, or the failure that the event aborts the
    /// scan with. A full scan takes nothing more and fails on nothing.
    /// Directories are passed over, and so are failures below the root.
    pub open spec fn step(self, event: WalkEvent) -> Result<ScanState, Failure> {
        if self.is_full() {
            Ok(self)
        } else if let Some(failure) = fatal_failure(self.query, self.root, event) {
            Err(failure)
        } else if let Some(text) = taken_text(self.query, self.root, event) {
            Ok(self.with_chosen(text))
        } else {
            Ok(self)
        }
    }

    /// The state after a run of events, or the first failure among them.
    pub open spec fn run(self, events: Seq<WalkEvent>) -> Result<ScanState, Failure>
        decreases events.len(),
    {
        if events.len() == 0 {
            Ok(self)
        } else {
            match self.step(events[0]) {
                Ok(next) => next.run(events.drop_first()),
                Err(failure) => Err(failure),
            }
        }
    }

    /// What a scan that ends in this state hands back: the paths taken, in
    /// the order of the walk, or the miss if there are none.
    pub open spec fn listing(self) -> Result<Seq<Seq<char>>, Failure> {
        if self.chosen.len() == 0 {
            Err(Failure::NoMatch)
        } else {
            Ok(self.chosen)
        }
    }

    /// What to tell the walk in this state.
    pub open spec fn progress(self) -> Progress {
        if self.is_full() {
            Progress::Done
        } else {
            Progress::Continue
        }
    }
}

/// What selecting from a listing comes to: the scan runs over the events
/// from the start, and hands back what it has taken.
pub open spec fn select_outcome(
    root: Seq<char>,
    query: Seq<PredicateView>,
    limit: Option<usize>,
    events: Seq<WalkEvent>,
) -> Result<Seq<Seq<char>>, Failure> {
    match ScanState::start(root, query, limit).run(events) {
        Ok(state) => state.listing(),
        Err(failure) => Err(failure),
    }
}

/// A scan in progress.
pub struct Scanner<'a> {
    root: &'a str,
    query: &'a Query,
    limit: Option<usize>,
    chosen: Vec<String>,
}

impl<'a> View for Scanner<'a> {
    type V = ScanState;

    closed spec fn view(&self) -> ScanState {
        ScanState {
            root: self.root@,
            query: self.query@,
            limit: self.limit,
            chosen: self.chosen.deep_view(),
        }
    }
}

impl<'a> Scanner<'a> {
    #[verifier::type_invariant]
    spec fn keeps_limit(&self) -> bool {
        self.limit matches Some(most) ==> self.chosen@.len() <= most
    }

    /// A scan of `query` under `root` that takes at most `limit` paths, or
    /// any number if there is no limit.
    pub fn new(root: &'a str, query: &'a Query, limit: Option<usize>) -> (scanner: Scanner<'a>)
        ensures
            scanner@ == ScanState::start(root@, query@, limit),
    {
        let scanner = Scanner { root, query, limit, chosen: Vec::new() };
        assert(scanner.chosen.deep_view() =~= Seq::<Seq<char>>::empty());
        scanner
    }

    /// Whether the limit is reached. A walk need not start, or go on, for a
    /// scan that is full.
    pub fn is_full(&self) -> (full: bool)
        ensures
            full == self@.is_full(),
            self@.within_limit(),
    {
        proof {
            use_type_invariant(self);
        }
        match self.limit {
            Some(most) => self.chosen.len() >= most,
            None => false,
        }
    }

    /// The paths taken so far, in the order of the walk.
    pub fn chosen(&self) -> (paths: &Vec<String>)
        ensures
            paths.deep_view() == self@.chosen,
            self@.within_limit(),
    {
        proof {
            use_type_invariant(self);
        }
        &self.chosen
    }

    /// Takes in one event of the walk and says whether the walk should go
    /// on. On a failure the scan is left as it was.
    pub fn offer(&mut self, event: &WalkEvent) -> (outcome: Result<Progress, SelectError>)
        ensures
            final(self)@ == match old(self)@.step(*event) {
                Ok(next) => next,
                Err(_) => old(self)@,
            },
            outcome_view(outcome) == match old(self)@.step(*event) {
                Ok(next) => Ok::<Progress, Failure>(next.progress()),
                Err(failure) => Err(failure),
            },
            final(self)@.within_limit(),
    {
        proof {
            use_type_invariant(&*self);
        }
        if self.is_full() {
            return Ok(Progress::Done);
        }
        match event {
            WalkEvent::Failed { depth } => {
                if *depth == 0 {
                    Err(SelectError::Traversal { root: self.root.to_owned() })
                } else {
                    Ok(Progress::Continue)
                }
            },
            WalkEvent::Found(entry) => {
                if entry.is_dir {
                    return Ok(Progress::Continue);
                }
                match &entry.path {
                    PathName::Garbled(shown) => Err(SelectError::Encoding { path: shown.clone() }),
                    PathName::Text(text) => {
                        match self.query.selects(self.root, &entry.path) {
                            Err(error) => Err(error),
                            Ok(false) => Ok(Progress::Continue),
                            Ok(true) => {
                                let ghost before = self.chosen.deep_view();
                                let mut chosen: Vec<String> = Vec::new();
                                core::mem::swap(&mut self.chosen, &mut chosen);
                                chosen.push(text.clone());
                                core::mem::swap(&mut self.chosen, &mut chosen);
                                assert(self.chosen.deep_view() =~= before.push(text@));
                                if self.is_full() {
                                    Ok(Progress::Done)
                                } else {
                                    Ok(Progress::Continue)
                                }
                            },
                        }
                    },
                }
            },
        }
    }

    /// Ends the scan: the paths taken, or the miss if there are none.
    pub fn finish(self) -> (outcome: Result<Vec<String>, SelectError>)
        ensures
            listing_view(outcome) == self@.listing(),
            self@.within_limit(),
    {
        proof {
            use_type_invariant(&self);
        }
        if self.chosen.len() == 0 {
            Err(SelectError::NoMatch)
        } else {
            Ok(self.chosen)
        }
    }
}

/// Selects from a listing: the paths of the entries that are files and that
/// the query selects, in the order of the listing, up to the limit. The
/// events behind the one that fills the limit are not looked at.
///
/// Fails with the miss if nothing is taken, with a traversal error if the
/// root could not be read, and with an encoding error at a file whose path
/// is no text.
pub fn select(root: &str, query: &Query, limit: Option<usize>, events: &Vec<WalkEvent>) -> (outcome:
    Result<Vec<String>, SelectError>)
    ensures
        listing_view(outcome) == select_outcome(root@, query@, limit, events@),
        limit matches Some(most) ==> (outcome matches Ok(paths) ==> paths.len() <= most),
{
    let mut scanner = Scanner::new(root, query, limit);
    let ghost start = scanner@;
    let mut i: usize = 0;
    assert(events@.skip(0) =~= events@);
    while i < events.len() && !scanner.is_full()
        invariant
            i <= events.len(),
            scanner@.limit == limit,
            start == ScanState::start(root@, query@, limit),
            scanner@.run(events@.skip(i as int)) == start.run(events@),
        decreases events.len() - i,
    {
        let ghost before = scanner@;
        let ghost rest = events@.skip(i as int);
        assert(rest[0] == events@[i as int]);
        assert(rest.drop_first() =~= events@.skip(i + 1));
        match scanner.offer(&events[i]) {
            Err(error) => {
                assert(before.run(rest) == Err::<ScanState, Failure>(error@));
                return Err(error);
            },
            Ok(_) => {
                assert(before.run(rest) == scanner@.run(rest.drop_first()));
            },
        }
        i += 1;
    }
    proof {
        lemma_full_scan_stays(scanner@, events@.skip(i as int));
    }
    let outcome = scanner.finish();
    assert(outcome matches Ok(paths) ==> paths.deep_view().len() == paths.len());
    outcome
}

/// A scan that is full, or has no events left, ends in the state it is in.
pub proof fn lemma_full_scan_stays(state: ScanState, events: Seq<WalkEvent>)
    requires
        state.is_full() || events.len() == 0,
    ensures
        state.run(events) == Ok::<ScanState, Failure>(state),
    decreases events.len(),
{
    if events.len() > 0 {
        lemma_full_scan_stays(state, events.drop_first());
    }
}

/// A scan never takes more paths than its limit allows.
pub proof fn lemma_scan_within_limit(state: ScanState, events: Seq<WalkEvent>)
    requires
        state.within_limit(),
    ensures
        state.run(events) matches Ok(end) ==> end.within_limit() && end.limit == state.limit,
    decreases events.len(),
{
    if events.len() > 0 {
        if let Ok(next) = state.step(events[0]) {
            lemma_scan_within_limit(next, events.drop_first());
        }
    }
}

/// A selection with a limit hands back at most that many paths.
pub proof fn lemma_select_within_limit(
    root: Seq<char>,
    query: Seq<PredicateView>,
    limit: usize,
    events: Seq<WalkEvent>,
)
    ensures
        select_outcome(root, query, Some(limit), events) matches Ok(paths) ==> paths.len()
            <= limit,
{
    lemma_scan_within_limit(ScanState::start(root, query, Some(limit)), events);
}

/// Selecting twice from the same listing with the same arguments yields the
/// same: what comes out depends on nothing else.
pub proof fn lemma_select_repeatable(
    root: Seq<char>,
    query: Seq<PredicateView>,
    limit: Option<usize>,
    events: Seq<WalkEvent>,
    first: Result<Vec<String>, SelectError>,
    second: Result<Vec<String>, SelectError>,
)
    requires
        listing_view(first) == select_outcome(root, query, limit, events),
        listing_view(second) == select_outcome(root, query, limit, events),
    ensures
        listing_view(first) == listing_view(second),
{
}

/// The texts that a scan of `query` under `root` takes from the events, if
/// nothing stops it.
pub open spec fn taken_texts(query: Seq<PredicateView>, root: Seq<char>, events: Seq<WalkEvent>) -> Seq<
    Seq<char>,
>
    decreases events.len(),
{
    if events.len() == 0 {
        Seq::empty()
    } else {
        let rest = taken_texts(query, root, events.drop_first());
        match taken_text(query, root, events[0]) {
            Some(text) => seq![text] + rest,
            None => rest,
        }
    }
}

/// The paths that the limit leaves of a sequence of paths.
pub open spec fn up_to(limit: Option<usize>, paths: Seq<Seq<char>>) -> Seq<Seq<char>> {
    match limit {
        Some(most) => if paths.len() > most {
            paths.take(most as int)
        } else {
            paths
        },
        None => paths,
    }
}

/// A scan that does not fail ends with what it had, followed by the texts
/// it takes from the events, cut at the limit.
pub proof fn lemma_scan_takes_selected(state: ScanState, events: Seq<WalkEvent>)
    requires
        state.within_limit(),
    ensures
        state.run(events) matches Ok(end) ==> end.chosen == up_to(
            state.limit,
            state.chosen + taken_texts(state.query, state.root, events),
        ) && end.root == state.root && end.query == state.query && end.limit == state.limit,
    decreases events.len(),
{
    let more = taken_texts(state.query, state.root, events);
    if events.len() == 0 {
        assert(state.chosen + more =~= state.chosen);
    } else if state.is_full() {
        lemma_full_scan_stays(state, events);
        assert((state.chosen + more).take(state.chosen.len() as int) =~= state.chosen);
    } else if let Ok(next) = state.step(events[0]) {
        let rest = events.drop_first();
        lemma_scan_takes_selected(next, rest);
        assert(next.chosen + taken_texts(state.query, state.root, rest) =~= state.chosen + more);
    }
}

/// A selection that does not fail hands back the paths of the files that
/// the query selects, in the order of the listing, cut at the limit.
pub proof fn lemma_select_takes_selected(
    root: Seq<char>,
    query: Seq<PredicateView>,
    limit: Option<usize>,
    events: Seq<WalkEvent>,
)
    ensures
        select_outcome(root, query, limit, events) matches Ok(paths) ==> paths == up_to(
            limit,
            taken_texts(query, root, events),
        ),
{
    let start = ScanState::start(root, query, limit);
    lemma_scan_takes_selected(start, events);
    assert(start.chosen + taken_texts(query, root, events) =~= taken_texts(query, root, events));
}

} // verus!
