//! What a run has to do, decided from what was asked for.

use vstd::prelude::*;

verus! {

/// What was asked for, as far as it bears on the selection.
#[derive(Debug, Clone, Copy, PartialEq, Eq)]
pub struct Request {
    /// The most files to play, if a limit was given.
    pub limit: Option<usize>,
    /// How many terms were given.
    pub term_count: usize,
    /// Only the paths are wanted, nothing is played.
    pub dry_paths: bool,
    /// The files are wanted oldest first.
    pub newest: bool,
    /// The files are wanted oldest first, put in order after the selection is cut.
    pub play_new_first: bool,
    /// The files are wanted oldest first, so that the oldest can be dealt with first.
    pub delete_old_first: bool,
}

/// What a run does.
#[derive(Debug, Clone, Copy, PartialEq, Eq, Structural)]
pub enum Plan {
    /// Nothing narrows the selection and no order is asked for: the tree
    /// is not scanned, and the player is pointed at the root to play all
    /// that is under it.
    EntireTree,
    /// The tree is scanned for the files that the query selects.
    Selection {
        /// Whether the selection is put in order by time stamp.
        sort: bool,
        /// Whether the player has to keep the order in which it gets the files.
        keep_order: bool,
    },
}

impl Request {
    /// Whether nothing of what was asked for calls for a scan.
    pub open spec fn is_unrestricted(self) -> bool {
        &&& self.limit is None
        &&& self.term_count == 0
        &&& !self.dry_paths
        &&& !self.play_new_first
        &&& !self.newest
    }

    /// Whether an order by time stamp is asked for, by whichever flag.
    pub open spec fn wants_sort(self) -> bool {
        self.newest || self.delete_old_first || self.play_new_first
    }

    /// Whether the order of the files matters when they are played.
    pub open spec fn wants_order_kept(self) -> bool {
        self.newest || self.play_new_first
    }

    /// The plan for the request.
    pub open spec fn plan(self) -> Plan {
        if self.is_unrestricted() {
            Plan::EntireTree
        } else {
            Plan::Selection { sort: self.wants_sort(), keep_order: self.wants_order_kept() }
        }
    }
}

/// Decides what a run does. Without a limit, terms or a flag that asks for
/// paths or for an order, the whole tree is played and nothing is scanned.
/// Otherwise the tree is scanned, and the selection is put in order if any
/// of the flags asks for it: one sort serves them all.
pub fn plan(request: &Request) -> (plan: Plan)
    ensures
        plan == request.plan(),
{
    if request.limit.is_none() && request.term_count == 0 && !request.dry_paths
        && !request.play_new_first && !request.newest {
        Plan::EntireTree
    } else {
        Plan::Selection {
            sort: request.newest || request.delete_old_first || request.play_new_first,
            keep_order: request.newest || request.play_new_first,
        }
    }
}

/// A request with a limit, a term, or a wish for the paths alone is never
/// answered by playing the whole tree.
pub proof fn lemma_restricted_requests_scan(request: Request)
    requires
        request.limit is Some || request.term_count > 0 || request.dry_paths,
    ensures
        request.plan() is Selection,
{
}

} // verus!
