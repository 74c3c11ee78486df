//! Ordering a selection by time stamp, oldest first, and cutting it at the
//! limit.
//!
//! Reading the time stamps is left to the caller. A time stamp is a count
//! of nanoseconds since the Unix epoch, negative for a time before it.

use crate::error::{Failure, SelectError};
use crate::scan::{listing_view, up_to};
use vstd::prelude::*;

verus! {

/// Which time stamp of a file the ordering goes by.
#[derive(Debug, Clone, Copy, PartialEq, Eq, Structural)]
pub enum OrderingMode {
    Accessed,
    Created,
    Modified,
}

/// The mode that a name stands for: `a` or `accessed`, `c` or `created`,
/// and the time of modification for every other name.
pub open spec fn mode_named(name: Seq<char>) -> OrderingMode {
    if name == "a"@ || name == "accessed"@ {
        OrderingMode::Accessed
    } else if name == "c"@ || name == "created"@ {
        OrderingMode::Created
    } else {
        OrderingMode::Modified
    }
}

impl OrderingMode {
    /// The mode that `name` stands for. A name that is not known stands for
    /// the time of modification.
    pub fn parse(name: &str) -> (mode: OrderingMode)
        ensures
            mode == mode_named(name@),
    {
        let name = name.to_owned();
        if name == "a".to_owned() || name == "accessed".to_owned() {
            OrderingMode::Accessed
        } else if name == "c".to_owned() || name == "created".to_owned() {
            OrderingMode::Created
        } else {
            OrderingMode::Modified
        }
    }
}

/// A selected file with the time stamps that could be read for it.
#[derive(Debug, Clone, PartialEq, Eq)]
pub struct Candidate {
    pub path: String,
    pub accessed: Option<i128>,
    pub created: Option<i128>,
    pub modified: Option<i128>,
}

impl Candidate {
    /// The time stamp that `mode` goes by, if it could be read.
    pub open spec fn stamp(self, mode: OrderingMode) -> Option<i128> {
        match mode {
            OrderingMode::Accessed => self.accessed,
            OrderingMode::Created => self.created,
            OrderingMode::Modified => self.modified,
        }
    }

    /// The time stamp that `mode` goes by, if it could be read.
    pub fn stamp_for(&self, mode: OrderingMode) -> (stamp: Option<i128>)
        ensures
            stamp == self.stamp(mode),
    {
        match mode {
            OrderingMode::Accessed => self.accessed,
            OrderingMode::Created => self.created,
            OrderingMode::Modified => self.modified,
        }
    }
}

/// Whether the item at place `a` comes before the item at place `b` when
/// items with these stamps are put in order: the older one comes first, and
/// of two that are equally old the one that stood first.
pub open spec fn comes_before(stamps: Seq<i128>, a: int, b: int) -> bool {
    stamps[a] < stamps[b] || (stamps[a] == stamps[b] && a < b)
}

/// Whether `order` lists the places of `stamps`, each of them, in the order
/// in which `comes_before` puts them.
pub open spec fn is_stable_order(stamps: Seq<i128>, order: Seq<usize>) -> bool {
    &&& order.len() == stamps.len()
    &&& forall|k: int| 0 <= k < order.len() ==> (#[trigger] order[k]) < stamps.len()
    &&& forall|place: usize| place < stamps.len() ==> #[trigger] order.contains(place)
    &&& forall|j: int, k: int|
        #![trigger order[j], order[k]]
        0 <= j < k < order.len() ==> comes_before(stamps, order[j] as int, order[k] as int)
}

/// The places of `stamps` in stable ascending order.
pub open spec fn stable_order_of(stamps: Seq<i128>) -> Seq<usize> {
    choose|order: Seq<usize>| is_stable_order(stamps, order)
}

/// Putting the last place into an order of the places before it, behind
/// the items that are not younger and before those that are, gives the
/// order of all places.
proof fn lemma_insert_keeps_order(stamps: Seq<i128>, order: Seq<usize>, at: int)
    requires
        stamps.len() >= 1,
        stamps.len() <= usize::MAX,
        is_stable_order(stamps.drop_last(), order),
        0 <= at <= order.len(),
        forall|k: int| 0 <= k < at ==> stamps[(#[trigger] order[k]) as int] <= stamps.last(),
        forall|k: int|
            at <= k < order.len() ==> stamps[(#[trigger] order[k]) as int] > stamps.last(),
    ensures
        is_stable_order(stamps, order.insert(at, (stamps.len() - 1) as usize)),
{
    let last = (stamps.len() - 1) as usize;
    let before = stamps.drop_last();
    let next = order.insert(at, last);
    assert forall|place: usize| place < stamps.len() implies #[trigger] next.contains(place) by {
        if place == last {
            assert(next[at] == place);
        } else {
            assert(order.contains(place));
            let k = choose|k: int| 0 <= k < order.len() && order[k] == place;
            if k < at {
                assert(next[k] == place);
            } else {
                assert(next[k + 1] == place);
            }
        }
    }
    assert forall|j: int, k: int| 0 <= j < k < next.len() implies comes_before(
        stamps,
        #[trigger] next[j] as int,
        #[trigger] next[k] as int,
    ) by {
        if j == at {
            assert(next[k] == order[k - 1]);
        } else if k == at {
            assert(next[j] == order[j]);
        } else {
            let from_j = if j < at { j } else { j - 1 };
            let from_k = if k < at { k } else { k - 1 };
            assert(next[j] == order[from_j] && next[k] == order[from_k]);
            assert(comes_before(before, order[from_j] as int, order[from_k] as int));
        }
    }
}

/// How many of the first items of `order` are not younger than `stamp`.
spec fn place_for(stamps: Seq<i128>, order: Seq<usize>, stamp: i128) -> int
    decreases order.len(),
{
    if order.len() == 0 || stamps[order[0] as int] > stamp {
        0
    } else {
        1 + place_for(stamps, order.drop_first(), stamp)
    }
}

/// In an order by age, `place_for` parts the items that are not younger
/// than `stamp` from those that are.
proof fn lemma_place_for_parts(stamps: Seq<i128>, order: Seq<usize>, stamp: i128)
    requires
        forall|j: int, k: int|
            #![trigger order[j], order[k]]
            0 <= j < k < order.len() ==> stamps[order[j] as int] <= stamps[order[k] as int],
    ensures
        0 <= place_for(stamps, order, stamp) <= order.len(),
        forall|k: int|
            0 <= k < place_for(stamps, order, stamp) ==> stamps[(#[trigger] order[k]) as int]
                <= stamp,
        forall|k: int|
            place_for(stamps, order, stamp) <= k < order.len() ==> stamps[(
            #[trigger] order[k]) as int] > stamp,
    decreases order.len(),
{
    if order.len() == 0 {
    } else if stamps[order[0] as int] > stamp {
        assert forall|k: int| 0 <= k < order.len() implies stamps[(#[trigger] order[k]) as int]
            > stamp by {
            if k > 0 {
                assert(stamps[order[0] as int] <= stamps[order[k] as int]);
            }
        }
    } else {
        let rest = order.drop_first();
        assert forall|j: int, k: int| 0 <= j < k < rest.len() implies stamps[(
        #[trigger] rest[j]) as int] <= stamps[(#[trigger] rest[k]) as int] by {
            assert(rest[j] == order[j + 1] && rest[k] == order[k + 1]);
        }
        lemma_place_for_parts(stamps, rest, stamp);
        let at = place_for(stamps, order, stamp);
        assert forall|k: int| 0 <= k < at implies stamps[(#[trigger] order[k]) as int]
            <= stamp by {
            if k > 0 {
                assert(order[k] == rest[k - 1]);
            }
        }
        assert forall|k: int| at <= k < order.len() implies stamps[(#[trigger] order[k]) as int]
            > stamp by {
            assert(order[k] == rest[k - 1]);
        }
    }
}

/// Every sequence of stamps has a stable order, and `stable_order_of` is it.
pub proof fn lemma_stable_order_exists(stamps: Seq<i128>)
    requires
        stamps.len() <= usize::MAX,
    ensures
        is_stable_order(stamps, stable_order_of(stamps)),
    decreases stamps.len(),
{
    if stamps.len() == 0 {
        assert(is_stable_order(stamps, Seq::<usize>::empty()));
    } else {
        let before = stamps.drop_last();
        lemma_stable_order_exists(before);
        let order = stable_order_of(before);
        assert forall|j: int, k: int| 0 <= j < k < order.len() implies stamps[(
        #[trigger] order[j]) as int] <= stamps[(#[trigger] order[k]) as int] by {
            assert(comes_before(before, order[j] as int, order[k] as int));
        }
        lemma_place_for_parts(stamps, order, stamps.last());
        let at = place_for(stamps, order, stamps.last());
        lemma_insert_keeps_order(stamps, order, at);
        assert(is_stable_order(stamps, order.insert(at, (stamps.len() - 1) as usize)));
    }
}

/// Two stable orders of the same stamps agree on their first `upto` places.
proof fn lemma_orders_agree(stamps: Seq<i128>, one: Seq<usize>, other: Seq<usize>, upto: int)
    requires
        is_stable_order(stamps, one),
        is_stable_order(stamps, other),
        0 <= upto <= stamps.len(),
    ensures
        forall|k: int| 0 <= k < upto ==> one[k] == other[k],
    decreases upto,
{
    if upto > 0 {
        lemma_orders_agree(stamps, one, other, upto - 1);
        let k = upto - 1;
        let mine = one[k];
        let theirs = other[k];
        assert(other.contains(mine));
        let there = choose|m: int| 0 <= m < other.len() && other[m] == mine;
        assert(one.contains(theirs));
        let here = choose|m: int| 0 <= m < one.len() && one[m] == theirs;
        if there < k {
            assert(comes_before(stamps, one[there] as int, one[k] as int));
        } else if here < k {
            assert(comes_before(stamps, other[here] as int, other[k] as int));
        } else if there > k && here > k {
            assert(comes_before(stamps, other[k] as int, other[there] as int));
            assert(comes_before(stamps, one[k] as int, one[here] as int));
        }
    }
}

/// There is one stable order of a sequence of stamps and no other.
pub proof fn lemma_stable_order_unique(stamps: Seq<i128>, order: Seq<usize>)
    requires
        is_stable_order(stamps, order),
    ensures
        order == stable_order_of(stamps),
{
    let chosen = stable_order_of(stamps);
    lemma_orders_agree(stamps, order, chosen, stamps.len() as int);
    assert(order =~= chosen);
}

/// In a stable order no item stands before an older one.
pub proof fn lemma_order_is_by_age(stamps: Seq<i128>, order: Seq<usize>, j: int, k: int)
    requires
        is_stable_order(stamps, order),
        0 <= j <= k < order.len(),
    ensures
        stamps[order[j] as int] <= stamps[order[k] as int],
{
    if j < k {
        assert(comes_before(stamps, order[j] as int, order[k] as int));
    }
}

/// In a stable order two items with the same stamp stand as they stood
/// before: the one that came first comes first.
pub proof fn lemma_equal_stamps_keep_their_order(
    stamps: Seq<i128>,
    order: Seq<usize>,
    j: int,
    k: int,
)
    requires
        is_stable_order(stamps, order),
        0 <= j < order.len(),
        0 <= k < order.len(),
        stamps[order[j] as int] == stamps[order[k] as int],
    ensures
        j < k <==> order[j] < order[k],
{
    if j < k {
        assert(comes_before(stamps, order[j] as int, order[k] as int));
    } else if k < j {
        assert(comes_before(stamps, order[k] as int, order[j] as int));
    }
}

/// Computes the stable order of the places of `stamps`: ascending by stamp,
/// places with equal stamps in the order in which they stand.
pub fn stable_order(stamps: &Vec<i128>) -> (order: Vec<usize>)
    ensures
        is_stable_order(stamps@, order@),
        order@ == stable_order_of(stamps@),
{
    let mut order: Vec<usize> = Vec::new();
    let mut i: usize = 0;
    assert(is_stable_order(stamps@.take(0), order@));
    while i < stamps.len()
        invariant
            i <= stamps.len(),
            is_stable_order(stamps@.take(i as int), order@),
        decreases stamps.len() - i,
    {
        let ghost known = stamps@.take(i as int);
        let mut at: usize = order.len();
        assert(forall|k: int| 0 <= k < order.len() ==> known[(#[trigger] order[k]) as int]
            == stamps@[order[k] as int]);
        while at > 0 && stamps[order[at - 1]] > stamps[i]
            invariant
                at <= order.len(),
                order.len() == i,
                i < stamps.len(),
                forall|k: int| 0 <= k < order.len() ==> (#[trigger] order[k]) < i,
                forall|k: int|
                    at <= k < order.len() ==> stamps@[(#[trigger] order[k]) as int] > stamps@[i as int],
            decreases at,
        {
            at -= 1;
        }
        proof {
            let grown = stamps@.take(i + 1);
            assert(grown.drop_last() =~= known);
            assert(grown.last() == stamps@[i as int]);
            assert forall|k: int| 0 <= k < at implies grown[(#[trigger] order[k]) as int]
                <= grown.last() by {
                assert(comes_before(known, order[k] as int, order[at - 1] as int) || k == at - 1);
            }
            assert forall|k: int| at <= k < order.len() implies grown[(
            #[trigger] order[k]) as int] > grown.last() by {
                assert(grown[order[k] as int] == stamps@[order[k] as int]);
            }
            lemma_insert_keeps_order(grown, order@, at as int);
        }
        order.insert(at, i);
        i += 1;
    }
    proof {
        assert(stamps@.take(i as int) =~= stamps@);
        lemma_stable_order_unique(stamps@, order@);
    }
    order
}

/// The paths of the candidates, in the order in which they stand.
pub open spec fn paths_of(candidates: Seq<Candidate>) -> Seq<Seq<char>> {
    Seq::new(candidates.len(), |i: int| candidates[i].path@)
}

/// The place of the first candidate that lacks the stamp that `mode` goes
/// by, or the number of candidates if none lacks it.
pub open spec fn first_unstamped(candidates: Seq<Candidate>, mode: OrderingMode) -> int
    decreases candidates.len(),
{
    if candidates.len() == 0 || candidates[0].stamp(mode) is None {
        0
    } else {
        1 + first_unstamped(candidates.drop_first(), mode)
    }
}

/// The stamps of the candidates that `mode` goes by.
pub open spec fn stamps_of(candidates: Seq<Candidate>, mode: OrderingMode) -> Seq<i128> {
    Seq::new(candidates.len(), |i: int| candidates[i].stamp(mode).unwrap())
}

/// The paths in the given order of their places.
pub open spec fn arranged(paths: Seq<Seq<char>>, order: Seq<usize>) -> Seq<Seq<char>> {
    Seq::new(order.len(), |k: int| paths[order[k] as int])
}

/// What ordering comes to. Without sorting the paths stay as they stand.
/// With it they are put in the stable order of their stamps, which fails at
/// the first candidate whose stamp could not be read. Either way the limit
/// cuts what comes out.
pub open spec fn order_outcome(
    candidates: Seq<Candidate>,
    mode: OrderingMode,
    sort: bool,
    limit: Option<usize>,
) -> Result<Seq<Seq<char>>, Failure> {
    let unstamped = first_unstamped(candidates, mode);
    if !sort {
        Ok(up_to(limit, paths_of(candidates)))
    } else if unstamped < candidates.len() {
        Err(Failure::Metadata { path: candidates[unstamped].path@ })
    } else {
        Ok(
            up_to(
                limit,
                arranged(paths_of(candidates), stable_order_of(stamps_of(candidates, mode))),
            ),
        )
    }
}

/// The first unstamped candidate stands where `first_unstamped` says, and
/// all before it have their stamp.
pub proof fn lemma_first_unstamped(candidates: Seq<Candidate>, mode: OrderingMode)
    ensures
        0 <= first_unstamped(candidates, mode) <= candidates.len(),
        first_unstamped(candidates, mode) < candidates.len() ==> candidates[first_unstamped(
            candidates,
            mode,
        )].stamp(mode) is None,
        forall|i: int|
            0 <= i < first_unstamped(candidates, mode) ==> (#[trigger] candidates[i]).stamp(
                mode,
            ) is Some,
    decreases candidates.len(),
{
    if candidates.len() == 0 || candidates[0].stamp(mode) is None {
    } else {
        let rest = candidates.drop_first();
        lemma_first_unstamped(rest, mode);
        assert forall|i: int| 0 <= i < first_unstamped(candidates, mode) implies (
        #[trigger] candidates[i]).stamp(mode) is Some by {
            if i > 0 {
                assert(candidates[i] == rest[i - 1]);
            }
        }
    }
}

/// Reads off the stamps that `mode` goes by, or finds the first candidate
/// that lacks its stamp.
fn read_stamps(candidates: &Vec<Candidate>, mode: OrderingMode) -> (stamps: Result<Vec<i128>, usize>)
    ensures
        match stamps {
            Ok(stamps) => first_unstamped(candidates@, mode) == candidates.len() && stamps@
                == stamps_of(candidates@, mode),
            Err(at) => at == first_unstamped(candidates@, mode) && at < candidates.len(),
        },
{
    let mut stamps: Vec<i128> = Vec::new();
    let mut i: usize = 0;
    proof {
        lemma_first_unstamped(candidates@, mode);
    }
    while i < candidates.len()
        invariant
            i <= candidates.len(),
            i <= first_unstamped(candidates@, mode) <= candidates.len(),
            first_unstamped(candidates@, mode) < candidates.len() ==> candidates@[first_unstamped(
                candidates@,
                mode,
            )].stamp(mode) is None,
            forall|k: int|
                0 <= k < first_unstamped(candidates@, mode) ==> (#[trigger] candidates@[k]).stamp(
                    mode,
                ) is Some,
            stamps@.len() == i,
            forall|k: int| 0 <= k < i ==> candidates@[k].stamp(mode) == Some(#[trigger] stamps@[k]),
        decreases candidates.len() - i,
    {
        match candidates[i].stamp_for(mode) {
            Some(stamp) => {
                stamps.push(stamp);
            },
            None => {
                return Err(i);
            },
        }
        i += 1;
    }
    assert(stamps@ =~= stamps_of(candidates@, mode));
    Ok(stamps)
}

/// Orders a selection and cuts it at the limit.
///
/// With `sort` the candidates are put in ascending order of the stamp that
/// `mode` goes by, oldest first, and candidates with the same stamp stay
/// in the order in which they stand. A candidate whose stamp could not be
/// read fails the ordering with a metadata error that names it. Without
/// `sort` no stamp is looked at. What comes out is cut at the limit either
/// way.
pub fn order(candidates: &Vec<Candidate>, mode: OrderingMode, sort: bool, limit: Option<usize>) -> (outcome:
    Result<Vec<String>, SelectError>)
    ensures
        listing_view(outcome) == order_outcome(candidates@, mode, sort, limit),
{
    let count = candidates.len();
    let keep = match limit {
        Some(most) => if most < count {
            most
        } else {
            count
        },
        None => count,
    };
    let mut paths: Vec<String> = Vec::new();
    if !sort {
        let mut k: usize = 0;
        while k < keep
            invariant
                k <= keep <= count,
                count == candidates.len(),
                paths.deep_view() =~= paths_of(candidates@).take(k as int),
            decreases keep - k,
        {
            let ghost before = paths.deep_view();
            paths.push(candidates[k].path.clone());
            assert(paths.deep_view() =~= before.push(candidates@[k as int].path@));
            k += 1;
        }
        assert(paths_of(candidates@).take(count as int) =~= paths_of(candidates@));
        return Ok(paths);
    }
    let stamps = match read_stamps(candidates, mode) {
        Ok(stamps) => stamps,
        Err(at) => {
            return Err(SelectError::Metadata { path: candidates[at].path.clone() });
        },
    };
    let order = stable_order(&stamps);
    let ghost sorted = arranged(paths_of(candidates@), order@);
    let mut k: usize = 0;
    while k < keep
        invariant
            k <= keep <= count,
            count == candidates.len(),
            order@.len() == count,
            forall|j: int| 0 <= j < order@.len() ==> (#[trigger] order@[j]) < count,
            sorted == arranged(paths_of(candidates@), order@),
            paths.deep_view() =~= sorted.take(k as int),
        decreases keep - k,
    {
        let ghost before = paths.deep_view();
        paths.push(candidates[order[k]].path.clone());
        assert(paths.deep_view() =~= before.push(sorted[k as int]));
        k += 1;
    }
    assert(sorted.take(count as int) =~= sorted);
    Ok(paths)
}

} // verus!
