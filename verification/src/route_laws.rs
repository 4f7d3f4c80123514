//! That the search finds the cheapest route.
//!
//! The search measures nothing, so the law speaks of the answers that it is
//! given: `offers(x)` is what is offered when the entry `x` is expanded. The
//! answers are honest if nothing offered is cheaper than the entry expanded,
//! and steady if expanding a point at a lower cost offers every neighbour at
//! no higher a cost. Both hold where a candidate costs the cost of the entry
//! plus distances. A legal chain begins at the start at no cost, and each of
//! its entries is offered by the one before it.

use crate::location::Location;
use crate::route::{
    best_known, first_least, follows, is_first_least, is_trail, relax_all, relax_one, settle, Explored,
    OrdPoint, Step, UNSEEN_COST,
};
use vstd::prelude::*;

verus! {

/// Whether nothing that is offered at position `i` is cheaper than the entry
/// expanded.
pub open spec fn honest_at(offers: spec_fn(OrdPoint) -> Seq<OrdPoint>, x: OrdPoint, i: int) -> bool {
    0 <= i < offers(x).len() ==> offers(x)[i].weight >= x.weight
}

/// Whether no offer is cheaper than the entry that it is offered for.
pub open spec fn honest(offers: spec_fn(OrdPoint) -> Seq<OrdPoint>) -> bool {
    forall|x: OrdPoint, i: int| #[trigger] honest_at(offers, x, i)
}

/// Whether `low` offers the point of `candidate` at no higher a cost.
pub open spec fn covered(
    offers: spec_fn(OrdPoint) -> Seq<OrdPoint>,
    low: OrdPoint,
    candidate: OrdPoint,
) -> bool {
    exists|j: int|
        0 <= j < offers(low).len() && (#[trigger] offers(low)[j]).point == candidate.point
            && offers(low)[j].weight <= candidate.weight
}

/// Whether what `high` offers at position `i` is covered by `low`, the same
/// point at a cost that is not higher.
pub open spec fn steady_at(
    offers: spec_fn(OrdPoint) -> Seq<OrdPoint>,
    low: OrdPoint,
    high: OrdPoint,
    i: int,
) -> bool {
    low.point == high.point && low.weight <= high.weight && 0 <= i < offers(high).len() ==> covered(
        offers,
        low,
        offers(high)[i],
    )
}

/// Whether a point expanded at a lower cost offers every neighbour at no
/// higher a cost.
pub open spec fn steady(offers: spec_fn(OrdPoint) -> Seq<OrdPoint>) -> bool {
    forall|low: OrdPoint, high: OrdPoint, i: int| #[trigger] steady_at(offers, low, high, i)
}

/// Whether the entry at position `i` of a chain is offered by the one before.
pub open spec fn hop(offers: spec_fn(OrdPoint) -> Seq<OrdPoint>, chain: Seq<OrdPoint>, i: int) -> bool {
    offers(chain[i - 1]).contains(chain[i])
}

/// Whether `chain` is a legal chain of jumps from `start`, each entry with
/// the cost at which the chain reaches its point.
pub open spec fn legal(
    offers: spec_fn(OrdPoint) -> Seq<OrdPoint>,
    start: Location,
    chain: Seq<OrdPoint>,
) -> bool {
    &&& chain.len() >= 1
    &&& chain[0] == OrdPoint { weight: 0, point: start }
    &&& forall|i: int| 1 <= i < chain.len() ==> #[trigger] hop(offers, chain, i)
}

/// Whether some legal chain ends in `x`.
pub open spec fn achieved(offers: spec_fn(OrdPoint) -> Seq<OrdPoint>, start: Location, x: OrdPoint) -> bool {
    exists|chain: Seq<OrdPoint>| #[trigger] legal(offers, start, chain) && chain.last() == x
}

/// Whether no legal chain reaches `p` at a lower cost than `cost`.
pub open spec fn least(
    offers: spec_fn(OrdPoint) -> Seq<OrdPoint>,
    start: Location,
    p: Location,
    cost: u64,
) -> bool {
    forall|chain: Seq<OrdPoint>| #[trigger]
        legal(offers, start, chain) && chain.last().point == p ==> cost <= chain.last().weight
}

/// Whether the search knows `candidate` or better, if its cost is one that
/// the search records.
pub open spec fn known(dist: Map<Location, u64>, candidate: OrdPoint) -> bool {
    candidate.weight < UNSEEN_COST ==> dist.contains_key(candidate.point) && dist[candidate.point]
        <= candidate.weight
}

/// Whether the search knows the first `n` of what `x` offers, or better.
pub open spec fn offers_known(
    offers: spec_fn(OrdPoint) -> Seq<OrdPoint>,
    dist: Map<Location, u64>,
    x: OrdPoint,
    n: int,
) -> bool {
    forall|i: int| 0 <= i < n && i < offers(x).len() ==> known(dist, #[trigger] offers(x)[i])
}

/// The entry of `p` at its best known cost.
pub open spec fn at_best(dist: Map<Location, u64>, p: Location) -> OrdPoint {
    OrdPoint { weight: dist[p], point: p }
}

/// Whether the entry at position `i` of the frontier is of a point seen, no
/// cheaper than its best known cost, and of a cost that the search records.
pub open spec fn entry_fits(e: Explored, i: int) -> bool {
    &&& e.dist.contains_key(e.frontier[i].point)
    &&& e.dist[e.frontier[i].point] <= e.frontier[i].weight
    &&& e.frontier[i].weight < UNSEEN_COST
}

/// Whether the back-pointer of `q` leads to a settled point that offers `q`
/// at its best known cost.
pub open spec fn linked(
    offers: spec_fn(OrdPoint) -> Seq<OrdPoint>,
    e: Explored,
    settled: Set<Location>,
    q: Location,
) -> bool {
    &&& e.dist.contains_key(q)
    &&& settled.contains(e.previous[q])
    &&& e.dist.contains_key(e.previous[q])
    &&& offers(at_best(e.dist, e.previous[q])).contains(at_best(e.dist, q))
}

/// The invariant of a search that is answered by `offers`, with the points
/// in `settled` expanded:
/// the start costs nothing; every point seen is settled or waits on the
/// frontier at its best known cost; every best known cost is that of a legal
/// chain; the cost of a settled point is the least of any legal chain, and
/// what it offers is known; the goal is not expanded.
pub open spec fn sound(
    offers: spec_fn(OrdPoint) -> Seq<OrdPoint>,
    start: Location,
    goal: Location,
    e: Explored,
    settled: Set<Location>,
) -> bool {
    &&& e.dist.contains_key(start)
    &&& e.dist[start] == 0
    &&& !settled.contains(goal)
    &&& forall|i: int| 0 <= i < e.frontier.len() ==> #[trigger] entry_fits(e, i)
    &&& forall|p: Location| #[trigger]
        e.dist.contains_key(p) ==> settled.contains(p) || e.frontier.contains(at_best(e.dist, p))
    &&& forall|p: Location| #[trigger] e.dist.contains_key(p) ==> achieved(offers, start, at_best(e.dist, p))
    &&& forall|p: Location| #[trigger]
        settled.contains(p) ==> e.dist.contains_key(p) && least(offers, start, p, e.dist[p])
            && offers_known(offers, e.dist, at_best(e.dist, p), offers(at_best(e.dist, p)).len() as int)
    &&& forall|q: Location| #[trigger] e.previous.contains_key(q) ==> linked(offers, e, settled, q)
}

/// The entry that a step takes off the frontier to act on, if it takes one.
pub open spec fn taken(step: Step, goal: Location) -> Option<OrdPoint> {
    match step {
        Step::Expand(x) => Some(x),
        Step::Found(cost) => Some(OrdPoint { weight: cost, point: goal }),
        Step::Exhausted => None,
    }
}

/// Whether an entry is as cheap as the best known cost of its point, so that
/// it is not passed over.
pub open spec fn current(dist: Map<Location, u64>, entry: OrdPoint) -> bool {
    entry.weight <= best_known(dist, entry.point)
}

/// A frontier that is not empty has an earliest entry of least weight.
pub proof fn lemma_has_first_least(frontier: Seq<OrdPoint>)
    requires
        frontier.len() > 0,
    ensures
        is_first_least(frontier, first_least(frontier)),
    decreases frontier.len(),
{
    if frontier.len() == 1 {
        assert(is_first_least(frontier, 0));
    } else {
        let rest = frontier.drop_last();
        lemma_has_first_least(rest);
        let i = first_least(rest);
        let last = frontier.len() - 1;
        if frontier[last].weight < rest[i].weight {
            assert forall|j: int| 0 <= j < frontier.len() implies frontier[last].weight <= (
            #[trigger] frontier[j]).weight by {
                if j < last {
                    assert(rest[i].weight <= rest[j].weight);
                }
            }
            assert forall|j: int| 0 <= j < last implies frontier[last].weight < (
            #[trigger] frontier[j]).weight by {
                assert(rest[i].weight <= rest[j].weight);
            }
            assert(is_first_least(frontier, last));
        } else {
            assert forall|j: int| 0 <= j < frontier.len() implies frontier[i].weight <= (
            #[trigger] frontier[j]).weight by {
                if j < last {
                    assert(rest[i].weight <= rest[j].weight);
                }
            }
            assert forall|j: int| 0 <= j < i implies frontier[i].weight < (#[trigger] frontier[j]).weight by {
                assert(rest[i].weight < rest[j].weight);
            }
            assert(is_first_least(frontier, i));
        }
    }
}

/// What `settle` does to a frontier: it leaves only entries that were there;
/// it keeps or takes every entry that is current; and the entry that it takes
/// was there, and is no dearer than any entry that is current. An entry taken
/// to be expanded is current and not the goal.
pub proof fn lemma_settle(frontier: Seq<OrdPoint>, dist: Map<Location, u64>, goal: Location)
    ensures
        forall|x: OrdPoint| #[trigger]
            settle(frontier, dist, goal).0.contains(x) ==> frontier.contains(x),
        forall|x: OrdPoint| #[trigger]
            frontier.contains(x) && current(dist, x) ==> settle(frontier, dist, goal).0.contains(x)
                || taken(settle(frontier, dist, goal).1, goal) == Some(x),
        taken(settle(frontier, dist, goal).1, goal) matches Some(t) ==> frontier.contains(t) && forall|
            x: OrdPoint,
        | #[trigger] frontier.contains(x) && current(dist, x) ==> t.weight <= x.weight,
        settle(frontier, dist, goal).1 matches Step::Expand(t) ==> current(dist, t) && t.point != goal,
    decreases frontier.len(),
{
    if frontier.len() > 0 {
        lemma_has_first_least(frontier);
        let i = first_least(frontier);
        let entry = frontier[i];
        let rest = frontier.remove(i);
        assert forall|x: OrdPoint| #[trigger] rest.contains(x) implies frontier.contains(x) by {
            let j = rest.index_of(x);
            if j < i {
                assert(frontier[j] == x);
            } else {
                assert(frontier[j + 1] == x);
            }
        }
        assert forall|x: OrdPoint| #[trigger] frontier.contains(x) implies rest.contains(x) || x
            == entry by {
            let j = frontier.index_of(x);
            if j < i {
                assert(rest[j] == x);
            } else if j > i {
                assert(rest[j - 1] == x);
            }
        }
        assert forall|x: OrdPoint| #[trigger] frontier.contains(x) implies entry.weight <= x.weight by {
            let j = frontier.index_of(x);
            assert(frontier[i].weight <= frontier[j].weight);
        }
        if entry.point != goal && entry.weight > best_known(dist, entry.point) {
            lemma_settle(rest, dist, goal);
            let last = settle(rest, dist, goal);
            assert(settle(frontier, dist, goal) == last);
            assert forall|x: OrdPoint| #[trigger] frontier.contains(x) && current(dist, x) implies last.0.contains(
                x,
            ) || taken(last.1, goal) == Some(x) by {
                assert(rest.contains(x));
            }
            if taken(last.1, goal) is Some {
                let t = taken(last.1, goal).unwrap();
                assert(rest.contains(t));
                assert forall|x: OrdPoint| #[trigger] frontier.contains(x) && current(dist, x) implies t.weight
                    <= x.weight by {
                    assert(rest.contains(x));
                }
            }
        } else {
            assert(frontier[i] == entry);
        }
    }
}

/// Along a legal chain with honest offers, costs never fall.
pub proof fn lemma_chain_rises(
    offers: spec_fn(OrdPoint) -> Seq<OrdPoint>,
    start: Location,
    chain: Seq<OrdPoint>,
    i: int,
    j: int,
)
    requires
        honest(offers),
        legal(offers, start, chain),
        0 <= i <= j < chain.len(),
    ensures
        chain[i].weight <= chain[j].weight,
    decreases j - i,
{
    if i < j {
        lemma_chain_rises(offers, start, chain, i, j - 1);
        assert(hop(offers, chain, j));
        let k = offers(chain[j - 1]).index_of(chain[j]);
        assert(honest_at(offers, chain[j - 1], k));
    }
}

/// The beginning of a legal chain is a legal chain.
pub proof fn lemma_chain_begins(
    offers: spec_fn(OrdPoint) -> Seq<OrdPoint>,
    start: Location,
    chain: Seq<OrdPoint>,
    n: int,
)
    requires
        legal(offers, start, chain),
        1 <= n <= chain.len(),
    ensures
        legal(offers, start, chain.take(n)),
        chain.take(n).last() == chain[n - 1],
{
    let head = chain.take(n);
    assert forall|i: int| 1 <= i < head.len() implies #[trigger] hop(offers, head, i) by {
        assert(hop(offers, chain, i));
    }
}

/// A legal chain with one more entry, offered by its last, is a legal chain.
pub proof fn lemma_chain_goes_on(
    offers: spec_fn(OrdPoint) -> Seq<OrdPoint>,
    start: Location,
    chain: Seq<OrdPoint>,
    next: OrdPoint,
)
    requires
        legal(offers, start, chain),
        offers(chain.last()).contains(next),
    ensures
        legal(offers, start, chain.push(next)),
        chain.push(next).last() == next,
{
    let longer = chain.push(next);
    assert forall|i: int| 1 <= i < longer.len() implies #[trigger] hop(offers, longer, i) by {
        if i < chain.len() {
            assert(hop(offers, chain, i));
        }
    }
}

/// The first entry of a chain, from position `from` on, whose point is not
/// settled, where the last one is not.
pub proof fn lemma_first_unsettled(chain: Seq<OrdPoint>, settled: Set<Location>, from: int) -> (i: int)
    requires
        0 <= from < chain.len(),
        !settled.contains(chain.last().point),
        forall|j: int| 0 <= j < from ==> settled.contains((#[trigger] chain[j]).point),
    ensures
        0 <= i < chain.len(),
        !settled.contains(chain[i].point),
        forall|j: int| 0 <= j < i ==> settled.contains((#[trigger] chain[j]).point),
    decreases chain.len() - from,
{
    if settled.contains(chain[from].point) {
        lemma_first_unsettled(chain, settled, from + 1)
    } else {
        from
    }
}

/// In a sound search, what a legal chain reaches right after settled points
/// only is known to the search, at a cost that is not higher.
pub proof fn lemma_reached_is_known(
    offers: spec_fn(OrdPoint) -> Seq<OrdPoint>,
    start: Location,
    goal: Location,
    e: Explored,
    settled: Set<Location>,
    chain: Seq<OrdPoint>,
    i: int,
)
    requires
        honest(offers),
        steady(offers),
        sound(offers, start, goal, e, settled),
        legal(offers, start, chain),
        0 <= i < chain.len(),
        forall|j: int| 0 <= j < i ==> settled.contains((#[trigger] chain[j]).point),
        chain[i].weight < UNSEEN_COST,
    ensures
        e.dist.contains_key(chain[i].point),
        e.dist[chain[i].point] <= chain[i].weight,
{
    if i > 0 {
        let before = chain[i - 1];
        let q = before.point;
        assert(settled.contains(q));
        lemma_chain_begins(offers, start, chain, i);
        assert(least(offers, start, q, e.dist[q]));
        assert(e.dist[q] <= before.weight);
        let low = at_best(e.dist, q);
        assert(hop(offers, chain, i));
        let k = offers(before).index_of(chain[i]);
        assert(steady_at(offers, low, before, k));
        assert(covered(offers, low, chain[i]));
        let j = choose|j: int|
            0 <= j < offers(low).len() && (#[trigger] offers(low)[j]).point == chain[i].point
                && offers(low)[j].weight <= chain[i].weight;
        assert(offers_known(offers, e.dist, low, offers(low).len() as int));
        assert(known(e.dist, offers(low)[j]));
    }
}

/// In a sound search, the entry that is taken off the frontier is no dearer
/// than any legal chain to its point, unless that point is settled.
pub proof fn lemma_taken_is_least(
    offers: spec_fn(OrdPoint) -> Seq<OrdPoint>,
    start: Location,
    goal: Location,
    e: Explored,
    settled: Set<Location>,
    chain: Seq<OrdPoint>,
)
    requires
        honest(offers),
        steady(offers),
        sound(offers, start, goal, e, settled),
        taken(settle(e.frontier, e.dist, goal).1, goal) is Some,
        legal(offers, start, chain),
        chain.last().point == taken(settle(e.frontier, e.dist, goal).1, goal).unwrap().point,
        !settled.contains(chain.last().point),
    ensures
        taken(settle(e.frontier, e.dist, goal).1, goal).unwrap().weight <= chain.last().weight,
{
    let t = taken(settle(e.frontier, e.dist, goal).1, goal).unwrap();
    lemma_settle(e.frontier, e.dist, goal);
    assert(e.frontier.contains(t));
    let at = e.frontier.index_of(t);
    assert(entry_fits(e, at));
    if chain.last().weight < UNSEEN_COST {
        let i = lemma_first_unsettled(chain, settled, 0);
        lemma_chain_rises(offers, start, chain, i, chain.len() - 1);
        lemma_reached_is_known(offers, start, goal, e, settled, chain, i);
        let q = chain[i].point;
        assert(e.dist.contains_key(q));
        let waiting = at_best(e.dist, q);
        assert(e.frontier.contains(waiting));
        assert(current(e.dist, waiting));
    }
}

/// The law of the search: in a sound search, the cost with which the goal
/// leaves the frontier is the least of any legal chain from the start to the
/// goal.
pub proof fn lemma_found_is_least(
    offers: spec_fn(OrdPoint) -> Seq<OrdPoint>,
    start: Location,
    goal: Location,
    e: Explored,
    settled: Set<Location>,
    cost: u64,
)
    requires
        honest(offers),
        steady(offers),
        sound(offers, start, goal, e, settled),
        settle(e.frontier, e.dist, goal).1 == Step::Found(cost),
    ensures
        least(offers, start, goal, cost),
{
    assert forall|chain: Seq<OrdPoint>| #[trigger]
        legal(offers, start, chain) && chain.last().point == goal implies cost <= chain.last().weight by {
        lemma_taken_is_least(offers, start, goal, e, settled, chain);
    }
}

/// The invariant of a search while the answers to the expansion of `x` are
/// taken in: as `sound`, but that only the first `n` of what `x` offers need
/// be known yet.
pub open spec fn sound_but(
    offers: spec_fn(OrdPoint) -> Seq<OrdPoint>,
    start: Location,
    goal: Location,
    e: Explored,
    settled: Set<Location>,
    x: OrdPoint,
    n: int,
) -> bool {
    &&& e.dist.contains_key(start)
    &&& e.dist[start] == 0
    &&& !settled.contains(goal)
    &&& settled.contains(x.point)
    &&& e.dist.contains_key(x.point)
    &&& at_best(e.dist, x.point) == x
    &&& offers_known(offers, e.dist, x, n)
    &&& forall|i: int| 0 <= i < e.frontier.len() ==> #[trigger] entry_fits(e, i)
    &&& forall|p: Location| #[trigger]
        e.dist.contains_key(p) ==> settled.contains(p) || e.frontier.contains(at_best(e.dist, p))
    &&& forall|p: Location| #[trigger] e.dist.contains_key(p) ==> achieved(offers, start, at_best(e.dist, p))
    &&& forall|p: Location| #[trigger]
        settled.contains(p) ==> e.dist.contains_key(p) && least(offers, start, p, e.dist[p]) && (p
            != x.point ==> offers_known(
            offers,
            e.dist,
            at_best(e.dist, p),
            offers(at_best(e.dist, p)).len() as int,
        ))
    &&& forall|q: Location| #[trigger] e.previous.contains_key(q) ==> linked(offers, e, settled, q)
}

/// A search begins sound.
pub proof fn lemma_begins_sound(offers: spec_fn(OrdPoint) -> Seq<OrdPoint>, start: Location, goal: Location)
    ensures
        sound(offers, start, goal, crate::route::initial(start), Set::empty()),
{
    let e = crate::route::initial(start);
    let first = OrdPoint { weight: 0, point: start };
    assert(e.frontier[0] == first);
    assert(entry_fits(e, 0));
    let chain = seq![first];
    assert(legal(offers, start, chain) && chain.last() == first);
    assert forall|p: Location| #[trigger] e.dist.contains_key(p) implies achieved(
        offers,
        start,
        at_best(e.dist, p),
    ) by {
        assert(p == start);
        assert(at_best(e.dist, p) == first);
    }
}

/// What is known stays known when a cost is lowered.
pub proof fn lemma_known_stays(dist: Map<Location, u64>, q: Location, cost: u64, candidate: OrdPoint)
    requires
        known(dist, candidate),
        cost < best_known(dist, q),
    ensures
        known(dist.insert(q, cost), candidate),
{
}

/// Taking an entry to be expanded leaves the search sound but for what the
/// entry offers.
pub proof fn lemma_expansion_begins(
    offers: spec_fn(OrdPoint) -> Seq<OrdPoint>,
    start: Location,
    goal: Location,
    e: Explored,
    settled: Set<Location>,
    x: OrdPoint,
)
    requires
        honest(offers),
        steady(offers),
        sound(offers, start, goal, e, settled),
        settle(e.frontier, e.dist, goal).1 == Step::Expand(x),
    ensures
        sound_but(
            offers,
            start,
            goal,
            Explored { dist: e.dist, previous: e.previous, frontier: settle(e.frontier, e.dist, goal).0 },
            settled.insert(x.point),
            x,
            0,
        ),
{
    let rest = settle(e.frontier, e.dist, goal).0;
    let after = Explored { dist: e.dist, previous: e.previous, frontier: rest };
    let more = settled.insert(x.point);
    lemma_settle(e.frontier, e.dist, goal);
    assert(e.frontier.contains(x));
    let at = e.frontier.index_of(x);
    assert(entry_fits(e, at));
    assert(at_best(e.dist, x.point) == x);
    assert forall|i: int| 0 <= i < after.frontier.len() implies #[trigger] entry_fits(after, i) by {
        assert(rest.contains(rest[i]));
        let j = e.frontier.index_of(rest[i]);
        assert(entry_fits(e, j));
    }
    assert forall|p: Location| #[trigger] after.dist.contains_key(p) implies more.contains(p)
        || after.frontier.contains(at_best(after.dist, p)) by {
        if !settled.contains(p) {
            let waiting = at_best(e.dist, p);
            assert(e.frontier.contains(waiting));
            assert(current(e.dist, waiting));
        }
    }
    assert forall|q: Location| #[trigger] after.previous.contains_key(q) implies linked(
        offers,
        after,
        more,
        q,
    ) by {
        assert(linked(offers, e, settled, q));
    }
    assert forall|p: Location| #[trigger] more.contains(p) implies after.dist.contains_key(p) && least(
        offers,
        start,
        p,
        after.dist[p],
    ) && (p != x.point ==> offers_known(
        offers,
        after.dist,
        at_best(after.dist, p),
        offers(at_best(after.dist, p)).len() as int,
    )) by {
        if !settled.contains(p) {
            assert(p == x.point);
            assert forall|chain: Seq<OrdPoint>| #[trigger]
                legal(offers, start, chain) && chain.last().point == p implies e.dist[p]
                <= chain.last().weight by {
                lemma_taken_is_least(offers, start, goal, e, settled, chain);
            }
        }
    }
}

/// Taking in one more of what `x` offers keeps the search sound but for the
/// rest of what `x` offers.
pub proof fn lemma_candidate_keeps_sound(
    offers: spec_fn(OrdPoint) -> Seq<OrdPoint>,
    start: Location,
    goal: Location,
    e: Explored,
    settled: Set<Location>,
    x: OrdPoint,
    n: int,
)
    requires
        honest(offers),
        sound_but(offers, start, goal, e, settled, x, n),
        0 <= n < offers(x).len(),
    ensures
        sound_but(offers, start, goal, relax_one(e, x.point, offers(x)[n]), settled, x, n + 1),
{
    let c = offers(x)[n];
    let q = c.point;
    let after = relax_one(e, x.point, c);
    if c.weight < best_known(e.dist, q) {
        // The candidate is recorded. Its point is not settled: a settled
        // point has the least cost of any legal chain, and the candidate
        // ends one.
        assert(achieved(offers, start, x));
        let chain = choose|chain: Seq<OrdPoint>| #[trigger]
            legal(offers, start, chain) && chain.last() == x;
        assert(offers(chain.last())[n] == c);
        lemma_chain_goes_on(offers, start, chain, c);
        let longer = chain.push(c);
        if settled.contains(q) {
            assert(least(offers, start, q, e.dist[q]));
            assert(legal(offers, start, longer) && longer.last().point == q);
        }
        assert(!settled.contains(q));
        assert(q != x.point);
        assert(q != start);
        assert(c.weight < UNSEEN_COST) by {
            if e.dist.contains_key(q) {
                let waiting = at_best(e.dist, q);
                assert(e.frontier.contains(waiting));
                let j = e.frontier.index_of(waiting);
                assert(entry_fits(e, j));
            }
        }
        assert forall|i: int| 0 <= i < after.frontier.len() implies #[trigger] entry_fits(after, i) by {
            if i < e.frontier.len() {
                assert(after.frontier[i] == e.frontier[i]);
                assert(entry_fits(e, i));
            } else {
                assert(after.frontier[i] == c);
            }
        }
        assert forall|p: Location| #[trigger] after.dist.contains_key(p) implies settled.contains(p)
            || after.frontier.contains(at_best(after.dist, p)) by {
            if p == q {
                assert(after.frontier[e.frontier.len() as int] == c);
            } else if !settled.contains(p) {
                let waiting = at_best(e.dist, p);
                assert(e.frontier.contains(waiting));
                let j = e.frontier.index_of(waiting);
                assert(after.frontier[j] == waiting);
            }
        }
        assert forall|p: Location| #[trigger] after.dist.contains_key(p) implies achieved(
            offers,
            start,
            at_best(after.dist, p),
        ) by {
            if p == q {
                assert(legal(offers, start, longer) && longer.last() == c);
            } else {
                assert(e.dist.contains_key(p));
            }
        }
        assert forall|p: Location| #[trigger] settled.contains(p) implies after.dist.contains_key(p)
            && least(offers, start, p, after.dist[p]) && (p != x.point ==> offers_known(
            offers,
            after.dist,
            at_best(after.dist, p),
            offers(at_best(after.dist, p)).len() as int,
        )) by {
            assert(e.dist.contains_key(p));
            let b = at_best(e.dist, p);
            if p != x.point {
                assert(offers_known(offers, e.dist, b, offers(b).len() as int));
                assert forall|i: int| 0 <= i < offers(b).len() implies known(
                    after.dist,
                    #[trigger] offers(b)[i],
                ) by {
                    lemma_known_stays(e.dist, q, c.weight, offers(b)[i]);
                }
            }
        }
        assert forall|r: Location| #[trigger] after.previous.contains_key(r) implies linked(
            offers,
            after,
            settled,
            r,
        ) by {
            if r == q {
                assert(at_best(after.dist, x.point) == x);
                assert(offers(x)[n] == at_best(after.dist, q));
            } else {
                assert(linked(offers, e, settled, r));
                assert(at_best(after.dist, e.previous[r]) == at_best(e.dist, e.previous[r]));
            }
        }
        assert forall|i: int| 0 <= i < n + 1 && i < offers(x).len() implies known(
            after.dist,
            #[trigger] offers(x)[i],
        ) by {
            if i < n {
                lemma_known_stays(e.dist, q, c.weight, offers(x)[i]);
            }
        }
    } else {
        assert forall|i: int| 0 <= i < n + 1 && i < offers(x).len() implies known(
            after.dist,
            #[trigger] offers(x)[i],
        ) by {
        }
    }
}

/// Taking in the first `n` of what `x` offers keeps the search sound but for
/// the rest of what `x` offers.
pub proof fn lemma_candidates_keep_sound(
    offers: spec_fn(OrdPoint) -> Seq<OrdPoint>,
    start: Location,
    goal: Location,
    e: Explored,
    settled: Set<Location>,
    x: OrdPoint,
    n: int,
)
    requires
        honest(offers),
        sound_but(offers, start, goal, e, settled, x, 0),
        0 <= n <= offers(x).len(),
    ensures
        sound_but(offers, start, goal, relax_all(e, x.point, offers(x).take(n)), settled, x, n),
    decreases n,
{
    if n > 0 {
        lemma_candidates_keep_sound(offers, start, goal, e, settled, x, n - 1);
        let taken = offers(x).take(n);
        assert(taken.drop_last() =~= offers(x).take(n - 1));
        assert(taken.last() == offers(x)[n - 1]);
        lemma_candidate_keeps_sound(
            offers,
            start,
            goal,
            relax_all(e, x.point, offers(x).take(n - 1)),
            settled,
            x,
            n - 1,
        );
    } else {
        assert(offers(x).take(0).len() == 0);
    }
}

/// The law of the steps: a sound search that takes an entry off the frontier
/// and is answered with what the entry offers is sound again.
pub proof fn lemma_expansion_keeps_sound(
    offers: spec_fn(OrdPoint) -> Seq<OrdPoint>,
    start: Location,
    goal: Location,
    e: Explored,
    settled: Set<Location>,
    x: OrdPoint,
)
    requires
        honest(offers),
        steady(offers),
        sound(offers, start, goal, e, settled),
        settle(e.frontier, e.dist, goal).1 == Step::Expand(x),
    ensures
        sound(
            offers,
            start,
            goal,
            relax_all(
                Explored { dist: e.dist, previous: e.previous, frontier: settle(e.frontier, e.dist, goal).0 },
                x.point,
                offers(x),
            ),
            settled.insert(x.point),
        ),
{
    let popped = Explored {
        dist: e.dist,
        previous: e.previous,
        frontier: settle(e.frontier, e.dist, goal).0,
    };
    let more = settled.insert(x.point);
    lemma_expansion_begins(offers, start, goal, e, settled, x);
    lemma_candidates_keep_sound(offers, start, goal, popped, more, x, offers(x).len() as int);
    assert(offers(x).take(offers(x).len() as int) =~= offers(x));
    let after = relax_all(popped, x.point, offers(x));
    assert(sound_but(offers, start, goal, after, more, x, offers(x).len() as int));
    assert forall|p: Location| #[trigger] more.contains(p) implies after.dist.contains_key(p) && least(
        offers,
        start,
        p,
        after.dist[p],
    ) && offers_known(
        offers,
        after.dist,
        at_best(after.dist, p),
        offers(at_best(after.dist, p)).len() as int,
    ) by {
        if p == x.point {
            assert(at_best(after.dist, p) == x);
        }
    }
}

/// The points of a path, each with its best known cost.
pub open spec fn costed(dist: Map<Location, u64>, path: Seq<Location>) -> Seq<OrdPoint> {
    Seq::new(path.len(), |i: int| at_best(dist, path[i]))
}

/// In a sound search, the path along the back-pointers is a legal chain, each
/// point at its best known cost.
pub proof fn lemma_trail_is_legal(
    offers: spec_fn(OrdPoint) -> Seq<OrdPoint>,
    start: Location,
    goal: Location,
    e: Explored,
    settled: Set<Location>,
    to: Location,
    path: Seq<Location>,
)
    requires
        sound(offers, start, goal, e, settled),
        is_trail(e.previous, start, to, path),
    ensures
        legal(offers, start, costed(e.dist, path)),
        costed(e.dist, path).last() == at_best(e.dist, to),
{
    let chain = costed(e.dist, path);
    assert forall|i: int| 1 <= i < chain.len() implies #[trigger] hop(offers, chain, i) by {
        assert(follows(e.previous, start, path, i));
        assert(linked(offers, e, settled, path[i]));
    }
}

/// Whether no legal chain reaches `goal` at a cost that the search records.
pub open spec fn out_of_reach(
    offers: spec_fn(OrdPoint) -> Seq<OrdPoint>,
    start: Location,
    goal: Location,
) -> bool {
    forall|chain: Seq<OrdPoint>| #[trigger]
        legal(offers, start, chain) && chain.last().point == goal ==> chain.last().weight >= UNSEEN_COST
}

/// A search runs out of entries only when none is left on the frontier.
pub proof fn lemma_exhausted_is_empty(frontier: Seq<OrdPoint>, dist: Map<Location, u64>, goal: Location)
    requires
        settle(frontier, dist, goal).1 == Step::Exhausted,
    ensures
        settle(frontier, dist, goal).0.len() == 0,
    decreases frontier.len(),
{
    if frontier.len() > 0 {
        lemma_has_first_least(frontier);
        let i = first_least(frontier);
        let entry = frontier[i];
        if entry.point != goal && entry.weight > best_known(dist, entry.point) {
            lemma_exhausted_is_empty(frontier.remove(i), dist, goal);
        }
    }
}

/// In a sound search that runs out of entries, the goal is out of reach.
pub proof fn lemma_exhausted_is_out_of_reach(
    offers: spec_fn(OrdPoint) -> Seq<OrdPoint>,
    start: Location,
    goal: Location,
    e: Explored,
    settled: Set<Location>,
)
    requires
        honest(offers),
        steady(offers),
        sound(offers, start, goal, e, settled),
        settle(e.frontier, e.dist, goal).1 == Step::Exhausted,
    ensures
        out_of_reach(offers, start, goal),
{
    lemma_settle(e.frontier, e.dist, goal);
    lemma_exhausted_is_empty(e.frontier, e.dist, goal);
    assert forall|chain: Seq<OrdPoint>| #[trigger]
        legal(offers, start, chain) && chain.last().point == goal implies chain.last().weight
        >= UNSEEN_COST by {
        if chain.last().weight < UNSEEN_COST {
            let i = lemma_first_unsettled(chain, settled, 0);
            lemma_chain_rises(offers, start, chain, i, chain.len() - 1);
            lemma_reached_is_known(offers, start, goal, e, settled, chain, i);
            let waiting = at_best(e.dist, chain[i].point);
            assert(e.frontier.contains(waiting));
            assert(current(e.dist, waiting));
            assert(settle(e.frontier, e.dist, goal).0.contains(waiting));
        }
    }
}

/// The search after `rounds` rounds, with the points that it has expanded.
/// In a round the search takes the next entry off the frontier and, where the
/// entry is to be expanded, takes in what the entry offers. A search that has
/// found the goal or run out of entries stays as it is.
pub open spec fn after_rounds(
    offers: spec_fn(OrdPoint) -> Seq<OrdPoint>,
    start: Location,
    goal: Location,
    rounds: nat,
) -> (Explored, Set<Location>)
    decreases rounds,
{
    if rounds == 0 {
        (crate::route::initial(start), Set::empty())
    } else {
        let (e, settled) = after_rounds(offers, start, goal, (rounds - 1) as nat);
        match settle(e.frontier, e.dist, goal).1 {
            Step::Expand(x) => (
                relax_all(
                    Explored {
                        dist: e.dist,
                        previous: e.previous,
                        frontier: settle(e.frontier, e.dist, goal).0,
                    },
                    x.point,
                    offers(x),
                ),
                settled.insert(x.point),
            ),
            _ => (e, settled),
        }
    }
}

/// A search is sound after every round.
pub proof fn lemma_rounds_sound(
    offers: spec_fn(OrdPoint) -> Seq<OrdPoint>,
    start: Location,
    goal: Location,
    rounds: nat,
)
    requires
        honest(offers),
        steady(offers),
    ensures
        sound(
            offers,
            start,
            goal,
            after_rounds(offers, start, goal, rounds).0,
            after_rounds(offers, start, goal, rounds).1,
        ),
    decreases rounds,
{
    if rounds == 0 {
        lemma_begins_sound(offers, start, goal);
    } else {
        lemma_rounds_sound(offers, start, goal, (rounds - 1) as nat);
        let (e, settled) = after_rounds(offers, start, goal, (rounds - 1) as nat);
        match settle(e.frontier, e.dist, goal).1 {
            Step::Expand(x) => {
                lemma_expansion_keeps_sound(offers, start, goal, e, settled, x);
            },
            _ => {},
        }
    }
}

/// The route that is found is the cheapest: where a search, answered round
/// after round by honest and steady offers, finds the goal, no legal chain
/// from the start to the goal costs less than the cost that it reports, and
/// the path along the back-pointers is a legal chain of that cost.
pub proof fn lemma_route_is_cheapest(
    offers: spec_fn(OrdPoint) -> Seq<OrdPoint>,
    start: Location,
    goal: Location,
    rounds: nat,
    cost: u64,
)
    requires
        honest(offers),
        steady(offers),
        settle(
            after_rounds(offers, start, goal, rounds).0.frontier,
            after_rounds(offers, start, goal, rounds).0.dist,
            goal,
        ).1 == Step::Found(cost),
    ensures
        least(offers, start, goal, cost),
        achieved(offers, start, OrdPoint { weight: cost, point: goal }),
        forall|path: Seq<Location>| #[trigger]
            is_trail(after_rounds(offers, start, goal, rounds).0.previous, start, goal, path) ==> legal(
                offers,
                start,
                costed(after_rounds(offers, start, goal, rounds).0.dist, path),
            ) && costed(after_rounds(offers, start, goal, rounds).0.dist, path).last() == (OrdPoint {
                weight: cost,
                point: goal,
            }),
{
    let (e, settled) = after_rounds(offers, start, goal, rounds);
    lemma_rounds_sound(offers, start, goal, rounds);
    lemma_found_is_least(offers, start, goal, e, settled, cost);
    lemma_settle(e.frontier, e.dist, goal);
    let found = OrdPoint { weight: cost, point: goal };
    assert(e.frontier.contains(found));
    let at = e.frontier.index_of(found);
    assert(entry_fits(e, at));
    assert(achieved(offers, start, at_best(e.dist, goal)));
    let chain = choose|chain: Seq<OrdPoint>| #[trigger]
        legal(offers, start, chain) && chain.last() == at_best(e.dist, goal);
    assert(legal(offers, start, chain) && chain.last().point == goal);
    assert(at_best(e.dist, goal) == found);
    assert forall|path: Seq<Location>| #[trigger] is_trail(e.previous, start, goal, path) implies legal(
        offers,
        start,
        costed(e.dist, path),
    ) && costed(e.dist, path).last() == found by {
        lemma_trail_is_legal(offers, start, goal, e, settled, goal, path);
    }
}

/// No route means no chain: where a search, answered round after round by
/// honest and steady offers, runs out of entries, no legal chain reaches the
/// goal at a cost that the search records. With `lemma_route_is_cheapest`: a
/// search that ends finds a route exactly when there is a legal chain.
pub proof fn lemma_no_route_is_none(
    offers: spec_fn(OrdPoint) -> Seq<OrdPoint>,
    start: Location,
    goal: Location,
    rounds: nat,
)
    requires
        honest(offers),
        steady(offers),
        settle(
            after_rounds(offers, start, goal, rounds).0.frontier,
            after_rounds(offers, start, goal, rounds).0.dist,
            goal,
        ).1 == Step::Exhausted,
    ensures
        out_of_reach(offers, start, goal),
{
    let (e, settled) = after_rounds(offers, start, goal, rounds);
    lemma_rounds_sound(offers, start, goal, rounds);
    lemma_exhausted_is_out_of_reach(offers, start, goal, e, settled);
}

} // verus!
