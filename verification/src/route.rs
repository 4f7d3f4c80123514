//! Best-first route search under a jump range.
//!
//! The search decides; it measures nothing. Whoever drives it answers each
//! `Step::Expand` with the locations in jump range of the expanded point, each
//! with its candidate cost: the cost of the expanded point, plus the length of
//! the jump, plus the straight-line distance from the expanded point to the
//! goal. The last term is taken from the expanded point and not from the
//! neighbour, so the cost reported for a route is an ordering weight and in
//! general larger than the length of the route.
//!
//! Costs are encodings of non-negative values and are compared as integers.
//!
//! That a search so answered finds the cheapest route is proved in
//! `route_laws`.

use crate::location::Location;
use crate::location_map::LocationMap;
use vstd::prelude::*;

verus! {

/// The cost assumed for a location that the search has not seen: the encoding
/// of the largest finite value.
pub const UNSEEN_COST: u64 = 0x7FEF_FFFF_FFFF_FFFF;

/// A location with the weight by which the frontier orders it.
#[derive(Clone, Copy, Debug, PartialEq, Eq, Structural)]
pub struct OrdPoint {
    pub weight: u64,
    pub point: Location,
}

/// What the search asks for, or how it ended.
#[derive(Clone, Copy, Debug, PartialEq, Eq, Structural)]
pub enum Step {
    /// The neighbours of this point are wanted, with their candidate costs.
    Expand(OrdPoint),
    /// The goal left the frontier with this cost.
    Found(u64),
    /// The frontier is empty and the goal was not reached.
    Exhausted,
}

/// The best cost known for `point`, or `UNSEEN_COST`.
pub open spec fn best_known(dist: Map<Location, u64>, point: Location) -> u64 {
    if dist.contains_key(point) {
        dist[point]
    } else {
        UNSEEN_COST
    }
}

/// Whether position `i` holds the earliest entry of least weight.
pub open spec fn is_first_least(frontier: Seq<OrdPoint>, i: int) -> bool {
    &&& 0 <= i < frontier.len()
    &&& forall|j: int| 0 <= j < frontier.len() ==> frontier[i].weight <= #[trigger] frontier[j].weight
    &&& forall|j: int| 0 <= j < i ==> frontier[i].weight < #[trigger] frontier[j].weight
}

/// The position of the earliest entry of least weight.
pub open spec fn first_least(frontier: Seq<OrdPoint>) -> int {
    choose|i: int| is_first_least(frontier, i)
}

/// What is known of the space explored so far.
pub ghost struct Explored {
    /// Best known cost of each location seen.
    pub dist: Map<Location, u64>,
    /// The location from which each one got its best known cost.
    pub previous: Map<Location, Location>,
    /// Entries waiting to be expanded, in the order in which they were pushed.
    pub frontier: Seq<OrdPoint>,
}

/// The state in which a search from `start` begins.
pub open spec fn initial(start: Location) -> Explored {
    Explored {
        dist: Map::<Location, u64>::empty().insert(start, 0),
        previous: Map::<Location, Location>::empty(),
        frontier: seq![OrdPoint { weight: 0, point: start }],
    }
}

/// Offers `candidate` as a way to reach its point through `from`: it is
/// recorded and pushed exactly when it is cheaper than what is known.
pub open spec fn relax_one(e: Explored, from: Location, candidate: OrdPoint) -> Explored {
    if candidate.weight < best_known(e.dist, candidate.point) {
        Explored {
            dist: e.dist.insert(candidate.point, candidate.weight),
            previous: e.previous.insert(candidate.point, from),
            frontier: e.frontier.push(candidate),
        }
    } else {
        e
    }
}

/// Offers the candidates one after another, first to last.
pub open spec fn relax_all(e: Explored, from: Location, candidates: Seq<OrdPoint>) -> Explored
    decreases candidates.len(),
{
    if candidates.len() == 0 {
        e
    } else {
        relax_one(relax_all(e, from, candidates.drop_last()), from, candidates.last())
    }
}

/// Takes entries off the frontier, least weight first and earliest among
/// equals, until one is the goal or is as cheap as the best known cost of its
/// point; entries that a cheaper way has overtaken are dropped. Gives the
/// frontier that is left and what was met.
pub open spec fn settle(frontier: Seq<OrdPoint>, dist: Map<Location, u64>, goal: Location) -> (
    Seq<OrdPoint>,
    Step,
)
    decreases frontier.len(),
{
    if frontier.len() == 0 {
        (frontier, Step::Exhausted)
    } else {
        let i = first_least(frontier);
        if 0 <= i < frontier.len() {
            let entry = frontier[i];
            let rest = frontier.remove(i);
            if entry.point == goal {
                (rest, Step::Found(entry.weight))
            } else if entry.weight > best_known(dist, entry.point) {
                settle(rest, dist, goal)
            } else {
                (rest, Step::Expand(entry))
            }
        } else {
            (frontier, Step::Exhausted)
        }
    }
}

/// Whether the location at position `i` of a path is not the start and was
/// reached from the one before it.
pub open spec fn follows(
    previous: Map<Location, Location>,
    start: Location,
    path: Seq<Location>,
    i: int,
) -> bool {
    &&& path[i] != start
    &&& previous.contains_key(path[i])
    &&& previous[path[i]] == path[i - 1]
}

/// Whether `path` leads from `start` to `goal` along the back-pointers: every
/// location after the first is not the start and was reached from the one
/// before it.
pub open spec fn is_trail(
    previous: Map<Location, Location>,
    start: Location,
    goal: Location,
    path: Seq<Location>,
) -> bool {
    &&& path.len() >= 1
    &&& path[0] == start
    &&& path.last() == goal
    &&& forall|i: int| 1 <= i < path.len() ==> #[trigger] follows(previous, start, path, i)
}

/// The path from `start` to `goal` along the back-pointers.
pub open spec fn trail(previous: Map<Location, Location>, start: Location, goal: Location) -> Seq<
    Location,
> {
    choose|path: Seq<Location>| is_trail(previous, start, goal, path)
}

/// Whether a path keeps to the jump budget, where there is one: it makes no
/// more jumps than the budget allows.
pub open spec fn within_jumps(path: Seq<Location>, max_jumps: Option<u32>) -> bool {
    max_jumps matches Some(n) ==> path.len() - 1 <= n
}

/// A frontier that is not empty has exactly one earliest entry of least weight.
pub proof fn lemma_first_least(frontier: Seq<OrdPoint>, i: int)
    requires
        is_first_least(frontier, i),
    ensures
        first_least(frontier) == i,
{
    let j = first_least(frontier);
    assert(is_first_least(frontier, j));
    if j < i {
        assert(frontier[i].weight < frontier[j].weight);
        assert(frontier[j].weight <= frontier[i].weight);
    }
    if i < j {
        assert(frontier[j].weight < frontier[i].weight);
        assert(frontier[i].weight <= frontier[j].weight);
    }
}

/// Back-pointers determine the path: two trails between the same ends agree
/// from the goal backwards.
proof fn lemma_trails_agree(
    previous: Map<Location, Location>,
    start: Location,
    goal: Location,
    p: Seq<Location>,
    q: Seq<Location>,
    k: int,
)
    requires
        is_trail(previous, start, goal, p),
        is_trail(previous, start, goal, q),
        0 <= k < p.len(),
    ensures
        k < q.len(),
        p[p.len() - 1 - k] == q[q.len() - 1 - k],
    decreases k,
{
    if k > 0 {
        lemma_trails_agree(previous, start, goal, p, q, k - 1);
        let a = p.len() - k;
        let b = q.len() - k;
        assert(p[a] == q[b]);
        assert(follows(previous, start, p, a));
        if b == 0 {
            assert(q[0] == start);
        }
        assert(follows(previous, start, q, b));
    }
}

/// There is at most one trail between two locations.
pub proof fn lemma_trail_unique(
    previous: Map<Location, Location>,
    start: Location,
    goal: Location,
    p: Seq<Location>,
    q: Seq<Location>,
)
    requires
        is_trail(previous, start, goal, p),
        is_trail(previous, start, goal, q),
    ensures
        p == q,
{
    lemma_trails_agree(previous, start, goal, p, q, p.len() - 1);
    lemma_trails_agree(previous, start, goal, q, p, q.len() - 1);
    assert(p.len() == q.len());
    assert forall|i: int| 0 <= i < p.len() implies p[i] == q[i] by {
        lemma_trails_agree(previous, start, goal, p, q, p.len() - 1 - i);
    }
    assert(p =~= q);
}

/// A best-first search for a route from a start to a goal.
///
/// `advance` takes the next entry off the frontier and says what it needs;
/// `relax` takes the answer to `Step::Expand`; `finish` gives the route once
/// `advance` has said `Step::Found`.
pub struct RouteSearch {
    start: Location,
    goal: Location,
    dist: LocationMap<u64>,
    previous: LocationMap<Location>,
    frontier: Vec<OrdPoint>,
    expanding: Option<OrdPoint>,
    found: Option<u64>,
    /// When each location last got a cheaper cost.
    stamps: Ghost<Map<Location, nat>>,
    /// The number of costs recorded so far.
    clock: Ghost<nat>,
    /// The locations that have left the frontier at their best known cost.
    settled: Ghost<Set<Location>>,
}

impl View for RouteSearch {
    type V = Explored;

    /// Costs, back-pointers and frontier of the search.
    closed spec fn view(&self) -> Explored {
        Explored { dist: self.dist@, previous: self.previous@, frontier: self.frontier@ }
    }
}

impl RouteSearch {
    /// Where the search began.
    pub closed spec fn start(&self) -> Location {
        self.start
    }

    /// Where the search is headed.
    pub closed spec fn goal(&self) -> Location {
        self.goal
    }

    /// The entry whose neighbours are awaited, if any.
    pub closed spec fn expanding(&self) -> Option<OrdPoint> {
        self.expanding
    }

    /// The cost with which the goal left the frontier in the last `advance`,
    /// if it did.
    pub closed spec fn found(&self) -> Option<u64> {
        self.found
    }

    /// The locations that have left the frontier at the cost that was then
    /// their best known one, to be expanded or as the goal.
    pub closed spec fn settled(&self) -> Set<Location> {
        self.settled@
    }

    /// Whether `p` waits on the frontier at its best known cost.
    spec fn waits(&self, p: Location) -> bool {
        self.frontier@.contains(OrdPoint { weight: self.dist@[p], point: p })
    }

    /// Whether `a` was recorded before `b`: at a lower cost, or at the same
    /// cost and earlier.
    spec fn precedes(&self, a: Location, b: Location) -> bool {
        self.dist@[a] < self.dist@[b] || (self.dist@[a] == self.dist@[b] && self.stamps@[a]
            < self.stamps@[b])
    }

    /// The invariant of the search: the start costs nothing and has no
    /// back-pointer; every other location seen has one, to a location that was
    /// recorded before it; no frontier entry is cheaper than the best known
    /// cost of its point; and every location seen waits on the frontier at its
    /// best known cost unless it is settled.
    pub closed spec fn wf(&self) -> bool {
        &&& self.dist.wf()
        &&& self.previous.wf()
        &&& self.dist@.contains_key(self.start)
        &&& self.dist@[self.start] == 0
        &&& !self.previous@.contains_key(self.start)
        &&& forall|p: Location| #[trigger]
            self.previous@.contains_key(p) ==> self.dist@.contains_key(p) && self.dist@.contains_key(
                self.previous@[p],
            ) && self.precedes(self.previous@[p], p)
        &&& forall|p: Location| #[trigger]
            self.dist@.contains_key(p) ==> (p == self.start || self.previous@.contains_key(p))
                && self.stamps@.contains_key(p) && self.stamps@[p] < self.clock@
        &&& forall|i: int|
            0 <= i < self.frontier@.len() ==> self.dist@.contains_key(
                (#[trigger] self.frontier@[i]).point,
            ) && self.dist@[self.frontier@[i].point] <= self.frontier@[i].weight
        &&& self.expanding matches Some(c) ==> self.dist@.contains_key(c.point) && self.dist@[c.point]
            == c.weight
        &&& self.found is Some ==> self.dist@.contains_key(self.goal)
        &&& forall|p: Location| #[trigger]
            self.dist@.contains_key(p) ==> self.settled@.contains(p) || self.waits(p)
    }

    /// A search from `start` to `goal`, with the start on the frontier at no
    /// cost.
    pub fn new(start: Location, goal: Location) -> (search: RouteSearch)
        ensures
            search.wf(),
            search.start() == start,
            search.goal() == goal,
            search@ == initial(start),
            search.expanding() is None,
            search.found() is None,
            search.settled() == Set::<Location>::empty(),
    {
        let mut dist: LocationMap<u64> = LocationMap::new();
        dist.insert(start, 0);
        let previous: LocationMap<Location> = LocationMap::new();
        let mut frontier: Vec<OrdPoint> = Vec::new();
        frontier.push(OrdPoint { weight: 0, point: start });
        let search = RouteSearch {
            start,
            goal,
            dist,
            previous,
            frontier,
            expanding: None,
            found: None,
            stamps: Ghost(Map::<Location, nat>::empty().insert(start, 0)),
            clock: Ghost(1),
            settled: Ghost(Set::empty()),
        };
        assert(search.frontier@ =~= seq![OrdPoint { weight: 0, point: start }]);
        assert(search.frontier@[0] == OrdPoint { weight: 0, point: start });
        search
    }

    /// The position of the earliest frontier entry of least weight.
    fn least_index(&self) -> (i: usize)
        requires
            self.frontier@.len() > 0,
        ensures
            is_first_least(self.frontier@, i as int),
    {
        let mut best: usize = 0;
        let mut i: usize = 1;
        while i < self.frontier.len()
            invariant
                0 <= best < i <= self.frontier@.len(),
                forall|j: int| 0 <= j < i ==> self.frontier@[best as int].weight <= (
                #[trigger] self.frontier@[j]).weight,
                forall|j: int| 0 <= j < best ==> self.frontier@[best as int].weight < (
                #[trigger] self.frontier@[j]).weight,
            decreases self.frontier@.len() - i,
        {
            if self.frontier[i].weight < self.frontier[best].weight {
                best = i;
            }
            i += 1;
        }
        best
    }

    /// The best cost known for `point`, or `UNSEEN_COST`.
    fn known_cost(&self, point: &Location) -> (cost: u64)
        requires
            self.dist.wf(),
        ensures
            cost == best_known(self.dist@, *point),
    {
        match self.dist.get(point) {
            Some(cost) => *cost,
            None => UNSEEN_COST,
        }
    }

    /// Takes the next entry that matters off the frontier: overtaken entries
    /// are dropped, the goal ends the search, any other entry is to be
    /// expanded.
    pub fn advance(&mut self) -> (step: Step)
        requires
            old(self).wf(),
        ensures
            final(self).wf(),
            final(self).start() == old(self).start(),
            final(self).goal() == old(self).goal(),
            final(self)@.dist == old(self)@.dist,
            final(self)@.previous == old(self)@.previous,
            (final(self)@.frontier, step) == settle(old(self)@.frontier, old(self)@.dist, old(self).goal()),
            final(self).expanding() == (match step {
                Step::Expand(entry) => Some(entry),
                _ => None,
            }),
            final(self).found() == (match step {
                Step::Found(cost) => Some(cost),
                _ => None,
            }),
            final(self).settled() == (match step {
                Step::Expand(entry) => old(self).settled().insert(entry.point),
                Step::Found(_) => old(self).settled().insert(old(self).goal()),
                Step::Exhausted => old(self).settled(),
            }),
            step matches Step::Found(cost) ==> final(self)@.dist.contains_key(old(self).goal()) && (
            !old(self).settled().contains(old(self).goal()) ==> cost == final(self)@.dist[old(
                self,
            ).goal()]),
    {
        self.expanding = None;
        self.found = None;
        loop
            invariant
                self.wf(),
                self.expanding is None,
                self.found is None,
                self.settled@ == old(self).settled@,
                self.start == old(self).start,
                self.goal == old(self).goal,
                self.dist@ == old(self).dist@,
                self.previous@ == old(self).previous@,
                settle(self.frontier@, self.dist@, self.goal) == settle(
                    old(self).frontier@,
                    old(self).dist@,
                    old(self).goal,
                ),
            decreases self.frontier@.len(),
        {
            if self.frontier.len() == 0 {
                return Step::Exhausted;
            }
            let i = self.least_index();
            proof {
                lemma_first_least(self.frontier@, i as int);
            }
            let ghost before = *self;
            let entry = self.frontier.remove(i);
            assert(entry == before.frontier@[i as int]);
            assert forall|j: int| 0 <= j < self.frontier@.len() implies self.dist@.contains_key(
                (#[trigger] self.frontier@[j]).point,
            ) && self.dist@[self.frontier@[j].point] <= self.frontier@[j].weight by {
                if j < i {
                    assert(self.frontier@[j] == before.frontier@[j]);
                } else {
                    assert(self.frontier@[j] == before.frontier@[j + 1]);
                }
            }
            let known = self.known_cost(&entry.point);
            proof {
                if !before.settled@.contains(entry.point) {
                    // The entry of the point at its best known cost is on the
                    // frontier, and no entry is lighter than the one taken.
                    assert(before.waits(entry.point));
                    let j = before.frontier@.index_of(
                        OrdPoint { weight: before.dist@[entry.point], point: entry.point },
                    );
                    assert(before.frontier@[j].weight == before.dist@[entry.point]);
                }
                if entry.point == self.goal || entry.weight <= known {
                    self.settled@ = before.settled@.insert(entry.point);
                }
                before.lemma_taken_keeps_waiting(*self, i as int);
            }
            if entry.point == self.goal {
                self.found = Some(entry.weight);
                return Step::Found(entry.weight);
            }
            if entry.weight <= known {
                self.expanding = Some(entry);
                return Step::Expand(entry);
            }
        }
    }

    /// Taking an entry off the frontier leaves every location seen waiting
    /// or settled, if the point of the entry is settled unless something
    /// cheaper is known for it.
    proof fn lemma_taken_keeps_waiting(self, after: RouteSearch, i: int)
        requires
            self.wf(),
            0 <= i < self.frontier@.len(),
            after.dist@ == self.dist@,
            after.frontier@ == self.frontier@.remove(i),
            after.settled@ == self.settled@ || after.settled@ == self.settled@.insert(
                self.frontier@[i].point,
            ),
            self.frontier@[i].weight <= self.dist@[self.frontier@[i].point] ==> after.settled@.contains(
                self.frontier@[i].point,
            ),
        ensures
            forall|p: Location| #[trigger]
                after.dist@.contains_key(p) ==> after.settled@.contains(p) || after.waits(p),
    {
        assert forall|p: Location| #[trigger] after.dist@.contains_key(p) implies after.settled@.contains(
            p,
        ) || after.waits(p) by {
            if !after.settled@.contains(p) {
                assert(self.waits(p));
                let entry = OrdPoint { weight: self.dist@[p], point: p };
                let j = self.frontier@.index_of(entry);
                assert(self.frontier@[j] == entry);
                if j < i {
                    assert(after.frontier@[j] == entry);
                } else if j > i {
                    assert(after.frontier@[j - 1] == entry);
                }
            }
        }
    }

    /// Takes the answer to `Step::Expand`: each candidate in turn is recorded
    /// and pushed if it is cheaper than the best known cost of its point, with
    /// the expanded point as its back-pointer. Without a pending expansion
    /// nothing changes.
    ///
    /// A candidate costs at least as much as the point it is reached from,
    /// since its cost is that cost plus two distances.
    pub fn relax(&mut self, candidates: &Vec<OrdPoint>)
        requires
            old(self).wf(),
            old(self).expanding() matches Some(c) ==> forall|i: int|
                0 <= i < candidates@.len() ==> (#[trigger] candidates@[i]).weight >= c.weight,
        ensures
            final(self).wf(),
            final(self).start() == old(self).start(),
            final(self).goal() == old(self).goal(),
            final(self).found() == old(self).found(),
            final(self).settled() == old(self).settled(),
            final(self).expanding() is None,
            final(self)@ == (match old(self).expanding() {
                Some(c) => relax_all(old(self)@, c.point, candidates@),
                None => old(self)@,
            }),
    {
        let current = match self.expanding {
            Some(c) => c,
            None => {
                return ;
            },
        };
        let mut i: usize = 0;
        while i < candidates.len()
            invariant
                0 <= i <= candidates@.len(),
                self.wf(),
                self.expanding == Some(current),
                self.start == old(self).start,
                self.goal == old(self).goal,
                self.found == old(self).found,
                self.settled@ == old(self).settled@,
                forall|j: int|
                    0 <= j < candidates@.len() ==> (#[trigger] candidates@[j]).weight >= current.weight,
                self@ == relax_all(old(self)@, current.point, candidates@.take(i as int)),
            decreases candidates@.len() - i,
        {
            let candidate = candidates[i];
            let known = self.known_cost(&candidate.point);
            let ghost before = *self;
            proof {
                assert(candidates@.take(i + 1).drop_last() =~= candidates@.take(i as int));
                assert(candidates@.take(i + 1).last() == candidate);
            }
            if candidate.weight < known {
                self.frontier.push(candidate);
                self.dist.insert(candidate.point, candidate.weight);
                self.previous.insert(candidate.point, current.point);
                proof {
                    self.stamps@ = before.stamps@.insert(candidate.point, before.clock@);
                    self.clock@ = before.clock@ + 1;
                    before.lemma_relax_keeps_wf(*self, current, candidate);
                }
            }
            i += 1;
        }
        proof {
            assert(candidates@.take(candidates@.len() as int) =~= candidates@);
        }
        self.expanding = None;
    }

    /// Whether the location at position `j` of a way back from the goal is not
    /// the start and was reached from the one that the way back goes on to
    /// next, where it goes on.
    spec fn led_back(&self, back: Seq<Location>, j: int) -> bool {
        &&& back[j] != self.start
        &&& self.previous@.contains_key(back[j])
        &&& j < back.len() - 1 ==> self.previous@[back[j]] == back[j + 1]
    }

    /// The path from the start to the goal along the back-pointers, once the
    /// goal has been seen.
    pub fn path(&self) -> (path: Option<Vec<Location>>)
        requires
            self.wf(),
        ensures
            path is Some <==> self@.dist.contains_key(self.goal()),
            path matches Some(p) ==> is_trail(self@.previous, self.start(), self.goal(), p@) && p@
                == trail(self@.previous, self.start(), self.goal()),
    {
        if !self.dist.contains_key(&self.goal) {
            return None;
        }
        let mut back: Vec<Location> = Vec::new();
        let mut current = self.goal;
        while current != self.start
            invariant
                self.wf(),
                self.dist@.contains_key(current),
                back@.len() == 0 ==> current == self.goal,
                back@.len() > 0 ==> back@[0] == self.goal && self.previous@[back@.last()] == current,
                forall|j: int| 0 <= j < back@.len() ==> #[trigger] self.led_back(back@, j),
            decreases self.dist@[current], self.stamps@[current],
        {
            assert(self.previous@.contains_key(current));
            assert(self.precedes(self.previous@[current], current));
            let ghost earlier = back@;
            back.push(current);
            match self.previous.get(&current) {
                Some(p) => {
                    current = *p;
                },
                None => {},
            }
            proof {
                assert forall|j: int| 0 <= j < back@.len() implies #[trigger] self.led_back(
                    back@,
                    j,
                ) by {
                    if j < earlier.len() {
                        assert(self.led_back(earlier, j));
                    }
                }
            }
        }
        let ghost earlier = back@;
        back.push(current);
        let mut path: Vec<Location> = Vec::new();
        let mut i: usize = back.len();
        while i > 0
            invariant
                0 <= i <= back@.len(),
                path@.len() == back@.len() - i,
                forall|j: int| 0 <= j < path@.len() ==> #[trigger] path@[j] == back@[back@.len() - 1 - j],
            decreases i,
        {
            i -= 1;
            path.push(back[i]);
        }
        proof {
            let n = back@.len() as int;
            assert(path@[0] == back@[n - 1]);
            assert(path@.last() == back@[0]);
            assert forall|j: int| 1 <= j < path@.len() implies #[trigger] follows(
                self.previous@,
                self.start,
                path@,
                j,
            ) by {
                assert(path@[j] == back@[n - 1 - j]);
                assert(path@[j - 1] == back@[n - 1 - j + 1]);
                assert(self.led_back(earlier, n - 1 - j));
            }
            assert(is_trail(self.previous@, self.start, self.goal, path@));
            lemma_trail_unique(
                self.previous@,
                self.start,
                self.goal,
                path@,
                trail(self.previous@, self.start, self.goal),
            );
        }
        Some(path)
    }

    /// The route, once `advance` has said `Step::Found`: the cost with which
    /// the goal left the frontier, and the path from the start to the goal. A
    /// path that makes more jumps than `max_jumps` allows is no route.
    pub fn finish(&self, max_jumps: Option<u32>) -> (route: Option<(u64, Vec<Location>)>)
        requires
            self.wf(),
        ensures
            route is Some <==> self.found() is Some && within_jumps(
                trail(self@.previous, self.start(), self.goal()),
                max_jumps,
            ),
            route matches Some((cost, path)) ==> Some(cost) == self.found() && path@ == trail(
                self@.previous,
                self.start(),
                self.goal(),
            ) && is_trail(self@.previous, self.start(), self.goal(), path@),
    {
        let cost = match self.found {
            Some(cost) => cost,
            None => {
                return None;
            },
        };
        match self.path() {
            Some(path) => {
                let fits = match max_jumps {
                    Some(n) => path.len() - 1 <= n as usize,
                    None => true,
                };
                if fits {
                    Some((cost, path))
                } else {
                    None
                }
            },
            None => None,
        }
    }

    /// Recording a cheaper candidate keeps the invariant of the search.
    proof fn lemma_relax_keeps_wf(self, after: RouteSearch, current: OrdPoint, candidate: OrdPoint)
        requires
            self.wf(),
            self.expanding == Some(current),
            candidate.weight >= current.weight,
            candidate.weight < best_known(self.dist@, candidate.point),
            after.start == self.start,
            after.goal == self.goal,
            after.found == self.found,
            after.expanding == self.expanding,
            after.dist.wf(),
            after.previous.wf(),
            after.dist@ == self.dist@.insert(candidate.point, candidate.weight),
            after.previous@ == self.previous@.insert(candidate.point, current.point),
            after.frontier@ == self.frontier@.push(candidate),
            after.stamps@ == self.stamps@.insert(candidate.point, self.clock@),
            after.clock@ == self.clock@ + 1,
            after.settled@ == self.settled@,
        ensures
            after.wf(),
    {
        let nb = candidate.point;
        assert(nb != self.start);
        assert(nb != current.point);
        assert forall|p: Location| #[trigger] after.previous@.contains_key(p) implies after.dist@.contains_key(
            p,
        ) && after.dist@.contains_key(after.previous@[p]) && after.precedes(after.previous@[p], p) by {
            if p == nb {
                assert(after.previous@[p] == current.point);
                assert(self.dist@.contains_key(current.point));
            } else {
                assert(self.previous@.contains_key(p));
                let q = self.previous@[p];
                assert(self.precedes(q, p));
                if q == nb {
                    assert(self.dist@.contains_key(nb));
                }
            }
        }
        assert forall|p: Location| #[trigger] after.dist@.contains_key(p) implies (p == after.start
            || after.previous@.contains_key(p)) && after.stamps@.contains_key(p) && after.stamps@[p]
            < after.clock@ by {
            if p != nb {
                assert(self.dist@.contains_key(p));
            }
        }
        assert forall|i: int| 0 <= i < after.frontier@.len() implies after.dist@.contains_key(
            (#[trigger] after.frontier@[i]).point,
        ) && after.dist@[after.frontier@[i].point] <= after.frontier@[i].weight by {
            if i < self.frontier@.len() {
                assert(after.frontier@[i] == self.frontier@[i]);
                assert(self.dist@.contains_key(self.frontier@[i].point));
            }
        }
        assert forall|p: Location| #[trigger] after.dist@.contains_key(p) implies after.settled@.contains(
            p,
        ) || after.waits(p) by {
            if p == nb {
                assert(after.frontier@[self.frontier@.len() as int] == candidate);
            } else if !self.settled@.contains(p) {
                assert(self.waits(p));
                let entry = OrdPoint { weight: self.dist@[p], point: p };
                let j = self.frontier@.index_of(entry);
                assert(after.frontier@[j] == entry);
            }
        }
    }
}

} // verus!
