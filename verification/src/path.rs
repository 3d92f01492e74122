//! Paths that trains may travel along, and the stops they may make.
use vstd::prelude::*;
use crate::conflict::RouteConflicts;
use crate::connection::Connection;
use crate::hex::HexAddress;

verus! {

/// A single step in a path.
#[derive(Copy, Clone, Debug, PartialEq, Eq, Structural, Hash)]
pub struct Step {
    pub addr: HexAddress,
    pub conn: Connection,
}

/// The different locations at which a train may stop and earn revenue.
#[derive(Copy, Clone, Debug, PartialEq, Eq, Structural, Hash)]
pub enum StopLocation {
    City { ix: usize },
    Dit { ix: usize },
}

impl StopLocation {
    /// Returns whether this location is a city.
    pub fn is_city(&self) -> (r: bool)
        ensures
            r == (*self is City),
    {
        matches!(self, StopLocation::City { .. })
    }

    /// Returns whether this location is a dit.
    pub fn is_dit(&self) -> (r: bool)
        ensures
            r == (*self is Dit),
    {
        matches!(self, StopLocation::Dit { .. })
    }
}

/// A location on a path that, if the train stops here, may earn revenue.
#[derive(Copy, Clone, Debug, PartialEq, Eq, Structural)]
pub struct Visit {
    /// The tile on which this stop occurs.
    pub addr: HexAddress,
    /// The base revenue for this location.
    pub revenue: usize,
    /// The city or dit associated with this visit.
    pub visits: StopLocation,
}

/// The sum of the base revenues of the visits in `s`.
pub open spec fn revenue_sum(s: Seq<Visit>) -> int
    decreases s.len(),
{
    if s.len() == 0 {
        0
    } else {
        revenue_sum(s.drop_last()) + s.last().revenue
    }
}

/// The number of visits in `s` that are to cities.
pub open spec fn city_count(s: Seq<Visit>) -> int
    decreases s.len(),
{
    if s.len() == 0 {
        0
    } else {
        city_count(s.drop_last()) + if s.last().visits is City {
            1int
        } else {
            0
        }
    }
}

/// The sum over a concatenation is the sum of the sums.
pub proof fn lemma_revenue_sum_append(a: Seq<Visit>, b: Seq<Visit>)
    ensures
        revenue_sum(a + b) == revenue_sum(a) + revenue_sum(b),
        city_count(a + b) == city_count(a) + city_count(b),
    decreases b.len(),
{
    if b.len() == 0 {
        assert(a + b =~= a);
    } else {
        lemma_revenue_sum_append(a, b.drop_last());
        assert((a + b).drop_last() =~= a + b.drop_last());
    }
}

/// The sums over a single visit.
proof fn lemma_single(v: Visit)
    ensures
        revenue_sum(seq![v]) == v.revenue,
        city_count(seq![v]) == if v.visits is City {
            1int
        } else {
            0
        },
{
    let one = seq![v];
    assert(one.drop_last() =~= Seq::<Visit>::empty());
    assert(one.last() == v);
    assert(revenue_sum(one.drop_last()) == 0);
    assert(city_count(one.drop_last()) == 0);
}

/// Reversing the visits does not change their sum.
pub proof fn lemma_revenue_sum_reverse(s: Seq<Visit>)
    ensures
        revenue_sum(s.reverse()) == revenue_sum(s),
        city_count(s.reverse()) == city_count(s),
    decreases s.len(),
{
    if s.len() > 0 {
        let t = s.drop_last();
        lemma_revenue_sum_reverse(t);
        assert(s.reverse() =~= seq![s.last()] + t.reverse());
        lemma_revenue_sum_append(seq![s.last()], t.reverse());
        lemma_single(s.last());
    }
}

/// A path that a train may travel along.
#[derive(Debug)]
pub struct Path {
    pub steps: Vec<Step>,
    pub conflicts: RouteConflicts,
    pub route_conflicts: RouteConflicts,
    pub visits: Vec<Visit>,
    pub num_visits: usize,
    pub num_cities: usize,
    pub num_dits: usize,
    pub num_hexes: usize,
    pub revenue: usize,
}

impl Clone for Path {
    fn clone(&self) -> (p: Self)
        ensures
            p.steps@ == self.steps@,
            p.conflicts@ == self.conflicts@,
            p.route_conflicts@ == self.route_conflicts@,
            p.visits@ == self.visits@,
            p.num_visits == self.num_visits,
            p.num_cities == self.num_cities,
            p.num_dits == self.num_dits,
            p.num_hexes == self.num_hexes,
            p.revenue == self.revenue,
    {
        let steps = self.steps.clone();
        let visits = self.visits.clone();
        assert(steps@ =~= self.steps@);
        assert(visits@ =~= self.visits@);
        Path {
            steps,
            conflicts: self.conflicts.clone(),
            route_conflicts: self.route_conflicts.clone(),
            visits,
            num_visits: self.num_visits,
            num_cities: self.num_cities,
            num_dits: self.num_dits,
            num_hexes: self.num_hexes,
            revenue: self.revenue,
        }
    }
}

impl Path {
    /// The path's counts agree with its visits: their number, the number of
    /// them that are cities, and the sum of their revenues.
    pub open spec fn consistent(&self) -> bool {
        &&& self.num_visits == self.visits@.len()
        &&& self.num_cities == city_count(self.visits@)
        &&& self.revenue == revenue_sum(self.visits@)
    }

    /// Returns the location at which this path starts.
    pub fn start(&self) -> (v: &Visit)
        requires
            self.visits.len() > 0,
        ensures
            *v == self.visits@[0],
    {
        &self.visits[0]
    }

    /// Returns the location at which this path ends.
    pub fn end(&self) -> (v: &Visit)
        requires
            self.visits.len() > 0,
        ensures
            *v == self.visits@.last(),
    {
        &self.visits[self.visits.len() - 1]
    }

    /// Joins two paths, which must start from the same location: the joined
    /// path runs from the end of this path back to its start, then along
    /// `other` to its end.
    pub fn append(&self, other: &Path) -> (p: Path)
        requires
            self.steps.len() > 0,
            other.steps.len() > 0,
            self.steps@[0] == other.steps@[0],
            self.visits.len() > 0,
            other.visits.len() > 0,
            self.revenue + other.revenue <= usize::MAX,
            self.revenue + other.revenue >= self.visits@[0].revenue,
            1 <= self.num_cities + other.num_cities <= usize::MAX,
            self.num_dits + other.num_dits <= usize::MAX,
            1 <= self.num_hexes + other.num_hexes <= usize::MAX,
        ensures
            p.steps@ == self.steps@ + other.steps@.skip(1),
            p.visits@ == self.visits@.reverse() + other.visits@.skip(1),
            p.conflicts@ == self.conflicts@.union(other.conflicts@),
            p.route_conflicts@ == self.route_conflicts@.union(other.route_conflicts@),
            p.num_visits == p.visits@.len(),
            p.revenue == self.revenue + other.revenue - self.visits@[0].revenue,
            p.num_cities == self.num_cities + other.num_cities - 1,
            p.num_dits == self.num_dits + other.num_dits,
            p.num_hexes == self.num_hexes + other.num_hexes - 1,
            // Joining consistent paths that share their first visit, a city,
            // gives a consistent path.
            self.consistent() && other.consistent() && self.visits@[0] == other.visits@[0]
                && self.visits@[0].visits is City ==> p.consistent(),
    {
        let mut steps = self.steps.clone();
        assert(steps@ =~= self.steps@);
        let mut i: usize = 1;
        while i < other.steps.len()
            invariant
                1 <= i <= other.steps.len(),
                steps@ == self.steps@ + other.steps@.subrange(1, i as int),
            decreases other.steps.len() - i,
        {
            steps.push(other.steps[i]);
            i = i + 1;
            assert(steps@ =~= self.steps@ + other.steps@.subrange(1, i as int));
        }
        let mut visits: Vec<Visit> = Vec::new();
        let mut j: usize = self.visits.len();
        while j > 0
            invariant
                j <= self.visits.len(),
                visits@ == self.visits@.reverse().subrange(0, self.visits.len() - j),
            decreases j,
        {
            j = j - 1;
            visits.push(self.visits[j]);
            assert(visits@ =~= self.visits@.reverse().subrange(0, self.visits.len() - j));
        }
        let mut k: usize = 1;
        while k < other.visits.len()
            invariant
                1 <= k <= other.visits.len(),
                visits@ == self.visits@.reverse() + other.visits@.subrange(1, k as int),
            decreases other.visits.len() - k,
        {
            visits.push(other.visits[k]);
            k = k + 1;
            assert(visits@ =~= self.visits@.reverse() + other.visits@.subrange(1, k as int));
        }
        let conflicts = self.conflicts.merge(&other.conflicts);
        let route_conflicts = self.route_conflicts.merge(&other.route_conflicts);
        let start_revenue = self.visits[0].revenue;
        let revenue = self.revenue + other.revenue - start_revenue;
        let num_visits = visits.len();
        let num_cities = self.num_cities + other.num_cities - 1;
        let num_dits = self.num_dits + other.num_dits;
        let num_hexes = self.num_hexes + other.num_hexes - 1;
        let p = Path {
            steps,
            conflicts,
            route_conflicts,
            visits,
            num_visits,
            num_cities,
            num_dits,
            num_hexes,
            revenue,
        };
        proof {
            let tail = other.visits@.skip(1);
            assert(other.visits@.subrange(1, other.visits.len() as int) =~= tail);
            assert(other.steps@.subrange(1, other.steps.len() as int) =~= other.steps@.skip(1));
            lemma_revenue_sum_reverse(self.visits@);
            lemma_revenue_sum_append(self.visits@.reverse(), tail);
            assert(other.visits@ =~= seq![other.visits@[0]] + tail);
            lemma_revenue_sum_append(seq![other.visits@[0]], tail);
            lemma_single(other.visits@[0]);
        }
        p
    }
}

} // verus!
