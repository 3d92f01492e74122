//! Train types and revenue earned for operating routes.
use vstd::prelude::*;
use crate::hex::HexAddress;
use crate::comb::{admissible, is_combination, CombinationsFilter};
use crate::path::{Path, Step, Visit};
use crate::perm::{class_seq, is_k_permutation, yields_before, KPermutationsFilter};
use crate::search::PathLimit;

verus! {

/// A table of values keyed by hex address, in which each address occurs at
/// most once: the revenue bonuses that apply at each location.
pub struct BonusTable<V> {
    entries: Vec<(HexAddress, V)>,
}

/// The map that a list of entries describes, where a later entry for an
/// address replaces an earlier one.
pub open spec fn entries_map<V>(s: Seq<(HexAddress, V)>) -> Map<HexAddress, V>
    decreases s.len(),
{
    if s.len() == 0 {
        Map::empty()
    } else {
        entries_map(s.drop_last()).insert(s.last().0, s.last().1)
    }
}

/// No address occurs twice in a list of entries.
pub open spec fn unique_keys<V>(s: Seq<(HexAddress, V)>) -> bool {
    forall|i: int, j: int| 0 <= i < j < s.len() ==> s[i].0 != s[j].0
}

/// The map of a list of entries with unique keys holds exactly its entries.
proof fn lemma_entries_map<V>(s: Seq<(HexAddress, V)>)
    requires
        unique_keys(s),
    ensures
        forall|a: HexAddress| #[trigger]
            entries_map(s).contains_key(a) <==> exists|i: int| 0 <= i < s.len() && s[i].0 == a,
        forall|i: int| 0 <= i < s.len() ==> #[trigger] entries_map(s)[s[i].0] == s[i].1,
        entries_map(s).dom().finite(),
    decreases s.len(),
{
    if s.len() > 0 {
        let t = s.drop_last();
        lemma_entries_map(t);
        assert forall|a: HexAddress| #[trigger]
            entries_map(s).contains_key(a) <==> exists|i: int| 0 <= i < s.len() && s[i].0 == a by {
            if entries_map(s).contains_key(a) && a != s.last().0 {
                let i = choose|i: int| 0 <= i < t.len() && t[i].0 == a;
                assert(s[i].0 == a);
            }
            if a == s.last().0 {
                assert(s[s.len() - 1].0 == a);
            }
            if exists|i: int| 0 <= i < s.len() && s[i].0 == a {
                let i = choose|i: int| 0 <= i < s.len() && s[i].0 == a;
                if i < s.len() - 1 {
                    assert(t[i].0 == a);
                }
            }
        }
        assert forall|i: int| 0 <= i < s.len() implies #[trigger] entries_map(s)[s[i].0] == s[i].1 by {
            if i < s.len() - 1 {
                assert(t[i] == s[i]);
                assert(s[i].0 != s.last().0);
            }
        }
    }
}

impl<V> BonusTable<V> {
    #[verifier::type_invariant]
    spec fn keys_unique(self) -> bool {
        unique_keys(self.entries@)
    }

    /// The table, as a map from locations to values.
    pub closed spec fn view(&self) -> Map<HexAddress, V> {
        entries_map(self.entries@)
    }

    /// Creates an empty table.
    pub fn new() -> (t: Self)
        ensures
            t.view() == Map::<HexAddress, V>::empty(),
    {
        BonusTable { entries: Vec::new() }
    }

    /// The entries of the table, in the order in which they were added.
    pub closed spec fn entries_seq(&self) -> Seq<(HexAddress, V)> {
        self.entries@
    }

    /// Returns the number of entries in the table.
    pub fn len(&self) -> (n: usize)
        ensures
            n == self.entries_seq().len(),
            unique_keys(self.entries_seq()),
            self.view() == entries_map(self.entries_seq()),
    {
        proof {
            use_type_invariant(self);
        }
        self.entries.len()
    }

    /// Returns the entry at position `i`.
    pub fn entry(&self, i: usize) -> (e: &(HexAddress, V))
        requires
            i < self.entries_seq().len(),
        ensures
            *e == self.entries_seq()[i as int],
    {
        &self.entries[i]
    }

    /// Returns the position of the entry for `addr`, if there is one.
    fn find(&self, addr: &HexAddress) -> (r: Option<usize>)
        ensures
            match r {
                Some(i) => i < self.entries@.len() && self.entries@[i as int].0 == *addr,
                None => forall|i: int| 0 <= i < self.entries@.len() ==> self.entries@[i].0 != *addr,
            },
    {
        let mut i: usize = 0;
        while i < self.entries.len()
            invariant
                i <= self.entries@.len(),
                forall|j: int| 0 <= j < i ==> self.entries@[j].0 != *addr,
            decreases self.entries@.len() - i,
        {
            if self.entries[i].0 == *addr {
                return Some(i);
            }
            i = i + 1;
        }
        None
    }

    /// Returns the value for `addr`, if there is one.
    pub fn get(&self, addr: &HexAddress) -> (r: Option<&V>)
        ensures
            match r {
                Some(v) => self.view().contains_key(*addr) && *v == self.view()[*addr],
                None => !self.view().contains_key(*addr),
            },
    {
        proof {
            use_type_invariant(self);
            lemma_entries_map(self.entries@);
        }
        match self.find(addr) {
            Some(i) => Some(&self.entries[i].1),
            None => None,
        }
    }

    /// Sets the value for `addr`, replacing any earlier value.
    pub fn insert(&mut self, addr: HexAddress, value: V)
        ensures
            final(self).view() == old(self).view().insert(addr, value),
    {
        proof {
            use_type_invariant(&*self);
            lemma_entries_map(self.entries@);
        }
        let ghost old_entries = self.entries@;
        match self.find(&addr) {
            Some(i) => {
                let mut entries = Vec::new();
                std::mem::swap(&mut entries, &mut self.entries);
                entries.set(i, (addr, value));
                proof {
                    let s = entries@;
                    assert(unique_keys(s)) by {
                        assert forall|x: int, y: int| 0 <= x < y < s.len() implies s[x].0 != s[y].0 by {
                            assert(old_entries[x].0 != old_entries[y].0);
                        }
                    }
                    lemma_entries_map(s);
                    assert(entries_map(s) =~= entries_map(old_entries).insert(addr, value)) by {
                        assert forall|a: HexAddress| #[trigger] entries_map(s).contains_key(a)
                            <==> entries_map(old_entries).insert(addr, value).contains_key(a) by {
                            if exists|j: int| 0 <= j < s.len() && s[j].0 == a {
                                let j = choose|j: int| 0 <= j < s.len() && s[j].0 == a;
                                if j != i {
                                    assert(old_entries[j].0 == a);
                                }
                            }
                            if exists|j: int| 0 <= j < old_entries.len() && old_entries[j].0 == a {
                                let j = choose|j: int| 0 <= j < old_entries.len() && old_entries[j].0 == a;
                                assert(s[j].0 == a);
                            }
                        }
                        assert forall|a: HexAddress| #[trigger] entries_map(s).contains_key(a) implies
                            entries_map(s)[a] == entries_map(old_entries).insert(addr, value)[a] by {
                            let j = choose|j: int| 0 <= j < s.len() && s[j].0 == a;
                            assert(entries_map(s)[s[j].0] == s[j].1);
                            if j != i {
                                assert(entries_map(old_entries)[old_entries[j].0] == old_entries[j].1);
                            }
                        }
                    }
                }
                self.entries = entries;
            },
            None => {
                let mut entries = Vec::new();
                std::mem::swap(&mut entries, &mut self.entries);
                entries.push((addr, value));
                proof {
                    assert(entries@.drop_last() =~= old_entries);
                }
                self.entries = entries;
            },
        }
    }
}


/// Bonus revenue for stopping at each location.
pub type VisitBonuses = BonusTable<usize>;

/// Bonus revenue for stopping at a location on a route that also stops at
/// any of a list of other locations.
pub type ConnectionBonuses = BonusTable<(Vec<HexAddress>, usize)>;

/// The types of trains that can operate routes to earn revenue.
#[derive(Copy, Clone, Debug, PartialEq, Eq, Structural, PartialOrd, Ord, Hash)]
pub struct Train {
    /// The constraints on the routes that the train can operate.
    pub train_type: TrainType,
    /// The maximum number of stops the train can make, if any.
    pub max_stops: Option<usize>,
    /// The multiplier that is applied to the base revenue for each stop.
    pub revenue_multiplier: usize,
}

/// The types of trains that can operate routes to earn revenue.
#[derive(Copy, Clone, Debug, PartialEq, Eq, Structural, PartialOrd, Ord, Hash)]
pub enum TrainType {
    /// Cannot skip towns or cities.
    MustStop,
    /// Can skip towns but cannot skip cities.
    SkipTowns,
    /// Can skip towns or cities.
    SkipAny,
}

impl Default for Train {
    fn default() -> (t: Self)
        ensures
            t == (Train { max_stops: Some(2), train_type: TrainType::SkipTowns, revenue_multiplier: 1 }),
    {
        Train { max_stops: Some(2), train_type: TrainType::SkipTowns, revenue_multiplier: 1 }
    }
}

/// Identify visits along a path where a train stops and earns revenue.
#[derive(Clone, Copy, Debug, PartialEq, Eq, Structural, Hash, PartialOrd, Ord)]
pub struct TrainStop {
    /// The index of the visit in the path.
    pub visit_ix: usize,
    /// The revenue earned by stopping at this location, including bonus
    /// revenue where relevant and the train's revenue multiplier.
    pub revenue: usize,
}

impl Train {
    /// Whether this train can operate a route of arbitrary length.
    pub open spec fn express(self) -> bool {
        self.max_stops is None || self.train_type == TrainType::SkipAny
    }

    /// Returns a train that stops at up to `n` locations, and may skip towns.
    fn new_n_train(n: usize) -> (t: Self)
        ensures
            t == (Train { max_stops: Some(n), train_type: TrainType::SkipTowns, revenue_multiplier: 1 }),
    {
        Train { max_stops: Some(n), ..Default::default() }
    }

    /// Return true if this train can operate a route of arbitrary length, as
    /// a result of being able to (a) make an unlimited number of stops; or
    /// (b) skip any number of towns and cities.
    pub fn is_express(&self) -> (r: bool)
        ensures
            r == self.express(),
    {
        self.max_stops.is_none() || self.train_type == TrainType::SkipAny
    }

    /// Returns a train that stops at up to 2 locations.
    pub fn new_2_train() -> (t: Self)
        ensures
            t == (Train { max_stops: Some(2), train_type: TrainType::SkipTowns, revenue_multiplier: 1 }),
    {
        Self::new_n_train(2)
    }

    /// Returns a train that stops at up to 3 locations.
    pub fn new_3_train() -> (t: Self)
        ensures
            t == (Train { max_stops: Some(3), train_type: TrainType::SkipTowns, revenue_multiplier: 1 }),
    {
        Self::new_n_train(3)
    }

    /// Returns a train that stops at up to 4 locations.
    pub fn new_4_train() -> (t: Self)
        ensures
            t == (Train { max_stops: Some(4), train_type: TrainType::SkipTowns, revenue_multiplier: 1 }),
    {
        Self::new_n_train(4)
    }

    /// Returns a train that stops at up to 5 locations.
    pub fn new_5_train() -> (t: Self)
        ensures
            t == (Train { max_stops: Some(5), train_type: TrainType::SkipTowns, revenue_multiplier: 1 }),
    {
        Self::new_n_train(5)
    }

    /// Returns a train that stops at up to 6 locations.
    pub fn new_6_train() -> (t: Self)
        ensures
            t == (Train { max_stops: Some(6), train_type: TrainType::SkipTowns, revenue_multiplier: 1 }),
    {
        Self::new_n_train(6)
    }

    /// Returns a train that stops at up to 7 locations.
    pub fn new_7_train() -> (t: Self)
        ensures
            t == (Train { max_stops: Some(7), train_type: TrainType::SkipTowns, revenue_multiplier: 1 }),
    {
        Self::new_n_train(7)
    }

    /// Returns a train that stops at up to 8 locations.
    pub fn new_8_train() -> (t: Self)
        ensures
            t == (Train { max_stops: Some(8), train_type: TrainType::SkipTowns, revenue_multiplier: 1 }),
    {
        Self::new_n_train(8)
    }

    /// Returns a train that stops at up to 2 locations, and earns double
    /// revenue.
    pub fn new_2p2_train() -> (t: Self)
        ensures
            t == (Train { max_stops: Some(2), train_type: TrainType::SkipTowns, revenue_multiplier: 2 }),
    {
        Train { max_stops: Some(2), train_type: TrainType::SkipTowns, revenue_multiplier: 2 }
    }

    /// Returns an express train that stops at up to 5 locations, may skip
    /// any location, and earns double revenue.
    pub fn new_5p5e_train() -> (t: Self)
        ensures
            t == (Train { max_stops: Some(5), train_type: TrainType::SkipAny, revenue_multiplier: 2 }),
    {
        Train { max_stops: Some(5), train_type: TrainType::SkipAny, revenue_multiplier: 2 }
    }
}

/// The bonus for stopping at `addr`.
pub open spec fn visit_bonus_at(vb: Map<HexAddress, usize>, addr: HexAddress) -> int {
    if vb.contains_key(addr) {
        vb[addr] as int
    } else {
        0
    }
}

/// The stops `stop_ixs` along `visits` include a visit to one of `dests`.
pub open spec fn stops_at_any_of(visits: Seq<Visit>, stop_ixs: Seq<usize>, dests: Seq<HexAddress>) -> bool {
    exists|d: int, ix: int|
        #![trigger visits[ix], dests[d]]
        0 <= d < dests.len() && 0 <= ix < visits.len() && stop_ixs.contains(ix as usize)
            && visits[ix].addr == dests[d]
}

/// The bonus for connecting `addr` to another location, when stopping at
/// `stop_ixs`.
pub open spec fn connection_bonus_at(
    visits: Seq<Visit>,
    stop_ixs: Seq<usize>,
    cb: Map<HexAddress, (Seq<HexAddress>, usize)>,
    addr: HexAddress,
) -> int {
    if cb.contains_key(addr) && stops_at_any_of(visits, stop_ixs, cb[addr].0) {
        cb[addr].1 as int
    } else {
        0
    }
}

/// The revenue (without any multiplier) for stopping at visit `ix`, when
/// the train stops at `stop_ixs`: its base revenue and its bonuses.
pub open spec fn stop_revenue(
    visits: Seq<Visit>,
    stop_ixs: Seq<usize>,
    vb: Map<HexAddress, usize>,
    cb: Map<HexAddress, (Seq<HexAddress>, usize)>,
    ix: int,
) -> int {
    visits[ix].revenue + visit_bonus_at(vb, visits[ix].addr) + connection_bonus_at(
        visits,
        stop_ixs,
        cb,
        visits[ix].addr,
    )
}

/// The sum, over the first `m` of the stops `stop_ixs`, of the stop's revenue
/// times the multiplier `mult`.
pub open spec fn stops_revenue(
    visits: Seq<Visit>,
    stop_ixs: Seq<usize>,
    vb: Map<HexAddress, usize>,
    cb: Map<HexAddress, (Seq<HexAddress>, usize)>,
    mult: int,
    m: int,
) -> int
    decreases m,
{
    if m <= 0 {
        0
    } else {
        stops_revenue(visits, stop_ixs, vb, cb, mult, m - 1) + stop_revenue(
            visits,
            stop_ixs,
            vb,
            cb,
            stop_ixs[m - 1] as int,
        ) * mult
    }
}

/// The stops made at `stop_ixs`, each with its revenue times `mult`.
pub open spec fn train_stops(
    visits: Seq<Visit>,
    stop_ixs: Seq<usize>,
    vb: Map<HexAddress, usize>,
    cb: Map<HexAddress, (Seq<HexAddress>, usize)>,
    mult: int,
) -> Seq<TrainStop> {
    Seq::new(
        stop_ixs.len(),
        |k: int|
            TrainStop {
                visit_ix: stop_ixs[k],
                revenue: (stop_revenue(visits, stop_ixs, vb, cb, stop_ixs[k] as int) * mult) as usize,
            },
    )
}

/// Every stop is a visit, and the revenue of each stop, and the revenue of
/// all of the stops times `mult`, fit in a `usize`.
pub open spec fn stops_fit(
    visits: Seq<Visit>,
    stop_ixs: Seq<usize>,
    vb: Map<HexAddress, usize>,
    cb: Map<HexAddress, (Seq<HexAddress>, usize)>,
    mult: int,
) -> bool {
    &&& forall|k: int|
        0 <= k < stop_ixs.len() ==> #[trigger] stop_ixs[k] < visits.len() && stop_revenue(
            visits,
            stop_ixs,
            vb,
            cb,
            stop_ixs[k] as int,
        ) <= usize::MAX
    &&& stops_revenue(visits, stop_ixs, vb, cb, mult, stop_ixs.len() as int) <= usize::MAX
}

/// The sum of the revenues of `stops`.
pub open spec fn stops_total(stops: Seq<TrainStop>) -> int
    decreases stops.len(),
{
    if stops.len() == 0 {
        0
    } else {
        stops_total(stops.drop_last()) + stops.last().revenue
    }
}

/// The partial sums of the stops' revenues do not decrease.
proof fn lemma_stops_revenue_mono(
    visits: Seq<Visit>,
    stop_ixs: Seq<usize>,
    vb: Map<HexAddress, usize>,
    cb: Map<HexAddress, (Seq<HexAddress>, usize)>,
    mult: int,
    m1: int,
    m2: int,
)
    requires
        0 <= m1 <= m2 <= stop_ixs.len(),
        mult >= 0,
        forall|k: int| 0 <= k < stop_ixs.len() ==> #[trigger] stop_ixs[k] < visits.len(),
    ensures
        0 <= stops_revenue(visits, stop_ixs, vb, cb, mult, m1) <= stops_revenue(visits, stop_ixs, vb, cb, mult, m2),
    decreases m2,
{
    if m2 > 0 {
        if m1 < m2 {
            lemma_stops_revenue_mono(visits, stop_ixs, vb, cb, mult, m1, m2 - 1);
        } else {
            lemma_stops_revenue_mono(visits, stop_ixs, vb, cb, mult, m2 - 1, m2 - 1);
        }
        let ix = stop_ixs[m2 - 1] as int;
        assert(stop_revenue(visits, stop_ixs, vb, cb, ix) >= 0);
        assert(stop_revenue(visits, stop_ixs, vb, cb, ix) * mult >= 0) by (nonlinear_arith)
            requires
                stop_revenue(visits, stop_ixs, vb, cb, ix) >= 0,
                mult >= 0,
        ;
    }
}

/// Calculate the revenue bonus for stopping at a location.
fn visit_bonus(addr: &HexAddress, visit_bonuses: &VisitBonuses) -> (b: usize)
    ensures
        b == visit_bonus_at(visit_bonuses.view(), *addr),
{
    match visit_bonuses.get(addr) {
        Some(b) => *b,
        None => 0,
    }
}

/// Return true if the selected path stops include at least one of the
/// provided locations.
fn stops_at_any(path: &Path, stop_ixs: &[usize], dests: &Vec<HexAddress>) -> (r: bool)
    ensures
        r == stops_at_any_of(path.visits@, stop_ixs@, dests@),
{
    let mut d: usize = 0;
    while d < dests.len()
        invariant
            d <= dests@.len(),
            forall|dd: int, ix: int|
                #![trigger path.visits@[ix], dests@[dd]]
                0 <= dd < d && 0 <= ix < path.visits@.len() && stop_ixs@.contains(ix as usize)
                    ==> path.visits@[ix].addr != dests@[dd],
        decreases dests@.len() - d,
    {
        let mut ix: usize = 0;
        while ix < path.visits.len()
            invariant
                d < dests@.len(),
                ix <= path.visits@.len(),
                forall|dd: int, i: int|
                    #![trigger path.visits@[i], dests@[dd]]
                    0 <= dd < d && 0 <= i < path.visits@.len() && stop_ixs@.contains(i as usize)
                        ==> path.visits@[i].addr != dests@[dd],
                forall|i: int|
                    0 <= i < ix && stop_ixs@.contains(i as usize) ==> #[trigger] path.visits@[i].addr
                        != dests@[d as int],
            decreases path.visits@.len() - ix,
        {
            if path.visits[ix].addr == dests[d] && slice_contains(stop_ixs, ix) {
                assert(stops_at_any_of(path.visits@, stop_ixs@, dests@)) by {
                    assert(stop_ixs@.contains(ix as usize));
                    assert(path.visits@[ix as int].addr == dests@[d as int]);
                }
                return true;
            }
            ix = ix + 1;
        }
        d = d + 1;
    }
    false
}

/// Returns whether `s` holds `x`.
fn slice_contains(s: &[usize], x: usize) -> (r: bool)
    ensures
        r == s@.contains(x),
{
    let mut i: usize = 0;
    while i < s.len()
        invariant
            i <= s@.len(),
            forall|j: int| 0 <= j < i ==> s@[j] != x,
        decreases s@.len() - i,
    {
        if s[i] == x {
            assert(s@[i as int] == x);
            return true;
        }
        i = i + 1;
    }
    false
}

/// Calculate the revenue bonus for connecting one location to another.
fn connection_bonus(
    addr: &HexAddress,
    path: &Path,
    stop_ixs: &[usize],
    conn_bonuses: &ConnectionBonuses,
) -> (b: usize)
    ensures
        b == connection_bonus_at(path.visits@, stop_ixs@, connection_view(conn_bonuses.view()), *addr),
{
    match conn_bonuses.get(addr) {
        Some(entry) => {
            if stops_at_any(path, stop_ixs, &entry.0) {
                entry.1
            } else {
                0
            }
        },
        None => 0,
    }
}

/// Calculate the revenue (without any multiplier) for stopping at visit
/// `ix`, when the train stops at `stop_ixs`.
fn revenue_for_stop(
    path: &Path,
    stop_ixs: &[usize],
    ix: usize,
    visit_bonuses: &VisitBonuses,
    conn_bonuses: &ConnectionBonuses,
) -> (r: usize)
    requires
        ix < path.visits@.len(),
        stop_revenue(path.visits@, stop_ixs@, visit_bonuses.view(), connection_view(conn_bonuses.view()), ix as int)
            <= usize::MAX,
    ensures
        r == stop_revenue(path.visits@, stop_ixs@, visit_bonuses.view(), connection_view(conn_bonuses.view()), ix as int),
{
    let base_revenue: usize = path.visits[ix].revenue;
    let addr = path.visits[ix].addr;
    let visit = visit_bonus(&addr, visit_bonuses);
    let connect = connection_bonus(&addr, path, stop_ixs, conn_bonuses);
    base_revenue + visit + connect
}

/// Calculate the revenue, including bonuses, for stopping at a subset of
/// visits along a path; this includes the train's revenue multiplier, if any.
fn revenue_for_stops(
    path: &Path,
    train: &Train,
    stop_ixs: &Vec<usize>,
    visit_bonuses: &VisitBonuses,
    conn_bonuses: &ConnectionBonuses,
) -> (r: (usize, Vec<TrainStop>))
    requires
        stops_fit(
            path.visits@,
            stop_ixs@,
            visit_bonuses.view(),
            connection_view(conn_bonuses.view()),
            train.revenue_multiplier as int,
        ),
    ensures
        r.1@ == train_stops(
            path.visits@,
            stop_ixs@,
            visit_bonuses.view(),
            connection_view(conn_bonuses.view()),
            train.revenue_multiplier as int,
        ),
        r.0 == stops_revenue(
            path.visits@,
            stop_ixs@,
            visit_bonuses.view(),
            connection_view(conn_bonuses.view()),
            train.revenue_multiplier as int,
            stop_ixs@.len() as int,
        ),
        r.0 == stops_total(r.1@),
        forall|k: int| 0 <= k < r.1@.len() ==> #[trigger] r.1@[k].visit_ix < path.visits@.len(),
{
    let ghost visits = path.visits@;
    let ghost vb = visit_bonuses.view();
    let ghost cb = connection_view(conn_bonuses.view());
    let ghost mult = train.revenue_multiplier as int;
    let mut stops: Vec<TrainStop> = Vec::new();
    let mut net_revenue: usize = 0;
    let mut k: usize = 0;
    while k < stop_ixs.len()
        invariant
            k <= stop_ixs@.len(),
            stops_fit(visits, stop_ixs@, vb, cb, mult),
            visits == path.visits@,
            vb == visit_bonuses.view(),
            cb == connection_view(conn_bonuses.view()),
            mult == train.revenue_multiplier,
            stops@ == train_stops(visits, stop_ixs@, vb, cb, mult).subrange(0, k as int),
            net_revenue == stops_revenue(visits, stop_ixs@, vb, cb, mult, k as int),
            net_revenue == stops_total(stops@),
        decreases stop_ixs@.len() - k,
    {
        let ix = stop_ixs[k];
        let rev = revenue_for_stop(path, stop_ixs.as_slice(), ix, visit_bonuses, conn_bonuses);
        proof {
            lemma_stops_revenue_mono(visits, stop_ixs@, vb, cb, mult, k + 1, stop_ixs@.len() as int);
            lemma_stops_revenue_mono(visits, stop_ixs@, vb, cb, mult, k as int, k as int);
            assert(stops_revenue(visits, stop_ixs@, vb, cb, mult, k + 1) == net_revenue + rev * mult);
            assert(rev * mult >= 0) by (nonlinear_arith)
                requires
                    rev >= 0,
                    mult >= 0,
            ;
        }
        let stop = TrainStop { visit_ix: ix, revenue: rev * train.revenue_multiplier };
        let ghost before = stops@;
        stops.push(stop);
        net_revenue = net_revenue + stop.revenue;
        k = k + 1;
        proof {
            assert(stops@ =~= train_stops(visits, stop_ixs@, vb, cb, mult).subrange(0, k as int));
            assert(stops@.drop_last() =~= before);
        }
    }
    assert(stops@ =~= train_stops(visits, stop_ixs@, vb, cb, mult));
    (net_revenue, stops)
}


/// The indices of the visits that cannot be skipped, in increasing order.
pub open spec fn must_stop_ixs(can_skip: Seq<bool>) -> Seq<usize>
    decreases can_skip.len(),
{
    if can_skip.len() == 0 {
        Seq::empty()
    } else {
        must_stop_ixs(can_skip.drop_last()) + if can_skip.last() {
            Seq::<usize>::empty()
        } else {
            seq![(can_skip.len() - 1) as usize]
        }
    }
}

/// The first `m` visits that may be skipped, in increasing order, each with
/// its revenue when the train stops only at the visits it cannot skip.
pub open spec fn skip_candidates(
    visits: Seq<Visit>,
    can_skip: Seq<bool>,
    vb: Map<HexAddress, usize>,
    cb: Map<HexAddress, (Seq<HexAddress>, usize)>,
    m: int,
) -> Seq<(usize, usize)>
    decreases m,
{
    if m <= 0 {
        Seq::empty()
    } else {
        skip_candidates(visits, can_skip, vb, cb, m - 1) + if can_skip[m - 1] {
            seq![
                ((m - 1) as usize, stop_revenue(visits, must_stop_ixs(can_skip), vb, cb, m - 1) as usize),
            ]
        } else {
            Seq::<(usize, usize)>::empty()
        }
    }
}

/// Visit-revenue pair `a` comes before `b` when ordered from the most
/// revenue to the least, and from the last visit to the first among equal
/// revenues.
pub open spec fn skip_before(a: (usize, usize), b: (usize, usize)) -> bool {
    a.1 > b.1 || (a.1 == b.1 && a.0 > b.0)
}

/// The pairs in `s` are ordered from the most revenue to the least.
pub open spec fn sorted_by_revenue(s: Seq<(usize, usize)>) -> bool {
    forall|i: int, j: int| 0 <= i < j < s.len() ==> #[trigger] skip_before(s[i], s[j])
}

/// The pairs of `c`, from the most revenue to the least (a stable sort by
/// revenue, then reversed).
pub open spec fn by_revenue(c: Seq<(usize, usize)>) -> Seq<(usize, usize)> {
    choose|s: Seq<(usize, usize)>| sorted_by_revenue(s) && s.to_set() == c.to_set()
}

/// The visit indices of a list of visit-revenue pairs.
pub open spec fn firsts(s: Seq<(usize, usize)>) -> Seq<usize> {
    s.map_values(|p: (usize, usize)| p.0)
}

/// Two lists ordered by revenue that hold the same pairs are equal.
proof fn lemma_sorted_unique(s1: Seq<(usize, usize)>, s2: Seq<(usize, usize)>)
    requires
        sorted_by_revenue(s1),
        sorted_by_revenue(s2),
        s1.to_set() == s2.to_set(),
    ensures
        s1 == s2,
    decreases s1.len(),
{
    if s1.len() == 0 {
        if s2.len() > 0 {
            assert(s2.to_set().contains(s2[0]));
        }
        assert(s1 =~= s2);
    } else if s2.len() == 0 {
        assert(s1.to_set().contains(s1[0]));
    } else {
        assert(s2.to_set().contains(s1[0]));
        assert(s1.to_set().contains(s2[0]));
        let j = choose|j: int| 0 <= j < s2.len() && s2[j] == s1[0];
        let i = choose|i: int| 0 <= i < s1.len() && s1[i] == s2[0];
        if s1[0] != s2[0] {
            assert(j > 0 && i > 0);
            assert(skip_before(s2[0], s2[j]));
            assert(skip_before(s1[0], s1[i]));
        }
        let t1 = s1.drop_first();
        let t2 = s2.drop_first();
        assert(sorted_by_revenue(t1)) by {
            assert forall|x: int, y: int| 0 <= x < y < t1.len() implies #[trigger] skip_before(t1[x], t1[y]) by {
                assert(skip_before(s1[x + 1], s1[y + 1]));
            }
        }
        assert(sorted_by_revenue(t2)) by {
            assert forall|x: int, y: int| 0 <= x < y < t2.len() implies #[trigger] skip_before(t2[x], t2[y]) by {
                assert(skip_before(s2[x + 1], s2[y + 1]));
            }
        }
        assert(t1.to_set() =~= t2.to_set()) by {
            assert forall|p: (usize, usize)| t1.contains(p) <==> t2.contains(p) by {
                if t1.contains(p) {
                    let x = choose|x: int| 0 <= x < t1.len() && t1[x] == p;
                    assert(skip_before(s1[0], s1[x + 1]));
                    assert(s1.to_set().contains(p));
                    let y = choose|y: int| 0 <= y < s2.len() && s2[y] == p;
                    assert(y != 0);
                    assert(t2[y - 1] == p);
                }
                if t2.contains(p) {
                    let x = choose|x: int| 0 <= x < t2.len() && t2[x] == p;
                    assert(skip_before(s2[0], s2[x + 1]));
                    assert(s2.to_set().contains(p));
                    let y = choose|y: int| 0 <= y < s1.len() && s1[y] == p;
                    assert(y != 0);
                    assert(t1[y - 1] == p);
                }
            }
        }
        lemma_sorted_unique(t1, t2);
        assert(s1 =~= seq![s1[0]] + t1);
        assert(s2 =~= seq![s2[0]] + t2);
    }
}

/// Returns the pairs of `cands` (whose visit indices are distinct), from the
/// most revenue to the least.
pub(crate) fn sort_by_revenue(cands: &Vec<(usize, usize)>) -> (sr: Vec<(usize, usize)>)
    requires
        forall|i: int, j: int| 0 <= i < j < cands@.len() ==> cands@[i].0 != cands@[j].0,
    ensures
        sr@ == by_revenue(cands@),
        sorted_by_revenue(sr@),
        sr@.to_set() == cands@.to_set(),
        sr@.len() == cands@.len(),
{
    let mut sr: Vec<(usize, usize)> = Vec::new();
    let mut k: usize = 0;
    while k < cands.len()
        invariant
            k <= cands@.len(),
            forall|i: int, j: int| 0 <= i < j < cands@.len() ==> cands@[i].0 != cands@[j].0,
            sorted_by_revenue(sr@),
            sr@.to_set() == cands@.subrange(0, k as int).to_set(),
            sr@.len() == k,
            forall|x: int| 0 <= x < sr@.len() ==> exists|i: int| 0 <= i < k && cands@[i] == #[trigger] sr@[x],
        decreases cands@.len() - k,
    {
        let c = cands[k];
        let mut p: usize = 0;
        while p < sr.len() && (sr[p].1 > c.1 || (sr[p].1 == c.1 && sr[p].0 > c.0))
            invariant
                p <= sr@.len(),
                forall|x: int| 0 <= x < p ==> #[trigger] skip_before(sr@[x], c),
            decreases sr@.len() - p,
        {
            p = p + 1;
        }
        let ghost old_sr = sr@;
        proof {
            // Every pair from position p on comes after c.
            assert forall|x: int| p <= x < old_sr.len() implies #[trigger] skip_before(c, old_sr[x]) by {
                let i = choose|i: int| 0 <= i < k && cands@[i] == old_sr[x];
                assert(cands@[i].0 != c.0);
                if x > p {
                    assert(skip_before(old_sr[p as int], old_sr[x]));
                }
            }
        }
        sr.insert(p, c);
        proof {
            assert(sr@ == old_sr.insert(p as int, c));
            assert forall|i: int, j: int| 0 <= i < j < sr@.len() implies #[trigger] skip_before(sr@[i], sr@[j]) by {
                if j < p {
                    assert(skip_before(old_sr[i], old_sr[j]));
                } else if j == p {
                } else if i == p {
                    assert(skip_before(c, old_sr[j - 1]));
                } else if i < p {
                    assert(skip_before(old_sr[i], old_sr[j - 1]));
                } else {
                    assert(skip_before(old_sr[i - 1], old_sr[j - 1]));
                }
            }
            let pre = cands@.subrange(0, k as int);
            let post = cands@.subrange(0, k + 1);
            assert(sr@.to_set() =~= post.to_set()) by {
                assert forall|q: (usize, usize)| sr@.contains(q) <==> post.contains(q) by {
                    if sr@.contains(q) {
                        let x = choose|x: int| 0 <= x < sr@.len() && sr@[x] == q;
                        if x < p {
                            assert(old_sr.to_set().contains(q));
                        } else if x > p {
                            assert(old_sr[x - 1] == q);
                            assert(old_sr.to_set().contains(q));
                        } else {
                            assert(post[k as int] == q);
                        }
                        if q != c {
                            assert(pre.contains(q));
                            let y = choose|y: int| 0 <= y < pre.len() && pre[y] == q;
                            assert(post[y] == q);
                        }
                    }
                    if post.contains(q) {
                        let y = choose|y: int| 0 <= y < post.len() && post[y] == q;
                        if y < k {
                            assert(pre[y] == q);
                            assert(old_sr.to_set().contains(q));
                            let x = choose|x: int| 0 <= x < old_sr.len() && old_sr[x] == q;
                            if x < p {
                                assert(sr@[x] == q);
                            } else {
                                assert(sr@[x + 1] == q);
                            }
                        } else {
                            assert(sr@[p as int] == q);
                        }
                    }
                }
            }
            assert forall|x: int| 0 <= x < sr@.len() implies exists|i: int| 0 <= i < k + 1 && cands@[i] == #[trigger] sr@[x] by {
                if x < p {
                    let i = choose|i: int| 0 <= i < k && cands@[i] == old_sr[x];
                    assert(cands@[i] == sr@[x]);
                } else if x > p {
                    let i = choose|i: int| 0 <= i < k && cands@[i] == old_sr[x - 1];
                    assert(cands@[i] == sr@[x]);
                } else {
                    assert(cands@[k as int] == sr@[x]);
                }
            }
        }
        k = k + 1;
    }
    proof {
        assert(cands@.subrange(0, cands@.len() as int) =~= cands@);
        let b = by_revenue(cands@);
        assert(sorted_by_revenue(b) && b.to_set() == cands@.to_set());
        lemma_sorted_unique(sr@, b);
    }
    sr
}


/// The locations visited at the visit indices `ixs`.
pub open spec fn addrs_of(visits: Seq<Visit>, ixs: Seq<usize>) -> Set<HexAddress> {
    Set::new(
        |a: HexAddress|
            exists|k: int|
                #![trigger ixs[k]]
                0 <= k < ixs.len() && ixs[k] < visits.len() && visits[ixs[k] as int].addr == a,
    )
}

/// The locations visited along a path.
pub open spec fn all_addrs(visits: Seq<Visit>) -> Set<HexAddress> {
    Set::new(|a: HexAddress| exists|i: int| 0 <= i < visits.len() && #[trigger] visits[i].addr == a)
}

/// Some location in `ds` belongs to `s`.
pub open spec fn any_in(ds: Seq<HexAddress>, s: Set<HexAddress>) -> bool {
    exists|d: int| 0 <= d < ds.len() && s.contains(#[trigger] ds[d])
}

/// A connection bonus from `a` could be earned along the path, and is not
/// earned by stopping at the visits that are not in `skip_addrs`.
pub open spec fn bonus_relevant(
    visits: Seq<Visit>,
    skip_addrs: Set<HexAddress>,
    cb: Map<HexAddress, (Seq<HexAddress>, usize)>,
    a: HexAddress,
) -> bool {
    &&& cb.contains_key(a)
    &&& all_addrs(visits).contains(a)
    &&& any_in(cb[a].0, all_addrs(visits))
    &&& (skip_addrs.contains(a) || any_in(cb[a].0, skip_addrs))
}

/// `a` is the only location whose connection bonus is relevant.
pub open spec fn sole_relevant(
    visits: Seq<Visit>,
    skip_addrs: Set<HexAddress>,
    cb: Map<HexAddress, (Seq<HexAddress>, usize)>,
    a: HexAddress,
) -> bool {
    &&& bonus_relevant(visits, skip_addrs, cb, a)
    &&& forall|b: HexAddress| #[trigger] bonus_relevant(visits, skip_addrs, cb, b) ==> b == a
}

/// The location of the only relevant connection bonus, if exactly one is
/// relevant.
pub open spec fn sole_bonus(
    visits: Seq<Visit>,
    skip_addrs: Set<HexAddress>,
    cb: Map<HexAddress, (Seq<HexAddress>, usize)>,
) -> Option<HexAddress> {
    if exists|a: HexAddress| sole_relevant(visits, skip_addrs, cb, a) {
        Some(choose|a: HexAddress| sole_relevant(visits, skip_addrs, cb, a))
    } else {
        None
    }
}

/// The index of the first visit to `a`.
pub open spec fn first_visit_ix(visits: Seq<Visit>, a: HexAddress) -> int {
    choose|i: int|
        0 <= i < visits.len() && visits[i].addr == a && forall|j: int| 0 <= j < i ==> visits[j].addr != a
}

/// The locations of `ds` that the path visits, in order.
pub open spec fn in_visits(visits: Seq<Visit>, ds: Seq<HexAddress>) -> Seq<HexAddress>
    decreases ds.len(),
{
    if ds.len() == 0 {
        Seq::empty()
    } else {
        in_visits(visits, ds.drop_last()) + if all_addrs(visits).contains(ds.last()) {
            seq![ds.last()]
        } else {
            Seq::<HexAddress>::empty()
        }
    }
}

/// The revenue of visit `i`, with its visit bonus and without connection
/// bonuses.
#[verifier::opaque]
pub open spec fn plain_revenue(
    visits: Seq<Visit>,
    vb: Map<HexAddress, usize>,
    cb: Map<HexAddress, (Seq<HexAddress>, usize)>,
    i: int,
) -> int {
    stop_revenue(visits, Seq::empty(), vb, cb, i)
}

/// The first visit to the location of `ds` whose plain revenue is greatest
/// (the last such location, among equals).
#[verifier::opaque]
pub open spec fn best_dest_ix(
    visits: Seq<Visit>,
    vb: Map<HexAddress, usize>,
    cb: Map<HexAddress, (Seq<HexAddress>, usize)>,
    ds: Seq<HexAddress>,
) -> int
    decreases ds.len(),
{
    if ds.len() <= 1 {
        first_visit_ix(visits, ds[0])
    } else {
        let p = best_dest_ix(visits, vb, cb, ds.drop_last());
        let i = first_visit_ix(visits, ds.last());
        if plain_revenue(visits, vb, cb, i) >= plain_revenue(visits, vb, cb, p) {
            i
        } else {
            p
        }
    }
}

/// The pairs of `s` whose visit index is neither `x` nor `y`.
pub open spec fn excluding(s: Seq<(usize, usize)>, x: int, y: int) -> Seq<(usize, usize)>
    decreases s.len(),
{
    if s.len() == 0 {
        Seq::empty()
    } else {
        excluding(s.drop_last(), x, y) + if s.last().0 != x && s.last().0 != y {
            seq![s.last()]
        } else {
            Seq::<(usize, usize)>::empty()
        }
    }
}

/// The smaller of two integers.
pub open spec fn min_int(a: int, b: int) -> int {
    if a <= b {
        a
    } else {
        b
    }
}

/// The skippable visits, from the most revenue to the least.
pub open spec fn ranked_skips(
    visits: Seq<Visit>,
    vb: Map<HexAddress, usize>,
    cb: Map<HexAddress, (Seq<HexAddress>, usize)>,
    can_skip: Seq<bool>,
) -> Seq<(usize, usize)> {
    by_revenue(skip_candidates(visits, can_skip, vb, cb, can_skip.len() as int))
}

/// The number of skippable visits at which the train stops by default.
pub open spec fn default_keep(
    visits: Seq<Visit>,
    vb: Map<HexAddress, usize>,
    cb: Map<HexAddress, (Seq<HexAddress>, usize)>,
    can_skip: Seq<bool>,
    max_stops: int,
) -> int {
    min_int(
        max_stops - must_stop_ixs(can_skip).len(),
        ranked_skips(visits, vb, cb, can_skip).len() as int,
    )
}

/// The default stops: every visit that cannot be skipped, then the
/// skippable visits that earn the most revenue, up to the stop limit.
pub open spec fn default_stop_ixs(
    visits: Seq<Visit>,
    vb: Map<HexAddress, usize>,
    cb: Map<HexAddress, (Seq<HexAddress>, usize)>,
    can_skip: Seq<bool>,
    max_stops: int,
) -> Seq<usize> {
    must_stop_ixs(can_skip) + firsts(
        ranked_skips(visits, vb, cb, can_skip).take(default_keep(visits, vb, cb, can_skip, max_stops)),
    )
}

/// The locations of the visits that are skipped by default.
pub open spec fn default_skip_addrs(
    visits: Seq<Visit>,
    vb: Map<HexAddress, usize>,
    cb: Map<HexAddress, (Seq<HexAddress>, usize)>,
    can_skip: Seq<bool>,
    max_stops: int,
) -> Set<HexAddress> {
    addrs_of(
        visits,
        firsts(
            ranked_skips(visits, vb, cb, can_skip).skip(default_keep(visits, vb, cb, can_skip, max_stops)),
        ),
    )
}

/// The stops that try to earn the only relevant connection bonus, if there
/// is exactly one and the train can make the extra stops it needs.
pub open spec fn bonus_stop_ixs(
    visits: Seq<Visit>,
    vb: Map<HexAddress, usize>,
    cb: Map<HexAddress, (Seq<HexAddress>, usize)>,
    can_skip: Seq<bool>,
    max_stops: int,
) -> Option<Seq<usize>> {
    let must = must_stop_ixs(can_skip);
    let num_to_keep = max_stops - must.len();
    let skip_addrs = default_skip_addrs(visits, vb, cb, can_skip, max_stops);
    match sole_bonus(visits, skip_addrs, cb) {
        None => None,
        Some(src) => {
            let dests = in_visits(visits, cb[src].0);
            let src_ix = first_visit_ix(visits, src);
            let dest_ix = best_dest_ix(visits, vb, cb, dests);
            let new_stops = (if skip_addrs.contains(src) {
                seq![src_ix as usize]
            } else {
                Seq::<usize>::empty()
            }) + (if forall|k: int| 0 <= k < dests.len() ==> skip_addrs.contains(#[trigger] dests[k]) {
                seq![dest_ix as usize]
            } else {
                Seq::<usize>::empty()
            });
            if new_stops.len() > num_to_keep {
                None
            } else {
                let kept = excluding(ranked_skips(visits, vb, cb, can_skip), src_ix, dest_ix);
                let n = min_int(num_to_keep - new_stops.len(), kept.len() as int);
                Some(must + firsts(kept.take(n)) + new_stops)
            }
        },
    }
}

/// The stops that a train makes along a path, when it can skip the visits
/// marked in `can_skip` and makes at most `max_stops` stops: the default
/// stops, unless stopping to earn the only relevant connection bonus earns
/// more.
#[verifier::opaque]
pub open spec fn best_stop_seq(
    visits: Seq<Visit>,
    vb: Map<HexAddress, usize>,
    cb: Map<HexAddress, (Seq<HexAddress>, usize)>,
    can_skip: Seq<bool>,
    max_stops: int,
    mult: int,
) -> Seq<usize> {
    let d = default_stop_ixs(visits, vb, cb, can_skip, max_stops);
    match bonus_stop_ixs(visits, vb, cb, can_skip, max_stops) {
        Some(n) => if stops_revenue(visits, n, vb, cb, mult, n.len() as int) > stops_revenue(
            visits,
            d,
            vb,
            cb,
            mult,
            d.len() as int,
        ) {
            n
        } else {
            d
        },
        None => d,
    }
}

/// The revenues computed while choosing the stops fit in a `usize`.
#[verifier::opaque]
pub open spec fn best_stops_fit(
    visits: Seq<Visit>,
    vb: Map<HexAddress, usize>,
    cb: Map<HexAddress, (Seq<HexAddress>, usize)>,
    can_skip: Seq<bool>,
    max_stops: int,
    mult: int,
) -> bool {
    let must = must_stop_ixs(can_skip);
    let skip_addrs = default_skip_addrs(visits, vb, cb, can_skip, max_stops);
    &&& forall|i: int|
        0 <= i < can_skip.len() && #[trigger] can_skip[i] ==> stop_revenue(visits, must, vb, cb, i)
            <= usize::MAX
    &&& stops_fit(visits, default_stop_ixs(visits, vb, cb, can_skip, max_stops), vb, cb, mult)
    &&& sole_bonus(visits, skip_addrs, cb) matches Some(src) ==> {
        &&& plain_revenue(visits, vb, cb, first_visit_ix(visits, src)) <= usize::MAX
        &&& forall|k: int|
            0 <= k < in_visits(visits, cb[src].0).len() ==> plain_revenue(
                visits,
                vb,
                cb,
                first_visit_ix(visits, #[trigger] in_visits(visits, cb[src].0)[k]),
            ) <= usize::MAX
        &&& bonus_stop_ixs(visits, vb, cb, can_skip, max_stops) matches Some(n) ==> stops_fit(
            visits,
            n,
            vb,
            cb,
            mult,
        )
    }
}


/// Returns the indices of the visits that cannot be skipped.
fn must_stops(can_skip: &Vec<bool>) -> (m: Vec<usize>)
    ensures
        m@ == must_stop_ixs(can_skip@),
{
    let mut m: Vec<usize> = Vec::new();
    let mut k: usize = 0;
    while k < can_skip.len()
        invariant
            k <= can_skip@.len(),
            m@ == must_stop_ixs(can_skip@.subrange(0, k as int)),
        decreases can_skip@.len() - k,
    {
        if !can_skip[k] {
            m.push(k);
        }
        k = k + 1;
        proof {
            let pre = can_skip@.subrange(0, k as int);
            assert(pre.drop_last() =~= can_skip@.subrange(0, k - 1));
        }
    }
    assert(can_skip@.subrange(0, can_skip@.len() as int) =~= can_skip@);
    m
}

/// Returns the visit indices of the first `n` pairs of `s`.
fn first_ixs(s: &Vec<(usize, usize)>, start: usize, end: usize) -> (v: Vec<usize>)
    requires
        start <= end <= s@.len(),
    ensures
        v@ == firsts(s@.subrange(start as int, end as int)),
{
    let mut v: Vec<usize> = Vec::new();
    let mut i: usize = start;
    while i < end
        invariant
            start <= i <= end <= s@.len(),
            v@ == firsts(s@.subrange(start as int, i as int)),
        decreases end - i,
    {
        v.push(s[i].0);
        i = i + 1;
        assert(v@ =~= firsts(s@.subrange(start as int, i as int)));
    }
    v
}

/// Returns whether the path visits `addr`.
fn path_visits(path: &Path, addr: &HexAddress) -> (r: bool)
    ensures
        r == all_addrs(path.visits@).contains(*addr),
{
    let mut i: usize = 0;
    while i < path.visits.len()
        invariant
            i <= path.visits@.len(),
            forall|j: int| 0 <= j < i ==> path.visits@[j].addr != *addr,
        decreases path.visits@.len() - i,
    {
        if path.visits[i].addr == *addr {
            assert(path.visits@[i as int].addr == *addr);
            return true;
        }
        i = i + 1;
    }
    false
}

/// Returns whether one of the visits at `ixs` is to `addr`.
fn visits_at(path: &Path, ixs: &Vec<usize>, addr: &HexAddress) -> (r: bool)
    ensures
        r == addrs_of(path.visits@, ixs@).contains(*addr),
{
    let mut k: usize = 0;
    while k < ixs.len()
        invariant
            k <= ixs@.len(),
            forall|j: int|
                0 <= j < k && ixs@[j] < path.visits@.len() ==> path.visits@[ixs@[j] as int].addr != *addr,
        decreases ixs@.len() - k,
    {
        let ix = ixs[k];
        if ix < path.visits.len() && path.visits[ix].addr == *addr {
            assert(ixs@[k as int] == ix);
            return true;
        }
        k = k + 1;
    }
    false
}

/// Returns whether the path visits one of `dests`.
fn visits_any(path: &Path, dests: &Vec<HexAddress>) -> (r: bool)
    ensures
        r == any_in(dests@, all_addrs(path.visits@)),
{
    let mut d: usize = 0;
    while d < dests.len()
        invariant
            d <= dests@.len(),
            forall|j: int| 0 <= j < d ==> !all_addrs(path.visits@).contains(#[trigger] dests@[j]),
        decreases dests@.len() - d,
    {
        if path_visits(path, &dests[d]) {
            return true;
        }
        d = d + 1;
    }
    false
}

/// Returns whether one of the visits at `ixs` is to one of `dests`.
fn visits_any_at(path: &Path, ixs: &Vec<usize>, dests: &Vec<HexAddress>) -> (r: bool)
    ensures
        r == any_in(dests@, addrs_of(path.visits@, ixs@)),
{
    let mut d: usize = 0;
    while d < dests.len()
        invariant
            d <= dests@.len(),
            forall|j: int| 0 <= j < d ==> !addrs_of(path.visits@, ixs@).contains(#[trigger] dests@[j]),
        decreases dests@.len() - d,
    {
        if visits_at(path, ixs, &dests[d]) {
            return true;
        }
        d = d + 1;
    }
    false
}

/// Returns the position of the only relevant connection bonus, if exactly
/// one is relevant.
fn find_sole_bonus(path: &Path, skip_ixs: &Vec<usize>, conn_bonuses: &ConnectionBonuses) -> (r:
    Option<usize>)
    ensures
        match r {
            Some(j) => j < conn_bonuses.entries_seq().len() && sole_bonus(
                path.visits@,
                addrs_of(path.visits@, skip_ixs@),
                connection_view(conn_bonuses.view()),
            ) == Some(conn_bonuses.entries_seq()[j as int].0),
            None => sole_bonus(path.visits@, addrs_of(path.visits@, skip_ixs@), connection_view(conn_bonuses.view()))
                is None,
        },
{
    let ghost visits = path.visits@;
    let ghost skip_addrs = addrs_of(path.visits@, skip_ixs@);
    let ghost cb = connection_view(conn_bonuses.view());
    let n = conn_bonuses.len();
    let ghost es = conn_bonuses.entries_seq();
    proof {
        lemma_entries_map(es);
    }
    let mut found: Option<usize> = None;
    let mut many = false;
    let mut j: usize = 0;
    while j < n
        invariant
            j <= n,
            n == es.len(),
            es == conn_bonuses.entries_seq(),
            cb == connection_view(conn_bonuses.view()),
            conn_bonuses.view() == entries_map(es),
            unique_keys(es),
            visits == path.visits@,
            skip_addrs == addrs_of(path.visits@, skip_ixs@),
            forall|i: int| 0 <= i < es.len() ==> #[trigger] cb[es[i].0] == (es[i].1.0@, es[i].1.1),
            forall|a: HexAddress| #[trigger]
                cb.contains_key(a) <==> exists|i: int| 0 <= i < es.len() && es[i].0 == a,
            !many && found is None ==> forall|i: int|
                0 <= i < j ==> !bonus_relevant(visits, skip_addrs, cb, #[trigger] es[i].0),
            !many ==> (found matches Some(f) ==> {
                &&& f < j
                &&& bonus_relevant(visits, skip_addrs, cb, es[f as int].0)
                &&& forall|i: int|
                    0 <= i < j && i != f ==> !bonus_relevant(visits, skip_addrs, cb, #[trigger] es[i].0)
            }),
            many ==> exists|i1: int, i2: int|
                #![trigger es[i1], es[i2]]
                0 <= i1 < i2 < es.len() && bonus_relevant(visits, skip_addrs, cb, es[i1].0)
                    && bonus_relevant(visits, skip_addrs, cb, es[i2].0),
        decreases n - j,
    {
        let e = conn_bonuses.entry(j);
        let relevant = path_visits(path, &e.0) && visits_any(path, &e.1.0) && (visits_at(
            path,
            skip_ixs,
            &e.0,
        ) || visits_any_at(path, skip_ixs, &e.1.0));
        proof {
            assert(cb.contains_key(es[j as int].0));
            assert(relevant == bonus_relevant(visits, skip_addrs, cb, es[j as int].0));
        }
        if relevant {
            match found {
                None => {
                    if !many {
                        found = Some(j);
                    }
                },
                Some(f) => {
                    if !many {
                        assert(bonus_relevant(visits, skip_addrs, cb, es[f as int].0));
                        assert(bonus_relevant(visits, skip_addrs, cb, es[j as int].0));
                        many = true;
                    }
                },
            }
        }
        j = j + 1;
    }
    if many {
        proof {
            let (i1, i2) = choose|i1: int, i2: int|
                #![trigger es[i1], es[i2]]
                0 <= i1 < i2 < es.len() && bonus_relevant(visits, skip_addrs, cb, es[i1].0)
                    && bonus_relevant(visits, skip_addrs, cb, es[i2].0);
            assert(es[i1].0 != es[i2].0);
            assert forall|a: HexAddress| !sole_relevant(visits, skip_addrs, cb, a) by {
                if sole_relevant(visits, skip_addrs, cb, a) {
                    assert(es[i1].0 == a);
                    assert(es[i2].0 == a);
                }
            }
        }
        None
    } else {
        match found {
            None => {
                proof {
                    assert forall|a: HexAddress| !sole_relevant(visits, skip_addrs, cb, a) by {
                        if bonus_relevant(visits, skip_addrs, cb, a) {
                            let i = choose|i: int| 0 <= i < es.len() && es[i].0 == a;
                            assert(!bonus_relevant(visits, skip_addrs, cb, es[i].0));
                        }
                    }
                }
                None
            },
            Some(f) => {
                proof {
                    let a = es[f as int].0;
                    assert forall|b: HexAddress| #[trigger]
                        bonus_relevant(visits, skip_addrs, cb, b) implies b == a by {
                        let i = choose|i: int| 0 <= i < es.len() && es[i].0 == b;
                        if i != f {
                            assert(!bonus_relevant(visits, skip_addrs, cb, es[i].0));
                        }
                    }
                    assert(sole_relevant(visits, skip_addrs, cb, a));
                    let c = choose|c: HexAddress| sole_relevant(visits, skip_addrs, cb, c);
                    assert(c == a);
                }
                Some(f)
            },
        }
    }
}

/// Returns the index of the first visit to `addr` and its revenue, with its
/// visit bonus and without connection bonuses.
fn addr_ix_and_base_revenue(
    path: &Path,
    addr: &HexAddress,
    visit_bonuses: &VisitBonuses,
    conn_bonuses: &ConnectionBonuses,
) -> (r: (usize, usize))
    requires
        all_addrs(path.visits@).contains(*addr),
        plain_revenue(
            path.visits@,
            visit_bonuses.view(),
            connection_view(conn_bonuses.view()),
            first_visit_ix(path.visits@, *addr),
        ) <= usize::MAX,
    ensures
        r.0 == first_visit_ix(path.visits@, *addr),
        r.1 == plain_revenue(path.visits@, visit_bonuses.view(), connection_view(conn_bonuses.view()), r.0 as int),
{
    let ghost visits = path.visits@;
    let mut ix: usize = 0;
    while path.visits[ix].addr != *addr
        invariant
            ix < path.visits.len(),
            visits == path.visits@,
            all_addrs(visits).contains(*addr),
            forall|j: int| 0 <= j < ix ==> visits[j].addr != *addr,
        decreases visits.len() - ix,
    {
        proof {
            let w = choose|w: int| 0 <= w < visits.len() && #[trigger] visits[w].addr == *addr;
            if w <= ix {
                assert(w != ix);
            }
        }
        ix = ix + 1;
    }
    proof {
        let c = first_visit_ix(visits, *addr);
        assert(0 <= ix < visits.len() && visits[ix as int].addr == *addr && forall|j: int|
            0 <= j < ix ==> visits[j].addr != *addr);
        assert(0 <= c < visits.len() && visits[c].addr == *addr && forall|j: int|
            0 <= j < c ==> visits[j].addr != *addr);
        if c < ix {
            assert(visits[c].addr != *addr);
        }
        if c > ix {
            assert(visits[ix as int].addr != *addr);
        }
    }
    let empty: Vec<usize> = Vec::new();
    assert(empty@ =~= Seq::<usize>::empty());
    proof {
        reveal(plain_revenue);
    }
    let revenue = revenue_for_stop(path, empty.as_slice(), ix, visit_bonuses, conn_bonuses);
    (ix, revenue)
}

/// Choosing the best of the first `k + 1` locations compares the best of
/// the first `k` with the next.
proof fn lemma_best_dest_step(
    visits: Seq<Visit>,
    vb: Map<HexAddress, usize>,
    cb: Map<HexAddress, (Seq<HexAddress>, usize)>,
    addrs: Seq<HexAddress>,
    k: int,
)
    requires
        1 <= k < addrs.len(),
    ensures
        ({
            let p = best_dest_ix(visits, vb, cb, addrs.subrange(0, k));
            let i = first_visit_ix(visits, addrs[k]);
            best_dest_ix(visits, vb, cb, addrs.subrange(0, k + 1)) == if plain_revenue(visits, vb, cb, i)
                >= plain_revenue(visits, vb, cb, p) {
                i
            } else {
                p
            }
        }),
{
    reveal(best_dest_ix);
    let pre = addrs.subrange(0, k + 1);
    assert(pre.drop_last() =~= addrs.subrange(0, k));
    assert(pre.last() == addrs[k]);
}

/// The best of a single location is its first visit.
proof fn lemma_best_dest_base(
    visits: Seq<Visit>,
    vb: Map<HexAddress, usize>,
    cb: Map<HexAddress, (Seq<HexAddress>, usize)>,
    addrs: Seq<HexAddress>,
)
    requires
        1 <= addrs.len(),
    ensures
        best_dest_ix(visits, vb, cb, addrs.subrange(0, 1)) == first_visit_ix(visits, addrs[0]),
{
    reveal(best_dest_ix);
    assert(addrs.subrange(0, 1)[0] == addrs[0]);
}

/// Returns the first visit to the location of `addrs` whose revenue (with
/// its visit bonus and without connection bonuses) is greatest, and that
/// revenue.
fn best_ix_and_base_revenue(
    path: &Path,
    addrs: &Vec<HexAddress>,
    visit_bonuses: &VisitBonuses,
    conn_bonuses: &ConnectionBonuses,
) -> (r: (usize, usize))
    requires
        addrs@.len() >= 1,
        forall|k: int| 0 <= k < addrs@.len() ==> all_addrs(path.visits@).contains(#[trigger] addrs@[k]),
        forall|k: int|
            0 <= k < addrs@.len() ==> plain_revenue(
                path.visits@,
                visit_bonuses.view(),
                connection_view(conn_bonuses.view()),
                first_visit_ix(path.visits@, #[trigger] addrs@[k]),
            ) <= usize::MAX,
    ensures
        r.0 == best_dest_ix(path.visits@, visit_bonuses.view(), connection_view(conn_bonuses.view()), addrs@),
        r.1 == plain_revenue(path.visits@, visit_bonuses.view(), connection_view(conn_bonuses.view()), r.0 as int),
{
    let ghost visits = path.visits@;
    let ghost vb = visit_bonuses.view();
    let ghost cb = connection_view(conn_bonuses.view());
    let mut best = addr_ix_and_base_revenue(path, &addrs[0], visit_bonuses, conn_bonuses);
    proof {
        lemma_best_dest_base(visits, vb, cb, addrs@);
    }
    let mut k: usize = 1;
    while k < addrs.len()
        invariant
            1 <= k <= addrs@.len(),
            visits == path.visits@,
            vb == visit_bonuses.view(),
            cb == connection_view(conn_bonuses.view()),
            forall|j: int| 0 <= j < addrs@.len() ==> all_addrs(visits).contains(#[trigger] addrs@[j]),
            forall|j: int|
                0 <= j < addrs@.len() ==> plain_revenue(
                    visits,
                    vb,
                    cb,
                    first_visit_ix(visits, #[trigger] addrs@[j]),
                ) <= usize::MAX,
            best.0 == best_dest_ix(visits, vb, cb, addrs@.subrange(0, k as int)),
            best.1 == plain_revenue(visits, vb, cb, best.0 as int),
        decreases addrs@.len() - k,
    {
        let next = addr_ix_and_base_revenue(path, &addrs[k], visit_bonuses, conn_bonuses);
        proof {
            lemma_best_dest_step(visits, vb, cb, addrs@, k as int);
        }
        if next.1 >= best.1 {
            best = next;
        }
        k = k + 1;
    }
    assert(addrs@.subrange(0, addrs@.len() as int) =~= addrs@);
    best
}

/// Returns the locations of `dests` that the path visits, in order.
fn dests_in_path(path: &Path, dests: &Vec<HexAddress>) -> (r: Vec<HexAddress>)
    ensures
        r@ == in_visits(path.visits@, dests@),
        forall|k: int| 0 <= k < r@.len() ==> all_addrs(path.visits@).contains(#[trigger] r@[k]),
{
    let mut r: Vec<HexAddress> = Vec::new();
    let mut d: usize = 0;
    while d < dests.len()
        invariant
            d <= dests@.len(),
            r@ == in_visits(path.visits@, dests@.subrange(0, d as int)),
            forall|k: int| 0 <= k < r@.len() ==> all_addrs(path.visits@).contains(#[trigger] r@[k]),
        decreases dests@.len() - d,
    {
        if path_visits(path, &dests[d]) {
            r.push(dests[d]);
        }
        d = d + 1;
        proof {
            let pre = dests@.subrange(0, d as int);
            assert(pre.drop_last() =~= dests@.subrange(0, d - 1));
            assert(pre.last() == dests@[d - 1]);
        }
    }
    assert(dests@.subrange(0, dests@.len() as int) =~= dests@);
    r
}

/// Returns the visit indices of the first `n` pairs of `s` whose visit index
/// is neither `x` nor `y`.
fn first_ixs_excluding(s: &Vec<(usize, usize)>, x: usize, y: usize, n: usize) -> (v: Vec<usize>)
    ensures
        v@ == firsts(
            excluding(s@, x as int, y as int).take(
                min_int(n as int, excluding(s@, x as int, y as int).len() as int),
            ),
        ),
{
    let mut kept: Vec<(usize, usize)> = Vec::new();
    let mut i: usize = 0;
    while i < s.len()
        invariant
            i <= s@.len(),
            kept@ == excluding(s@.subrange(0, i as int), x as int, y as int),
        decreases s@.len() - i,
    {
        if s[i].0 != x && s[i].0 != y {
            kept.push(s[i]);
        }
        i = i + 1;
        proof {
            let pre = s@.subrange(0, i as int);
            assert(pre.drop_last() =~= s@.subrange(0, i - 1));
            assert(pre.last() == s@[i - 1]);
        }
    }
    assert(s@.subrange(0, s@.len() as int) =~= s@);
    let m = if n < kept.len() {
        n
    } else {
        kept.len()
    };
    let v = first_ixs(&kept, 0, m);
    assert(kept@.subrange(0, m as int) =~= kept@.take(m as int));
    v
}


/// A path that visits one of `ds` visits one of the locations that
/// `in_visits` keeps.
proof fn lemma_in_visits_nonempty(visits: Seq<Visit>, ds: Seq<HexAddress>)
    requires
        any_in(ds, all_addrs(visits)),
    ensures
        in_visits(visits, ds).len() >= 1,
    decreases ds.len(),
{
    let d = choose|d: int| 0 <= d < ds.len() && all_addrs(visits).contains(#[trigger] ds[d]);
    if d < ds.len() - 1 {
        assert(ds.drop_last()[d] == ds[d]);
        lemma_in_visits_nonempty(visits, ds.drop_last());
    }
}

/// Returns the visits that cannot be skipped, the skippable visits ordered
/// from the most revenue to the least, the default stops, and the visits that
/// are skipped by default.
fn default_stops(
    path: &Path,
    visit_bonuses: &VisitBonuses,
    conn_bonuses: &ConnectionBonuses,
    can_skip: &Vec<bool>,
    max_stops: usize,
) -> (r: (Vec<usize>, Vec<(usize, usize)>, Vec<usize>, Vec<usize>))
    requires
        can_skip@.len() == path.visits@.len(),
        must_stop_ixs(can_skip@).len() <= max_stops,
        forall|i: int|
            0 <= i < can_skip@.len() && #[trigger] can_skip@[i] ==> stop_revenue(
                path.visits@,
                must_stop_ixs(can_skip@),
                visit_bonuses.view(),
                connection_view(conn_bonuses.view()),
                i,
            ) <= usize::MAX,
    ensures
        r.0@ == must_stop_ixs(can_skip@),
        r.1@ == ranked_skips(path.visits@, visit_bonuses.view(), connection_view(conn_bonuses.view()), can_skip@),
        r.2@ == default_stop_ixs(
            path.visits@,
            visit_bonuses.view(),
            connection_view(conn_bonuses.view()),
            can_skip@,
            max_stops as int,
        ),
        addrs_of(path.visits@, r.3@) == default_skip_addrs(
            path.visits@,
            visit_bonuses.view(),
            connection_view(conn_bonuses.view()),
            can_skip@,
            max_stops as int,
        ),
{
    let ghost visits = path.visits@;
    let ghost vb = visit_bonuses.view();
    let ghost cb = connection_view(conn_bonuses.view());
    // Categorise each visit as must-stop or can-skip.
    let must_ixs = must_stops(can_skip);
    // For the can-skip visits, calculate their revenue when the only stops
    // are the must-stop visits.
    let mut skip_revenues: Vec<(usize, usize)> = Vec::new();
    let mut ix: usize = 0;
    while ix < can_skip.len()
        invariant
            ix <= can_skip@.len(),
            can_skip@.len() == visits.len(),
            visits == path.visits@,
            vb == visit_bonuses.view(),
            cb == connection_view(conn_bonuses.view()),
            must_ixs@ == must_stop_ixs(can_skip@),
            forall|i: int|
                0 <= i < can_skip@.len() && #[trigger] can_skip@[i] ==> stop_revenue(
                    visits,
                    must_ixs@,
                    vb,
                    cb,
                    i,
                ) <= usize::MAX,
            skip_revenues@ == skip_candidates(visits, can_skip@, vb, cb, ix as int),
            forall|i: int, j: int|
                0 <= i < j < skip_revenues@.len() ==> skip_revenues@[i].0 < skip_revenues@[j].0,
            forall|i: int| 0 <= i < skip_revenues@.len() ==> skip_revenues@[i].0 < ix,
        decreases can_skip@.len() - ix,
    {
        if can_skip[ix] {
            let rev = revenue_for_stop(path, must_ixs.as_slice(), ix, visit_bonuses, conn_bonuses);
            skip_revenues.push((ix, rev));
        }
        ix = ix + 1;
    }
    // Sort the can-skip visits from most revenue to least revenue.
    let sr = sort_by_revenue(&skip_revenues);
    // Stop at the can-skip visits that earn the most revenue.
    let num_to_keep = max_stops - must_ixs.len();
    let keep = if num_to_keep < sr.len() {
        num_to_keep
    } else {
        sr.len()
    };
    let mut extra_stop_ixs = first_ixs(&sr, 0, keep);
    let default_skip_ixs = first_ixs(&sr, keep, sr.len());
    // Combine the must-stop visits and the can-skip visits that earn the most
    // revenue. These are the optimal stops, with the possible exception of
    // connection bonuses.
    let mut default_ixs = must_ixs.clone();
    default_ixs.append(&mut extra_stop_ixs);
    proof {
        assert(sr@ == ranked_skips(visits, vb, cb, can_skip@));
        assert(keep == default_keep(visits, vb, cb, can_skip@, max_stops as int));
        assert(sr@.subrange(0, keep as int) =~= sr@.take(keep as int));
        assert(sr@.subrange(keep as int, sr@.len() as int) =~= sr@.skip(keep as int));
        assert(default_ixs@ =~= default_stop_ixs(visits, vb, cb, can_skip@, max_stops as int));
    }
    (must_ixs, sr, default_ixs, default_skip_ixs)
}

/// Returns the stops that try to earn the only relevant connection bonus,
/// if there is exactly one and the train can make the extra stops it needs.
fn bonus_stops(
    path: &Path,
    visit_bonuses: &VisitBonuses,
    conn_bonuses: &ConnectionBonuses,
    can_skip: &Vec<bool>,
    max_stops: usize,
    must_ixs: &Vec<usize>,
    sr: &Vec<(usize, usize)>,
    default_skip_ixs: &Vec<usize>,
) -> (r: Option<Vec<usize>>)
    requires
        must_ixs@ == must_stop_ixs(can_skip@),
        must_ixs@.len() <= max_stops,
        sr@ == ranked_skips(path.visits@, visit_bonuses.view(), connection_view(conn_bonuses.view()), can_skip@),
        addrs_of(path.visits@, default_skip_ixs@) == default_skip_addrs(
            path.visits@,
            visit_bonuses.view(),
            connection_view(conn_bonuses.view()),
            can_skip@,
            max_stops as int,
        ),
        sole_bonus(path.visits@, addrs_of(path.visits@, default_skip_ixs@), connection_view(conn_bonuses.view()))
            matches Some(src) ==> {
            &&& plain_revenue(
                path.visits@,
                visit_bonuses.view(),
                connection_view(conn_bonuses.view()),
                first_visit_ix(path.visits@, src),
            ) <= usize::MAX
            &&& forall|k: int|
                0 <= k < in_visits(path.visits@, connection_view(conn_bonuses.view())[src].0).len() ==> plain_revenue(
                    path.visits@,
                    visit_bonuses.view(),
                    connection_view(conn_bonuses.view()),
                    first_visit_ix(
                        path.visits@,
                        #[trigger] in_visits(path.visits@, connection_view(conn_bonuses.view())[src].0)[k],
                    ),
                ) <= usize::MAX
        },
    ensures
        match r {
            Some(v) => bonus_stop_ixs(
                path.visits@,
                visit_bonuses.view(),
                connection_view(conn_bonuses.view()),
                can_skip@,
                max_stops as int,
            ) == Some(v@),
            None => bonus_stop_ixs(
                path.visits@,
                visit_bonuses.view(),
                connection_view(conn_bonuses.view()),
                can_skip@,
                max_stops as int,
            ) is None,
        },
{
    let ghost visits = path.visits@;
    let ghost vb = visit_bonuses.view();
    let ghost cb = connection_view(conn_bonuses.view());
    let ghost skip_addrs = addrs_of(visits, default_skip_ixs@);
    let num_to_keep = max_stops - must_ixs.len();
    // Find connection bonuses that could be satisfied, but are not satisfied
    // by the default approach of stopping at visits with the most revenue.
    let j = match find_sole_bonus(path, default_skip_ixs, conn_bonuses) {
        None => {
            return None;
        },
        Some(j) => j,
    };
    let n = conn_bonuses.len();
    let entry = conn_bonuses.entry(j);
    let ghost es = conn_bonuses.entries_seq();
    let src = entry.0;
    let dests = &entry.1.0;
    proof {
        lemma_entries_map(es);
        assert(conn_bonuses.view()[es[j as int].0] == es[j as int].1);
        assert(cb[src].0 == dests@);
        assert(bonus_relevant(visits, skip_addrs, cb, src));
        lemma_in_visits_nonempty(visits, dests@);
    }
    let skipped_src = visits_at(path, default_skip_ixs, &src);
    // NOTE: not all dests may belong to the path.
    let candidate_dests = dests_in_path(path, dests);
    let mut skipped_dests = true;
    let mut k: usize = 0;
    while k < candidate_dests.len()
        invariant
            k <= candidate_dests@.len(),
            skipped_dests == forall|i: int|
                0 <= i < k ==> skip_addrs.contains(#[trigger] candidate_dests@[i]),
            skip_addrs == addrs_of(visits, default_skip_ixs@),
            visits == path.visits@,
        decreases candidate_dests@.len() - k,
    {
        if !visits_at(path, default_skip_ixs, &candidate_dests[k]) {
            skipped_dests = false;
        }
        k = k + 1;
    }
    let (src_ix, _src_revenue) = addr_ix_and_base_revenue(path, &src, visit_bonuses, conn_bonuses);
    let (dest_ix, _dest_revenue) = best_ix_and_base_revenue(
        path,
        &candidate_dests,
        visit_bonuses,
        conn_bonuses,
    );
    // Determine the new stops that need to be made.
    let mut new_stop_ixs: Vec<usize> = Vec::new();
    if skipped_src {
        new_stop_ixs.push(src_ix);
    }
    if skipped_dests {
        new_stop_ixs.push(dest_ix);
    }
    let num_to_skip = new_stop_ixs.len();
    proof {
        let first_part = if skip_addrs.contains(src) {
            seq![src_ix]
        } else {
            Seq::<usize>::empty()
        };
        assert(new_stop_ixs@ =~= first_part + if skipped_dests {
            seq![dest_ix]
        } else {
            Seq::<usize>::empty()
        });
    }
    if num_to_skip > num_to_keep {
        // NOTE: cannot skip enough visits to satisfy this bonus.
        return None;
    }
    let new_num_to_keep = num_to_keep - num_to_skip;
    // NOTE: it's important here that we don't skip any visit that currently
    // contributes towards satisfying the connection bonus.
    let mut new_extra_stop_ixs = first_ixs_excluding(sr, src_ix, dest_ix, new_num_to_keep);
    let mut new_ixs = must_ixs.clone();
    new_ixs.append(&mut new_extra_stop_ixs);
    new_ixs.append(&mut new_stop_ixs);
    Some(new_ixs)
}

/// Calculate the best visits at which to stop, given possible restrictions on
/// which visits may be skipped.
fn best_stop_ixs(
    path: &Path,
    train: &Train,
    visit_bonuses: &VisitBonuses,
    conn_bonuses: &ConnectionBonuses,
    can_skip: Vec<bool>,
    max_stops: usize,
) -> (r: (usize, Vec<TrainStop>))
    requires
        can_skip@.len() == path.visits@.len(),
        must_stop_ixs(can_skip@).len() <= max_stops,
        best_stops_fit(
            path.visits@,
            visit_bonuses.view(),
            connection_view(conn_bonuses.view()),
            can_skip@,
            max_stops as int,
            train.revenue_multiplier as int,
        ),
    ensures
        ({
            let stops = best_stop_seq(
                path.visits@,
                visit_bonuses.view(),
                connection_view(conn_bonuses.view()),
                can_skip@,
                max_stops as int,
                train.revenue_multiplier as int,
            );
            &&& r.1@ == train_stops(
                path.visits@,
                stops,
                visit_bonuses.view(),
                connection_view(conn_bonuses.view()),
                train.revenue_multiplier as int,
            )
            &&& r.0 == stops_revenue(
                path.visits@,
                stops,
                visit_bonuses.view(),
                connection_view(conn_bonuses.view()),
                train.revenue_multiplier as int,
                stops.len() as int,
            )
            &&& r.0 == stops_total(r.1@)
        }),
        forall|k: int| 0 <= k < r.1@.len() ==> #[trigger] r.1@[k].visit_ix < path.visits@.len(),
{
    proof {
        reveal(best_stop_seq);
        reveal(best_stops_fit);
    }
    let (must_ixs, sr, default_ixs, default_skip_ixs) = default_stops(
        path,
        visit_bonuses,
        conn_bonuses,
        &can_skip,
        max_stops,
    );
    let (default_revenue, default_stops) = revenue_for_stops(
        path,
        train,
        &default_ixs,
        visit_bonuses,
        conn_bonuses,
    );
    match bonus_stops(
        path,
        visit_bonuses,
        conn_bonuses,
        &can_skip,
        max_stops,
        &must_ixs,
        &sr,
        &default_skip_ixs,
    ) {
        None => (default_revenue, default_stops),
        Some(new_ixs) => {
            let (new_revenue, new_stops) = revenue_for_stops(
                path,
                train,
                &new_ixs,
                visit_bonuses,
                conn_bonuses,
            );
            if new_revenue > default_revenue {
                (new_revenue, new_stops)
            } else {
                (default_revenue, default_stops)
            }
        },
    }
}

/// Which visits a train of type `t` may skip: none of the first and last,
/// and of the others, the dits (for `SkipTowns`) or all (for `SkipAny`).
pub open spec fn skippable(visits: Seq<Visit>, t: TrainType) -> Seq<bool> {
    Seq::new(
        visits.len(),
        |ix: int|
            0 < ix < visits.len() - 1 && match t {
                TrainType::SkipAny => true,
                TrainType::SkipTowns => visits[ix].visits is Dit,
                TrainType::MustStop => false,
            },
    )
}

/// The number of `true` values among the first `m` of `s`.
pub open spec fn count_true(s: Seq<bool>, m: int) -> int
    decreases m,
{
    if m <= 0 {
        0
    } else {
        count_true(s, m - 1) + if s[m - 1] {
            1int
        } else {
            0
        }
    }
}

/// The indices `0, 1, ..., n - 1`.
pub open spec fn all_stop_ixs(n: int) -> Seq<usize> {
    Seq::new(n as nat, |i: int| i as usize)
}

/// The stops that `train` makes along the path, if it can operate the path:
/// every visit, when the train can stop at them all; otherwise, when the
/// train can skip enough of them, the stops chosen by `best_stop_seq`.
pub open spec fn train_stop_ixs(
    train: Train,
    visits: Seq<Visit>,
    num_visits: int,
    vb: Map<HexAddress, usize>,
    cb: Map<HexAddress, (Seq<HexAddress>, usize)>,
) -> Option<Seq<usize>> {
    match train.max_stops {
        None => Some(all_stop_ixs(visits.len() as int)),
        Some(m) => if num_visits <= m {
            Some(all_stop_ixs(visits.len() as int))
        } else if train.train_type == TrainType::MustStop {
            None
        } else {
            let cs = skippable(visits, train.train_type);
            if visits.len() > m + count_true(cs, cs.len() as int) {
                None
            } else {
                Some(best_stop_seq(visits, vb, cb, cs, m as int, train.revenue_multiplier as int))
            }
        },
    }
}

/// The revenues computed when `train` operates the path fit in a `usize`,
/// and the path has a visit whenever the train must choose its stops.
pub open spec fn revenue_fits(
    train: Train,
    visits: Seq<Visit>,
    num_visits: int,
    vb: Map<HexAddress, usize>,
    cb: Map<HexAddress, (Seq<HexAddress>, usize)>,
) -> bool {
    let mult = train.revenue_multiplier as int;
    match train.max_stops {
        None => stops_fit(visits, all_stop_ixs(visits.len() as int), vb, cb, mult),
        Some(m) => if num_visits <= m {
            stops_fit(visits, all_stop_ixs(visits.len() as int), vb, cb, mult)
        } else {
            let cs = skippable(visits, train.train_type);
            &&& visits.len() > 0
            &&& train.train_type != TrainType::MustStop ==> {
                &&& m + count_true(cs, cs.len() as int) <= usize::MAX
                &&& visits.len() <= m + count_true(cs, cs.len() as int) ==> best_stops_fit(
                    visits,
                    vb,
                    cb,
                    cs,
                    m as int,
                    mult,
                )
            }
        },
    }
}

/// Every index is either a must-stop index or a skippable one.
proof fn lemma_must_count(s: Seq<bool>)
    requires
        s.len() <= usize::MAX,
    ensures
        must_stop_ixs(s).len() + count_true(s, s.len() as int) == s.len(),
        forall|i: int| 0 <= i < s.len() && !s[i] ==> must_stop_ixs(s).contains(i as usize),
        forall|k: int|
            0 <= k < must_stop_ixs(s).len() ==> #[trigger] must_stop_ixs(s)[k] < s.len() && !s[
                must_stop_ixs(s)[k] as int
            ],
    decreases s.len(),
{
    if s.len() > 0 {
        let t = s.drop_last();
        lemma_must_count(t);
        assert forall|m: int| 0 <= m <= t.len() implies count_true(t, m) == count_true(s, m) by {
            lemma_count_prefix(t, s, m);
        }
        let ms = must_stop_ixs(s);
        let mt = must_stop_ixs(t);
        assert(ms == mt + if s.last() {
            Seq::<usize>::empty()
        } else {
            seq![(s.len() - 1) as usize]
        });
        assert forall|i: int| 0 <= i < s.len() && !s[i] implies ms.contains(i as usize) by {
            if i < t.len() {
                assert(!t[i]);
                assert(mt.contains(i as usize));
                let k = choose|k: int| 0 <= k < mt.len() && mt[k] == i as usize;
                assert(ms[k] == i as usize);
            } else {
                assert(ms[ms.len() - 1] == i as usize);
            }
        }
        assert forall|k: int| 0 <= k < ms.len() implies #[trigger] ms[k] < s.len() && !s[ms[k] as int] by {
            if k < mt.len() {
                assert(ms[k] == mt[k]);
                assert(t[mt[k] as int] == s[mt[k] as int]);
            } else {
                assert(!s.last());
                assert(ms[k] == (s.len() - 1) as usize);
            }
        }
    }
}

/// Counting over a prefix depends only on the prefix.
proof fn lemma_count_prefix(t: Seq<bool>, s: Seq<bool>, m: int)
    requires
        0 <= m <= t.len() <= s.len(),
        forall|i: int| 0 <= i < t.len() ==> t[i] == s[i],
    ensures
        count_true(t, m) == count_true(s, m),
    decreases m,
{
    if m > 0 {
        lemma_count_prefix(t, s, m - 1);
    }
}


/// Returns the indices of `n` visits.
fn every_stop(n: usize) -> (v: Vec<usize>)
    ensures
        v@ == all_stop_ixs(n as int),
        n > 0 ==> v@.contains(0usize) && v@.contains((n - 1) as usize),
{
    let mut stop_ixs: Vec<usize> = Vec::new();
    let mut i: usize = 0;
    while i < n
        invariant
            i <= n,
            stop_ixs@ == all_stop_ixs(i as int),
        decreases n - i,
    {
        stop_ixs.push(i);
        i = i + 1;
        assert(stop_ixs@ =~= all_stop_ixs(i as int));
    }
    proof {
        if n > 0 {
            assert(stop_ixs@[0] == 0usize);
            assert(stop_ixs@[n - 1] == (n - 1) as usize);
        }
    }
    stop_ixs
}

/// Returns which visits a train of type `t` may skip, and their number.
fn skip_flags(path: &Path, t: TrainType) -> (r: (Vec<bool>, usize))
    requires
        path.visits@.len() > 0,
        t != TrainType::MustStop,
    ensures
        r.0@ == skippable(path.visits@, t),
        r.1 == count_true(r.0@, r.0@.len() as int),
{
    let ghost visits = path.visits@;
    let ghost cs = skippable(visits, t);
    let n = path.visits.len();
    let final_ix = n - 1;
    let skip_any = t == TrainType::SkipAny;
    let mut can_skip: Vec<bool> = Vec::new();
    let mut num_skip: usize = 0;
    let mut ix: usize = 0;
    while ix < n
        invariant
            ix <= n,
            n == visits.len(),
            final_ix == n - 1,
            visits == path.visits@,
            cs == skippable(visits, t),
            skip_any == (t == TrainType::SkipAny),
            t != TrainType::MustStop,
            can_skip@ == cs.subrange(0, ix as int),
            num_skip == count_true(cs, ix as int),
            num_skip <= ix,
        decreases n - ix,
    {
        let skip = ix > 0 && ix < final_ix && (skip_any || path.visits[ix].visits.is_dit());
        can_skip.push(skip);
        if skip {
            num_skip = num_skip + 1;
        }
        ix = ix + 1;
        assert(can_skip@ =~= cs.subrange(0, ix as int));
    }
    assert(can_skip@ =~= cs);
    (can_skip, num_skip)
}

/// The stops chosen when some visits may be skipped include every visit
/// that may not be skipped, and there are at most `max_stops` of them.
proof fn lemma_best_stops_keep_ends(
    visits: Seq<Visit>,
    vb: Map<HexAddress, usize>,
    cb: Map<HexAddress, (Seq<HexAddress>, usize)>,
    cs: Seq<bool>,
    max_stops: int,
    mult: int,
)
    requires
        must_stop_ixs(cs).len() <= max_stops,
    ensures
        ({
            let stops = best_stop_seq(visits, vb, cb, cs, max_stops, mult);
            &&& forall|k: int|
                0 <= k < must_stop_ixs(cs).len() ==> stops.contains(#[trigger] must_stop_ixs(cs)[k])
            &&& stops.len() <= max_stops
        }),
{
    reveal(best_stop_seq);
    let must = must_stop_ixs(cs);
    let d = default_stop_ixs(visits, vb, cb, cs, max_stops);
    assert(d.subrange(0, must.len() as int) =~= must);
    assert forall|k: int| 0 <= k < must.len() implies d.contains(#[trigger] must[k]) by {
        assert(d[k] == must[k]);
    }
    match bonus_stop_ixs(visits, vb, cb, cs, max_stops) {
        Some(b) => {
            assert(b.subrange(0, must.len() as int) =~= must);
            assert forall|k: int| 0 <= k < must.len() implies b.contains(#[trigger] must[k]) by {
                assert(b[k] == must[k]);
            }
        },
        None => {},
    }
}

/// The revenue of a train's stops, with a multiplier, is that multiplier
/// times their revenue without one.
pub(crate) proof fn lemma_stops_revenue_scaled(
    visits: Seq<Visit>,
    stop_ixs: Seq<usize>,
    vb: Map<HexAddress, usize>,
    cb: Map<HexAddress, (Seq<HexAddress>, usize)>,
    mult: int,
    m: int,
)
    ensures
        stops_revenue(visits, stop_ixs, vb, cb, mult, m) == mult * stops_revenue(visits, stop_ixs, vb, cb, 1, m),
    decreases m,
{
    if m > 0 {
        lemma_stops_revenue_scaled(visits, stop_ixs, vb, cb, mult, m - 1);
        let a = stops_revenue(visits, stop_ixs, vb, cb, 1, m - 1);
        let r = stop_revenue(visits, stop_ixs, vb, cb, stop_ixs[m - 1] as int);
        assert(mult * a + r * mult == mult * (a + r * 1)) by (nonlinear_arith);
    }
}

/// A train's revenue multiplier never changes where the train stops, and
/// multiplies the revenue of its stops: a train whose multiplier is `k`
/// (at least one) stops where the same train without a multiplier stops,
/// and earns `k` times its revenue there.
pub proof fn law_multiplier_scales_revenue(
    train: Train,
    k: usize,
    visits: Seq<Visit>,
    num_visits: int,
    vb: Map<HexAddress, usize>,
    cb: Map<HexAddress, (Seq<HexAddress>, usize)>,
)
    requires
        k >= 1,
    ensures
        train_stop_ixs(Train { revenue_multiplier: k, ..train }, visits, num_visits, vb, cb) == train_stop_ixs(
            Train { revenue_multiplier: 1, ..train },
            visits,
            num_visits,
            vb,
            cb,
        ),
        forall|stop_ixs: Seq<usize>|
            #[trigger] stops_revenue(visits, stop_ixs, vb, cb, k as int, stop_ixs.len() as int) == k * stops_revenue(
                visits,
                stop_ixs,
                vb,
                cb,
                1,
                stop_ixs.len() as int,
            ),
{
    assert forall|stop_ixs: Seq<usize>|
        #[trigger] stops_revenue(visits, stop_ixs, vb, cb, k as int, stop_ixs.len() as int) == k * stops_revenue(
            visits,
            stop_ixs,
            vb,
            cb,
            1,
            stop_ixs.len() as int,
        ) by {
        lemma_stops_revenue_scaled(visits, stop_ixs, vb, cb, k as int, stop_ixs.len() as int);
    }
    let tk = Train { revenue_multiplier: k, ..train };
    let t1 = Train { revenue_multiplier: 1, ..train };
    if let Some(m) = train.max_stops {
        if num_visits > m && train.train_type != TrainType::MustStop {
            let cs = skippable(visits, train.train_type);
            reveal(best_stop_seq);
            let d = default_stop_ixs(visits, vb, cb, cs, m as int);
            if let Some(n) = bonus_stop_ixs(visits, vb, cb, cs, m as int) {
                lemma_stops_revenue_scaled(visits, n, vb, cb, k as int, n.len() as int);
                lemma_stops_revenue_scaled(visits, d, vb, cb, k as int, d.len() as int);
                let a = stops_revenue(visits, n, vb, cb, 1, n.len() as int);
                let b = stops_revenue(visits, d, vb, cb, 1, d.len() as int);
                assert((k * a > k * b) == (a > b)) by (nonlinear_arith)
                    requires
                        k >= 1,
                ;
            }
            assert(best_stop_seq(visits, vb, cb, cs, m as int, k as int) == best_stop_seq(visits, vb, cb, cs, m as int, 1));
        }
    }
    assert(train_stop_ixs(tk, visits, num_visits, vb, cb) == train_stop_ixs(t1, visits, num_visits, vb, cb));
}

impl Train {
    /// Determine the revenue earned and stops made when the train operates
    /// the given path, if it can operate this path.
    ///
    /// The train must stop at the first and last visits.
    pub fn revenue_for(
        &self,
        path: &Path,
        visit_bonuses: &VisitBonuses,
        conn_bonuses: &ConnectionBonuses,
    ) -> (r: Option<(usize, Vec<TrainStop>)>)
        requires
            revenue_fits(
                *self,
                path.visits@,
                path.num_visits as int,
                visit_bonuses.view(),
                connection_view(conn_bonuses.view()),
            ),
        ensures
            match train_stop_ixs(
                *self,
                path.visits@,
                path.num_visits as int,
                visit_bonuses.view(),
                connection_view(conn_bonuses.view()),
            ) {
                None => r is None,
                Some(stop_ixs) => r matches Some(res) && {
                    &&& res.1@ == train_stops(
                        path.visits@,
                        stop_ixs,
                        visit_bonuses.view(),
                        connection_view(conn_bonuses.view()),
                        self.revenue_multiplier as int,
                    )
                    &&& res.0 == stops_revenue(
                        path.visits@,
                        stop_ixs,
                        visit_bonuses.view(),
                        connection_view(conn_bonuses.view()),
                        self.revenue_multiplier as int,
                        stop_ixs.len() as int,
                    )
                    // The revenue is the sum of the revenues of the stops.
                    &&& res.0 == stops_total(res.1@)
                    // Each stop is at a visit of the path.
                    &&& forall|k: int| 0 <= k < res.1@.len() ==> #[trigger] res.1@[k].visit_ix < path.visits@.len()
                    // The train stops at the first and last visits.
                    &&& path.visits@.len() > 0 ==> stop_ixs.contains(0usize) && stop_ixs.contains(
                        (path.visits@.len() - 1) as usize,
                    )
                    // A train with a stop limit makes no more stops than that.
                    &&& (path.num_visits == path.visits@.len() ==> (self.max_stops matches Some(m)
                        ==> stop_ixs.len() <= m))
                },
            },
    {
        let ghost visits = path.visits@;
        let ghost vb = visit_bonuses.view();
        let ghost cb = connection_view(conn_bonuses.view());
        let n = path.visits.len();
        let all_ixs = self.max_stops.is_none() || path.num_visits <= self.max_stops.unwrap();
        if all_ixs {
            // With no limit on stops, or few enough visits, we can stop at
            // every visit, and this should earn at least as much revenue as
            // skipping any of them.
            let stop_ixs = every_stop(n);
            return Some(revenue_for_stops(path, self, &stop_ixs, visit_bonuses, conn_bonuses));
        }
        let max_stops = self.max_stops.unwrap();
        if self.train_type == TrainType::MustStop {
            return None;
        }
        // Must be able to skip some of the visits.
        let (can_skip, num_skip) = skip_flags(path, self.train_type);
        // Check that enough visits can be skipped that the train is capable
        // of operating this path.
        if n > max_stops + num_skip {
            return None;
        }
        let ghost cs = can_skip@;
        proof {
            lemma_must_count(cs);
        }
        // Return the stops that earn the most revenue.
        let r = best_stop_ixs(path, self, visit_bonuses, conn_bonuses, can_skip, max_stops);
        proof {
            lemma_best_stops_keep_ends(visits, vb, cb, cs, max_stops as int, self.revenue_multiplier as int);
            let must = must_stop_ixs(cs);
            assert(!cs[0] && !cs[n - 1]);
            assert(must.contains(0usize));
            assert(must.contains((n - 1) as usize));
            let k0 = choose|k: int| 0 <= k < must.len() && must[k] == 0usize;
            let k1 = choose|k: int| 0 <= k < must.len() && must[k] == (n - 1) as usize;
            assert(must[k0] == 0usize);
            assert(must[k1] == (n - 1) as usize);
        }
        Some(r)
    }
}


/// The different types of route bonus that may be applied.
#[derive(Clone, Debug, PartialEq, Eq, PartialOrd, Ord)]
pub enum Bonus {
    /// A bonus for visiting a specific location.
    VisitBonus { locn: HexAddress, bonus: usize },
    /// A bonus for visiting a specific location with a specific train.
    VisitWithTrainBonus { locn: HexAddress, train: Train, bonus: usize },
    /// A bonus for connecting one location to another location.
    ConnectionBonus { from: HexAddress, to_any: Vec<HexAddress>, bonus: usize },
}

/// The visit bonuses among `bonuses`, indexed by location, where a later
/// bonus for a location replaces an earlier one.
pub open spec fn visit_bonus_map(bonuses: Seq<Bonus>) -> Map<HexAddress, usize>
    decreases bonuses.len(),
{
    if bonuses.len() == 0 {
        Map::empty()
    } else {
        let m = visit_bonus_map(bonuses.drop_last());
        match bonuses.last() {
            Bonus::VisitBonus { locn, bonus } => m.insert(locn, bonus),
            _ => m,
        }
    }
}

/// The connection bonuses among `bonuses`, indexed by location, where a
/// later bonus for a location replaces an earlier one.
pub open spec fn connection_bonus_map(bonuses: Seq<Bonus>) -> Map<HexAddress, (Seq<HexAddress>, usize)>
    decreases bonuses.len(),
{
    if bonuses.len() == 0 {
        Map::empty()
    } else {
        let m = connection_bonus_map(bonuses.drop_last());
        match bonuses.last() {
            Bonus::ConnectionBonus { from, to_any, bonus } => m.insert(from, (to_any@, bonus)),
            _ => m,
        }
    }
}

/// The locations and bonuses of a table of connection bonuses.
pub open spec fn connection_view(cb: Map<HexAddress, (Vec<HexAddress>, usize)>) -> Map<
    HexAddress,
    (Seq<HexAddress>, usize),
> {
    Map::new(|a: HexAddress| cb.contains_key(a), |a: HexAddress| (cb[a].0@, cb[a].1))
}

/// Returns a copy of a list of locations.
fn copy_addrs(v: &Vec<HexAddress>) -> (c: Vec<HexAddress>)
    ensures
        c@ == v@,
{
    let mut c: Vec<HexAddress> = Vec::new();
    let mut i: usize = 0;
    while i < v.len()
        invariant
            i <= v@.len(),
            c@ == v@.subrange(0, i as int),
        decreases v@.len() - i,
    {
        c.push(v[i]);
        i = i + 1;
        assert(c@ =~= v@.subrange(0, i as int));
    }
    assert(v@.subrange(0, v@.len() as int) =~= v@);
    c
}

/// Index the visit bonuses and the connection bonuses by location.
pub fn bonus_tables(bonuses: &Vec<Bonus>) -> (r: (VisitBonuses, ConnectionBonuses))
    ensures
        r.0.view() == visit_bonus_map(bonuses@),
        connection_view(r.1.view()) == connection_bonus_map(bonuses@),
{
    let mut visit_bonuses: VisitBonuses = BonusTable::new();
    let mut conn_bonuses: ConnectionBonuses = BonusTable::new();
    let mut i: usize = 0;
    while i < bonuses.len()
        invariant
            i <= bonuses@.len(),
            visit_bonuses.view() == visit_bonus_map(bonuses@.subrange(0, i as int)),
            connection_view(conn_bonuses.view()) == connection_bonus_map(bonuses@.subrange(0, i as int)),
        decreases bonuses@.len() - i,
    {
        let ghost old_cb = conn_bonuses.view();
        match &bonuses[i] {
            Bonus::VisitBonus { locn, bonus } => {
                visit_bonuses.insert(*locn, *bonus);
            },
            Bonus::ConnectionBonus { from, to_any, bonus } => {
                let dests = copy_addrs(to_any);
                conn_bonuses.insert(*from, (dests, *bonus));
                proof {
                    assert(connection_view(conn_bonuses.view()) =~= connection_view(old_cb).insert(
                        *from,
                        (to_any@, *bonus),
                    ));
                }
            },
            Bonus::VisitWithTrainBonus { .. } => {},
        }
        i = i + 1;
        proof {
            let pre = bonuses@.subrange(0, i as int);
            assert(pre.drop_last() =~= bonuses@.subrange(0, i - 1));
            assert(pre.last() == bonuses@[i - 1]);
        }
    }
    assert(bonuses@.subrange(0, bonuses@.len() as int) =~= bonuses@);
    (visit_bonuses, conn_bonuses)
}

/// The largest stop limit among `trains` (counting no limit as zero).
pub open spec fn max_stops_of(trains: Seq<Train>) -> int
    decreases trains.len(),
{
    if trains.len() == 0 {
        0
    } else {
        let m = max_stops_of(trains.drop_last());
        let last = match trains.last().max_stops {
            Some(n) => n as int,
            None => 0,
        };
        if last > m {
            last
        } else {
            m
        }
    }
}

/// The most restrictive path limit that respects the abilities of each of
/// `trains`: none when some train is an express train; otherwise the
/// largest stop limit, counting cities only when some train may skip towns.
pub open spec fn path_limit_for(trains: Seq<Train>) -> Option<PathLimit> {
    if exists|i: int| 0 <= i < trains.len() && (#[trigger] trains[i]).express() {
        None
    } else if exists|i: int|
        0 <= i < trains.len() && (#[trigger] trains[i]).train_type == TrainType::SkipTowns {
        Some(PathLimit::Cities { count: max_stops_of(trains) as usize })
    } else {
        Some(PathLimit::CitiesAndTowns { count: max_stops_of(trains) as usize })
    }
}

/// The trains owned by a single company, which may operate routes.
pub struct Trains {
    /// The trains, in the order they were given.
    train_vec: Vec<Train>,
    /// The distinct trains, in the order of their first occurrence.
    classes: Vec<Train>,
    /// The position in `classes` of each train.
    train_classes: Vec<usize>,
}

/// Returns the position of `t` in `s`, if it occurs there.
fn position_of(s: &Vec<Train>, t: Train) -> (r: Option<usize>)
    ensures
        match r {
            Some(i) => i < s@.len() && s@[i as int] == t,
            None => forall|j: int| 0 <= j < s@.len() ==> s@[j] != t,
        },
{
    let mut i: usize = 0;
    while i < s.len()
        invariant
            i <= s@.len(),
            forall|j: int| 0 <= j < i ==> s@[j] != t,
        decreases s@.len() - i,
    {
        if s[i] == t {
            return Some(i);
        }
        i = i + 1;
    }
    None
}

/// The trains of `s` are distinct.
pub open spec fn distinct_trains(s: Seq<Train>) -> bool {
    forall|i: int, j: int| 0 <= i < j < s.len() ==> s[i] != s[j]
}

impl Trains {
    #[verifier::type_invariant]
    spec fn classes_agree(self) -> bool {
        &&& distinct_trains(self.classes@)
        &&& self.train_classes@.len() == self.train_vec@.len()
        &&& forall|i: int|
            0 <= i < self.train_vec@.len() ==> #[trigger] self.train_classes@[i] < self.classes@.len()
                && self.classes@[self.train_classes@[i] as int] == self.train_vec@[i]
        &&& forall|c: int| 0 <= c < self.classes@.len() ==> self.train_vec@.contains(#[trigger] self.classes@[c])
    }

    /// The trains, in the order they were given.
    pub closed spec fn view(&self) -> Seq<Train> {
        self.train_vec@
    }

    /// Creates a new collection of trains.
    pub fn new(trains: Vec<Train>) -> (t: Self)
        ensures
            t.view() == trains@,
    {
        let mut seen_trains: Vec<Train> = Vec::new();
        let mut train_classes: Vec<usize> = Vec::new();
        let mut k: usize = 0;
        while k < trains.len()
            invariant
                k <= trains@.len(),
                distinct_trains(seen_trains@),
                train_classes@.len() == k,
                forall|i: int|
                    0 <= i < k ==> #[trigger] train_classes@[i] < seen_trains@.len()
                        && seen_trains@[train_classes@[i] as int] == trains@[i],
                forall|c: int| 0 <= c < seen_trains@.len() ==> trains@.contains(#[trigger] seen_trains@[c]),
            decreases trains@.len() - k,
        {
            let train = trains[k];
            let pos = position_of(&seen_trains, train);
            let ghost old_seen = seen_trains@;
            if let Some(ix) = pos {
                train_classes.push(ix);
            } else {
                seen_trains.push(train);
                train_classes.push(seen_trains.len() - 1);
                proof {
                    assert forall|c: int| 0 <= c < seen_trains@.len() implies trains@.contains(#[trigger] seen_trains@[c]) by {
                        if c < old_seen.len() {
                            assert(old_seen[c] == seen_trains@[c]);
                        } else {
                            assert(trains@[k as int] == seen_trains@[c]);
                        }
                    }
                }
            }
            k = k + 1;
        }
        Trains { train_vec: trains, classes: seen_trains, train_classes }
    }

    /// Returns the number of trains in this collection.
    pub fn train_count(&self) -> (n: usize)
        ensures
            n == self.view().len(),
    {
        self.train_vec.len()
    }

    /// Returns the most restrictive path limit that respects the abilities of
    /// each train in this collection.
    pub fn path_limit(&self) -> (r: Option<PathLimit>)
        requires
            self.view().len() > 0,
        ensures
            r == path_limit_for(self.view()),
    {
        let ghost trains = self.train_vec@;
        let mut express = false;
        let mut skip_dits = false;
        let mut max_stops: usize = 0;
        let mut c: usize = 0;
        while c < self.train_vec.len()
            invariant
                c <= trains.len(),
                trains == self.train_vec@,
                express == exists|i: int| 0 <= i < c && (#[trigger] trains[i]).express(),
                skip_dits == exists|i: int|
                    0 <= i < c && (#[trigger] trains[i]).train_type == TrainType::SkipTowns,
                max_stops == max_stops_of(trains.subrange(0, c as int)),
            decreases trains.len() - c,
        {
            let t = self.train_vec[c];
            if t.is_express() {
                express = true;
            }
            if t.train_type == TrainType::SkipTowns {
                skip_dits = true;
            }
            let m = match t.max_stops {
                Some(m) => m,
                None => 0,
            };
            if m > max_stops {
                max_stops = m;
            }
            proof {
                let pre = trains.subrange(0, c + 1);
                assert(pre.drop_last() =~= trains.subrange(0, c as int));
            }
            c = c + 1;
        }
        proof {
            assert(trains.subrange(0, trains.len() as int) =~= trains);
        }
        if express {
            return None;
        }
        // NOTE: so there is a maximum number of stops, and no train can skip
        // cities and dits. For now, ignore the possibility of trains that can
        // skip cities but cannot skip dits.
        if skip_dits {
            Some(PathLimit::Cities { count: max_stops })
        } else {
            Some(PathLimit::CitiesAndTowns { count: max_stops })
        }
    }
}


/// A route operated by a train.
#[derive(Debug)]
pub struct Route {
    /// The steps that form the entire route.
    pub steps: Vec<Step>,
    /// The visits along the route where revenue is earned.
    pub visits: Vec<Visit>,
}

impl From<Path> for Route {
    fn from(path: Path) -> (r: Route) {
        Route { steps: path.steps, visits: path.visits }
    }
}

impl vstd::std_specs::convert::FromSpecImpl<Path> for Route {
    open spec fn obeys_from_spec() -> bool {
        true
    }

    open spec fn from_spec(path: Path) -> Route {
        Route { steps: path.steps, visits: path.visits }
    }
}

/// A train that operates a path to earn revenue.
///
/// Note that the train may not earn revenue from every location along the
/// path.
#[derive(Debug)]
pub struct TrainRoute {
    /// The train.
    pub train: Train,
    /// The revenue earned by having the train operate the route.
    pub revenue: usize,
    /// The route operated by the train.
    pub route: Route,
}

/// Pairings of trains to routes.
#[derive(Debug)]
pub struct Routes {
    /// The total revenue earned from these routes.
    pub net_revenue: usize,
    /// The routes that were operated and earned revenue.
    pub train_routes: Vec<TrainRoute>,
}

impl Routes {
    /// Returns the routes that were operated.
    pub fn routes(&self) -> (r: Vec<&Route>)
        ensures
            r@.len() == self.train_routes@.len(),
            forall|i: int| 0 <= i < r@.len() ==> *r@[i] == self.train_routes@[i].route,
    {
        let mut r: Vec<&Route> = Vec::new();
        let mut i: usize = 0;
        while i < self.train_routes.len()
            invariant
                i <= self.train_routes@.len(),
                r@.len() == i,
                forall|j: int| 0 <= j < i ==> *r@[j] == self.train_routes@[j].route,
            decreases self.train_routes@.len() - i,
        {
            r.push(&self.train_routes[i].route);
            i = i + 1;
        }
        r
    }
}

/// The stops that `train` makes along path `p`, if it can operate it.
pub open spec fn stops_for(
    paths: Seq<Path>,
    vb: Map<HexAddress, usize>,
    cb: Map<HexAddress, (Seq<HexAddress>, usize)>,
    p: int,
    train: Train,
) -> Option<Seq<usize>> {
    train_stop_ixs(train, paths[p].visits@, paths[p].num_visits as int, vb, cb)
}

/// The revenue that `train` earns by operating path `p`, if it can operate
/// it.
pub open spec fn earns(
    paths: Seq<Path>,
    vb: Map<HexAddress, usize>,
    cb: Map<HexAddress, (Seq<HexAddress>, usize)>,
    p: int,
    train: Train,
) -> Option<int> {
    match stops_for(paths, vb, cb, p, train) {
        Some(s) => Some(
            stops_revenue(paths[p].visits@, s, vb, cb, train.revenue_multiplier as int, s.len() as int),
        ),
        None => None,
    }
}

/// Each train `trains[t[i]]` can operate its path `paths[c[i]]`.
pub open spec fn can_operate(
    paths: Seq<Path>,
    trains: Seq<Train>,
    vb: Map<HexAddress, usize>,
    cb: Map<HexAddress, (Seq<HexAddress>, usize)>,
    c: Seq<usize>,
    t: Seq<usize>,
) -> bool {
    &&& c.len() == t.len()
    &&& forall|i: int|
        0 <= i < c.len() ==> (#[trigger] earns(paths, vb, cb, c[i] as int, trains[t[i] as int])) is Some
}

/// The revenue that the first `m` trains `trains[t[i]]` earn on their paths
/// `paths[c[i]]`, counting nothing for a train that cannot operate its path.
pub open spec fn assignment_total(
    paths: Seq<Path>,
    trains: Seq<Train>,
    vb: Map<HexAddress, usize>,
    cb: Map<HexAddress, (Seq<HexAddress>, usize)>,
    c: Seq<usize>,
    t: Seq<usize>,
    m: int,
) -> int
    decreases m,
{
    if m <= 0 {
        0
    } else {
        assignment_total(paths, trains, vb, cb, c, t, m - 1) + match earns(
            paths,
            vb,
            cb,
            c[m - 1] as int,
            trains[t[m - 1] as int],
        ) {
            Some(v) => v,
            None => 0,
        }
    }
}

/// Paths `a` and `b` share an element that routes may not share.
pub open spec fn conflicting(paths: Seq<Path>, a: usize, b: usize) -> bool {
    a < paths.len() && b < paths.len() && !paths[a as int].route_conflicts@.disjoint(
        paths[b as int].route_conflicts@,
    )
}

/// The pairs of paths that conflict.
pub open spec fn conflict_relation(paths: Seq<Path>) -> spec_fn(usize, usize) -> bool {
    |a: usize, b: usize| conflicting(paths, a, b)
}

/// Allocating train `trains[t[i]]` to path `paths[c[i]]` for each `i` is a
/// valid way to operate routes: the paths are distinct and do not conflict,
/// the trains are distinct and there are no more of them than the company
/// owns, and each train can operate its path.
pub open spec fn valid_assignment(
    paths: Seq<Path>,
    trains: Seq<Train>,
    vb: Map<HexAddress, usize>,
    cb: Map<HexAddress, (Seq<HexAddress>, usize)>,
    c: Seq<usize>,
    t: Seq<usize>,
) -> bool {
    &&& is_combination(c, paths.len() as int, trains.len() as int)
    &&& admissible(conflict_relation(paths), c)
    &&& is_k_permutation(t, trains.len() as int, c.len() as int)
    &&& can_operate(paths, trains, vb, cb, c, t)
}

/// The train revenue table holds, for path `p` and `train`, the revenue and
/// stops that `revenue_for` gives.
pub open spec fn entry_ok(
    paths: Seq<Path>,
    vb: Map<HexAddress, usize>,
    cb: Map<HexAddress, (Seq<HexAddress>, usize)>,
    p: int,
    train: Train,
    e: Option<(usize, Vec<TrainStop>)>,
) -> bool {
    match stops_for(paths, vb, cb, p, train) {
        None => e is None,
        Some(s) => e matches Some(x) && x.0 == stops_revenue(
            paths[p].visits@,
            s,
            vb,
            cb,
            train.revenue_multiplier as int,
            s.len() as int,
        ) && x.1@ == train_stops(paths[p].visits@, s, vb, cb, train.revenue_multiplier as int),
    }
}

/// The entries of `pairs` allocate train `trains[t[i]]` to path `c[i]`, with
/// the revenue it earns and the stops it makes.
pub open spec fn pairing_of(
    paths: Seq<Path>,
    trains: Seq<Train>,
    vb: Map<HexAddress, usize>,
    cb: Map<HexAddress, (Seq<HexAddress>, usize)>,
    c: Seq<usize>,
    t: Seq<usize>,
    pairs: Seq<(Train, usize, usize, Vec<TrainStop>)>,
) -> bool {
    &&& pairs.len() == c.len()
    &&& forall|i: int|
        0 <= i < c.len() ==> {
            let train = trains[t[i] as int];
            &&& (#[trigger] pairs[i]).0 == train
            &&& pairs[i].1 == c[i]
            &&& pairs[i].2 == earns(paths, vb, cb, c[i] as int, train)->0
            &&& pairs[i].3@ == train_stops(
                paths[c[i] as int].visits@,
                stops_for(paths, vb, cb, c[i] as int, train)->0,
                vb,
                cb,
                train.revenue_multiplier as int,
            )
        }
}

/// Allocations that give the same train to each path earn the same revenue.
proof fn lemma_same_trains(
    paths: Seq<Path>,
    trains: Seq<Train>,
    vb: Map<HexAddress, usize>,
    cb: Map<HexAddress, (Seq<HexAddress>, usize)>,
    c: Seq<usize>,
    t: Seq<usize>,
    y: Seq<usize>,
    m: int,
)
    requires
        0 <= m <= c.len(),
        c.len() == t.len(),
        c.len() == y.len(),
        forall|i: int| 0 <= i < c.len() ==> trains[t[i] as int] == trains[y[i] as int],
    ensures
        assignment_total(paths, trains, vb, cb, c, t, m) == assignment_total(paths, trains, vb, cb, c, y, m),
        can_operate(paths, trains, vb, cb, c, t) == can_operate(paths, trains, vb, cb, c, y),
    decreases m,
{
    if m > 0 {
        lemma_same_trains(paths, trains, vb, cb, c, t, y, m - 1);
    }
    assert(can_operate(paths, trains, vb, cb, c, t) ==> can_operate(paths, trains, vb, cb, c, y)) by {
        if can_operate(paths, trains, vb, cb, c, t) {
            assert forall|i: int| 0 <= i < c.len() implies (#[trigger] earns(paths, vb, cb, c[i] as int, trains[y[i] as int])) is Some by {
                assert(earns(paths, vb, cb, c[i] as int, trains[t[i] as int]) is Some);
            }
        }
    }
    assert(can_operate(paths, trains, vb, cb, c, y) ==> can_operate(paths, trains, vb, cb, c, t)) by {
        if can_operate(paths, trains, vb, cb, c, y) {
            assert forall|i: int| 0 <= i < c.len() implies (#[trigger] earns(paths, vb, cb, c[i] as int, trains[t[i] as int])) is Some by {
                assert(earns(paths, vb, cb, c[i] as int, trains[y[i] as int]) is Some);
            }
        }
    }
}


impl Trains {
    /// The table `rev` holds, for each path and each distinct train, the
    /// revenue and stops that `revenue_for` gives.
    spec fn table_ok(
        self,
        rev: Seq<Vec<Option<(usize, Vec<TrainStop>)>>>,
        paths: Seq<Path>,
        vb: Map<HexAddress, usize>,
        cb: Map<HexAddress, (Seq<HexAddress>, usize)>,
    ) -> bool {
        &&& rev.len() == paths.len()
        &&& forall|p: int|
            0 <= p < paths.len() ==> (#[trigger] rev[p])@.len() == self.classes@.len() && forall|cl: int|
                0 <= cl < self.classes@.len() ==> entry_ok(paths, vb, cb, p, self.classes@[cl], #[trigger] rev[p]@[cl])
    }

    /// Returns the allocation of trains to the paths `path_ixs`, one train
    /// each, that earns the most revenue, if any allocation is possible.
    fn best_pairing_for(
        &self,
        revenue: &Vec<Vec<Option<(usize, Vec<TrainStop>)>>>,
        path_ixs: &Vec<usize>,
        paths: Ghost<Seq<Path>>,
        vb: Ghost<Map<HexAddress, usize>>,
        cb: Ghost<Map<HexAddress, (Seq<HexAddress>, usize)>>,
    ) -> (r: Option<(usize, Vec<(Train, usize, usize, Vec<TrainStop>)>)>)
        requires
            self.table_ok(revenue@, paths@, vb@, cb@),
            is_combination(path_ixs@, paths@.len() as int, self@.len() as int),
            forall|t: Seq<usize>|
                is_k_permutation(t, self@.len() as int, path_ixs@.len() as int) ==> #[trigger] assignment_total(
                    paths@,
                    self@,
                    vb@,
                    cb@,
                    path_ixs@,
                    t,
                    path_ixs@.len() as int,
                ) <= usize::MAX,
        ensures
            match r {
                None => forall|t: Seq<usize>|
                    is_k_permutation(t, self@.len() as int, path_ixs@.len() as int) ==> !can_operate(
                        paths@,
                        self@,
                        vb@,
                        cb@,
                        path_ixs@,
                        t,
                    ),
                Some(x) => {
                    &&& exists|t: Seq<usize>|
                        is_k_permutation(t, self@.len() as int, path_ixs@.len() as int) && can_operate(
                            paths@,
                            self@,
                            vb@,
                            cb@,
                            path_ixs@,
                            t,
                        ) && x.0 == assignment_total(paths@, self@, vb@, cb@, path_ixs@, t, path_ixs@.len() as int)
                            && pairing_of(paths@, self@, vb@, cb@, path_ixs@, t, x.1@)
                    &&& forall|t: Seq<usize>|
                        is_k_permutation(t, self@.len() as int, path_ixs@.len() as int) && can_operate(
                            paths@,
                            self@,
                            vb@,
                            cb@,
                            path_ixs@,
                            t,
                        ) ==> assignment_total(paths@, self@, vb@, cb@, path_ixs@, t, path_ixs@.len() as int)
                            <= x.0
                },
            },
    {
        proof {
            use_type_invariant(self);
        }
        let ghost trains = self.train_vec@;
        let ghost c = path_ixs@;
        let ghost nt = trains.len() as int;
        let num_paths = path_ixs.len();
        let ghost k = num_paths as int;
        // NOTE: we only need to consider pairings that allocate a train to
        // each path, we can ignore smaller combinations.
        // NOTE: we need train *permutations*, rather than combinations,
        // because the ordering matters. But we can also ignore permutations
        // that don't change the ordering of *train types*.
        let classes = self.train_classes.clone();
        assert(classes@ =~= self.train_classes@);
        let mut train_combinations = KPermutationsFilter::new(classes, num_paths);
        let mut best: Option<(usize, Vec<(Train, usize, usize, Vec<TrainStop>)>)> = None;
        loop
            invariant
                self.table_ok(revenue@, paths@, vb@, cb@),
                trains == self.train_vec@,
                c == path_ixs@,
                k == c.len(),
                num_paths == path_ixs@.len(),
                nt == trains.len(),
                is_combination(c, paths@.len() as int, nt),
                forall|t: Seq<usize>|
                    is_k_permutation(t, nt, k) ==> #[trigger] assignment_total(paths@, trains, vb@, cb@, c, t, k)
                        <= usize::MAX,
                train_combinations.wf(),
                train_combinations.classes() == self.train_classes@,
                train_combinations.perms().length() == k,
                forall|q: Seq<usize>|
                    #[trigger] train_combinations.perms().remaining().contains(q) ==> is_k_permutation(q, nt, k),
                forall|q: Seq<usize>|
                    is_k_permutation(q, nt, k) && !train_combinations.perms().remaining().contains(q)
                        ==> #[trigger] train_combinations.seen().contains(class_seq(self.train_classes@, q)),
                forall|cs: Seq<usize>|
                    #[trigger] train_combinations.seen().contains(cs) ==> exists|y: Seq<usize>|
                        is_k_permutation(y, nt, k) && class_seq(self.train_classes@, y) == cs && (can_operate(
                            paths@,
                            trains,
                            vb@,
                            cb@,
                            c,
                            y,
                        ) ==> best is Some && assignment_total(paths@, trains, vb@, cb@, c, y, k) <= (best->0).0),
                best matches Some(b) ==> exists|y: Seq<usize>|
                    is_k_permutation(y, nt, k) && can_operate(paths@, trains, vb@, cb@, c, y) && b.0
                        == assignment_total(paths@, trains, vb@, cb@, c, y, k) && pairing_of(
                        paths@,
                        trains,
                        vb@,
                        cb@,
                        c,
                        y,
                        b.1@,
                    ),
            decreases train_combinations.perms().progress(),
        {
            let ghost seen_before = train_combinations.seen();
            let ghost rem_before = train_combinations.perms().remaining();
            let ghost best_before = best;
            match train_combinations.next() {
                None => {
                    proof {
                        use_type_invariant(self);
                        assert forall|t: Seq<usize>|
                            is_k_permutation(t, nt, k) && can_operate(paths@, trains, vb@, cb@, c, t) implies best
                            is Some && assignment_total(paths@, trains, vb@, cb@, c, t, k) <= (best->0).0 by {
                            let cs = class_seq(self.train_classes@, t);
                            assert(train_combinations.seen().contains(cs));
                            let y = choose|y: Seq<usize>|
                                is_k_permutation(y, nt, k) && class_seq(self.train_classes@, y) == cs && (can_operate(
                                    paths@,
                                    trains,
                                    vb@,
                                    cb@,
                                    c,
                                    y,
                                ) ==> best is Some && assignment_total(paths@, trains, vb@, cb@, c, y, k) <= (best->0).0);
                            assert forall|i: int| 0 <= i < c.len() implies trains[t[i] as int] == trains[y[i] as int] by {
                                assert(class_seq(self.train_classes@, y)[i] == class_seq(self.train_classes@, t)[i]);
                                assert(self.train_classes@[y[i] as int] == self.train_classes@[t[i] as int]);
                                assert(self.classes@[self.train_classes@[y[i] as int] as int] == trains[y[i] as int]);
                                assert(self.classes@[self.train_classes@[t[i] as int] as int] == trains[t[i] as int]);
                            }
                            lemma_same_trains(paths@, trains, vb@, cb@, c, t, y, k);
                        }
                        if best is None {
                            assert forall|t: Seq<usize>|
                                is_k_permutation(t, self@.len() as int, path_ixs@.len() as int) implies !can_operate(
                                    paths@,
                                    self@,
                                    vb@,
                                    cb@,
                                    path_ixs@,
                                    t,
                                ) by {
                                if can_operate(paths@, trains, vb@, cb@, c, t) {
                                    assert(best is Some);
                                }
                            }
                        }
                        if best is Some {
                            let b = best->0;
                            let y = choose|y: Seq<usize>|
                                is_k_permutation(y, nt, k) && can_operate(paths@, trains, vb@, cb@, c, y) && b.0
                                    == assignment_total(paths@, trains, vb@, cb@, c, y, k) && pairing_of(
                                    paths@,
                                    trains,
                                    vb@,
                                    cb@,
                                    c,
                                    y,
                                    b.1@,
                                );
                            assert(is_k_permutation(y, self@.len() as int, path_ixs@.len() as int));
                            assert(can_operate(paths@, self@, vb@, cb@, path_ixs@, y));
                            assert(b.0 == assignment_total(paths@, self@, vb@, cb@, path_ixs@, y, path_ixs@.len() as int));
                            assert(pairing_of(paths@, self@, vb@, cb@, path_ixs@, y, b.1@));
                            assert(forall|t: Seq<usize>|
                                is_k_permutation(t, self@.len() as int, path_ixs@.len() as int) && can_operate(
                                    paths@,
                                    self@,
                                    vb@,
                                    cb@,
                                    path_ixs@,
                                    t,
                                ) ==> assignment_total(paths@, self@, vb@, cb@, path_ixs@, t, path_ixs@.len() as int)
                                    <= b.0);
                        }
                    }
                    return best;
                },
                Some(train_ixs) => {
                    let ghost t = train_ixs@;
                    // The revenue earned by each train on its path, if it can
                    // operate it.
                    let mut all_ok = true;
                    let mut net_revenue: usize = 0;
                    let mut pairs: Vec<(Train, usize, usize, Vec<TrainStop>)> = Vec::new();
                    let mut i: usize = 0;
                    proof {
                        lemma_total_mono(paths@, trains, vb@, cb@, c, t, 0, k);
                    }
                    while i < num_paths
                        invariant
                            i <= num_paths,
                            num_paths == k,
                            k == c.len(),
                            nt == trains.len(),
                            self.table_ok(revenue@, paths@, vb@, cb@),
                            trains == self.train_vec@,
                            c == path_ixs@,
                            is_combination(c, paths@.len() as int, nt),
                            is_k_permutation(t, nt, k),
                            train_ixs@ == t,
                            assignment_total(paths@, trains, vb@, cb@, c, t, k) <= usize::MAX,
                            net_revenue == assignment_total(paths@, trains, vb@, cb@, c, t, i as int),
                            all_ok == forall|j: int|
                                0 <= j < i ==> (#[trigger] earns(paths@, vb@, cb@, c[j] as int, trains[t[j] as int])) is Some,
                            all_ok ==> pairs@.len() == i && forall|j: int|
                                0 <= j < i ==> {
                                    let train = trains[t[j] as int];
                                    &&& (#[trigger] pairs@[j]).0 == train
                                    &&& pairs@[j].1 == c[j]
                                    &&& pairs@[j].2 == earns(paths@, vb@, cb@, c[j] as int, train)->0
                                    &&& pairs@[j].3@ == train_stops(
                                        paths@[c[j] as int].visits@,
                                        stops_for(paths@, vb@, cb@, c[j] as int, train)->0,
                                        vb@,
                                        cb@,
                                        train.revenue_multiplier as int,
                                    )
                                },
                        decreases num_paths - i,
                    {
                        proof {
                            use_type_invariant(self);
                            lemma_total_mono(paths@, trains, vb@, cb@, c, t, i + 1, k);
                        }
                        let train_ix = train_ixs[i];
                        let path_ix = path_ixs[i];
                        let cl = self.train_classes[train_ix];
                        let train = self.train_vec[train_ix];
                        match &revenue[path_ix][cl] {
                            Some(entry) => {
                                net_revenue = net_revenue + entry.0;
                                if all_ok {
                                    let stops = entry.1.clone();
                                    assert(stops@ =~= entry.1@);
                                    pairs.push((train, path_ix, entry.0, stops));
                                }
                            },
                            None => {
                                all_ok = false;
                            },
                        }
                        i = i + 1;
                    }
                    if all_ok {
                        proof {
                            assert(can_operate(paths@, trains, vb@, cb@, c, t));
                            assert(pairing_of(paths@, trains, vb@, cb@, c, t, pairs@));
                        }
                        let better = match &best {
                            None => true,
                            Some(b) => net_revenue >= b.0,
                        };
                        if better {
                            best = Some((net_revenue, pairs));
                        }
                    }
                    proof {
                        let cs = class_seq(self.train_classes@, t);
                        assert forall|q: Seq<usize>|
                            is_k_permutation(q, nt, k) && !train_combinations.perms().remaining().contains(q)
                                implies #[trigger] train_combinations.seen().contains(class_seq(self.train_classes@, q)) by {
                            if rem_before.contains(q) {
                                if q != t {
                                    assert(yields_before(k, q, t));
                                }
                            }
                        }
                        assert forall|cs2: Seq<usize>|
                            #[trigger] train_combinations.seen().contains(cs2) implies exists|y: Seq<usize>|
                                is_k_permutation(y, nt, k) && class_seq(self.train_classes@, y) == cs2 && (can_operate(
                                    paths@,
                                    trains,
                                    vb@,
                                    cb@,
                                    c,
                                    y,
                                ) ==> best is Some && assignment_total(paths@, trains, vb@, cb@, c, y, k) <= (best->0).0) by {
                            if cs2 == cs {
                                assert(class_seq(self.train_classes@, t) == cs2);
                            } else {
                                assert(seen_before.contains(cs2));
                                let y = choose|y: Seq<usize>|
                                    is_k_permutation(y, nt, k) && class_seq(self.train_classes@, y) == cs2 && (can_operate(
                                        paths@,
                                        trains,
                                        vb@,
                                        cb@,
                                        c,
                                        y,
                                    ) ==> best_before is Some && assignment_total(paths@, trains, vb@, cb@, c, y, k)
                                        <= (best_before->0).0);
                                assert(class_seq(self.train_classes@, y) == cs2);
                            }
                        }
                    }
                },
            }
        }
    }
}

/// The revenue of the first allocations is no more than that of all of them.
proof fn lemma_total_mono(
    paths: Seq<Path>,
    trains: Seq<Train>,
    vb: Map<HexAddress, usize>,
    cb: Map<HexAddress, (Seq<HexAddress>, usize)>,
    c: Seq<usize>,
    t: Seq<usize>,
    m1: int,
    m2: int,
)
    requires
        0 <= m1 <= m2,
    ensures
        0 <= assignment_total(paths, trains, vb, cb, c, t, m1) <= assignment_total(paths, trains, vb, cb, c, t, m2),
    decreases m2,
{
    if m2 > 0 {
        if m1 < m2 {
            lemma_total_mono(paths, trains, vb, cb, c, t, m1, m2 - 1);
        } else {
            lemma_total_mono(paths, trains, vb, cb, c, t, m2 - 1, m2 - 1);
        }
        let e = earns(paths, vb, cb, c[m2 - 1] as int, trains[t[m2 - 1] as int]);
        if e is Some {
            let s = stops_for(paths, vb, cb, c[m2 - 1] as int, trains[t[m2 - 1] as int])->0;
            lemma_stops_nonneg(paths[c[m2 - 1] as int].visits@, s, vb, cb, trains[t[m2 - 1] as int].revenue_multiplier as int, s.len() as int);
        }
    }
}

/// The revenue of any stops is not negative.
proof fn lemma_stops_nonneg(
    visits: Seq<Visit>,
    stop_ixs: Seq<usize>,
    vb: Map<HexAddress, usize>,
    cb: Map<HexAddress, (Seq<HexAddress>, usize)>,
    mult: int,
    m: int,
)
    requires
        mult >= 0,
    ensures
        stops_revenue(visits, stop_ixs, vb, cb, mult, m) >= 0,
    decreases m,
{
    if m > 0 {
        lemma_stops_nonneg(visits, stop_ixs, vb, cb, mult, m - 1);
        let r = stop_revenue(visits, stop_ixs, vb, cb, stop_ixs[m - 1] as int);
        assert(visits[stop_ixs[m - 1] as int].revenue >= 0);
        assert(r >= 0);
        assert(r * mult >= 0) by (nonlinear_arith)
            requires
                r >= 0,
                mult >= 0,
        ;
    }
}


/// The revenue earned by the first of `stops` at visit `ix`, or zero when
/// the train does not stop there.
pub open spec fn stop_revenue_at(stops: Seq<TrainStop>, ix: int) -> int
    decreases stops.len(),
{
    if stops.len() == 0 {
        0
    } else if stops[0].visit_ix == ix {
        stops[0].revenue as int
    } else {
        stop_revenue_at(stops.drop_first(), ix)
    }
}

/// The visits of a path, each with the revenue that the train earns there:
/// zero at the visits that it skips.
pub open spec fn marked_visits(visits: Seq<Visit>, stops: Seq<TrainStop>) -> Seq<Visit> {
    Seq::new(
        visits.len(),
        |ix: int|
            Visit { addr: visits[ix].addr, revenue: stop_revenue_at(stops, ix) as usize, visits: visits[ix].visits },
    )
}

/// Train route `i` of `routes` is train `trains[t[i]]` operating path
/// `paths[c[i]]`, with the revenue it earns and the revenue of each visit.
pub open spec fn routes_of(
    paths: Seq<Path>,
    trains: Seq<Train>,
    vb: Map<HexAddress, usize>,
    cb: Map<HexAddress, (Seq<HexAddress>, usize)>,
    c: Seq<usize>,
    t: Seq<usize>,
    routes: Seq<TrainRoute>,
) -> bool {
    &&& routes.len() == c.len()
    &&& forall|i: int|
        0 <= i < c.len() ==> {
            let train = trains[t[i] as int];
            let p = c[i] as int;
            &&& (#[trigger] routes[i]).train == train
            &&& routes[i].revenue == earns(paths, vb, cb, p, train)->0
            &&& routes[i].route.steps@ == paths[p].steps@
            &&& routes[i].route.visits@ == marked_visits(
                paths[p].visits@,
                train_stops(paths[p].visits@, stops_for(paths, vb, cb, p, train)->0, vb, cb, train.revenue_multiplier as int),
            )
        }
}

/// Returns the route that a train operates along a path, making the given
/// stops: each visit is marked with the revenue earned there.
fn route_for(path: &Path, stops: &Vec<TrainStop>) -> (r: Route)
    ensures
        r.steps@ == path.steps@,
        r.visits@ == marked_visits(path.visits@, stops@),
{
    let steps = path.steps.clone();
    assert(steps@ =~= path.steps@);
    let mut visits: Vec<Visit> = Vec::new();
    let mut ix: usize = 0;
    while ix < path.visits.len()
        invariant
            ix <= path.visits@.len(),
            visits@ == marked_visits(path.visits@, stops@).take(ix as int),
        decreases path.visits@.len() - ix,
    {
        let v = path.visits[ix];
        // NOTE: the first and last visit are always stopped at, but their
        // revenue may change due to bonuses.
        let mut revenue: usize = 0;
        let mut found = false;
        let mut k: usize = 0;
        assert(stops@.skip(0) =~= stops@);
        while k < stops.len() && !found
            invariant
                k <= stops@.len(),
                !found ==> revenue == 0 && stop_revenue_at(stops@, ix as int) == stop_revenue_at(
                    stops@.skip(k as int),
                    ix as int,
                ),
                found ==> revenue == stop_revenue_at(stops@, ix as int),
            decreases stops@.len() - k + if found {
                0int
            } else {
                1int
            },
        {
            if stops[k].visit_ix == ix {
                assert(stops@.skip(k as int)[0] == stops@[k as int]);
                revenue = stops[k].revenue;
                found = true;
            } else {
                assert(stops@.skip(k as int).drop_first() =~= stops@.skip(k + 1));
                k = k + 1;
            }
        }
        proof {
            if !found {
                assert(stops@.skip(k as int).len() == 0);
            }
        }
        visits.push(Visit { addr: v.addr, revenue, visits: v.visits });
        ix = ix + 1;
        assert(visits@ =~= marked_visits(path.visits@, stops@).take(ix as int));
    }
    assert(visits@ =~= marked_visits(path.visits@, stops@));
    Route { steps, visits }
}


impl Trains {
    /// Returns a pairing of trains to routes that earns the most revenue.
    ///
    /// The routes are operated along paths that do not conflict with each
    /// other, each by a different train, and no pairing of the company's
    /// trains to such paths earns more. There is no pairing when no train
    /// can operate any of the paths.
    pub fn select_routes(&self, path_tbl: Vec<Path>, bonuses: Vec<Bonus>) -> (r: Option<Routes>)
        requires
            forall|p: int, train: Train|
                0 <= p < path_tbl@.len() && #[trigger] self@.contains(train) ==> revenue_fits(
                    train,
                    (#[trigger] path_tbl@[p]).visits@,
                    path_tbl@[p].num_visits as int,
                    visit_bonus_map(bonuses@),
                    connection_bonus_map(bonuses@),
                ),
            forall|c: Seq<usize>, t: Seq<usize>|
                is_combination(c, path_tbl@.len() as int, self@.len() as int) && admissible(
                    conflict_relation(path_tbl@),
                    c,
                ) && is_k_permutation(t, self@.len() as int, c.len() as int) ==> #[trigger] assignment_total(
                    path_tbl@,
                    self@,
                    visit_bonus_map(bonuses@),
                    connection_bonus_map(bonuses@),
                    c,
                    t,
                    c.len() as int,
                ) <= usize::MAX,
        ensures
            ({
                let vb = visit_bonus_map(bonuses@);
                let cb = connection_bonus_map(bonuses@);
                match r {
                    None => forall|c: Seq<usize>, t: Seq<usize>|
                        !#[trigger] valid_assignment(path_tbl@, self@, vb, cb, c, t),
                    Some(routes) => {
                        &&& exists|c: Seq<usize>, t: Seq<usize>|
                            #[trigger] valid_assignment(path_tbl@, self@, vb, cb, c, t) && routes.net_revenue
                                == assignment_total(path_tbl@, self@, vb, cb, c, t, c.len() as int) && routes_of(
                                path_tbl@,
                                self@,
                                vb,
                                cb,
                                c,
                                t,
                                routes.train_routes@,
                            )
                        &&& forall|c: Seq<usize>, t: Seq<usize>|
                            #[trigger] valid_assignment(path_tbl@, self@, vb, cb, c, t) ==> assignment_total(
                                path_tbl@,
                                self@,
                                vb,
                                cb,
                                c,
                                t,
                                c.len() as int,
                            ) <= routes.net_revenue
                    },
                }
            }),
    {
        proof {
            use_type_invariant(self);
        }
        let ghost paths = path_tbl@;
        let ghost trains = self.train_vec@;
        let num_paths = path_tbl.len();
        let num_trains = self.train_count();
        // Index the visit bonuses and the connection bonuses by location.
        let (visit_bonuses, connect_bonuses) = bonus_tables(&bonuses);
        let ghost vb = visit_bonuses.view();
        let ghost cb = connection_view(connect_bonuses.view());
        // Build a table that maps each path (identified by index) and each
        // distinct train to the revenue it earns.
        let mut rev: Vec<Vec<Option<(usize, Vec<TrainStop>)>>> = Vec::new();
        let mut p: usize = 0;
        while p < num_paths
            invariant
                p <= num_paths,
                num_paths == paths.len(),
                paths == path_tbl@,
                trains == self.train_vec@,
                vb == visit_bonuses.view(),
                cb == connection_view(connect_bonuses.view()),
                vb == visit_bonus_map(bonuses@),
                cb == connection_bonus_map(bonuses@),
                forall|q: int, train: Train|
                    0 <= q < paths.len() && #[trigger] self@.contains(train) ==> revenue_fits(
                        train,
                        (#[trigger] paths[q]).visits@,
                        paths[q].num_visits as int,
                        vb,
                        cb,
                    ),
                rev@.len() == p,
                forall|q: int|
                    0 <= q < p ==> (#[trigger] rev@[q])@.len() == self.classes@.len() && forall|cl: int|
                        0 <= cl < self.classes@.len() ==> entry_ok(paths, vb, cb, q, self.classes@[cl], #[trigger] rev@[q]@[cl]),
            decreases num_paths - p,
        {
            proof {
                use_type_invariant(self);
            }
            let mut row: Vec<Option<(usize, Vec<TrainStop>)>> = Vec::new();
            let mut cl: usize = 0;
            while cl < self.classes.len()
                invariant
                    cl <= self.classes@.len(),
                    p < paths.len(),
                    paths == path_tbl@,
                    vb == visit_bonuses.view(),
                    cb == connection_view(connect_bonuses.view()),
                    forall|q: int, train: Train|
                        0 <= q < paths.len() && #[trigger] self@.contains(train) ==> revenue_fits(
                            train,
                            (#[trigger] paths[q]).visits@,
                            paths[q].num_visits as int,
                            vb,
                            cb,
                        ),
                    forall|c: int| 0 <= c < self.classes@.len() ==> self.train_vec@.contains(#[trigger] self.classes@[c]),
                    row@.len() == cl,
                    forall|j: int| 0 <= j < cl ==> entry_ok(paths, vb, cb, p as int, self.classes@[j], #[trigger] row@[j]),
                decreases self.classes@.len() - cl,
            {
                let train = self.classes[cl];
                proof {
                    assert(self@.contains(self.classes@[cl as int]));
                    assert(revenue_fits(train, paths[p as int].visits@, paths[p as int].num_visits as int, vb, cb));
                }
                let e = train.revenue_for(&path_tbl[p], &visit_bonuses, &connect_bonuses);
                row.push(e);
                cl = cl + 1;
            }
            rev.push(row);
            p = p + 1;
        }
        proof {
            assert(self.table_ok(rev@, paths, vb, cb));
        }
        // Record the pairs of paths that conflict, and which therefore cannot
        // be operated at the same time.
        let path_ref = &path_tbl;
        let n = num_paths;
        let filter = |a: usize, b: usize| -> (r: bool)
            ensures
                r == conflicting(path_ref@, a, b),
            {
                a < n && b < n && !path_ref[a].route_conflicts.is_disjoint(&path_ref[b].route_conflicts)
            };
        let mut combs = CombinationsFilter::with_relation(
            num_paths,
            num_trains,
            filter,
            Ghost(conflict_relation(paths)),
        );
        let ghost all_combs = combs.remaining();
        // Find the pairing of trains to path combinations that earns the most
        // revenue.
        let mut best: Option<(usize, Vec<(Train, usize, usize, Vec<TrainStop>)>)> = None;
        let mut done = false;
        while !done
            invariant
                paths == path_tbl@,
                trains == self.train_vec@,
                num_paths == paths.len(),
                num_trains == trains.len(),
                vb == visit_bonus_map(bonuses@),
                cb == connection_bonus_map(bonuses@),
                self.table_ok(rev@, paths, vb, cb),
                forall|c: Seq<usize>, t: Seq<usize>|
                    is_combination(c, paths.len() as int, trains.len() as int) && admissible(conflict_relation(paths), c)
                        && is_k_permutation(t, trains.len() as int, c.len() as int) ==> #[trigger] assignment_total(
                        paths,
                        trains,
                        vb,
                        cb,
                        c,
                        t,
                        c.len() as int,
                    ) <= usize::MAX,
                combs.wf(),
                combs.relation() == conflict_relation(paths),
                combs.count() == num_paths,
                combs.k_max() == num_trains,
                all_combs == Set::new(
                    |s: Seq<usize>|
                        is_combination(s, num_paths as int, num_trains as int) && admissible(conflict_relation(paths), s),
                ),
                forall|c: Seq<usize>| #[trigger] combs.remaining().contains(c) ==> all_combs.contains(c),
                done ==> combs.remaining() == Set::<Seq<usize>>::empty(),
                forall|c: Seq<usize>, t: Seq<usize>|
                    #[trigger] valid_assignment(paths, trains, vb, cb, c, t) && !combs.remaining().contains(c) ==> best
                        is Some && assignment_total(paths, trains, vb, cb, c, t, c.len() as int) <= (best->0).0,
                best matches Some(b) ==> exists|c: Seq<usize>, t: Seq<usize>|
                    #[trigger] valid_assignment(paths, trains, vb, cb, c, t) && b.0 == assignment_total(
                        paths,
                        trains,
                        vb,
                        cb,
                        c,
                        t,
                        c.len() as int,
                    ) && pairing_of(paths, trains, vb, cb, c, t, b.1@),
            decreases combs.remaining().len() + if done {
                0int
            } else {
                1int
            },
        {
            proof {
                combs.lemma_remaining_finite();
            }
            let ghost rem_before = combs.remaining();
            let ghost best_before = best;
            match combs.next() {
                None => {
                    done = true;
                },
                Some(path_ixs) => {
                    let ghost c = path_ixs@;
                    let pairing = self.best_pairing_for(&rev, &path_ixs, Ghost(paths), Ghost(vb), Ghost(cb));
                    match pairing {
                        None => {},
                        Some(x) => {
                            let better = match &best {
                                None => true,
                                Some(b) => x.0 >= b.0,
                            };
                            if better {
                                best = Some(x);
                            }
                        },
                    }
                    proof {
                        assert forall|c2: Seq<usize>, t: Seq<usize>|
                            #[trigger] valid_assignment(paths, trains, vb, cb, c2, t) && !combs.remaining().contains(c2)
                                implies best is Some && assignment_total(paths, trains, vb, cb, c2, t, c2.len() as int)
                                <= (best->0).0 by {
                            if c2 != c {
                                assert(!rem_before.contains(c2));
                            }
                        }
                        if best is Some && best != best_before {
                            let b = best->0;
                            let t = choose|t: Seq<usize>|
                                is_k_permutation(t, trains.len() as int, c.len() as int) && can_operate(
                                    paths,
                                    trains,
                                    vb,
                                    cb,
                                    c,
                                    t,
                                ) && b.0 == assignment_total(paths, trains, vb, cb, c, t, c.len() as int) && pairing_of(
                                    paths,
                                    trains,
                                    vb,
                                    cb,
                                    c,
                                    t,
                                    b.1@,
                                );
                            assert(valid_assignment(paths, trains, vb, cb, c, t));
                        }
                    }
                },
            }
        }
        match best {
            None => {
                proof {
                    assert forall|c: Seq<usize>, t: Seq<usize>| !#[trigger] valid_assignment(paths, trains, vb, cb, c, t) by {
                        if valid_assignment(paths, trains, vb, cb, c, t) {
                            assert(!combs.remaining().contains(c));
                        }
                    }
                }
                None
            },
            Some(b) => {
                let net_revenue = b.0;
                let pairings = b.1;
                let ghost (c, t) = choose|c: Seq<usize>, t: Seq<usize>|
                    #[trigger] valid_assignment(paths, trains, vb, cb, c, t) && net_revenue == assignment_total(
                        paths,
                        trains,
                        vb,
                        cb,
                        c,
                        t,
                        c.len() as int,
                    ) && pairing_of(paths, trains, vb, cb, c, t, pairings@);
                // Replace the path indices with the actual paths, marking each
                // visit with the revenue earned there.
                let mut train_routes: Vec<TrainRoute> = Vec::new();
                let mut i: usize = 0;
                while i < pairings.len()
                    invariant
                        i <= pairings@.len(),
                        paths == path_tbl@,
                        pairing_of(paths, trains, vb, cb, c, t, pairings@),
                        is_combination(c, paths.len() as int, trains.len() as int),
                        train_routes@.len() == i,
                        forall|j: int|
                            0 <= j < i ==> {
                                let train = trains[t[j] as int];
                                let p = c[j] as int;
                                &&& (#[trigger] train_routes@[j]).train == train
                                &&& train_routes@[j].revenue == earns(paths, vb, cb, p, train)->0
                                &&& train_routes@[j].route.steps@ == paths[p].steps@
                                &&& train_routes@[j].route.visits@ == marked_visits(
                                    paths[p].visits@,
                                    train_stops(
                                        paths[p].visits@,
                                        stops_for(paths, vb, cb, p, train)->0,
                                        vb,
                                        cb,
                                        train.revenue_multiplier as int,
                                    ),
                                )
                            },
                    decreases pairings@.len() - i,
                {
                    let pair = &pairings[i];
                    assert(pairings@[i as int] == *pair);
                    let route = route_for(&path_tbl[pair.1], &pair.3);
                    train_routes.push(TrainRoute { train: pair.0, revenue: pair.2, route });
                    i = i + 1;
                }
                let routes = Routes { net_revenue, train_routes };
                proof {
                    assert(routes_of(paths, trains, vb, cb, c, t, routes.train_routes@));
                }
                Some(routes)
            },
        }
    }
}

} // verus!
