//! Trains described by which stops they may skip, and the revenue they earn
//! for operating paths.
use vstd::prelude::*;
use crate::hex::HexAddress;
use crate::path::{Path, StopLocation, Visit};
use crate::train::{all_stop_ixs, by_revenue, sort_by_revenue, BonusTable};

verus! {

/// The different types of route bonus that may be applied.
pub enum Bonus {
    /// A bonus for visiting a specific location.
    VisitBonus { locn: HexAddress, bonus: usize },
    /// A bonus for connecting one location to another location.
    ConnectionBonus { from: HexAddress, to_any: Vec<HexAddress>, bonus: usize },
}

/// A train, described by its stop limit, which stops it may skip, and its
/// revenue multiplier.
#[derive(Copy, Clone, Debug, PartialEq, Eq, Structural, PartialOrd, Ord, Hash)]
pub struct Train {
    max_stops: Option<usize>,
    can_skip_dits: bool,
    can_skip_cities: bool,
    revenue_multiplier: usize,
}

impl Default for Train {
    fn default() -> (t: Self)
        ensures
            t.max_stops_spec() == Some(2usize),
            t.skips_dits(),
            !t.skips_cities(),
            t.multiplier() == 1,
    {
        Train { max_stops: Some(2), can_skip_dits: true, can_skip_cities: false, revenue_multiplier: 1 }
    }
}

/// Which visits are considered: all, the cities, or the dits.
pub enum VisitKind {
    Any,
    City,
    Dit,
}

/// Whether a stop location is of the given kind.
pub open spec fn of_kind(l: StopLocation, kind: VisitKind) -> bool {
    match kind {
        VisitKind::Any => true,
        VisitKind::City => l is City,
        VisitKind::Dit => l is Dit,
    }
}

/// The visits of the given kind among visits `1` to `m - 1`, each paired with
/// its base revenue.
pub open spec fn inner_pairs(visits: Seq<Visit>, kind: VisitKind, m: int) -> Seq<(usize, usize)>
    decreases m,
{
    if m <= 1 {
        Seq::empty()
    } else {
        inner_pairs(visits, kind, m - 1) + if of_kind(visits[m - 1].visits, kind) {
            seq![((m - 1) as usize, visits[m - 1].revenue)]
        } else {
            Seq::<(usize, usize)>::empty()
        }
    }
}

/// The visits of the given kind between the first and the last, each paired
/// with its base revenue.
pub open spec fn middle_pairs(visits: Seq<Visit>, kind: VisitKind) -> Seq<(usize, usize)> {
    inner_pairs(visits, kind, visits.len() - 1)
}

/// The sum of the revenues of a list of visit-revenue pairs.
pub open spec fn pair_sum(s: Seq<(usize, usize)>) -> int
    decreases s.len(),
{
    if s.len() == 0 {
        0
    } else {
        pair_sum(s.drop_last()) + s.last().1
    }
}

/// The visit indices of a list of visit-revenue pairs.
pub open spec fn pair_ixs(s: Seq<(usize, usize)>) -> Seq<usize> {
    s.map_values(|p: (usize, usize)| p.0)
}

/// The `n` visits of `kind` between the first and the last that earn the
/// most revenue (or all of them, when there are fewer).
pub open spec fn top_pairs(visits: Seq<Visit>, kind: VisitKind, n: int) -> Seq<(usize, usize)> {
    let r = by_revenue(middle_pairs(visits, kind));
    r.take(if n < r.len() {
        n
    } else {
        r.len() as int
    })
}

impl Train {
    /// The maximum number of stops, if any.
    pub closed spec fn max_stops_spec(self) -> Option<usize> {
        self.max_stops
    }

    /// Whether the train may skip dits.
    pub closed spec fn skips_dits(self) -> bool {
        self.can_skip_dits
    }

    /// Whether the train may skip cities.
    pub closed spec fn skips_cities(self) -> bool {
        self.can_skip_cities
    }

    /// The multiplier applied to the revenue of each stop.
    pub closed spec fn multiplier(self) -> usize {
        self.revenue_multiplier
    }

    /// The revenue (before the multiplier) and the stops that the train
    /// makes along a path, if it can operate the path.
    ///
    /// A train that may skip both dits and cities stops at the first and last
    /// visits and at the intermediate visits that earn the most revenue. A
    /// train that may skip only dits stops at every city and at the dits that
    /// earn the most revenue, and one that may skip only cities does the
    /// converse; for these, the returned stops are the intermediate ones.
    /// Other trains stop at every visit.
    pub open spec fn plan(self, visits: Seq<Visit>, num_visits: int, num_cities: int, num_dits: int, revenue: int) -> Option<(int, Seq<usize>)> {
        match self.max_stops_spec() {
            None => Some((revenue, all_stop_ixs(visits.len() as int))),
            Some(m) => if self.skips_cities() && self.skips_dits() {
                let stops = top_pairs(visits, VisitKind::Any, m - 2);
                Some((visits[0].revenue + visits.last().revenue + pair_sum(stops), pair_ixs(stops)))
            } else if self.skips_dits() {
                if num_cities <= m {
                    let first = if visits[0].visits is Dit { 1int } else { 0 };
                    let last = if visits.last().visits is Dit { 1int } else { 0 };
                    if m - num_cities < first + last {
                        None
                    } else {
                        let dits = top_pairs(visits, VisitKind::Dit, m - num_cities - first - last);
                        let cities = middle_pairs(visits, VisitKind::City);
                        Some((pair_sum(cities) + pair_sum(dits) + visits[0].revenue + visits.last().revenue,
                            pair_ixs(dits) + pair_ixs(cities)))
                    }
                } else {
                    None
                }
            } else if self.skips_cities() {
                if num_dits <= m {
                    let first = if visits[0].visits is City { 1int } else { 0 };
                    let last = if visits.last().visits is City { 1int } else { 0 };
                    if m - num_dits < first + last {
                        None
                    } else {
                        let cities = top_pairs(visits, VisitKind::City, m - num_dits - first - last);
                        let dits = middle_pairs(visits, VisitKind::Dit);
                        Some((pair_sum(cities) + pair_sum(dits) + visits[0].revenue + visits.last().revenue,
                            pair_ixs(cities) + pair_ixs(dits)))
                    }
                } else {
                    None
                }
            } else if num_visits <= m {
                Some((revenue, all_stop_ixs(visits.len() as int)))
            } else {
                None
            },
        }
    }
}


/// The visit indices of `inner_pairs` increase, and lie between `1` and
/// `m - 1`.
proof fn lemma_inner_pairs(visits: Seq<Visit>, kind: VisitKind, m: int)
    requires
        m <= usize::MAX,
    ensures
        forall|i: int, j: int|
            0 <= i < j < inner_pairs(visits, kind, m).len() ==> inner_pairs(visits, kind, m)[i].0
                < inner_pairs(visits, kind, m)[j].0,
        forall|i: int|
            0 <= i < inner_pairs(visits, kind, m).len() ==> 1 <= #[trigger] inner_pairs(visits, kind, m)[i].0 < m,
    decreases m,
{
    if m > 1 {
        lemma_inner_pairs(visits, kind, m - 1);
        let p = inner_pairs(visits, kind, m - 1);
        let s = inner_pairs(visits, kind, m);
        assert forall|i: int| 0 <= i < s.len() implies 1 <= #[trigger] s[i].0 < m by {
            if i < p.len() {
                assert(s[i] == p[i]);
            }
        }
        assert forall|i: int, j: int| 0 <= i < j < s.len() implies s[i].0 < s[j].0 by {
            if j < p.len() {
                assert(s[i] == p[i] && s[j] == p[j]);
            } else {
                assert(s[i] == p[i]);
                assert(p[i].0 < m - 1);
            }
        }
    }
}

impl Train {
    /// The revenues that the train computes for a path fit in a `usize`, and
    /// the path has the visits that the train reads.
    pub open spec fn fits(self, visits: Seq<Visit>, num_visits: int, num_cities: int, num_dits: int, revenue: int) -> bool {
        let mult = self.multiplier() as int;
        &&& match self.max_stops_spec() {
            None => true,
            Some(m) => if self.skips_cities() && self.skips_dits() {
                visits.len() >= 2 && m >= 2
            } else if self.skips_dits() {
                num_cities <= m ==> visits.len() >= 1
            } else if self.skips_cities() {
                num_dits <= m ==> visits.len() >= 1
            } else {
                true
            },
        }
        &&& self.plan(visits, num_visits, num_cities, num_dits, revenue) matches Some(p) ==> {
            &&& visits.len() >= 2 || self.max_stops_spec() is None || !(self.skips_cities() || self.skips_dits())
            &&& p.0 <= usize::MAX
            &&& p.0 * mult <= usize::MAX
        }
    }
}

/// Returns the visits of the given kind between the first and the last, each
/// paired with its base revenue.
fn middle(path: &Path, kind: VisitKind) -> (r: Vec<(usize, usize)>)
    requires
        path.visits@.len() >= 2,
    ensures
        r@ == middle_pairs(path.visits@, kind),
        forall|i: int, j: int| 0 <= i < j < r@.len() ==> r@[i].0 != r@[j].0,
{
    let ghost visits = path.visits@;
    let n = path.visits.len();
    let mut r: Vec<(usize, usize)> = Vec::new();
    let mut ix: usize = 1;
    while ix < n - 1
        invariant
            1 <= ix <= n - 1,
            n == visits.len(),
            n >= 2,
            visits == path.visits@,
            r@ == inner_pairs(visits, kind, ix as int),
        decreases n - 1 - ix,
    {
        let v = path.visits[ix];
        let keep = match kind {
            VisitKind::Any => true,
            VisitKind::City => v.visits.is_city(),
            VisitKind::Dit => v.visits.is_dit(),
        };
        if keep {
            r.push((ix, v.revenue));
        }
        ix = ix + 1;
    }
    proof {
        lemma_inner_pairs(visits, kind, n - 1);
    }
    r
}

/// Returns the sum of the revenues of a list of visit-revenue pairs.
fn sum_pairs(s: &Vec<(usize, usize)>) -> (t: usize)
    requires
        pair_sum(s@) <= usize::MAX,
    ensures
        t == pair_sum(s@),
{
    let mut t: usize = 0;
    let mut i: usize = 0;
    while i < s.len()
        invariant
            i <= s@.len(),
            pair_sum(s@) <= usize::MAX,
            t == pair_sum(s@.subrange(0, i as int)),
        decreases s@.len() - i,
    {
        proof {
            lemma_pair_sum_prefix(s@, i + 1);
            let pre = s@.subrange(0, i + 1);
            assert(pre.drop_last() =~= s@.subrange(0, i as int));
        }
        t = t + s[i].1;
        i = i + 1;
    }
    assert(s@.subrange(0, s@.len() as int) =~= s@);
    t
}

/// The sum over a prefix is no more than the sum over the whole list.
proof fn lemma_pair_sum_prefix(s: Seq<(usize, usize)>, m: int)
    requires
        0 <= m <= s.len(),
    ensures
        0 <= pair_sum(s.subrange(0, m)) <= pair_sum(s),
    decreases s.len(),
{
    if s.len() > 0 {
        if m == s.len() {
            assert(s.subrange(0, m) =~= s);
            lemma_pair_sum_prefix(s.drop_last(), m - 1);
        } else {
            lemma_pair_sum_prefix(s.drop_last(), m);
            assert(s.drop_last().subrange(0, m) =~= s.subrange(0, m));
        }
    }
}

/// Returns the first `n` pairs of `s` (or all of them, when there are
/// fewer).
fn take_pairs(s: &Vec<(usize, usize)>, n: usize) -> (r: Vec<(usize, usize)>)
    ensures
        r@ == s@.take(if n < s@.len() {
            n as int
        } else {
            s@.len() as int
        }),
{
    let m = if n < s.len() {
        n
    } else {
        s.len()
    };
    let mut r: Vec<(usize, usize)> = Vec::new();
    let mut i: usize = 0;
    while i < m
        invariant
            i <= m <= s@.len(),
            r@ == s@.take(i as int),
        decreases m - i,
    {
        r.push(s[i]);
        i = i + 1;
        assert(r@ =~= s@.take(i as int));
    }
    r
}

/// Returns the visit indices of a list of visit-revenue pairs.
fn ixs_of(s: &Vec<(usize, usize)>) -> (r: Vec<usize>)
    ensures
        r@ == pair_ixs(s@),
{
    let mut r: Vec<usize> = Vec::new();
    let mut i: usize = 0;
    while i < s.len()
        invariant
            i <= s@.len(),
            r@ == pair_ixs(s@.take(i as int)),
        decreases s@.len() - i,
    {
        r.push(s[i].0);
        i = i + 1;
        assert(r@ =~= pair_ixs(s@.take(i as int)));
    }
    assert(s@.take(s@.len() as int) =~= s@);
    r
}

/// Returns the `n` visits of `kind` between the first and the last that
/// earn the most revenue.
fn top(path: &Path, kind: VisitKind, n: usize) -> (r: Vec<(usize, usize)>)
    requires
        path.visits@.len() >= 2,
    ensures
        r@ == top_pairs(path.visits@, kind, n as int),
{
    let pairs = middle(path, kind);
    let sorted = sort_by_revenue(&pairs);
    take_pairs(&sorted, n)
}

/// Returns the indices `0, 1, ..., n - 1`.
fn all_ixs(n: usize) -> (v: Vec<usize>)
    ensures
        v@ == all_stop_ixs(n as int),
{
    let mut v: Vec<usize> = Vec::new();
    let mut i: usize = 0;
    while i < n
        invariant
            i <= n,
            v@ == all_stop_ixs(i as int),
        decreases n - i,
    {
        v.push(i);
        i = i + 1;
        assert(v@ =~= all_stop_ixs(i as int));
    }
    v
}


impl Train {
    /// Returns a train that stops at up to `n` locations, and may skip dits.
    fn new_n_train(n: usize) -> (t: Self)
        ensures
            t.max_stops_spec() == Some(n),
            t.skips_dits(),
            !t.skips_cities(),
            t.multiplier() == 1,
    {
        Train { max_stops: Some(n), ..Default::default() }
    }

    /// Returns a train that stops at up to 2 locations.
    pub fn new_2_train() -> (t: Self)
        ensures
            t.max_stops_spec() == Some(2usize),
            t.skips_dits() && !t.skips_cities() && t.multiplier() == 1,
    {
        Self::new_n_train(2)
    }

    /// Returns a train that stops at up to 3 locations.
    pub fn new_3_train() -> (t: Self)
        ensures
            t.max_stops_spec() == Some(3usize),
            t.skips_dits() && !t.skips_cities() && t.multiplier() == 1,
    {
        Self::new_n_train(3)
    }

    /// Returns a train that stops at up to 4 locations.
    pub fn new_4_train() -> (t: Self)
        ensures
            t.max_stops_spec() == Some(4usize),
            t.skips_dits() && !t.skips_cities() && t.multiplier() == 1,
    {
        Self::new_n_train(4)
    }

    /// Returns a train that stops at up to 5 locations.
    pub fn new_5_train() -> (t: Self)
        ensures
            t.max_stops_spec() == Some(5usize),
            t.skips_dits() && !t.skips_cities() && t.multiplier() == 1,
    {
        Self::new_n_train(5)
    }

    /// Returns a train that stops at up to 6 locations.
    pub fn new_6_train() -> (t: Self)
        ensures
            t.max_stops_spec() == Some(6usize),
            t.skips_dits() && !t.skips_cities() && t.multiplier() == 1,
    {
        Self::new_n_train(6)
    }

    /// Returns a train that stops at up to 7 locations.
    pub fn new_7_train() -> (t: Self)
        ensures
            t.max_stops_spec() == Some(7usize),
            t.skips_dits() && !t.skips_cities() && t.multiplier() == 1,
    {
        Self::new_n_train(7)
    }

    /// Returns a train that stops at up to 8 locations.
    pub fn new_8_train() -> (t: Self)
        ensures
            t.max_stops_spec() == Some(8usize),
            t.skips_dits() && !t.skips_cities() && t.multiplier() == 1,
    {
        Self::new_n_train(8)
    }

    /// Returns a train that stops at up to 2 locations and earns double
    /// revenue.
    pub fn new_2p2_train() -> (t: Self)
        ensures
            t.max_stops_spec() == Some(2usize),
            t.skips_dits() && !t.skips_cities() && t.multiplier() == 2,
    {
        Train { max_stops: Some(2), can_skip_dits: true, can_skip_cities: false, revenue_multiplier: 2 }
    }

    /// Returns an express train that stops at up to 5 locations, may skip
    /// any location, and earns double revenue.
    pub fn new_5p5e_train() -> (t: Self)
        ensures
            t.max_stops_spec() == Some(5usize),
            t.skips_dits() && t.skips_cities() && t.multiplier() == 2,
    {
        Train { max_stops: Some(5), can_skip_dits: true, can_skip_cities: true, revenue_multiplier: 2 }
    }

    /// Determine the revenue earned and stops made when the train operates
    /// the given path, if it can operate this path.
    ///
    /// The train must stop at the first and last visits, and (except when it
    /// stops at every visit) the indices of the intermediate stops are
    /// returned.
    pub fn revenue_for(&self, path: &Path, bonuses: &BonusTable<Bonus>) -> (r: Option<(usize, Vec<usize>)>)
        requires
            self.fits(
                path.visits@,
                path.num_visits as int,
                path.num_cities as int,
                path.num_dits as int,
                path.revenue as int,
            ),
        ensures
            match self.plan(
                path.visits@,
                path.num_visits as int,
                path.num_cities as int,
                path.num_dits as int,
                path.revenue as int,
            ) {
                None => r is None,
                Some(p) => r matches Some(x) && x.0 == p.0 * self.multiplier() && x.1@ == p.1,
            },
    {
        let ghost visits = path.visits@;
        let n = path.visits.len();
        let max_stops = match self.max_stops {
            // NOTE: no limit on stops, so we can stop at every visit.
            None => {
                let stop_ixs = all_ixs(n);
                return Some((path.revenue * self.revenue_multiplier, stop_ixs));
            },
            Some(m) => m,
        };
        if self.can_skip_cities && self.can_skip_dits {
            // NOTE: must include first and last stops.
            let rev_first = path.visits[0].revenue;
            let rev_last = path.visits[n - 1].revenue;
            let stops = top(path, VisitKind::Any, max_stops - 2);
            proof {
                lemma_pair_sum_prefix(stops@, 0);
            }
            let rev_rest = sum_pairs(&stops);
            let path_revenue = rev_first + rev_last + rev_rest;
            let stop_ixs = ixs_of(&stops);
            return Some((path_revenue * self.revenue_multiplier, stop_ixs));
        } else if self.can_skip_dits {
            if path.num_cities <= max_stops {
                let mut num_dit_stops = max_stops - path.num_cities;
                let first_is_dit = path.visits[0].visits.is_dit();
                let last_is_dit = path.visits[n - 1].visits.is_dit();
                if first_is_dit {
                    if num_dit_stops > 0 {
                        num_dit_stops -= 1;
                    } else {
                        return None;
                    }
                }
                if last_is_dit {
                    if num_dit_stops > 0 {
                        num_dit_stops -= 1;
                    } else {
                        return None;
                    }
                }
                let rev_first = path.visits[0].revenue;
                let rev_last = path.visits[n - 1].revenue;
                let cities = middle(path, VisitKind::City);
                let dit_stops = top(path, VisitKind::Dit, num_dit_stops);
                proof {
                    lemma_pair_sum_prefix(cities@, 0);
                    lemma_pair_sum_prefix(dit_stops@, 0);
                }
                let city_revenue = sum_pairs(&cities);
                let dit_revenue = sum_pairs(&dit_stops);
                let mut stop_ixs = ixs_of(&dit_stops);
                let mut city_ixs = ixs_of(&cities);
                stop_ixs.append(&mut city_ixs);
                let path_revenue = city_revenue + dit_revenue + rev_first + rev_last;
                return Some((path_revenue * self.revenue_multiplier, stop_ixs));
            } else {
                // NOTE: too many cities, cannot stop at them all.
                return None;
            }
        } else if self.can_skip_cities {
            if path.num_dits <= max_stops {
                let mut num_city_stops = max_stops - path.num_dits;
                let first_is_city = path.visits[0].visits.is_city();
                let last_is_city = path.visits[n - 1].visits.is_city();
                if first_is_city {
                    if num_city_stops > 0 {
                        num_city_stops -= 1;
                    } else {
                        return None;
                    }
                }
                if last_is_city {
                    if num_city_stops > 0 {
                        num_city_stops -= 1;
                    } else {
                        return None;
                    }
                }
                let rev_first = path.visits[0].revenue;
                let rev_last = path.visits[n - 1].revenue;
                let city_stops = top(path, VisitKind::City, num_city_stops);
                let dits = middle(path, VisitKind::Dit);
                proof {
                    lemma_pair_sum_prefix(city_stops@, 0);
                    lemma_pair_sum_prefix(dits@, 0);
                }
                let dit_revenue = sum_pairs(&dits);
                let city_revenue = sum_pairs(&city_stops);
                let mut stop_ixs = ixs_of(&city_stops);
                let mut dit_ixs = ixs_of(&dits);
                stop_ixs.append(&mut dit_ixs);
                let path_revenue = city_revenue + dit_revenue + rev_first + rev_last;
                return Some((path_revenue * self.revenue_multiplier, stop_ixs));
            } else {
                // NOTE: too many dits, cannot stop at them all.
                return None;
            }
        } else {
            // NOTE: cannot skip dits or cities, must be able to stop at every
            // visit along the path.
            if path.num_visits <= max_stops {
                let stop_ixs = all_ixs(n);
                return Some((path.revenue * self.revenue_multiplier, stop_ixs));
            } else {
                return None;
            }
        }
    }
}

/// The character of a decimal digit.
pub open spec fn digit_char(d: nat) -> char {
    if d == 0 {
        '0'
    } else if d == 1 {
        '1'
    } else if d == 2 {
        '2'
    } else if d == 3 {
        '3'
    } else if d == 4 {
        '4'
    } else if d == 5 {
        '5'
    } else if d == 6 {
        '6'
    } else if d == 7 {
        '7'
    } else if d == 8 {
        '8'
    } else {
        '9'
    }
}

/// The decimal digits of `n`.
pub open spec fn decimal(n: nat) -> Seq<char>
    decreases n,
{
    if n < 10 {
        seq![digit_char(n)]
    } else {
        decimal(n / 10).push(digit_char(n % 10))
    }
}

/// How a train is described: "n-train" for a train that stops at up to `n`
/// places and may skip towns, "n+nE-train" for an express train of
/// double revenue, and nothing otherwise.
pub open spec fn description(t: Train) -> Seq<char> {
    if t.skips_dits() && !t.skips_cities() && t.multiplier() == 1 {
        decimal(t.max_stops_spec()->0 as nat) + "-train"@
    } else if t.skips_dits() && t.skips_cities() && t.multiplier() == 2 && t.max_stops_spec() is Some {
        decimal(t.max_stops_spec()->0 as nat) + "+"@ + decimal(t.max_stops_spec()->0 as nat) + "E-train"@
    } else {
        Seq::empty()
    }
}

/// Appends a character to a string (`String::push`).
#[verifier::external_body]
fn push_char(s: &mut String, c: char)
    ensures
        final(s)@ == old(s)@.push(c),
{
    s.push(c);
}

/// Returns the character of a decimal digit.
fn digit(d: usize) -> (c: char)
    requires
        d < 10,
    ensures
        c == digit_char(d as nat),
{
    if d == 0 {
        '0'
    } else if d == 1 {
        '1'
    } else if d == 2 {
        '2'
    } else if d == 3 {
        '3'
    } else if d == 4 {
        '4'
    } else if d == 5 {
        '5'
    } else if d == 6 {
        '6'
    } else if d == 7 {
        '7'
    } else if d == 8 {
        '8'
    } else {
        '9'
    }
}

/// Appends the decimal digits of `n` to a string.
pub(crate) fn push_decimal(s: &mut String, n: usize)
    ensures
        final(s)@ == old(s)@ + decimal(n as nat),
    decreases n,
{
    if n >= 10 {
        push_decimal(s, n / 10);
    }
    push_char(s, digit(n % 10));
    assert(s@ =~= old(s)@ + decimal(n as nat));
}

impl Train {
    /// Returns a short description of this train, such as "3-train" or
    /// "5+5E-train".
    pub fn describe(&self) -> (r: String)
        requires
            self.skips_dits() && !self.skips_cities() && self.multiplier() == 1 ==> self.max_stops_spec() is Some,
        ensures
            r@ == description(*self),
    {
        let mut r = String::new();
        if self.can_skip_dits && !self.can_skip_cities && self.revenue_multiplier == 1 {
            let n = match self.max_stops {
                Some(n) => n,
                None => 0,
            };
            push_decimal(&mut r, n);
            r.append("-train");
        } else if self.can_skip_dits && self.can_skip_cities && self.revenue_multiplier == 2 && self.max_stops.is_some() {
            let n = match self.max_stops {
                Some(n) => n,
                None => 0,
            };
            push_decimal(&mut r, n);
            r.append("+");
            push_decimal(&mut r, n);
            r.append("E-train");
        }
        assert(r@ =~= description(*self));
        r
    }
}

} // verus!

