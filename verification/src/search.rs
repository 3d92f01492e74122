//! Search a map for paths from a starting location.
use vstd::prelude::*;
use crate::builder::flip;
use crate::conflict::{conflict_for, rule_rank, Conflict, ConflictRule, RouteConflicts};
use crate::connection::{equivalent, Connection};
use crate::hex::HexAddress;
use crate::path::{city_count, revenue_sum, Path, Step, StopLocation, Visit};
use crate::route_map::{
    all_keys, elem_key, hex_index, hex_well_formed, holds_token, in_links, lemma_all_keys_contain,
    lemma_conn_key, revenue_cap, stop_in_range, tokens_at_city, upper_face, FaceLink, MapHex, RouteMap,
};
use crate::token::Token;

verus! {

/// A limit on the length of the paths that are searched for.
#[derive(Copy, Clone, Debug, PartialEq, Eq, Structural, PartialOrd, Ord)]
pub enum PathLimit {
    Cities { count: usize },
    CitiesAndTowns { count: usize },
    Hexes { count: usize },
}

/// The search criteria for identifying valid paths.
#[derive(Copy, Clone, Debug, PartialEq, Eq, Structural)]
pub struct Criteria {
    pub token: Token,
    pub path_limit: Option<PathLimit>,
    /// The rule that governs what elements can be shared in a single route.
    pub conflict_rule: ConflictRule,
    /// The rule that governs what elements can be shared between routes.
    pub route_conflict_rule: ConflictRule,
}

/// The search criteria for identifying valid paths that start from a
/// specific location.
#[derive(Copy, Clone, Debug, PartialEq, Eq, Structural)]
pub struct Query {
    pub addr: HexAddress,
    pub from: Connection,
    pub criteria: Criteria,
}

/// The step with which every path of a query starts.
pub open spec fn start_step(q: Query) -> Step {
    Step { addr: q.addr, conn: q.from }
}

/// The connection at which a stop is made.
pub open spec fn stop_conn(s: StopLocation) -> Connection {
    match s {
        StopLocation::City { ix } => Connection::City { ix },
        StopLocation::Dit { ix } => Connection::Dit { ix },
    }
}

/// The map element at which a visit stops.
pub open spec fn visit_key(v: Visit) -> (HexAddress, Connection) {
    elem_key(v.addr, stop_conn(v.visits))
}

/// The revenue of a city or dit of a hex.
pub open spec fn stop_revenue(h: MapHex, s: StopLocation) -> int {
    match s {
        StopLocation::City { ix } => h.city_revenues@[ix as int] as int,
        StopLocation::Dit { ix } => h.dit_revenues@[ix as int] as int,
    }
}

/// Whether a visit is to a city or dit of the map, with that stop's revenue.
pub open spec fn visit_on_map(map: RouteMap, v: Visit) -> bool {
    exists|i: int|
        0 <= i < map.hexes@.len() && #[trigger] map.hexes@[i].addr == v.addr && stop_in_range(
            map.hexes@[i],
            stop_conn(v.visits),
        ) && v.revenue == stop_revenue(map.hexes@[i], v.visits)
}

/// The hex at which a query's paths start.
pub open spec fn start_hex(map: RouteMap, q: Query) -> MapHex {
    map.hexes@[hex_index(map.hexes@, q.addr)->0]
}

/// The city or dit at which a query's paths start, and its revenue.
pub open spec fn start_visit(map: RouteMap, q: Query) -> Visit {
    match q.from {
        Connection::City { ix } => Visit {
            addr: q.addr,
            revenue: start_hex(map, q).city_revenues@[ix as int],
            visits: StopLocation::City { ix },
        },
        Connection::Dit { ix } => Visit {
            addr: q.addr,
            revenue: start_hex(map, q).dit_revenues@[ix as int],
            visits: StopLocation::Dit { ix },
        },
        _ => Visit { addr: q.addr, revenue: 0, visits: StopLocation::City { ix: 0 } },
    }
}

/// Whether a query can be searched on the map: it starts at a city or dit
/// of a hex of the map, and its route conflict rule is less general than
/// its path conflict rule.
pub open spec fn query_ok(map: RouteMap, q: Query) -> bool {
    &&& hex_index(map.hexes@, q.addr) is Some
    &&& match q.from {
        Connection::City { ix } => ix < start_hex(map, q).city_revenues@.len(),
        Connection::Dit { ix } => ix < start_hex(map, q).dit_revenues@.len(),
        _ => false,
    }
    &&& rule_rank(q.criteria.route_conflict_rule) < rule_rank(q.criteria.conflict_rule)
}

/// The city at which a query's paths start.
pub open spec fn start_city(q: Query) -> usize {
    match q.from {
        Connection::City { ix } => ix,
        _ => 0,
    }
}

/// Whether a step reaches a city that holds the query's token and precedes
/// the query's city in the order of token spaces: paths that connect two
/// such cities are found from the earlier one only. A path that starts at a
/// dit connects no two such cities, and is never cut short this way.
pub open spec fn behind_start(map: RouteMap, q: Query, s: Step) -> bool {
    match s.conn {
        Connection::City { ix } => q.from is City && exists|i: int|
            0 <= i < map.hexes@.len() && #[trigger] map.hexes@[i].addr == s.addr && holds_token(
                map.hexes@[i],
                ix,
                q.criteria.token,
            ) && hex_city_lt(s.addr, ix, q.addr, start_city(q)),
        _ => false,
    }
}

/// Whether one of the paths `ps` takes the steps of `r`, where `r` is a
/// path.
pub open spec fn found_among(ps: Seq<Path>, r: Option<Seq<Step>>) -> bool {
    r matches Some(w) ==> exists|k: int| 0 <= k < ps.len() && #[trigger] ps[k].steps@ == w
}

/// No city or dit is visited twice.
pub open spec fn distinct_stops(vs: Seq<Visit>) -> bool {
    forall|i: int, j: int|
        0 <= i < j < vs.len() ==> visit_key(#[trigger] vs[i]) != visit_key(#[trigger] vs[j])
}

/// What every path that a search for `q` finds satisfies: it starts with
/// the query's step and city, it ends at a stop, it visits no city or dit
/// twice, each visit earns its stop's revenue, its counts and revenue
/// agree with its visits, and its counts of cities and stops are within the
/// path limit.
pub open spec fn sound_path(map: RouteMap, q: Query, p: Path) -> bool {
    &&& p.steps@.len() >= 2
    &&& p.steps@[0] == start_step(q)
    &&& p.visits@.len() >= 2
    &&& p.visits@[0] == start_visit(map, q)
    &&& p.steps@.last() == (Step { addr: p.visits@.last().addr, conn: stop_conn(p.visits@.last().visits) })
    &&& p.consistent()
    &&& p.num_dits + p.num_cities == p.num_visits
    &&& 1 <= p.num_hexes <= p.steps@.len()
    &&& p.steps@.len() <= 3 * key_bound(map)
    &&& p.visits@.len() <= key_bound(map)
    &&& distinct_stops(p.visits@)
    &&& forall|k: int| 0 <= k < p.visits@.len() ==> visit_on_map(map, #[trigger] p.visits@[k])
    &&& forall|k: int| 1 <= k < p.steps@.len() ==> !behind_start(map, q, #[trigger] p.steps@[k])
    &&& within_limit(q.criteria.path_limit, p.num_cities as int, p.num_visits as int)
}

/// The largest count that a path limit of `count` stops lets a path reach:
/// the first stop after the start is always reached, so a path may have two
/// stops whatever the limit.
pub open spec fn limit_reach(count: usize) -> int {
    if count < 2 {
        2
    } else {
        count as int
    }
}

/// Whether a path's counts of cities and of stops stay within the path
/// limit; a limit on hexes bounds nothing here, since it is checked at
/// stops only.
pub open spec fn within_limit(limit: Option<PathLimit>, num_cities: int, num_visits: int) -> bool {
    match limit {
        Some(PathLimit::Cities { count }) => num_cities <= limit_reach(count),
        Some(PathLimit::CitiesAndTowns { count }) => num_visits <= limit_reach(count),
        _ => true,
    }
}

/// The number of elements that paths may pass through, and one more.
pub open spec fn key_bound(map: RouteMap) -> int {
    all_keys(map.hexes@).len() + 1int
}

/// The elements that the paths of `q` may pass through.
pub open spec fn key_set(map: RouteMap, q: Query) -> Set<(HexAddress, Connection)> {
    all_keys(map.hexes@).to_set().insert(elem_key(q.addr, q.from))
}

/// Whether a path limit lets a path continue past its latest stop.
pub open spec fn limit_allows(
    limit: Option<PathLimit>,
    num_cities: usize,
    num_visits: usize,
    num_hexes: usize,
) -> bool {
    match limit {
        Some(PathLimit::Cities { count }) => num_cities < count,
        Some(PathLimit::CitiesAndTowns { count }) => num_visits < count,
        Some(PathLimit::Hexes { count }) => num_hexes < count,
        None => true,
    }
}

proof fn lemma_key_set(map: RouteMap, q: Query)
    ensures
        key_set(map, q).finite(),
        key_set(map, q).len() <= key_bound(map),
{
    let ks = all_keys(map.hexes@);
    ks.lemma_cardinality_of_set();
    vstd::seq_lib::seq_to_set_is_finite(ks);
}

/// The revenue of visits that each earn at most `cap` is at most the number
/// of visits times `cap`.
proof fn lemma_revenue_bound(s: Seq<Visit>, cap: int)
    requires
        forall|k: int| 0 <= k < s.len() ==> (#[trigger] s[k]).revenue <= cap,
    ensures
        revenue_sum(s) <= s.len() * cap,
        0 <= revenue_sum(s),
    decreases s.len(),
{
    if s.len() > 0 {
        let t = s.drop_last();
        assert forall|k: int| 0 <= k < t.len() implies (#[trigger] t[k]).revenue <= cap by {
            assert(t[k] == s[k]);
        }
        lemma_revenue_bound(t, cap);
        assert(s.len() * cap == t.len() * cap + cap) by (nonlinear_arith)
            requires
                s.len() == t.len() + 1,
        ;
    }
}

/// The revenue of visits is at least that of the first visit.
proof fn lemma_revenue_first(s: Seq<Visit>)
    requires
        s.len() >= 1,
    ensures
        revenue_sum(s) >= s[0].revenue,
    decreases s.len(),
{
    assert(revenue_sum(s) == revenue_sum(s.drop_last()) + s.last().revenue);
    if s.len() > 1 {
        lemma_revenue_first(s.drop_last());
        assert(s.drop_last()[0] == s[0]);
    } else {
        assert(s.drop_last().len() == 0);
        assert(revenue_sum(s.drop_last()) == 0);
    }
}

/// The state of the path search: the path that is being extended.
struct Context {
    /// The previous steps in this path.
    path: Vec<Step>,
    /// The existing path elements that may not be re-used.
    conflicts: RouteConflicts,
    /// The existing path elements that may not be re-used by other routes.
    route_conflicts: RouteConflicts,
    /// The cities and dits that have been visited, possibly for revenue.
    visits: Vec<Visit>,
    /// The number cities and dits that have been visited.
    num_visits: usize,
    /// The number of cities that have been visited.
    num_cities: usize,
    /// The number of dits that have been visited.
    num_dits: usize,
    /// The number of hexes that have been visited.
    num_hexes: usize,
    /// The elements at which the steps of the path were taken, other than
    /// the hex faces that the path crosses.
    seen: Ghost<Set<(HexAddress, Connection)>>,
}

/// The parts of the search state that each search step restores.
struct Trail {
    path: Seq<Step>,
    visits: Seq<Visit>,
    num_visits: usize,
    num_cities: usize,
    num_dits: usize,
    num_hexes: usize,
    seen: Set<(HexAddress, Connection)>,
}

impl Context {
    spec fn trail(&self) -> Trail {
        Trail {
            path: self.path@,
            visits: self.visits@,
            num_visits: self.num_visits,
            num_cities: self.num_cities,
            num_dits: self.num_dits,
            num_hexes: self.num_hexes,
            seen: self.seen@,
        }
    }

    /// The search state describes a path of the query that may be extended.
    spec fn wf(&self, map: RouteMap, q: Query) -> bool {
        let seen = self.seen@;
        &&& self.path@.len() >= 1
        &&& self.path@[0] == start_step(q)
        &&& self.visits@.len() >= 1
        &&& self.visits@[0] == start_visit(map, q)
        &&& seen.finite()
        &&& seen.subset_of(key_set(map, q))
        &&& seen.contains(elem_key(q.addr, q.from))
        &&& forall|k: (HexAddress, Connection)|
            #[trigger] seen.contains(k) ==> exists|i: int|
                0 <= i < self.path@.len() && elem_key(self.path@[i].addr, self.path@[i].conn) == k
        &&& distinct_stops(self.visits@)
        &&& forall|i: int| 0 <= i < self.visits@.len() ==> seen.contains(visit_key(#[trigger] self.visits@[i]))
        &&& forall|i: int| 0 <= i < self.visits@.len() ==> visit_on_map(map, #[trigger] self.visits@[i])
        &&& self.num_visits == self.visits@.len()
        &&& self.num_cities == city_count(self.visits@)
        &&& self.num_dits + self.num_cities == self.num_visits
        &&& self.visits@.len() <= seen.len()
        &&& 1 <= self.num_hexes <= self.path@.len()
        &&& seen.len() <= key_bound(map)
        &&& self.path@.len() <= 3 * seen.len()
        &&& forall|k: int| 1 <= k < self.path@.len() ==> !behind_start(map, q, #[trigger] self.path@[k])
    }

    /// Returns the search state at the start of a query: the path holds the
    /// starting city only.
    fn new(map: &RouteMap, query: &Query) -> (ctx: Self)
        requires
            map.searchable(),
            query_ok(*map, *query),
        ensures
            ctx.wf(*map, *query),
            ctx.seen@ == Set::<(HexAddress, Connection)>::empty().insert(elem_key(query.addr, query.from)),
            ctx.seen@.len() == 1,
            ctx.path@.len() == 1,
            ctx.conflicts@ == start_conflicts(*query),
            within_limit(query.criteria.path_limit, ctx.num_cities + 1, ctx.num_visits + 1),
            (ctx.num_cities, ctx.num_visits, ctx.num_hexes) == start_counts(*query),
    {
        let path: Vec<Step> = vec![Step { addr: query.addr, conn: query.from }];
        let mut conflicts = RouteConflicts::new();
        if let Some(conflict) = query.criteria.conflict_rule.maybe_conflict(&query.addr, &query.from) {
            conflicts.insert(conflict);
        }
        let mut route_conflicts = RouteConflicts::new();
        if let Some(conflict) = query.criteria.route_conflict_rule.maybe_conflict(
            &query.addr,
            &query.from,
        ) {
            route_conflicts.insert(conflict);
        }
        let hix = match map.hex_ix(&query.addr) {
            Some(i) => i,
            None => 0,
        };
        let (first_stop, num_cities, num_dits) = match query.from {
            Connection::Dit { ix } => (
                Visit { addr: query.addr, revenue: map.hexes[hix].dit_revenues[ix], visits: StopLocation::Dit { ix } },
                0,
                1,
            ),
            _ => {
                let city_ix = match query.from {
                    Connection::City { ix } => ix,
                    _ => 0,
                };
                (
                    Visit {
                        addr: query.addr,
                        revenue: map.hexes[hix].city_revenues[city_ix],
                        visits: StopLocation::City { ix: city_ix },
                    },
                    1,
                    0,
                )
            },
        };
        let visits = vec![first_stop];
        let ghost start = elem_key(query.addr, query.from);
        let ctx = Context {
            path,
            conflicts,
            route_conflicts,
            visits,
            num_visits: 1,
            num_cities,
            num_dits,
            num_hexes: 1,
            seen: Ghost(Set::<(HexAddress, Connection)>::empty().insert(start)),
        };
        proof {
            lemma_key_set(*map, *query);
            assert(ctx.visits@[0] == start_visit(*map, *query));
            assert(visit_key(ctx.visits@[0]) == start);
            assert(elem_key(ctx.path@[0].addr, ctx.path@[0].conn) == start);
            assert(ctx.visits@.drop_last() =~= Seq::<Visit>::empty());
            assert(ctx.visits@.len() == 1);
            assert(ctx.visits@.last() == first_stop);
            assert(city_count(ctx.visits@.drop_last()) == 0);
            assert(city_count(ctx.visits@) == num_cities);
            assert(visit_on_map(*map, ctx.visits@[0])) by {
                assert(map.hexes@[hix as int].addr == query.addr);
            }
        }
        ctx
    }

    /// Returns whether the path limit, if any, lets the path continue past
    /// its latest stop.
    fn can_continue(&self, path_limit: &Option<PathLimit>) -> (r: bool)
        ensures
            r == limit_allows(*path_limit, self.num_cities, self.num_visits, self.num_hexes),
    {
        match path_limit {
            Some(PathLimit::Cities { count }) => self.num_cities < *count,
            Some(PathLimit::CitiesAndTowns { count }) => self.num_visits < *count,
            Some(PathLimit::Hexes { count }) => self.num_hexes < *count,
            None => true,
        }
    }

    /// Returns the path that the search state describes.
    fn current_path(&self, Ghost(map): Ghost<RouteMap>) -> (p: Path)
        requires
            map.searchable(),
            self.visits@.len() <= key_bound(map),
            forall|i: int| 0 <= i < self.visits@.len() ==> visit_on_map(map, #[trigger] self.visits@[i]),
        ensures
            p.steps@ == self.path@,
            p.visits@ == self.visits@,
            p.conflicts@ == self.conflicts@,
            p.route_conflicts@ == self.route_conflicts@,
            p.num_visits == self.visits@.len(),
            p.num_cities == self.num_cities,
            p.num_dits == self.num_dits,
            p.num_hexes == self.num_hexes,
            p.revenue == revenue_sum(self.visits@),
    {
        let ghost cap = revenue_cap(map.hexes@);
        proof {
            assert forall|k: int| 0 <= k < self.visits@.len() implies (#[trigger] self.visits@[k]).revenue
                <= cap by {
                let v = self.visits@[k];
                assert(visit_on_map(map, v));
                let i = choose|i: int|
                    0 <= i < map.hexes@.len() && #[trigger] map.hexes@[i].addr == v.addr
                        && stop_in_range(map.hexes@[i], stop_conn(v.visits)) && v.revenue
                        == stop_revenue(map.hexes@[i], v.visits);
                match v.visits {
                    StopLocation::City { ix } => {
                        assert(map.hexes@[i].city_revenues@[ix as int] <= cap);
                    },
                    StopLocation::Dit { ix } => {
                        assert(map.hexes@[i].dit_revenues@[ix as int] <= cap);
                    },
                }
            }
            let b = key_bound(map);
            assert(b * cap <= usize::MAX) by (nonlinear_arith)
                requires
                    b >= 1,
                    cap == (usize::MAX as int) / (2 * b),
            ;
        }
        let mut revenue: usize = 0;
        let mut i: usize = 0;
        while i < self.visits.len()
            invariant
                i <= self.visits@.len(),
                revenue == revenue_sum(self.visits@.take(i as int)),
                self.visits@.len() <= key_bound(map),
                key_bound(map) * cap <= usize::MAX,
                forall|k: int| 0 <= k < self.visits@.len() ==> (#[trigger] self.visits@[k]).revenue <= cap,
            decreases self.visits@.len() - i,
        {
            let ghost s = self.visits@.take(i + 1);
            proof {
                assert(s.drop_last() =~= self.visits@.take(i as int));
                assert forall|k: int| 0 <= k < s.len() implies (#[trigger] s[k]).revenue <= cap by {
                    assert(s[k] == self.visits@[k]);
                }
                lemma_revenue_bound(s, cap);
                assert(s.len() * cap <= key_bound(map) * cap) by (nonlinear_arith)
                    requires
                        s.len() <= key_bound(map),
                        cap >= 0,
                ;
            }
            revenue = revenue + self.visits[i].revenue;
            i = i + 1;
        }
        assert(self.visits@.take(self.visits@.len() as int) =~= self.visits@);
        let steps = self.path.clone();
        let visits = self.visits.clone();
        assert(steps@ =~= self.path@);
        assert(visits@ =~= self.visits@);
        Path {
            steps,
            conflicts: self.conflicts.clone(),
            route_conflicts: self.route_conflicts.clone(),
            visits,
            num_visits: self.visits.len(),
            num_cities: self.num_cities,
            num_dits: self.num_dits,
            num_hexes: self.num_hexes,
            revenue,
        }
    }
}

/// The hex of the map at an address.
pub open spec fn hex_at(map: RouteMap, a: HexAddress) -> MapHex {
    map.hexes@[hex_index(map.hexes@, a)->0]
}

/// The connections that the tile's link from `c` leads to, in order, if it
/// has one.
pub open spec fn links_from(h: MapHex, c: Connection) -> Seq<Connection> {
    if exists|j: int| 0 <= j < h.links@.len() && #[trigger] h.links@[j].from == c {
        h.links@[choose|j: int| 0 <= j < h.links@.len() && #[trigger] h.links@[j].from == c].to@
    } else {
        Seq::empty()
    }
}

/// What lies beyond a face of the tile, if the face touches another hex.
pub open spec fn face_link_for(h: MapHex, f: crate::hex::HexFace) -> Option<FaceLink> {
    if exists|j: int| 0 <= j < h.faces@.len() && #[trigger] h.faces@[j].face == f {
        Some(h.faces@[choose|j: int| 0 <= j < h.faces@.len() && #[trigger] h.faces@[j].face == f])
    } else {
        None
    }
}

/// A set of conflicts, with a conflict added if there is one.
pub open spec fn with_conflict(cs: Set<Conflict>, c: Option<Conflict>) -> Set<Conflict> {
    match c {
        Some(x) => cs.insert(x),
        None => cs,
    }
}

/// Whether a conflict, if there is one, is not yet among a set of
/// conflicts.
pub open spec fn allowed(cs: Set<Conflict>, c: Option<Conflict>) -> bool {
    match c {
        Some(x) => !cs.contains(x),
        None => true,
    }
}

/// The conflicts that a query's path holds before its first step.
pub open spec fn start_conflicts(q: Query) -> Set<Conflict> {
    with_conflict(Set::empty(), conflict_for(q.criteria.conflict_rule, q.addr, q.from))
}

/// The path that the search reaches first from the path `p`, which holds
/// the conflicts `cs`, by stepping to the connection `conn` of the hex at
/// `a` and then always taking the first connection onwards (crossing into
/// the neighbouring hex at a face), until it reaches a city or dit: `None`
/// where one of these steps is not allowed, or leads nowhere.
pub open spec fn first_path_at(
    map: RouteMap,
    q: Query,
    p: Seq<Step>,
    cs: Set<Conflict>,
    a: HexAddress,
    conn: Connection,
    fuel: nat,
) -> Option<Seq<Step>>
    decreases fuel, 0nat,
{
    let s = Step { addr: a, conn };
    let c = conflict_for(q.criteria.conflict_rule, a, conn);
    if fuel == 0 || passes_through(p, a, conn) || !allowed(cs, c) || behind_start(map, q, s) {
        None
    } else if conn is City || conn is Dit {
        Some(p.push(s))
    } else {
        first_path_over(
            map,
            q,
            p.push(s),
            with_conflict(cs, c),
            a,
            links_from(hex_at(map, a), flip(conn)),
            (fuel - 1) as nat,
        )
    }
}

/// The path that the search reaches first from the path `p`, which holds
/// the conflicts `cs`, through the first of the connections `conns` of the
/// hex at `a`, as [`first_path_at`] describes.
pub open spec fn first_path_over(
    map: RouteMap,
    q: Query,
    p: Seq<Step>,
    cs: Set<Conflict>,
    a: HexAddress,
    conns: Seq<Connection>,
    fuel: nat,
) -> Option<Seq<Step>>
    decreases fuel, 1nat,
{
    if conns.len() == 0 {
        None
    } else {
        match conns[0] {
            Connection::Face { face } => match face_link_for(hex_at(map, a), face) {
                Some(link) => {
                    let rule = q.criteria.conflict_rule;
                    let c1 = conflict_for(rule, a, Connection::Face { face: link.map_face });
                    let c2 = conflict_for(rule, link.adj_addr, Connection::Face { face: link.adj_map_face });
                    let landing = Connection::Face { face: link.adj_face };
                    let next = links_from(hex_at(map, link.adj_addr), landing);
                    if hex_index(map.hexes@, link.adj_addr) is None || !allowed(cs, c1) || !allowed(
                        with_conflict(cs, c1),
                        c2,
                    ) || next.len() == 0 {
                        None
                    } else {
                        first_path_at(
                            map,
                            q,
                            p.push(Step { addr: a, conn: conns[0] }).push(Step { addr: link.adj_addr, conn: landing }),
                            with_conflict(with_conflict(cs, c1), c2),
                            link.adj_addr,
                            next[0],
                            fuel,
                        )
                    }
                },
                None => None,
            },
            _ => first_path_at(map, q, p, cs, a, conns[0], fuel),
        }
    }
}

/// The path that a search for `q` finds first, as [`first_path_at`]
/// describes, starting with the first connection of the query's city.
pub open spec fn first_path(map: RouteMap, q: Query, fuel: nat) -> Option<Seq<Step>> {
    let cs = links_from(hex_at(map, q.addr), q.from);
    if cs.len() == 0 {
        None
    } else {
        first_path_at(map, q, seq![start_step(q)], start_conflicts(q), q.addr, cs[0], fuel)
    }
}

/// Whether the search goes on past a stop at the connection `conn` of the
/// hex `h`, once the path's counts are `counts` (cities, stops and hexes):
/// not off the board, not through a city whose token spaces are all taken
/// by other companies, and not beyond the path limit.
pub open spec fn continues_past(q: Query, h: MapHex, conn: Connection, counts: (usize, usize, usize)) -> bool {
    &&& !h.off_board
    &&& conn matches Connection::City { ix } ==> (h.city_spaces@[ix as int] == 0 || tokens_at_city(
        h.tokens@,
        ix,
    ) < h.city_spaces@[ix as int] || holds_token(h, ix, q.criteria.token))
    &&& limit_allows(q.criteria.path_limit, counts.0, counts.1, counts.2)
}

/// The path that the search reaches from the path `p`, which holds the
/// conflicts `cs` and the counts `counts`, by stepping to the connection
/// `conn` of the hex at `a` and then following `choices`: at a stop the
/// path ends if no choice is left, and otherwise goes on where the search
/// goes on; each choice picks one of the connections onwards (and, after a
/// hex face, one more picks one of the connections beyond it). `None` where
/// a step is not allowed or a choice is out of range.
pub open spec fn path_at(
    map: RouteMap,
    q: Query,
    p: Seq<Step>,
    cs: Set<Conflict>,
    counts: (usize, usize, usize),
    a: HexAddress,
    conn: Connection,
    choices: Seq<int>,
    fuel: nat,
) -> Option<Seq<Step>>
    decreases fuel, 0nat,
{
    let s = Step { addr: a, conn };
    let c = conflict_for(q.criteria.conflict_rule, a, conn);
    let h = hex_at(map, a);
    if fuel == 0 || passes_through(p, a, conn) || !allowed(cs, c) || behind_start(map, q, s) {
        None
    } else if conn is City || conn is Dit {
        let after = ((counts.0 + if conn is City { 1int } else { 0int }) as usize, (counts.1 + 1) as usize, counts.2);
        if choices.len() == 0 {
            Some(p.push(s))
        } else if continues_past(q, h, conn, after) {
            path_over(map, q, p.push(s), with_conflict(cs, c), after, a, links_from(h, conn), choices, (fuel - 1) as nat)
        } else {
            None
        }
    } else {
        path_over(map, q, p.push(s), with_conflict(cs, c), counts, a, links_from(h, flip(conn)), choices, (fuel - 1) as nat)
    }
}

/// The path that the search reaches from the path `p` through the
/// connection of `conns` that the first of `choices` picks, as [`path_at`]
/// describes.
pub open spec fn path_over(
    map: RouteMap,
    q: Query,
    p: Seq<Step>,
    cs: Set<Conflict>,
    counts: (usize, usize, usize),
    a: HexAddress,
    conns: Seq<Connection>,
    choices: Seq<int>,
    fuel: nat,
) -> Option<Seq<Step>>
    decreases fuel, 1nat,
{
    if choices.len() == 0 || !(0 <= choices[0] < conns.len()) {
        None
    } else {
        let rest = choices.drop_first();
        match conns[choices[0]] {
            Connection::Face { face } => match face_link_for(hex_at(map, a), face) {
                Some(link) => {
                    let rule = q.criteria.conflict_rule;
                    let c1 = conflict_for(rule, a, Connection::Face { face: link.map_face });
                    let c2 = conflict_for(rule, link.adj_addr, Connection::Face { face: link.adj_map_face });
                    let landing = Connection::Face { face: link.adj_face };
                    let next = links_from(hex_at(map, link.adj_addr), landing);
                    if hex_index(map.hexes@, link.adj_addr) is None || !allowed(cs, c1) || !allowed(
                        with_conflict(cs, c1),
                        c2,
                    ) || rest.len() == 0 || !(0 <= rest[0] < next.len()) {
                        None
                    } else {
                        path_at(
                            map,
                            q,
                            p.push(Step { addr: a, conn: conns[choices[0]] }).push(Step { addr: link.adj_addr, conn: landing }),
                            with_conflict(with_conflict(cs, c1), c2),
                            (counts.0, counts.1, (counts.2 + 1) as usize),
                            link.adj_addr,
                            next[rest[0]],
                            rest.drop_first(),
                            fuel,
                        )
                    }
                },
                None => None,
            },
            _ => path_at(map, q, p, cs, counts, a, conns[choices[0]], rest, fuel),
        }
    }
}

/// Paths stay found when the list of paths only grows.
proof fn lemma_found_grows(ps: Seq<Path>, qs: Seq<Path>, r: Option<Seq<Step>>)
    requires
        found_among(ps, r),
        ps.len() <= qs.len(),
        forall|k: int| 0 <= k < ps.len() ==> qs[k] == ps[k],
    ensures
        found_among(qs, r),
{
    if let Some(w) = r {
        let k = choose|k: int| 0 <= k < ps.len() && #[trigger] ps[k].steps@ == w;
        assert(qs[k] == ps[k]);
    }
}

/// The counts of cities, stops and hexes of a query's path before its
/// first step.
pub open spec fn start_counts(q: Query) -> (usize, usize, usize) {
    (if q.from is City { 1usize } else { 0usize }, 1usize, 1usize)
}

/// The path that a search for `q` reaches by taking the `j`th track out of
/// its start and then following `choices`, as [`path_at`] describes.
pub open spec fn path_from_start(map: RouteMap, q: Query, j: int, choices: Seq<int>, fuel: nat) -> Option<Seq<Step>> {
    path_at(
        map,
        q,
        seq![start_step(q)],
        start_conflicts(q),
        start_counts(q),
        q.addr,
        links_from(hex_at(map, q.addr), q.from)[j],
        choices,
        fuel,
    )
}

/// Whether the search for `q` reaches the steps `w`: by taking one of the
/// tracks out of its start and then some choice of connections, as
/// [`path_at`] describes.
pub open spec fn found_by_search(map: RouteMap, q: Query, w: Seq<Step>) -> bool {
    exists|j: int, choices: Seq<int>, fuel: nat|
        0 <= j < links_from(hex_at(map, q.addr), q.from).len() && #[trigger] path_from_start(map, q, j, choices, fuel)
            == Some(w)
}

/// Whether the search reaches the steps `w` from the path `p` by stepping to
/// the connection `conn` of the hex at `a`, as [`path_at`] describes.
pub open spec fn reached_at(
    map: RouteMap,
    q: Query,
    p: Seq<Step>,
    cs: Set<Conflict>,
    counts: (usize, usize, usize),
    a: HexAddress,
    conn: Connection,
    w: Seq<Step>,
) -> bool {
    exists|choices: Seq<int>, fuel: nat| #[trigger] path_at(map, q, p, cs, counts, a, conn, choices, fuel) == Some(w)
}

/// Whether the search reaches the steps `w` from the path `p` through one
/// of the connections `conns` of the hex at `a`, as [`path_over`] describes.
pub open spec fn reached_over(
    map: RouteMap,
    q: Query,
    p: Seq<Step>,
    cs: Set<Conflict>,
    counts: (usize, usize, usize),
    a: HexAddress,
    conns: Seq<Connection>,
    w: Seq<Step>,
) -> bool {
    exists|choices: Seq<int>, fuel: nat| #[trigger] path_over(map, q, p, cs, counts, a, conns, choices, fuel) == Some(w)
}

/// An allowed step to a stop reaches the path that ends there.
proof fn lemma_reached_stop(
    map: RouteMap,
    q: Query,
    p: Seq<Step>,
    cs: Set<Conflict>,
    counts: (usize, usize, usize),
    a: HexAddress,
    conn: Connection,
)
    requires
        conn is City || conn is Dit,
        !passes_through(p, a, conn),
        allowed(cs, conflict_for(q.criteria.conflict_rule, a, conn)),
        !behind_start(map, q, Step { addr: a, conn }),
    ensures
        reached_at(map, q, p, cs, counts, a, conn, p.push(Step { addr: a, conn })),
{
    assert(path_at(map, q, p, cs, counts, a, conn, Seq::<int>::empty(), 1) == Some(p.push(Step { addr: a, conn })));
}

/// An allowed step reaches whatever the search reaches onwards from it:
/// past a stop where the search goes on, or beyond a track or face.
proof fn lemma_reached_onwards(
    map: RouteMap,
    q: Query,
    p: Seq<Step>,
    cs: Set<Conflict>,
    counts: (usize, usize, usize),
    a: HexAddress,
    conn: Connection,
    after: (usize, usize, usize),
    w: Seq<Step>,
)
    requires
        !passes_through(p, a, conn),
        allowed(cs, conflict_for(q.criteria.conflict_rule, a, conn)),
        !behind_start(map, q, Step { addr: a, conn }),
        after == (
            (counts.0 + if conn is City { 1int } else { 0int }) as usize,
            (counts.1 + 1) as usize,
            counts.2,
        ),
        conn is City || conn is Dit ==> continues_past(q, hex_at(map, a), conn, after) && reached_over(
            map,
            q,
            p.push(Step { addr: a, conn }),
            with_conflict(cs, conflict_for(q.criteria.conflict_rule, a, conn)),
            after,
            a,
            links_from(hex_at(map, a), conn),
            w,
        ),
        !(conn is City || conn is Dit) ==> reached_over(
            map,
            q,
            p.push(Step { addr: a, conn }),
            with_conflict(cs, conflict_for(q.criteria.conflict_rule, a, conn)),
            counts,
            a,
            links_from(hex_at(map, a), flip(conn)),
            w,
        ),
    ensures
        reached_at(map, q, p, cs, counts, a, conn, w),
{
    let s = Step { addr: a, conn };
    let c = conflict_for(q.criteria.conflict_rule, a, conn);
    if conn is City || conn is Dit {
        let (ch, f) = choose|ch: Seq<int>, f: nat|
            #[trigger] path_over(map, q, p.push(s), with_conflict(cs, c), after, a, links_from(hex_at(map, a), conn), ch, f)
                == Some(w);
        assert(ch.len() > 0);
        assert(path_at(map, q, p, cs, counts, a, conn, ch, f + 1) == path_over(
            map,
            q,
            p.push(s),
            with_conflict(cs, c),
            after,
            a,
            links_from(hex_at(map, a), conn),
            ch,
            f,
        ));
    } else {
        let (ch, f) = choose|ch: Seq<int>, f: nat|
            #[trigger] path_over(map, q, p.push(s), with_conflict(cs, c), counts, a, links_from(hex_at(map, a), flip(conn)), ch, f)
                == Some(w);
        assert(path_at(map, q, p, cs, counts, a, conn, ch, f + 1) == path_over(
            map,
            q,
            p.push(s),
            with_conflict(cs, c),
            counts,
            a,
            links_from(hex_at(map, a), flip(conn)),
            ch,
            f,
        ));
    }
}

/// What the search reaches through a connection that is not a face, it
/// reaches through the list that holds that connection.
proof fn lemma_reached_over_direct(
    map: RouteMap,
    q: Query,
    p: Seq<Step>,
    cs: Set<Conflict>,
    counts: (usize, usize, usize),
    a: HexAddress,
    conns: Seq<Connection>,
    i: int,
    w: Seq<Step>,
)
    requires
        0 <= i < conns.len(),
        !(conns[i] is Face),
        reached_at(map, q, p, cs, counts, a, conns[i], w),
    ensures
        reached_over(map, q, p, cs, counts, a, conns, w),
{
    let (ch, f) = choose|ch: Seq<int>, f: nat| #[trigger] path_at(map, q, p, cs, counts, a, conns[i], ch, f) == Some(w);
    let ch2 = seq![i].add(ch);
    assert(ch2.drop_first() =~= ch);
    assert(path_over(map, q, p, cs, counts, a, conns, ch2, f) == path_at(map, q, p, cs, counts, a, conns[i], ch, f));
}

/// What the search reaches beyond an allowed crossing at a face of the
/// list `conns`, it reaches through that list.
proof fn lemma_reached_over_face(
    map: RouteMap,
    q: Query,
    p: Seq<Step>,
    cs: Set<Conflict>,
    counts: (usize, usize, usize),
    a: HexAddress,
    conns: Seq<Connection>,
    i: int,
    link: FaceLink,
    k: int,
    w: Seq<Step>,
)
    requires
        0 <= i < conns.len(),
        conns[i] matches Connection::Face { face } && face_link_for(hex_at(map, a), face) == Some(link),
        hex_index(map.hexes@, link.adj_addr) is Some,
        allowed(cs, conflict_for(q.criteria.conflict_rule, a, Connection::Face { face: link.map_face })),
        allowed(
            with_conflict(cs, conflict_for(q.criteria.conflict_rule, a, Connection::Face { face: link.map_face })),
            conflict_for(q.criteria.conflict_rule, link.adj_addr, Connection::Face { face: link.adj_map_face }),
        ),
        0 <= k < links_from(hex_at(map, link.adj_addr), Connection::Face { face: link.adj_face }).len(),
        reached_at(
            map,
            q,
            p.push(Step { addr: a, conn: conns[i] }).push(Step { addr: link.adj_addr, conn: Connection::Face { face: link.adj_face } }),
            with_conflict(
                with_conflict(cs, conflict_for(q.criteria.conflict_rule, a, Connection::Face { face: link.map_face })),
                conflict_for(q.criteria.conflict_rule, link.adj_addr, Connection::Face { face: link.adj_map_face }),
            ),
            (counts.0, counts.1, (counts.2 + 1) as usize),
            link.adj_addr,
            links_from(hex_at(map, link.adj_addr), Connection::Face { face: link.adj_face })[k],
            w,
        ),
    ensures
        reached_over(map, q, p, cs, counts, a, conns, w),
{
    let c1 = conflict_for(q.criteria.conflict_rule, a, Connection::Face { face: link.map_face });
    let c2 = conflict_for(q.criteria.conflict_rule, link.adj_addr, Connection::Face { face: link.adj_map_face });
    let landing = Connection::Face { face: link.adj_face };
    let next = links_from(hex_at(map, link.adj_addr), landing);
    let p2 = p.push(Step { addr: a, conn: conns[i] }).push(Step { addr: link.adj_addr, conn: landing });
    let counts2 = (counts.0, counts.1, (counts.2 + 1) as usize);
    let (ch, f) = choose|ch: Seq<int>, f: nat|
        #[trigger] path_at(map, q, p2, with_conflict(with_conflict(cs, c1), c2), counts2, link.adj_addr, next[k], ch, f)
            == Some(w);
    let ch2 = seq![i, k].add(ch);
    assert(ch2.drop_first().drop_first() =~= ch);
    assert(ch2.drop_first()[0] == k);
    assert(path_over(map, q, p, cs, counts, a, conns, ch2, f) == path_at(
        map,
        q,
        p2,
        with_conflict(with_conflict(cs, c1), c2),
        counts2,
        link.adj_addr,
        next[k],
        ch,
        f,
    ));
}

/// The connections of a tile, as a sequence: none where there are none.
pub open spec fn conns_seq(conns: Option<&Vec<Connection>>) -> Seq<Connection> {
    match conns {
        Some(cs) => cs@,
        None => Seq::empty(),
    }
}

/// Whether the first path after the first `n` of `ps` takes the steps of
/// `r`, where `r` is a path.
pub open spec fn records_first(ps: Seq<Path>, n: int, r: Option<Seq<Step>>) -> bool {
    r matches Some(w) ==> ps.len() > n && ps[n].steps@ == w
}

/// A step that is not allowed leads the search nowhere.
proof fn lemma_first_at_refused(map: RouteMap, q: Query, p: Seq<Step>, cs: Set<Conflict>, a: HexAddress, conn: Connection)
    requires
        passes_through(p, a, conn) || !allowed(cs, conflict_for(q.criteria.conflict_rule, a, conn)) || behind_start(
            map,
            q,
            Step { addr: a, conn },
        ),
    ensures
        forall|fuel: nat| #[trigger] first_path_at(map, q, p, cs, a, conn, fuel) is None,
{
}

/// A step that is not allowed leads the search nowhere, whatever the
/// choices.
proof fn lemma_path_at_refused(
    map: RouteMap,
    q: Query,
    p: Seq<Step>,
    cs: Set<Conflict>,
    counts: (usize, usize, usize),
    a: HexAddress,
    conn: Connection,
)
    requires
        passes_through(p, a, conn) || !allowed(cs, conflict_for(q.criteria.conflict_rule, a, conn)) || behind_start(
            map,
            q,
            Step { addr: a, conn },
        ),
    ensures
        forall|ch: Seq<int>, fuel: nat| #[trigger] path_at(map, q, p, cs, counts, a, conn, ch, fuel) is None,
{
}

/// Where a step is allowed, the search reaches first the stop that it
/// steps to, or what it reaches first from there.
proof fn lemma_first_at_step(
    map: RouteMap,
    q: Query,
    p: Seq<Step>,
    cs: Set<Conflict>,
    a: HexAddress,
    conn: Connection,
    ps: Seq<Path>,
    n: int,
)
    requires
        !passes_through(p, a, conn),
        allowed(cs, conflict_for(q.criteria.conflict_rule, a, conn)),
        !behind_start(map, q, Step { addr: a, conn }),
        conn is City || conn is Dit ==> ps.len() > n && ps[n].steps@ == p.push(Step { addr: a, conn }),
        !(conn is City || conn is Dit) ==> forall|fuel: nat|
            records_first(
                ps,
                n,
                #[trigger] first_path_over(
                    map,
                    q,
                    p.push(Step { addr: a, conn }),
                    with_conflict(cs, conflict_for(q.criteria.conflict_rule, a, conn)),
                    a,
                    links_from(hex_at(map, a), flip(conn)),
                    fuel,
                ),
            ),
    ensures
        forall|fuel: nat| records_first(ps, n, #[trigger] first_path_at(map, q, p, cs, a, conn, fuel)),
{
    assert forall|fuel: nat| records_first(ps, n, #[trigger] first_path_at(map, q, p, cs, a, conn, fuel)) by {
        if fuel > 0 && !(conn is City || conn is Dit) {
            let f1 = (fuel - 1) as nat;
            assert(first_path_at(map, q, p, cs, a, conn, fuel) == first_path_over(
                map,
                q,
                p.push(Step { addr: a, conn }),
                with_conflict(cs, conflict_for(q.criteria.conflict_rule, a, conn)),
                a,
                links_from(hex_at(map, a), flip(conn)),
                f1,
            ));
        }
    }
}

/// On a searchable map, no face that a hex touches another at pairs two
/// upper faces.
proof fn lemma_faces_paired(map: RouteMap, i: int, f: crate::hex::HexFace)
    requires
        map.searchable(),
        0 <= i < map.hexes@.len(),
    ensures
        face_link_for(map.hexes@[i], f) matches Some(l) ==> !(upper_face(l.map_face) && upper_face(
            l.adj_map_face,
        )),
{
    let h = map.hexes@[i];
    if exists|j: int| 0 <= j < h.faces@.len() && #[trigger] h.faces@[j].face == f {
        let j = choose|j: int| 0 <= j < h.faces@.len() && #[trigger] h.faces@[j].face == f;
        assert(upper_face(map.hexes@[i].faces@[j].map_face) ==> !upper_face(map.hexes@[i].faces@[j].adj_map_face));
    }
}

/// On a searchable map, the hex at the address of the `i`th hex is that hex.
proof fn lemma_hex_at(map: RouteMap, i: int)
    requires
        map.searchable(),
        0 <= i < map.hexes@.len(),
    ensures
        hex_index(map.hexes@, map.hexes@[i].addr) == Some(i),
        hex_at(map, map.hexes@[i].addr) == map.hexes@[i],
{
    let hs = map.hexes@;
    assert(hs[i].addr == hs[i].addr);
    let c = hex_index(hs, hs[i].addr)->0;
    assert(hs[c].addr == hs[i].addr);
    if c < i {
        assert(hs[c].addr != hs[i].addr);
    } else if c > i {
        assert(hs[i].addr != hs[c].addr);
    }
}

/// The links that a well-formed tile holds from a connection are those of
/// its one link from that connection.
proof fn lemma_links_from(h: MapHex, c: Connection, conns: Option<&Vec<Connection>>)
    requires
        hex_well_formed(h),
        match conns {
            Some(cs) => exists|j: int|
                0 <= j < h.links@.len() && h.links@[j].from == c && #[trigger] h.links@[j].to@ == cs@,
            None => forall|j: int| 0 <= j < h.links@.len() ==> h.links@[j].from != c,
        },
    ensures
        links_from(h, c) == conns_seq(conns),
{
    if let Some(cs) = conns {
        let j = choose|j: int| 0 <= j < h.links@.len() && h.links@[j].from == c && #[trigger] h.links@[j].to@ == cs@;
        assert(h.links@[j].from == c);
        let k = choose|k: int| 0 <= k < h.links@.len() && #[trigger] h.links@[k].from == c;
        if k < j {
            assert(h.links@[k].from != h.links@[j].from);
        } else if k > j {
            assert(h.links@[j].from != h.links@[k].from);
        }
    } else {
        assert(!exists|j: int| 0 <= j < h.links@.len() && #[trigger] h.links@[j].from == c);
    }
}

/// What lies beyond a face of a well-formed tile is what its one link for
/// that face says.
proof fn lemma_face_link_for(h: MapHex, f: crate::hex::HexFace, r: Option<&FaceLink>)
    requires
        hex_well_formed(h),
        match r {
            Some(l) => exists|j: int| 0 <= j < h.faces@.len() && #[trigger] h.faces@[j] == *l && l.face == f,
            None => forall|j: int| 0 <= j < h.faces@.len() ==> h.faces@[j].face != f,
        },
    ensures
        face_link_for(h, f) == match r {
            Some(l) => Some(*l),
            None => None::<FaceLink>,
        },
{
    if let Some(l) = r {
        let j = choose|j: int| 0 <= j < h.faces@.len() && #[trigger] h.faces@[j] == *l && l.face == f;
        assert(h.faces@[j].face == f);
        let k = choose|k: int| 0 <= k < h.faces@.len() && #[trigger] h.faces@[k].face == f;
        if k < j {
            assert(h.faces@[k].face != h.faces@[j].face);
        } else if k > j {
            assert(h.faces@[j].face != h.faces@[k].face);
        }
    } else {
        assert(!exists|j: int| 0 <= j < h.faces@.len() && #[trigger] h.faces@[j].face == f);
    }
}

/// Whether a path has already passed through an element: a step on the
/// same hex at an equivalent connection.
pub open spec fn passes_through(path: Seq<Step>, addr: HexAddress, conn: Connection) -> bool {
    exists|i: int| 0 <= i < path.len() && #[trigger] path[i].addr == addr && equivalent(path[i].conn, conn)
}

/// Returns whether the path has already passed through the element.
fn already_visited(path: &Vec<Step>, addr: &HexAddress, conn: &Connection) -> (r: bool)
    ensures
        r == passes_through(path@, *addr, *conn),
{
    let mut i: usize = 0;
    while i < path.len()
        invariant
            i <= path@.len(),
            forall|j: int| 0 <= j < i ==> !(#[trigger] path@[j].addr == *addr && equivalent(path@[j].conn, *conn)),
        decreases path@.len() - i,
    {
        if path[i].addr == *addr && path[i].conn.equivalent_to(conn) {
            assert(path@[i as int].addr == *addr);
            return true;
        }
        i = i + 1;
    }
    false
}

/// The order of (hex, city) pairs: by row, then column, then city.
pub open spec fn hex_city_lt(a: HexAddress, a_ix: usize, b: HexAddress, b_ix: usize) -> bool {
    ||| a.row_of() < b.row_of()
    ||| a.row_of() == b.row_of() && a.col_of() < b.col_of()
    ||| a.row_of() == b.row_of() && a.col_of() == b.col_of() && a_ix < b_ix
}

/// Returns whether the pair `(a, a_ix)` precedes the pair `(b, b_ix)`.
fn hex_city_before(a: &HexAddress, a_ix: usize, b: &HexAddress, b_ix: usize) -> (r: bool)
    ensures
        r == hex_city_lt(*a, a_ix, *b, b_ix),
{
    let (ar, ac) = (a.row(), a.col());
    let (br, bc) = (b.row(), b.col());
    ar < br || (ar == br && ac < bc) || (ar == br && ac == bc && a_ix < b_ix)
}

/// Searches onwards from the connection `conn` of the hex `hix`, recording
/// each path that ends at a city or dit, and restores the path that is
/// being extended.
#[verifier::rlimit(80)]
fn depth_first_search(
    map: &RouteMap,
    query: &Query,
    ctx: &mut Context,
    paths: &mut Vec<Path>,
    hix: usize,
    conn: Connection,
)
    requires
        map.searchable(),
        query_ok(*map, *query),
        hix < map.hexes@.len(),
        in_links(map.hexes@[hix as int], conn),
        old(ctx).wf(*map, *query),
        old(ctx).path@.len() <= 3 * old(ctx).seen@.len(),
        within_limit(query.criteria.path_limit, old(ctx).num_cities + 1, old(ctx).num_visits + 1),
        forall|k: int| 0 <= k < old(paths)@.len() ==> sound_path(*map, *query, #[trigger] old(paths)@[k]),
    ensures
        final(ctx).trail() == old(ctx).trail(),
        final(ctx).wf(*map, *query),
        forall|k: int| 0 <= k < final(paths)@.len() ==> sound_path(*map, *query, #[trigger] final(paths)@[k]),
        final(paths)@.len() >= old(paths)@.len(),
        forall|k: int| 0 <= k < old(paths)@.len() ==> final(paths)@[k] == old(paths)@[k],
        final(ctx).conflicts@ == old(ctx).conflicts@,
        forall|k: int|
            old(paths)@.len() <= k < final(paths)@.len() ==> reached_at(
                *map,
                *query,
                old(ctx).path@,
                old(ctx).conflicts@,
                (old(ctx).num_cities, old(ctx).num_visits, old(ctx).num_hexes),
                map.hexes@[hix as int].addr,
                conn,
                #[trigger] final(paths)@[k].steps@,
            ),
        forall|ch: Seq<int>, fuel: nat|
            found_among(final(paths)@, #[trigger] path_at(
                *map,
                *query,
                old(ctx).path@,
                old(ctx).conflicts@,
                (old(ctx).num_cities, old(ctx).num_visits, old(ctx).num_hexes),
                map.hexes@[hix as int].addr,
                conn,
                ch,
                fuel,
            )),
        forall|fuel: nat|
            records_first(final(paths)@, old(paths)@.len() as int, #[trigger] first_path_at(
                *map,
                *query,
                old(ctx).path@,
                old(ctx).conflicts@,
                map.hexes@[hix as int].addr,
                conn,
                fuel,
            )),
    decreases key_bound(*map) - old(ctx).seen@.len(), 0int,
{
    let ghost t0 = ctx.trail();
    let ghost c0 = ctx.conflicts@;
    let ghost n0 = paths@.len();
    let ghost conn0 = conn;
    proof {
        lemma_hex_at(*map, hix as int);
    }
    let addr = map.hexes[hix].addr;
    let ghost counts0 = (ctx.num_cities, ctx.num_visits, ctx.num_hexes);
    if already_visited(&ctx.path, &addr, &conn) {
        proof {
            lemma_first_at_refused(*map, *query, t0.path, c0, addr, conn);
            lemma_path_at_refused(*map, *query, t0.path, c0, counts0, addr, conn);
        }
        return;
    }
    // Check if this connection conflicts with an earlier connection.
    let conflict = query.criteria.conflict_rule.maybe_conflict(&addr, &conn);
    if let Some(c) = conflict {
        if ctx.conflicts.contains(&c) {
            proof {
                lemma_first_at_refused(*map, *query, t0.path, c0, addr, conn);
                lemma_path_at_refused(*map, *query, t0.path, c0, counts0, addr, conn);
            }
            return;
        }
        ctx.conflicts.insert(c);
    }
    assert(allowed(c0, conflict));
    assert(ctx.conflicts@ == with_conflict(c0, conflict));
    let route_conflict = query.criteria.route_conflict_rule.maybe_conflict(&addr, &conn);
    if let Some(c) = route_conflict {
        ctx.route_conflicts.insert(c);
    }
    // A city that holds a matching token can be reached from the start in
    // either direction; explore it in one direction only. Nothing that this
    // step added stays behind.
    if let Connection::City { ix: city_ix } = conn {
        let (_, has_token) = map.hexes[hix].city_tokens(city_ix, &query.criteria.token);
        if has_token {
            if let Connection::City { ix: start_ix } = query.from {
                if hex_city_before(&addr, city_ix, &query.addr, start_ix) {
                    if let Some(c) = conflict {
                        ctx.conflicts.remove(&c);
                    }
                    if let Some(c) = route_conflict {
                        ctx.route_conflicts.remove(&c);
                    }
                    proof {
                        assert(map.hexes@[hix as int].addr == addr);
                        assert(behind_start(*map, *query, Step { addr, conn }));
                        lemma_first_at_refused(*map, *query, t0.path, c0, addr, conn);
                        lemma_path_at_refused(*map, *query, t0.path, c0, counts0, addr, conn);
                        assert(ctx.conflicts@ =~= c0);
                    }
                    return;
                }
            }
        }
    }
    let ghost key = elem_key(addr, conn);
    assert(!passes_through(t0.path, addr, conn0));
    proof {
        let step = Step { addr, conn };
        assert(!behind_start(*map, *query, step)) by {
            if let Connection::City { ix } = conn {
                if behind_start(*map, *query, step) {
                    let i = choose|i: int|
                        0 <= i < map.hexes@.len() && #[trigger] map.hexes@[i].addr == addr && holds_token(
                            map.hexes@[i],
                            ix,
                            query.criteria.token,
                        ) && hex_city_lt(addr, ix, query.addr, start_city(*query));
                    if i != hix {
                        if i < hix {
                            assert(map.hexes@[i].addr != map.hexes@[hix as int].addr);
                        } else {
                            assert(map.hexes@[hix as int].addr != map.hexes@[i].addr);
                        }
                    }
                }
            }
        }
        lemma_all_keys_contain(map.hexes@, hix as int, conn);
        lemma_key_set(*map, *query);
        assert(!ctx.seen@.contains(key)) by {
            if ctx.seen@.contains(key) {
                let i = choose|i: int|
                    0 <= i < ctx.path@.len() && elem_key(ctx.path@[i].addr, ctx.path@[i].conn) == key;
                lemma_conn_key(ctx.path@[i].conn, conn);
                assert(ctx.path@[i].addr == addr);
            }
        }
        assert(key_set(*map, *query).contains(key));
        vstd::set_lib::lemma_len_subset(ctx.seen@.insert(key), key_set(*map, *query));
    }
    // Record this step.
    ctx.path.push(Step { addr, conn });
    ctx.seen = Ghost(ctx.seen@.insert(key));
    proof {
        assert forall|k: (HexAddress, Connection)| #[trigger] ctx.seen@.contains(k) implies exists|i: int|
            0 <= i < ctx.path@.len() && elem_key(ctx.path@[i].addr, ctx.path@[i].conn) == k by {
            if k == key {
                assert(elem_key(ctx.path@.last().addr, ctx.path@.last().conn) == k);
            } else {
                assert(t0.seen.contains(k));
                let i = choose|i: int|
                    0 <= i < t0.path.len() && elem_key(t0.path[i].addr, t0.path[i].conn) == k;
                assert(ctx.path@[i] == t0.path[i]);
            }
        }
    }
    let ghost p1 = ctx.path@;
    let ghost c1set = ctx.conflicts@;
    let ghost after = (
        (counts0.0 + if conn0 is City { 1int } else { 0int }) as usize,
        (counts0.1 + 1) as usize,
        counts0.2,
    );
    // If this is a track connection, switch to the other end.
    let conn = match conn.other_end() {
        Some(c) => c,
        None => conn,
    };
    let hex = &map.hexes[hix];
    let conns = hex.connections(&conn);
    proof {
        assert(hex_well_formed(map.hexes@[hix as int]));
        lemma_links_from(map.hexes@[hix as int], conn, conns);
        assert(conn == flip(conn0));
        assert(ctx.path@ == t0.path.push(Step { addr, conn: conn0 }));
        assert(ctx.conflicts@ == with_conflict(c0, conflict));
    }
    proof {
        if let Some(cs) = conns {
            assert forall|k: int| 0 <= k < cs@.len() implies in_links(map.hexes@[hix as int], cs@[k]) by {
                let j = choose|j: int|
                    0 <= j < hex.links@.len() && hex.links@[j].from == conn && #[trigger] hex.links@[j].to@
                        == cs@;
                assert(hex.links@[j].to@[k] == cs@[k]);
            }
        }
    }
    match conn {
        Connection::City { ix: city_ix } => {
            assert(stop_in_range(map.hexes@[hix as int], conn));
            let visit = Visit {
                addr,
                revenue: hex.city_revenues[city_ix],
                visits: StopLocation::City { ix: city_ix },
            };
            proof {
                assert(visit_key(visit) == key);
                assert(visit_on_map(*map, visit));
            }
            ctx.num_visits = ctx.num_visits + 1;
            ctx.num_cities = ctx.num_cities + 1;
            ctx.visits.push(visit);
            proof {
                assert(ctx.visits@.drop_last() =~= t0.visits);
                lemma_visits_extended(t0.visits, visit, ctx.seen@, t0.seen);
            }
            let path = ctx.current_path(Ghost(*map));
            proof {
                assert(ctx.path@.last() == Step { addr, conn });
            }
            paths.push(path);
            assert(paths@[n0 as int].steps@ == t0.path.push(Step { addr, conn: conn0 }));
            // Trains cannot continue past an off-board city.
            if !hex.off_board {
                let spaces = hex.city_spaces[city_ix];
                let (num_tokens, has_token) = hex.city_tokens(city_ix, &query.criteria.token);
                let can_continue = spaces == 0 || num_tokens < spaces || has_token;
                if can_continue && ctx.can_continue(&query.criteria.path_limit) {
                    dfs_over(map, query, ctx, paths, hix, conns);
                }
            }
            proof {
                assert(hex_at(*map, addr) == map.hexes@[hix as int]);
                assert forall|ch: Seq<int>, fuel: nat| continues_past(*query, hex_at(*map, addr), conn0, after)
                    implies found_among(
                    paths@,
                    #[trigger] path_over(*map, *query, p1, c1set, after, addr, conns_seq(conns), ch, fuel),
                ) by {}
                assert forall|k: int| n0 < k < paths@.len() implies continues_past(*query, hex_at(*map, addr), conn0, after)
                    && reached_over(*map, *query, p1, c1set, after, addr, conns_seq(conns), #[trigger] paths@[k].steps@) by {}
            }
            ctx.visits.pop();
            ctx.num_cities = ctx.num_cities - 1;
            ctx.num_visits = ctx.num_visits - 1;
            assert(ctx.visits@ =~= t0.visits);
        },
        Connection::Dit { ix: dit_ix } => {
            assert(stop_in_range(map.hexes@[hix as int], conn));
            let visit = Visit {
                addr,
                revenue: hex.dit_revenues[dit_ix],
                visits: StopLocation::Dit { ix: dit_ix },
            };
            proof {
                assert(visit_key(visit) == key);
                assert(visit_on_map(*map, visit));
            }
            ctx.num_visits = ctx.num_visits + 1;
            ctx.num_dits = ctx.num_dits + 1;
            ctx.visits.push(visit);
            proof {
                assert(ctx.visits@.drop_last() =~= t0.visits);
                lemma_visits_extended(t0.visits, visit, ctx.seen@, t0.seen);
            }
            let path = ctx.current_path(Ghost(*map));
            proof {
                assert(ctx.path@.last() == Step { addr, conn });
            }
            paths.push(path);
            assert(paths@[n0 as int].steps@ == t0.path.push(Step { addr, conn: conn0 }));
            // Trains cannot continue past an off-board dit.
            if !hex.off_board && ctx.can_continue(&query.criteria.path_limit) {
                dfs_over(map, query, ctx, paths, hix, conns);
            }
            proof {
                assert(hex_at(*map, addr) == map.hexes@[hix as int]);
                assert forall|ch: Seq<int>, fuel: nat| continues_past(*query, hex_at(*map, addr), conn0, after)
                    implies found_among(
                    paths@,
                    #[trigger] path_over(*map, *query, p1, c1set, after, addr, conns_seq(conns), ch, fuel),
                ) by {}
                assert forall|k: int| n0 < k < paths@.len() implies continues_past(*query, hex_at(*map, addr), conn0, after)
                    && reached_over(*map, *query, p1, c1set, after, addr, conns_seq(conns), #[trigger] paths@[k].steps@) by {}
            }
            ctx.visits.pop();
            ctx.num_dits = ctx.num_dits - 1;
            ctx.num_visits = ctx.num_visits - 1;
            assert(ctx.visits@ =~= t0.visits);
        },
        _ => {
            proof {
                assert(hex_at(*map, addr) == map.hexes@[hix as int]);
                assert(conns_seq(conns) == links_from(hex_at(*map, addr), flip(conn0)));
            }
            dfs_over(map, query, ctx, paths, hix, conns);
            proof {
                assert forall|ch: Seq<int>, fuel: nat| found_among(
                    paths@,
                    #[trigger] path_over(*map, *query, p1, c1set, counts0, addr, conns_seq(conns), ch, fuel),
                ) by {}
                assert forall|k: int| n0 <= k < paths@.len() implies reached_over(
                    *map,
                    *query,
                    p1,
                    c1set,
                    counts0,
                    addr,
                    conns_seq(conns),
                    #[trigger] paths@[k].steps@,
                ) by {}
            }
        },
    }
    // Remove this step and any conflict that it added.
    ctx.path.pop();
    ctx.seen = Ghost(t0.seen);
    assert(ctx.path@ =~= t0.path);
    if let Some(c) = conflict {
        ctx.conflicts.remove(&c);
    }
    if let Some(c) = route_conflict {
        ctx.route_conflicts.remove(&c);
    }
    proof {
        lemma_first_at_step(*map, *query, t0.path, c0, addr, conn0, paths@, n0 as int);
        assert(ctx.conflicts@ =~= c0);
        assert forall|k: int| n0 <= k < paths@.len() implies reached_at(
            *map,
            *query,
            t0.path,
            c0,
            counts0,
            addr,
            conn0,
            #[trigger] paths@[k].steps@,
        ) by {
            if (conn0 is City || conn0 is Dit) && k == n0 {
                lemma_reached_stop(*map, *query, t0.path, c0, counts0, addr, conn0);
            } else {
                lemma_reached_onwards(*map, *query, t0.path, c0, counts0, addr, conn0, after, paths@[k].steps@);
            }
        }
        assert forall|ch: Seq<int>, fuel: nat| found_among(
            paths@,
            #[trigger] path_at(*map, *query, t0.path, c0, counts0, addr, conn0, ch, fuel),
        ) by {
            if fuel > 0 {
                let f1 = (fuel - 1) as nat;
                if conn0 is City || conn0 is Dit {
                    if ch.len() == 0 {
                        assert(paths@[n0 as int].steps@ == t0.path.push(Step { addr, conn: conn0 }));
                    } else {
                        assert(found_among(paths@, path_over(*map, *query, p1, c1set, after, addr, conns_seq(conns), ch, f1))
                            || !continues_past(*query, hex_at(*map, addr), conn0, after));
                    }
                } else {
                    assert(found_among(paths@, path_over(*map, *query, p1, c1set, counts0, addr, conns_seq(conns), ch, f1)));
                }
            }
        }
    }
}

/// The visits stay distinct when a visit to a newly seen element is added.
proof fn lemma_visits_extended(
    vs: Seq<Visit>,
    v: Visit,
    seen: Set<(HexAddress, Connection)>,
    old_seen: Set<(HexAddress, Connection)>,
)
    requires
        distinct_stops(vs),
        forall|i: int| 0 <= i < vs.len() ==> old_seen.contains(visit_key(#[trigger] vs[i])),
        !old_seen.contains(visit_key(v)),
        seen == old_seen.insert(visit_key(v)),
    ensures
        distinct_stops(vs.push(v)),
        forall|i: int| 0 <= i < vs.push(v).len() ==> seen.contains(visit_key(#[trigger] vs.push(v)[i])),
{
    let ws = vs.push(v);
    assert forall|i: int, j: int| 0 <= i < j < ws.len() implies visit_key(#[trigger] ws[i]) != visit_key(
        #[trigger] ws[j],
    ) by {
        if j == vs.len() {
            assert(old_seen.contains(visit_key(vs[i])));
        } else {
            assert(ws[i] == vs[i] && ws[j] == vs[j]);
        }
    }
    assert forall|i: int| 0 <= i < ws.len() implies seen.contains(visit_key(#[trigger] ws[i])) by {
        if i < vs.len() {
            assert(ws[i] == vs[i]);
        }
    }
}

/// Searches onwards from each of the connections `conns` of the hex `hix`:
/// a hex face leads to the neighbouring hex, unless this route has crossed
/// it already.
#[verifier::rlimit(50)]
fn dfs_over(
    map: &RouteMap,
    query: &Query,
    ctx: &mut Context,
    paths: &mut Vec<Path>,
    hix: usize,
    conns: Option<&Vec<Connection>>,
)
    requires
        map.searchable(),
        query_ok(*map, *query),
        hix < map.hexes@.len(),
        conns matches Some(cs) ==> forall|k: int| 0 <= k < cs@.len() ==> in_links(map.hexes@[hix as int], #[trigger] cs@[k]),
        old(ctx).wf(*map, *query),
        old(ctx).path@.len() + 2 <= 3 * old(ctx).seen@.len(),
        within_limit(query.criteria.path_limit, old(ctx).num_cities + 1, old(ctx).num_visits + 1),
        forall|k: int| 0 <= k < old(paths)@.len() ==> sound_path(*map, *query, #[trigger] old(paths)@[k]),
    ensures
        final(ctx).trail() == old(ctx).trail(),
        final(ctx).wf(*map, *query),
        forall|k: int| 0 <= k < final(paths)@.len() ==> sound_path(*map, *query, #[trigger] final(paths)@[k]),
        final(paths)@.len() >= old(paths)@.len(),
        forall|k: int| 0 <= k < old(paths)@.len() ==> final(paths)@[k] == old(paths)@[k],
        final(ctx).conflicts@ == old(ctx).conflicts@,
        forall|k: int|
            old(paths)@.len() <= k < final(paths)@.len() ==> reached_over(
                *map,
                *query,
                old(ctx).path@,
                old(ctx).conflicts@,
                (old(ctx).num_cities, old(ctx).num_visits, old(ctx).num_hexes),
                map.hexes@[hix as int].addr,
                conns_seq(conns),
                #[trigger] final(paths)@[k].steps@,
            ),
        forall|ch: Seq<int>, fuel: nat|
            found_among(final(paths)@, #[trigger] path_over(
                *map,
                *query,
                old(ctx).path@,
                old(ctx).conflicts@,
                (old(ctx).num_cities, old(ctx).num_visits, old(ctx).num_hexes),
                map.hexes@[hix as int].addr,
                conns_seq(conns),
                ch,
                fuel,
            )),
        forall|fuel: nat|
            records_first(final(paths)@, old(paths)@.len() as int, #[trigger] first_path_over(
                *map,
                *query,
                old(ctx).path@,
                old(ctx).conflicts@,
                map.hexes@[hix as int].addr,
                conns_seq(conns),
                fuel,
            )),
    decreases key_bound(*map) - old(ctx).seen@.len(), 1int,
{
    let ghost t0 = ctx.trail();
    let ghost c_old = ctx.conflicts@;
    let ghost p_old = paths@;
    let ghost addr0 = map.hexes@[hix as int].addr;
    let ghost counts0 = (ctx.num_cities, ctx.num_visits, ctx.num_hexes);
    proof {
        lemma_hex_at(*map, hix as int);
    }
    if let Some(connections) = conns {
        let mut i: usize = 0;
        while i < connections.len()
            invariant
                map.searchable(),
                query_ok(*map, *query),
                hix < map.hexes@.len(),
                forall|k: int| 0 <= k < connections@.len() ==> in_links(map.hexes@[hix as int], #[trigger] connections@[k]),
                ctx.trail() == t0,
                t0 == old(ctx).trail(),
                ctx.wf(*map, *query),
                t0.path.len() + 2 <= 3 * t0.seen.len(),
                within_limit(query.criteria.path_limit, t0.num_cities + 1, t0.num_visits + 1),
                key_bound(*map) - t0.seen.len() >= 0,
                forall|k: int| 0 <= k < paths@.len() ==> sound_path(*map, *query, #[trigger] paths@[k]),
                conns_seq(conns) == connections@,
                addr0 == map.hexes@[hix as int].addr,
                hex_at(*map, addr0) == map.hexes@[hix as int],
                p_old == old(paths)@,
                c_old == old(ctx).conflicts@,
                paths@.len() >= p_old.len(),
                forall|k: int| 0 <= k < p_old.len() ==> paths@[k] == p_old[k],
                i == 0 ==> paths@ == p_old && ctx.conflicts@ == c_old,
                ctx.conflicts@ == c_old,
                counts0 == (t0.num_cities, t0.num_visits, t0.num_hexes),
                i <= connections@.len(),
                forall|m: int|
                    p_old.len() <= m < paths@.len() ==> reached_over(
                        *map,
                        *query,
                        t0.path,
                        c_old,
                        counts0,
                        addr0,
                        connections@,
                        #[trigger] paths@[m].steps@,
                    ),
                forall|ch: Seq<int>, fuel: nat|
                    ch.len() > 0 && 0 <= ch[0] < i ==> found_among(
                        paths@,
                        #[trigger] path_over(*map, *query, t0.path, c_old, counts0, addr0, connections@, ch, fuel),
                    ),
                i > 0 ==> forall|fuel: nat|
                    records_first(paths@, p_old.len() as int, #[trigger] first_path_over(*map, *query, t0.path, c_old, addr0, connections@, fuel)),
            decreases connections@.len() - i,
        {
            let next_conn = connections[i];
            let ghost p_iter = paths@;
            assert(in_links(map.hexes@[hix as int], connections@[i as int]));
            match next_conn {
                Connection::Face { face } => {
                    let hex = &map.hexes[hix];
                    let addr = hex.addr;
                    let link_opt = hex.face_link(&face);
                    proof {
                        assert(hex_well_formed(map.hexes@[hix as int]));
                        lemma_face_link_for(map.hexes@[hix as int], face, link_opt);
                    }
                    if let Some(link) = link_opt {
                        if let Some(nix) = map.hex_ix(&link.adj_addr) {
                            let new_addr = link.adj_addr;
                            let new_face = link.adj_face;
                            let map_conn_1 = Connection::Face { face: link.map_face };
                            let map_conn_2 = Connection::Face { face: link.adj_map_face };
                            // Record the traversed hex faces if a single route
                            // cannot reuse them.
                            let conflict_1 = query.criteria.conflict_rule.maybe_conflict(&addr, &map_conn_1);
                            let conflict_2 = query.criteria.conflict_rule.maybe_conflict(&new_addr, &map_conn_2);
                            let refused_1 = match conflict_1 {
                                Some(c) => ctx.conflicts.contains(&c),
                                None => false,
                            };
                            let refused_2 = match conflict_2 {
                                Some(c) => ctx.conflicts.contains(&c),
                                None => false,
                            };
                            proof {
                                lemma_faces_paired(*map, hix as int, face);
                            }
                            // A face that this route has crossed already is
                            // not crossed again: the search goes on with the
                            // next connection.
                            if !refused_1 && !refused_2 {
                                if let Some(c) = conflict_1 {
                                    ctx.conflicts.insert(c);
                                }
                                if let Some(c) = conflict_2 {
                                    ctx.conflicts.insert(c);
                                }
                                // Record the traversed hex faces if multiple
                                // routes cannot share them.
                                let route_conflict_1 = query.criteria.route_conflict_rule.maybe_conflict(
                                    &addr,
                                    &map_conn_1,
                                );
                                if let Some(c) = route_conflict_1 {
                                    ctx.route_conflicts.insert(c);
                                }
                                let route_conflict_2 = query.criteria.route_conflict_rule.maybe_conflict(
                                    &new_addr,
                                    &map_conn_2,
                                );
                                if let Some(c) = route_conflict_2 {
                                    ctx.route_conflicts.insert(c);
                                }
                                ctx.path.push(Step { addr, conn: next_conn });
                                ctx.path.push(Step { addr: new_addr, conn: Connection::Face { face: new_face } });
                                ctx.num_hexes = ctx.num_hexes + 1;
                                let ghost t1 = ctx.trail();
                                proof {
                                    assert(ctx.path@[0] == t0.path[0]);
                                    assert forall|k: (HexAddress, Connection)| #[trigger] ctx.seen@.contains(k) implies exists|j: int|
                                        0 <= j < ctx.path@.len() && elem_key(ctx.path@[j].addr, ctx.path@[j].conn) == k by {
                                        let j = choose|j: int|
                                            0 <= j < t0.path.len() && elem_key(t0.path[j].addr, t0.path[j].conn) == k;
                                        assert(ctx.path@[j] == t0.path[j]);
                                    }
                                }
                                let ghost c2set = ctx.conflicts@;
                                let new_hex = &map.hexes[nix];
                                let new_conns = new_hex.connections(&Connection::Face { face: new_face });
                                proof {
                                    lemma_hex_at(*map, nix as int);
                                    assert(hex_well_formed(map.hexes@[nix as int]));
                                    lemma_links_from(map.hexes@[nix as int], Connection::Face { face: new_face }, new_conns);
                                    assert(t1.path == t0.path.push(Step { addr, conn: next_conn }).push(
                                        Step { addr: new_addr, conn: Connection::Face { face: new_face } },
                                    ));
                                    assert(i == 0 ==> c2set == with_conflict(with_conflict(c_old, conflict_1), conflict_2));
                                }
                                if let Some(ncs) = new_conns {
                                    proof {
                                        assert(c2set == with_conflict(with_conflict(c_old, conflict_1), conflict_2));
                                        assert(ncs@ == links_from(hex_at(*map, new_addr), Connection::Face { face: new_face }));
                                        assert forall|j: int, w: Seq<Step>|
                                            0 <= j < ncs@.len() && #[trigger] reached_at(
                                                *map,
                                                *query,
                                                t1.path,
                                                c2set,
                                                (t1.num_cities, t1.num_visits, t1.num_hexes),
                                                new_addr,
                                                ncs@[j],
                                                w,
                                            ) implies reached_over(*map, *query, t0.path, c_old, counts0, addr0, connections@, w) by {
                                            assert(connections@[i as int] == next_conn);
                                            lemma_reached_over_face(
                                                *map,
                                                *query,
                                                t0.path,
                                                c_old,
                                                counts0,
                                                addr0,
                                                connections@,
                                                i as int,
                                                *link,
                                                j,
                                                w,
                                            );
                                        }
                                    }
                                    let mut k: usize = 0;
                                    while k < ncs.len()
                                        invariant
                                            forall|j: int, w: Seq<Step>|
                                                0 <= j < ncs@.len() && #[trigger] reached_at(
                                                    *map,
                                                    *query,
                                                    t1.path,
                                                    c2set,
                                                    (t1.num_cities, t1.num_visits, t1.num_hexes),
                                                    new_addr,
                                                    ncs@[j],
                                                    w,
                                                ) ==> reached_over(*map, *query, t0.path, c_old, counts0, addr0, connections@, w),
                                            forall|m: int|
                                                p_old.len() <= m < paths@.len() ==> reached_over(
                                                    *map,
                                                    *query,
                                                    t0.path,
                                                    c_old,
                                                    counts0,
                                                    addr0,
                                                    connections@,
                                                    #[trigger] paths@[m].steps@,
                                                ),
                                            counts0 == (t0.num_cities, t0.num_visits, t0.num_hexes),
                                            map.searchable(),
                                            query_ok(*map, *query),
                                            nix < map.hexes@.len(),
                                            exists|j: int|
                                                0 <= j < map.hexes@[nix as int].links@.len() && #[trigger] map.hexes@[nix as int].links@[j].to@
                                                    == ncs@,
                                            ctx.trail() == t1,
                                            ctx.wf(*map, *query),
                                            t1.path.len() <= 3 * t1.seen.len(),
                                            t1.seen == t0.seen,
                                            t1.num_cities == t0.num_cities,
                                            t1.num_visits == t0.num_visits,
                                            within_limit(query.criteria.path_limit, t0.num_cities + 1, t0.num_visits + 1),
                                            t0 == old(ctx).trail(),
                                            key_bound(*map) - t0.seen.len() >= 0,
                                            forall|m: int| 0 <= m < paths@.len() ==> sound_path(*map, *query, #[trigger] paths@[m]),
                                            p_old == old(paths)@,
                                            c_old == old(ctx).conflicts@,
                                            hix < map.hexes@.len(),
                                            addr0 == map.hexes@[hix as int].addr,
                                            connections@.len() > 0,
                                            paths@.len() >= p_old.len(),
                                            forall|m: int| 0 <= m < p_old.len() ==> paths@[m] == p_old[m],
                                            i == 0 && k == 0 ==> paths@ == p_old && ctx.conflicts@ == c2set,
                                            ctx.conflicts@ == c2set,
                                            k <= ncs@.len(),
                                            paths@.len() >= p_iter.len(),
                                            forall|m: int| 0 <= m < p_iter.len() ==> paths@[m] == p_iter[m],
                                            forall|j: int, rest: Seq<int>, fuel: nat|
                                                0 <= j < k ==> found_among(
                                                    paths@,
                                                    #[trigger] path_at(
                                                        *map,
                                                        *query,
                                                        t1.path,
                                                        c2set,
                                                        (t1.num_cities, t1.num_visits, t1.num_hexes),
                                                        new_addr,
                                                        ncs@[j],
                                                        rest,
                                                        fuel,
                                                    ),
                                                ),
                                            i == 0 && k > 0 ==> forall|fuel: nat|
                                                records_first(paths@, p_old.len() as int, #[trigger] first_path_at(*map, *query, t1.path, c2set, new_addr, ncs@[0], fuel)),
                                            i > 0 ==> forall|fuel: nat|
                                                records_first(paths@, p_old.len() as int, #[trigger] first_path_over(*map, *query, t0.path, c_old, addr0, connections@, fuel)),
                                            new_addr == map.hexes@[nix as int].addr,
                                        decreases ncs@.len() - k,
                                    {
                                        proof {
                                            let j = choose|j: int|
                                                0 <= j < map.hexes@[nix as int].links@.len() && #[trigger] map.hexes@[nix as int].links@[j].to@
                                                    == ncs@;
                                            assert(map.hexes@[nix as int].links@[j].to@[k as int] == ncs@[k as int]);
                                        }
                                        let ghost p_k = paths@;
                                        depth_first_search(map, query, ctx, paths, nix, ncs[k]);
                                        proof {
                                            assert forall|m: int| p_old.len() <= m < paths@.len() implies reached_over(
                                                *map,
                                                *query,
                                                t0.path,
                                                c_old,
                                                counts0,
                                                addr0,
                                                connections@,
                                                #[trigger] paths@[m].steps@,
                                            ) by {
                                                if m < p_k.len() {
                                                    assert(paths@[m] == p_k[m]);
                                                } else {
                                                    assert(reached_at(
                                                        *map,
                                                        *query,
                                                        t1.path,
                                                        c2set,
                                                        (t1.num_cities, t1.num_visits, t1.num_hexes),
                                                        new_addr,
                                                        ncs@[k as int],
                                                        paths@[m].steps@,
                                                    ));
                                                }
                                            }
                                            assert forall|j: int, rest: Seq<int>, fuel: nat| 0 <= j < k + 1 implies found_among(
                                                paths@,
                                                #[trigger] path_at(
                                                    *map,
                                                    *query,
                                                    t1.path,
                                                    c2set,
                                                    (t1.num_cities, t1.num_visits, t1.num_hexes),
                                                    new_addr,
                                                    ncs@[j],
                                                    rest,
                                                    fuel,
                                                ),
                                            ) by {
                                                if j < k {
                                                    lemma_found_grows(
                                                        p_k,
                                                        paths@,
                                                        path_at(
                                                            *map,
                                                            *query,
                                                            t1.path,
                                                            c2set,
                                                            (t1.num_cities, t1.num_visits, t1.num_hexes),
                                                            new_addr,
                                                            ncs@[j],
                                                            rest,
                                                            fuel,
                                                        ),
                                                    );
                                                }
                                            }
                                        }
                                        k = k + 1;
                                    }
                                }
                                proof {
                                    if i == 0 {
                                        assert forall|fuel: nat|
                                            records_first(paths@, p_old.len() as int, #[trigger] first_path_over(*map, *query, t0.path, c_old, addr0, connections@, fuel)) by {
                                            assert(connections@[0] == next_conn);
                                            if let Some(ncs) = new_conns {
                                                if ncs@.len() > 0 {
                                                    assert(first_path_over(*map, *query, t0.path, c_old, addr0, connections@, fuel)
                                                        == first_path_at(*map, *query, t1.path, c2set, new_addr, ncs@[0], fuel));
                                                }
                                            }
                                        }
                                    }
                                }
                                // Pop the two face connections.
                                ctx.num_hexes = ctx.num_hexes - 1;
                                ctx.path.pop();
                                ctx.path.pop();
                                assert(ctx.path@ =~= t0.path);
                                // Remove traversed hex face conflicts, if any.
                                if let Some(c) = conflict_1 {
                                    ctx.conflicts.remove(&c);
                                }
                                if let Some(c) = conflict_2 {
                                    ctx.conflicts.remove(&c);
                                }
                                if let Some(c) = route_conflict_1 {
                                    ctx.route_conflicts.remove(&c);
                                }
                                if let Some(c) = route_conflict_2 {
                                    ctx.route_conflicts.remove(&c);
                                }
                                proof {
                                    lemma_faces_paired(*map, hix as int, face);
                                    assert(ctx.conflicts@ =~= c_old);
                                    assert(c2set == with_conflict(with_conflict(c_old, conflict_1), conflict_2));
                                    let nexts = conns_seq(new_conns);
                                    assert(nexts == links_from(hex_at(*map, new_addr), Connection::Face { face: new_face }));
                                    assert forall|ch: Seq<int>, fuel: nat| ch.len() > 0 && ch[0] == i implies found_among(
                                        paths@,
                                        #[trigger] path_over(*map, *query, t0.path, c_old, counts0, addr0, connections@, ch, fuel),
                                    ) by {
                                        let rest = ch.drop_first();
                                        if rest.len() > 0 && 0 <= rest[0] < nexts.len() {
                                            assert(path_over(*map, *query, t0.path, c_old, counts0, addr0, connections@, ch, fuel)
                                                == path_at(
                                                *map,
                                                *query,
                                                t1.path,
                                                c2set,
                                                (t1.num_cities, t1.num_visits, t1.num_hexes),
                                                new_addr,
                                                nexts[rest[0]],
                                                rest.drop_first(),
                                                fuel,
                                            ));
                                        }
                                    }
                                }
                            }
                        }
                    }
                    proof {
                        if i == 0 {
                            assert forall|fuel: nat|
                                records_first(
                                    paths@,
                                    p_old.len() as int,
                                    #[trigger] first_path_over(*map, *query, t0.path, c_old, addr0, connections@, fuel),
                                ) by {
                                assert(connections@[0] == next_conn);
                            }
                        }
                        assert forall|ch: Seq<int>, fuel: nat| ch.len() > 0 && ch[0] == i implies found_among(
                            paths@,
                            #[trigger] path_over(*map, *query, t0.path, c_old, counts0, addr0, connections@, ch, fuel),
                        ) by {
                            assert(connections@[i as int] == next_conn);
                        }
                    }
                },
                _ => {
                    depth_first_search(map, query, ctx, paths, hix, next_conn);
                    proof {
                        assert forall|m: int| p_old.len() <= m < paths@.len() implies reached_over(
                            *map,
                            *query,
                            t0.path,
                            c_old,
                            counts0,
                            addr0,
                            connections@,
                            #[trigger] paths@[m].steps@,
                        ) by {
                            if m < p_iter.len() {
                                assert(paths@[m] == p_iter[m]);
                            } else {
                                assert(connections@[i as int] == next_conn);
                                lemma_reached_over_direct(
                                    *map,
                                    *query,
                                    t0.path,
                                    c_old,
                                    counts0,
                                    addr0,
                                    connections@,
                                    i as int,
                                    paths@[m].steps@,
                                );
                            }
                        }
                        assert forall|ch: Seq<int>, fuel: nat| ch.len() > 0 && ch[0] == i implies found_among(
                            paths@,
                            #[trigger] path_over(*map, *query, t0.path, c_old, counts0, addr0, connections@, ch, fuel),
                        ) by {
                            assert(connections@[i as int] == next_conn);
                            assert(path_over(*map, *query, t0.path, c_old, counts0, addr0, connections@, ch, fuel)
                                == path_at(*map, *query, t0.path, c_old, counts0, addr0, next_conn, ch.drop_first(), fuel));
                        }
                        if i == 0 {
                            assert forall|fuel: nat|
                                records_first(
                                    paths@,
                                    p_old.len() as int,
                                    #[trigger] first_path_over(*map, *query, t0.path, c_old, addr0, connections@, fuel),
                                ) by {
                                assert(connections@[0] == next_conn);
                                assert(first_path_over(*map, *query, t0.path, c_old, addr0, connections@, fuel)
                                    == first_path_at(*map, *query, t0.path, c_old, addr0, next_conn, fuel));
                            }
                        }
                    }
                },
            }
            proof {
                assert forall|ch: Seq<int>, fuel: nat| ch.len() > 0 && 0 <= ch[0] < i + 1 implies found_among(
                    paths@,
                    #[trigger] path_over(*map, *query, t0.path, c_old, counts0, addr0, connections@, ch, fuel),
                ) by {
                    if ch[0] < i {
                        lemma_found_grows(
                            p_iter,
                            paths@,
                            path_over(*map, *query, t0.path, c_old, counts0, addr0, connections@, ch, fuel),
                        );
                    }
                }
            }
            i = i + 1;
        }
    }
}

/// Whether the position `(i2, t2)` (a hex, then a token placed on it)
/// comes before the position `(i, t)`.
pub open spec fn placed_before(i2: int, t2: int, i: int, t: int) -> bool {
    i2 < i || (i2 == i && t2 < t)
}

/// Whether the `t`th token placed on the `i`th hex of the map is the
/// criteria's token.
pub open spec fn token_placed_at(map: RouteMap, c: Criteria, i: int, t: int) -> bool {
    0 <= i < map.hexes@.len() && 0 <= t < map.hexes@[i].tokens@.len() && map.hexes@[i].tokens@[t].token == c.token
}

/// Whether no token of the criteria is placed before the position `(i, t)`.
pub open spec fn none_placed_before(map: RouteMap, c: Criteria, i: int, t: int) -> bool {
    forall|i2: int, t2: int| placed_before(i2, t2, i, t) ==> !#[trigger] token_placed_at(map, c, i2, t2)
}

/// The query that starts at the city of the `t`th token placed on the `i`th
/// hex.
pub open spec fn query_at(map: RouteMap, c: Criteria, i: int, t: int) -> Query {
    Query {
        addr: map.hexes@[i].addr,
        from: Connection::City { ix: map.hexes@[i].tokens@[t].city_ix },
        criteria: c,
    }
}

/// Returns all valid paths that match the provided criteria, starting from
/// the specified token.
///
/// Each path starts at the query's city or dit, ends at a city or dit,
/// visits no city or dit twice, earns the revenue of the stops it visits,
/// and stays within the path limit. The search takes the connections of
/// each tile in order, so the first path found is the one that takes the
/// first connection at every step, where every step of it is allowed.
/// The search finds exactly the paths along the track: every path that
/// leaves the start along one of its tracks and then makes any choice of
/// connections that the conflict rule, the token spaces and the path limit
/// allow is among those found (a path between two cities that hold the
/// token is found from the earlier of them), and every path found is one of
/// these.
pub fn paths_from(map: &RouteMap, query: &Query) -> (paths: Vec<Path>)
    requires
        map.searchable(),
        query_ok(*map, *query),
    ensures
        forall|k: int| 0 <= k < paths@.len() ==> sound_path(*map, *query, #[trigger] paths@[k]),
        forall|k: int| 0 <= k < paths@.len() ==> found_by_search(*map, *query, #[trigger] paths@[k].steps@),
        forall|fuel: nat| records_first(paths@, 0, #[trigger] first_path(*map, *query, fuel)),
        forall|j: int, choices: Seq<int>, fuel: nat|
            0 <= j < links_from(hex_at(*map, query.addr), query.from).len() ==> found_among(
                paths@,
                #[trigger] path_from_start(*map, *query, j, choices, fuel),
            ),
{
    let mut ctx = Context::new(map, query);
    let mut paths: Vec<Path> = Vec::new();
    let hix = match map.hex_ix(&query.addr) {
        Some(i) => i,
        None => {
            return paths;
        },
    };
    // A token space that no track reaches starts no path.
    let conns = map.hexes[hix].connections(&query.from);
    proof {
        assert(hex_well_formed(map.hexes@[hix as int]));
        lemma_links_from(map.hexes@[hix as int], query.from, conns);
        assert(hex_at(*map, query.addr) == map.hexes@[hix as int]);
        assert(ctx.path@ =~= seq![start_step(*query)]);
    }
    let connections = match conns {
        Some(cs) => cs,
        None => {
            return paths;
        },
    };
    proof {
        lemma_key_set(*map, *query);
    }
    let mut i: usize = 0;
    while i < connections.len()
        invariant
            map.searchable(),
            query_ok(*map, *query),
            hix < map.hexes@.len(),
            exists|j: int|
                0 <= j < map.hexes@[hix as int].links@.len() && #[trigger] map.hexes@[hix as int].links@[j].to@
                    == connections@,
            ctx.wf(*map, *query),
            ctx.seen@ == Set::<(HexAddress, Connection)>::empty().insert(elem_key(query.addr, query.from)),
            ctx.seen@.len() == 1,
            ctx.path@.len() == 1,
            within_limit(query.criteria.path_limit, ctx.num_cities + 1, ctx.num_visits + 1),
            forall|k: int| 0 <= k < paths@.len() ==> sound_path(*map, *query, #[trigger] paths@[k]),
            forall|k: int| 0 <= k < paths@.len() ==> found_by_search(*map, *query, #[trigger] paths@[k].steps@),
            ctx.path@ == seq![start_step(*query)],
            map.hexes@[hix as int].addr == query.addr,
            links_from(hex_at(*map, query.addr), query.from) == connections@,
            i == 0 ==> paths@.len() == 0 && ctx.conflicts@ == start_conflicts(*query),
            i > 0 ==> forall|fuel: nat| records_first(paths@, 0, #[trigger] first_path(*map, *query, fuel)),
            i <= connections@.len(),
            ctx.conflicts@ == start_conflicts(*query),
            (ctx.num_cities, ctx.num_visits, ctx.num_hexes) == start_counts(*query),
            forall|j: int, choices: Seq<int>, fuel: nat|
                0 <= j < i ==> found_among(paths@, #[trigger] path_from_start(*map, *query, j, choices, fuel)),
        decreases connections@.len() - i,
    {
        proof {
            let j = choose|j: int|
                0 <= j < map.hexes@[hix as int].links@.len() && #[trigger] map.hexes@[hix as int].links@[j].to@
                    == connections@;
            assert(map.hexes@[hix as int].links@[j].to@[i as int] == connections@[i as int]);
        }
        let ghost before = paths@;
        let ghost c_before = ctx.conflicts@;
        depth_first_search(map, query, &mut ctx, &mut paths, hix, connections[i]);
        proof {
            assert forall|k: int| 0 <= k < paths@.len() implies found_by_search(*map, *query, #[trigger] paths@[k].steps@) by {
                if k < before.len() {
                    assert(paths@[k] == before[k]);
                } else {
                    let w = paths@[k].steps@;
                    assert(reached_at(
                        *map,
                        *query,
                        seq![start_step(*query)],
                        start_conflicts(*query),
                        start_counts(*query),
                        query.addr,
                        connections@[i as int],
                        w,
                    ));
                    let (ch, f) = choose|ch: Seq<int>, f: nat|
                        #[trigger] path_at(
                            *map,
                            *query,
                            seq![start_step(*query)],
                            start_conflicts(*query),
                            start_counts(*query),
                            query.addr,
                            connections@[i as int],
                            ch,
                            f,
                        ) == Some(w);
                    assert(path_from_start(*map, *query, i as int, ch, f) == Some(w));
                }
            }
            assert(ctx.path@ =~= seq![start_step(*query)]);
            assert forall|j: int, choices: Seq<int>, fuel: nat| 0 <= j < i + 1 implies found_among(
                paths@,
                #[trigger] path_from_start(*map, *query, j, choices, fuel),
            ) by {
                let r = path_from_start(*map, *query, j, choices, fuel);
                if j < i {
                    lemma_found_grows(before, paths@, r);
                } else {
                    assert(c_before == start_conflicts(*query));
                    assert(r == path_at(
                        *map,
                        *query,
                        seq![start_step(*query)],
                        c_before,
                        start_counts(*query),
                        map.hexes@[hix as int].addr,
                        connections@[i as int],
                        choices,
                        fuel,
                    ));
                }
            }
            assert forall|fuel: nat| records_first(paths@, 0, #[trigger] first_path(*map, *query, fuel)) by {
                if i > 0 {
                    assert(records_first(before, 0, first_path(*map, *query, fuel)));
                    if before.len() > 0 {
                        assert(paths@[0] == before[0]);
                    }
                }
            }
        }
        i = i + 1;
    }
    paths
}

/// Whether a path limit allows two paths that start at the same city to be
/// joined into one.
pub open spec fn limit_allows_join(limit: Option<PathLimit>, a: Path, b: Path) -> bool {
    match limit {
        Some(PathLimit::Cities { count }) => a.num_cities + b.num_cities - 1 <= count,
        Some(PathLimit::CitiesAndTowns { count }) => a.num_visits + b.num_visits - 1 <= count,
        Some(PathLimit::Hexes { count }) => a.num_hexes + b.num_hexes - 1 <= count,
        None => true,
    }
}

/// Whether two paths of a query may be joined: they share a single
/// conflict (their common start), and the joined path is within the limit.
pub open spec fn can_join(q: Query, a: Path, b: Path) -> bool {
    &&& a.conflicts@.intersect(b.conflicts@).len() == 1
    &&& limit_allows_join(q.criteria.path_limit, a, b)
}

/// Whether `p` is the path that runs from the end of `a` back to its start,
/// then along `b` to its end.
pub open spec fn is_join(p: Path, a: Path, b: Path) -> bool {
    &&& p.steps@ == a.steps@ + b.steps@.skip(1)
    &&& p.visits@ == a.visits@.reverse() + b.visits@.skip(1)
    &&& p.conflicts@ == a.conflicts@.union(b.conflicts@)
    &&& p.route_conflicts@ == a.route_conflicts@.union(b.route_conflicts@)
    &&& p.num_visits == p.visits@.len()
    &&& p.revenue == a.revenue + b.revenue - a.visits@[0].revenue
    &&& p.num_cities == a.num_cities + b.num_cities - 1
    &&& p.num_dits == a.num_dits + b.num_dits
    &&& p.num_hexes == a.num_hexes + b.num_hexes - 1
}

/// Whether `p` joins a pair of the paths `ps` that may be joined.
pub open spec fn joins_pair(q: Query, ps: Seq<Path>, p: Path) -> bool {
    exists|i: int, j: int|
        0 <= i < j < ps.len() && can_join(q, ps[i], ps[j]) && is_join(p, #[trigger] ps[i], #[trigger] ps[j])
}

/// Whether a path may be joined with other paths that start with the step
/// `s`, without any count or revenue leaving the range of a `usize`.
pub open spec fn joinable(p: Path, s: Step) -> bool {
    &&& p.steps@.len() > 0
    &&& p.steps@[0] == s
    &&& p.visits@.len() > 0
    &&& p.revenue >= p.visits@[0].revenue
    &&& 2 * p.revenue <= usize::MAX
    &&& 1 <= p.num_cities
    &&& 1 <= p.num_visits
    &&& 2 * p.num_cities <= usize::MAX
    &&& 2 * p.num_visits <= usize::MAX
    &&& 2 * p.num_dits <= usize::MAX
    &&& 1 <= p.num_hexes
    &&& 2 * p.num_hexes <= usize::MAX
}

/// Returns whether the limit allows the two paths to be joined.
fn join_within_limit(limit: &Option<PathLimit>, a: &Path, b: &Path) -> (r: bool)
    requires
        1 <= a.num_cities,
        1 <= a.num_hexes,
        a.num_visits >= 1,
        a.num_cities + b.num_cities <= usize::MAX,
        a.num_visits + b.num_visits <= usize::MAX,
        a.num_hexes + b.num_hexes <= usize::MAX,
    ensures
        r == limit_allows_join(*limit, *a, *b),
{
    match limit {
        Some(PathLimit::Cities { count }) => a.num_cities + b.num_cities - 1 <= *count,
        Some(PathLimit::CitiesAndTowns { count }) => a.num_visits + b.num_visits - 1 <= *count,
        Some(PathLimit::Hexes { count }) => a.num_hexes + b.num_hexes - 1 <= *count,
        None => true,
    }
}

/// Returns each path that joins a pair of the given paths, which all start
/// from the same location: for each pair of paths that share only their
/// starting conflict, and whose join is within the path limit, the path
/// from the end of the first path, through the start, to the end of the
/// second.
pub fn path_combinations(query: &Query, paths: &[Path]) -> (joined: Vec<Path>)
    requires
        forall|k: int| 0 <= k < paths@.len() ==> joinable(#[trigger] paths@[k], start_step(*query)),
    ensures
        forall|k: int| 0 <= k < joined@.len() ==> joins_pair(*query, paths@, #[trigger] joined@[k]),
        forall|i: int, j: int|
            0 <= i < j < paths@.len() && can_join(*query, #[trigger] paths@[i], #[trigger] paths@[j])
                ==> exists|k: int| 0 <= k < joined@.len() && is_join(#[trigger] joined@[k], paths@[i], paths@[j]),
{
    let mut new_paths: Vec<Path> = Vec::new();
    // For each joined path, the pair of paths that it joins.
    let ghost mut origin: Seq<(int, int)> = Seq::empty();
    let n = paths.len();
    let mut i: usize = 0;
    while i < n
        invariant
            n == paths@.len(),
            i <= n,
            forall|k: int| 0 <= k < paths@.len() ==> joinable(#[trigger] paths@[k], start_step(*query)),
            origin.len() == new_paths@.len(),
            forall|k: int| 0 <= k < new_paths@.len() ==> {
                let (a, b) = #[trigger] origin[k];
                0 <= a < b < paths@.len() && can_join(*query, paths@[a], paths@[b]) && is_join(
                    new_paths@[k],
                    paths@[a],
                    paths@[b],
                )
            },
            forall|a: int, b: int|
                0 <= a < i && a < b < paths@.len() && can_join(*query, #[trigger] paths@[a], #[trigger] paths@[b])
                    ==> exists|k: int| 0 <= k < new_paths@.len() && #[trigger] origin[k] == (a, b),
        decreases n - i,
    {
        let mut j: usize = i + 1;
        while j < n
            invariant
                n == paths@.len(),
                i < n,
                i + 1 <= j <= n,
                forall|k: int| 0 <= k < paths@.len() ==> joinable(#[trigger] paths@[k], start_step(*query)),
                origin.len() == new_paths@.len(),
                forall|k: int| 0 <= k < new_paths@.len() ==> {
                    let (a, b) = #[trigger] origin[k];
                    0 <= a < b < paths@.len() && can_join(*query, paths@[a], paths@[b]) && is_join(
                        new_paths@[k],
                        paths@[a],
                        paths@[b],
                    )
                },
                forall|a: int, b: int|
                    0 <= a < i && a < b < paths@.len() && can_join(*query, #[trigger] paths@[a], #[trigger] paths@[b])
                        ==> exists|k: int| 0 <= k < new_paths@.len() && #[trigger] origin[k] == (a, b),
                forall|b: int|
                    i < b < j && can_join(*query, paths@[i as int], #[trigger] paths@[b])
                        ==> exists|k: int| 0 <= k < new_paths@.len() && #[trigger] origin[k] == (i as int, b),
            decreases n - j,
        {
            let path_i = &paths[i];
            let path_j = &paths[j];
            assert(joinable(paths@[i as int], start_step(*query)));
            assert(joinable(paths@[j as int], start_step(*query)));
            // The paths may share nothing but their start.
            let shared = path_i.conflicts.intersection_len(&path_j.conflicts);
            if shared == 1 && join_within_limit(&query.criteria.path_limit, path_i, path_j) {
                let new_path = path_i.append(path_j);
                let ghost before = origin;
                new_paths.push(new_path);
                proof {
                    origin = origin.push((i as int, j as int));
                    assert(origin[before.len() as int] == (i as int, j as int));
                    assert forall|a: int, b: int|
                        0 <= a < i && a < b < paths@.len() && can_join(*query, #[trigger] paths@[a], #[trigger] paths@[b])
                            implies exists|k: int| 0 <= k < new_paths@.len() && #[trigger] origin[k] == (a, b) by {
                        let k = choose|k: int| 0 <= k < before.len() && #[trigger] before[k] == (a, b);
                        assert(origin[k] == before[k]);
                    }
                    assert forall|b: int|
                        i < b < j + 1 && can_join(*query, paths@[i as int], #[trigger] paths@[b])
                            implies exists|k: int| 0 <= k < new_paths@.len() && #[trigger] origin[k] == (i as int, b) by {
                        if b < j {
                            let k = choose|k: int| 0 <= k < before.len() && #[trigger] before[k] == (i as int, b);
                            assert(origin[k] == before[k]);
                        }
                    }
                }
            } else {
                assert(!can_join(*query, paths@[i as int], paths@[j as int]));
            }
            j = j + 1;
        }
        i = i + 1;
    }
    proof {
        assert forall|k: int| 0 <= k < new_paths@.len() implies joins_pair(*query, paths@, #[trigger] new_paths@[k]) by {
            let (a, b) = origin[k];
            assert(0 <= a < b < paths@.len() && can_join(*query, paths@[a], paths@[b]) && is_join(
                new_paths@[k],
                paths@[a],
                paths@[b],
            ));
        }
        assert forall|a: int, b: int|
            0 <= a < b < paths@.len() && can_join(*query, #[trigger] paths@[a], #[trigger] paths@[b])
                implies exists|k: int| 0 <= k < new_paths@.len() && is_join(#[trigger] new_paths@[k], paths@[a], paths@[b]) by {
            let k = choose|k: int| 0 <= k < new_paths@.len() && #[trigger] origin[k] == (a, b);
        }
    }
    new_paths
}

/// Every path of a search for `q` may be joined with the others.
proof fn lemma_sound_joinable(map: RouteMap, q: Query, p: Path)
    requires
        map.searchable(),
        query_ok(map, q),
        q.from is City,
        sound_path(map, q, p),
    ensures
        joinable(p, start_step(q)),
{
    let b = key_bound(map);
    let cap = revenue_cap(map.hexes@);
    lemma_revenue_first(p.visits@);
    assert forall|k: int| 0 <= k < p.visits@.len() implies (#[trigger] p.visits@[k]).revenue <= cap by {
        let v = p.visits@[k];
        assert(visit_on_map(map, v));
        let i = choose|i: int|
            0 <= i < map.hexes@.len() && #[trigger] map.hexes@[i].addr == v.addr && stop_in_range(
                map.hexes@[i],
                stop_conn(v.visits),
            ) && v.revenue == stop_revenue(map.hexes@[i], v.visits);
        match v.visits {
            StopLocation::City { ix } => {
                assert(map.hexes@[i].city_revenues@[ix as int] <= cap);
            },
            StopLocation::Dit { ix } => {
                assert(map.hexes@[i].dit_revenues@[ix as int] <= cap);
            },
        }
    }
    lemma_revenue_bound(p.visits@, cap);
    let n = p.visits@.len();
    assert(n * cap <= b * cap) by (nonlinear_arith)
        requires
            n <= b,
            cap >= 0,
    ;
    assert(2 * (b * cap) <= usize::MAX) by (nonlinear_arith)
        requires
            b >= 1,
            cap == (usize::MAX as int) / (2 * b),
    ;
    assert(p.visits@[0].visits is City);
    lemma_city_count_bounds(p.visits@);
}

/// The number of cities among visits is at most the number of visits, and
/// at least one when the first visit is to a city.
proof fn lemma_city_count_bounds(s: Seq<Visit>)
    ensures
        0 <= city_count(s) <= s.len(),
        s.len() >= 1 && s[0].visits is City ==> city_count(s) >= 1,
    decreases s.len(),
{
    if s.len() > 0 {
        lemma_city_count_bounds(s.drop_last());
        if s.len() > 1 {
            assert(s.drop_last()[0] == s[0]);
        }
    }
}

/// Whether a path is one that a search for `q` finds: sound, and reached
/// by the search along the track.
pub open spec fn searched_path(map: RouteMap, q: Query, p: Path) -> bool {
    &&& sound_path(map, q, p)
    &&& found_by_search(map, q, p.steps@)
}

/// What a search for paths through a query's city finds: first the paths
/// that start there (`n` of them), then each join of two of those paths
/// that may be joined, and nothing else.
pub open spec fn through_result(map: RouteMap, q: Query, ps: Seq<Path>, n: int) -> bool {
    &&& 0 <= n <= ps.len()
    &&& forall|k: int| 0 <= k < n ==> searched_path(map, q, #[trigger] ps[k])
    &&& forall|k: int| n <= k < ps.len() ==> joins_pair(q, ps.take(n), #[trigger] ps[k])
    &&& forall|i: int, j: int|
        0 <= i < j < n && can_join(q, #[trigger] ps[i], #[trigger] ps[j]) ==> exists|k: int|
            n <= k < ps.len() && is_join(#[trigger] ps[k], ps[i], ps[j])
}

/// Whether a path is one that a search for paths through a query's city
/// may find: a path that starts there, or the join of two such paths.
pub open spec fn found_for(map: RouteMap, q: Query, p: Path) -> bool {
    ||| searched_path(map, q, p)
    ||| exists|a: Path, b: Path|
        searched_path(map, q, a) && searched_path(map, q, b) && can_join(q, a, b) && #[trigger] is_join(p, a, b)
}

/// The paths that start at a query's city, followed by their joins, are
/// what a search through that city finds.
proof fn lemma_through(map: RouteMap, query: Query, from: Seq<Path>, joined: Seq<Path>, paths: Seq<Path>)
    requires
        paths == from + joined,
        forall|k: int| 0 <= k < from.len() ==> searched_path(map, query, #[trigger] from[k]),
        forall|k: int| 0 <= k < joined.len() ==> joins_pair(query, from, #[trigger] joined[k]),
        forall|i: int, j: int|
            0 <= i < j < from.len() && can_join(query, #[trigger] from[i], #[trigger] from[j])
                ==> exists|k: int| 0 <= k < joined.len() && is_join(#[trigger] joined[k], from[i], from[j]),
    ensures
        through_result(map, query, paths, from.len() as int),
        forall|k: int| 0 <= k < paths.len() ==> found_for(map, query, #[trigger] paths[k]),
{
    let n = from.len() as int;
    assert(paths.take(n) =~= from);
    assert forall|k: int| 0 <= k < n implies searched_path(map, query, #[trigger] paths[k]) by {
        assert(paths[k] == from[k]);
    }
    assert forall|k: int| n <= k < paths.len() implies joins_pair(query, paths.take(n), #[trigger] paths[k]) by {
        assert(paths[k] == joined[k - n]);
    }
    lemma_through_complete(query, from, joined, paths);
    assert forall|k: int| 0 <= k < paths.len() implies found_for(map, query, #[trigger] paths[k]) by {
        if k >= n {
            assert(paths[k] == joined[k - n]);
            lemma_join_found(map, query, from, paths[k]);
        } else {
            assert(paths[k] == from[k]);
        }
    }
}

proof fn lemma_through_complete(query: Query, from: Seq<Path>, joined: Seq<Path>, paths: Seq<Path>)
    requires
        paths == from + joined,
        forall|i: int, j: int|
            0 <= i < j < from.len() && can_join(query, #[trigger] from[i], #[trigger] from[j])
                ==> exists|k: int| 0 <= k < joined.len() && is_join(#[trigger] joined[k], from[i], from[j]),
    ensures
        forall|i: int, j: int|
            0 <= i < j < from.len() && can_join(query, #[trigger] paths[i], #[trigger] paths[j]) ==> exists|k: int|
                from.len() <= k < paths.len() && is_join(#[trigger] paths[k], paths[i], paths[j]),
{
    let n = from.len() as int;
    assert forall|i: int, j: int|
        0 <= i < j < n && can_join(query, #[trigger] paths[i], #[trigger] paths[j]) implies exists|k: int|
            n <= k < paths.len() && is_join(#[trigger] paths[k], paths[i], paths[j]) by {
        assert(paths[i] == from[i] && paths[j] == from[j]);
        let m = choose|m: int| 0 <= m < joined.len() && is_join(#[trigger] joined[m], from[i], from[j]);
        assert(paths[n + m] == joined[m]);
    }
}

proof fn lemma_join_found(map: RouteMap, query: Query, from: Seq<Path>, p: Path)
    requires
        forall|k: int| 0 <= k < from.len() ==> searched_path(map, query, #[trigger] from[k]),
        joins_pair(query, from, p),
    ensures
        found_for(map, query, p),
{
    let (a, b) = choose|a: int, b: int|
        0 <= a < b < from.len() && can_join(query, from[a], from[b]) && is_join(p, #[trigger] from[a], #[trigger] from[b]);
    assert(searched_path(map, query, from[a]));
    assert(searched_path(map, query, from[b]));
    assert(is_join(p, from[a], from[b]));
}

/// Returns all valid paths that match the provided criteria, passing through
/// the specified token: the paths that start there, followed by each join
/// of two of them that share nothing but their start and stay within the
/// path limit. Joined paths share their starting city, which they count
/// once: the query starts at a city.
pub fn paths_through(map: &RouteMap, query: &Query) -> (paths: Vec<Path>)
    requires
        map.searchable(),
        query_ok(*map, *query),
        query.from is City,
    ensures
        exists|n: int| through_result(*map, *query, paths@, n),
        forall|k: int| 0 <= k < paths@.len() ==> found_for(*map, *query, #[trigger] paths@[k]),
        forall|fuel: nat| records_first(paths@, 0, #[trigger] first_path(*map, *query, fuel)),
        forall|j: int, choices: Seq<int>, fuel: nat|
            0 <= j < links_from(hex_at(*map, query.addr), query.from).len() ==> found_among(
                paths@,
                #[trigger] path_from_start(*map, *query, j, choices, fuel),
            ),
{
    let mut paths = paths_from(map, query);
    proof {
        assert forall|k: int| 0 <= k < paths@.len() implies joinable(#[trigger] paths@[k], start_step(*query)) by {
            lemma_sound_joinable(*map, *query, paths@[k]);
        }
    }
    let mut extra = path_combinations(query, paths.as_slice());
    let ghost from = paths@;
    let ghost joined = extra@;
    paths.append(&mut extra);
    proof {
        assert forall|k: int| 0 <= k < from.len() implies searched_path(*map, *query, #[trigger] from[k]) by {
            assert(sound_path(*map, *query, from[k]));
            assert(found_by_search(*map, *query, from[k].steps@));
        }
        lemma_through(*map, *query, from, joined, paths@);
        assert forall|fuel: nat| records_first(paths@, 0, #[trigger] first_path(*map, *query, fuel)) by {
            assert(records_first(from, 0, first_path(*map, *query, fuel)));
            if from.len() > 0 {
                assert(paths@[0] == from[0]);
            }
        }
        let conns = links_from(hex_at(*map, query.addr), query.from);
        assert forall|j: int, choices: Seq<int>, fuel: nat| 0 <= j < conns.len() implies found_among(
            paths@,
            #[trigger] path_from_start(*map, *query, j, choices, fuel),
        ) by {
            lemma_found_grows(from, paths@, path_from_start(*map, *query, j, choices, fuel));
        }
    }
    paths
}

/// Whether `j` names one of the tracks out of the start of `q`.
pub open spec fn covers_from(map: RouteMap, q: Query, j: int) -> bool {
    0 <= j < links_from(hex_at(map, q.addr), q.from).len()
}

/// Whether a query starts at a city of the map where the criteria's token
/// is placed.
pub open spec fn token_query(map: RouteMap, c: Criteria, q: Query) -> bool {
    &&& q.criteria == c
    &&& exists|i: int, t: int|
        0 <= i < map.hexes@.len() && 0 <= t < map.hexes@[i].tokens@.len() && map.hexes@[i].addr
            == q.addr && #[trigger] map.hexes@[i].tokens@[t].token == c.token && q.from
            == Connection::City { ix: map.hexes@[i].tokens@[t].city_ix }
}

/// Whether a path is one that a search through some city that holds the
/// criteria's token may find.
pub open spec fn found_for_token(map: RouteMap, c: Criteria, p: Path) -> bool {
    exists|q: Query| token_query(map, c, q) && #[trigger] found_for(map, q, p)
}

/// Returns all valid paths that match the provided criteria and which pass
/// through any matching token on the map, taking the tokens in the order of
/// the hexes and of the tokens placed on each. From each token, every path
/// that [`paths_from`] finds is found here too.
pub fn paths_for_token(map: &RouteMap, criteria: &Criteria) -> (paths: Vec<Path>)
    requires
        map.searchable(),
        rule_rank(criteria.route_conflict_rule) < rule_rank(criteria.conflict_rule),
    ensures
        forall|k: int| 0 <= k < paths@.len() ==> found_for_token(*map, *criteria, #[trigger] paths@[k]),
        forall|i: int, t: int, fuel: nat|
            token_placed_at(*map, *criteria, i, t) && none_placed_before(*map, *criteria, i, t) ==> records_first(
                paths@,
                0,
                #[trigger] first_path(*map, query_at(*map, *criteria, i, t), fuel),
            ),
        forall|i: int, t: int, j: int, choices: Seq<int>, fuel: nat|
            token_placed_at(*map, *criteria, i, t) && covers_from(*map, query_at(*map, *criteria, i, t), j)
                ==> found_among(paths@, #[trigger] path_from_start(*map, query_at(*map, *criteria, i, t), j, choices, fuel)),
{
    let mut paths: Vec<Path> = Vec::new();
    let mut i: usize = 0;
    while i < map.hexes.len()
        invariant
            map.searchable(),
            rule_rank(criteria.route_conflict_rule) < rule_rank(criteria.conflict_rule),
            i <= map.hexes@.len(),
            forall|k: int| 0 <= k < paths@.len() ==> found_for_token(*map, *criteria, #[trigger] paths@[k]),
            none_placed_before(*map, *criteria, i as int, 0) ==> paths@.len() == 0,
            forall|i0: int, t0: int, fuel: nat|
                token_placed_at(*map, *criteria, i0, t0) && none_placed_before(*map, *criteria, i0, t0) && i0 < i
                    ==> records_first(paths@, 0, #[trigger] first_path(*map, query_at(*map, *criteria, i0, t0), fuel)),
            forall|i0: int, t0: int, j: int, choices: Seq<int>, fuel: nat|
                token_placed_at(*map, *criteria, i0, t0) && covers_from(*map, query_at(*map, *criteria, i0, t0), j) && i0 < i
                    ==> found_among(paths@, #[trigger] path_from_start(*map, query_at(*map, *criteria, i0, t0), j, choices, fuel)),
        decreases map.hexes@.len() - i,
    {
        let hex = &map.hexes[i];
        let mut t: usize = 0;
        while t < hex.tokens.len()
            invariant
                map.searchable(),
                rule_rank(criteria.route_conflict_rule) < rule_rank(criteria.conflict_rule),
                i < map.hexes@.len(),
                *hex == map.hexes@[i as int],
                t <= hex.tokens@.len(),
                forall|k: int| 0 <= k < paths@.len() ==> found_for_token(*map, *criteria, #[trigger] paths@[k]),
                none_placed_before(*map, *criteria, i as int, t as int) ==> paths@.len() == 0,
                forall|i0: int, t0: int, fuel: nat|
                    token_placed_at(*map, *criteria, i0, t0) && none_placed_before(*map, *criteria, i0, t0)
                        && placed_before(i0, t0, i as int, t as int) ==> records_first(
                        paths@,
                        0,
                        #[trigger] first_path(*map, query_at(*map, *criteria, i0, t0), fuel),
                    ),
                forall|i0: int, t0: int, j: int, choices: Seq<int>, fuel: nat|
                    token_placed_at(*map, *criteria, i0, t0) && covers_from(*map, query_at(*map, *criteria, i0, t0), j)
                        && placed_before(i0, t0, i as int, t as int) ==> found_among(
                        paths@,
                        #[trigger] path_from_start(*map, query_at(*map, *criteria, i0, t0), j, choices, fuel),
                    ),
            decreases hex.tokens@.len() - t,
        {
            let placed = hex.tokens[t];
            if placed.token == criteria.token {
                let query = Query {
                    addr: hex.addr,
                    from: Connection::City { ix: placed.city_ix },
                    criteria: *criteria,
                };
                proof {
                    let hs = map.hexes@;
                    assert(hex_well_formed(hs[i as int]));
                    assert(hs[i as int].addr == query.addr);
                    assert(hex_index(hs, query.addr) is Some);
                    let c = hex_index(hs, query.addr)->0;
                    assert(hs[c].addr == query.addr);
                    assert(c == i as int) by {
                        if c < i {
                            assert(hs[c].addr != hs[i as int].addr);
                        } else if c > i {
                            assert(hs[i as int].addr != hs[c].addr);
                        }
                    }
                    assert(query_ok(*map, query));
                    assert(token_query(*map, *criteria, query)) by {
                        assert(hs[i as int].tokens@[t as int].token == criteria.token);
                    }
                }
                let mut found = paths_through(map, &query);
                let ghost before = paths@;
                let ghost more = found@;
                paths.append(&mut found);
                proof {
                    assert forall|k: int| 0 <= k < paths@.len() implies found_for_token(*map, *criteria, #[trigger] paths@[k]) by {
                        if k < before.len() {
                            assert(paths@[k] == before[k]);
                        } else {
                            assert(paths@[k] == more[k - before.len()]);
                            assert(found_for(*map, query, more[k - before.len()]));
                        }
                    }
                    assert(query == query_at(*map, *criteria, i as int, t as int));
                    assert(token_placed_at(*map, *criteria, i as int, t as int));
                    assert forall|i0: int, t0: int, fuel: nat|
                        token_placed_at(*map, *criteria, i0, t0) && none_placed_before(*map, *criteria, i0, t0)
                            && placed_before(i0, t0, i as int, t + 1) implies records_first(
                        paths@,
                        0,
                        #[trigger] first_path(*map, query_at(*map, *criteria, i0, t0), fuel),
                    ) by {
                        if i0 == i && t0 == t {
                            assert(before.len() == 0);
                            assert(records_first(more, 0, first_path(*map, query, fuel)));
                            if more.len() > 0 {
                                assert(paths@[0] == more[0]);
                            }
                        } else {
                            assert(placed_before(i0, t0, i as int, t as int));
                            assert(records_first(before, 0, first_path(*map, query_at(*map, *criteria, i0, t0), fuel)));
                            if before.len() > 0 {
                                assert(paths@[0] == before[0]);
                            }
                        }
                    }
                    assert forall|i0: int, t0: int, j: int, choices: Seq<int>, fuel: nat|
                        token_placed_at(*map, *criteria, i0, t0) && covers_from(*map, query_at(*map, *criteria, i0, t0), j)
                            && placed_before(i0, t0, i as int, t + 1) implies found_among(
                        paths@,
                        #[trigger] path_from_start(*map, query_at(*map, *criteria, i0, t0), j, choices, fuel),
                    ) by {
                        let r = path_from_start(*map, query_at(*map, *criteria, i0, t0), j, choices, fuel);
                        if i0 == i && t0 == t {
                            assert(found_among(more, r));
                            if let Some(w) = r {
                                let k = choose|k: int| 0 <= k < more.len() && #[trigger] more[k].steps@ == w;
                                assert(paths@[before.len() + k] == more[k]);
                            }
                        } else {
                            assert(placed_before(i0, t0, i as int, t as int));
                            lemma_found_grows(before, paths@, r);
                        }
                    }
                }
            } else {
                proof {
                    assert(!token_placed_at(*map, *criteria, i as int, t as int));
                    assert(none_placed_before(*map, *criteria, i as int, t as int) ==> none_placed_before(
                        *map,
                        *criteria,
                        i as int,
                        t + 1,
                    ));
                    assert forall|i2: int, t2: int|
                        placed_before(i2, t2, i as int, t + 1) && none_placed_before(*map, *criteria, i as int, t as int)
                            implies !#[trigger] token_placed_at(*map, *criteria, i2, t2) by {
                        if !(i2 == i && t2 == t) {
                            assert(placed_before(i2, t2, i as int, t as int));
                        }
                    }
                }
            }
            t = t + 1;
        }
        proof {
            assert forall|i2: int, t2: int|
                placed_before(i2, t2, i + 1, 0) && #[trigger] token_placed_at(*map, *criteria, i2, t2) implies placed_before(
                i2,
                t2,
                i as int,
                t as int,
            ) by {}
        }
        i = i + 1;
    }
    paths
}

} // verus!



