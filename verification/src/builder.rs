//! A convenient way to construct arbitrary paths, step by step: from a
//! city, dit or tile edge, along the track of each tile, to the next city,
//! dit or tile edge.
use vstd::prelude::*;
use crate::conflict::{Conflict, RouteConflicts};
use crate::connection::{other_end_of, Connection};
use crate::hex::{unrotated_face, HexAddress, HexFace};
use crate::path::{Path, Step, StopLocation, Visit};
use crate::route_map::{hex_index, hex_well_formed, in_links, MapHex, RouteMap, TileLink};
use crate::skip_train::{decimal, push_decimal};
use crate::train::Route;

verus! {

/// The different ways in which building a path may fail.
#[derive(Debug, Clone, Copy, PartialEq, Eq, Structural)]
pub enum Error {
    /// There is no tile placed on the specified hex.
    NoTileAtHex(HexAddress),
    /// Unable to connect to a city space that does not exist.
    InvalidCity(HexAddress, usize),
    /// Unable to connect to a dit that does not exist.
    InvalidDit(HexAddress, usize),
    /// Unable to find a path to connect two locations on a tile.
    NotConnected(HexAddress, Connection, Connection),
}

/// The decimal digits of `n`, after a minus sign where it is negative.
pub open spec fn signed_decimal(n: int) -> Seq<char> {
    if n < 0 {
        seq!['-'] + decimal((-n) as nat)
    } else {
        decimal(n as nat)
    }
}

/// How a hex address is written in messages: its row and its column.
pub open spec fn addr_text(a: HexAddress) -> Seq<char> {
    "("@ + signed_decimal(a.row_of()) + ", "@ + signed_decimal(a.col_of()) + ")"@
}

/// The name of a hex face.
pub open spec fn face_name(f: HexFace) -> Seq<char> {
    match f {
        HexFace::Top => "Top"@,
        HexFace::UpperRight => "UpperRight"@,
        HexFace::LowerRight => "LowerRight"@,
        HexFace::Bottom => "Bottom"@,
        HexFace::LowerLeft => "LowerLeft"@,
        HexFace::UpperLeft => "UpperLeft"@,
    }
}

/// What a connection that could not be reached is called in messages.
pub open spec fn target_text(c: Connection) -> Seq<char> {
    match c {
        Connection::City { ix } => "city #"@ + decimal(ix as nat),
        Connection::Dit { ix } => "dit #"@ + decimal(ix as nat),
        Connection::Face { face } => face_name(face),
        Connection::Track { ix, .. } => "track #"@ + decimal(ix as nat),
    }
}

/// The message that describes an error.
pub open spec fn error_message(e: Error) -> Seq<char> {
    match e {
        Error::NoTileAtHex(a) => "No tile at hex "@ + addr_text(a),
        Error::InvalidCity(a, ix) => "No city #"@ + decimal(ix as nat) + " at hex "@ + addr_text(a),
        Error::InvalidDit(a, ix) => "No dit #"@ + decimal(ix as nat) + " at hex "@ + addr_text(a),
        Error::NotConnected(a, _src, dest) => "No connection to "@ + target_text(dest) + " on hex "@ + addr_text(a),
    }
}

/// Appends the decimal digits of `n` to a string, after a minus sign where
/// it is negative.
fn push_signed(s: &mut String, n: isize)
    ensures
        final(s)@ == old(s)@ + signed_decimal(n as int),
{
    if n < 0 {
        s.append("-");
        let m: usize = (-(n + 1)) as usize + 1;
        assert(m == -n);
        push_decimal(s, m);
        assert(s@ =~= old(s)@ + signed_decimal(n as int)) by {
            reveal_strlit("-");
        }
    } else {
        push_decimal(s, n as usize);
    }
}

/// Appends how a hex address is written in messages to a string.
fn push_addr(s: &mut String, a: &HexAddress)
    ensures
        final(s)@ == old(s)@ + addr_text(*a),
{
    s.append("(");
    push_signed(s, a.row());
    s.append(", ");
    push_signed(s, a.col());
    s.append(")");
    assert(s@ =~= old(s)@ + addr_text(*a));
}

impl Error {
    /// Returns the message that describes this error.
    pub fn message(&self) -> (r: String)
        ensures
            r@ == error_message(*self),
    {
        let mut r = String::new();
        match self {
            Error::NoTileAtHex(a) => {
                r.append("No tile at hex ");
                push_addr(&mut r, a);
            },
            Error::InvalidCity(a, ix) => {
                r.append("No city #");
                push_decimal(&mut r, *ix);
                r.append(" at hex ");
                push_addr(&mut r, a);
            },
            Error::InvalidDit(a, ix) => {
                r.append("No dit #");
                push_decimal(&mut r, *ix);
                r.append(" at hex ");
                push_addr(&mut r, a);
            },
            Error::NotConnected(a, _src, dest) => {
                r.append("No connection to ");
                match dest {
                    Connection::City { ix } => {
                        r.append("city #");
                        push_decimal(&mut r, *ix);
                    },
                    Connection::Dit { ix } => {
                        r.append("dit #");
                        push_decimal(&mut r, *ix);
                    },
                    Connection::Face { face } => {
                        match face {
                            HexFace::Top => r.append("Top"),
                            HexFace::UpperRight => r.append("UpperRight"),
                            HexFace::LowerRight => r.append("LowerRight"),
                            HexFace::Bottom => r.append("Bottom"),
                            HexFace::LowerLeft => r.append("LowerLeft"),
                            HexFace::UpperLeft => r.append("UpperLeft"),
                        }
                    },
                    Connection::Track { ix, .. } => {
                        r.append("track #");
                        push_decimal(&mut r, *ix);
                    },
                }
                r.append(" on hex ");
                push_addr(&mut r, a);
            },
        }
        assert(r@ =~= error_message(*self));
        r
    }
}

/// The connection that a path reaches when it enters `c`: the other end of
/// a track segment, or `c` itself.
pub open spec fn flip(c: Connection) -> Connection {
    match other_end_of(c) {
        Some(o) => o,
        None => c,
    }
}

/// Whether the tile links `a` to a connection that leads to `b`.
pub open spec fn linked(h: MapHex, a: Connection, b: Connection) -> bool {
    exists|j: int, k: int|
        0 <= j < h.links@.len() && 0 <= k < h.links@[j].to@.len() && h.links@[j].from == a && flip(
            #[trigger] h.links@[j].to@[k],
        ) == b
}

/// Whether the tile links `c` to anything.
pub open spec fn has_links(h: MapHex, c: Connection) -> bool {
    exists|j: int| 0 <= j < h.links@.len() && #[trigger] h.links@[j].from == c
}

/// Whether every connection that the tile's links lead to, at either end of
/// a track segment, is linked to something in turn.
pub open spec fn links_closed(h: MapHex) -> bool {
    forall|j: int, k: int|
        0 <= j < h.links@.len() && 0 <= k < h.links@[j].to@.len() ==> has_links(h, #[trigger] h.links@[j].to@[k])
            && has_links(h, flip(h.links@[j].to@[k]))
}

/// Whether `s` is a chain of steps on the hex at `addr`, each linked from
/// the one before, the first linked from `src`.
pub open spec fn tile_chain(h: MapHex, addr: HexAddress, src: Connection, s: Seq<Step>) -> bool {
    &&& s.len() >= 1
    &&& forall|j: int| 0 <= j < s.len() ==> (#[trigger] s[j]).addr == addr
    &&& linked(h, src, s[0].conn)
    &&& forall|j: int| 1 <= j < s.len() ==> linked(h, s[j - 1].conn, #[trigger] s[j].conn)
}

/// The connections that `cs` name, each followed by the connection it leads
/// to.
pub open spec fn conns_of(cs: Seq<Connection>) -> Seq<Connection>
    decreases cs.len(),
{
    if cs.len() == 0 {
        Seq::empty()
    } else {
        conns_of(cs.drop_last()) + seq![cs.last(), flip(cs.last())]
    }
}

/// The connections that the links of a tile name, with those they lead to.
pub open spec fn tile_conns(links: Seq<TileLink>) -> Seq<Connection>
    decreases links.len(),
{
    if links.len() == 0 {
        Seq::empty()
    } else {
        tile_conns(links.drop_last()) + conns_of(links.last().to@)
    }
}

proof fn lemma_conns_of(cs: Seq<Connection>, k: int)
    requires
        0 <= k < cs.len(),
    ensures
        conns_of(cs).contains(cs[k]),
        conns_of(cs).contains(flip(cs[k])),
    decreases cs.len(),
{
    let pre = conns_of(cs.drop_last());
    let tail = seq![cs.last(), flip(cs.last())];
    assert(conns_of(cs) == pre + tail);
    if k == cs.len() - 1 {
        assert((pre + tail)[pre.len() as int] == cs[k]);
        assert((pre + tail)[pre.len() + 1int] == flip(cs[k]));
    } else {
        lemma_conns_of(cs.drop_last(), k);
        assert(cs.drop_last()[k] == cs[k]);
        let a = choose|a: int| 0 <= a < pre.len() && pre[a] == cs[k];
        let b = choose|b: int| 0 <= b < pre.len() && pre[b] == flip(cs[k]);
        assert((pre + tail)[a] == cs[k]);
        assert((pre + tail)[b] == flip(cs[k]));
    }
}

proof fn lemma_tile_conns(links: Seq<TileLink>, j: int, k: int)
    requires
        0 <= j < links.len(),
        0 <= k < links[j].to@.len(),
    ensures
        tile_conns(links).contains(links[j].to@[k]),
        tile_conns(links).contains(flip(links[j].to@[k])),
    decreases links.len(),
{
    let pre = tile_conns(links.drop_last());
    let tail = conns_of(links.last().to@);
    assert(tile_conns(links) == pre + tail);
    let c = links[j].to@[k];
    if j == links.len() - 1 {
        lemma_conns_of(links.last().to@, k);
        let a = choose|a: int| 0 <= a < tail.len() && tail[a] == c;
        let b = choose|b: int| 0 <= b < tail.len() && tail[b] == flip(c);
        assert((pre + tail)[pre.len() + a] == c);
        assert((pre + tail)[pre.len() + b] == flip(c));
    } else {
        assert(links.drop_last()[j] == links[j]);
        lemma_tile_conns(links.drop_last(), j, k);
        let a = choose|a: int| 0 <= a < pre.len() && pre[a] == c;
        let b = choose|b: int| 0 <= b < pre.len() && pre[b] == flip(c);
        assert((pre + tail)[a] == c);
        assert((pre + tail)[b] == flip(c));
    }
}

/// Connections seen once each, all named by the tile, are no more than the
/// tile names.
proof fn lemma_seen_bound(seen: Seq<Connection>, all: Seq<Connection>)
    requires
        seen.no_duplicates(),
        forall|i: int| 0 <= i < seen.len() ==> all.contains(#[trigger] seen[i]),
    ensures
        seen.len() <= all.len(),
{
    seen.unique_seq_to_set();
    all.lemma_cardinality_of_set();
    assert(seen.to_set().subset_of(all.to_set())) by {
        assert forall|c: Connection| seen.to_set().contains(c) implies all.to_set().contains(c) by {
            let i = choose|i: int| 0 <= i < seen.len() && seen[i] == c;
            assert(all.contains(seen[i]));
        }
    }
    vstd::seq_lib::seq_to_set_is_finite(all);
    vstd::set_lib::lemma_len_subset(seen.to_set(), all.to_set());
}

/// Returns whether `c` is in `seen`.
fn seen_contains(seen: &Vec<Connection>, c: &Connection) -> (b: bool)
    ensures
        b == seen@.contains(*c),
{
    let mut i: usize = 0;
    while i < seen.len()
        invariant
            i <= seen@.len(),
            forall|j: int| 0 <= j < i ==> seen@[j] != *c,
        decreases seen@.len() - i,
    {
        if seen[i] == *c {
            assert(seen@[i as int] == *c);
            return true;
        }
        i = i + 1;
    }
    false
}

/// Only `d` itself leads to a connection `d` that is no track end.
proof fn lemma_flip_fixed(c: Connection, d: Connection)
    requires
        flip(d) == d,
        flip(c) == d,
    ensures
        c == d,
{
}

/// Whether every link of the tile from `src` names `dest` among the
/// connections it leads to.
pub open spec fn links_to(h: MapHex, src: Connection, dest: Connection) -> bool {
    forall|j: int| 0 <= j < h.links@.len() && h.links@[j].from == src ==> (#[trigger] h.links@[j].to@).contains(dest)
}

proof fn lemma_linked(h: MapHex, j: int, k: int)
    requires
        0 <= j < h.links@.len(),
        0 <= k < h.links@[j].to@.len(),
    ensures
        linked(h, h.links@[j].from, flip(h.links@[j].to@[k])),
{
}

proof fn lemma_chain_cons(h: MapHex, addr: HexAddress, src: Connection, step: Step, tail: Seq<Step>)
    requires
        step.addr == addr,
        linked(h, src, step.conn),
        tile_chain(h, addr, step.conn, tail),
    ensures
        tile_chain(h, addr, src, seq![step] + tail),
        (seq![step] + tail).last() == tail.last(),
{
    let s = seq![step] + tail;
    assert(s[0] == step);
    assert forall|j: int| 0 <= j < s.len() implies (#[trigger] s[j]).addr == addr by {
        if j > 0 {
            assert(s[j] == tail[j - 1]);
        }
    }
    assert forall|j: int| 1 <= j < s.len() implies linked(h, s[j - 1].conn, #[trigger] s[j].conn) by {
        assert(s[j] == tail[j - 1]);
        if j > 1 {
            assert(s[j - 1] == tail[j - 2]);
        }
    }
}

/// Searches the tile for a chain of steps from `src` to `dest`, through
/// connections that are not yet seen, marking each connection it tries as
/// seen.
#[verifier::rlimit(40)]
fn depth_first_search(
    seen: &mut Vec<Connection>,
    hex: &MapHex,
    addr: &HexAddress,
    src: &Connection,
    dest: &Connection,
) -> (r: Option<Vec<Step>>)
    requires
        links_closed(*hex),
        has_links(*hex, *src),
        old(seen)@.no_duplicates(),
        forall|i: int| 0 <= i < old(seen)@.len() ==> tile_conns(hex.links@).contains(#[trigger] old(seen)@[i]),
    ensures
        final(seen)@.no_duplicates(),
        final(seen)@.len() >= old(seen)@.len(),
        forall|i: int| 0 <= i < final(seen)@.len() ==> tile_conns(hex.links@).contains(#[trigger] final(seen)@[i]),
        r matches Some(s) ==> tile_chain(*hex, *addr, *src, s@) && s@.last().conn == *dest,
        flip(*dest) == *dest && !old(seen)@.contains(*dest) && r is None ==> !final(seen)@.contains(*dest),
        flip(*dest) == *dest && !old(seen)@.contains(*dest) && links_to(*hex, *src, *dest) ==> r is Some,
    decreases tile_conns(hex.links@).len() - old(seen)@.len(),
{
    let ghost all = tile_conns(hex.links@);
    let ghost seen0 = seen@;
    proof {
        lemma_seen_bound(seen@, all);
    }
    let conns = match hex.connections(src) {
        Some(cs) => cs,
        None => {
            return None;
        },
    };
    let ghost j0 = choose|j: int| 0 <= j < hex.links@.len() && hex.links@[j].from == *src && #[trigger] hex.links@[j].to@ == conns@;
    let mut found: Option<Vec<Step>> = None;
    let mut i: usize = 0;
    while i < conns.len() && found.is_none()
        invariant
            links_closed(*hex),
            all == tile_conns(hex.links@),
            0 <= j0 < hex.links@.len(),
            hex.links@[j0].from == *src,
            hex.links@[j0].to@ == conns@,
            i <= conns@.len(),
            seen@.no_duplicates(),
            seen@.len() >= seen0.len(),
            seen0 == old(seen)@,
            seen0.len() <= all.len(),
            forall|x: int| 0 <= x < seen@.len() ==> all.contains(#[trigger] seen@[x]),
            seen@.len() <= all.len(),
            found matches Some(s) ==> tile_chain(*hex, *addr, *src, s@) && s@.last().conn == *dest,
            flip(*dest) == *dest && !seen0.contains(*dest) && found is None ==> !seen@.contains(*dest),
            flip(*dest) == *dest && !seen0.contains(*dest) && found is None ==> forall|k: int|
                0 <= k < i ==> conns@[k] != *dest,
        decreases conns@.len() - i,
    {
        let conn = conns[i];
        proof {
            lemma_tile_conns(hex.links@, j0, i as int);
            lemma_linked(*hex, j0, i as int);
            if flip(*dest) == *dest && flip(conn) == *dest {
                lemma_flip_fixed(conn, *dest);
            }
        }
        if !seen_contains(seen, &conn) {
            seen.push(conn);
            // If this is a track connection, switch to the other end.
            let other = match conn.other_end() {
                Some(o) => o,
                None => conn,
            };
            assert(other == flip(conn));
            let proceed = if conn != other {
                if seen_contains(seen, &other) {
                    false
                } else {
                    seen.push(other);
                    true
                }
            } else {
                true
            };
            proof {
                lemma_seen_bound(seen@, all);
            }
            if proceed {
                let step = Step { addr: *addr, conn: other };
                if other == *dest {
                    found = Some(vec![step]);
                    assert(found->0@ == seq![step]);
                } else {
                    assert(seen@.len() > seen0.len());
                    assert(seen@.len() <= all.len());
                    match depth_first_search(seen, hex, addr, &other, dest) {
                        Some(mut steps) => {
                            let ghost tail = steps@;
                            steps.insert(0, step);
                            proof {
                                lemma_chain_cons(*hex, *addr, *src, step, tail);
                                assert(steps@ == seq![step] + tail);
                            }
                            found = Some(steps);
                        },
                        None => {},
                    }
                    proof {
                        lemma_seen_bound(seen@, all);
                    }
                }
            }
        }
        i = i + 1;
    }
    proof {
        if flip(*dest) == *dest && !seen0.contains(*dest) && links_to(*hex, *src, *dest) && found is None {
            assert(hex.links@[j0].to@.contains(*dest));
            let k = choose|k: int| 0 <= k < conns@.len() && conns@[k] == *dest;
            assert(conns@[k] != *dest);
        }
    }
    found
}

/// Whether the path may be extended from the step: the hex holds a tile
/// whose links are closed, and the step's connection is linked.
pub open spec fn can_extend(map: RouteMap, s: Step) -> bool {
    hex_index(map.hexes@, s.addr) matches Some(i) && links_closed(map.hexes@[i]) && has_links(
        map.hexes@[i],
        s.conn,
    )
}

/// The step onto the neighbouring tile beyond a face of the hex at `addr`,
/// if the face touches a tile.
pub open spec fn adjacent_step(map: RouteMap, h: MapHex, face: HexFace) -> Option<Step> {
    if exists|j: int| 0 <= j < h.faces@.len() && #[trigger] h.faces@[j].face == face {
        let link = h.faces@[choose|j: int| 0 <= j < h.faces@.len() && #[trigger] h.faces@[j].face == face];
        if hex_index(map.hexes@, link.adj_addr) is Some {
            Some(Step { addr: link.adj_addr, conn: Connection::Face { face: link.adj_face } })
        } else {
            None
        }
    } else {
        None
    }
}

/// Whether `s` is what a path gains when it is extended from `src` to
/// `dest`: a chain of steps on the tile of `src`'s hex that ends at `dest`
/// and, where `dest` is a face that touches another tile, the step onto
/// that tile.
pub open spec fn extends_to(map: RouteMap, src: Step, dest: Connection, s: Seq<Step>) -> bool {
    let h = map.hexes@[hex_index(map.hexes@, src.addr)->0];
    let extra = match dest {
        Connection::Face { face } => adjacent_step(map, h, face),
        _ => None,
    };
    let n = s.len() - if extra is Some { 1int } else { 0 };
    &&& hex_index(map.hexes@, src.addr) is Some
    &&& n >= 1
    &&& tile_chain(h, src.addr, src.conn, s.take(n))
    &&& s[n - 1].conn == dest
    &&& extra matches Some(e) ==> s[n] == e
}

/// Whether every link of the tile at the step's hex from the step's
/// connection leads to `dest` directly.
pub open spec fn leads_directly(map: RouteMap, s: Step, dest: Connection) -> bool {
    links_to(map.hexes@[hex_index(map.hexes@, s.addr)->0], s.conn, dest)
}

/// Whether the steps `after` are the steps `before` extended to `dest`.
pub open spec fn extended(map: RouteMap, before: Seq<Step>, after: Seq<Step>, dest: Connection) -> bool {
    &&& after.len() > before.len()
    &&& after.take(before.len() as int) == before
    &&& extends_to(map, before.last(), dest, after.skip(before.len() as int))
}

/// Builds a path step by step.
pub struct RouteBuilder<'a> {
    map: &'a RouteMap,
    steps: Vec<Step>,
    visits: Vec<Visit>,
    num_visits: usize,
    num_cities: usize,
    num_dits: usize,
    num_hexes: usize,
}

impl<'a> RouteBuilder<'a> {
    #[verifier::type_invariant]
    spec fn counted(self) -> bool {
        &&& self.steps@.len() >= 1
        &&& self.num_visits <= self.steps@.len()
        &&& self.num_cities <= self.steps@.len()
        &&& self.num_dits <= self.steps@.len()
        &&& self.num_hexes <= self.steps@.len()
    }

    /// The map on which the path is built.
    pub closed spec fn map_spec(&self) -> RouteMap {
        *self.map
    }

    /// The steps of the path so far.
    pub closed spec fn steps_spec(&self) -> Seq<Step> {
        self.steps@
    }

    /// The visits of the path so far.
    pub closed spec fn visits_spec(&self) -> Seq<Visit> {
        self.visits@
    }

    /// The numbers of visits, cities, dits and hexes of the path so far.
    pub closed spec fn counts(&self) -> (usize, usize, usize, usize) {
        (self.num_visits, self.num_cities, self.num_dits, self.num_hexes)
    }

    /// The last step of the path so far.
    pub closed spec fn last_step(&self) -> Step {
        self.steps@.last()
    }

    /// Starts a path at the given step.
    fn new(map: &'a RouteMap, start: Step) -> (b: Self)
        ensures
            b.map_spec() == *map,
            b.steps_spec() == seq![start],
            b.visits_spec() == match start.conn {
                Connection::City { ix } => seq![Visit { addr: start.addr, revenue: 1, visits: StopLocation::City { ix } }],
                Connection::Dit { ix } => seq![Visit { addr: start.addr, revenue: 1, visits: StopLocation::Dit { ix } }],
                _ => Seq::<Visit>::empty(),
            },
            b.counts() == match start.conn {
                Connection::City { .. } => (1usize, 1usize, 0usize, 1usize),
                Connection::Dit { .. } => (1usize, 0usize, 1usize, 1usize),
                _ => (1usize, 0usize, 0usize, 1usize),
            },
    {
        // NOTE: a visit is only highlighted if it has positive revenue.
        let (visits, cities, dits) = match start.conn {
            Connection::City { ix } => (
                vec![Visit { addr: start.addr, revenue: 1, visits: StopLocation::City { ix } }],
                1,
                0,
            ),
            Connection::Dit { ix } => (
                vec![Visit { addr: start.addr, revenue: 1, visits: StopLocation::Dit { ix } }],
                0,
                1,
            ),
            _ => (Vec::new(), 0, 0),
        };
        let steps = vec![start];
        RouteBuilder { map, steps, visits, num_visits: 1, num_cities: cities, num_dits: dits, num_hexes: 1 }
    }

    /// Starts building a path from the edge of a tile, where `face` is
    /// specified with respect to the tile's innate orientation, rather than
    /// the tile's rotation on the map.
    pub fn from_tile_face(map: &'a RouteMap, addr: HexAddress, face: HexFace) -> (r: Result<Self, Error>)
        ensures
            hex_index(map.hexes@, addr) is None <==> r == Err::<Self, Error>(Error::NoTileAtHex(addr)),
            r matches Ok(b) ==> b.map_spec() == *map && b.steps_spec() == seq![
                Step { addr, conn: Connection::Face { face } },
            ] && b.visits_spec() == Seq::<Visit>::empty() && b.counts() == (1usize, 0usize, 0usize, 1usize),
    {
        if map.hex_ix(&addr).is_none() {
            return Err(Error::NoTileAtHex(addr));
        }
        let start = Step { addr, conn: Connection::Face { face } };
        Ok(Self::new(map, start))
    }

    /// Starts building a path from the edge of a tile, where `face` is
    /// specified with respect to the tile's rotation on the map, rather than
    /// the tile's innate orientation.
    pub fn from_edge(map: &'a RouteMap, addr: HexAddress, face: HexFace) -> (r: Result<Self, Error>)
        requires
            map.searchable(),
        ensures
            hex_index(map.hexes@, addr) is None <==> r == Err::<Self, Error>(Error::NoTileAtHex(addr)),
            r matches Ok(b) ==> b.map_spec() == *map && b.steps_spec() == seq![
                Step {
                    addr,
                    conn: Connection::Face {
                        face: unrotated_face(face, map.hexes@[hex_index(map.hexes@, addr)->0].rotation),
                    },
                },
            ] && b.visits_spec() == Seq::<Visit>::empty() && b.counts() == (1usize, 0usize, 0usize, 1usize),
    {
        let tile_face = edge_to_tile_face(map, &addr, face)?;
        Self::from_tile_face(map, addr, tile_face)
    }

    /// Starts building a path from the city `ix` of a tile.
    pub fn from_city(map: &'a RouteMap, addr: HexAddress, ix: usize) -> (r: Result<Self, Error>)
        requires
            map.searchable(),
        ensures
            hex_index(map.hexes@, addr) is None <==> r == Err::<Self, Error>(Error::NoTileAtHex(addr)),
            hex_index(map.hexes@, addr) matches Some(i) ==> (r == Err::<Self, Error>(Error::InvalidCity(addr, ix))
                <==> map.hexes@[i].city_revenues@.len() <= ix),
            r matches Ok(b) ==> b.map_spec() == *map && b.steps_spec() == seq![Step { addr, conn: Connection::City { ix } }]
                && b.visits_spec() == seq![Visit { addr, revenue: 1, visits: StopLocation::City { ix } }]
                && b.counts() == (1usize, 1usize, 0usize, 1usize),
    {
        let i = match map.hex_ix(&addr) {
            Some(i) => i,
            None => {
                return Err(Error::NoTileAtHex(addr));
            },
        };
        if map.hexes[i].city_revenues.len() <= ix {
            return Err(Error::InvalidCity(addr, ix));
        }
        let start = Step { addr, conn: Connection::City { ix } };
        Ok(Self::new(map, start))
    }

    /// Starts building a path from the dit `ix` of a tile.
    pub fn from_dit(map: &'a RouteMap, addr: HexAddress, ix: usize) -> (r: Result<Self, Error>)
        requires
            map.searchable(),
        ensures
            hex_index(map.hexes@, addr) is None <==> r == Err::<Self, Error>(Error::NoTileAtHex(addr)),
            hex_index(map.hexes@, addr) matches Some(i) ==> (r == Err::<Self, Error>(Error::InvalidDit(addr, ix))
                <==> map.hexes@[i].dit_revenues@.len() <= ix),
            r matches Ok(b) ==> b.map_spec() == *map && b.steps_spec() == seq![Step { addr, conn: Connection::Dit { ix } }]
                && b.visits_spec() == seq![Visit { addr, revenue: 1, visits: StopLocation::Dit { ix } }]
                && b.counts() == (1usize, 0usize, 1usize, 1usize),
    {
        let i = match map.hex_ix(&addr) {
            Some(i) => i,
            None => {
                return Err(Error::NoTileAtHex(addr));
            },
        };
        if map.hexes[i].dit_revenues.len() <= ix {
            return Err(Error::InvalidDit(addr, ix));
        }
        let start = Step { addr, conn: Connection::Dit { ix } };
        Ok(Self::new(map, start))
    }

    /// Extends the path to the edge of the tile, where `face` is specified
    /// with respect to the tile's innate orientation, rather than the tile's
    /// rotation on the map; where that edge touches another tile, the path
    /// also steps onto it.
    pub fn to_tile_face(self, face: HexFace) -> (r: Result<Self, Error>)
        requires
            self.map_spec().searchable(),
            can_extend(self.map_spec(), self.last_step()),
        ensures
            match r {
                Ok(b) => b.map_spec() == self.map_spec() && extended(
                    self.map_spec(),
                    self.steps_spec(),
                    b.steps_spec(),
                    Connection::Face { face },
                ) && b.visits_spec() == self.visits_spec() && b.counts() == (
                    self.counts().0,
                    self.counts().1,
                    self.counts().2,
                    (self.counts().3 + 1) as usize,
                ),
                Err(e) => e == Error::NotConnected(
                    self.last_step().addr,
                    self.last_step().conn,
                    Connection::Face { face },
                ),
            },
            leads_directly(self.map_spec(), self.last_step(), Connection::Face { face }) ==> r is Ok,
    {
        proof {
            use_type_invariant(&self);
        }
        let RouteBuilder { map, mut steps, visits, num_visits, num_cities, num_dits, num_hexes } = self;
        match extend_steps(map, &mut steps, Connection::Face { face }) {
            Ok(()) => {},
            Err(e) => {
                return Err(e);
            },
        }
        Ok(RouteBuilder { map, steps, visits, num_visits, num_cities, num_dits, num_hexes: num_hexes + 1 })
    }

    /// Extends the path to the edge of the tile, where `face` is specified
    /// with respect to the tile's rotation on the map, rather than the tile's
    /// innate orientation; where that edge touches another tile, the path
    /// also steps onto it.
    pub fn to_edge(self, face: HexFace) -> (r: Result<Self, Error>)
        requires
            self.map_spec().searchable(),
            can_extend(self.map_spec(), self.last_step()),
        ensures
            ({
                let map = self.map_spec();
                let h = map.hexes@[hex_index(map.hexes@, self.last_step().addr)->0];
                let dest = Connection::Face { face: unrotated_face(face, h.rotation) };
                match r {
                    Ok(b) => b.map_spec() == map && extended(map, self.steps_spec(), b.steps_spec(), dest)
                        && b.visits_spec() == self.visits_spec() && b.counts() == (
                        self.counts().0,
                        self.counts().1,
                        self.counts().2,
                        (self.counts().3 + 1) as usize,
                    ),
                    Err(e) => e == Error::NotConnected(self.last_step().addr, self.last_step().conn, dest),
                }
            }),
            leads_directly(
                self.map_spec(),
                self.last_step(),
                Connection::Face {
                    face: unrotated_face(
                        face,
                        self.map_spec().hexes@[hex_index(self.map_spec().hexes@, self.last_step().addr)->0].rotation,
                    ),
                },
            ) ==> r is Ok,
    {
        proof {
            use_type_invariant(&self);
        }
        let addr = self.steps[self.steps.len() - 1].addr;
        let tile_face = match edge_to_tile_face(self.map, &addr, face) {
            Ok(f) => f,
            Err(e) => {
                return Err(e);
            },
        };
        self.to_tile_face(tile_face)
    }

    /// Extends the path to the city `ix` of the tile, where the train stops
    /// or passes through.
    pub fn to_city(self, ix: usize, stop: bool) -> (r: Result<Self, Error>)
        requires
            self.map_spec().searchable(),
            can_extend(self.map_spec(), self.last_step()),
        ensures
            match r {
                Ok(b) => b.map_spec() == self.map_spec() && extended(
                    self.map_spec(),
                    self.steps_spec(),
                    b.steps_spec(),
                    Connection::City { ix },
                ) && b.visits_spec() == self.visits_spec().push(
                    Visit {
                        addr: self.last_step().addr,
                        revenue: if stop { 1 } else { 0 },
                        visits: StopLocation::City { ix },
                    },
                ) && b.counts() == (
                    (self.counts().0 + 1) as usize,
                    (self.counts().1 + 1) as usize,
                    self.counts().2,
                    self.counts().3,
                ),
                Err(e) => e == Error::NotConnected(
                    self.last_step().addr,
                    self.last_step().conn,
                    Connection::City { ix },
                ),
            },
            leads_directly(self.map_spec(), self.last_step(), Connection::City { ix }) ==> r is Ok,
    {
        proof {
            use_type_invariant(&self);
        }
        let RouteBuilder { map, mut steps, mut visits, num_visits, num_cities, num_dits, num_hexes } = self;
        let addr = steps[steps.len() - 1].addr;
        match extend_steps(map, &mut steps, Connection::City { ix }) {
            Ok(()) => {},
            Err(e) => {
                return Err(e);
            },
        }
        // A visit is only highlighted where it has positive revenue.
        let revenue: usize = if stop { 1 } else { 0 };
        visits.push(Visit { addr, revenue, visits: StopLocation::City { ix } });
        Ok(RouteBuilder {
            map,
            steps,
            visits,
            num_visits: num_visits + 1,
            num_cities: num_cities + 1,
            num_dits,
            num_hexes,
        })
    }

    /// Extends the path to the dit `ix` of the tile, where the train stops
    /// or passes through.
    pub fn to_dit(self, ix: usize, stop: bool) -> (r: Result<Self, Error>)
        requires
            self.map_spec().searchable(),
            can_extend(self.map_spec(), self.last_step()),
        ensures
            match r {
                Ok(b) => b.map_spec() == self.map_spec() && extended(
                    self.map_spec(),
                    self.steps_spec(),
                    b.steps_spec(),
                    Connection::Dit { ix },
                ) && b.visits_spec() == self.visits_spec().push(
                    Visit {
                        addr: self.last_step().addr,
                        revenue: if stop { 1 } else { 0 },
                        visits: StopLocation::Dit { ix },
                    },
                ) && b.counts() == (
                    (self.counts().0 + 1) as usize,
                    self.counts().1,
                    (self.counts().2 + 1) as usize,
                    self.counts().3,
                ),
                Err(e) => e == Error::NotConnected(
                    self.last_step().addr,
                    self.last_step().conn,
                    Connection::Dit { ix },
                ),
            },
            leads_directly(self.map_spec(), self.last_step(), Connection::Dit { ix }) ==> r is Ok,
    {
        proof {
            use_type_invariant(&self);
        }
        let RouteBuilder { map, mut steps, mut visits, num_visits, num_cities, num_dits, num_hexes } = self;
        let addr = steps[steps.len() - 1].addr;
        match extend_steps(map, &mut steps, Connection::Dit { ix }) {
            Ok(()) => {},
            Err(e) => {
                return Err(e);
            },
        }
        // A visit is only highlighted where it has positive revenue.
        let revenue: usize = if stop { 1 } else { 0 };
        visits.push(Visit { addr, revenue, visits: StopLocation::Dit { ix } });
        Ok(RouteBuilder {
            map,
            steps,
            visits,
            num_visits: num_visits + 1,
            num_dits: num_dits + 1,
            num_cities,
            num_hexes,
        })
    }

    /// Returns the path that has been built, with no conflicts and no
    /// revenue.
    pub fn into_path(self) -> (p: Path)
        ensures
            p.steps@ == self.steps_spec(),
            p.visits@ == self.visits_spec(),
            p.conflicts@ == Set::<Conflict>::empty(),
            p.route_conflicts@ == Set::<Conflict>::empty(),
            (p.num_visits, p.num_cities, p.num_dits, p.num_hexes) == self.counts(),
            p.revenue == 0,
    {
        Path {
            steps: self.steps,
            conflicts: RouteConflicts::new(),
            route_conflicts: RouteConflicts::new(),
            visits: self.visits,
            num_visits: self.num_visits,
            num_cities: self.num_cities,
            num_dits: self.num_dits,
            num_hexes: self.num_hexes,
            revenue: 0,
        }
    }

    /// Returns the route that has been built.
    pub fn into_route(self) -> (r: Route)
        ensures
            r.steps@ == self.steps_spec(),
            r.visits@ == self.visits_spec(),
    {
        Route { steps: self.steps, visits: self.visits }
    }

}

/// Returns the steps that lead from `src` to `dest` on the tile of
/// `src`'s hex and, where `dest` is a face that touches another tile,
/// the step onto that tile.
fn find_steps_to(map: &RouteMap, src: &Step, dest: Connection) -> (r: Result<Vec<Step>, Error>)
    requires
        map.searchable(),
        hex_index(map.hexes@, src.addr) is Some ==> can_extend(*map, *src),
    ensures
        hex_index(map.hexes@, src.addr) is None <==> r == Err::<Vec<Step>, Error>(
            Error::NoTileAtHex(src.addr),
        ),
        r matches Err(e) ==> e == Error::NoTileAtHex(src.addr) || e == Error::NotConnected(
            src.addr,
            src.conn,
            dest,
        ),
        r matches Ok(s) ==> extends_to(*map, *src, dest, s@),
        hex_index(map.hexes@, src.addr) is Some && flip(dest) == dest && leads_directly(*map, *src, dest) ==> r is Ok,
{
    let hix = match map.hex_ix(&src.addr) {
        Some(i) => i,
        None => {
            return Err(Error::NoTileAtHex(src.addr));
        },
    };
    let hex = &map.hexes[hix];
    let mut seen: Vec<Connection> = Vec::new();
    let mut steps = match depth_first_search(&mut seen, hex, &src.addr, &src.conn, &dest) {
        Some(s) => s,
        None => {
            return Err(Error::NotConnected(src.addr, src.conn, dest));
        },
    };
    let ghost chain = steps@;
    // If the destination is a hex face, also add the adjacent face on the
    // next hex.
    if let Connection::Face { face } = dest {
        match hex.face_link(&face) {
            Some(link) => {
                proof {
                    let j = choose|j: int| 0 <= j < hex.faces@.len() && #[trigger] hex.faces@[j] == *link && link.face == face;
                    let c = choose|c: int| 0 <= c < hex.faces@.len() && #[trigger] hex.faces@[c].face == face;
                    assert(hex.faces@[j].face == face);
                    if c != j {
                        if c < j {
                            assert(hex.faces@[c].face != hex.faces@[j].face);
                        } else {
                            assert(hex.faces@[j].face != hex.faces@[c].face);
                        }
                    }
                }
                if map.hex_ix(&link.adj_addr).is_some() {
                    steps.push(Step { addr: link.adj_addr, conn: Connection::Face { face: link.adj_face } });
                    assert(steps@.take(chain.len() as int) =~= chain);
                }
            },
            None => {},
        }
    }
    assert(chain.take(chain.len() as int) =~= chain);
    Ok(steps)
}

/// Appends to `steps` the steps from its last step to `dest`.
fn extend_steps(map: &RouteMap, steps: &mut Vec<Step>, dest: Connection) -> (r: Result<(), Error>)
    requires
        map.searchable(),
        old(steps)@.len() >= 1,
        can_extend(*map, old(steps)@.last()),
    ensures
        final(steps)@.len() <= usize::MAX,
        match r {
            Ok(()) => extended(*map, old(steps)@, final(steps)@, dest),
            Err(e) => e == Error::NotConnected(old(steps)@.last().addr, old(steps)@.last().conn, dest)
                && final(steps)@ == old(steps)@,
        },
        flip(dest) == dest && leads_directly(*map, old(steps)@.last(), dest) ==> r is Ok,
{
    let curr = steps[steps.len() - 1];
    let mut new_steps = match find_steps_to(map, &curr, dest) {
        Ok(s) => s,
        Err(e) => {
            return Err(e);
        },
    };
    let ghost before = steps@;
    let ghost added = new_steps@;
    steps.append(&mut new_steps);
    proof {
        assert(steps@.take(before.len() as int) =~= before);
        assert(steps@.skip(before.len() as int) =~= added);
        assert(steps@.len() == steps.len());
    }
    Ok(())
}

/// Returns the face of a tile that lies on the given edge of its hex, by
/// undoing the tile's rotation.
fn edge_to_tile_face(map: &RouteMap, addr: &HexAddress, face: HexFace) -> (r: Result<HexFace, Error>)
    requires
        map.searchable(),
    ensures
        match hex_index(map.hexes@, *addr) {
            Some(i) => r == Ok::<HexFace, Error>(unrotated_face(face, map.hexes@[i].rotation)),
            None => r == Err::<HexFace, Error>(Error::NoTileAtHex(*addr)),
        },
{
    match map.hex_ix(addr) {
        Some(i) => Ok(face.unrotate(&map.hexes[i].rotation)),
        None => Err(Error::NoTileAtHex(*addr)),
    }
}


/// Whether the tile links `a` to `c`.
pub open spec fn linked_from(h: MapHex, a: Connection, c: Connection) -> bool {
    exists|j: int, k: int|
        0 <= j < h.links@.len() && 0 <= k < h.links@[j].to@.len() && h.links@[j].from == a
            && #[trigger] h.links@[j].to@[k] == c
}

/// Whether a walk along the tile's links steps from `b` to `c`: `c` is the
/// other end of `b`, or is linked from the other end of `b`, unless that is a
/// hex face.
pub open spec fn next_reach(h: MapHex, b: Connection, c: Connection) -> bool {
    c == flip(b) || (!(flip(b) is Face) && linked_from(h, flip(b), c))
}

/// Whether `s` is a walk along the tile's links from `start`.
pub open spec fn reach_chain(h: MapHex, start: Connection, s: Seq<Connection>) -> bool {
    &&& s.len() > 0
    &&& linked_from(h, start, s[0])
    &&& forall|i: int| 0 < i < s.len() ==> #[trigger] next_reach(h, s[i - 1], s[i])
}

/// Whether a walk along the tile's links reaches `c` from `start`.
pub open spec fn tile_reachable(h: MapHex, start: Connection, c: Connection) -> bool {
    exists|s: Seq<Connection>| #[trigger] reach_chain(h, start, s) && s.last() == c
}

/// Whether every connection that `x` leads to lies in `v` or `t`, unless
/// `x` is a hex face.
pub open spec fn done_from(h: MapHex, v: Seq<Connection>, t: Seq<Connection>, x: Connection) -> bool {
    !(x is Face) ==> forall|d: Connection| #[trigger] linked_from(h, x, d) ==> v.contains(d) || t.contains(d)
}

/// Both ends of a track are each other's other end.
proof fn lemma_flip_flip(c: Connection)
    ensures
        flip(flip(c)) == c,
{
}

/// What holds while [`MapHex::connections_from`] works through the
/// connections `t` still to visit, having visited `v`: the shape of the
/// two lists.
pub open spec fn worklist_shape(h: MapHex, v: Seq<Connection>, t: Seq<Connection>) -> bool {
    &&& v.no_duplicates()
    &&& forall|i: int| 0 <= i < v.len() ==> tile_conns(h.links@).contains(#[trigger] v[i])
    &&& forall|i: int| 0 <= i < t.len() ==> in_links(h, #[trigger] t[i])
    &&& forall|i: int| 0 <= i < v.len() ==> v.contains(flip(#[trigger] v[i]))
}

/// Everything in the two lists is reached from `start`.
pub open spec fn worklist_reached(h: MapHex, start: Connection, v: Seq<Connection>, t: Seq<Connection>) -> bool {
    &&& forall|i: int| 0 <= i < v.len() ==> tile_reachable(h, start, #[trigger] v[i])
    &&& forall|i: int| 0 <= i < t.len() ==> tile_reachable(h, start, #[trigger] t[i])
}

/// What `start` leads to is in the two lists, and so is what one end of each
/// visited connection leads to.
pub open spec fn worklist_covers(h: MapHex, start: Connection, v: Seq<Connection>, t: Seq<Connection>) -> bool {
    &&& forall|d: Connection| #[trigger] linked_from(h, start, d) ==> v.contains(d) || t.contains(d)
    &&& forall|i: int|
        0 <= i < v.len() ==> done_from(h, v, t, #[trigger] v[i]) || done_from(h, v, t, flip(v[i]))
}

/// A connection that lies in `t` without its last element, or is that
/// element, lies in `t`.
proof fn lemma_in_rest(t: Seq<Connection>, t1: Seq<Connection>, d: Connection)
    requires
        t.len() > 0,
        t.contains(d),
        d != t.last(),
        t1.len() >= t.len() - 1,
        forall|i: int| 0 <= i < t.len() - 1 ==> t1[i] == t[i],
    ensures
        t1.contains(d),
{
    let i = choose|i: int| 0 <= i < t.len() && t[i] == d;
    assert(t1[i] == d);
}

/// Passing over a connection that was visited already keeps the invariant.
proof fn lemma_skip_keeps(h: MapHex, start: Connection, v: Seq<Connection>, t: Seq<Connection>)
    requires
        worklist_shape(h, v, t),
        worklist_reached(h, start, v, t),
        worklist_covers(h, start, v, t),
        t.len() > 0,
        v.contains(t.last()),
    ensures
        worklist_shape(h, v, t.drop_last()),
        worklist_reached(h, start, v, t.drop_last()),
        worklist_covers(h, start, v, t.drop_last()),
{
    let conn = t.last();
    let t1 = t.drop_last();
    assert forall|i: int| 0 <= i < t1.len() implies in_links(h, #[trigger] t1[i]) && tile_reachable(h, start, t1[i]) by {
        assert(t1[i] == t[i]);
    }
    assert forall|d: Connection| v.contains(d) || t.contains(d) implies v.contains(d) || t1.contains(d) by {
        if !v.contains(d) && d != conn {
            lemma_in_rest(t, t1, d);
        }
    }
    assert forall|i: int| 0 <= i < v.len() implies done_from(h, v, t1, #[trigger] v[i]) || done_from(h, v, t1, flip(v[i])) by {
        assert(done_from(h, v, t, v[i]) || done_from(h, v, t, flip(v[i])));
    }
}

/// The connections visited after visiting the last of `t`: it and its other
/// end.
pub open spec fn visited_after(v: Seq<Connection>, c: Connection) -> Seq<Connection> {
    if flip(c) != c {
        v.push(c).push(flip(c))
    } else {
        v.push(c)
    }
}

/// What the last of `t` leads to from its other end: `added` is that list,
/// or nothing at a hex face or where the tile links that end to nothing.
pub open spec fn added_after(h: MapHex, c: Connection, added: Seq<Connection>) -> bool {
    &&& flip(c) is Face ==> added.len() == 0
    &&& !(flip(c) is Face) ==> (exists|j: int|
        0 <= j < h.links@.len() && h.links@[j].from == flip(c) && #[trigger] h.links@[j].to@ == added) || (added.len()
        == 0 && forall|j: int| 0 <= j < h.links@.len() ==> #[trigger] h.links@[j].from != flip(c))
}

proof fn lemma_visit_shape(h: MapHex, v: Seq<Connection>, t: Seq<Connection>, added: Seq<Connection>)
    requires
        worklist_shape(h, v, t),
        t.len() > 0,
        !v.contains(t.last()),
        added_after(h, t.last(), added),
    ensures
        worklist_shape(h, visited_after(v, t.last()), t.drop_last() + added),
        visited_after(v, t.last()).len() > v.len(),
{
    let conn = t.last();
    let other = flip(conn);
    let v1 = visited_after(v, conn);
    let t1 = t.drop_last() + added;
    assert(in_links(h, t[t.len() - 1]));
    let (j0, k0) = choose|j: int, k: int|
        0 <= j < h.links@.len() && 0 <= k < h.links@[j].to@.len() && #[trigger] h.links@[j].to@[k] == conn;
    lemma_tile_conns(h.links@, j0, k0);
    lemma_flip_flip(conn);
    if v.contains(other) {
        let i = choose|i: int| 0 <= i < v.len() && v[i] == other;
        assert(v.contains(flip(v[i])));
    }
    assert(v1.no_duplicates()) by {
        if other != conn {
            assert(v1 == v.push(conn).push(other));
        }
    }
    assert forall|i: int| 0 <= i < v1.len() implies tile_conns(h.links@).contains(#[trigger] v1[i]) && v1.contains(
        flip(v1[i]),
    ) by {
        if i < v.len() {
            assert(v1[i] == v[i]);
            let m = choose|m: int| 0 <= m < v.len() && v[m] == flip(v[i]);
            assert(v1[m] == flip(v[i]));
        } else if i == v.len() {
            assert(v1[i] == conn);
            if other != conn {
                assert(v1[i + 1] == other);
            }
        } else {
            assert(v1[i] == other);
            assert(v1[v.len() as int] == conn);
        }
    }
    assert forall|i: int| 0 <= i < t1.len() implies in_links(h, #[trigger] t1[i]) by {
        if i < t.len() - 1 {
            assert(t1[i] == t[i]);
        } else {
            let j = choose|j: int| 0 <= j < h.links@.len() && h.links@[j].from == other && #[trigger] h.links@[j].to@ == added;
            assert(h.links@[j].to@[i - (t.len() - 1)] == t1[i]);
        }
    }
}

/// A connection is reached one step after the connection whose other end
/// it is, or whose other end (not a hex face) leads to it.
proof fn lemma_reach_step(h: MapHex, start: Connection, b: Connection, c: Connection)
    requires
        tile_reachable(h, start, b),
        next_reach(h, b, c),
    ensures
        tile_reachable(h, start, c),
{
    let s = choose|s: Seq<Connection>| #[trigger] reach_chain(h, start, s) && s.last() == b;
    let s2 = s.push(c);
    assert forall|i: int| 0 < i < s2.len() implies #[trigger] next_reach(h, s2[i - 1], s2[i]) by {
        if i < s.len() {
            assert(s2[i - 1] == s[i - 1] && s2[i] == s[i]);
        }
    }
    assert(reach_chain(h, start, s2));
}

/// A connection that `start` leads to is reached.
proof fn lemma_reach_first(h: MapHex, start: Connection, c: Connection)
    requires
        linked_from(h, start, c),
    ensures
        tile_reachable(h, start, c),
{
    assert(reach_chain(h, start, seq![c]));
}

proof fn lemma_visit_reached(h: MapHex, start: Connection, v: Seq<Connection>, t: Seq<Connection>, added: Seq<Connection>)
    requires
        worklist_reached(h, start, v, t),
        t.len() > 0,
        added_after(h, t.last(), added),
    ensures
        worklist_reached(h, start, visited_after(v, t.last()), t.drop_last() + added),
{
    let conn = t.last();
    let other = flip(conn);
    let v1 = visited_after(v, conn);
    let t1 = t.drop_last() + added;
    assert(tile_reachable(h, start, t[t.len() - 1]));
    lemma_reach_step(h, start, conn, other);
    assert forall|i: int| 0 <= i < v1.len() implies tile_reachable(h, start, #[trigger] v1[i]) by {
        if i < v.len() {
            assert(v1[i] == v[i]);
        } else if i == v.len() {
            assert(v1[i] == conn);
        } else {
            assert(v1[i] == other);
        }
    }
    assert forall|i: int| 0 <= i < t1.len() implies tile_reachable(h, start, #[trigger] t1[i]) by {
        if i < t.len() - 1 {
            assert(t1[i] == t[i]);
        } else {
            let j = choose|j: int| 0 <= j < h.links@.len() && h.links@[j].from == other && #[trigger] h.links@[j].to@ == added;
            assert(h.links@[j].to@[i - (t.len() - 1)] == t1[i]);
            assert(linked_from(h, other, t1[i]));
            lemma_reach_step(h, start, conn, t1[i]);
        }
    }
}

proof fn lemma_visit_covers(h: MapHex, start: Connection, v: Seq<Connection>, t: Seq<Connection>, added: Seq<Connection>)
    requires
        hex_well_formed(h),
        worklist_covers(h, start, v, t),
        t.len() > 0,
        added_after(h, t.last(), added),
    ensures
        worklist_covers(h, start, visited_after(v, t.last()), t.drop_last() + added),
{
    let conn = t.last();
    let other = flip(conn);
    let v1 = visited_after(v, conn);
    let t0 = t.drop_last();
    let t1 = t0 + added;
    lemma_flip_flip(conn);
    assert(v1[v.len() as int] == conn);
    // Whatever lay in the lists still does.
    assert forall|d: Connection| v.contains(d) || t.contains(d) implies v1.contains(d) || t1.contains(d) by {
        if v.contains(d) {
            let i = choose|i: int| 0 <= i < v.len() && v[i] == d;
            assert(v1[i] == d);
        } else if d != conn {
            lemma_in_rest(t, t1, d);
        }
    }
    // What the other end leads to is added.
    assert(done_from(h, v1, t1, other)) by {
        assert forall|d: Connection| !(other is Face) && #[trigger] linked_from(h, other, d) implies v1.contains(d)
            || t1.contains(d) by {
            let (j, k) = choose|j: int, k: int|
                0 <= j < h.links@.len() && 0 <= k < h.links@[j].to@.len() && h.links@[j].from == other
                    && #[trigger] h.links@[j].to@[k] == d;
            let j2 = choose|j2: int| 0 <= j2 < h.links@.len() && h.links@[j2].from == other && #[trigger] h.links@[j2].to@ == added;
            if j != j2 {
                if j < j2 {
                    assert(h.links@[j].from != h.links@[j2].from);
                } else {
                    assert(h.links@[j2].from != h.links@[j].from);
                }
            }
            assert(t1[t0.len() + k] == d);
        }
    }
    assert forall|i: int| 0 <= i < v1.len() implies done_from(h, v1, t1, #[trigger] v1[i]) || done_from(
        h,
        v1,
        t1,
        flip(v1[i]),
    ) by {
        if i < v.len() {
            assert(v1[i] == v[i]);
            let x = if done_from(h, v, t, v[i]) { v[i] } else { flip(v[i]) };
            assert(done_from(h, v, t, x));
            assert forall|d: Connection| !(x is Face) && #[trigger] linked_from(h, x, d) implies v1.contains(d)
                || t1.contains(d) by {
                assert(v.contains(d) || t.contains(d));
            }
            assert(done_from(h, v1, t1, x));
        } else if i > v.len() {
            assert(v1[i] == other);
        }
    }
}

impl MapHex {
    /// Returns every connection that can be reached from `start` along the
    /// tile's track, stopping at the tile's edges: both ends of each track
    /// segment that is reached, each once.
    pub fn connections_from(&self, start: &Connection) -> (r: Vec<Connection>)
        requires
            hex_well_formed(*self),
        ensures
            r@.no_duplicates(),
            forall|k: int| 0 <= k < r@.len() ==> tile_reachable(*self, *start, #[trigger] r@[k]),
            forall|d: Connection| #[trigger] linked_from(*self, *start, d) ==> r@.contains(d),
            forall|k: int| 0 <= k < r@.len() ==> r@.contains(flip(#[trigger] r@[k])),
            forall|k: int|
                0 <= k < r@.len() ==> done_from(*self, r@, Seq::<Connection>::empty(), #[trigger] r@[k]) || done_from(
                    *self,
                    r@,
                    Seq::<Connection>::empty(),
                    flip(r@[k]),
                ),
    {
        let ghost all = tile_conns(self.links@);
        let mut visited: Vec<Connection> = Vec::new();
        let first = self.connections(start);
        let mut to_visit: Vec<Connection> = match first {
            Some(cs) => cs.clone(),
            None => Vec::new(),
        };
        proof {
            assert forall|d: Connection| #[trigger] linked_from(*self, *start, d) implies visited@.contains(d)
                || to_visit@.contains(d) by {
                let (j, k) = choose|j: int, k: int|
                    0 <= j < self.links@.len() && 0 <= k < self.links@[j].to@.len() && self.links@[j].from == *start
                        && #[trigger] self.links@[j].to@[k] == d;
                let j2 = choose|j2: int|
                    0 <= j2 < self.links@.len() && self.links@[j2].from == *start && #[trigger] self.links@[j2].to@
                        == to_visit@;
                if j != j2 {
                    if j < j2 {
                        assert(self.links@[j].from != self.links@[j2].from);
                    } else {
                        assert(self.links@[j2].from != self.links@[j].from);
                    }
                }
                assert(to_visit@[k] == d);
            }
            assert forall|i: int| 0 <= i < to_visit@.len() implies in_links(*self, #[trigger] to_visit@[i])
                && tile_reachable(*self, *start, to_visit@[i]) by {
                let j = choose|j: int| 0 <= j < self.links@.len() && self.links@[j].from == *start && #[trigger] self.links@[j].to@ == to_visit@;
                assert(self.links@[j].to@[i] == to_visit@[i]);
                assert(linked_from(*self, *start, to_visit@[i]));
                lemma_reach_first(*self, *start, to_visit@[i]);
            }
        }
        while to_visit.len() > 0
            invariant
                hex_well_formed(*self),
                all == tile_conns(self.links@),
                worklist_shape(*self, visited@, to_visit@),
                worklist_reached(*self, *start, visited@, to_visit@),
                worklist_covers(*self, *start, visited@, to_visit@),
            decreases all.len() - visited@.len(), to_visit@.len(),
        {
            proof {
                lemma_seen_bound(visited@, all);
            }
            let ghost v0 = visited@;
            let ghost t0 = to_visit@;
            let conn = to_visit.pop().unwrap();
            assert(t0.drop_last() == to_visit@ && t0.last() == conn);
            if !seen_contains(&visited, &conn) {
                visited.push(conn);
                // Continue from the other end of a track segment, recording
                // both of its ends.
                let other = match conn.other_end() {
                    Some(o) => o,
                    None => conn,
                };
                assert(other == flip(conn));
                if other != conn {
                    visited.push(other);
                }
                // Stop at the tile's edges.
                let is_face = match other {
                    Connection::Face { .. } => true,
                    _ => false,
                };
                let ghost mut added = Seq::<Connection>::empty();
                if !is_face {
                    if let Some(cs) = self.connections(&other) {
                        let mut more = cs.clone();
                        proof {
                            added = cs@;
                        }
                        to_visit.append(&mut more);
                    }
                }
                proof {
                    assert(visited@ == visited_after(v0, conn));
                    assert(to_visit@ =~= t0.drop_last() + added);
                    assert(added_after(*self, conn, added));
                    lemma_visit_shape(*self, v0, t0, added);
                    lemma_visit_reached(*self, *start, v0, t0, added);
                    lemma_visit_covers(*self, *start, v0, t0, added);
                    lemma_seen_bound(visited@, all);
                }
            } else {
                proof {
                    lemma_skip_keeps(*self, *start, v0, t0);
                }
            }
        }
        assert(to_visit@ =~= Seq::<Connection>::empty());
        visited
    }
}

} // verus!
