//! A map as the path search reads it: for each hex, how the connections of
//! its tile lead into each other, the revenue of its cities and dits, the
//! tokens placed on it, and which hex lies beyond each of its faces.
use vstd::prelude::*;
use crate::connection::{equivalent, Connection};
use crate::hex::{HexAddress, HexFace, RotateCW};
use crate::token::Token;
use crate::track::TrackEnd;

verus! {

/// The connections that a path may continue to from one connection of a
/// tile.
#[derive(Debug, Clone)]
pub struct TileLink {
    pub from: Connection,
    pub to: Vec<Connection>,
}

/// A token placed in a token space of one of a tile's cities.
#[derive(Debug, Clone, Copy, PartialEq, Eq, Structural)]
pub struct PlacedToken {
    pub city_ix: usize,
    pub token: Token,
}

/// A tile face that touches a neighbouring tile: the face of the
/// neighbour's tile that it touches, and both faces as seen from the map
/// (that is, before the tiles were rotated).
#[derive(Debug, Clone, Copy, PartialEq, Eq, Structural)]
pub struct FaceLink {
    pub face: HexFace,
    pub map_face: HexFace,
    pub adj_addr: HexAddress,
    pub adj_face: HexFace,
    pub adj_map_face: HexFace,
}

/// A hex of the map that holds a tile.
#[derive(Debug, Clone)]
pub struct MapHex {
    pub addr: HexAddress,
    /// The rotation of the hex's tile on the map.
    pub rotation: RotateCW,
    /// For each connection of the tile, the connections it leads to.
    pub links: Vec<TileLink>,
    /// The revenue of each city.
    pub city_revenues: Vec<usize>,
    /// The number of token spaces of each city.
    pub city_spaces: Vec<usize>,
    /// The revenue of each dit.
    pub dit_revenues: Vec<usize>,
    /// Whether the tile is an off-board location (red or blue), past which
    /// trains cannot travel.
    pub off_board: bool,
    /// The tokens placed on the tile.
    pub tokens: Vec<PlacedToken>,
    /// The faces of the tile that touch another tile.
    pub faces: Vec<FaceLink>,
}

/// The hexes of a map that hold tiles.
#[derive(Debug, Clone)]
pub struct RouteMap {
    pub hexes: Vec<MapHex>,
}

/// A connection as a path search tells connections apart: both ends of a
/// track segment are the same element.
pub open spec fn conn_key(c: Connection) -> Connection {
    match c {
        Connection::Track { ix, .. } => Connection::Track { ix, end: TrackEnd::Start },
        _ => c,
    }
}

/// Two connections are equivalent exactly when their keys are equal.
pub proof fn lemma_conn_key(a: Connection, b: Connection)
    ensures
        equivalent(a, b) <==> conn_key(a) == conn_key(b),
{
}

/// The element of the map that a hex address and a connection name.
pub open spec fn elem_key(addr: HexAddress, c: Connection) -> (HexAddress, Connection) {
    (addr, conn_key(c))
}

/// The elements that the connections in `cs` reach on the hex at `addr`.
pub open spec fn target_keys(addr: HexAddress, cs: Seq<Connection>) -> Seq<(HexAddress, Connection)> {
    cs.map_values(|c: Connection| elem_key(addr, c))
}

/// The elements that the links of a tile reach on the hex at `addr`.
pub open spec fn link_keys(addr: HexAddress, links: Seq<TileLink>) -> Seq<(HexAddress, Connection)>
    decreases links.len(),
{
    if links.len() == 0 {
        Seq::empty()
    } else {
        link_keys(addr, links.drop_last()) + target_keys(addr, links.last().to@)
    }
}

/// Every element that a link of any hex reaches, with repetitions.
pub open spec fn all_keys(hexes: Seq<MapHex>) -> Seq<(HexAddress, Connection)>
    decreases hexes.len(),
{
    if hexes.len() == 0 {
        Seq::empty()
    } else {
        all_keys(hexes.drop_last()) + link_keys(hexes.last().addr, hexes.last().links@)
    }
}

/// Whether `c` is one of the connections that a link of `h` leads to.
pub open spec fn in_links(h: MapHex, c: Connection) -> bool {
    exists|j: int, k: int|
        0 <= j < h.links@.len() && 0 <= k < h.links@[j].to@.len() && #[trigger] h.links@[j].to@[k]
            == c
}

proof fn lemma_link_keys_contain(addr: HexAddress, links: Seq<TileLink>, j: int, k: int)
    requires
        0 <= j < links.len(),
        0 <= k < links[j].to@.len(),
    ensures
        link_keys(addr, links).contains(elem_key(addr, links[j].to@[k])),
    decreases links.len(),
{
    let last = links.len() - 1;
    let prefix = link_keys(addr, links.drop_last());
    let tail = target_keys(addr, links.last().to@);
    assert(link_keys(addr, links) == prefix + tail);
    if j == last {
        assert(tail[k] == elem_key(addr, links[j].to@[k]));
        assert((prefix + tail)[prefix.len() + k] == tail[k]);
    } else {
        lemma_link_keys_contain(addr, links.drop_last(), j, k);
        let i = choose|i: int| 0 <= i < prefix.len() && prefix[i] == elem_key(addr, links[j].to@[k]);
        assert((prefix + tail)[i] == prefix[i]);
    }
}

/// Each element that a link of a hex reaches is among all the elements.
pub proof fn lemma_all_keys_contain(hexes: Seq<MapHex>, i: int, c: Connection)
    requires
        0 <= i < hexes.len(),
        in_links(hexes[i], c),
    ensures
        all_keys(hexes).contains(elem_key(hexes[i].addr, c)),
    decreases hexes.len(),
{
    let last = hexes.len() - 1;
    let prefix = all_keys(hexes.drop_last());
    let tail = link_keys(hexes.last().addr, hexes.last().links@);
    assert(all_keys(hexes) == prefix + tail);
    let key = elem_key(hexes[i].addr, c);
    if i == last {
        let (j, k) = choose|j: int, k: int|
            0 <= j < hexes[i].links@.len() && 0 <= k < hexes[i].links@[j].to@.len()
                && #[trigger] hexes[i].links@[j].to@[k] == c;
        lemma_link_keys_contain(hexes[i].addr, hexes[i].links@, j, k);
        let n = choose|n: int| 0 <= n < tail.len() && tail[n] == key;
        assert((prefix + tail)[prefix.len() + n] == tail[n]);
    } else {
        assert(hexes.drop_last()[i] == hexes[i]);
        lemma_all_keys_contain(hexes.drop_last(), i, c);
        let n = choose|n: int| 0 <= n < prefix.len() && prefix[n] == key;
        assert((prefix + tail)[n] == prefix[n]);
    }
}

/// The position of the hex with address `addr`, if the map holds one.
pub open spec fn hex_index(hexes: Seq<MapHex>, addr: HexAddress) -> Option<int> {
    if exists|i: int| 0 <= i < hexes.len() && #[trigger] hexes[i].addr == addr {
        Some(choose|i: int| 0 <= i < hexes.len() && #[trigger] hexes[i].addr == addr)
    } else {
        None
    }
}

/// Whether a connection names a city or dit that the hex holds, when it
/// names a city or dit at all.
pub open spec fn stop_in_range(h: MapHex, c: Connection) -> bool {
    match c {
        Connection::City { ix } => ix < h.city_revenues@.len(),
        Connection::Dit { ix } => ix < h.dit_revenues@.len(),
        _ => true,
    }
}

/// Whether a hex's description is well formed: each connection leads to
/// one list of connections, each face touches at most one neighbour, each
/// city has its number of token spaces, and every city, dit and token space
/// that a link or a token names exists.
pub open spec fn hex_well_formed(h: MapHex) -> bool {
    &&& h.city_spaces@.len() == h.city_revenues@.len()
    &&& forall|a: int, b: int|
        0 <= a < b < h.links@.len() ==> #[trigger] h.links@[a].from != #[trigger] h.links@[b].from
    &&& forall|a: int, b: int|
        0 <= a < b < h.faces@.len() ==> #[trigger] h.faces@[a].face != #[trigger] h.faces@[b].face
    &&& forall|c: Connection| in_links(h, c) ==> stop_in_range(h, c)
    &&& forall|t: int|
        0 <= t < h.tokens@.len() ==> #[trigger] h.tokens@[t].city_ix < h.city_revenues@.len()
}

/// The largest revenue that any single city or dit may have, so that the
/// revenue of any path fits in a `usize`.
pub open spec fn revenue_cap(hexes: Seq<MapHex>) -> int {
    (usize::MAX as int) / (2 * (all_keys(hexes).len() + 1)) as int
}

/// Whether the given token is placed in a token space of the given city.
pub open spec fn holds_token(h: MapHex, city_ix: usize, token: Token) -> bool {
    exists|t: int|
        0 <= t < h.tokens@.len() && #[trigger] h.tokens@[t].city_ix == city_ix && h.tokens@[t].token == token
}

/// The number of tokens in `s` that are placed in the given city.
pub open spec fn tokens_at_city(s: Seq<PlacedToken>, city_ix: usize) -> int
    decreases s.len(),
{
    if s.len() == 0 {
        0
    } else {
        tokens_at_city(s.drop_last(), city_ix) + if s.last().city_ix == city_ix {
            1int
        } else {
            0
        }
    }
}

/// Whether a face is one of the upper faces of a hex, at which the
/// crossings between neighbouring hexes are recorded.
pub open spec fn upper_face(f: HexFace) -> bool {
    f is Top || f is UpperLeft || f is UpperRight
}

impl RouteMap {
    /// Whether the path search may run on this map: each address names one
    /// hex, each hex is well formed, no face at which a hex touches another
    /// is joined to an upper face of the other from an upper face of its own
    /// (neighbouring hexes meet at opposite faces, one upper and one lower),
    /// and the map is small enough that the counts and revenues of every
    /// path fit in a `usize`.
    pub open spec fn searchable(&self) -> bool {
        &&& forall|i: int, j: int|
            0 <= i < self.hexes@.len() && 0 <= j < self.hexes@[i].faces@.len() ==> !(upper_face(
                #[trigger] self.hexes@[i].faces@[j].map_face,
            ) && upper_face(self.hexes@[i].faces@[j].adj_map_face))
        &&& forall|a: int, b: int|
            0 <= a < b < self.hexes@.len() ==> #[trigger] self.hexes@[a].addr
                != #[trigger] self.hexes@[b].addr
        &&& forall|i: int| 0 <= i < self.hexes@.len() ==> hex_well_formed(#[trigger] self.hexes@[i])
        &&& 6 * (all_keys(self.hexes@).len() + 2) <= usize::MAX
        &&& forall|i: int, c: int|
            0 <= i < self.hexes@.len() && 0 <= c < self.hexes@[i].city_revenues@.len()
                ==> #[trigger] self.hexes@[i].city_revenues@[c] <= revenue_cap(self.hexes@)
        &&& forall|i: int, d: int|
            0 <= i < self.hexes@.len() && 0 <= d < self.hexes@[i].dit_revenues@.len()
                ==> #[trigger] self.hexes@[i].dit_revenues@[d] <= revenue_cap(self.hexes@)
    }

    /// Returns the position of the hex with the given address, if any.
    pub fn hex_ix(&self, addr: &HexAddress) -> (r: Option<usize>)
        ensures
            match r {
                Some(i) => i < self.hexes@.len() && self.hexes@[i as int].addr == *addr,
                None => forall|i: int| 0 <= i < self.hexes@.len() ==> self.hexes@[i].addr != *addr,
            },
            r is None <==> hex_index(self.hexes@, *addr) is None,
            self.searchable() && r is Some ==> hex_index(self.hexes@, *addr) == Some(r->0 as int),
    {
        let mut i: usize = 0;
        while i < self.hexes.len()
            invariant
                i <= self.hexes@.len(),
                forall|j: int| 0 <= j < i ==> self.hexes@[j].addr != *addr,
            decreases self.hexes@.len() - i,
        {
            if self.hexes[i].addr == *addr {
                proof {
                    let hs = self.hexes@;
                    assert(hs[i as int].addr == *addr);
                    if self.searchable() {
                        let c = choose|c: int| 0 <= c < hs.len() && #[trigger] hs[c].addr == *addr;
                        if c < i {
                            assert(hs[c].addr != *addr);
                        } else if c > i {
                            assert(hs[i as int].addr != hs[c].addr);
                        }
                    }
                }
                return Some(i);
            }
            i = i + 1;
        }
        None
    }
}

impl MapHex {
    /// Returns the connections that a path may continue to from `conn`, if
    /// the tile links `conn` to anything.
    pub fn connections(&self, conn: &Connection) -> (r: Option<&Vec<Connection>>)
        ensures
            match r {
                Some(cs) => exists|j: int|
                    0 <= j < self.links@.len() && self.links@[j].from == *conn && #[trigger] self.links@[j].to@
                        == cs@,
                None => forall|j: int| 0 <= j < self.links@.len() ==> self.links@[j].from != *conn,
            },
    {
        let mut i: usize = 0;
        while i < self.links.len()
            invariant
                i <= self.links@.len(),
                forall|j: int| 0 <= j < i ==> self.links@[j].from != *conn,
            decreases self.links@.len() - i,
        {
            if self.links[i].from == *conn {
                assert(self.links@[i as int].to@ == self.links@[i as int].to@);
                return Some(&self.links[i].to);
            }
            i = i + 1;
        }
        None
    }

    /// Returns what lies beyond the given face of the tile, if it touches
    /// another tile.
    pub fn face_link(&self, face: &HexFace) -> (r: Option<&FaceLink>)
        ensures
            match r {
                Some(f) => exists|j: int|
                    0 <= j < self.faces@.len() && #[trigger] self.faces@[j] == *f && f.face == *face,
                None => forall|j: int| 0 <= j < self.faces@.len() ==> self.faces@[j].face != *face,
            },
    {
        let mut i: usize = 0;
        while i < self.faces.len()
            invariant
                i <= self.faces@.len(),
                forall|j: int| 0 <= j < i ==> self.faces@[j].face != *face,
            decreases self.faces@.len() - i,
        {
            if self.faces[i].face == *face {
                return Some(&self.faces[i]);
            }
            i = i + 1;
        }
        None
    }

    /// Returns the number of tokens placed in the token spaces of the given
    /// city, and whether any of them is the given token.
    pub fn city_tokens(&self, city_ix: usize, token: &Token) -> (r: (usize, bool))
        ensures
            r.0 == tokens_at_city(self.tokens@, city_ix),
            r.1 == holds_token(*self, city_ix, *token),
    {
        let mut n: usize = 0;
        let mut found = false;
        let mut i: usize = 0;
        assert(self.tokens@.take(0) =~= Seq::<PlacedToken>::empty());
        while i < self.tokens.len()
            invariant
                i <= self.tokens@.len(),
                n == tokens_at_city(self.tokens@.take(i as int), city_ix),
                n <= i,
                found == exists|t: int|
                    0 <= t < i && #[trigger] self.tokens@[t].city_ix == city_ix
                        && self.tokens@[t].token == *token,
            decreases self.tokens@.len() - i,
        {
            let ghost s = self.tokens@;
            proof {
                assert(s.take(i + 1).drop_last() =~= s.take(i as int));
                assert(s.take(i + 1).last() == s[i as int]);
            }
            let t = self.tokens[i];
            if t.city_ix == city_ix {
                n = n + 1;
                if t.token == *token {
                    found = true;
                }
            }
            i = i + 1;
        }
        assert(self.tokens@.take(self.tokens@.len() as int) =~= self.tokens@);
        (n, found)
    }
}

} // verus!
