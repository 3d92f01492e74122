//! Update placed tokens when upgrading tiles.
//!
//! When one tile (the "original") is upgraded to a new tile, any token placed
//! on the original tile should ideally be placed on the new tile in a token
//! space that preserves the token's connectivity on the original tile.
//!
//! This is expressed as a maximum flow problem, and solved with the
//! Edmonds-Karp algorithm of [`crate::ekmf`]:
//!
//! 1. For each token on the original tile, identify the tile faces to which
//!    it is connected.
//! 2. For each city on the new tile, identify the tile faces to which it is
//!    connected.
//! 3. For each token on the original tile, identify the cities (if any) on
//!    the new tile that have the required tile face connections.
//! 4. Construct a flow network with a node for each token and each city: the
//!    source connects to each token with capacity `1`, each token connects
//!    to each of its cities with capacity `1`, and each city connects to the
//!    sink with capacity equal to its number of token spaces.
//! 5. If the maximum flow is less than the number of tokens, the tokens
//!    cannot be placed on the new tile.
//! 6. Otherwise, a flow from a token node to a city node places the token in
//!    that city.
use vstd::prelude::*;
use crate::ekmf::{
    lemma_flow_value_is_cut_capacity, lemma_sum_add, lemma_sum_ext, lemma_sum_swap, lemma_sum_zero, sum_to, Matrix,
};
use crate::hex::{rotated_face, HexFace, RotateCW};

verus! {

/// A token space: a city of a tile, and a space in that city.
#[derive(Clone, Copy, Debug, PartialEq, Eq, Structural, PartialOrd, Ord, Hash)]
pub struct TokenSpace {
    pub city_ix: usize,
    pub token_ix: usize,
}

impl TokenSpace {
    /// Returns the given token space of the given city.
    pub fn new(city_ix: usize, token_ix: usize) -> (t: Self)
        ensures
            t.city_ix == city_ix,
            t.token_ix == token_ix,
    {
        TokenSpace { city_ix, token_ix }
    }

    /// Returns the city to which this token space belongs.
    pub fn city_ix(&self) -> (c: usize)
        ensures
            c == self.city_ix,
    {
        self.city_ix
    }

    /// Returns the position of this token space in its city.
    pub fn token_ix(&self) -> (t: usize)
        ensures
            t == self.token_ix,
    {
        self.token_ix
    }
}

/// The order of token spaces: by city, then by position in the city.
pub open spec fn space_lt(a: TokenSpace, b: TokenSpace) -> bool {
    a.city_ix < b.city_ix || (a.city_ix == b.city_ix && a.token_ix < b.token_ix)
}

/// The entries are in strictly increasing order of their token spaces.
pub open spec fn sorted_spaces<V>(s: Seq<(TokenSpace, V)>) -> bool {
    forall|i: int, j: int| 0 <= i < j < s.len() ==> space_lt(#[trigger] s[i].0, #[trigger] s[j].0)
}

/// The map from token spaces to the tokens placed in them that `s` holds.
pub open spec fn entries_map<V>(s: Seq<(TokenSpace, V)>) -> Map<TokenSpace, V> {
    Map::new(
        |t: TokenSpace| exists|i: int| 0 <= i < s.len() && #[trigger] s[i].0 == t,
        |t: TokenSpace| s[choose|i: int| 0 <= i < s.len() && #[trigger] s[i].0 == t].1,
    )
}

/// The state of each token space on a tile: the token placed in each
/// occupied space, in order of the spaces.
#[derive(Debug)]
pub struct TokenTable<V: Copy> {
    entries: Vec<(TokenSpace, V)>,
}

/// The tokens placed on a tile, each identified by a number.
pub type TokenIndex = TokenTable<usize>;

impl<V: Copy> TokenTable<V> {
    #[verifier::type_invariant]
    spec fn sorted(self) -> bool {
        sorted_spaces(self.entries@)
    }

    /// The occupied token spaces and their tokens, in order of the spaces.
    pub closed spec fn entry_seq(&self) -> Seq<(TokenSpace, V)> {
        self.entries@
    }

    /// The token placed in each occupied space.
    pub open spec fn view(&self) -> Map<TokenSpace, V> {
        entries_map(self.entry_seq())
    }

    /// Returns an index in which no token is placed.
    pub fn new() -> (t: Self)
        ensures
            t.entry_seq() == Seq::<(TokenSpace, V)>::empty(),
    {
        TokenTable { entries: Vec::new() }
    }

    /// Returns the occupied token spaces and their tokens, in order of the
    /// spaces.
    pub fn entries(&self) -> (s: &[(TokenSpace, V)])
        ensures
            s@ == self.entry_seq(),
            sorted_spaces(s@),
    {
        proof {
            use_type_invariant(self);
        }
        self.entries.as_slice()
    }

    /// Returns the number of occupied token spaces.
    pub fn len(&self) -> (n: usize)
        ensures
            n == self.entry_seq().len(),
    {
        self.entries.len()
    }

    /// Returns whether no token is placed.
    pub fn is_empty(&self) -> (b: bool)
        ensures
            b == (self.entry_seq().len() == 0),
    {
        self.entries.len() == 0
    }

    /// The number of entries whose space precedes `t`.
    fn position(&self, t: &TokenSpace) -> (p: usize)
        ensures
            p <= self.entry_seq().len(),
            forall|i: int| 0 <= i < p ==> space_lt(#[trigger] self.entry_seq()[i].0, *t),
            forall|i: int| p <= i < self.entry_seq().len() ==> !space_lt(#[trigger] self.entry_seq()[i].0, *t),
    {
        proof {
            use_type_invariant(self);
        }
        let mut p: usize = 0;
        while p < self.entries.len() && (self.entries[p].0.city_ix < t.city_ix || (self.entries[p].0.city_ix
            == t.city_ix && self.entries[p].0.token_ix < t.token_ix))
            invariant
                p <= self.entries@.len(),
                sorted_spaces(self.entries@),
                forall|i: int| 0 <= i < p ==> space_lt(#[trigger] self.entries@[i].0, *t),
            decreases self.entries@.len() - p,
        {
            p = p + 1;
        }
        proof {
            assert forall|i: int| p <= i < self.entry_seq().len() implies !space_lt(
                #[trigger] self.entry_seq()[i].0,
                *t,
            ) by {
                if i > p {
                    assert(space_lt(self.entries@[p as int].0, self.entries@[i].0));
                }
            }
        }
        p
    }

    /// Returns whether a token is placed in the token space.
    pub fn contains_key(&self, t: &TokenSpace) -> (b: bool)
        ensures
            b == self@.dom().contains(*t),
    {
        proof {
            use_type_invariant(self);
        }
        let p = self.position(t);
        let b = p < self.entries.len() && self.entries[p].0 == *t;
        proof {
            if !b && self@.dom().contains(*t) {
                let i = choose|i: int| 0 <= i < self.entries@.len() && #[trigger] self.entries@[i].0 == *t;
                if i < p {
                    assert(space_lt(self.entry_seq()[i].0, *t));
                } else if i > p {
                    assert(space_lt(self.entries@[p as int].0, self.entries@[i].0));
                }
            }
        }
        b
    }

    /// Places the token in the token space, replacing any token there.
    pub fn insert(&mut self, t: TokenSpace, token: V)
        ensures
            final(self)@ == old(self)@.insert(t, token),
            !old(self)@.dom().contains(t) ==> final(self).entry_seq().len() == old(self).entry_seq().len() + 1,
            old(self)@.dom().contains(t) ==> final(self).entry_seq().len() == old(self).entry_seq().len(),
    {
        proof {
            use_type_invariant(&*self);
        }
        let p = self.position(&t);
        let ghost old_s = self.entries@;
        let mut entries: Vec<(TokenSpace, V)> = Vec::new();
        std::mem::swap(&mut entries, &mut self.entries);
        assert(entries@ =~= old_s);
        if p < entries.len() && entries[p].0 == t {
            entries.set(p, (t, token));
            proof {
                let s = entries@;
                assert(s == old_s.update(p as int, (t, token)));
                assert(sorted_spaces(s)) by {
                    assert forall|i: int, j: int| 0 <= i < j < s.len() implies space_lt(#[trigger] s[i].0, #[trigger] s[j].0) by {
                        assert(space_lt(old_s[i].0, old_s[j].0));
                    }
                }
                lemma_map_update(old_s, p as int, t, token);
            }
            *self = TokenTable { entries };
        } else {
            entries.insert(p, (t, token));
            proof {
                let s = entries@;
                assert(s == old_s.insert(p as int, (t, token)));
                assert(sorted_spaces(s)) by {
                    assert forall|i: int, j: int| 0 <= i < j < s.len() implies space_lt(#[trigger] s[i].0, #[trigger] s[j].0) by {
                        if j < p {
                            assert(space_lt(old_s[i].0, old_s[j].0));
                        } else if j == p {
                            assert(space_lt(old_s[i].0, t));
                        } else if i == p {
                            assert(!space_lt(old_s[j - 1].0, t));
                            assert(old_s[j - 1].0 != t) by {
                                if j - 1 > p {
                                    assert(space_lt(old_s[p as int].0, old_s[j - 1].0));
                                }
                            }
                        } else if i < p {
                            assert(space_lt(old_s[i].0, t));
                            assert(!space_lt(old_s[j - 1].0, t));
                        } else {
                            assert(space_lt(old_s[i - 1].0, old_s[j - 1].0));
                        }
                    }
                }
                assert(!entries_map(old_s).dom().contains(t)) by {
                    if entries_map(old_s).dom().contains(t) {
                        let i = choose|i: int| 0 <= i < old_s.len() && #[trigger] old_s[i].0 == t;
                        if i < p {
                            assert(space_lt(old_s[i].0, t));
                        } else if i > p {
                            assert(space_lt(old_s[p as int].0, old_s[i].0));
                        }
                    }
                }
                lemma_map_insert(old_s, p as int, t, token);
            }
            *self = TokenTable { entries };
        }
    }
}

impl<V: Copy> TokenTable<V> {
    /// Returns the token placed in the token space, if any.
    pub fn get(&self, t: &TokenSpace) -> (r: Option<V>)
        ensures
            r == if self@.dom().contains(*t) {
                Some(self@[*t])
            } else {
                None::<V>
            },
    {
        proof {
            use_type_invariant(self);
        }
        let p = self.position(t);
        if p < self.entries.len() && self.entries[p].0 == *t {
            proof {
                lemma_entries_map_at(self.entries@, p as int);
            }
            Some(self.entries[p].1)
        } else {
            proof {
                if self@.dom().contains(*t) {
                    let i = choose|i: int| 0 <= i < self.entries@.len() && #[trigger] self.entries@[i].0 == *t;
                    if i < p {
                        assert(space_lt(self.entry_seq()[i].0, *t));
                    } else if i > p {
                        assert(space_lt(self.entries@[p as int].0, self.entries@[i].0));
                    }
                }
            }
            None
        }
    }

    /// Removes the token, if any, from the token space.
    pub fn remove(&mut self, t: &TokenSpace)
        ensures
            final(self)@ == old(self)@.remove(*t),
    {
        proof {
            use_type_invariant(&*self);
        }
        let p = self.position(t);
        let ghost old_s = self.entries@;
        if p < self.entries.len() && self.entries[p].0 == *t {
            let mut entries: Vec<(TokenSpace, V)> = Vec::new();
            std::mem::swap(&mut entries, &mut self.entries);
            assert(entries@ =~= old_s);
            entries.remove(p);
            proof {
                let s = entries@;
                assert(s == old_s.remove(p as int));
                assert(sorted_spaces(s)) by {
                    assert forall|i: int, j: int| 0 <= i < j < s.len() implies space_lt(#[trigger] s[i].0, #[trigger] s[j].0) by {
                        if j < p {
                            assert(space_lt(old_s[i].0, old_s[j].0));
                        } else if i < p {
                            assert(space_lt(old_s[i].0, old_s[j + 1].0));
                        } else {
                            assert(space_lt(old_s[i + 1].0, old_s[j + 1].0));
                        }
                    }
                }
                let m = entries_map(s);
                let e = entries_map(old_s).remove(*t);
                assert forall|x: TokenSpace| m.dom().contains(x) <==> e.dom().contains(x) by {
                    if m.dom().contains(x) {
                        let i = choose|i: int| 0 <= i < s.len() && #[trigger] s[i].0 == x;
                        if i < p {
                            assert(old_s[i].0 == x);
                            if x == *t {
                                lemma_sorted_distinct(old_s, i, p as int);
                            }
                        } else {
                            assert(old_s[i + 1].0 == x);
                            if x == *t {
                                lemma_sorted_distinct(old_s, i + 1, p as int);
                            }
                        }
                    }
                    if e.dom().contains(x) {
                        let i = choose|i: int| 0 <= i < old_s.len() && #[trigger] old_s[i].0 == x;
                        if i < p {
                            assert(s[i].0 == x);
                        } else if i > p {
                            assert(s[i - 1].0 == x);
                        }
                    }
                }
                assert forall|x: TokenSpace| #[trigger] m.dom().contains(x) implies m[x] == e[x] by {
                    let i = choose|i: int| 0 <= i < s.len() && #[trigger] s[i].0 == x;
                    lemma_entries_map_at(s, i);
                    if i < p {
                        lemma_entries_map_at(old_s, i);
                    } else {
                        lemma_entries_map_at(old_s, i + 1);
                    }
                }
                assert(m =~= e);
            }
            *self = TokenTable { entries };
        } else {
            proof {
                assert(!entries_map(old_s).dom().contains(*t)) by {
                    if entries_map(old_s).dom().contains(*t) {
                        let i = choose|i: int| 0 <= i < old_s.len() && #[trigger] old_s[i].0 == *t;
                        if i < p {
                            assert(space_lt(old_s[i].0, *t));
                        } else if i > p {
                            assert(space_lt(old_s[p as int].0, old_s[i].0));
                        }
                    }
                }
                assert(entries_map(old_s).remove(*t) =~= entries_map(old_s));
            }
        }
    }

    /// Replaces the tokens with those of another table.
    pub fn assign_from(&mut self, other: &TokenTable<V>)
        ensures
            final(self).entry_seq() == other.entry_seq(),
            final(self)@ == other@,
    {
        proof {
            use_type_invariant(other);
        }
        let mut entries: Vec<(TokenSpace, V)> = Vec::new();
        let mut i: usize = 0;
        while i < other.entries.len()
            invariant
                i <= other.entries@.len(),
                entries@ == other.entries@.take(i as int),
            decreases other.entries@.len() - i,
        {
            entries.push(other.entries[i]);
            i = i + 1;
            assert(entries@ =~= other.entries@.take(i as int));
        }
        assert(entries@ =~= other.entries@);
        *self = TokenTable { entries };
    }
}

/// The entries of a sorted sequence have distinct token spaces.
proof fn lemma_sorted_distinct<V>(s: Seq<(TokenSpace, V)>, i: int, j: int)
    requires
        sorted_spaces(s),
        0 <= i < s.len(),
        0 <= j < s.len(),
        s[i].0 == s[j].0,
    ensures
        i == j,
{
    if i < j {
        assert(space_lt(s[i].0, s[j].0));
    } else if j < i {
        assert(space_lt(s[j].0, s[i].0));
    }
}

/// The token in an entry of a sorted sequence is the one its map holds.
proof fn lemma_entries_map_at<V>(s: Seq<(TokenSpace, V)>, i: int)
    requires
        sorted_spaces(s),
        0 <= i < s.len(),
    ensures
        entries_map(s).dom().contains(s[i].0),
        entries_map(s)[s[i].0] == s[i].1,
{
    let t = s[i].0;
    assert(0 <= i < s.len() && s[i].0 == t);
    let c = choose|c: int| 0 <= c < s.len() && #[trigger] s[c].0 == t;
    lemma_sorted_distinct(s, i, c);
}

proof fn lemma_map_update<V>(old_s: Seq<(TokenSpace, V)>, p: int, t: TokenSpace, token: V)
    requires
        sorted_spaces(old_s),
        0 <= p < old_s.len(),
        old_s[p].0 == t,
        sorted_spaces(old_s.update(p, (t, token))),
    ensures
        entries_map(old_s.update(p, (t, token))) == entries_map(old_s).insert(t, token),
{
    let s = old_s.update(p, (t, token));
    let m = entries_map(s);
    let e = entries_map(old_s).insert(t, token);
    assert forall|x: TokenSpace| m.dom().contains(x) <==> e.dom().contains(x) by {
        if m.dom().contains(x) {
            let i = choose|i: int| 0 <= i < s.len() && #[trigger] s[i].0 == x;
            if i != p {
                assert(old_s[i].0 == x);
            }
        }
        if e.dom().contains(x) && x != t {
            let i = choose|i: int| 0 <= i < old_s.len() && #[trigger] old_s[i].0 == x;
            assert(s[i].0 == x);
        }
        if x == t {
            assert(s[p].0 == x);
        }
    }
    assert forall|x: TokenSpace| #[trigger] m.dom().contains(x) implies m[x] == e[x] by {
        let i = choose|i: int| 0 <= i < s.len() && #[trigger] s[i].0 == x;
        lemma_entries_map_at(s, i);
        if i != p {
            assert(old_s[i] == s[i]);
            lemma_entries_map_at(old_s, i);
        }
    }
    assert(m =~= e);
}

proof fn lemma_map_insert<V>(old_s: Seq<(TokenSpace, V)>, p: int, t: TokenSpace, token: V)
    requires
        sorted_spaces(old_s),
        0 <= p <= old_s.len(),
        !entries_map(old_s).dom().contains(t),
        sorted_spaces(old_s.insert(p, (t, token))),
    ensures
        entries_map(old_s.insert(p, (t, token))) == entries_map(old_s).insert(t, token),
{
    let s = old_s.insert(p, (t, token));
    let m = entries_map(s);
    let e = entries_map(old_s).insert(t, token);
    assert forall|x: TokenSpace| m.dom().contains(x) <==> e.dom().contains(x) by {
        if m.dom().contains(x) {
            let i = choose|i: int| 0 <= i < s.len() && #[trigger] s[i].0 == x;
            if i < p {
                assert(old_s[i].0 == x);
            } else if i > p {
                assert(old_s[i - 1].0 == x);
            }
        }
        if e.dom().contains(x) && x != t {
            let i = choose|i: int| 0 <= i < old_s.len() && #[trigger] old_s[i].0 == x;
            if i < p {
                assert(s[i].0 == x);
            } else {
                assert(s[i + 1].0 == x);
            }
        }
        if x == t {
            assert(s[p].0 == x);
        }
    }
    assert forall|x: TokenSpace| #[trigger] m.dom().contains(x) implies m[x] == e[x] by {
        let i = choose|i: int| 0 <= i < s.len() && #[trigger] s[i].0 == x;
        lemma_entries_map_at(s, i);
        if i < p {
            assert(old_s[i] == s[i]);
            lemma_entries_map_at(old_s, i);
        } else if i > p {
            assert(old_s[i - 1] == s[i]);
            lemma_entries_map_at(old_s, i - 1);
        }
    }
    assert(m =~= e);
}

/// What token placement reads of a city on a tile: the faces of the tile
/// that the city connects to, and its number of token spaces.
#[derive(Debug, Clone)]
pub struct CityLinks {
    pub faces: Vec<HexFace>,
    pub token_spaces: usize,
}

/// What token placement reads of a tile: its cities.
#[derive(Debug, Clone)]
pub struct TileCities {
    pub cities: Vec<CityLinks>,
}

/// The faces `fs`, on a tile rotated clockwise by `r`.
pub open spec fn rotated_faces(fs: Seq<HexFace>, r: RotateCW) -> Seq<HexFace> {
    fs.map_values(|f: HexFace| rotated_face(f, r))
}

/// The number of token spaces of each city.
pub open spec fn city_spaces(tile: TileCities) -> Seq<usize> {
    tile.cities@.map_values(|c: CityLinks| c.token_spaces)
}

/// Returns the faces to which each city on the tile is connected, when
/// accounting for the tile's rotation.
fn city_face_connections(tile: &TileCities, rotn: &RotateCW) -> (r: Vec<Vec<HexFace>>)
    ensures
        r@.len() == tile.cities@.len(),
        forall|c: int| 0 <= c < r@.len() ==> (#[trigger] r@[c])@ == rotated_faces(tile.cities@[c].faces@, *rotn),
{
    let mut city_faces: Vec<Vec<HexFace>> = Vec::new();
    let mut ix: usize = 0;
    while ix < tile.cities.len()
        invariant
            ix <= tile.cities@.len(),
            city_faces@.len() == ix,
            forall|c: int| 0 <= c < ix ==> (#[trigger] city_faces@[c])@ == rotated_faces(tile.cities@[c].faces@, *rotn),
        decreases tile.cities@.len() - ix,
    {
        let faces = rotate_faces(&tile.cities[ix].faces, rotn);
        city_faces.push(faces);
        ix = ix + 1;
    }
    city_faces
}

/// Returns the faces, on a tile rotated clockwise by `rotn`.
fn rotate_faces(faces: &Vec<HexFace>, rotn: &RotateCW) -> (r: Vec<HexFace>)
    ensures
        r@ == rotated_faces(faces@, *rotn),
{
    let mut out: Vec<HexFace> = Vec::new();
    let mut i: usize = 0;
    while i < faces.len()
        invariant
            i <= faces@.len(),
            out@ == rotated_faces(faces@.take(i as int), *rotn),
        decreases faces@.len() - i,
    {
        out.push(faces[i].rotate(rotn));
        i = i + 1;
        assert(out@ =~= rotated_faces(faces@.take(i as int), *rotn));
    }
    assert(faces@.take(faces@.len() as int) =~= faces@);
    out
}

/// Returns the faces to which each token on the tile is connected, when
/// accounting for the tile's rotation.
fn token_face_connections(tile: &TileCities, rotn: &RotateCW, tokens: &TokenIndex) -> (r: Vec<Vec<HexFace>>)
    requires
        forall|k: int| 0 <= k < tokens.entry_seq().len() ==> (#[trigger] tokens.entry_seq()[k]).0.city_ix < tile.cities@.len(),
    ensures
        r@.len() == tokens.entry_seq().len(),
        forall|k: int|
            0 <= k < r@.len() ==> (#[trigger] r@[k])@ == rotated_faces(
                tile.cities@[tokens.entry_seq()[k].0.city_ix as int].faces@,
                *rotn,
            ),
{
    let entries = tokens.entries();
    let mut token_faces: Vec<Vec<HexFace>> = Vec::new();
    let mut ix: usize = 0;
    while ix < entries.len()
        invariant
            entries@ == tokens.entry_seq(),
            ix <= entries@.len(),
            forall|k: int| 0 <= k < entries@.len() ==> (#[trigger] entries@[k]).0.city_ix < tile.cities@.len(),
            token_faces@.len() == ix,
            forall|k: int|
                0 <= k < ix ==> (#[trigger] token_faces@[k])@ == rotated_faces(
                    tile.cities@[entries@[k].0.city_ix as int].faces@,
                    *rotn,
                ),
        decreases entries@.len() - ix,
    {
        let city_ix = entries[ix].0.city_ix();
        assert(entries@[ix as int].0.city_ix < tile.cities@.len());
        let faces = rotate_faces(&tile.cities[city_ix].faces, rotn);
        token_faces.push(faces);
        ix = ix + 1;
    }
    token_faces
}

/// Returns whether every face in `want` is in `have`.
fn faces_within(want: &Vec<HexFace>, have: &Vec<HexFace>) -> (b: bool)
    ensures
        b == want@.to_set().subset_of(have@.to_set()),
{
    let mut i: usize = 0;
    while i < want.len()
        invariant
            i <= want@.len(),
            forall|a: int| 0 <= a < i ==> have@.contains(#[trigger] want@[a]),
        decreases want@.len() - i,
    {
        let mut found = false;
        let mut j: usize = 0;
        while j < have.len()
            invariant
                j <= have@.len(),
                i < want@.len(),
                found == exists|b: int| 0 <= b < j && have@[b] == want@[i as int],
            decreases have@.len() - j,
        {
            if have[j] == want[i] {
                found = true;
            }
            j = j + 1;
        }
        if !found {
            proof {
                assert(want@.to_set().contains(want@[i as int]));
                assert(!have@.to_set().contains(want@[i as int]));
            }
            return false;
        }
        i = i + 1;
    }
    proof {
        assert forall|f: HexFace| want@.to_set().contains(f) implies have@.to_set().contains(f) by {
            let a = choose|a: int| 0 <= a < want@.len() && want@[a] == f;
            assert(have@.contains(want@[a]));
        }
    }
    true
}

/// Returns, for each token, the cities whose faces include all of the
/// token's faces, in increasing order.
fn valid_cities(token_faces: &Vec<Vec<HexFace>>, city_faces: &Vec<Vec<HexFace>>) -> (r: Vec<Vec<usize>>)
    ensures
        r@.len() == token_faces@.len(),
        forall|k: int, c: usize|
            0 <= k < r@.len() ==> (#[trigger] r@[k]@.contains(c) <==> (c < city_faces@.len()
                && token_faces@[k]@.to_set().subset_of(city_faces@[c as int]@.to_set()))),
{
    let mut out: Vec<Vec<usize>> = Vec::new();
    let mut k: usize = 0;
    while k < token_faces.len()
        invariant
            k <= token_faces@.len(),
            out@.len() == k,
            forall|k2: int, c: usize|
                0 <= k2 < k ==> (#[trigger] out@[k2]@.contains(c) <==> (c < city_faces@.len()
                    && token_faces@[k2]@.to_set().subset_of(city_faces@[c as int]@.to_set()))),
        decreases token_faces@.len() - k,
    {
        let mut city_ixs: Vec<usize> = Vec::new();
        let mut c: usize = 0;
        while c < city_faces.len()
            invariant
                k < token_faces@.len(),
                c <= city_faces@.len(),
                forall|x: usize|
                    city_ixs@.contains(x) <==> (x < c && token_faces@[k as int]@.to_set().subset_of(
                        city_faces@[x as int]@.to_set(),
                    )),
            decreases city_faces@.len() - c,
        {
            if faces_within(&token_faces[k], &city_faces[c]) {
                let ghost before = city_ixs@;
                city_ixs.push(c);
                proof {
                    assert forall|x: usize| city_ixs@.contains(x) <==> (x < c + 1 && token_faces@[k as int]@.to_set().subset_of(
                        city_faces@[x as int]@.to_set(),
                    )) by {
                        if x == c {
                            assert(city_ixs@[before.len() as int] == x);
                        }
                        if before.contains(x) {
                            let i = choose|i: int| 0 <= i < before.len() && before[i] == x;
                            assert(city_ixs@[i] == x);
                        }
                        if city_ixs@.contains(x) && x != c {
                            let i = choose|i: int| 0 <= i < city_ixs@.len() && city_ixs@[i] == x;
                            assert(before[i] == x);
                        }
                    }
                }
            }
            c = c + 1;
        }
        out.push(city_ixs);
        k = k + 1;
    }
    out
}

/// The capacity from node `i` to node `j` of the token placement network:
/// the source (node `0`) reaches each token (nodes `1` to `n`) with
/// capacity `1`, each token reaches each city (the next `m` nodes) where it
/// may be placed with capacity `1`, and each city reaches the sink (the last
/// node) with its number of token spaces.
pub open spec fn net_cap(lists: Seq<Seq<usize>>, spaces: Seq<usize>, i: int, j: int) -> int {
    let n = lists.len() as int;
    let m = spaces.len() as int;
    if i == 0 && 1 <= j <= n {
        1
    } else if 1 <= i <= n && n + 1 <= j < n + 1 + m && lists[i - 1].contains((j - n - 1) as usize) {
        1
    } else if n + 1 <= i < n + 1 + m && j == n + m + 1 {
        spaces[i - n - 1] as int
    } else {
        0
    }
}

/// The lists of cities of each token, as sequences.
pub open spec fn list_views(lists: Seq<Vec<usize>>) -> Seq<Seq<usize>> {
    lists.map_values(|l: Vec<usize>| l@)
}

/// Returns the capacities of the flow network that connects each token to
/// the cities where it may be placed.
///
/// The first node is the source, followed by a node for each token, then by
/// a node for each city, and the final node is the sink.
fn flow_matrix(tile: &TileCities, token_cities: &Vec<Vec<usize>>) -> (cap: Matrix)
    requires
        forall|k: int, c: usize|
            0 <= k < token_cities@.len() && #[trigger] token_cities@[k]@.contains(c) ==> c < tile.cities@.len(),
        (token_cities@.len() + tile.cities@.len() + 2) * (token_cities@.len() + tile.cities@.len() + 2)
            <= usize::MAX,
    ensures
        cap.wf(),
        cap.size() == token_cities@.len() + tile.cities@.len() + 2,
        forall|i: int, j: int|
            cap.has_cell(i, j) ==> #[trigger] cap.at(i, j) == net_cap(list_views(token_cities@), city_spaces(*tile), i, j),
{
    let ghost lists = list_views(token_cities@);
    let ghost spaces = city_spaces(*tile);
    let token_count = token_cities.len();
    let city_count = tile.cities.len();
    proof {
        let a = token_count + city_count + 2;
        assert(a <= a * a) by (nonlinear_arith)
            requires
                a >= 1,
        ;
    }
    let n = token_count + city_count + 2;
    let mut capacities = Matrix::square(n);
    let mut k: usize = 0;
    while k < token_count
        invariant
            token_count == token_cities@.len(),
            city_count == tile.cities@.len(),
            n == token_count + city_count + 2,
            lists == list_views(token_cities@),
            spaces == city_spaces(*tile),
            lists.len() == token_count,
            spaces.len() == city_count,
            forall|k2: int, c: usize|
                0 <= k2 < token_cities@.len() && #[trigger] token_cities@[k2]@.contains(c) ==> c < tile.cities@.len(),
            k <= token_count,
            capacities.wf(),
            capacities.size() == n,
            forall|i: int, j: int|
                capacities.has_cell(i, j) ==> #[trigger] capacities.at(i, j) == if (i == 0 && j <= k) || (1 <= i <= k) {
                    net_cap(lists, spaces, i, j)
                } else {
                    0
                },
        decreases token_count - k,
    {
        // Connect the source node to the token node.
        let source_ix = k + 1;
        capacities.set((0, source_ix), 1);
        let city_ixs = &token_cities[k];
        let mut t: usize = 0;
        while t < city_ixs.len()
            invariant
                token_count == token_cities@.len(),
                city_count == tile.cities@.len(),
                n == token_count + city_count + 2,
                lists == list_views(token_cities@),
                spaces == city_spaces(*tile),
                lists.len() == token_count,
                spaces.len() == city_count,
                k < token_count,
                source_ix == k + 1,
                *city_ixs == token_cities@[k as int],
                forall|c: usize| (#[trigger] city_ixs@.contains(c)) ==> c < city_count,
                t <= city_ixs@.len(),
                capacities.wf(),
                capacities.size() == n,
                forall|i: int, j: int|
                    capacities.has_cell(i, j) ==> #[trigger] capacities.at(i, j) == if (i == 0 && j <= k + 1) || (1 <= i <= k) {
                        net_cap(lists, spaces, i, j)
                    } else if i == k + 1 && token_count + 1 <= j < token_count + 1 + city_count
                        && city_ixs@.take(t as int).contains((j - token_count - 1) as usize) {
                        1
                    } else {
                        0
                    },
            decreases city_ixs@.len() - t,
        {
            let city_ix = city_ixs[t];
            assert(city_ixs@.contains(city_ix));
            // Connect the token node to each city node in turn.
            let dest_ix = city_ix + token_count + 1;
            let ghost before = capacities;
            capacities.set((source_ix, dest_ix), 1);
            proof {
                assert(city_ixs@.take(t + 1) =~= city_ixs@.take(t as int).push(city_ix));
                assert forall|i: int, j: int| capacities.has_cell(i, j) implies #[trigger] capacities.at(i, j) == if (i == 0 && j <= k + 1) || (1 <= i <= k) {
                    net_cap(lists, spaces, i, j)
                } else if i == k + 1 && token_count + 1 <= j < token_count + 1 + city_count
                    && city_ixs@.take(t + 1).contains((j - token_count - 1) as usize) {
                    1
                } else {
                    0
                } by {
                    assert(before.has_cell(i, j));
                    if i != source_ix || j != dest_ix {
                        assert(capacities.at(i, j) == before.at(i, j));
                    }
                    if i == k + 1 && token_count + 1 <= j < token_count + 1 + city_count {
                        let c = (j - token_count - 1) as usize;
                        let prefix = city_ixs@.take(t as int);
                        let longer = city_ixs@.take(t + 1);
                        assert(longer[t as int] == city_ix);
                        if prefix.contains(c) {
                            let a = choose|a: int| 0 <= a < prefix.len() && prefix[a] == c;
                            assert(longer[a] == c);
                        }
                        if longer.contains(c) && !prefix.contains(c) {
                            let a = choose|a: int| 0 <= a < longer.len() && longer[a] == c;
                            if a < t {
                                assert(prefix[a] == c);
                            }
                            assert(c == city_ix);
                        }
                    }
                }
            }
            t = t + 1;
        }
        proof {
            assert(city_ixs@.take(city_ixs@.len() as int) =~= city_ixs@);
            assert(lists[k as int] == city_ixs@);
        }
        k = k + 1;
    }
    let mut c: usize = 0;
    while c < city_count
        invariant
            token_count == token_cities@.len(),
            city_count == tile.cities@.len(),
            n == token_count + city_count + 2,
            lists == list_views(token_cities@),
            spaces == city_spaces(*tile),
            lists.len() == token_count,
            spaces.len() == city_count,
            c <= city_count,
            capacities.wf(),
            capacities.size() == n,
            forall|i: int, j: int|
                capacities.has_cell(i, j) ==> #[trigger] capacities.at(i, j) == if i <= token_count || i < token_count + 1 + c {
                    net_cap(lists, spaces, i, j)
                } else {
                    0
                },
        decreases city_count - c,
    {
        // Connect each city node to the sink node.
        let node_ix = c + token_count + 1;
        capacities.set((node_ix, n - 1), tile.cities[c].token_spaces);
        c = c + 1;
    }
    capacities
}

/// The number of tokens among the first `k` that `a` places in city `c`.
pub open spec fn count_in(a: Seq<int>, c: int, k: int) -> int
    decreases k,
{
    if k <= 0 {
        0
    } else {
        count_in(a, c, k - 1) + if a[k - 1] == c {
            1int
        } else {
            0
        }
    }
}

proof fn lemma_count_in_mono(a: Seq<int>, c: int, k1: int, k2: int)
    requires
        0 <= k1 <= k2,
    ensures
        count_in(a, c, k1) <= count_in(a, c, k2),
        count_in(a, c, k1) >= 0,
    decreases k2,
{
    if k2 > k1 {
        lemma_count_in_mono(a, c, k1, k2 - 1);
    } else if k1 > 0 {
        lemma_count_in_mono(a, c, k1 - 1, k1 - 1);
    }
}

/// A row whose entries are zero, except perhaps at column `j0`, sums to
/// that entry.
proof fn lemma_row_single(m: Matrix, r: int, j0: int, k: int)
    requires
        forall|j: int| 0 <= j < k && j != j0 ==> #[trigger] m.at(r, j) == 0,
    ensures
        m.row_sum_upto(r, k) == if 0 <= j0 < k {
            m.at(r, j0) as int
        } else {
            0
        },
    decreases k,
{
    if k > 0 {
        lemma_row_single(m, r, j0, k - 1);
    }
}

/// A column whose entries are zero, except perhaps at row `i0`, sums to
/// that entry.
proof fn lemma_col_single(m: Matrix, c: int, i0: int, k: int)
    requires
        forall|i: int| 0 <= i < k && i != i0 ==> #[trigger] m.at(i, c) == 0,
    ensures
        m.col_sum_upto(c, k) == if 0 <= i0 < k {
            m.at(i0, c) as int
        } else {
            0
        },
    decreases k,
{
    if k > 0 {
        lemma_col_single(m, c, i0, k - 1);
    }
}

/// A row sums to at least any one of its entries, and any two of them.
proof fn lemma_row_parts(m: Matrix, r: int, j1: int, j2: int, k: int)
    requires
        0 <= j1 < k,
        0 <= j2 < k,
    ensures
        m.row_sum_upto(r, k) >= m.at(r, j1),
        j1 != j2 ==> m.row_sum_upto(r, k) >= m.at(r, j1) + m.at(r, j2),
    decreases k,
{
    lemma_row_nonneg(m, r, k - 1);
    if j1 < k - 1 && j2 < k - 1 {
        lemma_row_parts(m, r, j1, j2, k - 1);
    } else if j1 < k - 1 {
        lemma_row_parts(m, r, j1, j1, k - 1);
    } else if j2 < k - 1 {
        lemma_row_parts(m, r, j2, j2, k - 1);
    }
}

proof fn lemma_row_nonneg(m: Matrix, r: int, k: int)
    ensures
        m.row_sum_upto(r, k) >= 0,
    decreases k,
{
    if k > 0 {
        lemma_row_nonneg(m, r, k - 1);
    }
}

/// A row with a positive sum has a positive entry.
proof fn lemma_row_pos(m: Matrix, r: int, k: int)
    requires
        m.row_sum_upto(r, k) > 0,
    ensures
        exists|j: int| 0 <= j < k && #[trigger] m.at(r, j) > 0,
    decreases k,
{
    if k > 0 {
        if m.at(r, k - 1) == 0 {
            lemma_row_pos(m, r, k - 1);
        }
    }
}

/// The number of token nodes among the first `k` nodes.
spec fn tokens_before(n: int, k: int) -> int {
    if k <= 1 {
        0
    } else if k - 1 <= n {
        k - 1
    } else {
        n
    }
}

/// The source's row sums to at most the number of token nodes that it
/// covers, and to less when one of their entries is zero.
proof fn lemma_source_row(f: Matrix, n: int, k: int, j0: int)
    requires
        n >= 0,
        forall|j: int| 0 <= j < k ==> #[trigger] f.at(0, j) <= if 1 <= j <= n {
            1int
        } else {
            0
        },
    ensures
        f.row_sum_upto(0, k) <= tokens_before(n, k),
        1 <= j0 <= n && j0 < k && f.at(0, j0) == 0 ==> f.row_sum_upto(0, k) <= tokens_before(n, k) - 1,
    decreases k,
{
    if k > 0 {
        lemma_source_row(f, n, k - 1, j0);
        assert(f.at(0, k - 1) <= if 1 <= k - 1 <= n {
            1int
        } else {
            0
        });
    }
}

/// The flows of a maximum flow through the token placement network that
/// places every token: each token reaches exactly one city, one where it
/// may be placed, and no city receives more tokens than it has spaces.
pub open spec fn placing_flow(f: Matrix, lists: Seq<Seq<usize>>, spaces: Seq<usize>) -> bool {
    let n = lists.len() as int;
    let m = spaces.len() as int;
    &&& f.size() == n + m + 2
    &&& forall|k: int| 0 <= k < n ==> #[trigger] reaches_city(f, n, m, k)
    &&& forall|k: int, c: int|
        0 <= k < n && 0 <= c < m && #[trigger] f.at(k + 1, n + 1 + c) == 1 ==> lists[k].contains(c as usize)
    &&& forall|k: int, c1: int, c2: int|
        0 <= k < n && 0 <= c1 < m && 0 <= c2 < m && #[trigger] f.at(k + 1, n + 1 + c1) == 1 && #[trigger] f.at(
            k + 1,
            n + 1 + c2,
        ) == 1 ==> c1 == c2
    &&& forall|k: int, c: int| 0 <= k < n && 0 <= c < m ==> #[trigger] f.at(k + 1, n + 1 + c) <= 1
    &&& forall|c: int| 0 <= c < m ==> count_in(flow_cities(f, lists, spaces), c, n) <= #[trigger] spaces[c]
}

/// Whether the flow `f` takes token `k` to some city.
pub open spec fn reaches_city(f: Matrix, n: int, m: int, k: int) -> bool {
    exists|c: int| 0 <= c < m && #[trigger] f.at(k + 1, n + 1 + c) == 1
}

/// The city that the flow `f` takes each token to.
pub open spec fn flow_cities(f: Matrix, lists: Seq<Seq<usize>>, spaces: Seq<usize>) -> Seq<int> {
    let n = lists.len() as int;
    let m = spaces.len() as int;
    Seq::new(
        lists.len(),
        |k: int| choose|c: int| 0 <= c < m && #[trigger] f.at(k + 1, n + 1 + c) == 1,
    )
}

/// A flow through the token placement network that respects the capacities
/// and is conserved at each token and city, and whose value is the number
/// of tokens, places every token.
proof fn lemma_placing_flow(cap: Matrix, f: Matrix, lists: Seq<Seq<usize>>, spaces: Seq<usize>)
    requires
        cap.size() == lists.len() + spaces.len() + 2,
        f.size() == cap.size(),
        forall|i: int, j: int| cap.has_cell(i, j) ==> #[trigger] cap.at(i, j) == net_cap(lists, spaces, i, j),
        forall|i: int, j: int| cap.has_cell(i, j) ==> #[trigger] f.at(i, j) <= cap.at(i, j),
        forall|v: int| 0 < v < cap.size() - 1 ==> #[trigger] f.row_sum(v) == f.col_sum(v),
        f.row_sum(0) - f.col_sum(0) == lists.len(),
    ensures
        placing_flow(f, lists, spaces),
{
    let n = lists.len() as int;
    let m = spaces.len() as int;
    let big = n + m + 2;
    assert forall|i: int, j: int| 0 <= i < big && 0 <= j < big implies #[trigger] f.at(i, j) <= net_cap(lists, spaces, i, j) by {
        assert(cap.has_cell(i, j));
    }
    // Nothing flows into the source.
    assert forall|i: int| 0 <= i < big && i != -1 implies #[trigger] f.at(i, 0) == 0 by {
        assert(f.at(i, 0) <= net_cap(lists, spaces, i, 0));
    }
    lemma_col_single(f, 0, -1, big);
    // Each token node receives one unit from the source.
    assert forall|j: int| 0 <= j < big implies #[trigger] f.at(0, j) <= if 1 <= j <= n {
        1int
    } else {
        0
    } by {
        assert(f.at(0, j) <= net_cap(lists, spaces, 0, j));
    }
    assert forall|k: int| 0 <= k < n implies #[trigger] f.at(0, k + 1) == 1 by {
        lemma_source_row(f, n, big, k + 1);
        assert(f.at(0, k + 1) <= net_cap(lists, spaces, 0, k + 1));
    }
    // Each token node sends that unit on to one city.
    assert forall|k: int| 0 <= k < n implies #[trigger] reaches_city(f, n, m, k) by {
        assert forall|i: int| 0 <= i < big && i != 0 implies #[trigger] f.at(i, k + 1) == 0 by {
            assert(f.at(i, k + 1) <= net_cap(lists, spaces, i, k + 1));
        }
        lemma_col_single(f, k + 1, 0, big);
        assert(f.row_sum(k + 1) == 1);
        lemma_row_pos(f, k + 1, big);
        let j = choose|j: int| 0 <= j < big && #[trigger] f.at(k + 1, j) > 0;
        assert(f.at(k + 1, j) <= net_cap(lists, spaces, k + 1, j));
        assert(f.at(k + 1, n + 1 + (j - n - 1)) == 1);
    }
    assert forall|k: int, c1: int, c2: int|
        0 <= k < n && 0 <= c1 < m && 0 <= c2 < m && #[trigger] f.at(k + 1, n + 1 + c1) == 1 && #[trigger] f.at(
            k + 1,
            n + 1 + c2,
        ) == 1 implies c1 == c2 by {
        assert forall|i: int| 0 <= i < big && i != 0 implies #[trigger] f.at(i, k + 1) == 0 by {
            assert(f.at(i, k + 1) <= net_cap(lists, spaces, i, k + 1));
        }
        lemma_col_single(f, k + 1, 0, big);
        assert(f.row_sum(k + 1) == f.col_sum(k + 1));
        if c1 != c2 {
            lemma_row_parts(f, k + 1, n + 1 + c1, n + 1 + c2, big);
        }
    }
    assert forall|k: int, c: int|
        0 <= k < n && 0 <= c < m && #[trigger] f.at(k + 1, n + 1 + c) == 1 implies lists[k].contains(c as usize) by {
        assert(f.at(k + 1, n + 1 + c) <= net_cap(lists, spaces, k + 1, n + 1 + c));
    }
    assert forall|k: int, c: int| 0 <= k < n && 0 <= c < m implies #[trigger] f.at(k + 1, n + 1 + c) <= 1 by {
        assert(f.at(k + 1, n + 1 + c) <= net_cap(lists, spaces, k + 1, n + 1 + c));
    }
    // No city receives more than its spaces.
    let a = flow_cities(f, lists, spaces);
    assert forall|c: int| 0 <= c < m implies count_in(a, c, n) <= #[trigger] spaces[c] by {
        let v = n + 1 + c;
        assert forall|j: int| 0 <= j < big && j != big - 1 implies #[trigger] f.at(v, j) == 0 by {
            assert(f.at(v, j) <= net_cap(lists, spaces, v, j));
        }
        lemma_row_single(f, v, big - 1, big);
        assert(f.at(v, big - 1) <= net_cap(lists, spaces, v, big - 1));
        lemma_city_column(f, lists, spaces, c, big);
        assert(f.row_sum(v) == f.col_sum(v));
    }
}

/// The flow into a city node counts the tokens that the flow places there.
proof fn lemma_city_column(f: Matrix, lists: Seq<Seq<usize>>, spaces: Seq<usize>, c: int, k: int)
    requires
        0 <= c < spaces.len(),
        0 <= k <= lists.len() + spaces.len() + 2,
        f.size() == lists.len() + spaces.len() + 2,
        forall|i: int, j: int|
            0 <= i < f.size() && 0 <= j < f.size() ==> #[trigger] f.at(i, j) <= net_cap(lists, spaces, i, j),
        forall|t: int| 0 <= t < lists.len() ==> #[trigger] reaches_city(f, lists.len() as int, spaces.len() as int, t),
        forall|t: int, c1: int, c2: int|
            0 <= t < lists.len() && 0 <= c1 < spaces.len() && 0 <= c2 < spaces.len() && #[trigger] f.at(t + 1, lists.len() + 1 + c1) == 1
                && #[trigger] f.at(t + 1, lists.len() + 1 + c2) == 1 ==> c1 == c2,
    ensures
        f.col_sum_upto(lists.len() + 1 + c, k) == count_in(
            flow_cities(f, lists, spaces),
            c,
            if k - 1 <= lists.len() {
                k - 1
            } else {
                lists.len() as int
            },
        ) || k == 0,
        k == 0 ==> f.col_sum_upto(lists.len() + 1 + c, k) == 0,
    decreases k,
{
    let n = lists.len() as int;
    let m = spaces.len() as int;
    let v = n + 1 + c;
    let a = flow_cities(f, lists, spaces);
    if k > 0 {
        lemma_city_column(f, lists, spaces, c, k - 1);
        let i = k - 1;
        assert(f.at(i, v) <= net_cap(lists, spaces, i, v));
        if 1 <= i <= n {
            let t = i - 1;
            assert(reaches_city(f, n, m, t));
            let x = choose|x: int| 0 <= x < m && #[trigger] f.at(t + 1, n + 1 + x) == 1;
            assert(a[t] == x);
            if f.at(i, v) == 1 {
                assert(x == c);
            } else {
                assert(f.at(i, v) == 0);
                assert(x != c);
            }
        }
    }
}

/// The token space that `a` gives the `k`-th token: the first space of its
/// city that no earlier token took.
pub open spec fn placed_space(a: Seq<int>, k: int) -> TokenSpace {
    TokenSpace { city_ix: a[k] as usize, token_ix: count_in(a, a[k], k) as usize }
}

/// The token spaces in which `a` places the first `k` tokens, each holding
/// its token.
pub open spec fn placement(tokens: Seq<(TokenSpace, usize)>, a: Seq<int>, k: int) -> Map<TokenSpace, usize>
    decreases k,
{
    if k <= 0 {
        Map::empty()
    } else {
        placement(tokens, a, k - 1).insert(placed_space(a, k - 1), tokens[k - 1].1)
    }
}

/// Returns the placement of each token that the flow matrix allocates.
fn flow_matrix_tokens(
    flow_mat: &Matrix,
    tokens: &TokenIndex,
    tile: &TileCities,
    Ghost(lists): Ghost<Seq<Seq<usize>>>,
) -> (r: Option<TokenIndex>)
    requires
        flow_mat.wf(),
        lists.len() == tokens.entry_seq().len(),
        lists.len() + tile.cities@.len() + 2 <= usize::MAX,
        placing_flow(*flow_mat, lists, city_spaces(*tile)),
    ensures
        r matches Some(t) && t@ == placement(
            tokens.entry_seq(),
            flow_cities(*flow_mat, lists, city_spaces(*tile)),
            lists.len() as int,
        ),
{
    let ghost spaces = city_spaces(*tile);
    let ghost a = flow_cities(*flow_mat, lists, spaces);
    let entries = tokens.entries();
    let token_count = entries.len();
    let city_count = tile.cities.len();
    let mut tokens_table = TokenIndex::new();
    proof {
        assert(tokens_table@ =~= placement(entries@, a, 0));
    }
    let mut token_n: usize = 0;
    while token_n < token_count
        invariant
            flow_mat.wf(),
            entries@ == tokens.entry_seq(),
            token_count == entries@.len(),
            city_count == tile.cities@.len(),
            spaces == city_spaces(*tile),
            spaces.len() == city_count,
            lists.len() == token_count,
            a == flow_cities(*flow_mat, lists, spaces),
            placing_flow(*flow_mat, lists, spaces),
            token_count + city_count + 2 <= usize::MAX,
            token_n <= token_count,
            tokens_table@ == placement(entries@, a, token_n as int),
            forall|sp: TokenSpace|
                sp.city_ix < city_count ==> (#[trigger] tokens_table@.dom().contains(sp) <==> sp.token_ix < count_in(
                    a,
                    sp.city_ix as int,
                    token_n as int,
                )),
            forall|sp: TokenSpace| #[trigger] tokens_table@.dom().contains(sp) ==> sp.city_ix < city_count,
        decreases token_count - token_n,
    {
        let token_ix = token_n + 1;
        let ghost k = token_n as int;
        let ghost n = token_count as int;
        let ghost m = city_count as int;
        proof {
            assert(reaches_city(*flow_mat, n, m, k));
        }
        let ghost ck = a[k];
        proof {
            assert(0 <= ck < m && flow_mat.at(k + 1, n + 1 + ck) == 1);
            assert(flow_mat.size() == n + m + 2);
        }
        // Find the city to which this token is connected.
        let mut city_n: usize = 0;
        while city_n < city_count && flow_mat.get((token_ix, city_n + token_count + 1)) != 1
            invariant
                flow_mat.wf(),
                flow_mat.size() == n + m + 2,
                token_count + city_count + 2 <= usize::MAX,
                n == token_count,
                m == city_count,
                k == token_n,
                token_ix == token_n + 1,
                token_n < token_count,
                0 <= ck < m,
                flow_mat.at(k + 1, n + 1 + ck) == 1,
                city_n <= ck,
            decreases city_count - city_n,
        {
            city_n = city_n + 1;
        }
        proof {
            if city_n < ck {
                assert(flow_mat.at(k + 1, n + 1 + city_n) == 1);
                assert(city_n == ck);
            }
        }
        assert(city_n as int == ck);
        // Place the token in the first free space of this city.
        let num_spaces = tile.cities[city_n].token_spaces;
        let ghost used = count_in(a, ck, k);
        proof {
            lemma_count_in_mono(a, ck, k + 1, n);
            lemma_count_in_mono(a, ck, k, k + 1);
            assert(count_in(a, ck, k + 1) == used + 1);
            assert(count_in(a, ck, n) <= spaces[ck]);
            assert(spaces[ck] == num_spaces);
        }
        let mut space_ix: usize = 0;
        while space_ix < num_spaces && tokens_table.contains_key(&TokenSpace::new(city_n, space_ix))
            invariant
                city_n < city_count,
                forall|sp: TokenSpace|
                    sp.city_ix < city_count ==> (#[trigger] tokens_table@.dom().contains(sp) <==> sp.token_ix < count_in(
                        a,
                        sp.city_ix as int,
                        token_n as int,
                    )),
                city_n as int == ck,
                used == count_in(a, ck, k),
                k == token_n,
                used < num_spaces,
                space_ix <= used,
            decreases num_spaces - space_ix,
        {
            space_ix = space_ix + 1;
        }
        let space = TokenSpace::new(city_n, space_ix);
        proof {
            if space_ix < used {
                assert(tokens_table@.dom().contains(space));
            }
            assert(space_ix == used);
            assert(space == placed_space(a, k));
            assert(!tokens_table@.dom().contains(space));
        }
        let token = entries[token_n].1;
        tokens_table.insert(space, token);
        proof {
            assert(tokens_table@ == placement(entries@, a, k + 1));
            assert forall|sp: TokenSpace|
                sp.city_ix < city_count implies (#[trigger] tokens_table@.dom().contains(sp) <==> sp.token_ix < count_in(
                    a,
                    sp.city_ix as int,
                    k + 1,
                )) by {
                assert(count_in(a, sp.city_ix as int, k + 1) == count_in(a, sp.city_ix as int, k) + if a[k] == sp.city_ix as int {
                    1int
                } else {
                    0
                });
            }
        }
        token_n = token_n + 1;
    }
    Some(tokens_table)
}

/// Whether a token on the original tile may be placed in a city of the new
/// tile: the city connects to every face that the token's city connected to.
pub open spec fn may_place(
    orig: TileCities,
    orig_rotn: RotateCW,
    tokens: Seq<(TokenSpace, usize)>,
    new_tile: TileCities,
    new_rotn: RotateCW,
    k: int,
    c: int,
) -> bool {
    rotated_faces(orig.cities@[tokens[k].0.city_ix as int].faces@, orig_rotn).to_set().subset_of(
        rotated_faces(new_tile.cities@[c].faces@, new_rotn).to_set(),
    )
}

/// Whether `a` places each token in a city of the new tile that preserves
/// the token's connections, without exceeding any city's token spaces.
pub open spec fn valid_placement(
    orig: TileCities,
    orig_rotn: RotateCW,
    tokens: Seq<(TokenSpace, usize)>,
    new_tile: TileCities,
    new_rotn: RotateCW,
    a: Seq<int>,
) -> bool {
    &&& a.len() == tokens.len()
    &&& forall|k: int|
        0 <= k < a.len() ==> 0 <= #[trigger] a[k] < new_tile.cities@.len() && may_place(
            orig,
            orig_rotn,
            tokens,
            new_tile,
            new_rotn,
            k,
            a[k],
        )
    &&& forall|c: int|
        0 <= c < new_tile.cities@.len() ==> count_in(a, c, a.len() as int) <= (
        #[trigger] new_tile.cities@[c]).token_spaces
}

/// Whether a maximum flow through the placement network, certified by a
/// cut that it saturates, carries fewer units than there are tokens.
pub open spec fn flow_falls_short(lists: Seq<Seq<usize>>, spaces: Seq<usize>) -> bool {
    exists|cap: Matrix, f: Matrix, s: Set<int>|
        {
            &&& cap.size() == lists.len() + spaces.len() + 2
            &&& f.size() == cap.size()
            &&& forall|i: int, j: int| cap.has_cell(i, j) ==> #[trigger] cap.at(i, j) == net_cap(lists, spaces, i, j)
            &&& forall|i: int, j: int| cap.has_cell(i, j) ==> #[trigger] f.at(i, j) <= cap.at(i, j)
            &&& forall|v: int| 0 < v < cap.size() - 1 ==> #[trigger] f.row_sum(v) == f.col_sum(v)
            &&& #[trigger] cap.is_min_cut(f, s)
            &&& f.row_sum(0) - f.col_sum(0) < lists.len()
        }
}

/// Attempts to place each token from the original tile on the new tile in
/// such a way as to preserve each token's connectivity with adjacent hexes.
///
/// No token is placed when there are none, or when the flow network
/// cannot carry every token to a city that preserves its connections.
pub fn try_placing_tokens(
    orig_tile: &TileCities,
    orig_rotn: &RotateCW,
    tokens: &TokenIndex,
    new_tile: &TileCities,
    new_rotn: &RotateCW,
) -> (r: Option<TokenIndex>)
    requires
        forall|k: int| 0 <= k < tokens.entry_seq().len() ==> (#[trigger] tokens.entry_seq()[k]).0.city_ix < orig_tile.cities@.len(),
        (tokens.entry_seq().len() + new_tile.cities@.len() + 2) * (tokens.entry_seq().len() + new_tile.cities@.len() + 2)
            <= usize::MAX,
    ensures
        tokens.entry_seq().len() == 0 ==> r is None,
        r matches Some(t) ==> exists|a: Seq<int>|
            valid_placement(*orig_tile, *orig_rotn, tokens.entry_seq(), *new_tile, *new_rotn, a) && t@ == placement(
                tokens.entry_seq(),
                a,
                tokens.entry_seq().len() as int,
            ),
        r is None && tokens.entry_seq().len() > 0 ==> forall|a: Seq<int>|
            !valid_placement(*orig_tile, *orig_rotn, tokens.entry_seq(), *new_tile, *new_rotn, a),
        r is None && tokens.entry_seq().len() > 0 ==> exists|lists: Seq<Seq<usize>>|
            lists.len() == tokens.entry_seq().len() && (forall|k: int, c: usize|
                0 <= k < lists.len() ==> (#[trigger] lists[k].contains(c) <==> (c < new_tile.cities@.len()
                    && may_place(*orig_tile, *orig_rotn, tokens.entry_seq(), *new_tile, *new_rotn, k, c as int))))
                && flow_falls_short(lists, city_spaces(*new_tile)),
{
    if tokens.is_empty() {
        return None;
    }
    let ghost ts = tokens.entry_seq();
    // Identify the faces connected to each token on the original tile.
    let token_faces = token_face_connections(orig_tile, orig_rotn, tokens);
    // Identify the faces connected to each city on the new tile.
    let city_faces = city_face_connections(new_tile, new_rotn);
    // For each token, identify the cities on the new tile where that token
    // can be placed.
    let token_cities = valid_cities(&token_faces, &city_faces);
    let ghost lists = list_views(token_cities@);
    let ghost spaces = city_spaces(*new_tile);
    proof {
        let big = ts.len() + new_tile.cities@.len() + 2;
        assert(big <= big * big) by (nonlinear_arith)
            requires
                big >= 1,
        ;
        assert forall|k: int, c: usize|
            0 <= k < lists.len() implies (#[trigger] lists[k].contains(c) <==> (c < new_tile.cities@.len()
                && may_place(*orig_tile, *orig_rotn, ts, *new_tile, *new_rotn, k, c as int))) by {
            assert(lists[k] == token_cities@[k]@);
            assert(token_cities@[k]@.contains(c) <==> (c < city_faces@.len()
                && token_faces@[k]@.to_set().subset_of(city_faces@[c as int]@.to_set())));
        }
        assert forall|k: int, c: usize|
            0 <= k < token_cities@.len() && #[trigger] token_cities@[k]@.contains(c) implies c < new_tile.cities@.len() by {
        }
    }
    // Construct a flow matrix that connects tokens and cities.
    let capacities = flow_matrix(new_tile, &token_cities);
    proof {
        lemma_placement_network(capacities, lists, spaces);
    }
    // Calculate the maximum flow through this network, and record the
    // allocation of tokens to cities.
    let (net_flow, flow_mat) = capacities.max_flow_mat();
    // If we could not place all of the tokens, do not place any tokens.
    if net_flow != tokens.len() {
        proof {
            let n = ts.len() as int;
            let big = capacities.size() as int;
            let s = choose|s: Set<int>| capacities.is_min_cut(flow_mat, s);
            assert(capacities.is_min_cut(flow_mat, s));
            assert forall|j: int| 0 <= j < big implies #[trigger] flow_mat.at(0, j) <= if 1 <= j <= n {
                1int
            } else {
                0
            } by {
                assert(capacities.has_cell(0, j));
            }
            lemma_source_row(flow_mat, n, big, 0);
            lemma_col_nonneg(flow_mat, 0, big);
            assert(flow_falls_short(lists, spaces));
            assert forall|a: Seq<int>| !valid_placement(*orig_tile, *orig_rotn, ts, *new_tile, *new_rotn, a) by {
                if valid_placement(*orig_tile, *orig_rotn, ts, *new_tile, *new_rotn, a) {
                    assert forall|k: int| 0 <= k < a.len() implies 0 <= #[trigger] a[k] < spaces.len()
                        && lists[k].contains(a[k] as usize) by {
                        assert(0 <= a[k] < new_tile.cities@.len());
                    }
                    assert forall|c: int| 0 <= c < spaces.len() implies count_in(a, c, a.len() as int)
                        <= #[trigger] spaces[c] by {
                        assert(spaces[c] == new_tile.cities@[c].token_spaces);
                    }
                    lemma_placement_no_short_flow(lists, spaces, a);
                }
            }
        }
        return None;
    }
    proof {
        lemma_placing_flow(capacities, flow_mat, lists, spaces);
    }
    let r = flow_matrix_tokens(&flow_mat, tokens, new_tile, Ghost(lists));
    proof {
        let a = flow_cities(flow_mat, lists, spaces);
        let n = ts.len() as int;
        let m = spaces.len() as int;
        assert forall|k: int| 0 <= k < a.len() implies 0 <= #[trigger] a[k] < new_tile.cities@.len() && may_place(
            *orig_tile,
            *orig_rotn,
            ts,
            *new_tile,
            *new_rotn,
            k,
            a[k],
        ) by {
            assert(reaches_city(flow_mat, n, m, k));
            assert(flow_mat.at(k + 1, n + 1 + a[k]) == 1);
            assert(lists[k].contains(a[k] as usize));
        }
        assert forall|c: int| 0 <= c < new_tile.cities@.len() implies count_in(a, c, a.len() as int) <= (
            #[trigger] new_tile.cities@[c]).token_spaces by {
            assert(spaces[c] == new_tile.cities@[c].token_spaces);
        }
        assert(valid_placement(*orig_tile, *orig_rotn, ts, *new_tile, *new_rotn, a));
    }
    r
}

/// A sum of terms that are each at most the terms of another sum is at most
/// that sum.
proof fn lemma_sum_le(k: int, g: spec_fn(int) -> int, h: spec_fn(int) -> int)
    requires
        forall|i: int| 0 <= i < k ==> #[trigger] g(i) <= h(i),
    ensures
        sum_to(k, g) <= sum_to(k, h),
    decreases k,
{
    if k > 0 {
        lemma_sum_le(k - 1, g, h);
    }
}

/// A sum of terms that are not negative is at least each of its terms.
proof fn lemma_sum_ge_term(k: int, g: spec_fn(int) -> int, t: int)
    requires
        0 <= t < k,
        forall|i: int| 0 <= i < k ==> #[trigger] g(i) >= 0,
    ensures
        sum_to(k, g) >= g(t),
    decreases k,
{
    if t < k - 1 {
        lemma_sum_ge_term(k - 1, g, t);
    } else {
        lemma_sum_le(k - 1, |j: int| 0int, g);
        lemma_sum_zero(k - 1);
    }
}

/// A sum splits into the sum of its first `a` terms and the sum of the
/// next `b` terms.
proof fn lemma_sum_split(a: int, b: int, g: spec_fn(int) -> int)
    requires
        0 <= a,
        0 <= b,
    ensures
        sum_to(a + b, g) == sum_to(a, g) + sum_to(b, |t: int| g(a + t)),
    decreases b,
{
    if b > 0 {
        lemma_sum_split(a, b - 1, g);
    }
}

/// A sum whose only nonzero term is the term at `t` is that term.
proof fn lemma_sum_single(k: int, g: spec_fn(int) -> int, t: int)
    requires
        0 <= t < k,
        forall|i: int| 0 <= i < k && i != t ==> #[trigger] g(i) == 0,
    ensures
        sum_to(k, g) == g(t),
    decreases k,
{
    if k - 1 > t {
        lemma_sum_single(k - 1, g, t);
    } else {
        lemma_sum_ext(k - 1, g, |j: int| 0int);
        lemma_sum_zero(k - 1);
    }
}

/// A sum of ones counts its terms.
proof fn lemma_sum_ones(k: int)
    requires
        k >= 0,
    ensures
        sum_to(k, |i: int| 1int) == k,
    decreases k,
{
    if k > 0 {
        lemma_sum_ones(k - 1);
    }
}

/// The number of tokens placed in a city is the sum, over the tokens, of
/// one for each token placed there.
proof fn lemma_count_in_sum(a: Seq<int>, c: int, k: int, ones: spec_fn(int) -> int)
    requires
        k >= 0,
        forall|t: int| #[trigger] ones(t) == if a[t] == c { 1int } else { 0 },
    ensures
        count_in(a, c, k) == sum_to(k, ones),
    decreases k,
{
    if k > 0 {
        lemma_count_in_sum(a, c, k - 1, ones);
    }
}

/// Counting, for each city in a set, the tokens placed there counts the
/// tokens placed in a city of the set.
proof fn lemma_count_cities(a: Seq<int>, n: int, m: int, inside: spec_fn(int) -> bool)
    requires
        n >= 0,
        m >= 0,
        a.len() == n,
        forall|k: int| 0 <= k < n ==> 0 <= #[trigger] a[k] < m,
    ensures
        sum_to(m, |c: int| if inside(c) { count_in(a, c, n) } else { 0 }) == sum_to(
            n,
            |k: int| if inside(a[k]) { 1int } else { 0 },
        ),
{
    let g = |c: int, k: int| if inside(c) && a[k] == c { 1int } else { 0 };
    let by_city = |c: int| sum_to(n, |k: int| g(c, k));
    let counted = |c: int| if inside(c) { count_in(a, c, n) } else { 0 };
    assert forall|c: int| 0 <= c < m implies #[trigger] counted(c) == by_city(c) by {
        let ones = |t: int| if a[t] == c { 1int } else { 0 };
        lemma_count_in_sum(a, c, n, ones);
        let gc = |k: int| g(c, k);
        assert(by_city(c) == sum_to(n, gc));
        if inside(c) {
            assert forall|k: int| 0 <= k < n implies #[trigger] ones(k) == gc(k) by {}
            lemma_sum_ext(n, ones, gc);
            assert(counted(c) == count_in(a, c, n));
            assert(count_in(a, c, n) == sum_to(n, ones));
            assert(sum_to(n, ones) == sum_to(n, gc));
            assert(counted(c) == by_city(c));
        } else {
            assert forall|k: int| 0 <= k < n implies #[trigger] gc(k) == 0 by {}
            lemma_sum_ext(n, gc, |j: int| 0int);
            lemma_sum_zero(n);
            assert(counted(c) == 0);
            assert(by_city(c) == 0);
        }
    }
    lemma_sum_ext(m, counted, by_city);
    lemma_sum_swap(m, n, g);
    let by_token = |k: int| sum_to(m, |c: int| g(c, k));
    let placed = |k: int| if inside(a[k]) { 1int } else { 0 };
    assert forall|k: int| 0 <= k < n implies #[trigger] by_token(k) == placed(k) by {
        lemma_sum_single(m, |c: int| g(c, k), a[k]);
    }
    lemma_sum_ext(n, by_token, placed);
}

/// Where tokens can be placed in cities without exceeding any city's token
/// spaces, every cut of the placement network between the source and the
/// sink has a capacity of at least the number of tokens.
proof fn lemma_placement_cut(lists: Seq<Seq<usize>>, spaces: Seq<usize>, cap: Matrix, s: Set<int>, a: Seq<int>)
    requires
        cap.size() == lists.len() + spaces.len() + 2,
        forall|i: int, j: int| cap.has_cell(i, j) ==> #[trigger] cap.at(i, j) == net_cap(lists, spaces, i, j),
        s.contains(0),
        !s.contains(lists.len() + spaces.len() + 1int),
        a.len() == lists.len(),
        forall|k: int| 0 <= k < a.len() ==> 0 <= #[trigger] a[k] < spaces.len() && lists[k].contains(a[k] as usize),
        forall|c: int| 0 <= c < spaces.len() ==> count_in(a, c, a.len() as int) <= #[trigger] spaces[c],
    ensures
        cap.cut_capacity(s) >= lists.len(),
{
    let n = lists.len() as int;
    let m = spaces.len() as int;
    let big = n + m + 2;
    let out = |i: int| sum_to(big, |j: int| if s.contains(j) { 0 } else { cap.at(i, j) as int });
    let rowc = |i: int| if s.contains(i) { out(i) } else { 0 };
    assert forall|i: int| 0 <= i < big implies #[trigger] out(i) >= 0 by {
        lemma_sum_le(big, |j: int| 0int, |j: int| if s.contains(j) { 0 } else { cap.at(i, j) as int });
        lemma_sum_zero(big);
    }
    // Split the rows into the source, the tokens, the cities and the sink.
    lemma_sum_split(1 + n, m + 1, rowc);
    lemma_sum_split(1, n, rowc);
    let city_rows = |t: int| rowc(1 + n + t);
    lemma_sum_split(m, 1, city_rows);
    let token_rows = |t: int| rowc(1 + t);
    assert(sum_to(0, rowc) == 0);
    assert(sum_to(1, rowc) == rowc(0));
    // The source's row: one for each token outside the cut.
    let src = |j: int| if s.contains(j) { 0 } else { cap.at(0, j) as int };
    let outside = |k: int| if s.contains(k + 1) { 0int } else { 1 };
    lemma_sum_split(1 + n, m + 1, src);
    lemma_sum_split(1, n, src);
    assert(sum_to(0, src) == 0);
    assert(sum_to(1, src) == src(0));
    let src_tokens = |t: int| src(1 + t);
    assert forall|k: int| 0 <= k < n implies #[trigger] src_tokens(k) == outside(k) by {
        assert(cap.has_cell(0, 1 + k));
    }
    lemma_sum_ext(n, src_tokens, outside);
    let src_rest = |t: int| src(1 + n + t);
    assert forall|t: int| 0 <= t < m + 1 implies #[trigger] src_rest(t) == 0 by {
        assert(cap.has_cell(0, 1 + n + t));
    }
    lemma_sum_ext(m + 1, src_rest, |j: int| 0int);
    lemma_sum_zero(m + 1);
    assert(rowc(0) == sum_to(n, outside));
    // Each token's row: one where the token is inside the cut and its city
    // is not.
    let crossing = |k: int| if s.contains(k + 1) && !s.contains(n + 1 + a[k]) { 1int } else { 0 };
    assert forall|k: int| 0 <= k < n implies #[trigger] crossing(k) <= token_rows(k) by {
        if s.contains(k + 1) {
            let row = |j: int| if s.contains(j) { 0 } else { cap.at(k + 1, j) as int };
            assert forall|j: int| 0 <= j < big implies #[trigger] row(j) >= 0 by {}
            assert(cap.has_cell(k + 1, n + 1 + a[k]));
            lemma_sum_ge_term(big, row, n + 1 + a[k]);
        }
    }
    lemma_sum_le(n, crossing, token_rows);
    // Each city's row: its token spaces, where the city is inside the cut.
    let city_spaces_in = |c: int| if s.contains(n + 1 + c) { spaces[c] as int } else { 0 };
    assert forall|c: int| 0 <= c < m implies #[trigger] city_spaces_in(c) <= city_rows(c) by {
        if s.contains(n + 1 + c) {
            let row = |j: int| if s.contains(j) { 0 } else { cap.at(n + 1 + c, j) as int };
            assert forall|j: int| 0 <= j < big implies #[trigger] row(j) >= 0 by {}
            assert(cap.has_cell(n + 1 + c, n + m + 1));
            lemma_sum_ge_term(big, row, n + m + 1);
        }
    }
    lemma_sum_le(m, city_spaces_in, city_rows);
    // The token spaces of the cities inside the cut hold the tokens placed
    // in them.
    let inside = |c: int| s.contains(n + 1 + c);
    let counted = |c: int| if inside(c) { count_in(a, c, n) } else { 0 };
    assert forall|c: int| 0 <= c < m implies #[trigger] counted(c) <= city_spaces_in(c) by {}
    lemma_sum_le(m, counted, city_spaces_in);
    lemma_count_cities(a, n, m, inside);
    let placed_in = |k: int| if inside(a[k]) { 1int } else { 0 };
    // Each token contributes at least one.
    assert(rowc(1 + n + m) >= 0);
    lemma_sum_add(n, outside, crossing);
    let first_two = |k: int| outside(k) + crossing(k);
    lemma_sum_add(n, first_two, placed_in);
    let all_three = |k: int| first_two(k) + placed_in(k);
    let one = |k: int| 1int;
    assert forall|k: int| 0 <= k < n implies #[trigger] one(k) <= all_three(k) by {}
    lemma_sum_le(n, one, all_three);
    lemma_sum_ones(n);
    // The capacity of the cut is the sum of the rows.
    let cut_rows = |i: int|
        if s.contains(i) {
            sum_to(cap.size() as int, |j: int| if s.contains(j) { 0 } else { cap.at(i, j) as int })
        } else {
            0
        };
    assert forall|i: int| 0 <= i < big implies #[trigger] cut_rows(i) == rowc(i) by {}
    lemma_sum_ext(big, cut_rows, rowc);
    assert(cap.cut_capacity(s) == sum_to(big, cut_rows));
    assert(sum_to(big, rowc) == rowc(0) + sum_to(n, token_rows) + sum_to(m, city_rows) + rowc(1 + n + m));
    assert(sum_to(n, all_three) == sum_to(n, outside) + sum_to(n, crossing) + sum_to(n, placed_in));
}

/// Where a placement puts every token in a city that it may be placed in
/// without exceeding any city's token spaces, no maximum flow through the
/// placement network falls short of the number of tokens.
proof fn lemma_placement_no_short_flow(lists: Seq<Seq<usize>>, spaces: Seq<usize>, a: Seq<int>)
    requires
        a.len() == lists.len(),
        forall|k: int| 0 <= k < a.len() ==> 0 <= #[trigger] a[k] < spaces.len() && lists[k].contains(a[k] as usize),
        forall|c: int| 0 <= c < spaces.len() ==> count_in(a, c, a.len() as int) <= #[trigger] spaces[c],
    ensures
        !flow_falls_short(lists, spaces),
{
    if flow_falls_short(lists, spaces) {
        let (cap, f, s) = choose|cap: Matrix, f: Matrix, s: Set<int>|
            {
                &&& cap.size() == lists.len() + spaces.len() + 2
                &&& f.size() == cap.size()
                &&& forall|i: int, j: int| cap.has_cell(i, j) ==> #[trigger] cap.at(i, j) == net_cap(lists, spaces, i, j)
                &&& forall|i: int, j: int| cap.has_cell(i, j) ==> #[trigger] f.at(i, j) <= cap.at(i, j)
                &&& forall|v: int| 0 < v < cap.size() - 1 ==> #[trigger] f.row_sum(v) == f.col_sum(v)
                &&& #[trigger] cap.is_min_cut(f, s)
                &&& f.row_sum(0) - f.col_sum(0) < lists.len()
            };
        lemma_flow_value_is_cut_capacity(cap, f, s);
        lemma_placement_cut(lists, spaces, cap, s, a);
    }
}

proof fn lemma_col_nonneg(m: Matrix, c: int, k: int)
    ensures
        m.col_sum_upto(c, k) >= 0,
    decreases k,
{
    if k > 0 {
        lemma_col_nonneg(m, c, k - 1);
    }
}

/// The placement network is a flow network, and the source's capacity is
/// the number of tokens.
proof fn lemma_placement_network(cap: Matrix, lists: Seq<Seq<usize>>, spaces: Seq<usize>)
    requires
        cap.wf(),
        cap.size() == lists.len() + spaces.len() + 2,
        lists.len() + spaces.len() + 2 <= usize::MAX,
        forall|i: int, j: int| cap.has_cell(i, j) ==> #[trigger] cap.at(i, j) == net_cap(lists, spaces, i, j),
    ensures
        cap.is_network(),
{
    let n = lists.len() as int;
    let big = cap.size() as int;
    assert forall|j: int| 0 <= j < big implies #[trigger] cap.at(0, j) <= if 1 <= j <= n {
        1int
    } else {
        0
    } by {
        assert(cap.has_cell(0, j));
    }
    lemma_source_row(cap, n, big, 0);
    assert forall|i: int, j: int| cap.has_cell(i, j) && #[trigger] cap.at(i, j) > 0 implies cap.at(j, i) == 0 by {
        assert(cap.has_cell(j, i));
        assert(net_cap(lists, spaces, i, j) > 0 ==> i < j);
        assert(net_cap(lists, spaces, j, i) > 0 ==> j < i);
    }
}

} // verus!



