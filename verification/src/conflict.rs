//! Paths and routes may not share certain features.
use vstd::prelude::*;
use crate::connection::Connection;
use crate::hex::{face_index, HexAddress, HexFace};

verus! {

/// A rule defines which elements of a path or route may not be shared.
///
/// The rules are ordered from the least to the most general.
#[derive(Copy, Clone, Debug, PartialEq, Eq, Structural, PartialOrd, Ord, Hash)]
pub enum ConflictRule {
    /// No track segment (including hex faces) in common.
    TrackOnly,
    /// No track segment or city (including dits) in common.
    TrackOrCity,
    /// No track segment, or any city (including dits) on the same hex.
    TrackOrCityHex,
    /// No hexes in common.
    Hex,
}

/// The position of a rule in the order from the least to the most general.
pub open spec fn rule_rank(rule: ConflictRule) -> int {
    match rule {
        ConflictRule::TrackOnly => 0,
        ConflictRule::TrackOrCity => 1,
        ConflictRule::TrackOrCityHex => 2,
        ConflictRule::Hex => 3,
    }
}

/// A specific element of a path or route that cannot be shared.
#[derive(Copy, Clone, Debug, PartialEq, Eq, Structural, PartialOrd, Ord, Hash)]
pub enum Conflict {
    /// A face on a specific hex.
    Face { addr: HexAddress, face: HexFace },
    /// A specific track segment on a specific hex.
    Track { addr: HexAddress, ix: usize },
    /// A specific city on a specific hex.
    City { addr: HexAddress, ix: usize },
    /// A specific dit on a specific hex.
    Dit { addr: HexAddress, ix: usize },
    /// Any city on a specific hex.
    CityHex { addr: HexAddress },
    /// A specific hex.
    Hex { addr: HexAddress },
}

/// The key by which conflicts are ordered: the variant, then the hex's row
/// and column, then the face or index.
pub open spec fn conflict_key(c: Conflict) -> (int, int, int, int) {
    match c {
        Conflict::Face { addr, face } => (0, addr.row_of(), addr.col_of(), face_index(face)),
        Conflict::Track { addr, ix } => (1, addr.row_of(), addr.col_of(), ix as int),
        Conflict::City { addr, ix } => (2, addr.row_of(), addr.col_of(), ix as int),
        Conflict::Dit { addr, ix } => (3, addr.row_of(), addr.col_of(), ix as int),
        Conflict::CityHex { addr } => (4, addr.row_of(), addr.col_of(), 0),
        Conflict::Hex { addr } => (5, addr.row_of(), addr.col_of(), 0),
    }
}

/// The strict order on conflicts: the lexicographic order of their keys.
pub open spec fn conflict_lt(a: Conflict, b: Conflict) -> bool {
    let ka = conflict_key(a);
    let kb = conflict_key(b);
    ||| ka.0 < kb.0
    ||| ka.0 == kb.0 && ka.1 < kb.1
    ||| ka.0 == kb.0 && ka.1 == kb.1 && ka.2 < kb.2
    ||| ka.0 == kb.0 && ka.1 == kb.1 && ka.2 == kb.2 && ka.3 < kb.3
}

/// The conflicts in `s` strictly increase.
pub open spec fn sorted_strict(s: Seq<Conflict>) -> bool {
    forall|i: int, j: int| 0 <= i < j < s.len() ==> #[trigger] conflict_lt(s[i], s[j])
}

/// The order on conflicts is a strict total order.
pub proof fn lemma_conflict_order(a: Conflict, b: Conflict, c: Conflict)
    ensures
        !conflict_lt(a, a),
        conflict_lt(a, b) ==> !conflict_lt(b, a),
        conflict_lt(a, b) && conflict_lt(b, c) ==> conflict_lt(a, c),
        a != b ==> conflict_lt(a, b) || conflict_lt(b, a),
{
    lemma_key_injective(a, b);
}

/// Distinct conflicts have distinct keys.
proof fn lemma_key_injective(a: Conflict, b: Conflict)
    ensures
        conflict_key(a) == conflict_key(b) ==> a == b,
{
    let (x, y) = match (a, b) {
        (Conflict::Face { addr: x, .. }, Conflict::Face { addr: y, .. }) => (x, y),
        (Conflict::Track { addr: x, .. }, Conflict::Track { addr: y, .. }) => (x, y),
        (Conflict::City { addr: x, .. }, Conflict::City { addr: y, .. }) => (x, y),
        (Conflict::Dit { addr: x, .. }, Conflict::Dit { addr: y, .. }) => (x, y),
        (Conflict::CityHex { addr: x }, Conflict::CityHex { addr: y }) => (x, y),
        (Conflict::Hex { addr: x }, Conflict::Hex { addr: y }) => (x, y),
        _ => {
            return ;
        },
    };
    x.lemma_eq(y);
}

/// Returns the key by which a conflict is ordered.
fn key_of(c: &Conflict) -> (k: (u8, isize, isize, usize))
    ensures
        k.0 == conflict_key(*c).0,
        k.1 == conflict_key(*c).1,
        k.2 == conflict_key(*c).2,
        k.3 == conflict_key(*c).3,
{
    match c {
        Conflict::Face { addr, face } => (0, addr.row(), addr.col(), face.index()),
        Conflict::Track { addr, ix } => (1, addr.row(), addr.col(), *ix),
        Conflict::City { addr, ix } => (2, addr.row(), addr.col(), *ix),
        Conflict::Dit { addr, ix } => (3, addr.row(), addr.col(), *ix),
        Conflict::CityHex { addr } => (4, addr.row(), addr.col(), 0),
        Conflict::Hex { addr } => (5, addr.row(), addr.col(), 0),
    }
}

/// Returns whether conflict `a` precedes conflict `b`.
fn precedes(a: &Conflict, b: &Conflict) -> (r: bool)
    ensures
        r == conflict_lt(*a, *b),
{
    let ka = key_of(a);
    let kb = key_of(b);
    if ka.0 != kb.0 {
        ka.0 < kb.0
    } else if ka.1 != kb.1 {
        ka.1 < kb.1
    } else if ka.2 != kb.2 {
        ka.2 < kb.2
    } else {
        ka.3 < kb.3
    }
}

/// The conflict, if any, that a connection on the hex at `addr` adds to a
/// path or route under `rule`: the most general element that the rule
/// forbids sharing.
///
/// Track segments add no conflict of their own (except under the hex rule),
/// because each one reaches a hex face, and hex faces are recorded instead;
/// of the two faces shared by neighbouring hexes, only the upper face (top,
/// upper left or upper right) is recorded.
pub open spec fn conflict_for(rule: ConflictRule, addr: HexAddress, conn: Connection) -> Option<
    Conflict,
> {
    match conn {
        Connection::Track { .. } => match rule {
            ConflictRule::Hex => Some(Conflict::Hex { addr }),
            _ => None,
        },
        Connection::Face { face } => match face {
            HexFace::Top | HexFace::UpperLeft | HexFace::UpperRight => Some(
                Conflict::Face { addr, face },
            ),
            _ => None,
        },
        Connection::Dit { ix } => match rule {
            ConflictRule::Hex => Some(Conflict::Hex { addr }),
            ConflictRule::TrackOrCityHex => Some(Conflict::CityHex { addr }),
            ConflictRule::TrackOrCity => Some(Conflict::Dit { addr, ix }),
            ConflictRule::TrackOnly => None,
        },
        Connection::City { ix } => match rule {
            ConflictRule::Hex => Some(Conflict::Hex { addr }),
            ConflictRule::TrackOrCityHex => Some(Conflict::CityHex { addr }),
            ConflictRule::TrackOrCity => Some(Conflict::City { addr, ix }),
            ConflictRule::TrackOnly => None,
        },
    }
}

impl ConflictRule {
    /// Returns the position of this rule in the order from the least to the
    /// most general rule.
    pub fn rank(&self) -> (r: u8)
        ensures
            r == rule_rank(*self),
    {
        match self {
            ConflictRule::TrackOnly => 0,
            ConflictRule::TrackOrCity => 1,
            ConflictRule::TrackOrCityHex => 2,
            ConflictRule::Hex => 3,
        }
    }

    /// Returns the conflict that this connection adds to a path or route.
    pub fn maybe_conflict(&self, addr: &HexAddress, conn: &Connection) -> (r: Option<Conflict>)
        ensures
            r == conflict_for(*self, *addr, *conn),
    {
        match conn {
            Connection::Track { .. } => match self {
                ConflictRule::Hex => Some(Conflict::Hex { addr: *addr }),
                _ => None,
            },
            Connection::Face { face } => match face {
                HexFace::Top | HexFace::UpperLeft | HexFace::UpperRight => Some(
                    Conflict::Face { addr: *addr, face: *face },
                ),
                _ => None,
            },
            Connection::Dit { ix } => match self {
                ConflictRule::Hex => Some(Conflict::Hex { addr: *addr }),
                ConflictRule::TrackOrCityHex => Some(Conflict::CityHex { addr: *addr }),
                ConflictRule::TrackOrCity => Some(Conflict::Dit { addr: *addr, ix: *ix }),
                ConflictRule::TrackOnly => None,
            },
            Connection::City { ix } => match self {
                ConflictRule::Hex => Some(Conflict::Hex { addr: *addr }),
                ConflictRule::TrackOrCityHex => Some(Conflict::CityHex { addr: *addr }),
                ConflictRule::TrackOrCity => Some(Conflict::City { addr: *addr, ix: *ix }),
                ConflictRule::TrackOnly => None,
            },
        }
    }
}

/// A set of conflicts, held in increasing order.
#[derive(Debug, PartialEq, Eq, PartialOrd, Ord)]
pub struct RouteConflicts {
    rc: Vec<Conflict>,
}

impl Clone for RouteConflicts {
    fn clone(&self) -> (r: Self)
        ensures
            r.seq() == self.seq(),
            r@ == self@,
    {
        proof {
            use_type_invariant(self);
        }
        let rc = self.rc.clone();
        assert(rc@ =~= self.rc@);
        RouteConflicts { rc }
    }
}

impl View for RouteConflicts {
    type V = Set<Conflict>;

    closed spec fn view(&self) -> Set<Conflict> {
        self.rc@.to_set()
    }
}

impl RouteConflicts {
    #[verifier::type_invariant]
    spec fn sorted(self) -> bool {
        sorted_strict(self.rc@)
    }

    /// The conflicts in increasing order.
    pub closed spec fn seq(&self) -> Seq<Conflict> {
        self.rc@
    }

    /// Creates an empty set of conflicts.
    pub fn new() -> (r: Self)
        ensures
            r@ == Set::<Conflict>::empty(),
    {
        let r = RouteConflicts { rc: Vec::new() };
        assert(r@ =~= Set::<Conflict>::empty());
        r
    }
}


impl RouteConflicts {
    /// Returns whether this set and `other` have no conflict in common.
    pub fn is_disjoint(&self, other: &Self) -> (r: bool)
        ensures
            r == self@.disjoint(other@),
    {
        proof {
            use_type_invariant(self);
            use_type_invariant(other);
        }
        let a = &self.rc;
        let b = &other.rc;
        let la = a.len();
        let lb = b.len();
        let mut ixa: usize = 0;
        let mut ixb: usize = 0;
        loop
            invariant
                a@ == self.rc@,
                b@ == other.rc@,
                la == a.len(),
                lb == b.len(),
                sorted_strict(a@),
                sorted_strict(b@),
                ixa <= la,
                ixb <= lb,
                forall|i: int, j: int| 0 <= i < ixa && 0 <= j < lb ==> a@[i] != b@[j],
                forall|i: int, j: int| 0 <= i < la && 0 <= j < ixb ==> a@[i] != b@[j],
            decreases la - ixa + lb - ixb,
        {
            if ixa >= la || ixb >= lb {
                assert(self@.disjoint(other@)) by {
                    assert forall|c: Conflict| self@.contains(c) implies !other@.contains(c) by {
                        if other@.contains(c) {
                            let i = choose|i: int| 0 <= i < la && a@[i] == c;
                            let j = choose|j: int| 0 <= j < lb && b@[j] == c;
                            assert(a@[i] != b@[j]);
                        }
                    }
                }
                return true;
            }
            let x = a[ixa];
            let y = b[ixb];
            if x == y {
                assert(self@.contains(x) && other@.contains(x));
                return false;
            } else if precedes(&x, &y) {
                assert forall|j: int| 0 <= j < lb implies a@[ixa as int] != b@[j] by {
                    if j > ixb {
                        assert(conflict_lt(b@[ixb as int], b@[j]));
                        lemma_conflict_order(x, y, b@[j]);
                        lemma_conflict_order(x, b@[j], b@[j]);
                    } else if j == ixb {
                        lemma_conflict_order(x, y, y);
                    }
                }
                ixa = ixa + 1;
            } else {
                proof {
                    lemma_conflict_order(x, y, y);
                }
                assert forall|i: int| 0 <= i < la implies a@[i] != b@[ixb as int] by {
                    if i > ixa {
                        assert(conflict_lt(a@[ixa as int], a@[i]));
                        lemma_conflict_order(y, x, a@[i]);
                        lemma_conflict_order(y, a@[i], a@[i]);
                    } else if i == ixa {
                        lemma_conflict_order(y, x, x);
                    }
                }
                ixb = ixb + 1;
            }
        }
    }

    /// Returns the union of this set and `other`.
    pub fn merge(&self, other: &Self) -> (m: Self)
        ensures
            m@ == self@.union(other@),
    {
        proof {
            use_type_invariant(self);
            use_type_invariant(other);
        }
        let a = &self.rc;
        let b = &other.rc;
        let la = a.len();
        let lb = b.len();
        let mut rc: Vec<Conflict> = Vec::new();
        let mut ixa: usize = 0;
        let mut ixb: usize = 0;
        while ixa < la || ixb < lb
            invariant
                a@ == self.rc@,
                b@ == other.rc@,
                la == a.len(),
                lb == b.len(),
                sorted_strict(a@),
                sorted_strict(b@),
                ixa <= la,
                ixb <= lb,
                sorted_strict(rc@),
                forall|k: int|
                    0 <= k < rc.len() ==> (exists|i: int| 0 <= i < ixa && a@[i] == #[trigger] rc@[k]) || (
                    exists|j: int| 0 <= j < ixb && b@[j] == rc@[k]),
                forall|i: int| 0 <= i < ixa ==> rc@.contains(#[trigger] a@[i]),
                forall|j: int| 0 <= j < ixb ==> rc@.contains(#[trigger] b@[j]),
                forall|k: int|
                    0 <= k < rc.len() ==> (ixa < la ==> conflict_lt(#[trigger] rc@[k], a@[ixa as int])),
                forall|k: int|
                    0 <= k < rc.len() ==> (ixb < lb ==> conflict_lt(#[trigger] rc@[k], b@[ixb as int])),
            decreases la - ixa + lb - ixb,
        {
            let ghost old_rc = rc@;
            let ghost (oa, ob) = (ixa as int, ixb as int);
            // The next conflict to record, and which inputs it is taken from.
            let (next, take_a, take_b) = if ixa >= la {
                (b[ixb], false, true)
            } else if ixb >= lb {
                (a[ixa], true, false)
            } else if a[ixa] == b[ixb] {
                (a[ixa], true, true)
            } else if precedes(&a[ixa], &b[ixb]) {
                (a[ixa], true, false)
            } else {
                proof {
                    lemma_conflict_order(a@[ixa as int], b@[ixb as int], b@[ixb as int]);
                }
                (b[ixb], false, true)
            };
            proof {
                // The next conflict is no greater than the next of each input.
                assert(ixa < la ==> next == a@[ixa as int] || conflict_lt(next, a@[ixa as int]));
                assert(ixb < lb ==> next == b@[ixb as int] || conflict_lt(next, b@[ixb as int]));
            }
            rc.push(next);
            if take_a {
                ixa = ixa + 1;
            }
            if take_b {
                ixb = ixb + 1;
            }
            proof {
                assert(rc@ == old_rc.push(next));
                assert forall|k: int| 0 <= k < old_rc.len() implies conflict_lt(old_rc[k], next) by {
                    if take_a {
                        assert(next == a@[oa]);
                    } else {
                        assert(next == b@[ob]);
                    }
                }
                assert forall|p: int, q: int| 0 <= p < q < rc.len() implies #[trigger] conflict_lt(
                    rc@[p],
                    rc@[q],
                ) by {
                    if q < old_rc.len() {
                        assert(conflict_lt(old_rc[p], old_rc[q]));
                    }
                }
                assert forall|k: int| 0 <= k < rc.len() && ixa < la implies conflict_lt(
                    #[trigger] rc@[k],
                    a@[ixa as int],
                ) by {
                    {
                        let m = ixa as int;
                        if take_a {
                            assert(conflict_lt(a@[oa], a@[m]));
                            if k < old_rc.len() {
                                lemma_conflict_order(rc@[k], a@[oa], a@[m]);
                            }
                        } else {
                            assert(m == oa);
                            if k < old_rc.len() {
                            } else {
                                assert(next == b@[ob]);
                            }
                        }
                    }
                }
                assert forall|k: int| 0 <= k < rc.len() && ixb < lb implies conflict_lt(
                    #[trigger] rc@[k],
                    b@[ixb as int],
                ) by {
                    {
                        let m = ixb as int;
                        if take_b {
                            assert(conflict_lt(b@[ob], b@[m]));
                            if k < old_rc.len() {
                                lemma_conflict_order(rc@[k], b@[ob], b@[m]);
                            }
                        } else {
                            assert(m == ob);
                            if k < old_rc.len() {
                            } else {
                                assert(next == a@[oa]);
                            }
                        }
                    }
                }
                assert forall|k: int| 0 <= k < rc.len() implies (exists|i: int|
                    0 <= i < ixa && a@[i] == #[trigger] rc@[k]) || (exists|j: int|
                    0 <= j < ixb && b@[j] == rc@[k]) by {
                    if k == old_rc.len() {
                        if take_a {
                            assert(a@[oa] == rc@[k]);
                        } else {
                            assert(b@[ob] == rc@[k]);
                        }
                    } else {
                        assert(rc@[k] == old_rc[k]);
                    }
                }
                assert forall|i: int| 0 <= i < ixa implies rc@.contains(#[trigger] a@[i]) by {
                    if i < oa {
                        assert(old_rc.contains(a@[i]));
                        let k = choose|k: int| 0 <= k < old_rc.len() && old_rc[k] == a@[i];
                        assert(rc@[k] == a@[i]);
                    } else {
                        assert(rc@[old_rc.len() as int] == a@[i]);
                    }
                }
                assert forall|j: int| 0 <= j < ixb implies rc@.contains(#[trigger] b@[j]) by {
                    if j < ob {
                        assert(old_rc.contains(b@[j]));
                        let k = choose|k: int| 0 <= k < old_rc.len() && old_rc[k] == b@[j];
                        assert(rc@[k] == b@[j]);
                    } else {
                        assert(rc@[old_rc.len() as int] == b@[j]);
                    }
                }
            }
        }
        let m = RouteConflicts { rc };
        assert(m@ =~= self@.union(other@)) by {
            assert forall|c: Conflict| m@.contains(c) <==> self@.union(other@).contains(c) by {
                if m@.contains(c) {
                    let k = choose|k: int| 0 <= k < m.rc.len() && m.rc@[k] == c;
                    assert(m.rc@[k] == c);
                }
                if self@.contains(c) {
                    let i = choose|i: int| 0 <= i < la && a@[i] == c;
                    assert(m.rc@.contains(a@[i]));
                }
                if other@.contains(c) {
                    let j = choose|j: int| 0 <= j < lb && b@[j] == c;
                    assert(m.rc@.contains(b@[j]));
                }
            }
        }
        m
    }

    /// Returns the number of conflicts in this set.
    pub fn len(&self) -> (n: usize)
        ensures
            n == self@.len(),
    {
        proof {
            use_type_invariant(self);
            lemma_sorted_len(self.rc@);
        }
        self.rc.len()
    }

    /// Returns the number of conflicts that this set and `other` have in
    /// common.
    pub fn intersection_len(&self, other: &Self) -> (n: usize)
        ensures
            n == self@.intersect(other@).len(),
    {
        proof {
            use_type_invariant(self);
        }
        let mut n: usize = 0;
        let mut i: usize = 0;
        assert(self.rc@.take(0).to_set().intersect(other@) =~= Set::<Conflict>::empty());
        while i < self.rc.len()
            invariant
                i <= self.rc@.len(),
                sorted_strict(self.rc@),
                n <= i,
                n == self.rc@.take(i as int).to_set().intersect(other@).len(),
                self.rc@.take(i as int).to_set().finite(),
            decreases self.rc@.len() - i,
        {
            let ghost s = self.rc@;
            let ghost prev = s.take(i as int).to_set();
            let ghost x = s[i as int];
            proof {
                assert(s.take(i + 1) =~= s.take(i as int).push(x));
                s.take(i as int).lemma_push_to_set_commute(x);
                assert(s.take(i + 1).to_set() =~= prev.insert(x));
                assert(!prev.contains(x)) by {
                    if prev.contains(x) {
                        let j = choose|j: int| 0 <= j < i && s.take(i as int)[j] == x;
                        assert(conflict_lt(s[j], s[i as int]));
                        lemma_conflict_order(x, x, x);
                    }
                }
            }
            if other.contains(&self.rc[i]) {
                proof {
                    assert(prev.insert(x).intersect(other@) =~= prev.intersect(other@).insert(x));
                    assert(!prev.intersect(other@).contains(x));
                }
                n = n + 1;
            } else {
                proof {
                    assert(prev.insert(x).intersect(other@) =~= prev.intersect(other@));
                }
            }
            i = i + 1;
        }
        assert(self.rc@.take(self.rc@.len() as int) =~= self.rc@);
        n
    }

    /// Returns whether this set holds no conflict.
    pub fn is_empty(&self) -> (r: bool)
        ensures
            r == (self@ == Set::<Conflict>::empty()),
    {
        if self.rc.len() == 0 {
            assert(self@ =~= Set::<Conflict>::empty());
            true
        } else {
            assert(self@.contains(self.rc@[0]));
            false
        }
    }

    /// Returns the conflicts in this set, in increasing order.
    pub fn iter(&self) -> (s: &[Conflict])
        ensures
            s@ == self.seq(),
            sorted_strict(s@),
            s@.to_set() == self@,
    {
        proof {
            use_type_invariant(self);
        }
        self.rc.as_slice()
    }
}

impl RouteConflicts {
    /// Returns the position at which `c` lies in this set, or would be
    /// inserted: the number of conflicts that precede it.
    fn position(&self, c: &Conflict) -> (p: usize)
        ensures
            p <= self.seq().len(),
            forall|i: int| 0 <= i < p ==> conflict_lt(#[trigger] self.seq()[i], *c),
            forall|i: int| p <= i < self.seq().len() ==> !conflict_lt(#[trigger] self.seq()[i], *c),
    {
        proof {
            use_type_invariant(self);
        }
        let mut p: usize = 0;
        while p < self.rc.len() && precedes(&self.rc[p], c)
            invariant
                p <= self.rc.len(),
                sorted_strict(self.rc@),
                forall|i: int| 0 <= i < p ==> conflict_lt(#[trigger] self.rc@[i], *c),
            decreases self.rc.len() - p,
        {
            p = p + 1;
        }
        proof {
            assert forall|i: int| p <= i < self.seq().len() implies !conflict_lt(
                #[trigger] self.seq()[i],
                *c,
            ) by {
                if i > p {
                    assert(conflict_lt(self.rc@[p as int], self.rc@[i]));
                    lemma_conflict_order(self.rc@[p as int], self.rc@[i], *c);
                }
            }
        }
        p
    }

    /// Returns whether this set holds the conflict `c`.
    pub fn contains(&self, c: &Conflict) -> (r: bool)
        ensures
            r == self@.contains(*c),
    {
        proof {
            use_type_invariant(self);
        }
        let p = self.position(c);
        let r = p < self.rc.len() && self.rc[p] == *c;
        proof {
            if !r && self@.contains(*c) {
                let i = choose|i: int| 0 <= i < self.rc.len() && self.rc@[i] == *c;
                lemma_conflict_order(*c, *c, *c);
                if i < p {
                    assert(conflict_lt(self.seq()[i], *c));
                } else if i > p {
                    assert(conflict_lt(self.rc@[p as int], self.rc@[i]));
                    lemma_conflict_order(self.rc@[p as int], *c, *c);
                }
            }
        }
        r
    }

    /// Adds the conflict `c` to this set.
    pub fn insert(&mut self, c: Conflict)
        ensures
            final(self)@ == old(self)@.insert(c),
    {
        proof {
            use_type_invariant(&*self);
        }
        let p = self.position(&c);
        if p < self.rc.len() && self.rc[p] == c {
            assert(old(self)@.insert(c) =~= old(self)@);
            return ;
        }
        let mut rc = self.rc.clone();
        assert(rc@ =~= self.rc@);
        rc.insert(p, c);
        proof {
            let old_s = self.rc@;
            assert(rc@ == old_s.insert(p as int, c));
            assert forall|i: int, j: int| 0 <= i < j < rc@.len() implies #[trigger] conflict_lt(
                rc@[i],
                rc@[j],
            ) by {
                if j < p {
                    assert(conflict_lt(old_s[i], old_s[j]));
                } else if j == p {
                    assert(conflict_lt(self.seq()[i], c));
                } else if i == p {
                    assert(!conflict_lt(self.seq()[j - 1], c));
                    assert(old_s[j - 1] != c) by {
                        if j - 1 == p {
                        } else {
                            assert(conflict_lt(old_s[p as int], old_s[j - 1]));
                            assert(!conflict_lt(self.seq()[p as int], c));
                            lemma_conflict_order(old_s[p as int], c, c);
                            lemma_conflict_order(old_s[p as int], old_s[j - 1], c);
                        }
                    }
                    lemma_conflict_order(c, old_s[j - 1], c);
                } else if i < p {
                    assert(conflict_lt(old_s[i], c));
                    assert(old_s[j - 1] == rc@[j]);
                    assert(conflict_lt(old_s[i], old_s[j - 1]));
                } else {
                    assert(conflict_lt(old_s[i - 1], old_s[j - 1]));
                }
            }
            assert(rc@.to_set() =~= old(self)@.insert(c)) by {
                assert forall|x: Conflict| rc@.to_set().contains(x) <==> old(self)@.insert(c).contains(
                    x,
                ) by {
                    if rc@.contains(x) {
                        let i = choose|i: int| 0 <= i < rc@.len() && rc@[i] == x;
                        if i < p {
                            assert(old_s[i] == x);
                        } else if i > p {
                            assert(old_s[i - 1] == x);
                        }
                    }
                    if old_s.contains(x) {
                        let i = choose|i: int| 0 <= i < old_s.len() && old_s[i] == x;
                        if i < p {
                            assert(rc@[i] == x);
                        } else {
                            assert(rc@[i + 1] == x);
                        }
                    }
                    if x == c {
                        assert(rc@[p as int] == x);
                    }
                }
            }
        }
        *self = RouteConflicts { rc };
    }

    /// Removes the conflict `c` from this set, if it holds it.
    pub fn remove(&mut self, c: &Conflict)
        ensures
            final(self)@ == old(self)@.remove(*c),
    {
        proof {
            use_type_invariant(&*self);
        }
        let p = self.position(c);
        if p < self.rc.len() && self.rc[p] == *c {
            let mut rc = self.rc.clone();
            assert(rc@ =~= self.rc@);
            let _ = rc.remove(p);
            proof {
                let old_s = self.rc@;
                assert(rc@ == old_s.remove(p as int));
                assert forall|i: int, j: int| 0 <= i < j < rc@.len() implies #[trigger] conflict_lt(
                    rc@[i],
                    rc@[j],
                ) by {
                    if j < p {
                        assert(conflict_lt(old_s[i], old_s[j]));
                    } else if i < p {
                        assert(conflict_lt(old_s[i], old_s[j + 1]));
                    } else {
                        assert(conflict_lt(old_s[i + 1], old_s[j + 1]));
                    }
                }
                assert(rc@.to_set() =~= old(self)@.remove(*c)) by {
                    assert forall|x: Conflict| rc@.to_set().contains(x) <==> old(self)@.remove(
                        *c,
                    ).contains(x) by {
                        if rc@.contains(x) {
                            let i = choose|i: int| 0 <= i < rc@.len() && rc@[i] == x;
                            if i < p {
                                assert(old_s[i] == x);
                                assert(conflict_lt(old_s[i], old_s[p as int]));
                                lemma_conflict_order(x, x, x);
                            } else {
                                assert(old_s[i + 1] == x);
                                assert(conflict_lt(old_s[p as int], old_s[i + 1]));
                                lemma_conflict_order(x, x, x);
                            }
                        }
                        if old_s.contains(x) && x != *c {
                            let i = choose|i: int| 0 <= i < old_s.len() && old_s[i] == x;
                            if i < p {
                                assert(rc@[i] == x);
                            } else {
                                assert(i != p);
                                assert(rc@[i - 1] == x);
                            }
                        }
                    }
                }
            }
            *self = RouteConflicts { rc };
        } else {
            proof {
                if old(self)@.contains(*c) {
                    let i = choose|i: int| 0 <= i < self.rc.len() && self.rc@[i] == *c;
                    lemma_conflict_order(*c, *c, *c);
                    if i < p {
                        assert(conflict_lt(self.seq()[i], *c));
                    } else if i > p {
                        assert(conflict_lt(self.rc@[p as int], self.rc@[i]));
                        lemma_conflict_order(self.rc@[p as int], *c, *c);
                    }
                }
                assert(old(self)@.remove(*c) =~= old(self)@);
            }
        }
    }

    /// Returns the set of the given conflicts.
    pub fn from_conflicts(conflicts: &[Conflict]) -> (r: Self)
        ensures
            r@ == conflicts@.to_set(),
    {
        let mut r = RouteConflicts::new();
        let mut i: usize = 0;
        while i < conflicts.len()
            invariant
                i <= conflicts.len(),
                r@ == conflicts@.subrange(0, i as int).to_set(),
            decreases conflicts.len() - i,
        {
            r.insert(conflicts[i]);
            proof {
                assert(conflicts@.subrange(0, i + 1).to_set() =~= conflicts@.subrange(
                    0,
                    i as int,
                ).to_set().insert(conflicts@[i as int])) by {
                    let s0 = conflicts@.subrange(0, i as int);
                    let s1 = conflicts@.subrange(0, i + 1);
                    assert forall|x: Conflict| s1.contains(x) <==> s0.to_set().insert(
                        conflicts@[i as int],
                    ).contains(x) by {
                        if s1.contains(x) {
                            let k = choose|k: int| 0 <= k < s1.len() && s1[k] == x;
                            if k < i {
                                assert(s0[k] == x);
                            }
                        }
                        if s0.contains(x) {
                            let k = choose|k: int| 0 <= k < s0.len() && s0[k] == x;
                            assert(s1[k] == x);
                        }
                        if x == conflicts@[i as int] {
                            assert(s1[i as int] == x);
                        }
                    }
                }
            }
            i = i + 1;
        }
        assert(conflicts@.subrange(0, conflicts@.len() as int) =~= conflicts@);
        r
    }
}

impl Default for RouteConflicts {
    fn default() -> (r: Self)
        ensures
            r@ == Set::<Conflict>::empty(),
    {
        RouteConflicts::new()
    }
}

/// A set of conflicts that is merged with another is disjoint from a third
/// set exactly when both of the merged sets are: so a collection of routes
/// is free of conflicts when each pair of its routes is.
pub proof fn lemma_merge_disjoint(a: RouteConflicts, b: RouteConflicts, c: RouteConflicts)
    ensures
        a@.union(b@).disjoint(c@) == (a@.disjoint(c@) && b@.disjoint(c@)),
        a@.disjoint(b@) == b@.disjoint(a@),
        a@.union(b@) == b@.union(a@),
        a@.union(a@) == a@,
{
    assert(a@.union(b@) =~= b@.union(a@));
    assert(a@.union(a@) =~= a@);
}

/// A strictly increasing sequence holds no conflict twice, so its length is
/// the number of conflicts in it.
proof fn lemma_sorted_len(s: Seq<Conflict>)
    requires
        sorted_strict(s),
    ensures
        s.to_set().len() == s.len(),
        s.to_set().finite(),
    decreases s.len(),
{
    if s.len() == 0 {
        assert(s.to_set() =~= Set::<Conflict>::empty());
    } else {
        let t = s.drop_last();
        assert(sorted_strict(t)) by {
            assert forall|i: int, j: int| 0 <= i < j < t.len() implies #[trigger] conflict_lt(
                t[i],
                t[j],
            ) by {
                assert(conflict_lt(s[i], s[j]));
            }
        }
        lemma_sorted_len(t);
        let x = s.last();
        assert(!t.contains(x)) by {
            if t.contains(x) {
                let i = choose|i: int| 0 <= i < t.len() && t[i] == x;
                assert(conflict_lt(s[i], s[s.len() - 1]));
                lemma_conflict_order(x, x, x);
            }
        }
        assert(s.to_set() =~= t.to_set().insert(x)) by {
            assert forall|c: Conflict| s.to_set().contains(c) <==> t.to_set().insert(x).contains(c) by {
                if s.contains(c) {
                    let i = choose|i: int| 0 <= i < s.len() && s[i] == c;
                    if i < s.len() - 1 {
                        assert(t[i] == c);
                    }
                }
                if t.contains(c) {
                    let i = choose|i: int| 0 <= i < t.len() && t[i] == c;
                    assert(s[i] == c);
                }
                if c == x {
                    assert(s[s.len() - 1] == c);
                }
            }
        }
    }
}

} // verus!
