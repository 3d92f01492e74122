use navig18xx::conflict::{Conflict, ConflictRule, RouteConflicts};
use navig18xx::connection::Connection;
use navig18xx::hex::{HexAddress, HexFace};
use ConflictRule::{Hex, TrackOnly, TrackOrCity, TrackOrCityHex};

#[test]
/// Check that the conflict rules have the desired ordering.
/// This is necessary for ensuring that route-combining constraints are
/// **at least as flexible** as the route-building constraints.
/// That is, `route_combining_rule <= route_building_rule`.
fn rule_ordering_1() {
    assert!(TrackOnly < TrackOrCity);
    assert!(TrackOnly < TrackOrCityHex);
    assert!(TrackOnly < Hex);
    assert!(TrackOrCity < TrackOrCityHex);
    assert!(TrackOrCity < Hex);
    assert!(TrackOrCityHex < Hex);
}

#[test]
fn rule_ranks_follow_the_ordering() {
    assert_eq!(TrackOnly.rank(), 0);
    assert_eq!(TrackOrCity.rank(), 1);
    assert_eq!(TrackOrCityHex.rank(), 2);
    assert_eq!(Hex.rank(), 3);
}

#[test]
fn conflicts_for_each_rule() {
    let addr = HexAddress::new(1, 2);
    let city = Connection::City { ix: 0 };
    assert_eq!(ConflictRule::TrackOnly.maybe_conflict(&addr, &city), None);
    assert_eq!(
        ConflictRule::TrackOrCity.maybe_conflict(&addr, &city),
        Some(Conflict::City { addr, ix: 0 })
    );
    assert_eq!(
        ConflictRule::TrackOrCityHex.maybe_conflict(&addr, &city),
        Some(Conflict::CityHex { addr })
    );
    assert_eq!(Hex.maybe_conflict(&addr, &city), Some(Conflict::Hex { addr }));
    // Only upper faces are recorded.
    let top = Connection::Face { face: HexFace::Top };
    let bottom = Connection::Face { face: HexFace::Bottom };
    assert_eq!(
        ConflictRule::TrackOnly.maybe_conflict(&addr, &top),
        Some(Conflict::Face { addr, face: HexFace::Top })
    );
    assert_eq!(ConflictRule::TrackOnly.maybe_conflict(&addr, &bottom), None);
}

#[test]
fn route_conflicts_behave_as_a_set() {
    let a = Conflict::Hex { addr: HexAddress::new(0, 0) };
    let b = Conflict::Hex { addr: HexAddress::new(0, 1) };
    let c = Conflict::Face { addr: HexAddress::new(3, 3), face: HexFace::Top };
    let mut x = RouteConflicts::new();
    assert!(x.is_empty());
    x.insert(b);
    x.insert(a);
    x.insert(b);
    assert_eq!(x.len(), 2);
    assert!(x.contains(&a) && x.contains(&b) && !x.contains(&c));
    // Held in increasing order.
    assert_eq!(x.iter(), &[c, a, b][1..]);
    let y = RouteConflicts::from_conflicts(&[c, b]);
    assert!(!x.is_disjoint(&y));
    assert_eq!(x.intersection_len(&y), 1);
    let z = x.merge(&y);
    assert_eq!(z.len(), 3);
    assert_eq!(z.iter(), &[c, a, b]);
    x.remove(&b);
    assert!(x.is_disjoint(&y));
    assert_eq!(x.intersection_len(&y), 0);
}
