use navig18xx::builder::{Error, RouteBuilder};
use navig18xx::connection::Connection;
use navig18xx::hex::{HexAddress, HexFace, RotateCW};
use navig18xx::path::{Step, StopLocation, Visit};
use navig18xx::route_map::{FaceLink, MapHex, RouteMap, TileLink};
use navig18xx::track::TrackEnd;
use navig18xx::track::TrackEnd::{End, Start};

fn track(ix: usize, end: TrackEnd) -> Connection {
    Connection::Track { ix, end }
}

fn link(from: Connection, to: Vec<Connection>) -> TileLink {
    TileLink { from, to }
}

fn face(face: HexFace) -> Connection {
    Connection::Face { face }
}

fn city(ix: usize) -> Connection {
    Connection::City { ix }
}

fn step(addr: HexAddress, conn: Connection) -> Step {
    Step { addr, conn }
}

fn a() -> HexAddress {
    HexAddress::new(0, 0)
}

fn b() -> HexAddress {
    HexAddress::new(1, 0)
}

/// Two hexes, one above the other, each with a city: the tile on the upper
/// hex is placed as drawn, and the tile on the lower hex is turned one face
/// clockwise, so that its upper-left face lies on the hex's top edge.
fn two_city_map() -> RouteMap {
    let hex_a = MapHex {
        addr: a(),
        rotation: RotateCW::Zero,
        links: vec![
            link(city(0), vec![track(0, Start)]),
            link(track(0, Start), vec![city(0)]),
            link(track(0, End), vec![face(HexFace::Bottom)]),
            link(face(HexFace::Bottom), vec![track(0, End)]),
        ],
        city_revenues: vec![20],
        city_spaces: vec![1],
        dit_revenues: vec![],
        off_board: false,
        tokens: vec![],
        faces: vec![FaceLink {
            face: HexFace::Bottom,
            map_face: HexFace::Bottom,
            adj_addr: b(),
            adj_face: HexFace::UpperLeft,
            adj_map_face: HexFace::Top,
        }],
    };
    let hex_b = MapHex {
        addr: b(),
        rotation: RotateCW::One,
        links: vec![
            link(face(HexFace::UpperLeft), vec![track(0, Start)]),
            link(track(0, Start), vec![face(HexFace::UpperLeft)]),
            link(track(0, End), vec![city(0)]),
            link(city(0), vec![track(0, End)]),
        ],
        city_revenues: vec![30],
        city_spaces: vec![1],
        dit_revenues: vec![],
        off_board: false,
        tokens: vec![],
        faces: vec![FaceLink {
            face: HexFace::UpperLeft,
            map_face: HexFace::Top,
            adj_addr: a(),
            adj_face: HexFace::Bottom,
            adj_map_face: HexFace::Bottom,
        }],
    };
    RouteMap { hexes: vec![hex_a, hex_b] }
}

fn error_of(r: Result<RouteBuilder, Error>) -> Error {
    match r {
        Ok(_) => panic!("expected an error"),
        Err(e) => e,
    }
}

#[test]
fn route_from_city_to_city() {
    let map = two_city_map();
    let route = RouteBuilder::from_city(&map, a(), 0)
        .and_then(|r| r.to_edge(HexFace::Bottom))
        .and_then(|r| r.to_city(0, true))
        .map(|r| r.into_route())
        .unwrap_or_else(|_| panic!("could not build the route"));
    assert_eq!(
        route.steps,
        vec![
            step(a(), city(0)),
            step(a(), track(0, End)),
            step(a(), face(HexFace::Bottom)),
            step(b(), face(HexFace::UpperLeft)),
            step(b(), track(0, End)),
            step(b(), city(0)),
        ]
    );
    assert_eq!(
        route.visits,
        vec![
            Visit { addr: a(), revenue: 1, visits: StopLocation::City { ix: 0 } },
            Visit { addr: b(), revenue: 1, visits: StopLocation::City { ix: 0 } },
        ]
    );
}

#[test]
fn path_counts_and_pass_through() {
    let map = two_city_map();
    let path = RouteBuilder::from_city(&map, a(), 0)
        .and_then(|r| r.to_tile_face(HexFace::Bottom))
        .and_then(|r| r.to_city(0, false))
        .map(|r| r.into_path())
        .unwrap_or_else(|_| panic!("could not build the path"));
    assert_eq!(path.steps.len(), 6);
    assert_eq!(path.num_visits, 2);
    assert_eq!(path.num_cities, 2);
    assert_eq!(path.num_dits, 0);
    assert_eq!(path.num_hexes, 2);
    assert_eq!(path.revenue, 0);
    assert_eq!(path.visits[1].revenue, 0);
}

#[test]
fn from_edge_undoes_the_rotation() {
    let map = two_city_map();
    let route = RouteBuilder::from_edge(&map, b(), HexFace::Top)
        .map(|r| r.into_route())
        .unwrap_or_else(|_| panic!("could not start the route"));
    assert_eq!(route.steps, vec![step(b(), face(HexFace::UpperLeft))]);
    assert!(route.visits.is_empty());
}

#[test]
fn to_edge_on_a_rotated_tile() {
    let map = two_city_map();
    let route = RouteBuilder::from_city(&map, b(), 0)
        .and_then(|r| r.to_edge(HexFace::Top))
        .map(|r| r.into_route())
        .unwrap_or_else(|_| panic!("could not build the route"));
    assert_eq!(
        route.steps,
        vec![
            step(b(), city(0)),
            step(b(), track(0, Start)),
            step(b(), face(HexFace::UpperLeft)),
            step(a(), face(HexFace::Bottom)),
        ]
    );
}

#[test]
fn builder_errors() {
    let map = two_city_map();
    let missing = HexAddress::new(5, 5);
    assert_eq!(error_of(RouteBuilder::from_city(&map, missing, 0)), Error::NoTileAtHex(missing));
    assert_eq!(
        error_of(RouteBuilder::from_tile_face(&map, missing, HexFace::Top)),
        Error::NoTileAtHex(missing)
    );
    assert_eq!(error_of(RouteBuilder::from_edge(&map, missing, HexFace::Top)), Error::NoTileAtHex(missing));
    assert_eq!(error_of(RouteBuilder::from_city(&map, a(), 1)), Error::InvalidCity(a(), 1));
    assert_eq!(error_of(RouteBuilder::from_dit(&map, a(), 0)), Error::InvalidDit(a(), 0));
    let not_connected = RouteBuilder::from_city(&map, a(), 0).and_then(|r| r.to_dit(0, true));
    assert_eq!(error_of(not_connected), Error::NotConnected(a(), city(0), Connection::Dit { ix: 0 }));
    let wrong_face = RouteBuilder::from_city(&map, a(), 0).and_then(|r| r.to_edge(HexFace::Top));
    assert_eq!(error_of(wrong_face), Error::NotConnected(a(), city(0), face(HexFace::Top)));
}

#[test]
fn each_error_has_a_message() {
    let a = HexAddress::new(3, -12);
    assert_eq!(Error::NoTileAtHex(a).message(), "No tile at hex (3, -12)");
    assert_eq!(Error::InvalidCity(a, 2).message(), "No city #2 at hex (3, -12)");
    assert_eq!(Error::InvalidDit(a, 0).message(), "No dit #0 at hex (3, -12)");
    let src = Connection::City { ix: 0 };
    assert_eq!(
        Error::NotConnected(a, src, Connection::City { ix: 1 }).message(),
        "No connection to city #1 on hex (3, -12)"
    );
    assert_eq!(
        Error::NotConnected(a, src, Connection::Dit { ix: 10 }).message(),
        "No connection to dit #10 on hex (3, -12)"
    );
    assert_eq!(
        Error::NotConnected(a, src, Connection::Face { face: HexFace::LowerLeft }).message(),
        "No connection to LowerLeft on hex (3, -12)"
    );
    assert_eq!(
        Error::NotConnected(a, src, track(4, End)).message(),
        "No connection to track #4 on hex (3, -12)"
    );
}

#[test]
fn connections_from_a_city_reach_both_ends_of_its_track() {
    let city = Connection::City { ix: 0 };
    let dit = Connection::Dit { ix: 0 };
    let top = Connection::Face { face: HexFace::Top };
    let hex = MapHex {
        addr: HexAddress::new(0, 0),
        rotation: RotateCW::Zero,
        links: vec![
            TileLink { from: city, to: vec![track(0, Start), track(1, Start)] },
            TileLink { from: track(0, Start), to: vec![city] },
            TileLink { from: track(0, End), to: vec![top] },
            TileLink { from: top, to: vec![track(0, End)] },
            TileLink { from: track(1, Start), to: vec![city] },
            TileLink { from: track(1, End), to: vec![dit] },
            TileLink { from: dit, to: vec![track(1, End)] },
        ],
        city_revenues: vec![20],
        city_spaces: vec![1],
        dit_revenues: vec![10],
        off_board: false,
        tokens: vec![],
        faces: vec![],
    };
    let mut reached = hex.connections_from(&city);
    reached.sort();
    let mut expected = vec![track(0, Start), track(0, End), track(1, Start), track(1, End), dit, top];
    expected.sort();
    assert_eq!(reached, expected);
    // From the face, the search reaches the city and the rest of the tile,
    // but not the face itself.
    let mut from_top = hex.connections_from(&top);
    from_top.sort();
    let mut expected = vec![track(0, Start), track(0, End), track(1, Start), track(1, End), dit, city];
    expected.sort();
    assert_eq!(from_top, expected);
}
