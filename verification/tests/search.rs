use navig18xx::conflict::ConflictRule;
use navig18xx::connection::Connection;
use navig18xx::hex::{HexAddress, HexFace, RotateCW};
use navig18xx::path::{Path, Step, StopLocation};
use navig18xx::route_map::{FaceLink, MapHex, PlacedToken, RouteMap, TileLink};
use navig18xx::search::{
    path_combinations, paths_for_token, paths_from, paths_through, Criteria, PathLimit, Query,
};
use navig18xx::token::{Colour, Token, TokenStyle};
use navig18xx::track::TrackEnd;
use navig18xx::track::TrackEnd::{End, Start};

fn token(r: usize, g: usize, b: usize) -> Token {
    Token::new(TokenStyle::SideArcs {
        fg: Colour::from((63, 153, 153)),
        bg: Colour::from((r, g, b)),
        text: Colour::from((0, 0, 0)),
    })
}

fn lp() -> Token {
    token(255, 127, 127)
}

fn po() -> Token {
    token(127, 255, 127)
}

fn track(ix: usize, end: TrackEnd) -> Connection {
    Connection::Track { ix, end }
}

fn link(from: Connection, to: Vec<Connection>) -> TileLink {
    TileLink { from, to }
}

fn face(face: HexFace) -> Connection {
    Connection::Face { face }
}

/// Three hexes in a column: a city at (0, 0) with an "LP" token, a city at
/// (1, 0) with a "PO" token, and a dit at (2, 0); track runs from each hex
/// to the next.
fn column_map() -> RouteMap {
    let a = HexAddress::new(0, 0);
    let b = HexAddress::new(1, 0);
    let c = HexAddress::new(2, 0);
    let hex_a = MapHex {
        addr: a,
        rotation: RotateCW::Zero,
        links: vec![
            link(Connection::City { ix: 0 }, vec![track(0, Start)]),
            link(track(0, Start), vec![Connection::City { ix: 0 }]),
            link(track(0, End), vec![face(HexFace::Bottom)]),
            link(face(HexFace::Bottom), vec![track(0, End)]),
        ],
        city_revenues: vec![20],
        city_spaces: vec![1],
        dit_revenues: vec![],
        off_board: false,
        tokens: vec![PlacedToken { city_ix: 0, token: lp() }],
        faces: vec![FaceLink {
            face: HexFace::Bottom,
            map_face: HexFace::Bottom,
            adj_addr: b,
            adj_face: HexFace::Top,
            adj_map_face: HexFace::Top,
        }],
    };
    let hex_b = MapHex {
        addr: b,
        rotation: RotateCW::Zero,
        links: vec![
            link(face(HexFace::Top), vec![track(0, Start)]),
            link(track(0, Start), vec![face(HexFace::Top)]),
            link(track(0, End), vec![Connection::City { ix: 0 }]),
            link(Connection::City { ix: 0 }, vec![track(0, End), track(1, Start)]),
            link(track(1, Start), vec![Connection::City { ix: 0 }]),
            link(track(1, End), vec![face(HexFace::Bottom)]),
            link(face(HexFace::Bottom), vec![track(1, End)]),
        ],
        city_revenues: vec![30],
        city_spaces: vec![2],
        dit_revenues: vec![],
        off_board: false,
        tokens: vec![PlacedToken { city_ix: 0, token: po() }],
        faces: vec![
            FaceLink {
                face: HexFace::Top,
                map_face: HexFace::Top,
                adj_addr: a,
                adj_face: HexFace::Bottom,
                adj_map_face: HexFace::Bottom,
            },
            FaceLink {
                face: HexFace::Bottom,
                map_face: HexFace::Bottom,
                adj_addr: c,
                adj_face: HexFace::Top,
                adj_map_face: HexFace::Top,
            },
        ],
    };
    let hex_c = MapHex {
        addr: c,
        rotation: RotateCW::Zero,
        links: vec![
            link(face(HexFace::Top), vec![track(0, Start)]),
            link(track(0, Start), vec![face(HexFace::Top)]),
            link(track(0, End), vec![Connection::Dit { ix: 0 }]),
            link(Connection::Dit { ix: 0 }, vec![track(0, End)]),
        ],
        city_revenues: vec![],
        city_spaces: vec![],
        dit_revenues: vec![10],
        off_board: false,
        tokens: vec![],
        faces: vec![FaceLink {
            face: HexFace::Top,
            map_face: HexFace::Top,
            adj_addr: b,
            adj_face: HexFace::Bottom,
            adj_map_face: HexFace::Bottom,
        }],
    };
    RouteMap { hexes: vec![hex_a, hex_b, hex_c] }
}

fn criteria(token: Token, path_limit: Option<PathLimit>) -> Criteria {
    Criteria {
        token,
        path_limit,
        conflict_rule: ConflictRule::TrackOrCityHex,
        route_conflict_rule: ConflictRule::TrackOnly,
    }
}

fn revenues(paths: &[Path]) -> Vec<usize> {
    let mut rs: Vec<usize> = paths.iter().map(|p| p.revenue).collect();
    rs.sort();
    rs
}

#[test]
fn paths_from_the_top_city_reach_each_stop_below() {
    let map = column_map();
    let query = Query {
        addr: HexAddress::new(0, 0),
        from: Connection::City { ix: 0 },
        criteria: criteria(lp(), None),
    };
    let paths = paths_from(&map, &query);
    assert_eq!(revenues(&paths), vec![50, 60]);
    for p in &paths {
        assert_eq!(p.visits[0].addr, HexAddress::new(0, 0));
        assert_eq!(p.steps[0].conn, Connection::City { ix: 0 });
        assert_eq!(p.num_visits, p.visits.len());
        assert_eq!(p.revenue, p.visits.iter().map(|v| v.revenue).sum::<usize>());
    }
    let longest = paths.iter().find(|p| p.revenue == 60).unwrap();
    assert_eq!(longest.num_cities, 2);
    assert_eq!(longest.num_dits, 1);
    assert_eq!(longest.num_hexes, 3);
    assert_eq!(longest.visits[2].visits, StopLocation::Dit { ix: 0 });
}

#[test]
fn the_path_limit_stops_paths_at_the_limit() {
    let map = column_map();
    let start = HexAddress::new(0, 0);
    let from = Connection::City { ix: 0 };
    let two = Query { addr: start, from, criteria: criteria(lp(), Some(PathLimit::CitiesAndTowns { count: 2 })) };
    assert_eq!(revenues(&paths_from(&map, &two)), vec![50]);
    let three = Query { addr: start, from, criteria: criteria(lp(), Some(PathLimit::CitiesAndTowns { count: 3 })) };
    assert_eq!(revenues(&paths_from(&map, &three)), vec![50, 60]);
    // The first stop after the start is always reached.
    let one = Query { addr: start, from, criteria: criteria(lp(), Some(PathLimit::Cities { count: 1 })) };
    assert_eq!(revenues(&paths_from(&map, &one)), vec![50]);
}

#[test]
fn paths_through_the_middle_city_join_paths_in_both_directions() {
    let map = column_map();
    let query = Query {
        addr: HexAddress::new(1, 0),
        from: Connection::City { ix: 0 },
        criteria: criteria(po(), None),
    };
    let from = paths_from(&map, &query);
    assert_eq!(revenues(&from), vec![40, 50]);
    let joined = path_combinations(&query, &from);
    assert_eq!(joined.len(), 1);
    assert_eq!(joined[0].revenue, 60);
    assert_eq!(joined[0].num_visits, 3);
    assert_eq!(joined[0].num_cities, 2);
    let through = paths_through(&map, &query);
    assert_eq!(revenues(&through), vec![40, 50, 60]);
    // A limit of two stops forbids the join.
    let limited = Query { criteria: criteria(po(), Some(PathLimit::CitiesAndTowns { count: 2 })), ..query };
    assert_eq!(revenues(&paths_through(&map, &limited)), vec![40, 50]);
}

#[test]
fn paths_for_each_placed_token() {
    let map = column_map();
    assert_eq!(revenues(&paths_for_token(&map, &criteria(lp(), None))), vec![50, 60]);
    assert_eq!(revenues(&paths_for_token(&map, &criteria(po(), None))), vec![40, 50, 60]);
    let absent = token(1, 2, 3);
    assert!(paths_for_token(&map, &criteria(absent, None)).is_empty());
}

#[test]
fn an_unconnected_token_space_starts_no_path() {
    let mut map = column_map();
    map.hexes[0].links.remove(0);
    let query = Query {
        addr: HexAddress::new(0, 0),
        from: Connection::City { ix: 0 },
        criteria: criteria(lp(), None),
    };
    assert!(paths_from(&map, &query).is_empty());
}

#[test]
fn paths_between_two_tokens_are_found_from_the_earlier_token_only() {
    let mut map = column_map();
    map.hexes[1].tokens.push(PlacedToken { city_ix: 0, token: lp() });
    let from_b = Query {
        addr: HexAddress::new(1, 0),
        from: Connection::City { ix: 0 },
        criteria: criteria(lp(), None),
    };
    // The path from (1, 0) to (0, 0) is found from (0, 0) instead.
    assert_eq!(revenues(&paths_from(&map, &from_b)), vec![40]);
    let from_a = Query { addr: HexAddress::new(0, 0), ..from_b };
    assert_eq!(revenues(&paths_from(&map, &from_a)), vec![50, 60]);
}

#[test]
fn the_first_path_takes_the_first_connection_at_every_step() {
    let map = column_map();
    let a = HexAddress::new(0, 0);
    let b = HexAddress::new(1, 0);
    let query = Query { addr: a, from: Connection::City { ix: 0 }, criteria: criteria(lp(), None) };
    let expected = vec![
        Step { addr: a, conn: Connection::City { ix: 0 } },
        Step { addr: a, conn: track(0, Start) },
        Step { addr: a, conn: face(HexFace::Bottom) },
        Step { addr: b, conn: face(HexFace::Top) },
        Step { addr: b, conn: track(0, Start) },
        Step { addr: b, conn: Connection::City { ix: 0 } },
    ];
    assert_eq!(paths_from(&map, &query)[0].steps, expected);
    assert_eq!(paths_through(&map, &query)[0].steps, expected);
    assert_eq!(paths_for_token(&map, &criteria(lp(), None))[0].steps, expected);
}

/// A 2x2 map: tile 5 at (0, 0) with an "LP" token, tile 6 at (0, 1) with a
/// "PO" token, tile 58 at (1, 0), and tile 63 at (1, 1) with one token of
/// each company; the track is written in map orientation.
fn map_2x2_tiles_5_6_58_63() -> RouteMap {
    let a = HexAddress::new(0, 0);
    let b = HexAddress::new(0, 1);
    let c = HexAddress::new(1, 0);
    let d = HexAddress::new(1, 1);
    let city = Connection::City { ix: 0 };
    let dit = Connection::Dit { ix: 0 };
    let face_link = |f: HexFace, adj: HexAddress, adj_f: HexFace| FaceLink {
        face: f,
        map_face: f,
        adj_addr: adj,
        adj_face: adj_f,
        adj_map_face: adj_f,
    };
    let tile_5 = MapHex {
        addr: a,
        rotation: RotateCW::Zero,
        links: vec![
            link(city, vec![track(0, Start), track(1, Start)]),
            link(track(0, Start), vec![city]),
            link(track(0, End), vec![face(HexFace::Bottom)]),
            link(face(HexFace::Bottom), vec![track(0, End)]),
            link(track(1, Start), vec![city]),
            link(track(1, End), vec![face(HexFace::LowerRight)]),
            link(face(HexFace::LowerRight), vec![track(1, End)]),
        ],
        city_revenues: vec![20],
        city_spaces: vec![1],
        dit_revenues: vec![],
        off_board: false,
        tokens: vec![PlacedToken { city_ix: 0, token: lp() }],
        faces: vec![
            face_link(HexFace::Bottom, c, HexFace::Top),
            face_link(HexFace::LowerRight, b, HexFace::UpperLeft),
        ],
    };
    let tile_6 = MapHex {
        addr: b,
        rotation: RotateCW::Zero,
        links: vec![
            link(city, vec![track(0, Start), track(1, Start)]),
            link(track(0, Start), vec![city]),
            link(track(0, End), vec![face(HexFace::UpperLeft)]),
            link(face(HexFace::UpperLeft), vec![track(0, End)]),
            link(track(1, Start), vec![city]),
            link(track(1, End), vec![face(HexFace::Bottom)]),
            link(face(HexFace::Bottom), vec![track(1, End)]),
        ],
        city_revenues: vec![20],
        city_spaces: vec![1],
        dit_revenues: vec![],
        off_board: false,
        tokens: vec![PlacedToken { city_ix: 0, token: po() }],
        faces: vec![
            face_link(HexFace::UpperLeft, a, HexFace::LowerRight),
            face_link(HexFace::Bottom, d, HexFace::Top),
        ],
    };
    let tile_58 = MapHex {
        addr: c,
        rotation: RotateCW::Zero,
        links: vec![
            link(face(HexFace::Top), vec![track(0, Start)]),
            link(track(0, Start), vec![face(HexFace::Top)]),
            link(track(0, End), vec![dit]),
            link(dit, vec![track(0, End), track(1, Start)]),
            link(track(1, Start), vec![dit]),
            link(track(1, End), vec![face(HexFace::LowerRight)]),
            link(face(HexFace::LowerRight), vec![track(1, End)]),
        ],
        city_revenues: vec![],
        city_spaces: vec![],
        dit_revenues: vec![10],
        off_board: false,
        tokens: vec![],
        faces: vec![
            face_link(HexFace::Top, a, HexFace::Bottom),
            face_link(HexFace::LowerRight, d, HexFace::UpperLeft),
        ],
    };
    let tile_63 = MapHex {
        addr: d,
        rotation: RotateCW::Zero,
        links: vec![
            link(city, vec![track(0, Start), track(1, Start)]),
            link(track(0, Start), vec![city]),
            link(track(0, End), vec![face(HexFace::Top)]),
            link(face(HexFace::Top), vec![track(0, End)]),
            link(track(1, Start), vec![city]),
            link(track(1, End), vec![face(HexFace::UpperLeft)]),
            link(face(HexFace::UpperLeft), vec![track(1, End)]),
        ],
        city_revenues: vec![40],
        city_spaces: vec![2],
        dit_revenues: vec![],
        off_board: false,
        tokens: vec![PlacedToken { city_ix: 0, token: po() }, PlacedToken { city_ix: 0, token: lp() }],
        faces: vec![
            face_link(HexFace::Top, b, HexFace::Bottom),
            face_link(HexFace::UpperLeft, c, HexFace::LowerRight),
        ],
    };
    RouteMap { hexes: vec![tile_5, tile_6, tile_58, tile_63] }
}

fn best_revenue(paths: &[Path]) -> Option<usize> {
    paths.iter().map(|path| path.revenue).max()
}

#[test]
fn test_2x2_paths() {
    let map = map_2x2_tiles_5_6_58_63();
    let cases = [
        (Some(PathLimit::CitiesAndTowns { count: 2 }), 40),
        (Some(PathLimit::CitiesAndTowns { count: 3 }), 70),
        (Some(PathLimit::CitiesAndTowns { count: 4 }), 90),
        (None, 90),
    ];
    for (path_limit, expected) in cases {
        let query = Query {
            addr: HexAddress::new(0, 0),
            from: Connection::City { ix: 0 },
            criteria: criteria(lp(), path_limit),
        };
        assert_eq!(best_revenue(&paths_from(&map, &query)), Some(expected));
        assert_eq!(best_revenue(&paths_through(&map, &query)), Some(expected));
    }
}

#[test]
fn paths_from_a_dit_start_at_the_dit() {
    let map = column_map();
    let query = Query {
        addr: HexAddress::new(2, 0),
        from: Connection::Dit { ix: 0 },
        criteria: criteria(token(1, 2, 3), None),
    };
    let paths = paths_from(&map, &query);
    assert_eq!(revenues(&paths), vec![40, 60]);
    for p in &paths {
        assert_eq!(p.visits[0].visits, StopLocation::Dit { ix: 0 });
        assert_eq!(p.num_dits, 1);
    }
    let longest = paths.iter().find(|p| p.revenue == 60).unwrap();
    assert_eq!(longest.num_cities, 2);
    assert_eq!(longest.num_visits, 3);
    let limited = Query { criteria: criteria(token(1, 2, 3), Some(PathLimit::Cities { count: 1 })), ..query };
    assert_eq!(revenues(&paths_from(&map, &limited)), vec![40]);
}

#[test]
fn every_path_from_the_token_is_found_on_the_2x2_map() {
    let map = map_2x2_tiles_5_6_58_63();
    let query = Query {
        addr: HexAddress::new(0, 0),
        from: Connection::City { ix: 0 },
        criteria: criteria(lp(), None),
    };
    let paths = paths_from(&map, &query);
    // Both tracks out of the start are searched, and the search goes on past
    // the dit and the city that holds an "LP" token, but not past the city
    // whose only token space holds a "PO" token.
    assert_eq!(revenues(&paths), vec![30, 40, 70, 90]);
}

/// A city at (1, 0) with an "LP" token, whose first track reaches the first
/// of two cities at (0, 0), which also holds an "LP" token, and whose second
/// track reaches the other city there through (0, 1).
fn two_city_hex_map() -> RouteMap {
    let h = HexAddress::new(0, 0);
    let x = HexAddress::new(0, 1);
    let s = HexAddress::new(1, 0);
    let fl = |f: HexFace, adj: HexAddress, adj_f: HexFace| FaceLink {
        face: f,
        map_face: f,
        adj_addr: adj,
        adj_face: adj_f,
        adj_map_face: adj_f,
    };
    let c0 = Connection::City { ix: 0 };
    let c1 = Connection::City { ix: 1 };
    let hex_h = MapHex {
        addr: h,
        rotation: RotateCW::Zero,
        links: vec![
            link(c0, vec![track(0, Start)]),
            link(track(0, Start), vec![c0]),
            link(track(0, End), vec![face(HexFace::Bottom)]),
            link(face(HexFace::Bottom), vec![track(0, End)]),
            link(c1, vec![track(1, Start)]),
            link(track(1, Start), vec![c1]),
            link(track(1, End), vec![face(HexFace::LowerRight)]),
            link(face(HexFace::LowerRight), vec![track(1, End)]),
        ],
        city_revenues: vec![20, 30],
        city_spaces: vec![1, 1],
        dit_revenues: vec![],
        off_board: false,
        tokens: vec![PlacedToken { city_ix: 0, token: lp() }],
        faces: vec![fl(HexFace::Bottom, s, HexFace::Top), fl(HexFace::LowerRight, x, HexFace::UpperLeft)],
    };
    let hex_x = MapHex {
        addr: x,
        rotation: RotateCW::Zero,
        links: vec![
            link(face(HexFace::UpperLeft), vec![track(0, Start)]),
            link(track(0, Start), vec![face(HexFace::UpperLeft)]),
            link(track(0, End), vec![face(HexFace::LowerLeft)]),
            link(face(HexFace::LowerLeft), vec![track(0, End)]),
        ],
        city_revenues: vec![],
        city_spaces: vec![],
        dit_revenues: vec![],
        off_board: false,
        tokens: vec![],
        faces: vec![fl(HexFace::UpperLeft, h, HexFace::LowerRight), fl(HexFace::LowerLeft, s, HexFace::UpperRight)],
    };
    let hex_s = MapHex {
        addr: s,
        rotation: RotateCW::Zero,
        links: vec![
            link(c0, vec![track(0, Start), track(1, Start)]),
            link(track(0, Start), vec![c0]),
            link(track(0, End), vec![face(HexFace::Top)]),
            link(face(HexFace::Top), vec![track(0, End)]),
            link(track(1, Start), vec![c0]),
            link(track(1, End), vec![face(HexFace::UpperRight)]),
            link(face(HexFace::UpperRight), vec![track(1, End)]),
        ],
        city_revenues: vec![10],
        city_spaces: vec![1],
        dit_revenues: vec![],
        off_board: false,
        tokens: vec![PlacedToken { city_ix: 0, token: lp() }],
        faces: vec![fl(HexFace::Top, h, HexFace::Bottom), fl(HexFace::UpperRight, x, HexFace::LowerLeft)],
    };
    RouteMap { hexes: vec![hex_h, hex_x, hex_s] }
}

#[test]
fn a_token_city_before_the_start_leaves_its_hex_open_to_later_tracks() {
    let map = two_city_hex_map();
    let query = Query {
        addr: HexAddress::new(1, 0),
        from: Connection::City { ix: 0 },
        criteria: criteria(lp(), None),
    };
    // The first track reaches the token city at (0, 0), whose paths are
    // found from that token instead; the second track still reaches the
    // other city at (0, 0).
    assert_eq!(revenues(&paths_from(&map, &query)), vec![40]);
    // Over both tokens, the path between them is found once, from (0, 0).
    assert_eq!(revenues(&paths_for_token(&map, &criteria(lp(), None))), vec![30, 40]);
}

#[test]
fn a_path_from_a_dit_may_reach_a_city_that_holds_the_token() {
    let map = column_map();
    let query = Query {
        addr: HexAddress::new(2, 0),
        from: Connection::Dit { ix: 0 },
        criteria: criteria(lp(), None),
    };
    // The city at (0, 0) holds an "LP" token; a path from a dit is never
    // left to be found from that token instead.
    assert_eq!(revenues(&paths_from(&map, &query)), vec![40, 60]);
}
