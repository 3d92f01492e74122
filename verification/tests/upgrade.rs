use navig18xx::hex::{HexFace, RotateCW};
use navig18xx::upgrade::{try_placing_tokens, CityLinks, TileCities, TokenIndex, TokenSpace};

fn tile(cities: Vec<(Vec<HexFace>, usize)>) -> TileCities {
    TileCities {
        cities: cities.into_iter().map(|(faces, token_spaces)| CityLinks { faces, token_spaces }).collect(),
    }
}

fn index(entries: &[(usize, usize, usize)]) -> TokenIndex {
    let mut t = TokenIndex::new();
    for (city, space, token) in entries {
        t.insert(TokenSpace::new(*city, *space), *token);
    }
    t
}

#[test]
fn a_token_moves_to_the_city_that_keeps_its_connections() {
    let orig = tile(vec![(vec![HexFace::Top, HexFace::Bottom], 1)]);
    let new = tile(vec![
        (vec![HexFace::Top], 1),
        (vec![HexFace::Top, HexFace::Bottom, HexFace::LowerLeft], 1),
    ]);
    let tokens = index(&[(0, 0, 7)]);
    let placed = try_placing_tokens(&orig, &RotateCW::Zero, &tokens, &new, &RotateCW::Zero).unwrap();
    assert_eq!(placed.entries(), &[(TokenSpace::new(1, 0), 7)]);
}

#[test]
fn rotations_are_taken_into_account() {
    // Rotated by one face, the original city connects the upper right and
    // lower left faces.
    let orig = tile(vec![(vec![HexFace::Top, HexFace::Bottom], 1)]);
    let new = tile(vec![
        (vec![HexFace::Top, HexFace::Bottom], 1),
        (vec![HexFace::UpperRight, HexFace::LowerLeft], 1),
    ]);
    let tokens = index(&[(0, 0, 3)]);
    let placed = try_placing_tokens(&orig, &RotateCW::One, &tokens, &new, &RotateCW::Zero).unwrap();
    assert_eq!(placed.entries(), &[(TokenSpace::new(1, 0), 3)]);
    assert_eq!(HexFace::Bottom.rotate(&RotateCW::Four), HexFace::UpperRight);
}

#[test]
fn tokens_share_a_city_with_enough_spaces() {
    let orig = tile(vec![(vec![HexFace::Top], 1), (vec![HexFace::Bottom], 1)]);
    let new = tile(vec![(vec![HexFace::Top, HexFace::Bottom], 2)]);
    let tokens = index(&[(1, 0, 5), (0, 0, 4)]);
    let placed = try_placing_tokens(&orig, &RotateCW::Zero, &tokens, &new, &RotateCW::Zero).unwrap();
    assert_eq!(placed.len(), 2);
    assert_eq!(placed.entries(), &[(TokenSpace::new(0, 0), 4), (TokenSpace::new(0, 1), 5)]);
}

#[test]
fn no_placement_without_enough_spaces_or_connections() {
    let orig = tile(vec![(vec![HexFace::Top], 1), (vec![HexFace::Bottom], 1)]);
    let full = tile(vec![(vec![HexFace::Top, HexFace::Bottom], 1)]);
    let tokens = index(&[(0, 0, 4), (1, 0, 5)]);
    assert!(try_placing_tokens(&orig, &RotateCW::Zero, &tokens, &full, &RotateCW::Zero).is_none());
    let disconnected = tile(vec![(vec![HexFace::UpperLeft], 2)]);
    assert!(try_placing_tokens(&orig, &RotateCW::Zero, &tokens, &disconnected, &RotateCW::Zero).is_none());
}

#[test]
fn no_tokens_means_no_placement() {
    let orig = tile(vec![(vec![HexFace::Top], 1)]);
    let empty = TokenIndex::new();
    assert!(empty.is_empty());
    assert!(try_placing_tokens(&orig, &RotateCW::Zero, &empty, &orig, &RotateCW::Zero).is_none());
}

#[test]
fn token_indices_keep_spaces_in_order() {
    let mut t = index(&[(2, 0, 1), (0, 1, 2), (0, 0, 3)]);
    assert_eq!(
        t.entries(),
        &[(TokenSpace::new(0, 0), 3), (TokenSpace::new(0, 1), 2), (TokenSpace::new(2, 0), 1)]
    );
    t.insert(TokenSpace::new(0, 1), 9);
    assert_eq!(t.len(), 3);
    assert!(t.contains_key(&TokenSpace::new(0, 1)));
    assert!(!t.contains_key(&TokenSpace::new(1, 0)));
    assert_eq!(t.entries()[1], (TokenSpace::new(0, 1), 9));
}
