use navig18xx::game::{addrs, initial_tiles, Game, Games};
use navig18xx::hex::RotateCW;
use navig18xx::skip_train::{Bonus, Train};

#[test]
fn the_map_and_its_starting_tiles() {
    let hexes = addrs();
    assert_eq!(hexes.len(), 94);
    assert_eq!(hexes[0], (0, 3));
    assert_eq!(hexes[93], (9, 4));
    let tiles = initial_tiles();
    assert_eq!(tiles.len(), 36);
    assert_eq!(tiles[0], ((7, 7), ("Port2", RotateCW::Zero)));
    assert_eq!(tiles[12], ((6, 11), ("Grey1", RotateCW::Three)));
    // Every starting tile lies on the map.
    for (rc, _) in &tiles {
        assert!(hexes.contains(rc));
    }
}

#[test]
fn trains_and_their_names() {
    let game = Game::new();
    let trains = game.train_types();
    assert_eq!(trains.len(), 9);
    assert_eq!(game.train_name(&Train::new_4_train()), Some("4"));
    assert_eq!(game.train_name(&Train::new_5p5e_train()), Some("5+5E"));
    assert_eq!(Train::new_3_train().describe(), "3-train");
    assert_eq!(Train::new_5p5e_train().describe(), "5+5E-train");
    assert_eq!(Train::new_2p2_train().describe(), "");
    assert_eq!(game.name(), "1867: The Railways of Canada");
}

#[test]
fn bonuses_follow_the_options_held() {
    let game = Game::new();
    assert_eq!(game.bonus_options().len(), 4);
    let none = game.get_bonuses(&vec![false, false, false, false]);
    assert_eq!(none.len(), 1);
    match &none[0] {
        Bonus::ConnectionBonus { bonus, to_any, .. } => {
            assert_eq!(*bonus, 40);
            assert_eq!(to_any.len(), 3);
        }
        _ => panic!("expected the Timmins connection bonus"),
    }
    let all = game.get_bonuses(&vec![true, true, true, true]);
    assert_eq!(all.len(), 6);
    let detroit = game.get_bonuses(&vec![false, false, false, true]);
    assert_eq!(detroit.len(), 3);
    match &detroit[2] {
        Bonus::VisitBonus { locn, bonus } => {
            assert_eq!((locn.row(), locn.col()), (9, 0));
            assert_eq!(*bonus, 10);
        }
        _ => panic!("expected a visit bonus"),
    }
}

#[test]
fn phases_change_the_off_board_tiles() {
    let mut game = Game::new();
    assert_eq!(game.get_phase(), 0);
    assert_eq!(game.phase_count(), 7);
    let tiles = game.set_phase(3);
    assert_eq!(game.get_phase(), 3);
    assert_eq!(tiles.len(), 6);
    assert_eq!(tiles[0].1, "Sault Ste Marie Bn");
    assert_eq!(tiles[5].1, "Detroit Bn");
    assert!(game.set_phase(7).is_empty());
    assert_eq!(game.get_phase(), 3);
    assert_eq!(game.phase_name(6), Some("8"));
    assert_eq!(game.phase_name(7), None);
    assert_eq!(game.phase_names().len(), 7);
}

#[test]
fn games_change_the_active_game_by_name_or_index() {
    let mut games = Games::new(vec![Game::new(), Game::new()]);
    assert_eq!(games.names(), vec!["1867: The Railways of Canada", "1867: The Railways of Canada"]);
    assert!(games.set_active_index(1));
    assert!(!games.set_active_index(2));
    assert!(!games.set_active_name("1830"));
    assert!(games.set_active_name("1867: The Railways of Canada"));
    assert_eq!(games.active().name(), "1867: The Railways of Canada");
    let mut none = Games::new(vec![]);
    assert!(!none.set_active_name("1867: The Railways of Canada"));
}
