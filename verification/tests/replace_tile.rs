use navig18xx::hex::{HexAddress, RotateCW};
use navig18xx::replace_tile::{Placement, ReplaceStep, ReplaceTile};
use navig18xx::ui::{ReplaceTileAction, UiResponse};

fn addr() -> HexAddress {
    HexAddress::new(2, 3)
}

#[test]
fn with_any_needs_a_tile() {
    assert!(ReplaceTile::with_any(0, addr(), None).is_none());
    let state = ReplaceTile::with_any(3, addr(), Some(RotateCW::Two)).expect("three tiles");
    assert_eq!(state.active_hex(), addr());
    assert_eq!(state.net_rotation(), RotateCW::Two);
    assert_eq!(state.place_candidate(), Some(Placement { tile: 0, rotation: RotateCW::Two }));
}

#[test]
fn maybe_upgrade_offers_eligible_tiles() {
    assert!(ReplaceTile::maybe_upgrade(&vec![false, false], addr(), None).is_none());
    let mut state = ReplaceTile::maybe_upgrade(&vec![false, true, false, true], addr(), None).expect("two tiles");
    assert_eq!(state.place_candidate(), Some(Placement { tile: 1, rotation: RotateCW::Zero }));
    assert!(state.select_next_candidate());
    assert_eq!(state.place_candidate(), Some(Placement { tile: 3, rotation: RotateCW::Zero }));
    // The first candidate follows the last.
    assert!(state.select_next_candidate());
    assert_eq!(state.place_candidate(), Some(Placement { tile: 1, rotation: RotateCW::Zero }));
    // The last candidate precedes the first.
    assert!(state.select_previous_candidate());
    assert_eq!(state.place_candidate(), Some(Placement { tile: 3, rotation: RotateCW::Zero }));
}

#[test]
fn rotation_adds_to_the_original() {
    let mut state = ReplaceTile::maybe_upgrade(&vec![true], addr(), Some(RotateCW::Five)).expect("one tile");
    assert!(state.rotate_candidate_cw());
    assert_eq!(state.net_rotation(), RotateCW::Zero);
    assert!(state.rotate_candidate_cw());
    assert_eq!(state.net_rotation(), RotateCW::One);
    assert!(state.rotate_candidate_anti_cw());
    assert!(state.rotate_candidate_anti_cw());
    assert!(state.rotate_candidate_anti_cw());
    assert_eq!(state.net_rotation(), RotateCW::Four);
}

#[test]
fn original_tile_blocks_changes() {
    let mut state = ReplaceTile::with_any(2, addr(), None).expect("two tiles");
    state.toggle_original_tile();
    assert!(!state.select_next_candidate());
    assert!(!state.select_previous_candidate());
    assert!(!state.rotate_candidate_cw());
    assert!(!state.rotate_candidate_anti_cw());
    assert_eq!(state.place_candidate(), None);
    assert_eq!(
        state.key_press(ReplaceTileAction::Place),
        ReplaceStep::Exit { addr: addr(), response: UiResponse::NoResponse, place: None }
    );
    state.toggle_original_tile();
    assert_eq!(state.key_press(ReplaceTileAction::NextCandidate), ReplaceStep::Stay(UiResponse::Redraw));
    assert_eq!(state.key_press(ReplaceTileAction::RotateCw), ReplaceStep::Stay(UiResponse::Redraw));
    assert_eq!(
        state.key_press(ReplaceTileAction::Place),
        ReplaceStep::Exit {
            addr: addr(),
            response: UiResponse::Redraw,
            place: Some(Placement { tile: 1, rotation: RotateCW::One }),
        }
    );
    assert_eq!(
        state.key_press(ReplaceTileAction::Discard),
        ReplaceStep::Exit { addr: addr(), response: UiResponse::Redraw, place: None }
    );
    assert_eq!(state.key_press(ReplaceTileAction::ToggleOriginal), ReplaceStep::Stay(UiResponse::Redraw));
    assert_eq!(state.key_press(ReplaceTileAction::RotateAntiCw), ReplaceStep::Stay(UiResponse::NoResponse));
}
