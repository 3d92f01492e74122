use navig18xx::edit_tokens::{EditStep, EditTokens};
use navig18xx::hex::HexAddress;
use navig18xx::io::{CityRotation, Rotation};
use navig18xx::token::{Colour, Token, TokenStyle, Tokens};
use navig18xx::ui::{EditTokensAction, UiResponse};
use navig18xx::upgrade::{TokenSpace, TokenTable};

fn token(r: usize) -> Token {
    Token::new(TokenStyle::SideArcs {
        fg: Colour::from((r, 0, 0)),
        bg: Colour::from((0, r, 0)),
        text: Colour::from((0, 0, r)),
    })
}

fn company_tokens() -> Tokens {
    Tokens::new(vec![("A".to_string(), token(1)), ("B".to_string(), token(2))])
}

fn placed_a() -> TokenTable<Token> {
    let mut t = TokenTable::new();
    t.insert(TokenSpace::new(0, 0), token(1));
    t
}

fn addr() -> HexAddress {
    HexAddress::new(3, 4)
}

#[test]
fn edit_tokens_needs_token_spaces() {
    assert!(EditTokens::try_new(addr(), false, vec![], TokenTable::new()).is_none());
    assert!(EditTokens::try_new(addr(), true, vec![TokenSpace::new(0, 0)], TokenTable::new()).is_none());
    let state = EditTokens::try_new(addr(), false, vec![TokenSpace::new(0, 0), TokenSpace::new(0, 1)], placed_a())
        .expect("two token spaces");
    assert_eq!(state.selected_space(), TokenSpace::new(0, 0));
}

#[test]
fn edit_tokens_cycle_and_discard() {
    let tokens = company_tokens();
    let spaces = vec![TokenSpace::new(0, 0), TokenSpace::new(0, 1)];
    let mut state = EditTokens::try_new(addr(), false, spaces, placed_a()).expect("two token spaces");
    let mut placed = placed_a();
    // The token after "A" is "B", and the token after "B" is "A" again.
    assert_eq!(state.key_press(EditTokensAction::NextToken, &mut placed, &tokens), EditStep::Stay(UiResponse::Redraw));
    assert_eq!(placed.get(&TokenSpace::new(0, 0)), Some(token(2)));
    state.key_press(EditTokensAction::NextToken, &mut placed, &tokens);
    assert_eq!(placed.get(&TokenSpace::new(0, 0)), Some(token(1)));
    // An empty space receives the first token going forwards, and the last
    // going backwards.
    state.key_press(EditTokensAction::NextTokenSpace, &mut placed, &tokens);
    assert_eq!(state.selected_space(), TokenSpace::new(0, 1));
    state.key_press(EditTokensAction::PreviousToken, &mut placed, &tokens);
    assert_eq!(placed.get(&TokenSpace::new(0, 1)), Some(token(2)));
    state.key_press(EditTokensAction::ClearTokenSpace, &mut placed, &tokens);
    assert_eq!(placed.get(&TokenSpace::new(0, 1)), None);
    state.key_press(EditTokensAction::NextTokenSpace, &mut placed, &tokens);
    assert_eq!(state.selected_space(), TokenSpace::new(0, 0));
    state.key_press(EditTokensAction::PreviousTokenSpace, &mut placed, &tokens);
    assert_eq!(state.selected_space(), TokenSpace::new(0, 1));
    state.key_press(EditTokensAction::NextToken, &mut placed, &tokens);
    assert_eq!(placed.len(), 2);
    // Discarding the edits restores the original tokens.
    assert_eq!(state.key_press(EditTokensAction::Discard, &mut placed, &tokens), EditStep::Exit { addr: addr() });
    assert_eq!(placed.len(), 1);
    assert_eq!(placed.get(&TokenSpace::new(0, 0)), Some(token(1)));
    assert_eq!(state.key_press(EditTokensAction::Accept, &mut placed, &tokens), EditStep::Exit { addr: addr() });
}

#[test]
fn city_rotation_descriptions() {
    assert_eq!(CityRotation::from_rot(Rotation::Zero), None);
    assert_eq!(CityRotation::from_rot(Rotation::Cw90), Some(CityRotation::Cw90));
    assert_eq!(CityRotation::from_rot(Rotation::HalfTurn), Some(CityRotation::HalfTurn));
    assert_eq!(CityRotation::Acw90.into_rot(), Rotation::Acw90);
    assert_eq!(CityRotation::Zero.into_rot(), Rotation::Zero);
}
