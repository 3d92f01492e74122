use navig18xx::io::{CentreLocation, CityPosition, CityTokens, CityType, CornerLocation, Location, TileRotation, TokenColour};
use navig18xx::hex::{HexCorner, HexFace};
use navig18xx::token::{Colour, Token, TokenStyle, Tokens};

fn style(r: usize) -> TokenStyle {
    TokenStyle::TopArcs {
        bg: Colour::from((r, 0, 0)),
        fg: Colour::from((0, r, 0)),
        text: Colour::from((0, 0, r)),
    }
}

fn company_tokens() -> Tokens {
    Tokens::new(vec![
        ("A".to_string(), Token::new(style(1))),
        ("B".to_string(), Token::new(style(2))),
        ("C".to_string(), Token::new(style(3))),
    ])
}

#[test]
fn tokens_cycle_in_both_directions() {
    let tokens = company_tokens();
    let a = tokens.first_token();
    let c = tokens.last_token();
    assert_eq!(tokens.count(), 3);
    assert_eq!(tokens.next_token(&a), Some(tokens.tokens()[1]));
    assert_eq!(tokens.next_token(&c), Some(a));
    assert_eq!(tokens.prev_token(&a), Some(c));
    let absent = Token::new(style(9));
    assert_eq!(tokens.next_token(&absent), None);
    assert_eq!(tokens.prev_token(&absent), None);
}

#[test]
fn tokens_are_found_by_name_and_names_by_token() {
    let tokens = company_tokens();
    assert_eq!(tokens.token("B"), Some(&Token::new(style(2))));
    assert_eq!(tokens.token("Z"), None);
    assert_eq!(tokens.name(&Token::new(style(3))), Some("C"));
    assert_eq!(tokens.names().len(), 3);
}

#[test]
fn token_text_and_colours() {
    let t = Token::new(style(4)).shift_text(30, 70);
    assert_eq!((t.x_pcnt, t.y_pcnt), (30, 70));
    assert_eq!(t.style.text_colour(), &Colour { red: 0, green: 0, blue: 4, alpha: None });
    let written = TokenColour::from(&Colour { red: 1, green: 2, blue: 3, alpha: Some(50) });
    assert_eq!(written, TokenColour { red: 1, green: 2, blue: 3, alpha: Some(50) });
    assert_eq!(Colour::from(&written), Colour { red: 1, green: 2, blue: 3, alpha: Some(50) });
}

#[test]
fn city_descriptions_build_cities() {
    let single = CityType::Single(Location::UpperRightFace).build(20);
    assert_eq!(single.revenue, 20);
    assert_eq!(single.tokens, CityTokens::Single);
    assert_eq!(single.position, CityPosition::Face(HexFace::UpperRight));
    let double = CityType::Double(CornerLocation::LeftCorner).build(30);
    assert_eq!(double.tokens, CityTokens::Double);
    assert_eq!(double.position, CityPosition::Corner(HexCorner::Left));
    let quad = CityType::Quad(CentreLocation::Centre).build(40);
    assert_eq!(quad.tokens, CityTokens::Quadruple);
    assert_eq!(quad.position, CityPosition::Centre);
    assert!(TileRotation::Zero.is_default());
    assert!(!TileRotation::Half.is_default());
}
