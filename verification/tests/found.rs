use navig18xx::found::{Found, FoundStep};
use navig18xx::hex::HexAddress;
use navig18xx::token::{Colour, Token, TokenStyle};
use navig18xx::train::{Route, Routes, Train, TrainRoute};
use navig18xx::ui::{FoundRoutesAction, UiResponse};

fn addr() -> HexAddress {
    HexAddress::new(1, 1)
}

fn token() -> Token {
    Token::new(TokenStyle::SideArcs {
        fg: Colour::from((63, 153, 153)),
        bg: Colour::from((255, 127, 127)),
        text: Colour::from((0, 0, 0)),
    })
}

fn train_route(train: Train, revenue: usize) -> TrainRoute {
    TrainRoute { train, revenue, route: Route { steps: vec![], visits: vec![] } }
}

fn two_routes() -> Routes {
    Routes {
        net_revenue: 150,
        train_routes: vec![train_route(Train::new_2_train(), 60), train_route(Train::new_3_train(), 90)],
    }
}

#[test]
fn found_titles() {
    let none = Found::new(addr(), "PO".to_string(), None);
    assert_eq!(none.window_title("2"), "PO: No routes");
    let mut found = Found::new(addr(), "LP".to_string(), Some((token(), two_routes())));
    assert_eq!(found.window_title("2"), "LP: $150");
    assert!(found.highlight_next_route());
    assert_eq!(found.active_train(), Some(Train::new_2_train()));
    assert_eq!(found.window_title("2"), "LP 2-train: $60");
    assert!(found.highlight_next_route());
    assert_eq!(found.window_title("3"), "LP 3-train: $90");
}

#[test]
fn found_route_cycle() {
    let mut found = Found::new(addr(), "LP".to_string(), Some((token(), two_routes())));
    assert_eq!(found.active_train(), None);
    // None, then the first, the second, and none again.
    assert!(found.highlight_next_route());
    assert!(found.highlight_next_route());
    assert_eq!(found.active_train(), Some(Train::new_3_train()));
    assert!(found.highlight_next_route());
    assert_eq!(found.active_train(), None);
    // Backwards: the last follows none.
    assert!(found.highlight_previous_route());
    assert_eq!(found.active_train(), Some(Train::new_3_train()));
    assert_eq!(found.key_press(FoundRoutesAction::PreviousRoute), FoundStep::Stay(UiResponse::Redraw));
    assert_eq!(found.active_train(), Some(Train::new_2_train()));
    assert_eq!(found.key_press(FoundRoutesAction::NextRoute), FoundStep::Stay(UiResponse::Redraw));
    assert_eq!(found.key_press(FoundRoutesAction::ShowDividends), FoundStep::ShowDividends);
    assert_eq!(found.key_press(FoundRoutesAction::Exit), FoundStep::Exit { addr: addr() });
}

#[test]
fn found_single_route_does_not_cycle() {
    let routes = Routes { net_revenue: 60, train_routes: vec![train_route(Train::new_2_train(), 60)] };
    let mut found = Found::new(addr(), "LP".to_string(), Some((token(), routes)));
    assert!(!found.highlight_next_route());
    assert!(!found.highlight_previous_route());
    assert_eq!(found.key_press(FoundRoutesAction::NextRoute), FoundStep::Stay(UiResponse::NoResponse));
    assert_eq!(found.active_train(), None);
}
