use navig18xx::default_state::{Default as DefaultState, DefaultStep, Direction};
use navig18xx::hex::HexAddress;
use navig18xx::ui::{
    DefaultAction, DefaultMode, GlobalAction, Key, KeyAction, KeyPress, Keymap, Mode, Submap, UiResponse,
};

fn press(key: Key) -> KeyPress {
    KeyPress { key, ctrl: false, alt: false, shift: false }
}

fn ctrl(key: Key) -> KeyPress {
    KeyPress { key, ctrl: true, alt: false, shift: false }
}

#[test]
fn the_default_keymap_consults_the_global_bindings_first() {
    let keymap = Keymap::default();
    assert_eq!(keymap.handle_key_press(Mode::Default, &press(Key::Char('q'))), Some(KeyAction::Global(GlobalAction::Quit)));
    assert_eq!(
        keymap.handle_key_press(Mode::Default, &press(Key::Char('e'))),
        Some(KeyAction::Default(DefaultAction::ReplaceTile))
    );
    assert_eq!(keymap.handle_key_press(Mode::EditTokens, &press(Key::Char('e'))), None);
    assert_eq!(keymap.handle_key_press(Mode::Default, &ctrl(Key::Char('e'))), None);
}

#[test]
fn an_empty_keymap_binds_nothing() {
    let mut keymap = Keymap::empty();
    assert_eq!(keymap.handle_key_press(Mode::Default, &press(Key::Left)), None);
    keymap.add_submap(Submap::DefaultMode);
    assert_eq!(
        keymap.handle_key_press(Mode::Default, &press(Key::Left)),
        Some(KeyAction::Default(DefaultAction::MoveLeft))
    );
}

#[test]
fn default_mode_bindings() {
    let m = DefaultMode {};
    assert_eq!(m.handle_key_press(Mode::Default, &press(Key::Char('U'))), Some(DefaultAction::UpgradeTile));
    assert_eq!(m.handle_key_press(Mode::Default, &press(Key::Delete)), Some(DefaultAction::RemoveTile));
    assert_eq!(m.handle_key_press(Mode::Default, &press(Key::Char(','))), Some(DefaultAction::RotateAntiCw));
    assert_eq!(m.handle_key_press(Mode::FoundRoutes, &press(Key::Char('U'))), None);
}

#[test]
fn the_default_state_acts_on_its_active_hex() {
    let a = HexAddress::new(2, 3);
    let s = DefaultState::at_hex(Some(a));
    assert_eq!(s.key_press(DefaultAction::ReplaceTile), DefaultStep::ReplaceAny { addr: a });
    assert_eq!(s.key_press(DefaultAction::MoveUp), DefaultStep::Move { addr: a, dir: Direction::Up });
    assert_eq!(s.key_press(DefaultAction::FindRoutes), DefaultStep::FindRoutes { addr: Some(a) });
    let none = DefaultState::new(None);
    assert_eq!(none.key_press(DefaultAction::ReplaceTile), DefaultStep::Stay);
    assert_eq!(none.key_press(DefaultAction::SelectPhase), DefaultStep::SelectPhase);
}

#[test]
fn moving_selects_a_different_hex_and_redraws() {
    let a = HexAddress::new(0, 0);
    let b = HexAddress::new(0, 1);
    let mut s = DefaultState::at_hex(Some(a));
    assert_eq!(s.moved(a), UiResponse::NoResponse);
    assert_eq!(s.active_hex(), Some(a));
    assert_eq!(s.moved(b), UiResponse::Redraw);
    assert_eq!(s.active_hex(), Some(b));
    let mut none = DefaultState::new(None);
    assert_eq!(none.moved(b), UiResponse::NoResponse);
    assert_eq!(none.active_hex(), None);
    assert_eq!(none.clicked(Some(a)), UiResponse::Redraw);
    assert_eq!(none.active_hex(), Some(a));
}
