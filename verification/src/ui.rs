//! Responses to keyboard input: which action each key press asks for, in
//! each mode of the user interface.
use vstd::prelude::*;

verus! {

/// A keyboard key, as far as the key bindings tell keys apart.
#[derive(Clone, Copy, Debug, PartialEq, Eq, Structural)]
pub enum Key {
    /// A key that produces a character.
    Char(char),
    Left,
    Right,
    Up,
    Down,
    BackSpace,
    Delete,
    Escape,
    Return,
    /// A key on the numeric keypad that produces the digit zero.
    KeypadZero,
    /// Any other key, by its key code.
    Other(u32),
}

/// Describes a keyboard key being pressed.
#[derive(Clone, Copy, Debug, PartialEq, Eq, Structural)]
pub struct KeyPress {
    /// The key that was pressed.
    pub key: Key,
    /// Whether the Control key was also pressed.
    pub ctrl: bool,
    /// Whether the Alt key was also pressed.
    pub alt: bool,
    /// Whether the Shift key was also pressed.
    pub shift: bool,
}

/// Identify which part of the UI should respond to a "ping".
#[derive(Clone, Copy, Debug, PartialEq, Eq, Structural)]
pub enum PingDest {
    /// Ping the user interface.
    TopLevel,
    /// Ping the current state.
    State,
}

/// UI responses that may be required when the UI state changes.
#[derive(Debug, Copy, Clone, PartialEq, Eq, Structural)]
pub enum UiResponse {
    /// No action required.
    NoResponse,
    /// Quit the application.
    Quit,
    /// Redraw the surface.
    Redraw,
    /// In response to changing the active game, resize the drawing area and
    /// redraw the surface.
    ResetGame,
    /// Increase the hex size.
    ZoomIn,
    /// Decrease the hex size.
    ZoomOut,
}

/// The modes of the user interface.
#[derive(Debug, Copy, Clone, PartialEq, Eq, Structural)]
pub enum Mode {
    /// No game has been started.
    Start,
    /// Selecting a hex.
    Default,
    /// Replacing the tile on a hex.
    ReplaceTile,
    /// Placing and removing tokens on a hex.
    EditTokens,
    /// Choosing a company and trains, and searching for routes.
    FindRoutes,
    /// Showing the routes that were found.
    FoundRoutes,
}

/// The actions that the global key bindings ask for.
#[derive(Debug, Copy, Clone, PartialEq, Eq, Structural)]
pub enum GlobalAction {
    /// Quit the application.
    Quit,
    /// Ask which game to start, and load its starting map.
    NewGame,
    /// Ask for a saved game to load.
    LoadGame,
    /// Ask where to save the current game.
    SaveGame,
    /// Ask where to save an image of the current map.
    SaveScreenshot,
    /// Increase the hex size.
    ZoomIn,
    /// Decrease the hex size.
    ZoomOut,
}

/// The actions that the key bindings of the default mode ask for.
#[derive(Debug, Copy, Clone, PartialEq, Eq, Structural)]
pub enum DefaultAction {
    /// Replace the tile on the active hex with any tile.
    ReplaceTile,
    /// Ask for the current game phase.
    SelectPhase,
    /// Select a company and trains, and find the best routes.
    FindRoutes,
    /// Edit the tokens on the active hex.
    EditTokens,
    /// Upgrade the tile on the active hex, or place a tile on it.
    UpgradeTile,
    /// Make the hex to the left active.
    MoveLeft,
    /// Make the hex to the right active.
    MoveRight,
    /// Make the hex above active.
    MoveUp,
    /// Make the hex below active.
    MoveDown,
    /// Rotate the tile on the active hex anti-clockwise.
    RotateAntiCw,
    /// Rotate the tile on the active hex clockwise.
    RotateCw,
    /// Remove the tile from the active hex.
    RemoveTile,
}

/// The actions that the key bindings of the found-routes mode ask for.
#[derive(Debug, Copy, Clone, PartialEq, Eq, Structural)]
pub enum FoundRoutesAction {
    /// Return to the default mode.
    Exit,
    /// Highlight the previous route.
    PreviousRoute,
    /// Highlight the next route.
    NextRoute,
    /// Ask how the revenue is paid out.
    ShowDividends,
}

/// The actions that the key bindings of the edit-tokens mode ask for.
#[derive(Debug, Copy, Clone, PartialEq, Eq, Structural)]
pub enum EditTokensAction {
    /// Return to the default mode, discarding any changes.
    Discard,
    /// Return to the default mode, keeping the changes.
    Accept,
    /// Select the previous token space.
    PreviousTokenSpace,
    /// Select the next token space.
    NextTokenSpace,
    /// Place the previous token in the token space.
    PreviousToken,
    /// Place the next token in the token space.
    NextToken,
    /// Remove the token from the token space.
    ClearTokenSpace,
}

/// The actions that the key bindings of the replace-tile mode ask for.
#[derive(Debug, Copy, Clone, PartialEq, Eq, Structural)]
pub enum ReplaceTileAction {
    /// Return to the default mode, discarding any changes.
    Discard,
    /// Place the candidate tile, and return to the default mode.
    Place,
    /// Show or hide the original tile.
    ToggleOriginal,
    /// Show the previous candidate tile.
    PreviousCandidate,
    /// Show the next candidate tile.
    NextCandidate,
    /// Rotate the candidate tile anti-clockwise.
    RotateAntiCw,
    /// Rotate the candidate tile clockwise.
    RotateCw,
}

/// The action that a key binding asks for.
#[derive(Debug, Copy, Clone, PartialEq, Eq, Structural)]
pub enum KeyAction {
    Global(GlobalAction),
    Default(DefaultAction),
    FoundRoutes(FoundRoutesAction),
    EditTokens(EditTokensAction),
    ReplaceTile(ReplaceTileAction),
}

/// The key is one of the two characters `lower` and `upper`.
pub open spec fn is_char(k: Key, lower: char, upper: char) -> bool {
    k == Key::Char(lower) || k == Key::Char(upper)
}

/// The global key bindings, which apply regardless of the current mode
/// (some of them not before a game has started).
///
/// - `q`, `Q`: quit;
/// - `Ctrl+n`, `Ctrl+N`: start a new game;
/// - `Ctrl+o`, `Ctrl+O`: load a game;
/// - `Ctrl+s`, `Ctrl+S`: save the game;
/// - `s`, `S`: save a screenshot of the map;
/// - `+`, `=`: zoom in; `-`, `_`: zoom out.
pub open spec fn global_binding(k: Key, ctrl: bool, is_start: bool) -> Option<GlobalAction> {
    if !ctrl && is_char(k, 'q', 'Q') {
        Some(GlobalAction::Quit)
    } else if ctrl && is_char(k, 'n', 'N') {
        Some(GlobalAction::NewGame)
    } else if ctrl && is_char(k, 'o', 'O') {
        Some(GlobalAction::LoadGame)
    } else if is_start {
        None
    } else if ctrl && is_char(k, 's', 'S') {
        Some(GlobalAction::SaveGame)
    } else if !ctrl && is_char(k, 's', 'S') {
        Some(GlobalAction::SaveScreenshot)
    } else if !ctrl && is_char(k, '+', '=') {
        Some(GlobalAction::ZoomIn)
    } else if !ctrl && is_char(k, '-', '_') {
        Some(GlobalAction::ZoomOut)
    } else {
        None
    }
}

/// The key bindings of the default mode (none of them with Control).
pub open spec fn default_binding(k: Key, ctrl: bool) -> Option<DefaultAction> {
    if ctrl {
        None
    } else if is_char(k, 'e', 'E') {
        Some(DefaultAction::ReplaceTile)
    } else if is_char(k, 'p', 'P') {
        Some(DefaultAction::SelectPhase)
    } else if is_char(k, 'r', 'R') {
        Some(DefaultAction::FindRoutes)
    } else if is_char(k, 't', 'T') {
        Some(DefaultAction::EditTokens)
    } else if is_char(k, 'u', 'U') {
        Some(DefaultAction::UpgradeTile)
    } else if k == Key::Left {
        Some(DefaultAction::MoveLeft)
    } else if k == Key::Right {
        Some(DefaultAction::MoveRight)
    } else if k == Key::Up {
        Some(DefaultAction::MoveUp)
    } else if k == Key::Down {
        Some(DefaultAction::MoveDown)
    } else if is_char(k, '<', ',') {
        Some(DefaultAction::RotateAntiCw)
    } else if is_char(k, '>', '.') {
        Some(DefaultAction::RotateCw)
    } else if k == Key::BackSpace || k == Key::Delete {
        Some(DefaultAction::RemoveTile)
    } else {
        None
    }
}

/// The key bindings of the found-routes mode.
pub open spec fn found_routes_binding(k: Key, ctrl: bool) -> Option<FoundRoutesAction> {
    if !ctrl && (k == Key::Escape || k == Key::Return) {
        Some(FoundRoutesAction::Exit)
    } else if k == Key::Left || k == Key::Up {
        Some(FoundRoutesAction::PreviousRoute)
    } else if k == Key::Right || k == Key::Down {
        Some(FoundRoutesAction::NextRoute)
    } else if is_char(k, 'd', 'D') {
        Some(FoundRoutesAction::ShowDividends)
    } else {
        None
    }
}

/// The key bindings of the edit-tokens mode (none of them with Control).
pub open spec fn edit_tokens_binding(k: Key, ctrl: bool) -> Option<EditTokensAction> {
    if ctrl {
        None
    } else if k == Key::Escape {
        Some(EditTokensAction::Discard)
    } else if k == Key::Return {
        Some(EditTokensAction::Accept)
    } else if k == Key::Left {
        Some(EditTokensAction::PreviousTokenSpace)
    } else if k == Key::Right {
        Some(EditTokensAction::NextTokenSpace)
    } else if k == Key::Down {
        Some(EditTokensAction::PreviousToken)
    } else if k == Key::Up {
        Some(EditTokensAction::NextToken)
    } else if k == Key::Char('0') || k == Key::KeypadZero || k == Key::BackSpace || k == Key::Delete {
        Some(EditTokensAction::ClearTokenSpace)
    } else {
        None
    }
}

/// The key bindings of the replace-tile mode (none of them with Control).
pub open spec fn replace_tile_binding(k: Key, ctrl: bool) -> Option<ReplaceTileAction> {
    if ctrl {
        None
    } else if k == Key::Escape {
        Some(ReplaceTileAction::Discard)
    } else if k == Key::Return {
        Some(ReplaceTileAction::Place)
    } else if is_char(k, 'o', 'O') {
        Some(ReplaceTileAction::ToggleOriginal)
    } else if k == Key::Down {
        Some(ReplaceTileAction::PreviousCandidate)
    } else if k == Key::Up {
        Some(ReplaceTileAction::NextCandidate)
    } else if is_char(k, '<', ',') {
        Some(ReplaceTileAction::RotateAntiCw)
    } else if is_char(k, '>', '.') {
        Some(ReplaceTileAction::RotateCw)
    } else {
        None
    }
}

/// Returns whether the key is one of the two characters `lower` and `upper`.
fn key_is(k: Key, lower: char, upper: char) -> (r: bool)
    ensures
        r == is_char(k, lower, upper),
{
    match k {
        Key::Char(c) => c == lower || c == upper,
        _ => false,
    }
}

/// The global keymap defines key bindings that apply regardless of the
/// current UI state.
pub struct Global {}

impl Global {
    /// Returns the action that a key press asks for, if it is bound.
    pub fn handle_key_press(&self, event: &KeyPress, is_start: bool) -> (r: Option<GlobalAction>)
        ensures
            r == global_binding(event.key, event.ctrl, is_start),
    {
        let k = event.key;
        let ctrl = event.ctrl;
        if !ctrl && key_is(k, 'q', 'Q') {
            Some(GlobalAction::Quit)
        } else if ctrl && key_is(k, 'n', 'N') {
            Some(GlobalAction::NewGame)
        } else if ctrl && key_is(k, 'o', 'O') {
            Some(GlobalAction::LoadGame)
        } else if is_start {
            None
        } else if ctrl && key_is(k, 's', 'S') {
            Some(GlobalAction::SaveGame)
        } else if !ctrl && key_is(k, 's', 'S') {
            Some(GlobalAction::SaveScreenshot)
        } else if !ctrl && key_is(k, '+', '=') {
            Some(GlobalAction::ZoomIn)
        } else if !ctrl && key_is(k, '-', '_') {
            Some(GlobalAction::ZoomOut)
        } else {
            None
        }
    }
}

/// The keymap for the default UI mode.
pub struct DefaultMode {}

impl DefaultMode {
    /// Returns the action that a key press asks for in the default mode, if
    /// it is bound.
    pub fn handle_key_press(&self, mode: Mode, event: &KeyPress) -> (r: Option<DefaultAction>)
        ensures
            r == if mode == Mode::Default {
                default_binding(event.key, event.ctrl)
            } else {
                None
            },
    {
        if mode != Mode::Default || event.ctrl {
            return None;
        }
        let k = event.key;
        if key_is(k, 'e', 'E') {
            Some(DefaultAction::ReplaceTile)
        } else if key_is(k, 'p', 'P') {
            Some(DefaultAction::SelectPhase)
        } else if key_is(k, 'r', 'R') {
            Some(DefaultAction::FindRoutes)
        } else if key_is(k, 't', 'T') {
            Some(DefaultAction::EditTokens)
        } else if key_is(k, 'u', 'U') {
            Some(DefaultAction::UpgradeTile)
        } else if k == Key::Left {
            Some(DefaultAction::MoveLeft)
        } else if k == Key::Right {
            Some(DefaultAction::MoveRight)
        } else if k == Key::Up {
            Some(DefaultAction::MoveUp)
        } else if k == Key::Down {
            Some(DefaultAction::MoveDown)
        } else if key_is(k, '<', ',') {
            Some(DefaultAction::RotateAntiCw)
        } else if key_is(k, '>', '.') {
            Some(DefaultAction::RotateCw)
        } else if k == Key::BackSpace || k == Key::Delete {
            Some(DefaultAction::RemoveTile)
        } else {
            None
        }
    }
}

/// The keymap for the found routes UI mode.
pub struct FoundRoutesMode {}

impl FoundRoutesMode {
    /// Returns the action that a key press asks for while showing the routes
    /// that were found, if it is bound.
    pub fn handle_key_press(&self, mode: Mode, event: &KeyPress) -> (r: Option<FoundRoutesAction>)
        ensures
            r == if mode == Mode::FoundRoutes {
                found_routes_binding(event.key, event.ctrl)
            } else {
                None
            },
    {
        if mode != Mode::FoundRoutes {
            return None;
        }
        let k = event.key;
        if !event.ctrl && (k == Key::Escape || k == Key::Return) {
            Some(FoundRoutesAction::Exit)
        } else if k == Key::Left || k == Key::Up {
            Some(FoundRoutesAction::PreviousRoute)
        } else if k == Key::Right || k == Key::Down {
            Some(FoundRoutesAction::NextRoute)
        } else if key_is(k, 'd', 'D') {
            Some(FoundRoutesAction::ShowDividends)
        } else {
            None
        }
    }
}

/// The keymap for the edit tokens UI mode.
pub struct EditTokensMode {}

impl EditTokensMode {
    /// Returns the action that a key press asks for while editing tokens, if
    /// it is bound.
    pub fn handle_key_press(&self, mode: Mode, event: &KeyPress) -> (r: Option<EditTokensAction>)
        ensures
            r == if mode == Mode::EditTokens {
                edit_tokens_binding(event.key, event.ctrl)
            } else {
                None
            },
    {
        if mode != Mode::EditTokens || event.ctrl {
            return None;
        }
        let k = event.key;
        if k == Key::Escape {
            Some(EditTokensAction::Discard)
        } else if k == Key::Return {
            Some(EditTokensAction::Accept)
        } else if k == Key::Left {
            Some(EditTokensAction::PreviousTokenSpace)
        } else if k == Key::Right {
            Some(EditTokensAction::NextTokenSpace)
        } else if k == Key::Down {
            Some(EditTokensAction::PreviousToken)
        } else if k == Key::Up {
            Some(EditTokensAction::NextToken)
        } else if k == Key::Char('0') || k == Key::KeypadZero || k == Key::BackSpace || k == Key::Delete {
            Some(EditTokensAction::ClearTokenSpace)
        } else {
            None
        }
    }
}

/// The keymap for the replace tile UI mode.
pub struct ReplaceTileMode {}

impl ReplaceTileMode {
    /// Returns the action that a key press asks for while replacing a tile,
    /// if it is bound.
    pub fn handle_key_press(&self, mode: Mode, event: &KeyPress) -> (r: Option<ReplaceTileAction>)
        ensures
            r == if mode == Mode::ReplaceTile {
                replace_tile_binding(event.key, event.ctrl)
            } else {
                None
            },
    {
        if mode != Mode::ReplaceTile || event.ctrl {
            return None;
        }
        let k = event.key;
        if k == Key::Escape {
            Some(ReplaceTileAction::Discard)
        } else if k == Key::Return {
            Some(ReplaceTileAction::Place)
        } else if key_is(k, 'o', 'O') {
            Some(ReplaceTileAction::ToggleOriginal)
        } else if k == Key::Down {
            Some(ReplaceTileAction::PreviousCandidate)
        } else if k == Key::Up {
            Some(ReplaceTileAction::NextCandidate)
        } else if key_is(k, '<', ',') {
            Some(ReplaceTileAction::RotateAntiCw)
        } else if key_is(k, '>', '.') {
            Some(ReplaceTileAction::RotateCw)
        } else {
            None
        }
    }
}


impl GlobalAction {
    /// The response that the user interface makes at once: the actions that
    /// ask the user something respond once the user has answered.
    pub fn response(&self) -> (r: UiResponse)
        ensures
            r == match *self {
                GlobalAction::Quit => UiResponse::Quit,
                GlobalAction::ZoomIn => UiResponse::ZoomIn,
                GlobalAction::ZoomOut => UiResponse::ZoomOut,
                _ => UiResponse::NoResponse,
            },
    {
        match self {
            GlobalAction::Quit => UiResponse::Quit,
            GlobalAction::ZoomIn => UiResponse::ZoomIn,
            GlobalAction::ZoomOut => UiResponse::ZoomOut,
            _ => UiResponse::NoResponse,
        }
    }
}

/// A set of key bindings.
#[derive(Debug, Copy, Clone, PartialEq, Eq, Structural)]
pub enum Submap {
    Global,
    DefaultMode,
    ReplaceTileMode,
    EditTokensMode,
    FoundRoutesMode,
}

/// The action that a submap binds to a key press in the given mode, if any.
pub open spec fn submap_binding(submap: Submap, mode: Mode, event: KeyPress) -> Option<KeyAction> {
    match submap {
        Submap::Global => match global_binding(event.key, event.ctrl, mode == Mode::Start) {
            Some(a) => Some(KeyAction::Global(a)),
            None => None,
        },
        Submap::DefaultMode => if mode != Mode::Default {
            None
        } else {
            match default_binding(event.key, event.ctrl) {
                Some(a) => Some(KeyAction::Default(a)),
                None => None,
            }
        },
        Submap::ReplaceTileMode => if mode != Mode::ReplaceTile {
            None
        } else {
            match replace_tile_binding(event.key, event.ctrl) {
                Some(a) => Some(KeyAction::ReplaceTile(a)),
                None => None,
            }
        },
        Submap::EditTokensMode => if mode != Mode::EditTokens {
            None
        } else {
            match edit_tokens_binding(event.key, event.ctrl) {
                Some(a) => Some(KeyAction::EditTokens(a)),
                None => None,
            }
        },
        Submap::FoundRoutesMode => if mode != Mode::FoundRoutes {
            None
        } else {
            match found_routes_binding(event.key, event.ctrl) {
                Some(a) => Some(KeyAction::FoundRoutes(a)),
                None => None,
            }
        },
    }
}

/// The action of the first of `submaps` that binds the key press, if any.
pub open spec fn first_binding(submaps: Seq<Submap>, mode: Mode, event: KeyPress) -> Option<KeyAction>
    decreases submaps.len(),
{
    if submaps.len() == 0 {
        None
    } else {
        match submap_binding(submaps[0], mode, event) {
            Some(a) => Some(a),
            None => first_binding(submaps.drop_first(), mode, event),
        }
    }
}

/// An ordered list of key bindings; the first that binds a key press
/// decides its action.
pub struct Keymap {
    submaps: Vec<Submap>,
}

impl Keymap {
    /// The key bindings, in the order in which they are consulted.
    pub closed spec fn view(&self) -> Seq<Submap> {
        self.submaps@
    }

    /// Returns a keymap without key bindings.
    pub fn empty() -> (k: Self)
        ensures
            k@ == Seq::<Submap>::empty(),
    {
        Keymap { submaps: Vec::new() }
    }

    /// Adds a set of key bindings, after those already present.
    pub fn add_submap(&mut self, submap: Submap)
        ensures
            final(self)@ == old(self)@.push(submap),
    {
        self.submaps.push(submap);
    }

    /// Returns the action of the first key binding that binds the key press
    /// in the given mode, if any.
    pub fn handle_key_press(&self, mode: Mode, event: &KeyPress) -> (r: Option<KeyAction>)
        ensures
            r == first_binding(self@, mode, *event),
    {
        let mut i: usize = 0;
        assert(self@.skip(0) =~= self@);
        while i < self.submaps.len()
            invariant
                i <= self.submaps@.len(),
                first_binding(self@, mode, *event) == first_binding(self@.skip(i as int), mode, *event),
            decreases self.submaps@.len() - i,
        {
            let found = match self.submaps[i] {
                Submap::Global => match (Global {}).handle_key_press(event, mode == Mode::Start) {
                    Some(a) => Some(KeyAction::Global(a)),
                    None => None,
                },
                Submap::DefaultMode => match (DefaultMode {}).handle_key_press(mode, event) {
                    Some(a) => Some(KeyAction::Default(a)),
                    None => None,
                },
                Submap::ReplaceTileMode => match (ReplaceTileMode {}).handle_key_press(mode, event) {
                    Some(a) => Some(KeyAction::ReplaceTile(a)),
                    None => None,
                },
                Submap::EditTokensMode => match (EditTokensMode {}).handle_key_press(mode, event) {
                    Some(a) => Some(KeyAction::EditTokens(a)),
                    None => None,
                },
                Submap::FoundRoutesMode => match (FoundRoutesMode {}).handle_key_press(mode, event) {
                    Some(a) => Some(KeyAction::FoundRoutes(a)),
                    None => None,
                },
            };
            proof {
                let rest = self@.skip(i as int);
                assert(rest[0] == self@[i as int]);
                assert(rest.drop_first() =~= self@.skip(i + 1));
                assert(found == submap_binding(rest[0], mode, *event));
            }
            if found.is_some() {
                return found;
            }
            i = i + 1;
        }
        None
    }
}

impl Default for Keymap {
    fn default() -> (k: Self)
        ensures
            k@ == seq![
                Submap::Global,
                Submap::DefaultMode,
                Submap::ReplaceTileMode,
                Submap::EditTokensMode,
                Submap::FoundRoutesMode,
            ],
    {
        let submaps = vec![
            Submap::Global,
            Submap::DefaultMode,
            Submap::ReplaceTileMode,
            Submap::EditTokensMode,
            Submap::FoundRoutesMode,
        ];
        Keymap { submaps }
    }
}

/// The starting UI state: no game, no map.
pub struct Start {}

impl Start {
    /// Returns the starting state.
    pub fn new() -> (s: Self) {
        Start {}
    }
}

/// Indicates whether the UI should reset to its default state.
///
/// For example, this is required when the global keymap results in a new map
/// being loaded from disk, since the current UI state may not be valid.
#[derive(Debug, Copy, Clone, PartialEq, Eq, Structural)]
pub enum ResetState {
    /// Retain the current UI state.
    No,
    /// Reset the UI state to the default state.
    Yes,
}

} // verus!
