//! The default state of the user interface: selecting a hex, and choosing
//! what to do with it.
//!
//! The state decides; the caller does the work on the map and the screen
//! that a decision asks for, and reports back where that work leads.
use vstd::prelude::*;
use crate::hex::HexAddress;
use crate::ui::{DefaultAction, UiResponse};

verus! {

/// A direction in which the active hex may move.
#[derive(Debug, Copy, Clone, PartialEq, Eq, Structural)]
pub enum Direction {
    /// To the previous column.
    Left,
    /// To the next column.
    Right,
    /// To the previous row.
    Up,
    /// To the next row.
    Down,
}

/// What the default state asks for in response to a key press.
#[derive(Debug, Copy, Clone, PartialEq, Eq, Structural)]
pub enum DefaultStep {
    /// Nothing: there is no active hex, or the key has no binding.
    Stay,
    /// Replace the tile on the hex with any tile.
    ReplaceAny { addr: HexAddress },
    /// Ask for the current game phase.
    SelectPhase,
    /// Select a company and trains, and find the best routes, starting from
    /// the active hex, if any.
    FindRoutes { addr: Option<HexAddress> },
    /// Edit the tokens on the hex, if it holds any token spaces.
    EditTokens { addr: HexAddress },
    /// Offer the tiles that may upgrade the hex's tile, or be placed on the
    /// empty hex.
    UpgradeTile { addr: HexAddress },
    /// Find the hex next to the given hex in the given direction, and make
    /// it active (see [`Default::moved`]).
    Move { addr: HexAddress, dir: Direction },
    /// Rotate the hex's tile anti-clockwise, and redraw.
    RotateAntiCw { addr: HexAddress },
    /// Rotate the hex's tile clockwise, and redraw.
    RotateCw { addr: HexAddress },
    /// Remove the hex's tile, and redraw.
    RemoveTile { addr: HexAddress },
}

/// The step that an action asks for, given the active hex.
pub open spec fn default_step(active: Option<HexAddress>, action: DefaultAction) -> DefaultStep {
    match action {
        DefaultAction::SelectPhase => DefaultStep::SelectPhase,
        DefaultAction::FindRoutes => DefaultStep::FindRoutes { addr: active },
        _ => match active {
            None => DefaultStep::Stay,
            Some(addr) => match action {
                DefaultAction::ReplaceTile => DefaultStep::ReplaceAny { addr },
                DefaultAction::EditTokens => DefaultStep::EditTokens { addr },
                DefaultAction::UpgradeTile => DefaultStep::UpgradeTile { addr },
                DefaultAction::MoveLeft => DefaultStep::Move { addr, dir: Direction::Left },
                DefaultAction::MoveRight => DefaultStep::Move { addr, dir: Direction::Right },
                DefaultAction::MoveUp => DefaultStep::Move { addr, dir: Direction::Up },
                DefaultAction::MoveDown => DefaultStep::Move { addr, dir: Direction::Down },
                DefaultAction::RotateAntiCw => DefaultStep::RotateAntiCw { addr },
                DefaultAction::RotateCw => DefaultStep::RotateCw { addr },
                _ => DefaultStep::RemoveTile { addr },
            },
        },
    }
}

/// The default state: selecting a tile.
pub struct Default {
    active_hex: Option<HexAddress>,
}

impl Default {
    /// The hex that is currently selected, if any.
    pub closed spec fn active(&self) -> Option<HexAddress> {
        self.active_hex
    }

    /// Returns the default state for a map, with the map's default hex (if
    /// it has one) selected.
    pub fn new(default_hex: Option<HexAddress>) -> (s: Self)
        ensures
            s.active() == default_hex,
    {
        Default { active_hex: default_hex }
    }

    /// Returns the default state with the given hex (if any) selected.
    pub fn at_hex(addr: Option<HexAddress>) -> (s: Self)
        ensures
            s.active() == addr,
    {
        Default { active_hex: addr }
    }

    /// Returns the hex that is currently selected, if any.
    pub fn active_hex(&self) -> (a: Option<HexAddress>)
        ensures
            a == self.active(),
    {
        self.active_hex
    }

    /// Returns the step that an action of the default key bindings asks
    /// for: actions on a hex need an active hex, and otherwise do nothing.
    pub fn key_press(&self, action: DefaultAction) -> (step: DefaultStep)
        ensures
            step == default_step(self.active(), action),
    {
        match action {
            DefaultAction::SelectPhase => DefaultStep::SelectPhase,
            DefaultAction::FindRoutes => DefaultStep::FindRoutes { addr: self.active_hex },
            _ => match self.active_hex {
                None => DefaultStep::Stay,
                Some(addr) => match action {
                    DefaultAction::ReplaceTile => DefaultStep::ReplaceAny { addr },
                    DefaultAction::EditTokens => DefaultStep::EditTokens { addr },
                    DefaultAction::UpgradeTile => DefaultStep::UpgradeTile { addr },
                    DefaultAction::MoveLeft => DefaultStep::Move { addr, dir: Direction::Left },
                    DefaultAction::MoveRight => DefaultStep::Move { addr, dir: Direction::Right },
                    DefaultAction::MoveUp => DefaultStep::Move { addr, dir: Direction::Up },
                    DefaultAction::MoveDown => DefaultStep::Move { addr, dir: Direction::Down },
                    DefaultAction::RotateAntiCw => DefaultStep::RotateAntiCw { addr },
                    DefaultAction::RotateCw => DefaultStep::RotateCw { addr },
                    _ => DefaultStep::RemoveTile { addr },
                },
            },
        }
    }

    /// Selects the hex that a move from the active hex reached, and returns
    /// whether the map must be redrawn: a move that stays on the active hex
    /// (at the edge of the map) changes nothing.
    pub fn moved(&mut self, new_addr: HexAddress) -> (r: UiResponse)
        ensures
            match old(self).active() {
                Some(addr) if addr != new_addr => {
                    &&& final(self).active() == Some(new_addr)
                    &&& r == UiResponse::Redraw
                },
                _ => {
                    &&& final(self).active() == old(self).active()
                    &&& r == UiResponse::NoResponse
                },
            },
    {
        match self.active_hex {
            Some(addr) => {
                if new_addr == addr {
                    UiResponse::NoResponse
                } else {
                    self.active_hex = Some(new_addr);
                    UiResponse::Redraw
                }
            },
            None => UiResponse::NoResponse,
        }
    }

    /// Selects the hex that the user clicked on, if any, and returns whether
    /// the map must be redrawn.
    pub fn clicked(&mut self, addr: Option<HexAddress>) -> (r: UiResponse)
        ensures
            match addr {
                Some(a) => final(self).active() == Some(a) && r == UiResponse::Redraw,
                None => final(self).active() == old(self).active() && r == UiResponse::NoResponse,
            },
    {
        match addr {
            Some(a) => {
                self.active_hex = Some(a);
                UiResponse::Redraw
            },
            None => UiResponse::NoResponse,
        }
    }
}

} // verus!
