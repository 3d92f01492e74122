//! Placing tokens on, and removing them from, the token spaces of a tile.
use vstd::prelude::*;
use crate::hex::HexAddress;
use crate::token::{following, preceding, Token, Tokens};
use crate::ui::{EditTokensAction, UiResponse};
use crate::upgrade::{TokenSpace, TokenTable};

verus! {

/// What an edit asks of the caller.
#[derive(Debug, Copy, Clone, PartialEq, Eq, Structural)]
pub enum EditStep {
    /// Remain in this state, and respond as given.
    Stay(UiResponse),
    /// Return to the default state, with the given hex selected.
    Exit { addr: HexAddress },
}

/// Placing or removing tokens from the tile on a hex.
pub struct EditTokens {
    active_hex: HexAddress,
    token_spaces: Vec<TokenSpace>,
    selected: usize,
    original_tokens: TokenTable<Token>,
}

impl EditTokens {
    #[verifier::type_invariant]
    spec fn valid(self) -> bool {
        self.selected < self.token_spaces@.len()
    }

    /// The hex whose tokens are edited.
    pub closed spec fn hex(&self) -> HexAddress {
        self.active_hex
    }

    /// The token spaces of the hex's tile.
    pub closed spec fn spaces(&self) -> Seq<TokenSpace> {
        self.token_spaces@
    }

    /// The position of the selected token space.
    pub closed spec fn selection(&self) -> int {
        self.selected as int
    }

    /// The tokens that the hex held when editing began.
    pub closed spec fn original(&self) -> Map<TokenSpace, Token> {
        self.original_tokens@
    }

    /// Starts editing the tokens of the tile on a hex, with the first token
    /// space selected, unless the tile is an off-board (red) tile or has no
    /// token spaces.
    pub fn try_new(
        addr: HexAddress,
        is_red: bool,
        token_spaces: Vec<TokenSpace>,
        original_tokens: TokenTable<Token>,
    ) -> (r: Option<Self>)
        ensures
            r is None <==> (is_red || token_spaces@.len() == 0),
            r matches Some(e) ==> {
                &&& e.hex() == addr
                &&& e.spaces() == token_spaces@
                &&& e.selection() == 0
                &&& e.original() == original_tokens@
            },
    {
        if is_red {
            return None;
        }
        if token_spaces.len() == 0 {
            return None;
        }
        Some(EditTokens { active_hex: addr, token_spaces, selected: 0, original_tokens })
    }

    /// Returns the token space that is selected.
    pub fn selected_space(&self) -> (t: TokenSpace)
        ensures
            0 <= self.selection() < self.spaces().len(),
            t == self.spaces()[self.selection()],
    {
        proof {
            use_type_invariant(self);
        }
        self.token_spaces[self.selected]
    }

    /// Responds to an action of the edit-tokens key bindings, editing the
    /// tokens placed on the hex (`placed`) as the action asks.
    pub fn key_press(&mut self, action: EditTokensAction, placed: &mut TokenTable<Token>, tokens: &Tokens) -> (step: EditStep)
        requires
            action == EditTokensAction::NextToken || action == EditTokensAction::PreviousToken
                ==> tokens.token_seq().len() > 0,
        ensures
            final(self).hex() == old(self).hex(),
            final(self).spaces() == old(self).spaces(),
            final(self).original() == old(self).original(),
            0 <= old(self).selection() < old(self).spaces().len(),
            ({
                let n = old(self).spaces().len();
                let sel = old(self).selection();
                let space = old(self).spaces()[sel];
                let ts = tokens.token_seq();
                match action {
                    EditTokensAction::Discard => {
                        &&& final(placed)@ == old(self).original()
                        &&& step == EditStep::Exit { addr: old(self).hex() }
                        &&& final(self).selection() == sel
                    },
                    EditTokensAction::Accept => {
                        &&& final(placed)@ == old(placed)@
                        &&& step == EditStep::Exit { addr: old(self).hex() }
                        &&& final(self).selection() == sel
                    },
                    EditTokensAction::PreviousTokenSpace => {
                        &&& final(placed)@ == old(placed)@
                        &&& step == EditStep::Stay(UiResponse::Redraw)
                        &&& final(self).selection() == if sel == 0 { n - 1 } else { sel - 1 }
                    },
                    EditTokensAction::NextTokenSpace => {
                        &&& final(placed)@ == old(placed)@
                        &&& step == EditStep::Stay(UiResponse::Redraw)
                        &&& final(self).selection() == if sel + 1 >= n { 0 } else { sel + 1 }
                    },
                    EditTokensAction::NextToken => {
                        let next = if old(placed)@.dom().contains(space) {
                            match following(ts, old(placed)@[space]) {
                                Some(t) => t,
                                None => ts[0],
                            }
                        } else {
                            ts[0]
                        };
                        &&& final(placed)@ == old(placed)@.insert(space, next)
                        &&& step == EditStep::Stay(UiResponse::Redraw)
                        &&& final(self).selection() == sel
                    },
                    EditTokensAction::PreviousToken => {
                        let prev = if old(placed)@.dom().contains(space) {
                            match preceding(ts, old(placed)@[space]) {
                                Some(t) => t,
                                None => ts.last(),
                            }
                        } else {
                            ts.last()
                        };
                        &&& final(placed)@ == old(placed)@.insert(space, prev)
                        &&& step == EditStep::Stay(UiResponse::Redraw)
                        &&& final(self).selection() == sel
                    },
                    EditTokensAction::ClearTokenSpace => {
                        &&& final(placed)@ == old(placed)@.remove(space)
                        &&& step == EditStep::Stay(UiResponse::Redraw)
                        &&& final(self).selection() == sel
                    },
                }
            }),
    {
        proof {
            use_type_invariant(&*self);
        }
        let space = self.token_spaces[self.selected];
        match action {
            EditTokensAction::Discard => {
                // Revert any edits before leaving this state.
                placed.assign_from(&self.original_tokens);
                EditStep::Exit { addr: self.active_hex }
            },
            EditTokensAction::Accept => EditStep::Exit { addr: self.active_hex },
            EditTokensAction::PreviousTokenSpace => {
                if self.selected == 0 {
                    self.selected = self.token_spaces.len() - 1;
                } else {
                    self.selected = self.selected - 1;
                }
                EditStep::Stay(UiResponse::Redraw)
            },
            EditTokensAction::NextTokenSpace => {
                if self.selected >= self.token_spaces.len() - 1 {
                    self.selected = 0;
                } else {
                    self.selected = self.selected + 1;
                }
                EditStep::Stay(UiResponse::Redraw)
            },
            EditTokensAction::NextToken => {
                let first = tokens.first_token();
                let next = match placed.get(&space) {
                    Some(t) => match tokens.next_token(&t) {
                        Some(n) => n,
                        None => first,
                    },
                    None => first,
                };
                placed.insert(space, next);
                EditStep::Stay(UiResponse::Redraw)
            },
            EditTokensAction::PreviousToken => {
                let last = tokens.last_token();
                let prev = match placed.get(&space) {
                    Some(t) => match tokens.prev_token(&t) {
                        Some(p) => p,
                        None => last,
                    },
                    None => last,
                };
                placed.insert(space, prev);
                EditStep::Stay(UiResponse::Redraw)
            },
            EditTokensAction::ClearTokenSpace => {
                placed.remove(&space);
                EditStep::Stay(UiResponse::Redraw)
            },
        }
    }
}

} // verus!
