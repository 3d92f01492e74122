//! Replacing the tile on a hex with another tile: stepping through the
//! candidate tiles, rotating the candidate, and choosing one.
use vstd::prelude::*;
use crate::hex::{rotation_of, rotation_steps, HexAddress, RotateCW};
use crate::ui::{ReplaceTileAction, UiResponse};

verus! {

/// A tile, by its index among the available tiles, placed with a rotation.
#[derive(Debug, Clone, Copy, PartialEq, Eq, Structural)]
pub struct Placement {
    pub tile: usize,
    pub rotation: RotateCW,
}

/// What the replace-tile mode does in response to a key binding.
#[derive(Debug, Clone, Copy, PartialEq, Eq, Structural)]
pub enum ReplaceStep {
    /// Remain in this mode, and respond as given.
    Stay(UiResponse),
    /// Return to the default mode with the given hex selected, respond as
    /// given, and place the given tile (by index) with the given rotation,
    /// if any.
    Exit { addr: HexAddress, response: UiResponse, place: Option<Placement> },
}

/// The indices `0 .. n`, in order.
pub open spec fn all_indices(n: nat) -> Seq<usize> {
    Seq::new(n, |i: int| i as usize)
}

/// The indices of the tiles that are eligible, in order.
pub open spec fn eligible_indices(eligible: Seq<bool>) -> Seq<usize>
    decreases eligible.len(),
{
    if eligible.len() == 0 {
        Seq::empty()
    } else {
        let rest = eligible_indices(eligible.drop_last());
        if eligible.last() {
            rest.push((eligible.len() - 1) as usize)
        } else {
            rest
        }
    }
}

/// The position after `i` among `n` positions, the first after the last.
pub open spec fn next_index(i: nat, n: nat) -> nat {
    if i + 1 == n {
        0
    } else {
        i + 1
    }
}

/// The position before `i` among `n` positions, the last before the first.
pub open spec fn previous_index(i: nat, n: nat) -> nat {
    if i == 0 {
        (n - 1) as nat
    } else {
        (i - 1) as nat
    }
}

/// Selecting the next candidate and then the previous one, or the previous
/// and then the next, selects the same candidate as before.
pub proof fn lemma_next_previous_inverse(i: nat, n: nat)
    requires
        i < n,
    ensures
        previous_index(next_index(i, n), n) == i,
        next_index(previous_index(i, n), n) == i,
        next_index(i, n) < n,
        previous_index(i, n) < n,
{
}

/// Asks for a redraw if something changed.
fn redraw_if(changed: bool) -> (r: UiResponse)
    ensures
        r == if changed {
            UiResponse::Redraw
        } else {
            UiResponse::NoResponse
        },
{
    if changed {
        UiResponse::Redraw
    } else {
        UiResponse::NoResponse
    }
}

/// Replacing one tile with another.
pub struct ReplaceTile {
    active_hex: HexAddress,
    candidates: Vec<usize>,
    selected: usize,
    show_original: bool,
    extra_rotation: RotateCW,
    original_rotation: RotateCW,
}

impl ReplaceTile {
    #[verifier::type_invariant]
    spec fn has_selection(self) -> bool {
        self.selected < self.candidates@.len()
    }

    /// The hex whose tile is being replaced.
    pub closed spec fn hex(&self) -> HexAddress {
        self.active_hex
    }

    /// The indices of the candidate tiles.
    pub closed spec fn candidates_spec(&self) -> Seq<usize> {
        self.candidates@
    }

    /// The position of the selected candidate among the candidates.
    pub closed spec fn selected_spec(&self) -> nat {
        self.selected as nat
    }

    /// Whether the original tile is shown, rather than the candidate.
    pub closed spec fn showing_original(&self) -> bool {
        self.show_original
    }

    /// The rotation of the candidate with respect to the original tile.
    pub closed spec fn extra(&self) -> RotateCW {
        self.extra_rotation
    }

    /// The rotation of the original tile, if any.
    pub closed spec fn original(&self) -> RotateCW {
        self.original_rotation
    }

    /// A fresh state with the given candidates: the first selected, shown
    /// with no extra rotation.
    pub closed spec fn fresh(
        addr: HexAddress,
        candidates: Seq<usize>,
        original: RotateCW,
        s: ReplaceTile,
    ) -> bool {
        &&& s.hex() == addr
        &&& s.candidates_spec() == candidates
        &&& s.selected_spec() == 0
        &&& !s.showing_original()
        &&& s.extra() == RotateCW::Zero
        &&& s.original() == original
    }

    /// Offers every one of the `num_tiles` available tiles as a candidate for
    /// the hex, whose tile (if any) has the rotation `current_rotation`;
    /// returns `None` if there are no tiles.
    pub fn with_any(num_tiles: usize, addr: HexAddress, current_rotation: Option<RotateCW>) -> (r: Option<Self>)
        ensures
            r is None <==> num_tiles == 0,
            r matches Some(s) ==> Self::fresh(
                addr,
                all_indices(num_tiles as nat),
                match current_rotation {
                    Some(rot) => rot,
                    None => RotateCW::Zero,
                },
                s,
            ),
    {
        if num_tiles == 0 {
            return None;
        }
        let mut candidates: Vec<usize> = Vec::new();
        let mut i: usize = 0;
        while i < num_tiles
            invariant
                i <= num_tiles,
                candidates@ == all_indices(i as nat),
            decreases num_tiles - i,
        {
            candidates.push(i);
            i = i + 1;
            assert(candidates@ =~= all_indices(i as nat));
        }
        let original_rotation = match current_rotation {
            Some(rot) => rot,
            None => RotateCW::Zero,
        };
        Some(
            ReplaceTile {
                active_hex: addr,
                candidates,
                selected: 0,
                show_original: false,
                extra_rotation: RotateCW::Zero,
                original_rotation,
            },
        )
    }

    /// Offers as candidates for the hex the available tiles that are
    /// eligible (`eligible[i]` says whether the `i`th tile may be placed
    /// there): for a hex with a tile, with rotation `current_rotation`, the
    /// tiles it may be upgraded to; for an empty hex (`current_rotation` is
    /// `None`), the tiles that may be placed on it. Returns `None` if no tile
    /// is eligible.
    pub fn maybe_upgrade(eligible: &Vec<bool>, addr: HexAddress, current_rotation: Option<RotateCW>) -> (r: Option<
        Self,
    >)
        ensures
            r is None <==> eligible_indices(eligible@).len() == 0,
            r matches Some(s) ==> Self::fresh(
                addr,
                eligible_indices(eligible@),
                match current_rotation {
                    Some(rot) => rot,
                    None => RotateCW::Zero,
                },
                s,
            ),
    {
        let mut candidates: Vec<usize> = Vec::new();
        let mut i: usize = 0;
        while i < eligible.len()
            invariant
                i <= eligible@.len(),
                candidates@ == eligible_indices(eligible@.take(i as int)),
            decreases eligible@.len() - i,
        {
            assert(eligible@.take(i + 1).drop_last() =~= eligible@.take(i as int));
            if eligible[i] {
                candidates.push(i);
            }
            i = i + 1;
        }
        assert(eligible@.take(eligible@.len() as int) =~= eligible@);
        if candidates.len() == 0 {
            return None;
        }
        let original_rotation = match current_rotation {
            Some(rot) => rot,
            None => RotateCW::Zero,
        };
        Some(
            ReplaceTile {
                active_hex: addr,
                candidates,
                selected: 0,
                show_original: false,
                extra_rotation: RotateCW::Zero,
                original_rotation,
            },
        )
    }

    /// Returns the hex whose tile is being replaced.
    pub fn active_hex(&self) -> (a: HexAddress)
        ensures
            a == self.hex(),
    {
        self.active_hex
    }

    /// Returns the rotation with which the candidate would be placed: that of
    /// the original tile, followed by the candidate's own.
    pub fn net_rotation(&self) -> (r: RotateCW)
        ensures
            r == rotation_of(rotation_steps(self.original()) + rotation_steps(self.extra())),
    {
        self.original_rotation.plus(&self.extra_rotation)
    }

    /// Returns the tile (by index) and rotation that replace the original
    /// tile, unless the original tile is shown.
    pub fn place_candidate(&self) -> (r: Option<Placement>)
        ensures
            self.showing_original() <==> r is None,
            self.selected_spec() < self.candidates_spec().len(),
            r matches Some(p) ==> p == (Placement {
                tile: self.candidates_spec()[self.selected_spec() as int],
                rotation: rotation_of(rotation_steps(self.original()) + rotation_steps(self.extra())),
            }),
    {
        proof {
            use_type_invariant(self);
        }
        if self.show_original {
            None
        } else {
            Some(Placement { tile: self.candidates[self.selected], rotation: self.net_rotation() })
        }
    }

    /// Shows the original tile if the candidate is shown, and the candidate
    /// if the original tile is shown.
    pub fn toggle_original_tile(&mut self)
        ensures
            final(self).showing_original() == !old(self).showing_original(),
            final(self).hex() == old(self).hex(),
            final(self).candidates_spec() == old(self).candidates_spec(),
            final(self).selected_spec() == old(self).selected_spec(),
            final(self).extra() == old(self).extra(),
            final(self).original() == old(self).original(),
    {
        proof {
            use_type_invariant(&*self);
        }
        self.show_original = !self.show_original;
    }

    /// Selects the previous candidate, the last after the first; returns
    /// whether the selection changed, which it does not while the original
    /// tile is shown.
    pub fn select_previous_candidate(&mut self) -> (changed: bool)
        ensures
            changed == !old(self).showing_original(),
            final(self).selected_spec() == if changed {
                previous_index(old(self).selected_spec(), old(self).candidates_spec().len())
            } else {
                old(self).selected_spec()
            },
            final(self).showing_original() == old(self).showing_original(),
            final(self).hex() == old(self).hex(),
            final(self).candidates_spec() == old(self).candidates_spec(),
            final(self).extra() == old(self).extra(),
            final(self).original() == old(self).original(),
    {
        proof {
            use_type_invariant(&*self);
        }
        if self.show_original {
            false
        } else {
            if self.selected == 0 {
                self.selected = self.candidates.len() - 1;
            } else {
                self.selected = self.selected - 1;
            }
            true
        }
    }

    /// Selects the next candidate, the first after the last; returns whether
    /// the selection changed, which it does not while the original tile is
    /// shown.
    pub fn select_next_candidate(&mut self) -> (changed: bool)
        ensures
            changed == !old(self).showing_original(),
            final(self).selected_spec() == if changed {
                next_index(old(self).selected_spec(), old(self).candidates_spec().len())
            } else {
                old(self).selected_spec()
            },
            final(self).showing_original() == old(self).showing_original(),
            final(self).hex() == old(self).hex(),
            final(self).candidates_spec() == old(self).candidates_spec(),
            final(self).extra() == old(self).extra(),
            final(self).original() == old(self).original(),
    {
        proof {
            use_type_invariant(&*self);
        }
        if self.show_original {
            false
        } else {
            if self.selected >= self.candidates.len() - 1 {
                self.selected = 0;
            } else {
                self.selected = self.selected + 1;
            }
            true
        }
    }

    /// Turns the candidate one face anti-clockwise; returns whether it
    /// turned, which it does not while the original tile is shown.
    pub fn rotate_candidate_anti_cw(&mut self) -> (changed: bool)
        ensures
            changed == !old(self).showing_original(),
            final(self).extra() == if changed {
                rotation_of(rotation_steps(old(self).extra()) + 5)
            } else {
                old(self).extra()
            },
            final(self).showing_original() == old(self).showing_original(),
            final(self).hex() == old(self).hex(),
            final(self).candidates_spec() == old(self).candidates_spec(),
            final(self).selected_spec() == old(self).selected_spec(),
            final(self).original() == old(self).original(),
    {
        proof {
            use_type_invariant(&*self);
        }
        if self.show_original {
            false
        } else {
            self.extra_rotation = self.extra_rotation.rotate_anti_cw();
            true
        }
    }

    /// Turns the candidate one face clockwise; returns whether it turned,
    /// which it does not while the original tile is shown.
    pub fn rotate_candidate_cw(&mut self) -> (changed: bool)
        ensures
            changed == !old(self).showing_original(),
            final(self).extra() == if changed {
                rotation_of(rotation_steps(old(self).extra()) + 1)
            } else {
                old(self).extra()
            },
            final(self).showing_original() == old(self).showing_original(),
            final(self).hex() == old(self).hex(),
            final(self).candidates_spec() == old(self).candidates_spec(),
            final(self).selected_spec() == old(self).selected_spec(),
            final(self).original() == old(self).original(),
    {
        proof {
            use_type_invariant(&*self);
        }
        if self.show_original {
            false
        } else {
            self.extra_rotation = self.extra_rotation.rotate_cw();
            true
        }
    }

    /// Responds to a key binding of the replace-tile mode: discarding or
    /// placing the candidate returns to the default mode, and the other
    /// bindings change the candidate, asking for a redraw when it changed.
    pub fn key_press(&mut self, action: ReplaceTileAction) -> (step: ReplaceStep)
        ensures
            final(self).hex() == old(self).hex(),
            final(self).candidates_spec() == old(self).candidates_spec(),
            final(self).original() == old(self).original(),
            match action {
                ReplaceTileAction::Discard => step == (ReplaceStep::Exit {
                    addr: old(self).hex(),
                    response: UiResponse::Redraw,
                    place: None,
                }) && *final(self) == *old(self),
                ReplaceTileAction::Place => step == (ReplaceStep::Exit {
                    addr: old(self).hex(),
                    response: if old(self).showing_original() {
                        UiResponse::NoResponse
                    } else {
                        UiResponse::Redraw
                    },
                    place: if old(self).showing_original() {
                        None
                    } else {
                        Some(
                            Placement {
                                tile: old(self).candidates_spec()[old(self).selected_spec() as int],
                                rotation: rotation_of(
                                    rotation_steps(old(self).original()) + rotation_steps(old(self).extra()),
                                ),
                            },
                        )
                    },
                }) && *final(self) == *old(self),
                ReplaceTileAction::ToggleOriginal => step == ReplaceStep::Stay(UiResponse::Redraw)
                    && final(self).showing_original() == !old(self).showing_original()
                    && final(self).selected_spec() == old(self).selected_spec()
                    && final(self).extra() == old(self).extra(),
                _ => step == ReplaceStep::Stay(
                    if old(self).showing_original() {
                        UiResponse::NoResponse
                    } else {
                        UiResponse::Redraw
                    },
                ) && final(self).showing_original() == old(self).showing_original(),
            },
            action == ReplaceTileAction::PreviousCandidate ==> final(self).extra() == old(self).extra()
                && final(self).selected_spec() == if old(self).showing_original() {
                old(self).selected_spec()
            } else {
                previous_index(old(self).selected_spec(), old(self).candidates_spec().len())
            },
            action == ReplaceTileAction::NextCandidate ==> final(self).extra() == old(self).extra()
                && final(self).selected_spec() == if old(self).showing_original() {
                old(self).selected_spec()
            } else {
                next_index(old(self).selected_spec(), old(self).candidates_spec().len())
            },
            action == ReplaceTileAction::RotateAntiCw ==> final(self).selected_spec() == old(self).selected_spec()
                && final(self).extra() == if old(self).showing_original() {
                old(self).extra()
            } else {
                rotation_of(rotation_steps(old(self).extra()) + 5)
            },
            action == ReplaceTileAction::RotateCw ==> final(self).selected_spec() == old(self).selected_spec()
                && final(self).extra() == if old(self).showing_original() {
                old(self).extra()
            } else {
                rotation_of(rotation_steps(old(self).extra()) + 1)
            },
    {
        match action {
            ReplaceTileAction::Discard => ReplaceStep::Exit {
                addr: self.active_hex,
                response: UiResponse::Redraw,
                place: None,
            },
            ReplaceTileAction::Place => {
                let place = self.place_candidate();
                ReplaceStep::Exit { addr: self.active_hex, response: redraw_if(place.is_some()), place }
            },
            ReplaceTileAction::ToggleOriginal => {
                self.toggle_original_tile();
                ReplaceStep::Stay(UiResponse::Redraw)
            },
            ReplaceTileAction::PreviousCandidate => ReplaceStep::Stay(redraw_if(self.select_previous_candidate())),
            ReplaceTileAction::NextCandidate => ReplaceStep::Stay(redraw_if(self.select_next_candidate())),
            ReplaceTileAction::RotateAntiCw => ReplaceStep::Stay(redraw_if(self.rotate_candidate_anti_cw())),
            ReplaceTileAction::RotateCw => ReplaceStep::Stay(redraw_if(self.rotate_candidate_cw())),
        }
    }
}

} // verus!
