//! Showing the best routes found for a company: stepping through the routes
//! one at a time, and the window title that describes what is shown.
use vstd::prelude::*;
use crate::hex::HexAddress;
use crate::skip_train::{decimal, push_decimal};
use crate::token::Token;
use crate::train::{Routes, Train};
use crate::ui::{FoundRoutesAction, UiResponse};

verus! {

/// What the found-routes mode does in response to a key binding.
#[derive(Debug, Clone, Copy, PartialEq, Eq, Structural)]
pub enum FoundStep {
    /// Remain in this mode, and respond as given.
    Stay(UiResponse),
    /// Return to the default mode, with the given hex selected.
    Exit { addr: HexAddress },
    /// Ask how the revenue is paid out.
    ShowDividends,
}

/// The route highlighted after `active` among `n` routes: none is followed
/// by the first, and the last by none.
pub open spec fn next_route(active: Option<usize>, n: nat) -> Option<usize> {
    match active {
        Some(i) => if i + 1 == n {
            None
        } else {
            Some((i + 1) as usize)
        },
        None => Some(0),
    }
}

/// The route highlighted before `active` among `n` routes: none is preceded
/// by the last, and the first by none.
pub open spec fn previous_route(active: Option<usize>, n: nat) -> Option<usize> {
    match active {
        Some(i) => if i == 0 {
            None
        } else {
            Some((i - 1) as usize)
        },
        None => Some((n - 1) as usize),
    }
}

/// Whether `active` names one of `n` routes, or none.
pub open spec fn in_range(active: Option<usize>, n: nat) -> bool {
    active matches Some(i) ==> i < n
}

/// Highlighting the next route and then the previous one, or the previous
/// and then the next, highlights what was highlighted before.
pub proof fn lemma_route_cycle(active: Option<usize>, n: nat)
    requires
        1 <= n <= usize::MAX,
        in_range(active, n),
    ensures
        previous_route(next_route(active, n), n) == active,
        next_route(previous_route(active, n), n) == active,
        in_range(next_route(active, n), n),
        in_range(previous_route(active, n), n),
{
}

/// The window title: the company's name with the net revenue of its routes,
/// or with the name of the train (`train_name`) and the revenue of the
/// highlighted route, or with the words "No routes".
pub open spec fn title_of(
    abbrev: Seq<char>,
    best: Option<(Token, Routes)>,
    active: Option<usize>,
    train_name: Seq<char>,
) -> Seq<char> {
    match best {
        Some((_token, routes)) => match active {
            Some(ix) => {
                let route = routes.train_routes@[ix as int];
                abbrev + " "@ + train_name + "-train: $"@ + decimal(route.revenue as nat)
            },
            None => abbrev + ": $"@ + decimal(routes.net_revenue as nat),
        },
        None => abbrev + ": No routes"@,
    }
}

/// Displays the best routes found for a company.
pub struct Found {
    active_hex: HexAddress,
    abbrev: String,
    best_routes: Option<(Token, Routes)>,
    active_route: Option<usize>,
}

impl Found {
    #[verifier::type_invariant]
    spec fn highlights_a_route(self) -> bool {
        match self.best_routes {
            Some((_token, routes)) => in_range(self.active_route, routes.train_routes@.len()),
            None => self.active_route is None,
        }
    }

    /// The hex that was selected when the search began.
    pub closed spec fn hex(&self) -> HexAddress {
        self.active_hex
    }

    /// The company's abbreviated name.
    pub closed spec fn abbrev_spec(&self) -> Seq<char> {
        self.abbrev@
    }

    /// The company's token and its best routes, if any were found.
    pub closed spec fn best(&self) -> Option<(Token, Routes)> {
        self.best_routes
    }

    /// The highlighted route, if any: otherwise all routes are highlighted.
    pub closed spec fn active(&self) -> Option<usize> {
        self.active_route
    }

    /// The number of routes found.
    pub closed spec fn num_routes(&self) -> nat {
        match self.best_routes {
            Some((_token, routes)) => routes.train_routes@.len(),
            None => 0,
        }
    }

    /// Shows the best routes found for the company, all highlighted.
    pub fn new(active_hex: HexAddress, abbrev: String, best_routes: Option<(Token, Routes)>) -> (s: Self)
        ensures
            s.hex() == active_hex,
            s.abbrev_spec() == abbrev@,
            s.best() == best_routes,
            s.active() is None,
    {
        Found { active_hex, abbrev, best_routes, active_route: None }
    }

    /// Returns the train of the highlighted route, if any.
    pub fn active_train(&self) -> (t: Option<Train>)
        ensures
            t == match (self.best(), self.active()) {
                (Some((_token, routes)), Some(ix)) => Some(routes.train_routes@[ix as int].train),
                _ => None,
            },
    {
        proof {
            use_type_invariant(self);
        }
        match (&self.best_routes, self.active_route) {
            (Some((_token, routes)), Some(ix)) => Some(routes.train_routes[ix].train),
            _ => None,
        }
    }

    /// Returns the hex that was selected when the search began.
    pub fn active_hex(&self) -> (a: HexAddress)
        ensures
            a == self.hex(),
    {
        self.active_hex
    }

    /// Returns the window title, which shows the company name and either the
    /// net revenue, or the name of the train (`train_name`, the game's name
    /// for the train of the highlighted route) and the revenue of the
    /// highlighted route.
    pub fn window_title(&self, train_name: &str) -> (t: String)
        ensures
            t@ == title_of(self.abbrev_spec(), self.best(), self.active(), train_name@),
    {
        proof {
            use_type_invariant(self);
        }
        let mut t = String::new();
        t.append(self.abbrev.as_str());
        match &self.best_routes {
            Some((_token, routes)) => match self.active_route {
                Some(ix) => {
                    let route = &routes.train_routes[ix];
                    t.append(" ");
                    t.append(train_name);
                    t.append("-train: $");
                    push_decimal(&mut t, route.revenue);
                },
                None => {
                    t.append(": $");
                    push_decimal(&mut t, routes.net_revenue);
                },
            },
            None => {
                t.append(": No routes");
            },
        }
        t
    }

    /// Highlights the previous route: none (all routes) before the first,
    /// and the last before none. Returns whether the highlight changed, which
    /// it does only where two or more routes were found.
    pub fn highlight_previous_route(&mut self) -> (changed: bool)
        ensures
            changed == (old(self).num_routes() >= 2),
            final(self).active() == if changed {
                previous_route(old(self).active(), old(self).num_routes())
            } else {
                old(self).active()
            },
            final(self).hex() == old(self).hex(),
            final(self).abbrev_spec() == old(self).abbrev_spec(),
            final(self).best() == old(self).best(),
    {
        proof {
            use_type_invariant(&*self);
        }
        let num_routes = match &self.best_routes {
            Some((_token, routes)) => routes.routes().len(),
            None => 0,
        };
        if num_routes < 2 {
            return false;
        }
        let next = match self.active_route {
            Some(curr_ix) => if curr_ix == 0 {
                None
            } else {
                Some(curr_ix - 1)
            },
            None => Some(num_routes - 1),
        };
        self.active_route = next;
        true
    }

    /// Highlights the next route: the first after none (all routes), and none
    /// after the last. Returns whether the highlight changed, which it does
    /// only where two or more routes were found.
    pub fn highlight_next_route(&mut self) -> (changed: bool)
        ensures
            changed == (old(self).num_routes() >= 2),
            final(self).active() == if changed {
                next_route(old(self).active(), old(self).num_routes())
            } else {
                old(self).active()
            },
            final(self).hex() == old(self).hex(),
            final(self).abbrev_spec() == old(self).abbrev_spec(),
            final(self).best() == old(self).best(),
    {
        proof {
            use_type_invariant(&*self);
        }
        let num_routes = match &self.best_routes {
            Some((_token, routes)) => routes.routes().len(),
            None => 0,
        };
        if num_routes < 2 {
            return false;
        }
        let next = match self.active_route {
            Some(curr_ix) => if curr_ix == num_routes - 1 {
                None
            } else {
                Some(curr_ix + 1)
            },
            None => Some(0),
        };
        self.active_route = next;
        true
    }

    /// Responds to a key binding of the found-routes mode: highlighting the
    /// previous or next route asks for a redraw when the highlight changed.
    pub fn key_press(&mut self, action: FoundRoutesAction) -> (step: FoundStep)
        ensures
            final(self).hex() == old(self).hex(),
            final(self).abbrev_spec() == old(self).abbrev_spec(),
            final(self).best() == old(self).best(),
            match action {
                FoundRoutesAction::Exit => step == (FoundStep::Exit { addr: old(self).hex() })
                    && final(self).active() == old(self).active(),
                FoundRoutesAction::ShowDividends => step == FoundStep::ShowDividends && final(self).active()
                    == old(self).active(),
                FoundRoutesAction::PreviousRoute => if old(self).num_routes() >= 2 {
                    step == FoundStep::Stay(UiResponse::Redraw) && final(self).active() == previous_route(
                        old(self).active(),
                        old(self).num_routes(),
                    )
                } else {
                    step == FoundStep::Stay(UiResponse::NoResponse) && final(self).active() == old(self).active()
                },
                FoundRoutesAction::NextRoute => if old(self).num_routes() >= 2 {
                    step == FoundStep::Stay(UiResponse::Redraw) && final(self).active() == next_route(
                        old(self).active(),
                        old(self).num_routes(),
                    )
                } else {
                    step == FoundStep::Stay(UiResponse::NoResponse) && final(self).active() == old(self).active()
                },
            },
    {
        match action {
            FoundRoutesAction::Exit => FoundStep::Exit { addr: self.active_hex },
            FoundRoutesAction::ShowDividends => FoundStep::ShowDividends,
            FoundRoutesAction::PreviousRoute => {
                if self.highlight_previous_route() {
                    FoundStep::Stay(UiResponse::Redraw)
                } else {
                    FoundStep::Stay(UiResponse::NoResponse)
                }
            },
            FoundRoutesAction::NextRoute => {
                if self.highlight_next_route() {
                    FoundStep::Stay(UiResponse::Redraw)
                } else {
                    FoundStep::Stay(UiResponse::NoResponse)
                }
            },
        }
    }
}

} // verus!
