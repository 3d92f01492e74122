//! The trains, bonuses, phases and map of 1867: The Railways Of Canada.
use vstd::prelude::*;
use crate::hex::{HexAddress, RotateCW};
use crate::skip_train::{Bonus, Train};
use crate::token::{first_index_of, lemma_first_index};

verus! {

/// The hexes of the map, by row and column.
pub open spec fn map_hexes() -> Seq<(usize, usize)> {
    seq![
        (0, 3), (0, 4), (0, 5), (1, 2), (1, 3), (1, 4), (1, 5), (1, 6), (1, 7), (2, 1),
        (2, 2), (2, 3), (2, 4), (2, 5), (2, 6), (2, 7), (2, 8), (2, 9), (2, 10), (2, 11),
        (2, 12), (2, 13), (3, 0), (3, 1), (3, 2), (3, 3), (3, 4), (3, 5), (3, 6), (3, 7),
        (3, 8), (3, 9), (3, 10), (3, 11), (3, 12), (3, 13), (3, 14), (3, 15), (4, 2), (4, 3),
        (4, 4), (4, 5), (4, 6), (4, 7), (4, 8), (4, 9), (4, 10), (4, 11), (4, 12), (4, 13),
        (4, 14), (5, 2), (5, 3), (5, 4), (5, 5), (5, 6), (5, 7), (5, 8), (5, 9), (5, 10),
        (5, 11), (5, 12), (5, 13), (5, 14), (6, 2), (6, 3), (6, 4), (6, 5), (6, 6), (6, 7),
        (6, 8), (6, 9), (6, 10), (6, 11), (6, 12), (6, 14), (7, 1), (7, 2), (7, 3), (7, 4),
        (7, 5), (7, 6), (7, 7), (7, 8), (7, 12), (8, 0), (8, 1), (8, 2), (8, 3), (8, 4),
        (8, 5), (9, 0), (9, 2), (9, 4),
    ]
}

/// The hexes of the map, by row and column.
pub fn addrs() -> (r: Vec<(usize, usize)>)
    ensures
        r@ == map_hexes(),
{
    let r = vec![
        (0, 3), (0, 4), (0, 5), (1, 2), (1, 3), (1, 4), (1, 5), (1, 6), (1, 7), (2, 1),
        (2, 2), (2, 3), (2, 4), (2, 5), (2, 6), (2, 7), (2, 8), (2, 9), (2, 10), (2, 11),
        (2, 12), (2, 13), (3, 0), (3, 1), (3, 2), (3, 3), (3, 4), (3, 5), (3, 6), (3, 7),
        (3, 8), (3, 9), (3, 10), (3, 11), (3, 12), (3, 13), (3, 14), (3, 15), (4, 2), (4, 3),
        (4, 4), (4, 5), (4, 6), (4, 7), (4, 8), (4, 9), (4, 10), (4, 11), (4, 12), (4, 13),
        (4, 14), (5, 2), (5, 3), (5, 4), (5, 5), (5, 6), (5, 7), (5, 8), (5, 9), (5, 10),
        (5, 11), (5, 12), (5, 13), (5, 14), (6, 2), (6, 3), (6, 4), (6, 5), (6, 6), (6, 7),
        (6, 8), (6, 9), (6, 10), (6, 11), (6, 12), (6, 14), (7, 1), (7, 2), (7, 3), (7, 4),
        (7, 5), (7, 6), (7, 7), (7, 8), (7, 12), (8, 0), (8, 1), (8, 2), (8, 3), (8, 4),
        (8, 5), (9, 0), (9, 2), (9, 4),
    ];
    assert(r@ =~= map_hexes());
    r
}

/// The tiles that the map starts with: the hex, by row and column, and the
/// tile's name and rotation.
pub open spec fn starting_tiles() -> Seq<((usize, usize), (&'static str, RotateCW))> {
    seq![
        ((7, 7), ("Port2", RotateCW::Zero)),
        ((9, 4), ("Port1", RotateCW::Zero)),
        ((3, 0), ("Sault Ste Marie Yw", RotateCW::Zero)),
        ((3, 15), ("Maritime Provinces Yw", RotateCW::Zero)),
        ((6, 14), ("Maine Yw", RotateCW::Zero)),
        ((7, 12), ("New England Yw", RotateCW::Zero)),
        ((8, 0), ("Detroit2", RotateCW::Zero)),
        ((8, 5), ("Buffalo Yw", RotateCW::Zero)),
        ((9, 0), ("Detroit Yw", RotateCW::Zero)),
        ((0, 3), ("Timmins", RotateCW::Zero)),
        ((0, 4), ("Grey2", RotateCW::One)),
        ((1, 2), ("Grey2", RotateCW::Zero)),
        ((6, 11), ("Grey1", RotateCW::Three)),
        ((7, 1), ("Grey1", RotateCW::Zero)),
        ((4, 7), ("Pembroke", RotateCW::Zero)),
        ((4, 11), ("St Jerome", RotateCW::Zero)),
        ((6, 7), ("Belleville", RotateCW::Zero)),
        ((6, 10), ("Cornwall", RotateCW::Zero)),
        ((6, 12), ("Granby", RotateCW::Zero)),
        ((7, 2), ("Goderich", RotateCW::Zero)),
        ((8, 1), ("Sarnia", RotateCW::Zero)),
        ((3, 3), ("Sudbury", RotateCW::Zero)),
        ((3, 5), ("North Bay", RotateCW::Zero)),
        ((4, 12), ("Trois-Rivières", RotateCW::Zero)),
        ((5, 13), ("Sherbrooke", RotateCW::Zero)),
        ((6, 4), ("Barrie", RotateCW::Zero)),
        ((7, 4), ("Guelph", RotateCW::Zero)),
        ((7, 6), ("Peterborough", RotateCW::Zero)),
        ((7, 8), ("Kingston", RotateCW::Zero)),
        ((8, 2), ("London", RotateCW::Zero)),
        ((3, 14), ("Quebec", RotateCW::Zero)),
        ((5, 9), ("Ottawa", RotateCW::Zero)),
        ((7, 3), ("Berlin", RotateCW::Zero)),
        ((8, 4), ("Hamilton", RotateCW::Zero)),
        ((5, 11), ("Montreal", RotateCW::Zero)),
        ((7, 5), ("Toronto", RotateCW::Zero)),
    ]
}

/// The tiles that the map starts with: the hex, by row and column, and the
/// tile's name and rotation.
pub fn initial_tiles() -> (r: Vec<((usize, usize), (&'static str, RotateCW))>)
    ensures
        r@ == starting_tiles(),
{
    let r = vec![
        ((7, 7), ("Port2", RotateCW::Zero)),
        ((9, 4), ("Port1", RotateCW::Zero)),
        ((3, 0), ("Sault Ste Marie Yw", RotateCW::Zero)),
        ((3, 15), ("Maritime Provinces Yw", RotateCW::Zero)),
        ((6, 14), ("Maine Yw", RotateCW::Zero)),
        ((7, 12), ("New England Yw", RotateCW::Zero)),
        ((8, 0), ("Detroit2", RotateCW::Zero)),
        ((8, 5), ("Buffalo Yw", RotateCW::Zero)),
        ((9, 0), ("Detroit Yw", RotateCW::Zero)),
        ((0, 3), ("Timmins", RotateCW::Zero)),
        ((0, 4), ("Grey2", RotateCW::One)),
        ((1, 2), ("Grey2", RotateCW::Zero)),
        ((6, 11), ("Grey1", RotateCW::Three)),
        ((7, 1), ("Grey1", RotateCW::Zero)),
        ((4, 7), ("Pembroke", RotateCW::Zero)),
        ((4, 11), ("St Jerome", RotateCW::Zero)),
        ((6, 7), ("Belleville", RotateCW::Zero)),
        ((6, 10), ("Cornwall", RotateCW::Zero)),
        ((6, 12), ("Granby", RotateCW::Zero)),
        ((7, 2), ("Goderich", RotateCW::Zero)),
        ((8, 1), ("Sarnia", RotateCW::Zero)),
        ((3, 3), ("Sudbury", RotateCW::Zero)),
        ((3, 5), ("North Bay", RotateCW::Zero)),
        ((4, 12), ("Trois-Rivières", RotateCW::Zero)),
        ((5, 13), ("Sherbrooke", RotateCW::Zero)),
        ((6, 4), ("Barrie", RotateCW::Zero)),
        ((7, 4), ("Guelph", RotateCW::Zero)),
        ((7, 6), ("Peterborough", RotateCW::Zero)),
        ((7, 8), ("Kingston", RotateCW::Zero)),
        ((8, 2), ("London", RotateCW::Zero)),
        ((3, 14), ("Quebec", RotateCW::Zero)),
        ((5, 9), ("Ottawa", RotateCW::Zero)),
        ((7, 3), ("Berlin", RotateCW::Zero)),
        ((8, 4), ("Hamilton", RotateCW::Zero)),
        ((5, 11), ("Montreal", RotateCW::Zero)),
        ((7, 5), ("Toronto", RotateCW::Zero)),
    ];
    assert(r@ =~= starting_tiles());
    r
}

/// What describes a train: its stop limit, whether it may skip dits and
/// cities, and its revenue multiplier.
pub open spec fn train_kind(t: Train) -> (Option<usize>, bool, bool, usize) {
    (t.max_stops_spec(), t.skips_dits(), t.skips_cities(), t.multiplier())
}

/// The trains of the game, in order: the 2- to 8-trains, the 2+2-train and
/// the 5+5E-train.
pub open spec fn game_train_kinds() -> Seq<(Option<usize>, bool, bool, usize)> {
    seq![
        (Some(2usize), true, false, 1usize),
        (Some(3usize), true, false, 1usize),
        (Some(4usize), true, false, 1usize),
        (Some(5usize), true, false, 1usize),
        (Some(6usize), true, false, 1usize),
        (Some(7usize), true, false, 1usize),
        (Some(8usize), true, false, 1usize),
        (Some(2usize), true, false, 2usize),
        (Some(5usize), true, true, 2usize),
    ]
}

/// The names of the game's trains.
pub open spec fn game_train_names() -> Seq<&'static str> {
    seq!["2", "3", "4", "5", "6", "7", "8", "2+2", "5+5E"]
}

/// The names of the game's phases.
pub open spec fn game_phase_names() -> Seq<&'static str> {
    seq!["2", "3", "4", "5", "6", "7", "8"]
}

/// The off-board cities whose tiles change with the phase.
pub open spec fn red_cities() -> Seq<((usize, usize), &'static str)> {
    seq![
        ((3usize, 0usize), "Sault Ste Marie"),
        ((3usize, 15usize), "Maritime Provinces"),
        ((6usize, 14usize), "Maine"),
        ((7usize, 12usize), "New England"),
        ((8usize, 5usize), "Buffalo"),
        ((9usize, 0usize), "Detroit"),
    ]
}

/// The colour of the off-board tiles in each phase.
pub open spec fn phase_suffix(phase: usize) -> &'static str {
    if phase == 0 {
        "Yw"
    } else if phase <= 2 {
        "Gn"
    } else if phase <= 4 {
        "Bn"
    } else {
        "Gy"
    }
}

/// The locations that the optional visit bonuses apply to, by row and
/// column, for the options that a company holds: Buffalo, Montreal, Quebec,
/// and both Detroit hexes.
pub open spec fn bonus_locations(opts: Seq<bool>) -> Seq<(int, int)> {
    (if opts[0] { seq![(8int, 5int)] } else { Seq::empty() })
        + (if opts[1] { seq![(5int, 11int)] } else { Seq::empty() })
        + (if opts[2] { seq![(3int, 14int)] } else { Seq::empty() })
        + (if opts[3] { seq![(8int, 0int), (9int, 0int)] } else { Seq::empty() })
}

/// The row and column of a hex.
pub open spec fn rc(a: HexAddress) -> (int, int) {
    (a.row_of(), a.col_of())
}

/// Defines the trains, phases and bonuses of 1867: The Railways Of Canada.
pub struct Game {
    trains: Vec<Train>,
    names: Vec<&'static str>,
    phase: usize,
    phase_names: Vec<&'static str>,
}

impl Game {
    #[verifier::type_invariant]
    spec fn valid(self) -> bool {
        &&& self.names@.len() == self.trains@.len()
        &&& self.phase_names@ == game_phase_names()
        &&& self.phase < 7
    }

    /// The trains that companies can purchase and operate.
    pub closed spec fn train_seq(&self) -> Seq<Train> {
        self.trains@
    }

    /// The names of the trains.
    pub closed spec fn name_seq(&self) -> Seq<&'static str> {
        self.names@
    }

    /// The current phase.
    pub closed spec fn phase_spec(&self) -> usize {
        self.phase
    }

    /// Returns the game at its first phase.
    pub fn new() -> (g: Self)
        ensures
            g.train_seq().map_values(|t: Train| train_kind(t)) == game_train_kinds(),
            g.name_seq() == game_train_names(),
            g.phase_spec() == 0,
    {
        let trains = vec![
            Train::new_2_train(),
            Train::new_3_train(),
            Train::new_4_train(),
            Train::new_5_train(),
            Train::new_6_train(),
            Train::new_7_train(),
            Train::new_8_train(),
            Train::new_2p2_train(),
            Train::new_5p5e_train(),
        ];
        let names = vec!["2", "3", "4", "5", "6", "7", "8", "2+2", "5+5E"];
        let phase_names = vec!["2", "3", "4", "5", "6", "7", "8"];
        assert(trains@.map_values(|t: Train| train_kind(t)) =~= game_train_kinds());
        assert(names@ =~= game_train_names());
        assert(phase_names@ =~= game_phase_names());
        Game { trains, names, phase: 0, phase_names }
    }

    /// The name of this game.
    pub fn name(&self) -> (s: &'static str)
        ensures
            s == "1867: The Railways of Canada",
    {
        "1867: The Railways of Canada"
    }

    /// The train types that companies can purchase and operate.
    pub fn train_types(&self) -> (r: Vec<Train>)
        ensures
            r@ == self.train_seq(),
    {
        let r = self.trains.clone();
        assert(r@ =~= self.trains@);
        r
    }

    /// Returns the name of a train, if it is one of the game's trains.
    pub fn train_name(&self, train: &Train) -> (r: Option<&'static str>)
        ensures
            match first_index_of(self.train_seq(), *train) {
                Some(i) => r == Some(self.name_seq()[i]),
                None => r is None,
            },
    {
        proof {
            use_type_invariant(self);
        }
        let mut i: usize = 0;
        while i < self.trains.len()
            invariant
                i <= self.trains@.len(),
                self.names@.len() == self.trains@.len(),
                forall|j: int| 0 <= j < i ==> self.trains@[j] != *train,
            decreases self.trains@.len() - i,
        {
            if self.trains[i] == *train {
                proof {
                    lemma_first_index(self.trains@, *train, i as int);
                }
                return Some(self.names[i]);
            }
            i = i + 1;
        }
        proof {
            if exists|j: int| 0 <= j < self.trains@.len() && self.trains@[j] == *train {
                let j = choose|j: int| 0 <= j < self.trains@.len() && self.trains@[j] == *train;
                assert(self.trains@[j] != *train);
            }
        }
        None
    }

    /// Optional route bonuses that a company may hold.
    pub fn bonus_options(&self) -> (r: Vec<&'static str>)
        ensures
            r@ == seq!["Niagara Falls Bridge", "Montreal Bridge", "Quebec Bridge", "St. Clair Tunnel"],
    {
        let r = vec![
            // $10 bonus for Buffalo.
            "Niagara Falls Bridge",
            // $10 bonus for Montreal.
            "Montreal Bridge",
            // $10 bonus for Quebec.
            "Quebec Bridge",
            // $10 bonus for Detroit.
            "St. Clair Tunnel",
        ];
        assert(r@ =~= seq!["Niagara Falls Bridge", "Montreal Bridge", "Quebec Bridge", "St. Clair Tunnel"]);
        r
    }

    /// Returns the bonuses that may apply to the routes of a company that
    /// holds the given bonus options: a bonus of 40 for connecting Timmins
    /// to Toronto, Montreal or Quebec, and a visit bonus of 10 for each
    /// location of each option held.
    pub fn get_bonuses(&self, bonus_options: &Vec<bool>) -> (r: Vec<Bonus>)
        requires
            bonus_options@.len() == 4,
        ensures
            r@.len() == 1 + bonus_locations(bonus_options@).len(),
            r@[0] matches Bonus::ConnectionBonus { from, to_any, bonus } && rc(from) == (0int, 3int)
                && to_any@.map_values(|a: HexAddress| rc(a)) == seq![(7int, 5int), (5int, 11int), (3int, 14int)]
                && bonus == 40,
            forall|i: int|
                1 <= i < r@.len() ==> ((#[trigger] r@[i]) matches Bonus::VisitBonus { locn, bonus } && rc(locn)
                    == bonus_locations(bonus_options@)[i - 1] && bonus == 10),
    {
        let to_any = vec![
            HexAddress::new(7, 5),  // Toronto
            HexAddress::new(5, 11),  // Montreal
            HexAddress::new(3, 14),  // Quebec
        ];
        assert(to_any@.map_values(|a: HexAddress| rc(a)) =~= seq![(7int, 5int), (5int, 11int), (3int, 14int)]);
        let timmins = Bonus::ConnectionBonus { from: HexAddress::new(0, 3), to_any, bonus: 40 };
        let mut bonuses = vec![timmins];
        let ghost opts = bonus_options@;
        let ghost mut locs: Seq<(int, int)> = Seq::empty();
        if bonus_options[0] {
            // Buffalo
            bonuses.push(Bonus::VisitBonus { locn: HexAddress::new(8, 5), bonus: 10 });
            proof {
                locs = locs.push((8int, 5int));
            }
        }
        if bonus_options[1] {
            // Montreal
            bonuses.push(Bonus::VisitBonus { locn: HexAddress::new(5, 11), bonus: 10 });
            proof {
                locs = locs.push((5int, 11int));
            }
        }
        if bonus_options[2] {
            // Quebec
            bonuses.push(Bonus::VisitBonus { locn: HexAddress::new(3, 14), bonus: 10 });
            proof {
                locs = locs.push((3int, 14int));
            }
        }
        if bonus_options[3] {
            // Detroit
            bonuses.push(Bonus::VisitBonus { locn: HexAddress::new(8, 0), bonus: 10 });
            bonuses.push(Bonus::VisitBonus { locn: HexAddress::new(9, 0), bonus: 10 });
            proof {
                locs = locs.push((8int, 0int)).push((9int, 0int));
            }
        }
        proof {
            assert(locs =~= bonus_locations(opts));
        }
        bonuses
    }

    /// Returns the number of game phases.
    pub fn phase_count(&self) -> (n: usize)
        ensures
            n == 7,
    {
        7
    }

    /// Returns the current game phase.
    pub fn get_phase(&self) -> (p: usize)
        ensures
            p == self.phase_spec(),
            p < 7,
    {
        proof {
            use_type_invariant(self);
        }
        self.phase
    }

    /// Changes the current game phase, and returns the tiles that the map's
    /// off-board cities take in that phase (each hex, and the name of its
    /// new tile); a phase beyond the last changes nothing.
    pub fn set_phase(&mut self, phase: usize) -> (tiles: Vec<(HexAddress, String)>)
        ensures
            phase > 6 ==> final(self).phase_spec() == old(self).phase_spec() && tiles@.len() == 0,
            phase <= 6 ==> final(self).phase_spec() == phase && tiles@.len() == red_cities().len() && forall|i: int|
                0 <= i < tiles@.len() ==> rc((#[trigger] tiles@[i]).0) == (red_cities()[i].0.0 as int, red_cities()[i].0.1 as int)
                    && tiles@[i].1@ == red_cities()[i].1@ + " "@ + phase_suffix(phase)@,
            final(self).train_seq() == old(self).train_seq(),
            final(self).name_seq() == old(self).name_seq(),
    {
        proof {
            use_type_invariant(&*self);
        }
        if phase > 6 {
            return Vec::new();
        }
        self.phase = phase;
        let red: Vec<((usize, usize), &'static str)> = vec![
            ((3, 0), "Sault Ste Marie"),
            ((3, 15), "Maritime Provinces"),
            ((6, 14), "Maine"),
            ((7, 12), "New England"),
            ((8, 5), "Buffalo"),
            ((9, 0), "Detroit"),
        ];
        assert(red@ =~= red_cities());
        let suffix = if phase == 0 {
            "Yw"
        } else if phase <= 2 {
            "Gn"
        } else if phase <= 4 {
            "Bn"
        } else {
            "Gy"
        };
        let mut tiles: Vec<(HexAddress, String)> = Vec::new();
        let mut i: usize = 0;
        while i < red.len()
            invariant
                red@ == red_cities(),
                suffix == phase_suffix(phase),
                i <= red@.len(),
                tiles@.len() == i,
                forall|j: int|
                    0 <= j < i ==> rc((#[trigger] tiles@[j]).0) == (red_cities()[j].0.0 as int, red_cities()[j].0.1 as int)
                        && tiles@[j].1@ == red_cities()[j].1@ + " "@ + phase_suffix(phase)@,
            decreases red@.len() - i,
        {
            let ((row, col), city) = red[i];
            let name = String::from_str(city).concat(" ").concat(suffix);
            tiles.push((HexAddress::new(row as isize, col as isize), name));
            i = i + 1;
        }
        tiles
    }

    /// Returns the name of a game phase.
    pub fn phase_name(&self, phase: usize) -> (r: Option<&'static str>)
        ensures
            r == if phase < 7 {
                Some(game_phase_names()[phase as int])
            } else {
                None
            },
    {
        proof {
            use_type_invariant(self);
        }
        if phase < self.phase_names.len() {
            Some(self.phase_names[phase])
        } else {
            None
        }
    }

    /// Returns the name of each game phase.
    pub fn phase_names(&self) -> (r: &[&'static str])
        ensures
            r@ == game_phase_names(),
    {
        proof {
            use_type_invariant(self);
        }
        self.phase_names.as_slice()
    }
}


/// The name of every game of this kind.
pub open spec fn game_name() -> Seq<char> {
    "1867: The Railways of Canada"@
}

/// A collection of games, one of which is active.
pub struct Games {
    games: Vec<Game>,
    game_ix: usize,
}

impl Games {
    /// The games in the collection.
    pub closed spec fn game_seq(&self) -> Seq<Game> {
        self.games@
    }

    /// The position of the active game.
    pub closed spec fn active_ix(&self) -> int {
        self.game_ix as int
    }

    /// Creates a collection of games, the first of which is active.
    pub fn new(games: Vec<Game>) -> (g: Self)
        ensures
            g.game_seq() == games@,
            g.active_ix() == 0,
    {
        Games { games, game_ix: 0 }
    }

    /// Returns the active game.
    pub fn active(&self) -> (g: &Game)
        requires
            self.active_ix() < self.game_seq().len(),
        ensures
            *g == self.game_seq()[self.active_ix()],
    {
        &self.games[self.game_ix]
    }

    /// Returns the name of each game in the collection.
    pub fn names(&self) -> (r: Vec<&'static str>)
        ensures
            r@.len() == self.game_seq().len(),
            forall|k: int| 0 <= k < r@.len() ==> (#[trigger] r@[k])@ == game_name(),
    {
        let mut r: Vec<&'static str> = Vec::new();
        let mut i: usize = 0;
        while i < self.games.len()
            invariant
                i <= self.games@.len(),
                r@.len() == i,
                forall|k: int| 0 <= k < r@.len() ==> (#[trigger] r@[k])@ == game_name(),
            decreases self.games@.len() - i,
        {
            r.push(self.games[i].name());
            i = i + 1;
        }
        r
    }

    /// Changes the active game to the first game with the given name, and
    /// returns whether there is one; otherwise nothing changes.
    pub fn set_active_name(&mut self, name: &str) -> (r: bool)
        ensures
            final(self).game_seq() == old(self).game_seq(),
            r == (old(self).game_seq().len() > 0 && name@ == game_name()),
            r ==> final(self).active_ix() == 0,
            !r ==> final(self).active_ix() == old(self).active_ix(),
    {
        let wanted = name.to_owned();
        let mut i: usize = 0;
        while i < self.games.len()
            invariant
                i <= self.games@.len(),
                wanted@ == name@,
                i > 0 ==> name@ != game_name(),
                self.games@ == old(self).games@,
                self.game_ix == old(self).game_ix,
            decreases self.games@.len() - i,
        {
            let own = self.games[i].name().to_owned();
            assert(own@ == game_name());
            if own == wanted {
                self.game_ix = i;
                return true;
            }
            i = i + 1;
        }
        false
    }

    /// Changes the active game to the one at the given position, and returns
    /// whether there is one; otherwise nothing changes.
    pub fn set_active_index(&mut self, ix: usize) -> (r: bool)
        ensures
            final(self).game_seq() == old(self).game_seq(),
            r == (ix < old(self).game_seq().len()),
            r ==> final(self).active_ix() == ix,
            !r ==> final(self).active_ix() == old(self).active_ix(),
    {
        if ix < self.games.len() {
            self.game_ix = ix;
            true
        } else {
            false
        }
    }
}

} // verus!
