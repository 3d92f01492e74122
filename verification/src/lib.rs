//! Tiles, routes and revenue for 18xx train games: the verified core.
//!
//! Route finding:
//! - [`hex`], [`track`], [`connection`]: hexes, their faces and rotations,
//!   and the connections of a tile's track, cities and dits;
//! - [`route_map`]: a map as the path search reads it;
//! - [`path`], [`conflict`]: paths, their stops, and what two paths or
//!   routes may not share;
//! - [`search`]: all paths from a company's tokens;
//! - [`builder`]: paths built step by step;
//! - [`comb`], [`perm`]: combinations of paths and permutations of trains;
//! - [`train`], [`skip_train`]: trains, the revenue they earn, and the best
//!   pairing of trains to routes;
//! - [`best_stops`]: the stops a train chooses earn the most revenue.
//!
//! Tiles and tokens:
//! - [`ekmf`]: maximum network flows (Edmonds-Karp);
//! - [`upgrade`]: keeping tokens connected when a tile is upgraded;
//! - [`token`]: company tokens;
//! - [`io`]: the plain descriptions of tiles, cities and tokens in files.
//!
//! Games and the user interface:
//! - [`game`]: the trains, phases and map of 1867;
//! - [`ui`]: key bindings;
//! - [`default_state`], [`edit_tokens`], [`replace_tile`], [`found`]: the
//!   modes of the user interface, as state machines.
pub mod ekmf;
pub mod upgrade;
pub mod comb;
pub mod perm;
pub mod hex;
pub mod track;
pub mod connection;
pub mod conflict;
pub mod path;
pub mod train;
pub mod route_map;
pub mod search;
pub mod skip_train;
pub mod ui;
pub mod default_state;
pub mod edit_tokens;
pub mod token;
pub mod io;
pub mod game;
pub mod builder;
pub mod replace_tile;
pub mod found;
pub mod best_stops;
