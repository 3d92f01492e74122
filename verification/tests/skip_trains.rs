use navig18xx::conflict::RouteConflicts;
use navig18xx::connection::Connection;
use navig18xx::hex::HexAddress;
use navig18xx::path::{Path, Step, StopLocation, Visit};
use navig18xx::skip_train::{Bonus, Train};
use navig18xx::train::BonusTable;

fn visit(r: isize, revenue: usize, is_city: bool) -> Visit {
    let visits = if is_city { StopLocation::City { ix: 0 } } else { StopLocation::Dit { ix: 0 } };
    Visit { addr: HexAddress::new(r, 0), revenue, visits }
}

fn path(visits: Vec<Visit>) -> Path {
    let steps: Vec<Step> = visits.iter().map(|v| Step { addr: v.addr, conn: Connection::City { ix: 0 } }).collect();
    let num_cities = visits.iter().filter(|v| v.visits.is_city()).count();
    let revenue = visits.iter().map(|v| v.revenue).sum();
    Path {
        num_visits: visits.len(),
        num_dits: visits.len() - num_cities,
        num_hexes: visits.len(),
        steps,
        conflicts: RouteConflicts::new(),
        route_conflicts: RouteConflicts::new(),
        visits,
        num_cities,
        revenue,
    }
}

#[test]
fn a_train_that_stops_everywhere_earns_every_revenue() {
    let p = path(vec![visit(0, 20, true), visit(1, 10, false), visit(2, 30, true)]);
    let none = BonusTable::<Bonus>::new();
    let (rev, _) = Train::new_3_train().revenue_for(&p, &none).unwrap();
    assert_eq!(rev, 60);
}

#[test]
fn a_short_train_skips_the_cheapest_town() {
    let p = path(vec![visit(0, 20, true), visit(1, 10, false), visit(2, 30, true)]);
    let none = BonusTable::<Bonus>::new();
    let (rev, _) = Train::new_2_train().revenue_for(&p, &none).unwrap();
    assert_eq!(rev, 50);
    let (rev22, _) = Train::new_2p2_train().revenue_for(&p, &none).unwrap();
    assert_eq!(rev22, 100);
}

#[test]
fn a_short_train_cannot_skip_cities() {
    let p = path(vec![visit(0, 20, true), visit(1, 10, true), visit(2, 30, true)]);
    let none = BonusTable::<Bonus>::new();
    assert!(Train::new_2_train().revenue_for(&p, &none).is_none());
    assert!(Train::new_5p5e_train().revenue_for(&p, &none).is_some());
}
