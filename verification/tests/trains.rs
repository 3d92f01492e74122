use navig18xx::conflict::{Conflict, RouteConflicts};
use navig18xx::connection::Connection;
use navig18xx::hex::HexAddress;
use navig18xx::path::{Path, Step, StopLocation, Visit};
use navig18xx::train::{bonus_tables, Bonus, BonusTable, Train, TrainType, Trains};

fn addr(r: isize, c: isize) -> HexAddress {
    HexAddress::new(r, c)
}

fn city(a: HexAddress, revenue: usize) -> Visit {
    Visit { addr: a, revenue, visits: StopLocation::City { ix: 0 } }
}

fn dit(a: HexAddress, revenue: usize) -> Visit {
    Visit { addr: a, revenue, visits: StopLocation::Dit { ix: 0 } }
}

/// A path through the given visits, which conflicts with other paths at
/// the given track segments of the first hex.
fn path(visits: Vec<Visit>, track: &[usize]) -> Path {
    let steps: Vec<Step> = visits
        .iter()
        .map(|v| Step { addr: v.addr, conn: Connection::City { ix: 0 } })
        .collect();
    let conflicts: Vec<Conflict> = track.iter().map(|ix| Conflict::Track { addr: addr(0, 0), ix: *ix }).collect();
    let num_cities = visits.iter().filter(|v| v.visits.is_city()).count();
    let num_dits = visits.len() - num_cities;
    let revenue = visits.iter().map(|v| v.revenue).sum();
    Path {
        num_visits: visits.len(),
        num_hexes: visits.len(),
        steps,
        conflicts: RouteConflicts::from_conflicts(&conflicts),
        route_conflicts: RouteConflicts::from_conflicts(&conflicts),
        visits,
        num_cities,
        num_dits,
        revenue,
    }
}

fn three_stops() -> Path {
    path(vec![city(addr(0, 0), 20), dit(addr(1, 0), 10), city(addr(2, 0), 30)], &[0])
}

#[test]
fn trains_stop_at_the_ends_and_skip_towns_as_needed() {
    let p = three_stops();
    let (vb, cb) = bonus_tables(&vec![]);
    let (rev2, stops2) = Train::new_2_train().revenue_for(&p, &vb, &cb).unwrap();
    assert_eq!(rev2, 50);
    assert_eq!(stops2.len(), 2);
    assert_eq!(stops2[0].visit_ix, 0);
    assert_eq!(stops2[1].visit_ix, 2);
    let (rev3, stops3) = Train::new_3_train().revenue_for(&p, &vb, &cb).unwrap();
    assert_eq!(rev3, 60);
    assert_eq!(stops3.len(), 3);
    // Double revenue for a 2+2 train.
    let (rev22, _) = Train::new_2p2_train().revenue_for(&p, &vb, &cb).unwrap();
    assert_eq!(rev22, 100);
}

#[test]
fn a_train_cannot_skip_cities_it_must_stop_at() {
    let p = path(vec![city(addr(0, 0), 20), city(addr(1, 0), 10), city(addr(2, 0), 30)], &[0]);
    let (vb, cb) = bonus_tables(&vec![]);
    assert!(Train::new_2_train().revenue_for(&p, &vb, &cb).is_none());
    assert_eq!(Train::new_3_train().revenue_for(&p, &vb, &cb).unwrap().0, 60);
    // An express train may skip the middle city.
    let (rev, stops) = Train::new_5p5e_train().revenue_for(&p, &vb, &cb).unwrap();
    assert_eq!(rev, 120);
    assert_eq!(stops.len(), 3);
}

#[test]
fn visit_bonuses_add_to_the_stop_revenue() {
    let p = three_stops();
    let bonuses = vec![Bonus::VisitBonus { locn: addr(2, 0), bonus: 10 }];
    let (vb, cb) = bonus_tables(&bonuses);
    assert_eq!(vb.len(), 1);
    assert_eq!(vb.get(&addr(2, 0)), Some(&10));
    assert_eq!(Train::new_2_train().revenue_for(&p, &vb, &cb).unwrap().0, 60);
}

#[test]
fn connection_bonuses_need_both_ends() {
    let p = three_stops();
    let bonuses = vec![Bonus::ConnectionBonus { from: addr(0, 0), to_any: vec![addr(2, 0)], bonus: 25 }];
    let (vb, cb) = bonus_tables(&bonuses);
    assert_eq!(cb.len(), 1);
    assert_eq!(Train::new_2_train().revenue_for(&p, &vb, &cb).unwrap().0, 75);
    let elsewhere = vec![Bonus::ConnectionBonus { from: addr(0, 0), to_any: vec![addr(5, 5)], bonus: 25 }];
    let (vb, cb) = bonus_tables(&elsewhere);
    assert_eq!(Train::new_2_train().revenue_for(&p, &vb, &cb).unwrap().0, 50);
}

#[test]
fn bonus_tables_keep_the_latest_bonus_for_a_location() {
    let mut t: BonusTable<usize> = BonusTable::new();
    t.insert(addr(1, 1), 5);
    t.insert(addr(1, 2), 7);
    t.insert(addr(1, 1), 9);
    assert_eq!(t.len(), 2);
    assert_eq!(t.get(&addr(1, 1)), Some(&9));
    assert_eq!(t.get(&addr(3, 3)), None);
}

#[test]
fn trains_and_their_path_limit() {
    let trains = Trains::new(vec![Train::new_2_train(), Train::new_3_train(), Train::new_2_train()]);
    assert_eq!(trains.train_count(), 3);
    assert!(trains.path_limit().is_some());
    assert!(!Train::new_3_train().is_express());
    assert!(Train::new_5p5e_train().is_express());
    assert_eq!(Train::new_4_train().train_type, TrainType::SkipTowns);
}

#[test]
fn the_best_routes_use_every_train_on_separate_paths() {
    let p1 = path(vec![city(addr(0, 0), 20), city(addr(2, 0), 30)], &[0]);
    let p2 = path(vec![city(addr(0, 0), 20), dit(addr(0, 1), 10)], &[1]);
    let trains = Trains::new(vec![Train::new_2_train(), Train::new_3_train()]);
    let routes = trains.select_routes(vec![p1, p2], vec![]).unwrap();
    assert_eq!(routes.net_revenue, 80);
    assert_eq!(routes.train_routes.len(), 2);
    assert_eq!(routes.routes().len(), 2);
}

#[test]
fn conflicting_paths_cannot_both_be_operated() {
    let p1 = path(vec![city(addr(0, 0), 20), city(addr(2, 0), 30)], &[0]);
    let p2 = path(vec![city(addr(0, 0), 20), dit(addr(0, 1), 10)], &[0]);
    let trains = Trains::new(vec![Train::new_2_train(), Train::new_3_train()]);
    let routes = trains.select_routes(vec![p1, p2], vec![]).unwrap();
    assert_eq!(routes.net_revenue, 50);
    assert_eq!(routes.train_routes.len(), 1);
}

#[test]
fn no_paths_means_no_routes() {
    let trains = Trains::new(vec![Train::new_2_train()]);
    assert!(trains.select_routes(vec![], vec![]).is_none());
}

#[test]
fn a_revenue_multiplier_scales_revenue_and_keeps_the_stops() {
    let p = path(
        vec![city(addr(0, 0), 20), dit(addr(1, 0), 10), city(addr(2, 0), 30), dit(addr(3, 0), 40)],
        &[0],
    );
    let bonuses = vec![Bonus::VisitBonus { locn: addr(2, 0), bonus: 5 }];
    let (vb, cb) = bonus_tables(&bonuses);
    let single = Train { max_stops: Some(3), train_type: TrainType::SkipTowns, revenue_multiplier: 1 };
    let triple = Train { revenue_multiplier: 3, ..single };
    let (rev1, stops1) = single.revenue_for(&p, &vb, &cb).unwrap();
    let (rev3, stops3) = triple.revenue_for(&p, &vb, &cb).unwrap();
    assert_eq!(rev1, 95);
    assert_eq!(rev3, 3 * rev1);
    assert_eq!(stops1.len(), stops3.len());
    for (a, b) in stops1.iter().zip(stops3.iter()) {
        assert_eq!(a.visit_ix, b.visit_ix);
        assert_eq!(b.revenue, 3 * a.revenue);
    }
}

#[test]
fn without_bonuses_the_chosen_stops_earn_the_most() {
    let visits = vec![
        city(addr(0, 0), 20),
        dit(addr(1, 0), 10),
        dit(addr(2, 0), 40),
        dit(addr(3, 0), 5),
        city(addr(4, 0), 30),
        dit(addr(5, 0), 25),
        city(addr(6, 0), 15),
    ];
    let revs: Vec<usize> = visits.iter().map(|v| v.revenue).collect();
    let p = path(visits, &[0]);
    let (vb, cb) = bonus_tables(&vec![]);
    for max_stops in 3..=7 {
        let train = Train { max_stops: Some(max_stops), train_type: TrainType::SkipTowns, revenue_multiplier: 1 };
        let (rev, _) = train.revenue_for(&p, &vb, &cb).unwrap();
        // Every choice of dits to add to the cities, within the stop limit.
        let dits = [1usize, 3, 5, 2];
        let mut best = 0;
        for mask in 0..(1usize << dits.len()) {
            let chosen: Vec<usize> = (0..dits.len()).filter(|b| mask & (1 << b) != 0).map(|b| dits[b]).collect();
            if 3 + chosen.len() <= max_stops {
                let total = revs[0] + revs[4] + revs[6] + chosen.iter().map(|&i| revs[i]).sum::<usize>();
                best = best.max(total);
            }
        }
        assert_eq!(rev, best);
    }
}
