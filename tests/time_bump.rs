use std::cell::Cell;
use std::cell::RefCell;
use std::rc::Rc;

use timebump::bumpspotdate::{BumpSpotDate, SpotDynamics};
use timebump::bumptime::BumpTime;
use timebump::dates::{DateTime, TimeOfDay};
use timebump::dependencies::DependencyModel;
use timebump::fixings::FixingMap;
use timebump::window::collect_fixings;

type Portfolio = Vec<(f64, Rc<String>)>;
type Table = Vec<(String, Vec<(DateTime, f64)>)>;

struct Model {
    spots: Vec<(String, f64)>,
    bumps: Vec<BumpSpotDate>,
    fail_bump: bool,
}

fn model(spots: &[(&str, f64)]) -> Model {
    Model {
        spots: spots.iter().map(|(id, v)| (id.to_string(), *v)).collect(),
        bumps: Vec::new(),
        fail_bump: false,
    }
}

fn spot(m: &Model, id: &String) -> Result<f64, String> {
    for (k, v) in m.spots.iter() {
        if k == id {
            return Ok(*v);
        }
    }
    Err(format!("no spot for {}", id))
}

fn forward(_m: &Model, entry: usize, anchor: i32, date: i32) -> Result<f64, String> {
    Ok(100.0 + 10.0 * entry as f64 + (date - anchor) as f64)
}

fn bump(m: &mut Model, b: &BumpSpotDate) -> Result<(), String> {
    if m.fail_bump {
        return Err("model not bumpable".to_string());
    }
    m.bumps.push(*b);
    Ok(())
}

fn close(d: i32) -> DateTime {
    DateTime::new(d, TimeOfDay::Close)
}

fn table_of(t: &FixingMap<f64>) -> Table {
    let mut out = Vec::new();
    for k in 0..t.len() {
        out.push((t.id(k).clone(), t.fixings(k).clone()));
    }
    out
}

fn deps(entries: &[(&str, &[i32])]) -> DependencyModel {
    let mut d = DependencyModel::new();
    for (id, days) in entries {
        d.add(id.to_string(), days.iter().map(|x| close(*x)).collect());
    }
    d
}

fn portfolio() -> Portfolio {
    vec![(1.0, Rc::new("fwd-start".to_string())), (-2.0, Rc::new("option".to_string()))]
}

struct Run {
    result: Result<bool, String>,
    portfolio: Portfolio,
    model: Model,
    tables: Vec<(i32, Table)>,
}

fn run(bt: &BumpTime, dm: &DependencyModel, mut m: Model, restate_fails: bool) -> Run {
    let mut p = portfolio();
    let seen: RefCell<Vec<(i32, Table)>> = RefCell::new(Vec::new());
    let restate = |old: &Vec<(f64, Rc<String>)>, anchor: i32, t: &FixingMap<f64>| -> Result<Portfolio, String> {
        seen.borrow_mut().push((anchor, table_of(t)));
        if restate_fails {
            return Err("cannot reconcile fixings".to_string());
        }
        Ok(old.iter().map(|(w, i)| (*w, Rc::new(format!("{} fixed", i)))).collect())
    };
    let result = bt.apply(&mut p, &mut m, 10, dm, &spot, &forward, &restate, &bump);
    let tables = seen.into_inner();
    Run { result, portfolio: p, model: m, tables }
}

#[test]
fn scenario_fixing_inside_window_forces_rebuild() {
    let bt = BumpTime::new(15, 15, SpotDynamics::StickySpot);
    let dm = deps(&[("EUR", &[12])]);
    let r = run(&bt, &dm, model(&[("EUR", 1.10)]), false);
    assert_eq!(r.result, Ok(true));
    assert_eq!(r.tables.len(), 1);
    assert_eq!(r.tables[0], (15, vec![("EUR".to_string(), vec![(close(12), 1.10)])]));
    assert_eq!(r.portfolio.len(), 2);
    assert_eq!(*r.portfolio[0].1, "fwd-start fixed");
    assert_eq!(*r.portfolio[1].1, "option fixed");
    assert!(r.model.bumps.is_empty());
}

#[test]
fn scenario_fixing_outside_window_bumps_in_place() {
    let bt = BumpTime::new(15, 15, SpotDynamics::StickySpot);
    let dm = deps(&[("EUR", &[16])]);
    let r = run(&bt, &dm, model(&[("EUR", 1.10)]), false);
    assert_eq!(r.result, Ok(false));
    assert!(r.tables.is_empty());
    assert_eq!(r.model.bumps, vec![BumpSpotDate::new(15, SpotDynamics::StickySpot)]);
    let p = r.portfolio;
    assert_eq!(p.len(), 2);
    assert_eq!(*p[0].1, "fwd-start");
    assert_eq!(*p[1].1, "option");
}

#[test]
fn window_is_half_open() {
    let dm = deps(&[("EUR", &[9, 10, 14, 15, 16])]);
    let m = model(&[("EUR", 1.25)]);
    let t = collect_fixings(&dm, &m, 10, 15, SpotDynamics::StickySpot, &spot, &forward).unwrap();
    assert_eq!(table_of(&t), vec![("EUR".to_string(), vec![(close(10), 1.25), (close(14), 1.25)])]);
}

#[test]
fn fixings_group_by_identifier_in_discovery_order() {
    let dm = deps(&[("USD", &[13, 11]), ("EUR", &[12]), ("USD", &[14]), ("GBP", &[20])]);
    let m = model(&[("EUR", 1.1), ("USD", 1.0), ("GBP", 0.9)]);
    let t = collect_fixings(&dm, &m, 10, 15, SpotDynamics::StickySpot, &spot, &forward).unwrap();
    assert_eq!(
        table_of(&t),
        vec![
            ("USD".to_string(), vec![(close(13), 1.0), (close(11), 1.0), (close(14), 1.0)]),
            ("EUR".to_string(), vec![(close(12), 1.1)]),
        ]
    );
}

#[test]
fn sticky_spot_values_do_not_depend_on_instrument() {
    let dm = deps(&[("EUR", &[11]), ("EUR", &[12, 13])]);
    let m = model(&[("EUR", 1.5)]);
    let t = collect_fixings(&dm, &m, 10, 15, SpotDynamics::StickySpot, &spot, &forward).unwrap();
    let rows = table_of(&t);
    assert_eq!(rows.len(), 1);
    assert!(rows[0].1.iter().all(|(_, v)| *v == 1.5));
    assert_eq!(rows[0].1.len(), 3);
}

#[test]
fn sticky_forward_reads_the_curve_of_the_instrument() {
    let dm = deps(&[("EUR", &[11]), ("USD", &[12, 14])]);
    let m = model(&[]);
    let t = collect_fixings(&dm, &m, 10, 15, SpotDynamics::StickyForward, &spot, &forward).unwrap();
    assert_eq!(
        table_of(&t),
        vec![
            ("EUR".to_string(), vec![(close(11), 96.0)]),
            ("USD".to_string(), vec![(close(12), 107.0), (close(14), 109.0)]),
        ]
    );
}

#[test]
fn no_fixings_leaves_portfolio_and_bumps_once() {
    let bt = BumpTime::new(15, 15, SpotDynamics::StickyForward);
    let dm = deps(&[("EUR", &[5, 9]), ("USD", &[15, 30])]);
    let r = run(&bt, &dm, model(&[]), false);
    assert_eq!(r.result, Ok(false));
    assert_eq!(r.model.bumps.len(), 1);
    assert_eq!(r.model.bumps[0].spot_date(), 15);
    assert_eq!(r.model.bumps[0].spot_dynamics(), SpotDynamics::StickyForward);
    assert_eq!(r.portfolio, portfolio());
}

#[test]
fn empty_dependency_model_bumps_in_place() {
    let bt = BumpTime::new(15, 15, SpotDynamics::StickySpot);
    let r = run(&bt, &DependencyModel::new(), model(&[]), false);
    assert_eq!(r.result, Ok(false));
    assert_eq!(r.model.bumps.len(), 1);
}

#[test]
fn backward_shift_has_empty_window() {
    let bt = BumpTime::new(5, 5, SpotDynamics::StickySpot);
    let dm = deps(&[("EUR", &[5, 7, 10, 12])]);
    let r = run(&bt, &dm, model(&[("EUR", 1.0)]), false);
    assert_eq!(r.result, Ok(false));
    assert!(r.tables.is_empty());
}

#[test]
fn failed_spot_lookup_leaves_portfolio_unchanged() {
    let bt = BumpTime::new(15, 15, SpotDynamics::StickySpot);
    let dm = deps(&[("EUR", &[11]), ("JPY", &[12])]);
    let r = run(&bt, &dm, model(&[("EUR", 1.1)]), false);
    assert_eq!(r.result, Err("no spot for JPY".to_string()));
    assert!(r.tables.is_empty());
    assert!(r.model.bumps.is_empty());
    assert_eq!(r.portfolio, portfolio());
}

#[test]
fn failed_restatement_leaves_portfolio_unchanged() {
    let bt = BumpTime::new(15, 15, SpotDynamics::StickySpot);
    let dm = deps(&[("EUR", &[11])]);
    let r = run(&bt, &dm, model(&[("EUR", 1.1)]), true);
    assert_eq!(r.result, Err("cannot reconcile fixings".to_string()));
    assert_eq!(r.tables.len(), 1);
    assert_eq!(r.portfolio, portfolio());
    assert!(r.model.bumps.is_empty());
}

#[test]
fn failed_bump_is_propagated() {
    let bt = BumpTime::new(15, 15, SpotDynamics::StickySpot);
    let dm = deps(&[("EUR", &[20])]);
    let mut m = model(&[("EUR", 1.1)]);
    m.fail_bump = true;
    let r = run(&bt, &dm, m, false);
    assert_eq!(r.result, Err("model not bumpable".to_string()));
    assert_eq!(r.portfolio, portfolio());
}

#[test]
fn update_instruments_reports_changes() {
    let bt = BumpTime::new(15, 12, SpotDynamics::StickySpot);
    let dm = deps(&[("EUR", &[14])]);
    let m = model(&[("EUR", 1.3)]);
    let calls = Cell::new(0);
    let restate = |old: &Vec<(f64, Rc<String>)>, _anchor: i32, _t: &FixingMap<f64>| -> Result<Portfolio, String> {
        calls.set(calls.get() + 1);
        Ok(vec![(old[0].0 * 2.0, Rc::new("replacement".to_string()))])
    };
    let mut p = portfolio();
    let r = bt.update_instruments(&mut p, &m, 10, &dm, &spot, &forward, &restate);
    assert_eq!(r, Ok(true));
    assert_eq!(calls.get(), 1);
    assert_eq!(p, vec![(2.0, Rc::new("replacement".to_string()))]);
    let mut q = portfolio();
    let r2 = bt.update_instruments(&mut q, &m, 14, &deps(&[("EUR", &[20])]), &spot, &forward, &restate);
    assert_eq!(r2, Ok(false));
    assert_eq!(calls.get(), 1);
    assert_eq!(q, portfolio());
}

#[test]
fn bump_time_keeps_its_dates() {
    let bt = BumpTime::new(42, 40, SpotDynamics::StickyForward);
    let b = bt.spot_date_bump();
    assert_eq!(b.spot_date(), 42);
    assert_eq!(b.spot_dynamics(), SpotDynamics::StickyForward);
}

#[test]
fn fixing_map_appends_to_existing_series() {
    let mut t: FixingMap<f64> = FixingMap::new();
    assert!(t.is_empty());
    t.add(&"EUR".to_string(), close(3), 1.0);
    t.add(&"USD".to_string(), close(4), 2.0);
    t.add(&"EUR".to_string(), close(1), 3.0);
    assert_eq!(t.len(), 2);
    assert_eq!(
        table_of(&t),
        vec![
            ("EUR".to_string(), vec![(close(3), 1.0), (close(1), 3.0)]),
            ("USD".to_string(), vec![(close(4), 2.0)]),
        ]
    );
}

#[test]
fn date_time_window_bounds() {
    let d = DateTime::new(10, TimeOfDay::Open);
    assert_eq!(d.date(), 10);
    assert!(d.is_in_window(10, 11));
    assert!(!d.is_in_window(11, 20));
    assert!(!d.is_in_window(5, 10));
    assert!(DateTime::new(i32::MAX - 1, TimeOfDay::Edsp).is_in_window(0, i32::MAX));
}
