use account_horizons::date::Date;
use account_horizons::horizon::{
    plan_start_year, run_steps, simulate, Compounded, MissingYearError, Multipliers,
    SimulationResult, Step,
};
use account_horizons::series::Observation;
use account_horizons::table::{build_table, YearIndexTable};

fn year_end(year: i32, value: f64) -> Observation<f64> {
    Observation { date: Date { year, month: 12, day: 30 }, value }
}

/// A table whose second column already holds each year's tax rate.
fn table_of(rows: &[(i32, f64, f64)]) -> YearIndexTable<f64> {
    let index: Vec<Observation<f64>> = rows.iter().map(|r| year_end(r.0, r.1)).collect();
    let rates: Vec<Observation<f64>> = rows.iter().map(|r| year_end(r.0, r.2)).collect();
    build_table(&index, &rates, 0.0, 0.0)
}

fn one() -> Multipliers<f64> {
    Multipliers { aktiekonto: 1.0, kapitalforsakring: 1.0 }
}

fn compound(m: Multipliers<f64>, s: Step<f64>) -> Compounded<f64> {
    let growth = s.index / s.previous_index;
    let aktiekonto = m.aktiekonto * growth;
    let kapitalforsakring = m.kapitalforsakring * growth * (1.0 - s.reference_rate);
    Compounded {
        running: Multipliers { aktiekonto, kapitalforsakring },
        aktiekonto_after_sale: aktiekonto - ((aktiekonto - 1.0) * 0.206).max(0.0),
    }
}

fn standard_horizons() -> Vec<u32> {
    vec![5, 10, 15, 20, 25]
}

fn close(a: f64, b: f64) -> bool {
    (a - b).abs() < 1e-9
}

#[test]
fn gap_inside_the_window_is_a_missing_year() {
    let table = table_of(&[(1993, 100.0, 0.01), (1994, 110.0, 0.01), (1998, 150.0, 0.02)]);
    let plan = plan_start_year(&table, 1993, &standard_horizons());
    assert_eq!(plan.unwrap_err(), MissingYearError { start_year: 1993, year: 1995 });

    let all = simulate(&table, 1993, 1993, &standard_horizons(), one(), compound);
    assert_eq!(all.len(), 1);
    assert_eq!(
        all[0].as_ref().unwrap_err(),
        &MissingYearError { start_year: 1993, year: 1995 }
    );
}

#[test]
fn flat_index_that_doubles_in_the_fifth_year() {
    let table = table_of(&[
        (2000, 100.0, 0.0),
        (2001, 100.0, 0.0),
        (2002, 100.0, 0.0),
        (2003, 100.0, 0.0),
        (2004, 100.0, 0.0),
        (2005, 200.0, 0.0),
    ]);
    let all = simulate(&table, 2000, 2000, &standard_horizons(), one(), compound);
    assert_eq!(all.len(), 1);
    let results = all[0].as_ref().unwrap();
    assert_eq!(results.len(), 1);
    assert_eq!(results[0].start_year, 2000);
    assert_eq!(results[0].horizon, 5);
    assert!(close(results[0].aktiekonto_multiplier, 1.794));
    assert!(close(results[0].kapitalforsakring_multiplier, 2.0));
}

#[test]
fn yearly_tax_compounds_in_the_wrapper_only() {
    let table = table_of(&[(2000, 100.0, 0.5), (2001, 200.0, 0.5), (2002, 100.0, 0.25)]);
    let all = simulate(&table, 2000, 2000, &vec![1, 2], one(), compound);
    let results = all[0].as_ref().unwrap();
    assert_eq!(results.len(), 2);
    assert_eq!(results[0].horizon, 1);
    assert!(close(results[0].aktiekonto_multiplier, 2.0 - 0.206));
    assert!(close(results[0].kapitalforsakring_multiplier, 1.0));
    assert_eq!(results[1].horizon, 2);
    assert!(close(results[1].aktiekonto_multiplier, 1.0));
    assert!(close(results[1].kapitalforsakring_multiplier, 0.375));
}

#[test]
fn a_loss_is_not_taxed_at_sale() {
    let table = table_of(&[(2000, 100.0, 0.0), (2001, 50.0, 0.0)]);
    let all = simulate(&table, 2000, 2000, &vec![1], one(), compound);
    let results = all[0].as_ref().unwrap();
    assert_eq!(results.len(), 1);
    assert!(close(results[0].aktiekonto_multiplier, 0.5));
    assert!(close(results[0].kapitalforsakring_multiplier, 0.5));
}

#[test]
fn plan_has_one_step_for_each_year_after_the_start() {
    let table = table_of(&[
        (2000, 10.0, 1.0),
        (2001, 11.0, 1.1),
        (2002, 12.0, 1.2),
        (2003, 13.0, 1.3),
    ]);
    let steps = plan_start_year(&table, 2000, &vec![2, 3, 7]).unwrap();
    assert_eq!(steps.len(), 3);
    let seen: Vec<(i32, f64, f64, f64, Option<u32>)> = steps
        .iter()
        .map(|s| (s.year, s.previous_index, s.index, s.reference_rate, s.horizon))
        .collect();
    assert_eq!(
        seen,
        vec![
            (2001, 10.0, 11.0, 1.1, None),
            (2002, 11.0, 12.0, 1.2, Some(2)),
            (2003, 12.0, 13.0, 1.3, Some(3)),
        ]
    );
}

#[test]
fn plan_from_the_latest_year_or_later_is_empty() {
    let table = table_of(&[(2000, 10.0, 1.0), (2001, 11.0, 1.1)]);
    assert!(plan_start_year(&table, 2001, &standard_horizons()).unwrap().is_empty());
    assert!(plan_start_year(&table, 2002, &standard_horizons()).unwrap().is_empty());
    assert!(plan_start_year(&table, i32::MAX, &standard_horizons()).unwrap().is_empty());
}

#[test]
fn plan_over_an_empty_table_is_empty() {
    let table = table_of(&[]);
    assert!(plan_start_year(&table, 2000, &standard_horizons()).unwrap().is_empty());
    let all = simulate(&table, 1993, 1995, &standard_horizons(), one(), compound);
    assert_eq!(all.len(), 3);
    assert!(all.iter().all(|r| r.as_ref().unwrap().is_empty()));
}

#[test]
fn start_year_that_the_table_lacks_is_itself_the_gap() {
    let table = table_of(&[(2000, 10.0, 1.0), (2001, 11.0, 1.1)]);
    assert_eq!(
        plan_start_year(&table, 1999, &standard_horizons()).unwrap_err(),
        MissingYearError { start_year: 1999, year: 1999 }
    );
    assert_eq!(
        plan_start_year(&table, i32::MIN, &standard_horizons()).unwrap_err(),
        MissingYearError { start_year: i32::MIN, year: i32::MIN }
    );
}

#[test]
fn gap_after_the_start_names_the_earliest_year_lacking() {
    let table = table_of(&[(2000, 1.0, 0.0), (2001, 1.0, 0.0), (2004, 1.0, 0.0), (2006, 1.0, 0.0)]);
    assert_eq!(
        plan_start_year(&table, 2000, &standard_horizons()).unwrap_err(),
        MissingYearError { start_year: 2000, year: 2002 }
    );
    assert_eq!(
        plan_start_year(&table, 2004, &standard_horizons()).unwrap_err(),
        MissingYearError { start_year: 2004, year: 2005 }
    );
    assert!(plan_start_year(&table, 2006, &standard_horizons()).unwrap().is_empty());
}

#[test]
fn a_failing_start_year_fails_alone() {
    let table = table_of(&[(2000, 1.0, 0.0), (2002, 2.0, 0.0), (2003, 4.0, 0.0)]);
    let all = simulate(&table, 2000, 2003, &vec![1], one(), compound);
    assert_eq!(all.len(), 4);
    assert_eq!(all[0].as_ref().unwrap_err(), &MissingYearError { start_year: 2000, year: 2001 });
    assert_eq!(all[1].as_ref().unwrap_err(), &MissingYearError { start_year: 2001, year: 2001 });
    let from_2002 = all[2].as_ref().unwrap();
    assert_eq!(from_2002.len(), 1);
    assert_eq!((from_2002[0].start_year, from_2002[0].horizon), (2002, 1));
    assert!(close(from_2002[0].kapitalforsakring_multiplier, 2.0));
    assert!(all[3].as_ref().unwrap().is_empty());
}

#[test]
fn late_start_years_reach_only_short_horizons() {
    let rows: Vec<(i32, f64, f64)> = (1993..=2023).map(|y| (y, 100.0, 0.0)).collect();
    let table = table_of(&rows);
    let all = simulate(&table, 1993, 2022, &standard_horizons(), one(), compound);
    assert_eq!(all.len(), 30);
    let reached = |start: i32| -> Vec<u32> {
        all[(start - 1993) as usize].as_ref().unwrap().iter().map(|r| r.horizon).collect()
    };
    assert_eq!(reached(1993), vec![5, 10, 15, 20, 25]);
    assert_eq!(reached(1998), vec![5, 10, 15, 20, 25]);
    assert_eq!(reached(1999), vec![5, 10, 15, 20]);
    assert_eq!(reached(2013), vec![5, 10]);
    assert_eq!(reached(2018), vec![5]);
    assert_eq!(reached(2019), Vec::<u32>::new());
    assert_eq!(reached(2022), Vec::<u32>::new());
    for (k, outcome) in all.iter().enumerate() {
        for r in outcome.as_ref().unwrap() {
            assert_eq!(r.start_year, 1993 + k as i32);
            assert!(close(r.aktiekonto_multiplier, 1.0));
            assert!(close(r.kapitalforsakring_multiplier, 1.0));
        }
    }
}

#[test]
fn simulating_twice_gives_the_same() {
    let rows: Vec<(i32, f64, f64)> =
        (1990..=2010).map(|y| (y, 100.0 + ((y * 37) % 11) as f64, 0.004 * ((y % 5) as f64))).collect();
    let table = table_of(&rows);
    let view = |all: &Vec<Result<Vec<SimulationResult<f64>>, MissingYearError>>| -> Vec<Vec<(i32, u32, u64, u64)>> {
        all.iter()
            .map(|o| {
                o.as_ref()
                    .unwrap()
                    .iter()
                    .map(|r| {
                        (
                            r.start_year,
                            r.horizon,
                            r.aktiekonto_multiplier.to_bits(),
                            r.kapitalforsakring_multiplier.to_bits(),
                        )
                    })
                    .collect()
            })
            .collect()
    };
    let first = simulate(&table, 1990, 2009, &standard_horizons(), one(), compound);
    let second = simulate(&table, 1990, 2009, &standard_horizons(), one(), compound);
    assert_eq!(view(&first), view(&second));
    assert!(view(&first).iter().any(|results| !results.is_empty()));
}

#[test]
fn an_empty_range_of_start_years_gives_nothing() {
    let table = table_of(&[(2000, 1.0, 0.0), (2001, 2.0, 0.0)]);
    assert!(simulate(&table, 2001, 2000, &vec![1], one(), compound).is_empty());
}

#[test]
fn the_range_of_start_years_may_end_at_the_largest_year() {
    let table = table_of(&[(2000, 1.0, 0.0)]);
    let all = simulate(&table, i32::MAX - 1, i32::MAX, &vec![1], one(), compound);
    assert_eq!(all.len(), 2);
    assert!(all.iter().all(|r| r.as_ref().unwrap().is_empty()));
}

#[test]
fn a_horizon_named_twice_is_reported_once() {
    let table = table_of(&[(2000, 1.0, 0.0), (2001, 2.0, 0.0), (2002, 4.0, 0.0)]);
    let all = simulate(&table, 2000, 2000, &vec![2, 2, 0], one(), compound);
    let results = all[0].as_ref().unwrap();
    assert_eq!(results.len(), 1);
    assert_eq!(results[0].horizon, 2);
    assert!(close(results[0].kapitalforsakring_multiplier, 4.0));
}

#[test]
fn a_run_starts_from_the_multipliers_it_is_given() {
    let table = table_of(&[(2000, 1.0, 0.0), (2001, 2.0, 0.0), (2002, 6.0, 0.5)]);
    let steps = plan_start_year(&table, 2000, &vec![1, 2]).unwrap();
    let initial = Multipliers { aktiekonto: 10.0, kapitalforsakring: 100.0 };
    let results = run_steps(7, &steps, initial, &compound);
    assert_eq!(results.len(), 2);
    assert_eq!((results[0].start_year, results[0].horizon), (7, 1));
    assert!(close(results[0].kapitalforsakring_multiplier, 200.0));
    assert!(close(results[0].aktiekonto_multiplier, 20.0 - 19.0 * 0.206));
    assert_eq!((results[1].start_year, results[1].horizon), (7, 2));
    assert!(close(results[1].kapitalforsakring_multiplier, 300.0));
    assert!(close(results[1].aktiekonto_multiplier, 60.0 - 59.0 * 0.206));
}

#[test]
fn a_step_reports_only_where_it_ends_a_horizon() {
    let marked = Step { year: 2005, previous_index: 1.0, index: 2.0, reference_rate: 0.0, horizon: Some(5) };
    let plain = Step { horizon: None, ..marked };
    let r = marked.result(2000, 1.5, 1.25).unwrap();
    assert_eq!((r.start_year, r.horizon), (2000, 5));
    assert_eq!((r.aktiekonto_multiplier, r.kapitalforsakring_multiplier), (1.5, 1.25));
    assert!(plain.result(2000, 1.5, 1.25).is_none());
}
