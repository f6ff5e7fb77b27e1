use account_horizons::date::Date;
use account_horizons::series::{last_per_year, Observation};
use account_horizons::table::build_table;

fn obs(year: i32, month: u32, day: u32, value: f64) -> Observation<f64> {
    Observation { date: Date { year, month, day }, value }
}

#[test]
fn representative_is_the_latest_of_each_year() {
    let source = vec![
        obs(2001, 6, 1, 11.0),
        obs(2000, 12, 29, 3.0),
        obs(2001, 12, 28, 12.0),
        obs(2000, 1, 3, 1.0),
        obs(2001, 1, 2, 10.0),
        obs(2000, 12, 30, 4.0),
        obs(2000, 6, 15, 2.0),
    ];
    let reps = last_per_year(&source);
    assert_eq!(reps.len(), 2);
    assert_eq!(reps[0].date, Date { year: 2000, month: 12, day: 30 });
    assert_eq!(reps[0].value, 4.0);
    assert_eq!(reps[1].date, Date { year: 2001, month: 12, day: 28 });
    assert_eq!(reps[1].value, 12.0);
}

#[test]
fn among_equal_dates_the_later_in_the_source_wins() {
    let source = vec![
        obs(2000, 12, 30, 1.0),
        obs(2001, 12, 28, 5.0),
        obs(2000, 12, 30, 2.0),
        obs(2000, 3, 1, 9.0),
        obs(2001, 12, 28, 6.0),
        obs(2000, 12, 30, 3.0),
        obs(2001, 12, 27, 7.0),
    ];
    let reps = last_per_year(&source);
    assert_eq!(reps.len(), 2);
    assert_eq!(reps[0].value, 3.0);
    assert_eq!(reps[1].value, 6.0);
}

#[test]
fn years_come_out_ascending_whatever_the_source_order() {
    let source = vec![obs(2005, 1, 1, 5.0), obs(1999, 1, 1, 9.0), obs(2002, 1, 1, 2.0)];
    let reps = last_per_year(&source);
    let years: Vec<i32> = reps.iter().map(|o| o.date.year).collect();
    assert_eq!(years, vec![1999, 2002, 2005]);
}

#[test]
fn no_observations_no_representatives() {
    let source: Vec<Observation<f64>> = Vec::new();
    assert!(last_per_year(&source).is_empty());
}

#[test]
fn table_covers_the_union_of_years() {
    let index = vec![obs(2000, 12, 29, 100.0), obs(2001, 12, 28, 110.0)];
    let rates = vec![obs(2001, 12, 28, 3.5), obs(2002, 12, 30, 4.5)];
    let table = build_table(&index, &rates, 0.0, 0.0);
    assert_eq!(table.len(), 3);
    assert_eq!(table.first_year(), Some(2000));
    assert_eq!(table.last_year(), Some(2002));
    assert!(table.get(1999).is_none());
    assert!(table.get(2003).is_none());

    let y2000 = table.get(2000).unwrap();
    assert_eq!((y2000.year, y2000.index_value, y2000.reference_rate), (2000, 100.0, 0.0));
    let y2001 = table.get(2001).unwrap();
    assert_eq!((y2001.year, y2001.index_value, y2001.reference_rate), (2001, 110.0, 3.5));
    let y2002 = table.get(2002).unwrap();
    assert_eq!((y2002.year, y2002.index_value, y2002.reference_rate), (2002, 0.0, 4.5));
}

#[test]
fn table_fills_a_missing_side_with_what_it_is_given() {
    let index = vec![obs(2000, 12, 29, 100.0)];
    let rates = vec![obs(2001, 12, 28, 3.5)];
    let table = build_table(&index, &rates, -1.0, -2.0);
    let y2000 = table.get(2000).unwrap();
    assert_eq!((y2000.index_value, y2000.reference_rate), (100.0, -2.0));
    let y2001 = table.get(2001).unwrap();
    assert_eq!((y2001.index_value, y2001.reference_rate), (-1.0, 3.5));
}

#[test]
fn table_takes_each_years_latest_from_unordered_sources() {
    let index = vec![
        obs(2001, 12, 28, 120.0),
        obs(2000, 12, 29, 100.0),
        obs(2001, 3, 1, 90.0),
        obs(2000, 12, 29, 101.0),
    ];
    let rates = vec![obs(2000, 5, 5, 1.0), obs(2000, 2, 2, 2.0), obs(2001, 1, 1, 3.0)];
    let table = build_table(&index, &rates, 0.0, 0.0);
    assert_eq!(table.len(), 2);
    let y2000 = table.get(2000).unwrap();
    assert_eq!((y2000.index_value, y2000.reference_rate), (101.0, 1.0));
    let y2001 = table.get(2001).unwrap();
    assert_eq!((y2001.index_value, y2001.reference_rate), (120.0, 3.0));
}

#[test]
fn table_of_nothing_is_empty() {
    let none: Vec<Observation<f64>> = Vec::new();
    let table = build_table(&none, &none, 0.0, 0.0);
    assert_eq!(table.len(), 0);
    assert_eq!(table.first_year(), None);
    assert_eq!(table.last_year(), None);
    assert!(table.get(2000).is_none());
}

#[test]
fn table_years_need_not_be_contiguous() {
    let index = vec![obs(1993, 12, 30, 100.0), obs(1998, 12, 30, 150.0)];
    let none: Vec<Observation<f64>> = Vec::new();
    let table = build_table(&index, &none, 0.0, 0.0);
    assert_eq!(table.len(), 2);
    assert!(table.get(1993).is_some());
    assert!(table.get(1995).is_none());
    assert!(table.get(1998).is_some());
}
