//! Holding periods: for a start year, the chain of year-over-year steps up
//! to the table's latest year, with the table values that each step
//! compounds and a mark on the steps at which a target horizon ends; and
//! the run along that chain, which carries the two running multipliers from
//! step to step and reports them where a horizon ends. What a step does to
//! the multipliers is the caller's arithmetic.

use crate::table::{latest_year, YearIndexTable, YearSnapshot};
use vstd::prelude::*;

verus! {

/// A year inside a start year's window has no snapshot in the table.
#[derive(Clone, Copy, Debug, PartialEq, Eq, Structural)]
pub struct MissingYearError {
    pub start_year: i32,
    /// The earliest year of the window that the table lacks.
    pub year: i32,
}

/// One year-over-year step of a holding period.
#[derive(Clone, Copy, Debug)]
pub struct Step<V> {
    /// The year that the step arrives in.
    pub year: i32,
    /// The index level of the year before.
    pub previous_index: V,
    /// The index level of `year`.
    pub index: V,
    /// The reference rate of `year`.
    pub reference_rate: V,
    /// The number of years held once the step is taken, where that number
    /// is one of the target horizons.
    pub horizon: Option<u32>,
}

/// The outcome of one holding period: the cumulative multipliers of the two
/// account types after `horizon` years from `start_year`.
#[derive(Clone, Copy, Debug)]
pub struct SimulationResult<V> {
    pub start_year: i32,
    pub horizon: u32,
    pub aktiekonto_multiplier: V,
    pub kapitalforsakring_multiplier: V,
}

/// The table covers every year from `start` to `end`.
pub open spec fn covers<V>(table: Map<int, YearSnapshot<V>>, start: int, end: int) -> bool {
    forall|z: int| #![trigger table.contains_key(z)] start <= z <= end ==> table.contains_key(z)
}

/// The years of the window of `start`: it runs to the table's latest year
/// and is empty where the table has no year or `start` lies after them all.
pub open spec fn window_end<V>(table: Map<int, YearSnapshot<V>>, start: int) -> int {
    match latest_year(table) {
        Some(last) => if start <= last {
            last as int
        } else {
            start - 1
        },
        None => start - 1,
    }
}

/// `year` is the earliest year of the window of `start` that the table
/// lacks.
pub open spec fn is_first_gap<V>(table: Map<int, YearSnapshot<V>>, start: int, year: int) -> bool {
    &&& start <= year <= window_end(table, start)
    &&& !table.contains_key(year)
    &&& covers(table, start, year - 1)
}

/// The mark of the step after which `held` years have passed.
pub open spec fn horizon_mark(horizons: Seq<u32>, held: int) -> Option<u32> {
    if 0 < held <= u32::MAX && horizons.contains(held as u32) {
        Some(held as u32)
    } else {
        None
    }
}

/// The step number `i` (from 0) of the window of `start`.
pub open spec fn step_of<V>(
    table: Map<int, YearSnapshot<V>>,
    start: int,
    horizons: Seq<u32>,
    i: int,
) -> Step<V> {
    let year = start + 1 + i;
    Step {
        year: year as i32,
        previous_index: table[year - 1].index_value,
        index: table[year].index_value,
        reference_rate: table[year].reference_rate,
        horizon: horizon_mark(horizons, i + 1),
    }
}

/// The steps from `start` to `end`, one for each year after `start`.
pub open spec fn steps_between<V>(
    table: Map<int, YearSnapshot<V>>,
    start: int,
    end: int,
    horizons: Seq<u32>,
) -> Seq<Step<V>> {
    Seq::new(
        if end > start {
            (end - start) as nat
        } else {
            0
        },
        |i: int| step_of(table, start, horizons, i),
    )
}

/// `plan` is the plan of the start year `start`: the steps of its whole
/// window where the table covers the window, and else the error that names
/// the earliest year lacking.
pub open spec fn is_plan<V>(
    table: Map<int, YearSnapshot<V>>,
    start: i32,
    horizons: Seq<u32>,
    plan: Result<Vec<Step<V>>, MissingYearError>,
) -> bool {
    match plan {
        Ok(steps) => {
            &&& covers(table, start as int, window_end(table, start as int))
            &&& steps@ == steps_between(
                table,
                start as int,
                window_end(table, start as int),
                horizons,
            )
        },
        Err(e) => e.start_year == start && is_first_gap(table, start as int, e.year as int),
    }
}

/// A start year has one plan: a plan is a function of the table, the start
/// year and the horizons, so planning again gives the same steps or the
/// same error.
pub proof fn lemma_plan_is_unique<V>(
    table: Map<int, YearSnapshot<V>>,
    start: i32,
    horizons: Seq<u32>,
    first: Result<Vec<Step<V>>, MissingYearError>,
    second: Result<Vec<Step<V>>, MissingYearError>,
)
    requires
        is_plan(table, start, horizons, first),
        is_plan(table, start, horizons, second),
    ensures
        match (first, second) {
            (Ok(a), Ok(b)) => a@ == b@,
            (Err(a), Err(b)) => a == b,
            _ => false,
        },
{
    match (first, second) {
        (Err(a), Err(b)) => {
            if a.year < b.year {
                assert(table.contains_key(a.year as int));
            } else if b.year < a.year {
                assert(table.contains_key(b.year as int));
            }
        },
        (Err(a), Ok(_)) => {
            assert(table.contains_key(a.year as int));
        },
        (Ok(_), Err(b)) => {
            assert(table.contains_key(b.year as int));
        },
        _ => {},
    }
}

/// A step carries a mark only for a horizon that its start year reaches:
/// the marked number of years, counted from the start year, ends at the
/// step's year, which lies within the table.
pub proof fn lemma_marked_horizon_is_reached<V>(
    table: Map<int, YearSnapshot<V>>,
    start: i32,
    horizons: Seq<u32>,
    steps: Vec<Step<V>>,
    i: int,
)
    requires
        is_plan(table, start, horizons, Ok(steps)),
        0 <= i < steps.len(),
    ensures
        steps[i].year == start + 1 + i,
        table.contains_key(steps[i].year as int),
        latest_year(table) matches Some(last) && steps[i].year <= last,
        match steps[i].horizon {
            Some(h) => horizons.contains(h) && start + h == steps[i].year,
            None => !(0 < i + 1 <= u32::MAX && horizons.contains((i + 1) as u32)),
        },
{
    assert(steps@[i] == step_of(table, start as int, horizons, i));
    assert(table.contains_key(start + 1 + i));
}

fn is_target(horizons: &Vec<u32>, held: u32) -> (r: bool)
    ensures
        r == horizons@.contains(held),
{
    let mut k: usize = 0;
    while k < horizons.len()
        invariant
            k <= horizons.len(),
            forall|m: int| 0 <= m < k ==> horizons[m] != held,
        decreases horizons.len() - k,
    {
        if horizons[k] == held {
            return true;
        }
        k = k + 1;
    }
    false
}

/// Plans the holding periods that begin in `start_year`: one step for each
/// year after it up to the table's latest year, each marked if the years
/// held so far are one of `horizons`. Fails with the earliest year lacking
/// if the table does not cover the whole window from `start_year` on. A
/// start year at or after the latest year has no step.
pub fn plan_start_year<V: Copy>(
    table: &YearIndexTable<V>,
    start_year: i32,
    horizons: &Vec<u32>,
) -> (plan: Result<Vec<Step<V>>, MissingYearError>)
    ensures
        is_plan(table@, start_year, horizons@, plan),
{
    let mut steps: Vec<Step<V>> = Vec::new();
    let last = match table.last_year() {
        Some(last) => last,
        None => {
            assert(steps@ =~= steps_between(
                table@,
                start_year as int,
                start_year - 1,
                horizons@,
            ));
            return Ok(steps);
        },
    };
    if start_year > last {
        assert(steps@ =~= steps_between(table@, start_year as int, start_year - 1, horizons@));
        return Ok(steps);
    }
    assert(steps@ =~= steps_between(table@, start_year as int, start_year as int, horizons@));
    let mut previous = match table.get(start_year) {
        Some(snapshot) => snapshot,
        None => {
            return Err(MissingYearError { start_year, year: start_year });
        },
    };
    let mut year: i32 = start_year;
    while year < last
        invariant
            start_year <= year <= last,
            latest_year(table@) == Some(last),
            covers(table@, start_year as int, year as int),
            previous == table@[year as int],
            steps@ == steps_between(table@, start_year as int, year as int, horizons@),
        decreases last - year,
    {
        year = year + 1;
        let current = match table.get(year) {
            Some(snapshot) => snapshot,
            None => {
                return Err(MissingYearError { start_year, year });
            },
        };
        let held: u32 = (year as i64 - start_year as i64) as u32;
        let horizon = if is_target(horizons, held) {
            Some(held)
        } else {
            None
        };
        steps.push(
            Step {
                year,
                previous_index: previous.index_value,
                index: current.index_value,
                reference_rate: current.reference_rate,
                horizon,
            },
        );
        previous = current;
    }
    Ok(steps)
}

/// The two running multipliers of a holding period: the brokerage
/// account's before its tax on the gain, and the insurance wrapper's after
/// its yearly tax.
#[derive(Clone, Copy, Debug)]
pub struct Multipliers<V> {
    pub aktiekonto: V,
    pub kapitalforsakring: V,
}

/// What one step makes of the running multipliers: their next values, and
/// the brokerage account's multiplier if the holding were sold now.
#[derive(Clone, Copy, Debug)]
pub struct Compounded<V> {
    pub running: Multipliers<V>,
    pub aktiekonto_after_sale: V,
}

/// The multipliers that the step number `i` starts from.
pub open spec fn entering<V>(initial: Multipliers<V>, outcomes: Seq<Compounded<V>>, i: int) -> Multipliers<
    V,
> {
    if i == 0 {
        initial
    } else {
        outcomes[i - 1].running
    }
}

/// `outcomes` is what `compound` may make of `steps`, taken in order from
/// `initial`, each step starting from what the step before has reached.
pub open spec fn is_run<V, F: Fn(Multipliers<V>, Step<V>) -> Compounded<V>>(
    compound: F,
    initial: Multipliers<V>,
    steps: Seq<Step<V>>,
    outcomes: Seq<Compounded<V>>,
) -> bool {
    &&& outcomes.len() == steps.len()
    &&& forall|i: int|
        #![trigger outcomes[i]]
        0 <= i < steps.len() ==> call_ensures(
            compound,
            (entering(initial, outcomes, i), steps[i]),
            outcomes[i],
        )
}

/// The result that a step reports, given what it has reached.
pub open spec fn reported<V>(start_year: i32, step: Step<V>, outcome: Compounded<V>) -> Option<
    SimulationResult<V>,
> {
    match step.horizon {
        Some(h) => Some(
            SimulationResult {
                start_year,
                horizon: h,
                aktiekonto_multiplier: outcome.aktiekonto_after_sale,
                kapitalforsakring_multiplier: outcome.running.kapitalforsakring,
            },
        ),
        None => None,
    }
}

/// The results of a run, in the order of the steps: one for each step that
/// ends a target horizon.
pub open spec fn results_of<V>(
    start_year: i32,
    steps: Seq<Step<V>>,
    outcomes: Seq<Compounded<V>>,
) -> Seq<SimulationResult<V>>
    decreases steps.len(),
{
    if steps.len() == 0 || outcomes.len() != steps.len() {
        Seq::empty()
    } else {
        let earlier = results_of(start_year, steps.drop_last(), outcomes.drop_last());
        match reported(start_year, steps.last(), outcomes.last()) {
            Some(r) => earlier.push(r),
            None => earlier,
        }
    }
}

/// `outcomes` is a run of `compound` over `steps`, and `results` are the
/// results of that run.
pub open spec fn runs_to<V, F: Fn(Multipliers<V>, Step<V>) -> Compounded<V>>(
    compound: F,
    start_year: i32,
    initial: Multipliers<V>,
    steps: Seq<Step<V>>,
    outcomes: Seq<Compounded<V>>,
    results: Seq<SimulationResult<V>>,
) -> bool {
    is_run(compound, initial, steps, outcomes) && results == results_of(
        start_year,
        steps,
        outcomes,
    )
}

/// `results` are the results of some run of `compound` over `steps`.
pub open spec fn is_result_of_run<V, F: Fn(Multipliers<V>, Step<V>) -> Compounded<V>>(
    compound: F,
    start_year: i32,
    initial: Multipliers<V>,
    steps: Seq<Step<V>>,
    results: Seq<SimulationResult<V>>,
) -> bool {
    exists|outcomes: Seq<Compounded<V>>|
        runs_to(compound, start_year, initial, steps, outcomes, results)
}

/// Takes the steps of one start year in order, from `initial`, and gathers
/// the results at the steps that end a target horizon. The arithmetic of a
/// step is the caller's: `compound` is called once for each step, with the
/// multipliers reached so far.
pub fn run_steps<V: Copy, F: Fn(Multipliers<V>, Step<V>) -> Compounded<V>>(
    start_year: i32,
    steps: &Vec<Step<V>>,
    initial: Multipliers<V>,
    compound: &F,
) -> (results: Vec<SimulationResult<V>>)
    requires
        forall|m: Multipliers<V>, s: Step<V>| call_requires(*compound, (m, s)),
    ensures
        is_result_of_run(*compound, start_year, initial, steps@, results@),
{
    let mut results: Vec<SimulationResult<V>> = Vec::new();
    let mut running = initial;
    let ghost mut outcomes: Seq<Compounded<V>> = Seq::empty();
    let mut i: usize = 0;
    while i < steps.len()
        invariant
            i <= steps.len(),
            forall|m: Multipliers<V>, s: Step<V>| call_requires(*compound, (m, s)),
            is_run(*compound, initial, steps@.take(i as int), outcomes),
            running == entering(initial, outcomes, i as int),
            results@ == results_of(start_year, steps@.take(i as int), outcomes),
        decreases steps.len() - i,
    {
        let step = steps[i];
        let outcome = compound(running, step);
        proof {
            let before = outcomes;
            outcomes = outcomes.push(outcome);
            let taken = steps@.take(i + 1);
            assert(taken.drop_last() =~= steps@.take(i as int));
            assert(outcomes.drop_last() =~= before);
            assert forall|k: int| #![trigger outcomes[k]] 0 <= k < taken.len() implies call_ensures(
                *compound,
                (entering(initial, outcomes, k), taken[k]),
                outcomes[k],
            ) by {
                if k < i {
                    assert(outcomes[k] == before[k]);
                    assert(entering(initial, outcomes, k) == entering(initial, before, k));
                    assert(taken[k] == steps@.take(i as int)[k]);
                }
            }
        }
        match step.result(start_year, outcome.aktiekonto_after_sale, outcome.running.kapitalforsakring) {
            Some(r) => {
                results.push(r);
            },
            None => {},
        }
        running = outcome.running;
        i = i + 1;
    }
    proof {
        assert(steps@.take(steps.len() as int) =~= steps@);
        assert(runs_to(*compound, start_year, initial, steps@, outcomes, results@));
    }
    results
}

/// `outcome` is what simulating the start year `start` may give: the
/// results of a run over the steps of its plan, or the plan's error.
pub open spec fn is_simulation_of<V, F: Fn(Multipliers<V>, Step<V>) -> Compounded<V>>(
    table: Map<int, YearSnapshot<V>>,
    start: i32,
    horizons: Seq<u32>,
    initial: Multipliers<V>,
    compound: F,
    outcome: Result<Vec<SimulationResult<V>>, MissingYearError>,
) -> bool {
    match outcome {
        Ok(results) => {
            &&& covers(table, start as int, window_end(table, start as int))
            &&& is_result_of_run(
                compound,
                start,
                initial,
                steps_between(table, start as int, window_end(table, start as int), horizons),
                results@,
            )
        },
        Err(e) => e.start_year == start && is_first_gap(table, start as int, e.year as int),
    }
}

/// Simulates every start year from `first_start` to `last_start`, both
/// included, in ascending order. Each start year is taken by itself, from
/// `initial`: a year lacking in its window fails that start year and no
/// other, and a start year too late for a horizon has no result for it.
pub fn simulate<V: Copy, F: Fn(Multipliers<V>, Step<V>) -> Compounded<V>>(
    table: &YearIndexTable<V>,
    first_start: i32,
    last_start: i32,
    horizons: &Vec<u32>,
    initial: Multipliers<V>,
    compound: F,
) -> (outcome: Vec<Result<Vec<SimulationResult<V>>, MissingYearError>>)
    requires
        forall|m: Multipliers<V>, s: Step<V>| call_requires(compound, (m, s)),
    ensures
        outcome.len() == if first_start <= last_start {
            last_start - first_start + 1
        } else {
            0
        },
        forall|k: int|
            #![trigger outcome[k]]
            0 <= k < outcome.len() ==> is_simulation_of(
                table@,
                (first_start + k) as i32,
                horizons@,
                initial,
                compound,
                outcome[k],
            ),
{
    let mut all: Vec<Result<Vec<SimulationResult<V>>, MissingYearError>> = Vec::new();
    if first_start > last_start {
        return all;
    }
    let mut start: i32 = first_start;
    loop
        invariant_except_break
            all.len() == start - first_start,
        invariant
            first_start <= start <= last_start,
            forall|m: Multipliers<V>, s: Step<V>| call_requires(compound, (m, s)),
            forall|k: int|
                #![trigger all[k]]
                0 <= k < all.len() ==> is_simulation_of(
                    table@,
                    (first_start + k) as i32,
                    horizons@,
                    initial,
                    compound,
                    all[k],
                ),
        ensures
            start == last_start,
            all.len() == last_start - first_start + 1,
        decreases last_start - start,
    {
        let one = match plan_start_year(table, start, horizons) {
            Ok(steps) => Ok(run_steps(start, &steps, initial, &compound)),
            Err(e) => Err(e),
        };
        all.push(one);
        if start == last_start {
            break ;
        }
        start = start + 1;
    }
    all
}

/// `compound` gives one outcome for one input.
pub open spec fn is_deterministic<V, F: Fn(Multipliers<V>, Step<V>) -> Compounded<V>>(
    compound: F,
) -> bool {
    forall|m: Multipliers<V>, s: Step<V>, a: Compounded<V>, b: Compounded<V>|
        #![trigger call_ensures(compound, (m, s), a), call_ensures(compound, (m, s), b)]
        call_ensures(compound, (m, s), a) && call_ensures(compound, (m, s), b) ==> a == b
}

/// Two runs of deterministic arithmetic over the same steps agree up to any
/// step.
proof fn lemma_runs_agree<V, F: Fn(Multipliers<V>, Step<V>) -> Compounded<V>>(
    compound: F,
    initial: Multipliers<V>,
    steps: Seq<Step<V>>,
    first: Seq<Compounded<V>>,
    second: Seq<Compounded<V>>,
    i: int,
)
    requires
        is_deterministic(compound),
        is_run(compound, initial, steps, first),
        is_run(compound, initial, steps, second),
        0 <= i < steps.len(),
    ensures
        first[i] == second[i],
    decreases i,
{
    if i > 0 {
        lemma_runs_agree(compound, initial, steps, first, second, i - 1);
    }
    assert(entering(initial, first, i) == entering(initial, second, i));
    assert(call_ensures(compound, (entering(initial, first, i), steps[i]), first[i]));
    assert(call_ensures(compound, (entering(initial, second, i), steps[i]), second[i]));
}

/// Simulating a start year again gives the same: where the arithmetic is
/// deterministic, the outcome of a start year is a function of the table,
/// the start year, the horizons and the initial multipliers.
pub proof fn lemma_simulation_is_unique<V, F: Fn(Multipliers<V>, Step<V>) -> Compounded<V>>(
    table: Map<int, YearSnapshot<V>>,
    start: i32,
    horizons: Seq<u32>,
    initial: Multipliers<V>,
    compound: F,
    first: Result<Vec<SimulationResult<V>>, MissingYearError>,
    second: Result<Vec<SimulationResult<V>>, MissingYearError>,
)
    requires
        is_deterministic(compound),
        is_simulation_of(table, start, horizons, initial, compound, first),
        is_simulation_of(table, start, horizons, initial, compound, second),
    ensures
        match (first, second) {
            (Ok(a), Ok(b)) => a@ == b@,
            (Err(a), Err(b)) => a == b,
            _ => false,
        },
{
    let steps = steps_between(table, start as int, window_end(table, start as int), horizons);
    match (first, second) {
        (Ok(a), Ok(b)) => {
            let x = choose|x: Seq<Compounded<V>>| runs_to(compound, start, initial, steps, x, a@);
            let y = choose|y: Seq<Compounded<V>>| runs_to(compound, start, initial, steps, y, b@);
            assert forall|i: int| 0 <= i < steps.len() implies x[i] == y[i] by {
                lemma_runs_agree(compound, initial, steps, x, y, i);
            }
            assert(x =~= y);
        },
        (Err(a), Err(b)) => {
            if a.year < b.year {
                assert(table.contains_key(a.year as int));
            } else if b.year < a.year {
                assert(table.contains_key(b.year as int));
            }
        },
        (Err(a), Ok(_)) => {
            assert(table.contains_key(a.year as int));
        },
        (Ok(_), Err(b)) => {
            assert(table.contains_key(b.year as int));
        },
    }
}

impl<V: Copy> Step<V> {
    /// The result to report once this step is taken, given the two
    /// multipliers that the caller has reached with it: one where the step
    /// ends a target horizon, none elsewhere.
    pub fn result(&self, start_year: i32, aktiekonto: V, kapitalforsakring: V) -> (r: Option<
        SimulationResult<V>,
    >)
        ensures
            r == match self.horizon {
                Some(h) => Some(
                    SimulationResult {
                        start_year,
                        horizon: h,
                        aktiekonto_multiplier: aktiekonto,
                        kapitalforsakring_multiplier: kapitalforsakring,
                    },
                ),
                None => None,
            },
    {
        match self.horizon {
            Some(h) => Some(
                SimulationResult {
                    start_year,
                    horizon: h,
                    aktiekonto_multiplier: aktiekonto,
                    kapitalforsakring_multiplier: kapitalforsakring,
                },
            ),
            None => None,
        }
    }
}

} // verus!
