//! The year-indexed table: one snapshot per calendar year, made from the two
//! sources' yearly representatives.

use crate::series::{
    is_yearly_selection, last_per_year, representative, year_seen, years_ascend, Observation,
};
use vstd::prelude::*;

verus! {

/// What is known of one calendar year: the index level and the reference
/// rate that stand for it.
#[derive(Clone, Copy, Debug)]
pub struct YearSnapshot<V> {
    pub year: i32,
    pub index_value: V,
    pub reference_rate: V,
}

/// A mapping from calendar years to snapshots, at most one per year. The
/// years need not be contiguous.
pub struct YearIndexTable<V> {
    rows: Vec<YearSnapshot<V>>,
}

/// The years of `rows` ascend strictly.
spec fn rows_ascend<V>(rows: Seq<YearSnapshot<V>>) -> bool {
    forall|a: int, b: int|
        #![trigger rows[a], rows[b]]
        0 <= a < b < rows.len() ==> rows[a].year < rows[b].year
}

/// Some row is of `year`.
spec fn has_row<V>(rows: Seq<YearSnapshot<V>>, year: int) -> bool {
    exists|k: int| #![trigger rows[k]] 0 <= k < rows.len() && rows[k].year == year
}

/// Where the row of `year` stands.
spec fn row_of<V>(rows: Seq<YearSnapshot<V>>, year: int) -> int {
    choose|k: int| #![trigger rows[k]] 0 <= k < rows.len() && rows[k].year == year
}

/// The mapping that `rows` stands for.
spec fn rows_map<V>(rows: Seq<YearSnapshot<V>>) -> Map<int, YearSnapshot<V>> {
    Map::new(|y: int| has_row(rows, y), |y: int| rows[row_of(rows, y)])
}

/// In rows whose years ascend, each row is the one its year maps to.
proof fn lemma_row_lookup<V>(rows: Seq<YearSnapshot<V>>, k: int)
    requires
        rows_ascend(rows),
        0 <= k < rows.len(),
    ensures
        rows_map(rows).contains_key(rows[k].year as int),
        rows_map(rows)[rows[k].year as int] == rows[k],
{
    let y = rows[k].year as int;
    let c = row_of(rows, y);
    assert(0 <= c < rows.len() && rows[c].year == y);
    if c < k {
        assert(rows[c].year < rows[k].year);
    } else if k < c {
        assert(rows[k].year < rows[c].year);
    }
}

/// The value that a source contributes to `year`: that of the observation
/// which stands for the year, or `missing` where the source has none.
pub open spec fn yearly_value<V>(obs: Seq<Observation<V>>, year: int, missing: V) -> V {
    match representative(obs, year) {
        Some(o) => o.value,
        None => missing,
    }
}

/// The snapshot of `year` that the two sources give.
pub open spec fn snapshot_of<V>(
    index_obs: Seq<Observation<V>>,
    rate_obs: Seq<Observation<V>>,
    year: int,
    missing_index: V,
    missing_rate: V,
) -> YearSnapshot<V> {
    YearSnapshot {
        year: year as i32,
        index_value: yearly_value(index_obs, year, missing_index),
        reference_rate: yearly_value(rate_obs, year, missing_rate),
    }
}

/// `table` is the table of the two sources: it covers exactly the years
/// that either source observed, and holds for each the snapshot they give.
pub open spec fn is_table_of<V>(
    table: Map<int, YearSnapshot<V>>,
    index_obs: Seq<Observation<V>>,
    rate_obs: Seq<Observation<V>>,
    missing_index: V,
    missing_rate: V,
) -> bool {
    &&& forall|y: int|
        #![trigger table.contains_key(y)]
        table.contains_key(y) <==> year_seen(index_obs, y) || year_seen(rate_obs, y)
    &&& forall|y: int|
        #![trigger table[y]]
        table.contains_key(y) ==> table[y] == snapshot_of(
            index_obs,
            rate_obs,
            y,
            missing_index,
            missing_rate,
        )
}

impl<V> View for YearIndexTable<V> {
    type V = Map<int, YearSnapshot<V>>;

    closed spec fn view(&self) -> Map<int, YearSnapshot<V>> {
        rows_map(self.rows@)
    }
}

impl<V> YearIndexTable<V> {
    #[verifier::type_invariant]
    spec fn ascending(&self) -> bool {
        rows_ascend(self.rows@)
    }
}

impl<V: Copy> YearIndexTable<V> {
    /// The number of years that the table covers.
    pub fn len(&self) -> (n: usize)
        ensures
            n == self@.dom().len(),
            self@.dom().finite(),
    {
        proof {
            use_type_invariant(self);
            lemma_rows_domain(self.rows@);
        }
        self.rows.len()
    }

    /// The snapshot of `year`, if the table covers the year.
    pub fn get(&self, year: i32) -> (r: Option<YearSnapshot<V>>)
        ensures
            r == if self@.contains_key(year as int) {
                Some(self@[year as int])
            } else {
                None
            },
            r matches Some(s) ==> s.year == year,
    {
        proof {
            use_type_invariant(self);
        }
        let mut lo: usize = 0;
        let mut hi: usize = self.rows.len();
        while lo < hi
            invariant
                lo <= hi <= self.rows.len(),
                rows_ascend(self.rows@),
                forall|k: int| #![trigger self.rows[k]] 0 <= k < lo ==> self.rows[k].year < year,
                forall|k: int|
                    #![trigger self.rows[k]]
                    hi <= k < self.rows.len() ==> self.rows[k].year > year,
            decreases hi - lo,
        {
            let mid = lo + (hi - lo) / 2;
            let row = self.rows[mid];
            if row.year == year {
                proof {
                    lemma_row_lookup(self.rows@, mid as int);
                }
                return Some(row);
            } else if row.year < year {
                proof {
                    assert forall|k: int| #![trigger self.rows[k]] 0 <= k < mid + 1 implies self.rows[k].year
                        < year by {
                        if k < mid {
                            assert(self.rows[k].year < self.rows[mid as int].year);
                        }
                    }
                }
                lo = mid + 1;
            } else {
                proof {
                    assert forall|k: int|
                        #![trigger self.rows[k]]
                        mid <= k < self.rows.len() implies self.rows[k].year > year by {
                        if k > mid {
                            assert(self.rows[mid as int].year < self.rows[k].year);
                        }
                    }
                }
                hi = mid;
            }
        }
        None
    }

    /// The earliest year that the table covers.
    pub fn first_year(&self) -> (r: Option<i32>)
        ensures
            match r {
                Some(y) => self@.contains_key(y as int) && forall|z: int|
                    self@.contains_key(z) ==> y <= z,
                None => forall|z: int| !self@.contains_key(z),
            },
    {
        proof {
            use_type_invariant(self);
        }
        if self.rows.len() == 0 {
            None
        } else {
            let y = self.rows[0].year;
            proof {
                lemma_row_lookup(self.rows@, 0);
                assert forall|z: int| self@.contains_key(z) implies y <= z by {
                    let k = row_of(self.rows@, z);
                    if k > 0 {
                        assert(self.rows[0].year < self.rows[k].year);
                    }
                }
            }
            Some(y)
        }
    }

    /// The latest year that the table covers.
    pub fn last_year(&self) -> (r: Option<i32>)
        ensures
            r == latest_year(self@),
            match r {
                Some(y) => self@.contains_key(y as int) && forall|z: int|
                    self@.contains_key(z) ==> z <= y,
                None => forall|z: int| !self@.contains_key(z),
            },
    {
        proof {
            use_type_invariant(self);
        }
        let n = self.rows.len();
        if n == 0 {
            proof {
                lemma_latest_year(self@, None);
            }
            None
        } else {
            let y = self.rows[n - 1].year;
            proof {
                lemma_row_lookup(self.rows@, n - 1);
                assert forall|z: int| self@.contains_key(z) implies z <= y by {
                    let k = row_of(self.rows@, z);
                    if k < n - 1 {
                        assert(self.rows[k].year < self.rows[n - 1].year);
                    }
                }
                lemma_latest_year(self@, Some(y));
            }
            Some(y)
        }
    }
}

/// `y` is a year of `table` and none of its years is later.
pub open spec fn is_latest_year<V>(table: Map<int, YearSnapshot<V>>, y: i32) -> bool {
    table.contains_key(y as int) && forall|z: int| table.contains_key(z) ==> z <= y
}

/// The latest year of `table`, or `None` where it has none.
pub open spec fn latest_year<V>(table: Map<int, YearSnapshot<V>>) -> Option<i32> {
    if exists|y: i32| is_latest_year(table, y) {
        Some(choose|y: i32| is_latest_year(table, y))
    } else {
        None
    }
}

/// What has the defining property of the latest year is the latest year.
pub proof fn lemma_latest_year<V>(table: Map<int, YearSnapshot<V>>, r: Option<i32>)
    requires
        match r {
            Some(y) => is_latest_year(table, y),
            None => forall|z: int| !table.contains_key(z),
        },
    ensures
        latest_year(table) == r,
{
    match r {
        Some(y) => {
            let c = choose|c: i32| is_latest_year(table, c);
            assert(is_latest_year(table, c));
            assert(c <= y && y <= c);
        },
        None => {
            if exists|y: i32| is_latest_year(table, y) {
                let c = choose|c: i32| is_latest_year(table, c);
                assert(table.contains_key(c as int));
            }
        },
    }
}

/// Rows whose years ascend stand for a finite mapping with one key per row.
proof fn lemma_rows_domain<V>(rows: Seq<YearSnapshot<V>>)
    requires
        rows_ascend(rows),
    ensures
        rows_map(rows).dom().finite(),
        rows_map(rows).dom().len() == rows.len(),
    decreases rows.len(),
{
    let dom = rows_map(rows).dom();
    if rows.len() == 0 {
        assert(dom =~= Set::<int>::empty());
    } else {
        let front = rows.drop_last();
        let y = rows.last().year as int;
        assert(rows_ascend(front)) by {
            assert forall|a: int, b: int|
                #![trigger front[a], front[b]]
                0 <= a < b < front.len() implies front[a].year < front[b].year by {
                assert(rows[a].year < rows[b].year);
            }
        }
        lemma_rows_domain(front);
        let fdom = rows_map(front).dom();
        assert(!fdom.contains(y)) by {
            if has_row(front, y) {
                let k = row_of(front, y);
                assert(rows[k].year < rows[rows.len() - 1].year);
            }
        }
        assert(dom =~= fdom.insert(y)) by {
            assert forall|z: int| dom.contains(z) <==> fdom.insert(y).contains(z) by {
                if has_row(rows, z) {
                    let k = row_of(rows, z);
                    if k < rows.len() - 1 {
                        assert(front[k].year == z);
                    }
                }
                if has_row(front, z) {
                    let k = row_of(front, z);
                    assert(rows[k].year == z);
                }
                if z == y {
                    assert(rows[rows.len() - 1].year == z);
                }
            }
        }
    }
}

/// What a row takes from a yearly selection `sel`: the value of the entry
/// of the row's year, or `missing` where no entry is of that year.
spec fn taken_from<V>(sel: Seq<Observation<V>>, year: int, value: V, missing: V) -> bool {
    ||| exists|i: int| #![trigger sel[i]] 0 <= i < sel.len() && sel[i].date.year == year && sel[i].value == value
    ||| (!year_seen(sel, year) && value == missing)
}

/// The state of the merge of two yearly selections after `i` entries of
/// `a` and `j` entries of `b` have gone into `rows`.
spec fn merged<V>(
    a: Seq<Observation<V>>,
    b: Seq<Observation<V>>,
    i: int,
    j: int,
    rows: Seq<YearSnapshot<V>>,
    missing_a: V,
    missing_b: V,
) -> bool {
    &&& 0 <= i <= a.len()
    &&& 0 <= j <= b.len()
    &&& years_ascend(a)
    &&& years_ascend(b)
    &&& rows_ascend(rows)
    &&& (rows.len() > 0 && i < a.len() ==> rows.last().year < a[i].date.year)
    &&& (rows.len() > 0 && j < b.len() ==> rows.last().year < b[j].date.year)
    &&& (i > 0 && j < b.len() ==> a[i - 1].date.year < b[j].date.year)
    &&& (j > 0 && i < a.len() ==> b[j - 1].date.year < a[i].date.year)
    &&& forall|k: int|
        #![trigger rows[k]]
        0 <= k < rows.len() ==> {
            &&& taken_from(a, rows[k].year as int, rows[k].index_value, missing_a)
            &&& taken_from(b, rows[k].year as int, rows[k].reference_rate, missing_b)
            &&& (year_seen(a, rows[k].year as int) || year_seen(b, rows[k].year as int))
        }
    &&& forall|m: int| #![trigger a[m]] 0 <= m < i ==> has_row(rows, a[m].date.year as int)
    &&& forall|m: int| #![trigger b[m]] 0 <= m < j ==> has_row(rows, b[m].date.year as int)
}

/// In a selection whose years ascend, a year that lies strictly between the
/// entries before `i` and the entries from `i` on does not occur.
proof fn lemma_year_absent<V>(sel: Seq<Observation<V>>, i: int, year: int)
    requires
        years_ascend(sel),
        0 <= i <= sel.len(),
        i > 0 ==> sel[i - 1].date.year < year,
        i < sel.len() ==> year < sel[i].date.year,
    ensures
        !year_seen(sel, year),
{
    if year_seen(sel, year) {
        let w = choose|w: int| #![trigger sel[w]] 0 <= w < sel.len() && sel[w].date.year == year;
        if w < i {
            if w < i - 1 {
                assert(sel[w].date.year < sel[i - 1].date.year);
            }
        } else {
            if w > i {
                assert(sel[i].date.year < sel[w].date.year);
            }
        }
    }
}

proof fn lemma_merge_step<V>(
    a: Seq<Observation<V>>,
    b: Seq<Observation<V>>,
    i: int,
    j: int,
    rows: Seq<YearSnapshot<V>>,
    missing_a: V,
    missing_b: V,
    row: YearSnapshot<V>,
    from_a: bool,
    from_b: bool,
)
    requires
        merged(a, b, i, j, rows, missing_a, missing_b),
        from_a || from_b,
        from_a ==> i < a.len() && row.year == a[i].date.year && row.index_value == a[i].value,
        from_b ==> j < b.len() && row.year == b[j].date.year && row.reference_rate == b[j].value,
        !from_a ==> row.index_value == missing_a && (i < a.len() ==> b[j].date.year
            < a[i].date.year),
        !from_b ==> row.reference_rate == missing_b && (j < b.len() ==> a[i].date.year
            < b[j].date.year),
    ensures
        merged(
            a,
            b,
            if from_a { i + 1 } else { i },
            if from_b { j + 1 } else { j },
            rows.push(row),
            missing_a,
            missing_b,
        ),
{
    let i2 = if from_a { i + 1 } else { i };
    let j2 = if from_b { j + 1 } else { j };
    let rows2 = rows.push(row);
    let year = row.year as int;
    if from_a {
        assert(a[i].date.year == year);
        if i + 1 < a.len() {
            assert(a[i].date.year < a[i + 1].date.year);
        }
    } else {
        lemma_year_absent(a, i, year);
    }
    if from_b {
        assert(b[j].date.year == year);
        if j + 1 < b.len() {
            assert(b[j].date.year < b[j + 1].date.year);
        }
    } else {
        lemma_year_absent(b, j, year);
    }
    assert(rows_ascend(rows2)) by {
        assert forall|x: int, y: int|
            #![trigger rows2[x], rows2[y]]
            0 <= x < y < rows2.len() implies rows2[x].year < rows2[y].year by {
            if y < rows.len() {
                assert(rows[x].year < rows[y].year);
            } else if x < rows.len() - 1 {
                assert(rows[x].year < rows[rows.len() - 1].year);
            }
        }
    }
    assert forall|k: int| #![trigger rows2[k]] 0 <= k < rows2.len() implies {
        &&& taken_from(a, rows2[k].year as int, rows2[k].index_value, missing_a)
        &&& taken_from(b, rows2[k].year as int, rows2[k].reference_rate, missing_b)
        &&& (year_seen(a, rows2[k].year as int) || year_seen(b, rows2[k].year as int))
    } by {
        if k < rows.len() {
            assert(rows2[k] == rows[k]);
        }
    }
    assert(rows2[rows.len() as int].year == year);
    assert forall|m: int| #![trigger a[m]] 0 <= m < i2 implies has_row(
        rows2,
        a[m].date.year as int,
    ) by {
        if m < i {
            let k = row_of(rows, a[m].date.year as int);
            assert(rows2[k].year == a[m].date.year);
        }
    }
    assert forall|m: int| #![trigger b[m]] 0 <= m < j2 implies has_row(
        rows2,
        b[m].date.year as int,
    ) by {
        if m < j {
            let k = row_of(rows, b[m].date.year as int);
            assert(rows2[k].year == b[m].date.year);
        }
    }
}

/// What a yearly selection says of a year is what its source says of it.
proof fn lemma_selection_value<V>(
    obs: Seq<Observation<V>>,
    sel: Seq<Observation<V>>,
    year: int,
    value: V,
    missing: V,
)
    requires
        is_yearly_selection(obs, sel),
        taken_from(sel, year, value, missing),
    ensures
        value == yearly_value(obs, year, missing),
        year_seen(sel, year) <==> year_seen(obs, year),
{
    if year_seen(sel, year) {
        let w = choose|w: int| #![trigger sel[w]] 0 <= w < sel.len() && sel[w].date.year == year;
        assert(representative(obs, sel[w].date.year as int) == Some(sel[w]));
        let p = choose|p: int| crate::series::represents(obs, year, p);
        assert(obs[p].date.year == year);
    }
    if year_seen(obs, year) {
        let w = choose|w: int| #![trigger obs[w]] 0 <= w < obs.len() && obs[w].date.year == year;
        assert(year_seen(sel, obs[w].date.year as int));
    }
    if exists|i: int| #![trigger sel[i]] 0 <= i < sel.len() && sel[i].date.year == year && sel[i].value == value {
        let i = choose|i: int| #![trigger sel[i]] 0 <= i < sel.len() && sel[i].date.year == year && sel[i].value == value;
        assert(representative(obs, sel[i].date.year as int) == Some(sel[i]));
    } else {
        if representative(obs, year).is_some() {
            let p = choose|p: int| crate::series::represents(obs, year, p);
            assert(obs[p].date.year == year);
        }
    }
}

/// Builds the table of two sources. Each source gives every calendar year
/// in which it has an observation the value of the one that stands for the
/// year; a year that only one source observed takes `missing_index` or
/// `missing_rate` for the other.
pub fn build_table<V: Copy>(
    index_obs: &Vec<Observation<V>>,
    rate_obs: &Vec<Observation<V>>,
    missing_index: V,
    missing_rate: V,
) -> (table: YearIndexTable<V>)
    ensures
        is_table_of(table@, index_obs@, rate_obs@, missing_index, missing_rate),
{
    let a = last_per_year(index_obs);
    let b = last_per_year(rate_obs);
    let mut rows: Vec<YearSnapshot<V>> = Vec::new();
    let mut i: usize = 0;
    let mut j: usize = 0;
    while i < a.len() || j < b.len()
        invariant
            merged(a@, b@, i as int, j as int, rows@, missing_index, missing_rate),
        decreases a.len() - i + b.len() - j,
    {
        let from_a = j >= b.len() || (i < a.len() && a[i].date.year <= b[j].date.year);
        let from_b = i >= a.len() || (j < b.len() && b[j].date.year <= a[i].date.year);
        let row = YearSnapshot {
            year: if from_a { a[i].date.year } else { b[j].date.year },
            index_value: if from_a { a[i].value } else { missing_index },
            reference_rate: if from_b { b[j].value } else { missing_rate },
        };
        proof {
            lemma_merge_step(
                a@,
                b@,
                i as int,
                j as int,
                rows@,
                missing_index,
                missing_rate,
                row,
                from_a,
                from_b,
            );
        }
        rows.push(row);
        if from_a {
            i = i + 1;
        }
        if from_b {
            j = j + 1;
        }
    }
    let table = YearIndexTable { rows };
    proof {
        let map = table@;
        assert forall|y: int| #![trigger map.contains_key(y)] map.contains_key(y) <==> year_seen(
            index_obs@,
            y,
        ) || year_seen(rate_obs@, y) by {
            if map.contains_key(y) {
                let k = row_of(table.rows@, y);
                lemma_selection_value(index_obs@, a@, y, table.rows[k].index_value, missing_index);
                lemma_selection_value(rate_obs@, b@, y, table.rows[k].reference_rate, missing_rate);
            }
            if year_seen(index_obs@, y) {
                let w = choose|w: int| #![trigger index_obs[w]] 0 <= w < index_obs.len() && index_obs[w].date.year == y;
                assert(year_seen(a@, index_obs[w].date.year as int));
                let m = choose|m: int| #![trigger a[m]] 0 <= m < a.len() && a[m].date.year == y;
                assert(has_row(table.rows@, a[m].date.year as int));
            }
            if year_seen(rate_obs@, y) {
                let w = choose|w: int| #![trigger rate_obs[w]] 0 <= w < rate_obs.len() && rate_obs[w].date.year == y;
                assert(year_seen(b@, rate_obs[w].date.year as int));
                let m = choose|m: int| #![trigger b[m]] 0 <= m < b.len() && b[m].date.year == y;
                assert(has_row(table.rows@, b[m].date.year as int));
            }
        }
        assert forall|y: int| #![trigger map[y]] map.contains_key(y) implies map[y] == snapshot_of(
            index_obs@,
            rate_obs@,
            y,
            missing_index,
            missing_rate,
        ) by {
            let k = row_of(table.rows@, y);
            lemma_selection_value(index_obs@, a@, y, table.rows[k].index_value, missing_index);
            lemma_selection_value(rate_obs@, b@, y, table.rows[k].reference_rate, missing_rate);
        }
    }
    table
}

} // verus!
