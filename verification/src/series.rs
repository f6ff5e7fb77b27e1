//! Dated observations, and the one that stands for each calendar year: the
//! latest of the year, and among several of one date the one that comes
//! last in the source.

use crate::date::Date;
use vstd::prelude::*;

verus! {

/// One dated reading of a source. The library never looks at `value`.
#[derive(Clone, Copy, Debug)]
pub struct Observation<V> {
    pub date: Date,
    pub value: V,
}

/// Among the first `n` observations, the one at `i` is of `year`, and no
/// other of that year is dated later, nor dated the same and placed after it.
pub open spec fn represents_within<V>(obs: Seq<Observation<V>>, n: int, year: int, i: int) -> bool {
    &&& 0 <= i < n <= obs.len()
    &&& obs[i].date.year == year
    &&& forall|j: int|
        #![trigger obs[j]]
        0 <= j < n && obs[j].date.year == year ==> obs[j].date.precedes(obs[i].date) || (obs[j].date
            == obs[i].date && j <= i)
}

/// The observation at `i` stands for `year` in `obs`.
pub open spec fn represents<V>(obs: Seq<Observation<V>>, year: int, i: int) -> bool {
    represents_within(obs, obs.len() as int, year, i)
}

/// Some observation among the first `n` is of `year`.
pub open spec fn year_seen_within<V>(obs: Seq<Observation<V>>, n: int, year: int) -> bool {
    exists|i: int| #![trigger obs[i]] 0 <= i < n && i < obs.len() && obs[i].date.year == year
}

/// Some observation is of `year`.
pub open spec fn year_seen<V>(obs: Seq<Observation<V>>, year: int) -> bool {
    year_seen_within(obs, obs.len() as int, year)
}

/// The observation that stands for `year`, if the year was observed at all.
pub open spec fn representative<V>(obs: Seq<Observation<V>>, year: int) -> Option<Observation<V>> {
    if exists|i: int| represents(obs, year, i) {
        Some(obs[choose|i: int| represents(obs, year, i)])
    } else {
        None
    }
}

/// The years of `reps` ascend strictly.
pub open spec fn years_ascend<V>(reps: Seq<Observation<V>>) -> bool {
    forall|a: int, b: int|
        #![trigger reps[a], reps[b]]
        0 <= a < b < reps.len() ==> reps[a].date.year < reps[b].date.year
}

/// `reps` holds, in ascending order of the year, exactly the observations
/// that stand for the years seen in `obs`.
pub open spec fn is_yearly_selection<V>(obs: Seq<Observation<V>>, reps: Seq<Observation<V>>) -> bool {
    &&& years_ascend(reps)
    &&& forall|k: int|
        #![trigger reps[k]]
        0 <= k < reps.len() ==> representative(obs, reps[k].date.year as int) == Some(reps[k])
    &&& forall|i: int|
        #![trigger obs[i]]
        0 <= i < obs.len() ==> year_seen(reps, obs[i].date.year as int)
}

/// At most one observation stands for a year.
pub proof fn lemma_representative_unique<V>(obs: Seq<Observation<V>>, year: int, i: int, j: int)
    requires
        represents(obs, year, i),
        represents(obs, year, j),
    ensures
        i == j,
{
    let a = obs[i];
    let b = obs[j];
    assert(a.date.precedes(b.date) || (a.date == b.date && i <= j));
    assert(b.date.precedes(a.date) || (b.date == a.date && j <= i));
}

/// Whoever stands for a year is what `representative` names.
pub proof fn lemma_representative_is<V>(obs: Seq<Observation<V>>, year: int, i: int)
    requires
        represents(obs, year, i),
    ensures
        representative(obs, year) == Some(obs[i]),
{
    let c = choose|c: int| represents(obs, year, c);
    lemma_representative_unique(obs, year, i, c);
}

/// A year seen among the first `n` observations has one among them that
/// stands for it.
pub proof fn lemma_seen_year_has_representative<V>(obs: Seq<Observation<V>>, n: int, year: int)
    requires
        0 <= n <= obs.len(),
        year_seen_within(obs, n, year),
    ensures
        exists|i: int| represents_within(obs, n, year, i),
    decreases n,
{
    let last = n - 1;
    if year_seen_within(obs, last, year) {
        lemma_seen_year_has_representative(obs, last, year);
        let p = choose|p: int| represents_within(obs, last, year, p);
        if obs[last].date.year == year && !obs[last].date.precedes(obs[p].date) {
            assert(represents_within(obs, n, year, last));
        } else {
            assert(represents_within(obs, n, year, p));
        }
    } else {
        let w = choose|w: int| #![trigger obs[w]] 0 <= w < n && w < obs.len() && obs[w].date.year == year;
        assert(w == last) by {
            if w < last {
                assert(0 <= w < last && w < obs.len() && obs[w].date.year == year);
            }
        }
        assert(represents_within(obs, n, year, last));
    }
}

/// Of every year that was observed, the representative is an observation
/// of that year, and every other observation of the year is dated earlier,
/// or is dated the same and comes earlier in the source: whatever the order
/// of the source and however many observations share a date, the
/// chronologically latest one stands for the year.
pub proof fn lemma_representative_is_latest<V>(obs: Seq<Observation<V>>, year: int)
    ensures
        year_seen(obs, year) <==> representative(obs, year).is_some(),
        year_seen(obs, year) ==> exists|i: int|
            #![trigger obs[i]]
            {
                &&& 0 <= i < obs.len()
                &&& representative(obs, year) == Some(obs[i])
                &&& obs[i].date.year == year
                &&& forall|j: int|
                    #![trigger obs[j]]
                    0 <= j < obs.len() && obs[j].date.year == year ==> !obs[i].date.precedes(
                        obs[j].date,
                    ) && (obs[j].date == obs[i].date ==> j <= i)
            },
{
    if year_seen(obs, year) {
        lemma_seen_year_has_representative(obs, obs.len() as int, year);
        let i = choose|i: int| represents_within(obs, obs.len() as int, year, i);
        assert(represents(obs, year, i));
        lemma_representative_is(obs, year, i);
        assert(0 <= i < obs.len() && representative(obs, year) == Some(obs[i]));
    }
    if representative(obs, year).is_some() {
        let i = choose|i: int| represents(obs, year, i);
        assert(0 <= i < obs.len() && obs[i].date.year == year);
    }
}

/// The position in `reps`, whose years ascend, at which an entry of `year`
/// stands or would have to be put.
fn slot_of_year<V>(reps: &Vec<Observation<V>>, year: i32) -> (k: usize)
    requires
        years_ascend(reps@),
    ensures
        k <= reps.len(),
        forall|a: int| #![trigger reps[a]] 0 <= a < k ==> reps[a].date.year < year,
        forall|a: int| #![trigger reps[a]] k <= a < reps.len() ==> reps[a].date.year >= year,
{
    let mut k: usize = reps.len();
    while k > 0 && reps[k - 1].date.year >= year
        invariant
            k <= reps.len(),
            years_ascend(reps@),
            forall|a: int| #![trigger reps[a]] k <= a < reps.len() ==> reps[a].date.year >= year,
        decreases k,
    {
        k = k - 1;
    }
    proof {
        if k > 0 {
            assert forall|a: int| #![trigger reps[a]] 0 <= a < k implies reps[a].date.year
                < year by {
                if a < k - 1 {
                    assert(reps[a].date.year < reps[k - 1].date.year);
                }
            }
        }
    }
    k
}

/// The bookkeeping of `last_per_year` after `n` observations: `reps` holds
/// the picks so far in ascending order of the year, `at` says where in
/// `obs` each pick stands, and `slot` says for each observation read where
/// in `reps` its year stands.
spec fn tracks<V>(
    obs: Seq<Observation<V>>,
    n: int,
    reps: Seq<Observation<V>>,
    at: Seq<int>,
    slot: Seq<int>,
) -> bool {
    &&& 0 <= n <= obs.len()
    &&& at.len() == reps.len()
    &&& slot.len() == n
    &&& years_ascend(reps)
    &&& forall|k: int|
        #![trigger reps[k]]
        0 <= k < reps.len() ==> represents_within(obs, n, reps[k].date.year as int, at[k])
            && reps[k] == obs[at[k]]
    &&& forall|j: int|
        #![trigger slot[j]]
        0 <= j < n ==> 0 <= slot[j] < reps.len() && reps[slot[j]].date.year == obs[j].date.year
}

proof fn lemma_tracks_keep<V>(
    obs: Seq<Observation<V>>,
    n: int,
    reps: Seq<Observation<V>>,
    at: Seq<int>,
    slot: Seq<int>,
    k: int,
)
    requires
        tracks(obs, n, reps, at, slot),
        n < obs.len(),
        0 <= k < reps.len(),
        reps[k].date.year == obs[n].date.year,
        obs[n].date.precedes(reps[k].date),
    ensures
        tracks(obs, n + 1, reps, at, slot.push(k)),
{
    let next = slot.push(k);
    assert forall|m: int| #![trigger reps[m]] 0 <= m < reps.len() implies represents_within(
        obs,
        n + 1,
        reps[m].date.year as int,
        at[m],
    ) by {
        assert(represents_within(obs, n, reps[m].date.year as int, at[m]));
        if m != k {
            assert(reps[m].date.year != reps[k].date.year) by {
                if m < k {
                    assert(reps[m].date.year < reps[k].date.year);
                } else {
                    assert(reps[k].date.year < reps[m].date.year);
                }
            }
        }
    }
    assert forall|j: int| #![trigger next[j]] 0 <= j < n + 1 implies 0 <= next[j] < reps.len()
        && reps[next[j]].date.year == obs[j].date.year by {
        if j < n {
            assert(next[j] == slot[j]);
        }
    }
}

proof fn lemma_tracks_replace<V>(
    obs: Seq<Observation<V>>,
    n: int,
    reps: Seq<Observation<V>>,
    at: Seq<int>,
    slot: Seq<int>,
    k: int,
)
    requires
        tracks(obs, n, reps, at, slot),
        n < obs.len(),
        0 <= k < reps.len(),
        reps[k].date.year == obs[n].date.year,
        !obs[n].date.precedes(reps[k].date),
    ensures
        tracks(obs, n + 1, reps.update(k, obs[n]), at.update(k, n), slot.push(k)),
{
    let o = obs[n];
    let p = at[k];
    let reps2 = reps.update(k, o);
    let at2 = at.update(k, n);
    let next = slot.push(k);
    assert(represents_within(obs, n, reps[k].date.year as int, p) && reps[k] == obs[p]);
    assert forall|m: int| #![trigger reps2[m]] 0 <= m < reps2.len() implies represents_within(
        obs,
        n + 1,
        reps2[m].date.year as int,
        at2[m],
    ) && reps2[m] == obs[at2[m]] by {
        if m != k {
            assert(reps2[m] == reps[m]);
            assert(represents_within(obs, n, reps[m].date.year as int, at[m]));
            assert(reps[m].date.year != reps[k].date.year) by {
                if m < k {
                    assert(reps[m].date.year < reps[k].date.year);
                } else {
                    assert(reps[k].date.year < reps[m].date.year);
                }
            }
        } else {
            assert forall|j: int|
                #![trigger obs[j]]
                0 <= j < n + 1 && obs[j].date.year == o.date.year implies obs[j].date.precedes(
                o.date,
            ) || (obs[j].date == o.date && j <= n) by {
                if j < n {
                    assert(obs[j].date.precedes(obs[p].date) || (obs[j].date == obs[p].date && j
                        <= p));
                }
            }
        }
    }
    assert(years_ascend(reps2)) by {
        assert forall|a: int, b: int|
            #![trigger reps2[a], reps2[b]]
            0 <= a < b < reps2.len() implies reps2[a].date.year < reps2[b].date.year by {
            assert(reps[a].date.year < reps[b].date.year);
        }
    }
    assert forall|j: int| #![trigger next[j]] 0 <= j < n + 1 implies 0 <= next[j] < reps2.len()
        && reps2[next[j]].date.year == obs[j].date.year by {
        if j < n {
            assert(next[j] == slot[j]);
            assert(reps[slot[j]].date.year == obs[j].date.year);
        }
    }
}

proof fn lemma_tracks_insert<V>(
    obs: Seq<Observation<V>>,
    n: int,
    reps: Seq<Observation<V>>,
    at: Seq<int>,
    slot: Seq<int>,
    k: int,
)
    requires
        tracks(obs, n, reps, at, slot),
        n < obs.len(),
        0 <= k <= reps.len(),
        forall|a: int| #![trigger reps[a]] 0 <= a < k ==> reps[a].date.year < obs[n].date.year,
        forall|a: int| #![trigger reps[a]] k <= a < reps.len() ==> reps[a].date.year > obs[n].date.year,
    ensures
        tracks(
            obs,
            n + 1,
            reps.insert(k, obs[n]),
            at.insert(k, n),
            Seq::new((n + 1) as nat, |j: int| if j == n { k } else if slot[j] < k { slot[j] } else { slot[j] + 1 }),
        ),
{
    let o = obs[n];
    let reps2 = reps.insert(k, o);
    let at2 = at.insert(k, n);
    let next = Seq::new(
        (n + 1) as nat,
        |j: int|
            if j == n {
                k
            } else if slot[j] < k {
                slot[j]
            } else {
                slot[j] + 1
            },
    );
    assert forall|j: int|
        #![trigger obs[j]]
        0 <= j < n + 1 && obs[j].date.year == o.date.year implies j == n by {
        if j < n {
            assert(reps[slot[j]].date.year == obs[j].date.year);
        }
    }
    assert forall|m: int| #![trigger reps2[m]] 0 <= m < reps2.len() implies represents_within(
        obs,
        n + 1,
        reps2[m].date.year as int,
        at2[m],
    ) && reps2[m] == obs[at2[m]] by {
        if m < k {
            assert(reps2[m] == reps[m]);
            assert(represents_within(obs, n, reps[m].date.year as int, at[m]));
        } else if m > k {
            assert(reps2[m] == reps[m - 1]);
            assert(represents_within(obs, n, reps[m - 1].date.year as int, at[m - 1]));
        }
    }
    assert(years_ascend(reps2)) by {
        assert forall|a: int, b: int|
            #![trigger reps2[a], reps2[b]]
            0 <= a < b < reps2.len() implies reps2[a].date.year < reps2[b].date.year by {
            let a0 = if a < k { a } else { a - 1 };
            let b0 = if b < k { b } else { b - 1 };
            if a != k && b != k {
                assert(reps[a0].date.year < reps[b0].date.year);
            } else if a == k {
                assert(reps[b0].date.year > o.date.year);
            } else {
                assert(reps[a0].date.year < o.date.year);
            }
        }
    }
    assert forall|j: int| #![trigger next[j]] 0 <= j < n + 1 implies 0 <= next[j] < reps2.len()
        && reps2[next[j]].date.year == obs[j].date.year by {
        if j < n {
            assert(reps[slot[j]].date.year == obs[j].date.year);
            if slot[j] < k {
                assert(reps2[slot[j]] == reps[slot[j]]);
            } else {
                assert(reps2[slot[j] + 1] == reps[slot[j]]);
            }
        }
    }
}

proof fn lemma_tracks_done<V>(
    obs: Seq<Observation<V>>,
    reps: Seq<Observation<V>>,
    at: Seq<int>,
    slot: Seq<int>,
)
    requires
        tracks(obs, obs.len() as int, reps, at, slot),
    ensures
        is_yearly_selection(obs, reps),
{
    assert forall|k: int| #![trigger reps[k]] 0 <= k < reps.len() implies representative(
        obs,
        reps[k].date.year as int,
    ) == Some(reps[k]) by {
        assert(represents_within(obs, obs.len() as int, reps[k].date.year as int, at[k]));
        lemma_representative_is(obs, reps[k].date.year as int, at[k]);
    }
    assert forall|i: int| #![trigger obs[i]] 0 <= i < obs.len() implies year_seen(
        reps,
        obs[i].date.year as int,
    ) by {
        assert(reps[slot[i]].date.year == obs[i].date.year);
    }
}

/// Picks, for every calendar year that occurs in `obs`, the observation
/// that stands for it, and returns the picks in ascending order of the
/// year. The order of `obs` matters only among observations of one date.
pub fn last_per_year<V: Copy>(obs: &Vec<Observation<V>>) -> (reps: Vec<Observation<V>>)
    ensures
        is_yearly_selection(obs@, reps@),
{
    let mut reps: Vec<Observation<V>> = Vec::new();
    let ghost mut at: Seq<int> = Seq::empty();
    let ghost mut slot: Seq<int> = Seq::empty();
    let mut i: usize = 0;
    while i < obs.len()
        invariant
            tracks(obs@, i as int, reps@, at, slot),
        decreases obs.len() - i,
    {
        let o = obs[i];
        let k = slot_of_year(&reps, o.date.year);
        if k < reps.len() && reps[k].date.year == o.date.year {
            if !o.date.is_before(&reps[k].date) {
                proof {
                    lemma_tracks_replace(obs@, i as int, reps@, at, slot, k as int);
                    at = at.update(k as int, i as int);
                }
                reps.set(k, o);
            } else {
                proof {
                    lemma_tracks_keep(obs@, i as int, reps@, at, slot, k as int);
                }
            }
            proof {
                slot = slot.push(k as int);
            }
        } else {
            proof {
                lemma_tracks_insert(obs@, i as int, reps@, at, slot, k as int);
                at = at.insert(k as int, i as int);
                let before = slot;
                slot =
                Seq::new(
                    (i + 1) as nat,
                    |j: int|
                        if j == i {
                            k as int
                        } else if before[j] < k {
                            before[j]
                        } else {
                            before[j] + 1
                        },
                );
            }
            reps.insert(k, o);
        }
        i = i + 1;
    }
    proof {
        lemma_tracks_done(obs@, reps@, at, slot);
    }
    reps
}

} // verus!
