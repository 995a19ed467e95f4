//! Per-date, per-county accumulation of observations, and the merge of partial
//! accumulations.

use vstd::prelude::*;
use crate::record::{day_of, day_number, Kind, RawObservation};

verus! {

/// The accumulated counts of one county on one UTC day.
#[derive(Debug)]
pub struct CountyAggregate {
    /// UTC day number.
    pub date: i64,
    pub state: String,
    pub display_name: String,
    pub confirmed: i64,
    pub deaths: i64,
}

/// Whether an aggregate carries the key (day, state, county).
pub open spec fn is_key(c: CountyAggregate, d: int, st: Seq<char>, co: Seq<char>) -> bool {
    c.date as int == d && c.state@ == st && c.display_name@ == co
}

/// Whether two aggregates carry the same key.
pub open spec fn same_key(a: CountyAggregate, b: CountyAggregate) -> bool {
    is_key(b, a.date as int, a.state@, a.display_name@)
}

/// The metric of an aggregate for a kind; `Other` is never accumulated.
pub open spec fn metric(c: CountyAggregate, k: Kind) -> int {
    match k {
        Kind::Confirmed => c.confirmed as int,
        Kind::Deaths => c.deaths as int,
        Kind::Other => 0,
    }
}

/// No two aggregates of a sequence share a key.
pub open spec fn keys_unique(a: Seq<CountyAggregate>) -> bool {
    forall|i: int, j: int| 0 <= i < j < a.len() ==> !same_key(#[trigger] a[i], #[trigger] a[j])
}

/// Some aggregate of the sequence carries the key.
pub open spec fn has_key(a: Seq<CountyAggregate>, d: int, st: Seq<char>, co: Seq<char>) -> bool {
    exists|i: int| 0 <= i < a.len() && is_key(#[trigger] a[i], d, st, co)
}

/// The amount held for a key and kind: the sum over the aggregates with that key
/// (with unique keys, the one aggregate's metric, or zero when absent).
pub open spec fn value_at(a: Seq<CountyAggregate>, d: int, st: Seq<char>, co: Seq<char>, k: Kind) -> int
    decreases a.len(),
{
    if a.len() == 0 {
        0
    } else {
        value_at(a.drop_last(), d, st, co, k) + if is_key(a.last(), d, st, co) {
            metric(a.last(), k)
        } else {
            0
        }
    }
}

/// Whether an observation falls on the key (day, state, county).
pub open spec fn matches_key(r: RawObservation, d: int, st: Seq<char>, co: Seq<char>) -> bool {
    day_of(r.timestamp_ms as int) == d && r.state@ == st && r.county@ == co
}

/// What an observation adds to the accumulator of a kind.
pub open spec fn contribution(r: RawObservation, k: Kind) -> int {
    if k != Kind::Other && r.kind == k {
        r.value as int
    } else {
        0
    }
}

/// Some observation of the sequence falls on the key.
pub open spec fn observed(s: Seq<RawObservation>, d: int, st: Seq<char>, co: Seq<char>) -> bool {
    exists|i: int| 0 <= i < s.len() && matches_key(#[trigger] s[i], d, st, co)
}

/// The sum of the values of kind `k` that fall on the key.
pub open spec fn observed_total(s: Seq<RawObservation>, d: int, st: Seq<char>, co: Seq<char>, k: Kind) -> int
    decreases s.len(),
{
    if s.len() == 0 {
        0
    } else {
        observed_total(s.drop_last(), d, st, co, k) + if matches_key(s.last(), d, st, co) {
            contribution(s.last(), k)
        } else {
            0
        }
    }
}

/// `v` fits in an `i64`.
pub open spec fn fits_i64(v: int) -> bool {
    i64::MIN <= v <= i64::MAX
}

/// Every accumulator total of `s` fits in an `i64`.
pub open spec fn totals_fit(s: Seq<RawObservation>) -> bool {
    forall|d: int, st: Seq<char>, co: Seq<char>, k: Kind| fits_i64(#[trigger] observed_total(s, d, st, co, k))
}

/// Every accumulator fits in an `i64` after each observation of a pass over `s`.
pub open spec fn running_totals_fit(s: Seq<RawObservation>) -> bool {
    forall|i: int, d: int, st: Seq<char>, co: Seq<char>, k: Kind|
        0 <= i <= s.len() ==> fits_i64(#[trigger] observed_total(s.take(i), d, st, co, k))
}

/// Every accumulator fits in an `i64` over every contiguous stretch of `s`, so
/// that no way of cutting `s` into shards can overflow.
pub open spec fn segment_totals_fit(s: Seq<RawObservation>) -> bool {
    forall|i: int, j: int, d: int, st: Seq<char>, co: Seq<char>, k: Kind|
        0 <= i <= j <= s.len() ==> fits_i64(#[trigger] observed_total(s.subrange(i, j), d, st, co, k))
}

/// `a` is the accumulation of `s`: one aggregate per observed key, holding the sums
/// of the confirmed and death values observed for that key.
pub open spec fn represents(a: Seq<CountyAggregate>, s: Seq<RawObservation>) -> bool {
    &&& keys_unique(a)
    &&& forall|d: int, st: Seq<char>, co: Seq<char>|
        #[trigger] has_key(a, d, st, co) == observed(s, d, st, co)
    &&& forall|d: int, st: Seq<char>, co: Seq<char>, k: Kind|
        #[trigger] value_at(a, d, st, co, k) == observed_total(s, d, st, co, k)
}

/// Two accumulations hold the same keys and the same amounts.
pub open spec fn same_model(a: Seq<CountyAggregate>, b: Seq<CountyAggregate>) -> bool {
    &&& forall|d: int, st: Seq<char>, co: Seq<char>|
        #[trigger] has_key(a, d, st, co) == has_key(b, d, st, co)
    &&& forall|d: int, st: Seq<char>, co: Seq<char>, k: Kind|
        #[trigger] value_at(a, d, st, co, k) == value_at(b, d, st, co, k)
}

/// Every amount of `a` and `b` fits in an `i64` when added key by key.
pub open spec fn merge_fits(a: Seq<CountyAggregate>, b: Seq<CountyAggregate>) -> bool {
    forall|d: int, st: Seq<char>, co: Seq<char>, k: Kind|
        i64::MIN <= #[trigger] value_at(a, d, st, co, k) + value_at(b, d, st, co, k) <= i64::MAX
}

/// `m` is the merge of `a` and `b`: the union of their keys, amounts added key by key.
pub open spec fn merged(a: Seq<CountyAggregate>, b: Seq<CountyAggregate>, m: Seq<CountyAggregate>) -> bool {
    &&& keys_unique(m)
    &&& forall|d: int, st: Seq<char>, co: Seq<char>|
        #[trigger] has_key(m, d, st, co) == (has_key(a, d, st, co) || has_key(b, d, st, co))
    &&& forall|d: int, st: Seq<char>, co: Seq<char>, k: Kind|
        #[trigger] value_at(m, d, st, co, k) == value_at(a, d, st, co, k) + value_at(b, d, st, co, k)
}

proof fn lemma_value_push(a: Seq<CountyAggregate>, x: CountyAggregate, d: int, st: Seq<char>, co: Seq<char>, k: Kind)
    ensures
        value_at(a.push(x), d, st, co, k) == value_at(a, d, st, co, k) + if is_key(x, d, st, co) {
            metric(x, k)
        } else {
            0
        },
{
    assert(a.push(x).drop_last() =~= a);
}

proof fn lemma_value_update(a: Seq<CountyAggregate>, i: int, x: CountyAggregate, d: int, st: Seq<char>, co: Seq<char>, k: Kind)
    requires
        0 <= i < a.len(),
    ensures
        value_at(a.update(i, x), d, st, co, k) == value_at(a, d, st, co, k)
            - (if is_key(a[i], d, st, co) { metric(a[i], k) } else { 0 })
            + (if is_key(x, d, st, co) { metric(x, k) } else { 0 }),
    decreases a.len(),
{
    if i == a.len() - 1 {
        assert(a.update(i, x).drop_last() =~= a.drop_last());
    } else {
        assert(a.update(i, x).drop_last() =~= a.drop_last().update(i, x));
        lemma_value_update(a.drop_last(), i, x, d, st, co, k);
    }
}

proof fn lemma_value_absent(a: Seq<CountyAggregate>, d: int, st: Seq<char>, co: Seq<char>, k: Kind)
    requires
        !has_key(a, d, st, co),
    ensures
        value_at(a, d, st, co, k) == 0,
    decreases a.len(),
{
    if a.len() > 0 {
        assert(!is_key(a[a.len() - 1], d, st, co));
        assert forall|i: int| 0 <= i < a.drop_last().len() implies !is_key(#[trigger] a.drop_last()[i], d, st, co) by {
            assert(a.drop_last()[i] == a[i]);
        }
        lemma_value_absent(a.drop_last(), d, st, co, k);
    }
}

proof fn lemma_value_unique(a: Seq<CountyAggregate>, i: int, k: Kind)
    requires
        keys_unique(a),
        0 <= i < a.len(),
    ensures
        value_at(a, a[i].date as int, a[i].state@, a[i].display_name@, k) == metric(a[i], k),
    decreases a.len(),
{
    let (d, st, co) = (a[i].date as int, a[i].state@, a[i].display_name@);
    let p = a.drop_last();
    if i == a.len() - 1 {
        assert forall|j: int| 0 <= j < p.len() implies !is_key(#[trigger] p[j], d, st, co) by {
            assert(p[j] == a[j]);
            assert(!same_key(a[j], a[i]));
        }
        lemma_value_absent(p, d, st, co, k);
    } else {
        assert(!same_key(a[i], a[a.len() - 1]));
        assert(keys_unique(p)) by {
            assert forall|x: int, y: int| 0 <= x < y < p.len() implies !same_key(#[trigger] p[x], #[trigger] p[y]) by {
                assert(p[x] == a[x] && p[y] == a[y]);
            }
        }
        assert(p[i] == a[i]);
        lemma_value_unique(p, i, k);
    }
}


/// What an upsert adds for a kind: `dc` to confirmed, `dd` to deaths, nothing to `Other`.
pub open spec fn delta(k: Kind, dc: int, dd: int) -> int {
    match k {
        Kind::Confirmed => dc,
        Kind::Deaths => dd,
        Kind::Other => 0,
    }
}

proof fn lemma_observed_push(s: Seq<RawObservation>, r: RawObservation, d: int, st: Seq<char>, co: Seq<char>)
    ensures
        observed(s.push(r), d, st, co) == (observed(s, d, st, co) || matches_key(r, d, st, co)),
{
    let t = s.push(r);
    if observed(s, d, st, co) {
        let i = choose|i: int| 0 <= i < s.len() && matches_key(#[trigger] s[i], d, st, co);
        assert(t[i] == s[i]);
    }
    if matches_key(r, d, st, co) {
        assert(t[s.len() as int] == r);
    }
    if observed(t, d, st, co) && !matches_key(r, d, st, co) {
        let i = choose|i: int| 0 <= i < t.len() && matches_key(#[trigger] t[i], d, st, co);
        assert(s[i] == t[i]);
    }
}

proof fn lemma_values_fit(a: Seq<CountyAggregate>)
    requires
        keys_unique(a),
    ensures
        forall|d: int, st: Seq<char>, co: Seq<char>, k: Kind| fits_i64(#[trigger] value_at(a, d, st, co, k)),
{
    assert forall|d: int, st: Seq<char>, co: Seq<char>, k: Kind| fits_i64(#[trigger] value_at(a, d, st, co, k)) by {
        if has_key(a, d, st, co) {
            let i = choose|i: int| 0 <= i < a.len() && is_key(#[trigger] a[i], d, st, co);
            lemma_value_unique(a, i, k);
        } else {
            lemma_value_absent(a, d, st, co, k);
        }
    }
}

/// The index of the aggregate that carries the key, if any.
fn find(a: &Vec<CountyAggregate>, date: i64, state: &String, county: &String) -> (r: Option<usize>)
    ensures
        match r {
            Some(i) => i < a.len() && is_key(a@[i as int], date as int, state@, county@),
            None => !has_key(a@, date as int, state@, county@),
        },
{
    let mut i: usize = 0;
    while i < a.len()
        invariant
            i <= a.len(),
            forall|j: int| 0 <= j < i ==> !is_key(#[trigger] a@[j], date as int, state@, county@),
        decreases a.len() - i,
    {
        if a[i].date == date && a[i].state == *state && a[i].display_name == *county {
            return Some(i);
        }
        i += 1;
    }
    None
}

/// Adds `dc` confirmed and `dd` deaths to the aggregate of the key, creating it
/// with zero accumulators when absent.
fn upsert(a: &mut Vec<CountyAggregate>, date: i64, state: &String, county: &String, dc: i64, dd: i64)
    requires
        keys_unique(old(a)@),
        i64::MIN <= value_at(old(a)@, date as int, state@, county@, Kind::Confirmed) + dc <= i64::MAX,
        i64::MIN <= value_at(old(a)@, date as int, state@, county@, Kind::Deaths) + dd <= i64::MAX,
    ensures
        keys_unique(final(a)@),
        forall|d: int, st: Seq<char>, co: Seq<char>|
            #[trigger] has_key(final(a)@, d, st, co) == (has_key(old(a)@, d, st, co) || (d == date
                && st == state@ && co == county@)),
        forall|d: int, st: Seq<char>, co: Seq<char>, k: Kind|
            #[trigger] value_at(final(a)@, d, st, co, k) == value_at(old(a)@, d, st, co, k) + if d
                == date && st == state@ && co == county@ {
                delta(k, dc as int, dd as int)
            } else {
                0
            },
{
    let ghost pre = a@;
    match find(a, date, state, county) {
        Some(i) => {
            proof {
                lemma_value_unique(pre, i as int, Kind::Confirmed);
                lemma_value_unique(pre, i as int, Kind::Deaths);
            }
            let x = CountyAggregate {
                date,
                state: a[i].state.clone(),
                display_name: a[i].display_name.clone(),
                confirmed: a[i].confirmed + dc,
                deaths: a[i].deaths + dd,
            };
            a.set(i, x);
            proof {
                let post = a@;
                assert(post =~= pre.update(i as int, x));
                assert forall|d: int, st: Seq<char>, co: Seq<char>, k: Kind|
                    #[trigger] value_at(post, d, st, co, k) == value_at(pre, d, st, co, k) + if d == date
                        && st == state@ && co == county@ {
                        delta(k, dc as int, dd as int)
                    } else {
                        0
                    } by {
                    lemma_value_update(pre, i as int, x, d, st, co, k);
                }
                assert forall|d: int, st: Seq<char>, co: Seq<char>|
                    #[trigger] has_key(post, d, st, co) == (has_key(pre, d, st, co) || (d == date
                        && st == state@ && co == county@)) by {
                    if has_key(pre, d, st, co) {
                        let j = choose|j: int| 0 <= j < pre.len() && is_key(#[trigger] pre[j], d, st, co);
                        assert(is_key(post[j], d, st, co));
                    }
                    if d == date && st == state@ && co == county@ {
                        assert(is_key(post[i as int], d, st, co));
                    }
                    if has_key(post, d, st, co) {
                        let j = choose|j: int| 0 <= j < post.len() && is_key(#[trigger] post[j], d, st, co);
                        if j != i {
                            assert(is_key(pre[j], d, st, co));
                        } else {
                            assert(is_key(pre[i as int], d, st, co));
                        }
                    }
                }
                assert forall|x1: int, y1: int| 0 <= x1 < y1 < post.len() implies !same_key(#[trigger] post[x1], #[trigger] post[y1]) by {
                    assert(!same_key(pre[x1], pre[y1]));
                }
            }
        },
        None => {
            proof {
                lemma_value_absent(pre, date as int, state@, county@, Kind::Confirmed);
                lemma_value_absent(pre, date as int, state@, county@, Kind::Deaths);
            }
            let x = CountyAggregate {
                date,
                state: state.clone(),
                display_name: county.clone(),
                confirmed: dc,
                deaths: dd,
            };
            a.push(x);
            proof {
                let post = a@;
                assert(post =~= pre.push(x));
                assert forall|d: int, st: Seq<char>, co: Seq<char>, k: Kind|
                    #[trigger] value_at(post, d, st, co, k) == value_at(pre, d, st, co, k) + if d == date
                        && st == state@ && co == county@ {
                        delta(k, dc as int, dd as int)
                    } else {
                        0
                    } by {
                    lemma_value_push(pre, x, d, st, co, k);
                }
                assert forall|d: int, st: Seq<char>, co: Seq<char>|
                    #[trigger] has_key(post, d, st, co) == (has_key(pre, d, st, co) || (d == date
                        && st == state@ && co == county@)) by {
                    if has_key(pre, d, st, co) {
                        let j = choose|j: int| 0 <= j < pre.len() && is_key(#[trigger] pre[j], d, st, co);
                        assert(is_key(post[j], d, st, co));
                    }
                    if d == date && st == state@ && co == county@ {
                        assert(is_key(post[pre.len() as int], d, st, co));
                    }
                    if has_key(post, d, st, co) {
                        let j = choose|j: int| 0 <= j < post.len() && is_key(#[trigger] post[j], d, st, co);
                        if j < pre.len() {
                            assert(is_key(pre[j], d, st, co));
                        }
                    }
                }
                assert forall|x1: int, y1: int| 0 <= x1 < y1 < post.len() implies !same_key(#[trigger] post[x1], #[trigger] post[y1]) by {
                    if y1 < pre.len() {
                        assert(!same_key(pre[x1], pre[y1]));
                    } else {
                        assert(!is_key(pre[x1], date as int, state@, county@));
                    }
                }
            }
        },
    }
}


proof fn lemma_total_push(s: Seq<RawObservation>, r: RawObservation, d: int, st: Seq<char>, co: Seq<char>, k: Kind)
    ensures
        observed_total(s.push(r), d, st, co, k) == observed_total(s, d, st, co, k) + if matches_key(r, d, st, co) {
            contribution(r, k)
        } else {
            0
        },
{
    assert(s.push(r).drop_last() =~= s);
}

/// Accumulates observations by UTC day and by (state, county), as `aggregate`
/// does, or gives `None` exactly when some accumulator would leave the `i64`
/// range during the pass.
pub fn checked_aggregate(records: &Vec<RawObservation>) -> (r: Option<Vec<CountyAggregate>>)
    ensures
        r is Some == running_totals_fit(records@),
        match r {
            Some(a) => represents(a@, records@),
            None => true,
        },
{
    let mut r: Vec<CountyAggregate> = Vec::new();
    let mut i: usize = 0;
    proof {
        assert forall|d: int, st: Seq<char>, co: Seq<char>|
            #[trigger] has_key(r@, d, st, co) == observed(records@.take(0), d, st, co) by {}
        assert forall|d: int, st: Seq<char>, co: Seq<char>, k: Kind|
            #[trigger] value_at(r@, d, st, co, k) == observed_total(records@.take(0), d, st, co, k) by {}
    }
    while i < records.len()
        invariant
            i <= records.len(),
            represents(r@, records@.take(i as int)),
            forall|j: int, d: int, st: Seq<char>, co: Seq<char>, k: Kind|
                0 <= j <= i ==> fits_i64(#[trigger] observed_total(records@.take(j), d, st, co, k)),
        decreases records.len() - i,
    {
        let rec = &records[i];
        let day = day_number(rec.timestamp_ms);
        let (dc, dd): (i64, i64) = match rec.kind {
            Kind::Confirmed => (rec.value, 0),
            Kind::Deaths => (0, rec.value),
            Kind::Other => (0, 0),
        };
        let ghost pre = r@;
        let ghost s0 = records@.take(i as int);
        let ghost s1 = records@.take(i + 1);
        let ghost (d, st, co) = (day as int, rec.state@, rec.county@);
        proof {
            assert(s1 =~= s0.push(*rec));
            lemma_total_push(s0, *rec, d, st, co, Kind::Confirmed);
            lemma_total_push(s0, *rec, d, st, co, Kind::Deaths);
            assert(value_at(pre, d, st, co, Kind::Confirmed) == observed_total(s0, d, st, co, Kind::Confirmed));
            assert(value_at(pre, d, st, co, Kind::Deaths) == observed_total(s0, d, st, co, Kind::Deaths));
        }
        let (cur_c, cur_d): (i64, i64) = match find(&r, day, &rec.state, &rec.county) {
            Some(x) => {
                proof {
                    lemma_value_unique(pre, x as int, Kind::Confirmed);
                    lemma_value_unique(pre, x as int, Kind::Deaths);
                }
                (r[x].confirmed, r[x].deaths)
            },
            None => {
                proof {
                    lemma_value_absent(pre, d, st, co, Kind::Confirmed);
                    lemma_value_absent(pre, d, st, co, Kind::Deaths);
                }
                (0, 0)
            },
        };
        if cur_c.checked_add(dc).is_none() || cur_d.checked_add(dd).is_none() {
            proof {
                assert(!fits_i64(observed_total(records@.take(i + 1), d, st, co, Kind::Confirmed))
                    || !fits_i64(observed_total(records@.take(i + 1), d, st, co, Kind::Deaths)));
            }
            return None;
        }
        upsert(&mut r, day, &rec.state, &rec.county, dc, dd);
        proof {
            assert forall|d: int, st: Seq<char>, co: Seq<char>|
                #[trigger] has_key(r@, d, st, co) == observed(s1, d, st, co) by {
                lemma_observed_push(s0, *rec, d, st, co);
                assert(has_key(pre, d, st, co) == observed(s0, d, st, co));
            }
            assert forall|d: int, st: Seq<char>, co: Seq<char>, k: Kind|
                #[trigger] value_at(r@, d, st, co, k) == observed_total(s1, d, st, co, k) by {
                lemma_total_push(s0, *rec, d, st, co, k);
                assert(value_at(pre, d, st, co, k) == observed_total(s0, d, st, co, k));
            }
            lemma_values_fit(r@);
            assert forall|j: int, d: int, st: Seq<char>, co: Seq<char>, k: Kind|
                0 <= j <= i + 1 implies fits_i64(#[trigger] observed_total(records@.take(j), d, st, co, k)) by {
                if j == i + 1 {
                    assert(fits_i64(value_at(r@, d, st, co, k)));
                }
            }
        }
        i += 1;
    }
    assert(records@.take(records.len() as int) =~= records@);
    Some(r)
}

/// Accumulates observations by UTC day and by (state, county): each key observed
/// gets one aggregate holding the sums of its confirmed and death values; values
/// of any other kind are ignored, though their key is still created.
pub fn aggregate(records: &Vec<RawObservation>) -> (r: Vec<CountyAggregate>)
    requires
        running_totals_fit(records@),
    ensures
        represents(r@, records@),
{
    match checked_aggregate(records) {
        Some(r) => r,
        None => {
            assert(false);
            Vec::new()
        },
    }
}

proof fn lemma_has_key_push(a: Seq<CountyAggregate>, x: CountyAggregate, d: int, st: Seq<char>, co: Seq<char>)
    ensures
        has_key(a.push(x), d, st, co) == (has_key(a, d, st, co) || is_key(x, d, st, co)),
{
    let t = a.push(x);
    if has_key(a, d, st, co) {
        let i = choose|i: int| 0 <= i < a.len() && is_key(#[trigger] a[i], d, st, co);
        assert(t[i] == a[i]);
    }
    if is_key(x, d, st, co) {
        assert(t[a.len() as int] == x);
    }
    if has_key(t, d, st, co) && !is_key(x, d, st, co) {
        let i = choose|i: int| 0 <= i < t.len() && is_key(#[trigger] t[i], d, st, co);
        assert(a[i] == t[i]);
    }
}

/// A copy of an aggregate.
fn copy_aggregate(c: &CountyAggregate) -> (r: CountyAggregate)
    ensures
        r == *c,
{
    CountyAggregate {
        date: c.date,
        state: c.state.clone(),
        display_name: c.display_name.clone(),
        confirmed: c.confirmed,
        deaths: c.deaths,
    }
}

/// Merges two accumulations: every key of either is kept, and the amounts of a key
/// present in both are added.
pub fn merge(a: &Vec<CountyAggregate>, b: &Vec<CountyAggregate>) -> (r: Vec<CountyAggregate>)
    requires
        keys_unique(a@),
        keys_unique(b@),
        merge_fits(a@, b@),
    ensures
        merged(a@, b@, r@),
{
    let mut r: Vec<CountyAggregate> = Vec::new();
    let mut i: usize = 0;
    while i < a.len()
        invariant
            i <= a.len(),
            r@ =~= a@.take(i as int),
        decreases a.len() - i,
    {
        r.push(copy_aggregate(&a[i]));
        assert(a@.take(i + 1) =~= a@.take(i as int).push(a@[i as int]));
        i += 1;
    }
    assert(a@.take(a.len() as int) =~= a@);
    let mut j: usize = 0;
    while j < b.len()
        invariant
            j <= b.len(),
            keys_unique(a@),
            keys_unique(b@),
            merge_fits(a@, b@),
            keys_unique(r@),
            forall|d: int, st: Seq<char>, co: Seq<char>|
                #[trigger] has_key(r@, d, st, co) == (has_key(a@, d, st, co) || has_key(
                    b@.take(j as int),
                    d,
                    st,
                    co,
                )),
            forall|d: int, st: Seq<char>, co: Seq<char>, k: Kind|
                #[trigger] value_at(r@, d, st, co, k) == value_at(a@, d, st, co, k) + value_at(
                    b@.take(j as int),
                    d,
                    st,
                    co,
                    k,
                ),
        decreases b.len() - j,
    {
        let c = &b[j];
        let ghost pre = r@;
        let ghost b0 = b@.take(j as int);
        proof {
            let (d, st, co) = (c.date as int, c.state@, c.display_name@);
            assert(b@.take(j + 1) =~= b0.push(*c));
            assert forall|x: int| 0 <= x < b0.len() implies !is_key(#[trigger] b0[x], d, st, co) by {
                assert(!same_key(b@[x], b@[j as int]));
            }
            lemma_value_absent(b0, d, st, co, Kind::Confirmed);
            lemma_value_absent(b0, d, st, co, Kind::Deaths);
            lemma_value_unique(b@, j as int, Kind::Confirmed);
            lemma_value_unique(b@, j as int, Kind::Deaths);
            assert(i64::MIN <= value_at(a@, d, st, co, Kind::Confirmed) + value_at(b@, d, st, co, Kind::Confirmed) <= i64::MAX);
            assert(i64::MIN <= value_at(a@, d, st, co, Kind::Deaths) + value_at(b@, d, st, co, Kind::Deaths) <= i64::MAX);
            assert(value_at(pre, d, st, co, Kind::Confirmed) == value_at(a@, d, st, co, Kind::Confirmed) + value_at(b0, d, st, co, Kind::Confirmed));
            assert(value_at(pre, d, st, co, Kind::Deaths) == value_at(a@, d, st, co, Kind::Deaths) + value_at(b0, d, st, co, Kind::Deaths));
        }
        upsert(&mut r, c.date, &c.state, &c.display_name, c.confirmed, c.deaths);
        proof {
            assert forall|d: int, st: Seq<char>, co: Seq<char>|
                #[trigger] has_key(r@, d, st, co) == (has_key(a@, d, st, co) || has_key(b@.take(j + 1), d, st, co)) by {
                lemma_has_key_push(b0, *c, d, st, co);
                assert(has_key(pre, d, st, co) == (has_key(a@, d, st, co) || has_key(b0, d, st, co)));
            }
            assert forall|d: int, st: Seq<char>, co: Seq<char>, k: Kind|
                #[trigger] value_at(r@, d, st, co, k) == value_at(a@, d, st, co, k) + value_at(b@.take(j + 1), d, st, co, k) by {
                lemma_value_push(b0, *c, d, st, co, k);
                assert(value_at(pre, d, st, co, k) == value_at(a@, d, st, co, k) + value_at(b0, d, st, co, k));
            }
        }
        j += 1;
    }
    assert(b@.take(b.len() as int) =~= b@);
    r
}

proof fn lemma_total_concat(s1: Seq<RawObservation>, s2: Seq<RawObservation>, d: int, st: Seq<char>, co: Seq<char>, k: Kind)
    ensures
        observed_total(s1 + s2, d, st, co, k) == observed_total(s1, d, st, co, k) + observed_total(s2, d, st, co, k),
    decreases s2.len(),
{
    if s2.len() == 0 {
        assert(s1 + s2 =~= s1);
    } else {
        assert((s1 + s2).drop_last() =~= s1 + s2.drop_last());
        lemma_total_concat(s1, s2.drop_last(), d, st, co, k);
    }
}

proof fn lemma_observed_concat(s1: Seq<RawObservation>, s2: Seq<RawObservation>, d: int, st: Seq<char>, co: Seq<char>)
    ensures
        observed(s1 + s2, d, st, co) == (observed(s1, d, st, co) || observed(s2, d, st, co)),
{
    let t = s1 + s2;
    if observed(s1, d, st, co) {
        let i = choose|i: int| 0 <= i < s1.len() && matches_key(#[trigger] s1[i], d, st, co);
        assert(t[i] == s1[i]);
    }
    if observed(s2, d, st, co) {
        let i = choose|i: int| 0 <= i < s2.len() && matches_key(#[trigger] s2[i], d, st, co);
        assert(t[s1.len() + i] == s2[i]);
    }
    if observed(t, d, st, co) {
        let i = choose|i: int| 0 <= i < t.len() && matches_key(#[trigger] t[i], d, st, co);
        if i < s1.len() {
            assert(s1[i] == t[i]);
        } else {
            assert(s2[i - s1.len()] == t[i]);
        }
    }
}

/// Merging the accumulations of two parts of an input gives an accumulation of the
/// whole input, whichever part comes first: sharding and merge order never change
/// the result.
pub proof fn lemma_merge_partition(
    s1: Seq<RawObservation>,
    s2: Seq<RawObservation>,
    a1: Seq<CountyAggregate>,
    a2: Seq<CountyAggregate>,
    m: Seq<CountyAggregate>,
)
    requires
        represents(a1, s1),
        represents(a2, s2),
        merged(a1, a2, m),
    ensures
        represents(m, s1 + s2),
        represents(m, s2 + s1),
{
    assert forall|d: int, st: Seq<char>, co: Seq<char>|
        #[trigger] has_key(m, d, st, co) == observed(s1 + s2, d, st, co) by {
        lemma_observed_concat(s1, s2, d, st, co);
        assert(has_key(a1, d, st, co) == observed(s1, d, st, co));
        assert(has_key(a2, d, st, co) == observed(s2, d, st, co));
    }
    assert forall|d: int, st: Seq<char>, co: Seq<char>|
        #[trigger] has_key(m, d, st, co) == observed(s2 + s1, d, st, co) by {
        lemma_observed_concat(s2, s1, d, st, co);
        assert(has_key(a1, d, st, co) == observed(s1, d, st, co));
        assert(has_key(a2, d, st, co) == observed(s2, d, st, co));
    }
    assert forall|d: int, st: Seq<char>, co: Seq<char>, k: Kind|
        #[trigger] value_at(m, d, st, co, k) == observed_total(s1 + s2, d, st, co, k) by {
        lemma_total_concat(s1, s2, d, st, co, k);
        assert(value_at(a1, d, st, co, k) == observed_total(s1, d, st, co, k));
        assert(value_at(a2, d, st, co, k) == observed_total(s2, d, st, co, k));
    }
    assert forall|d: int, st: Seq<char>, co: Seq<char>, k: Kind|
        #[trigger] value_at(m, d, st, co, k) == observed_total(s2 + s1, d, st, co, k) by {
        lemma_total_concat(s2, s1, d, st, co, k);
        assert(value_at(a1, d, st, co, k) == observed_total(s1, d, st, co, k));
        assert(value_at(a2, d, st, co, k) == observed_total(s2, d, st, co, k));
    }
}

/// Two accumulations of the same input hold the same keys and amounts, whatever
/// order their aggregates are in: re-running on the same input gives the same result.
pub proof fn lemma_represents_unique(a: Seq<CountyAggregate>, b: Seq<CountyAggregate>, s: Seq<RawObservation>)
    requires
        represents(a, s),
        represents(b, s),
    ensures
        same_model(a, b),
{
}

/// The accumulations of the two parts of an input whose accumulator totals fit in
/// an `i64` can be merged without overflow.
pub proof fn lemma_merge_fits(
    s1: Seq<RawObservation>,
    s2: Seq<RawObservation>,
    a1: Seq<CountyAggregate>,
    a2: Seq<CountyAggregate>,
)
    requires
        represents(a1, s1),
        represents(a2, s2),
        totals_fit(s1 + s2),
    ensures
        merge_fits(a1, a2),
{
    assert forall|d: int, st: Seq<char>, co: Seq<char>, k: Kind|
        i64::MIN <= #[trigger] value_at(a1, d, st, co, k) + value_at(a2, d, st, co, k) <= i64::MAX by {
        lemma_total_concat(s1, s2, d, st, co, k);
        assert(fits_i64(observed_total(s1 + s2, d, st, co, k)));
        assert(value_at(a1, d, st, co, k) == observed_total(s1, d, st, co, k));
        assert(value_at(a2, d, st, co, k) == observed_total(s2, d, st, co, k));
    }
}

/// An observation of a kind other than confirmed or deaths adds nothing to any
/// amount: the accumulation of the input with it and without it hold the same amounts.
pub proof fn lemma_other_kind_ignored(
    s: Seq<RawObservation>,
    r: RawObservation,
    a: Seq<CountyAggregate>,
    b: Seq<CountyAggregate>,
)
    requires
        r.kind == Kind::Other,
        represents(a, s),
        represents(b, s.push(r)),
    ensures
        forall|d: int, st: Seq<char>, co: Seq<char>, k: Kind|
            #[trigger] value_at(b, d, st, co, k) == value_at(a, d, st, co, k),
{
    assert forall|d: int, st: Seq<char>, co: Seq<char>, k: Kind|
        #[trigger] value_at(b, d, st, co, k) == value_at(a, d, st, co, k) by {
        lemma_total_push(s, r, d, st, co, k);
        assert(value_at(a, d, st, co, k) == observed_total(s, d, st, co, k));
        assert(value_at(b, d, st, co, k) == observed_total(s.push(r), d, st, co, k));
    }
}


/// The aggregates of one UTC day, in order.
pub open spec fn in_date(a: Seq<CountyAggregate>, d: int) -> Seq<CountyAggregate> {
    a.filter(|c: CountyAggregate| c.date as int == d)
}

/// Some aggregate of `a` falls on day `d`.
pub open spec fn has_date(a: Seq<CountyAggregate>, d: i64) -> bool {
    exists|j: int| 0 <= j < a.len() && (#[trigger] a[j]).date == d
}

/// The aggregates of one UTC day.
pub struct DateBucket {
    pub date: i64,
    pub counties: Vec<CountyAggregate>,
}

/// Some bucket of `r` is for day `d`.
pub open spec fn has_bucket(r: Seq<DateBucket>, d: i64) -> bool {
    exists|x: int| 0 <= x < r.len() && (#[trigger] r[x]).date == d
}

/// The aggregates of the given day, in their order in `a`.
pub fn bucket(a: &Vec<CountyAggregate>, date: i64) -> (b: DateBucket)
    ensures
        b.date == date,
        b.counties@ == in_date(a@, date as int),
{
    let mut r: Vec<CountyAggregate> = Vec::new();
    let mut i: usize = 0;
    while i < a.len()
        invariant
            i <= a.len(),
            r@ == in_date(a@.take(i as int), date as int),
        decreases a.len() - i,
    {
        let ghost pre = a@.take(i as int);
        let ghost next = a@.take(i + 1);
        proof {
            assert(next =~= pre.push(a@[i as int]));
            pre.lemma_filter_push(a@[i as int], |c: CountyAggregate| c.date as int == date as int);
            assert(in_date(next, date as int) == if a@[i as int].date == date {
                in_date(pre, date as int).push(a@[i as int])
            } else {
                in_date(pre, date as int)
            });
        }
        if a[i].date == date {
            r.push(copy_aggregate(&a[i]));
        }
        i += 1;
    }
    assert(a@.take(a.len() as int) =~= a@);
    DateBucket { date, counties: r }
}

/// The distinct days of the aggregates.
pub fn dates(a: &Vec<CountyAggregate>) -> (r: Vec<i64>)
    ensures
        r@.no_duplicates(),
        forall|x: int| 0 <= x < r.len() ==> has_date(a@, #[trigger] r@[x]),
        forall|j: int| 0 <= j < a.len() ==> r@.contains(#[trigger] a@[j].date),
{
    let mut r: Vec<i64> = Vec::new();
    let mut i: usize = 0;
    while i < a.len()
        invariant
            i <= a.len(),
            r@.no_duplicates(),
            forall|x: int| 0 <= x < r.len() ==> has_date(a@, #[trigger] r@[x]),
            forall|j: int| 0 <= j < i ==> r@.contains(#[trigger] a@[j].date),
        decreases a.len() - i,
    {
        let d = a[i].date;
        let mut k: usize = 0;
        let mut seen = false;
        while k < r.len()
            invariant
                k <= r.len(),
                seen ==> r@.contains(d),
                !seen ==> forall|y: int| 0 <= y < k ==> r@[y] != d,
            decreases r.len() - k,
        {
            if r[k] == d {
                seen = true;
            }
            k += 1;
        }
        if !seen {
            let ghost pre = r@;
            r.push(d);
            proof {
                assert forall|x: int| 0 <= x < r.len() implies has_date(a@, #[trigger] r@[x]) by {
                    if x < pre.len() {
                        assert(r@[x] == pre[x]);
                    } else {
                        assert(a@[i as int].date == r@[x]);
                    }
                }
                assert forall|j: int| 0 <= j < i + 1 implies r@.contains(#[trigger] a@[j].date) by {
                    if j < i {
                        let y = choose|y: int| 0 <= y < pre.len() && pre[y] == a@[j].date;
                        assert(r@[y] == pre[y]);
                    } else {
                        assert(r@[pre.len() as int] == d);
                    }
                }
            }
        }
        i += 1;
    }
    r
}

/// Splits an accumulation into one bucket per day.
pub fn buckets(a: &Vec<CountyAggregate>) -> (r: Vec<DateBucket>)
    ensures
        forall|x: int, y: int| 0 <= x < y < r.len() ==> (#[trigger] r@[x]).date != (#[trigger] r@[y]).date,
        forall|x: int| 0 <= x < r.len() ==> (#[trigger] r@[x]).counties@ == in_date(a@, r@[x].date as int),
        forall|x: int| 0 <= x < r.len() ==> has_date(a@, (#[trigger] r@[x]).date),
        forall|j: int| 0 <= j < a.len() ==> has_bucket(r@, (#[trigger] a@[j]).date),
{
    let ds = dates(a);
    let mut r: Vec<DateBucket> = Vec::new();
    let mut i: usize = 0;
    while i < ds.len()
        invariant
            i <= ds.len(),
            r.len() == i,
            forall|x: int| 0 <= x < i ==> (#[trigger] r@[x]).date == ds@[x],
            forall|x: int| 0 <= x < i ==> (#[trigger] r@[x]).counties@ == in_date(a@, r@[x].date as int),
        decreases ds.len() - i,
    {
        r.push(bucket(a, ds[i]));
        i += 1;
    }
    proof {
        assert forall|x: int, y: int| 0 <= x < y < r.len() implies (#[trigger] r@[x]).date != (#[trigger] r@[y]).date by {
            assert(ds@[x] != ds@[y]);
        }
        assert forall|x: int| 0 <= x < r.len() implies has_date(a@, (#[trigger] r@[x]).date) by {
            assert(r@[x].date == ds@[x]);
        }
        assert forall|j: int| 0 <= j < a.len() implies has_bucket(r@, (#[trigger] a@[j]).date) by {
            assert(ds@.contains(a@[j].date));
            let x = choose|x: int| 0 <= x < ds.len() && ds@[x] == a@[j].date;
            assert(r@[x].date == ds@[x]);
        }
    }
    r
}


/// Counties of the same name observed on the same day in two different states get
/// two different aggregates: they never share an accumulator.
pub proof fn lemma_states_kept_apart(
    a: Seq<CountyAggregate>,
    s: Seq<RawObservation>,
    d: int,
    st1: Seq<char>,
    st2: Seq<char>,
    county: Seq<char>,
)
    requires
        represents(a, s),
        st1 != st2,
        observed(s, d, st1, county),
        observed(s, d, st2, county),
    ensures
        exists|i: int, j: int|
            0 <= i < a.len() && 0 <= j < a.len() && i != j && is_key(#[trigger] a[i], d, st1, county) && is_key(
                #[trigger] a[j],
                d,
                st2,
                county,
            ),
{
    assert(has_key(a, d, st1, county));
    assert(has_key(a, d, st2, county));
    let i = choose|i: int| 0 <= i < a.len() && is_key(#[trigger] a[i], d, st1, county);
    let j = choose|j: int| 0 <= j < a.len() && is_key(#[trigger] a[j], d, st2, county);
    assert(i != j);
}


/// A copy of an observation.
fn copy_observation(r: &RawObservation) -> (c: RawObservation)
    ensures
        c == *r,
{
    RawObservation {
        timestamp_ms: r.timestamp_ms,
        county: r.county.clone(),
        state: r.state.clone(),
        value: r.value,
        kind: r.kind,
    }
}

/// Accumulates the observations shard by shard, `shard_len` observations at a
/// time, and merges the partial accumulations: the result is an accumulation of
/// the whole input, as `aggregate` gives.
pub fn aggregate_in_shards(records: &Vec<RawObservation>, shard_len: usize) -> (r: Vec<CountyAggregate>)
    requires
        shard_len > 0,
        segment_totals_fit(records@),
    ensures
        represents(r@, records@),
{
    let mut acc: Vec<CountyAggregate> = Vec::new();
    let mut start: usize = 0;
    proof {
        assert forall|d: int, st: Seq<char>, co: Seq<char>|
            #[trigger] has_key(acc@, d, st, co) == observed(records@.take(0), d, st, co) by {}
        assert forall|d: int, st: Seq<char>, co: Seq<char>, k: Kind|
            #[trigger] value_at(acc@, d, st, co, k) == observed_total(records@.take(0), d, st, co, k) by {}
    }
    while start < records.len()
        invariant
            start <= records.len(),
            shard_len > 0,
            segment_totals_fit(records@),
            represents(acc@, records@.take(start as int)),
        decreases records.len() - start,
    {
        let end: usize = if records.len() - start < shard_len { records.len() } else { start + shard_len };
        let mut shard: Vec<RawObservation> = Vec::new();
        let mut i: usize = start;
        while i < end
            invariant
                start <= i <= end <= records.len(),
                shard@ =~= records@.subrange(start as int, i as int),
            decreases end - i,
        {
            shard.push(copy_observation(&records[i]));
            i += 1;
        }
        let ghost done = records@.take(start as int);
        proof {
            assert(records@.take(end as int) =~= done + shard@);
            assert forall|j: int, d: int, st: Seq<char>, co: Seq<char>, k: Kind|
                0 <= j <= shard@.len() implies fits_i64(#[trigger] observed_total(shard@.take(j), d, st, co, k)) by {
                assert(shard@.take(j) =~= records@.subrange(start as int, start + j));
            }
            assert forall|d: int, st: Seq<char>, co: Seq<char>, k: Kind|
                fits_i64(#[trigger] observed_total(done + shard@, d, st, co, k)) by {
                assert(done + shard@ =~= records@.subrange(0, end as int));
            }
        }
        let part = aggregate(&shard);
        proof {
            lemma_merge_fits(done, shard@, acc@, part@);
        }
        let merged_acc = merge(&acc, &part);
        proof {
            lemma_merge_partition(done, shard@, acc@, part@, merged_acc@);
        }
        acc = merged_acc;
        start = end;
    }
    assert(records@.take(records.len() as int) =~= records@);
    acc
}

} // verus!
