//! The mathematical model: what is known of a station, and of all stations.
use vstd::prelude::*;

verus! {

/// Lowest, highest and summed reading of one station (in tenths), and how
/// many readings there were.
pub struct Summary {
    pub min: int,
    pub max: int,
    pub sum: int,
    pub count: nat,
}

/// Station name to summary.
pub type Stats = Map<Seq<u8>, Summary>;

/// A reading that the input grammar can express, in tenths.
pub open spec fn is_reading(v: int) -> bool {
    -999 <= v <= 999
}

pub open spec fn min_of(a: int, b: int) -> int {
    if a <= b {
        a
    } else {
        b
    }
}

pub open spec fn max_of(a: int, b: int) -> int {
    if a >= b {
        a
    } else {
        b
    }
}

/// The summary of no reading: sentinels that any reading replaces.
pub open spec fn empty_summary() -> Summary {
    Summary { min: i16::MAX as int, max: i16::MIN as int, sum: 0, count: 0 }
}

/// The summary of one reading.
pub open spec fn single(v: int) -> Summary {
    Summary { min: v, max: v, sum: v, count: 1 }
}

/// The summary of the readings of both.
pub open spec fn combine(a: Summary, b: Summary) -> Summary {
    Summary {
        min: min_of(a.min, b.min),
        max: max_of(a.max, b.max),
        sum: a.sum + b.sum,
        count: a.count + b.count,
    }
}

/// A summary of at least one reading in range: the mean `sum / count` lies
/// between `min` and `max`.
pub open spec fn is_readings_summary(s: Summary) -> bool {
    &&& 1 <= s.count
    &&& -999 <= s.min <= s.max <= 999
    &&& s.min * s.count <= s.sum <= s.max * s.count
}

/// A summary of at least one reading whose count fits in a `u32`.
pub open spec fn is_station_summary(s: Summary) -> bool {
    is_readings_summary(s) && s.count <= u32::MAX
}

pub open spec fn is_valid_summary(s: Summary) -> bool {
    s == empty_summary() || is_station_summary(s)
}

/// The mean of a summary in tenths, rounded to the nearest tenth, halves
/// away from zero: a mean of `-2.85` is `-29`.
pub open spec fn mean_tenths(s: Summary) -> int {
    if s.sum >= 0 {
        (2 * s.sum + s.count) / (2 * s.count as int)
    } else {
        -((-2 * s.sum + s.count) / (2 * s.count as int))
    }
}

/// Every station of `t` has a summary of at least one reading.
pub open spec fn all_stations_valid(t: Stats) -> bool {
    forall|k: Seq<u8>| #[trigger] t.contains_key(k) ==> is_station_summary(t[k])
}

/// `t` after one more reading of station `name`.
pub open spec fn record(t: Stats, name: Seq<u8>, v: int) -> Stats {
    if t.contains_key(name) {
        t.insert(name, combine(t[name], single(v)))
    } else {
        t.insert(name, single(v))
    }
}

/// The stats of a sequence of rows, taken in order.
pub open spec fn stats_of(rows: Seq<(Seq<u8>, int)>) -> Stats
    decreases rows.len(),
{
    if rows.len() == 0 {
        Map::empty()
    } else {
        record(stats_of(rows.drop_last()), rows.last().0, rows.last().1)
    }
}

/// Both stats together: stations of either, summaries of both combined.
pub open spec fn merge_stats(a: Stats, b: Stats) -> Stats {
    Map::new(
        |k: Seq<u8>| a.contains_key(k) || b.contains_key(k),
        |k: Seq<u8>|
            if a.contains_key(k) && b.contains_key(k) {
                combine(a[k], b[k])
            } else if a.contains_key(k) {
                a[k]
            } else {
                b[k]
            },
    )
}

/// All stats of `ts` merged, first to last.
pub open spec fn merge_all(ts: Seq<Stats>) -> Stats
    decreases ts.len(),
{
    if ts.len() == 0 {
        Map::empty()
    } else {
        merge_stats(merge_all(ts.drop_last()), ts.last())
    }
}

/// Merging `a` and `b` keeps the counts of every station within a `u32`.
pub open spec fn merge_fits(a: Stats, b: Stats) -> bool {
    forall|k: Seq<u8>|
        a.contains_key(k) && b.contains_key(k) ==> #[trigger] a[k].count + b[k].count <= u32::MAX
}

/// Every count of `t` fits in a `u32`.
pub open spec fn counts_fit(t: Stats) -> bool {
    forall|k: Seq<u8>| #[trigger] t.contains_key(k) ==> t[k].count <= u32::MAX
}

/// Combining two summaries of readings gives a summary of readings.
pub proof fn lemma_combine_readings(a: Summary, b: Summary)
    requires
        is_readings_summary(a),
        is_readings_summary(b),
    ensures
        is_readings_summary(combine(a, b)),
{
    let m = min_of(a.min, b.min);
    let x = max_of(a.max, b.max);
    assert(m * a.count <= a.min * a.count) by (nonlinear_arith)
        requires
            m <= a.min,
            a.count >= 0,
    ;
    assert(m * b.count <= b.min * b.count) by (nonlinear_arith)
        requires
            m <= b.min,
            b.count >= 0,
    ;
    assert(a.max * a.count <= x * a.count) by (nonlinear_arith)
        requires
            a.max <= x,
            a.count >= 0,
    ;
    assert(b.max * b.count <= x * b.count) by (nonlinear_arith)
        requires
            b.max <= x,
            b.count >= 0,
    ;
    assert(m * (a.count + b.count) == m * a.count + m * b.count) by (nonlinear_arith);
    assert(x * (a.count + b.count) == x * a.count + x * b.count) by (nonlinear_arith);
}

pub proof fn lemma_combine_valid(a: Summary, b: Summary)
    requires
        is_valid_summary(a),
        is_valid_summary(b),
        a.count + b.count <= u32::MAX,
    ensures
        is_valid_summary(combine(a, b)),
        a.count == 0 ==> combine(a, b) == b,
        b.count == 0 ==> combine(a, b) == a,
        a.count + b.count >= 1 ==> is_station_summary(combine(a, b)),
{
    if a.count >= 1 && b.count >= 1 {
        lemma_combine_readings(a, b);
    }
}

/// A station summary's sum lies within `999` times its count either way.
pub proof fn lemma_sum_bound(s: Summary)
    requires
        is_valid_summary(s),
    ensures
        -999 * s.count <= s.sum <= 999 * s.count,
{
    if s.count >= 1 {
        assert(-999 * s.count <= s.min * s.count) by (nonlinear_arith)
            requires
                -999 <= s.min,
                s.count >= 0,
        ;
        assert(s.max * s.count <= 999 * s.count) by (nonlinear_arith)
            requires
                s.max <= 999,
                s.count >= 0,
        ;
    }
}

proof fn lemma_round_between(lo: int, hi: int, x: int, c: int)
    requires
        c >= 1,
        x >= 0,
        lo * c <= x <= hi * c,
    ensures
        lo <= (2 * x + c) / (2 * c) <= hi,
{
    let d = 2 * c;
    let y = 2 * x + c;
    let q = y / d;
    let r = y % d;
    vstd::arithmetic::div_mod::lemma_fundamental_div_mod(y, d);
    vstd::arithmetic::div_mod::lemma_mod_bound(y, d);
    assert(y == d * q + r);
    assert(q <= hi) by (nonlinear_arith)
        requires
            y == d * q + r,
            0 <= r < d,
            d == 2 * c,
            y == 2 * x + c,
            x <= hi * c,
            c >= 1,
    ;
    assert(q >= lo) by (nonlinear_arith)
        requires
            y == d * q + r,
            0 <= r < d,
            d == 2 * c,
            y == 2 * x + c,
            lo * c <= x,
            c >= 1,
    ;
}

/// The rounded mean lies between the lowest and the highest reading.
pub proof fn lemma_mean_between(s: Summary)
    requires
        is_readings_summary(s),
    ensures
        s.min <= mean_tenths(s) <= s.max,
{
    if s.sum >= 0 {
        lemma_round_between(s.min, s.max, s.sum, s.count as int);
    } else {
        assert((-s.max) * s.count <= -s.sum <= (-s.min) * s.count) by (nonlinear_arith)
            requires
                s.min * s.count <= s.sum <= s.max * s.count,
        ;
        lemma_round_between(-s.max, -s.min, -s.sum, s.count as int);
    }
}

/// One more reading, after a merge, is the merge with that reading added to
/// the second side.
proof fn lemma_record_merge(a: Stats, b: Stats, name: Seq<u8>, v: int)
    ensures
        record(merge_stats(a, b), name, v) == merge_stats(a, record(b, name, v)),
{
    assert(record(merge_stats(a, b), name, v) =~= merge_stats(a, record(b, name, v)));
}

/// Merging with nothing changes nothing.
pub proof fn lemma_merge_empty(a: Stats)
    ensures
        merge_stats(a, Map::empty()) == a,
        merge_stats(Map::empty(), a) == a,
{
    assert(merge_stats(a, Map::empty()) =~= a);
    assert(merge_stats(Map::empty(), a) =~= a);
}

/// The stats of two runs of rows, one after the other, are the merge of the
/// stats of each.
pub proof fn lemma_stats_of_append(r1: Seq<(Seq<u8>, int)>, r2: Seq<(Seq<u8>, int)>)
    ensures
        stats_of(r1 + r2) == merge_stats(stats_of(r1), stats_of(r2)),
    decreases r2.len(),
{
    if r2.len() == 0 {
        assert(r1 + r2 =~= r1);
        lemma_merge_empty(stats_of(r1));
    } else {
        let init = r2.drop_last();
        let x = r2.last();
        assert((r1 + r2).drop_last() =~= r1 + init);
        assert((r1 + r2).last() == x);
        lemma_stats_of_append(r1, init);
        lemma_record_merge(stats_of(r1), stats_of(init), x.0, x.1);
    }
}

/// Merging in one more station that the second side lacks.
pub proof fn lemma_merge_insert(a: Stats, b: Stats, k: Seq<u8>, v: Summary)
    requires
        !b.contains_key(k),
    ensures
        merge_stats(a, b.insert(k, v)) == if a.contains_key(k) {
            merge_stats(a, b).insert(k, combine(a[k], v))
        } else {
            merge_stats(a, b).insert(k, v)
        },
{
    if a.contains_key(k) {
        assert(merge_stats(a, b.insert(k, v)) =~= merge_stats(a, b).insert(k, combine(a[k], v)));
    } else {
        assert(merge_stats(a, b.insert(k, v)) =~= merge_stats(a, b).insert(k, v));
    }
}

/// Merging two stats does not depend on their order.
pub proof fn lemma_merge_commutative(a: Stats, b: Stats)
    ensures
        merge_stats(a, b) == merge_stats(b, a),
{
    assert(merge_stats(a, b) =~= merge_stats(b, a));
}

/// Merging three stats does not depend on how they are grouped.
pub proof fn lemma_merge_associative(a: Stats, b: Stats, c: Stats)
    ensures
        merge_stats(merge_stats(a, b), c) == merge_stats(a, merge_stats(b, c)),
{
    assert(merge_stats(merge_stats(a, b), c) =~= merge_stats(a, merge_stats(b, c)));
}

/// Rows whose readings are in range give summaries of readings, none
/// counting more readings than there are rows.
pub proof fn lemma_stats_of_readings(rows: Seq<(Seq<u8>, int)>)
    requires
        forall|i: int| 0 <= i < rows.len() ==> is_reading(#[trigger] rows[i].1),
    ensures
        forall|k: Seq<u8>| #[trigger]
            stats_of(rows).contains_key(k) ==> is_readings_summary(stats_of(rows)[k])
                && stats_of(rows)[k].count <= rows.len(),
    decreases rows.len(),
{
    if rows.len() > 0 {
        let init = rows.drop_last();
        assert forall|i: int| 0 <= i < init.len() implies is_reading(#[trigger] init[i].1) by {
            assert(init[i] == rows[i]);
        }
        lemma_stats_of_readings(init);
        let t = stats_of(init);
        let (name, v) = rows.last();
        assert(is_reading(rows[rows.len() - 1].1));
        if t.contains_key(name) {
            lemma_combine_readings(t[name], single(v));
        }
    }
}

/// Rows whose readings are in range, no more of them than a `u32` counts,
/// give valid stations.
pub proof fn lemma_stats_of_valid(rows: Seq<(Seq<u8>, int)>)
    requires
        rows.len() <= u32::MAX,
        forall|i: int| 0 <= i < rows.len() ==> is_reading(#[trigger] rows[i].1),
    ensures
        all_stations_valid(stats_of(rows)),
        counts_fit(stats_of(rows)),
        forall|k: Seq<u8>| #[trigger]
            stats_of(rows).contains_key(k) ==> stats_of(rows)[k].count <= rows.len(),
{
    lemma_stats_of_readings(rows);
}

/// Where the merge of all stats keeps its counts within a `u32`, so does the
/// merge of any first few, and so does each next merge.
pub proof fn lemma_counts_fit_prefix(ts: Seq<Stats>, k: int)
    requires
        counts_fit(merge_all(ts)),
        0 <= k <= ts.len(),
    ensures
        counts_fit(merge_all(ts.take(k))),
        k < ts.len() ==> merge_fits(merge_all(ts.take(k)), ts[k]),
    decreases ts.len() - k,
{
    if k == ts.len() {
        assert(ts.take(k) =~= ts);
    } else {
        lemma_counts_fit_prefix(ts, k + 1);
        assert(ts.take(k + 1).drop_last() =~= ts.take(k));
        let a = merge_all(ts.take(k));
        let m = merge_all(ts.take(k + 1));
        assert(m == merge_stats(a, ts[k]));
        assert forall|key: Seq<u8>| #[trigger] a.contains_key(key) implies a[key].count <= u32::MAX by {
            assert(m.contains_key(key));
        }
        assert forall|key: Seq<u8>|
            a.contains_key(key) && ts[k].contains_key(key) implies #[trigger] a[key].count
            + ts[k][key].count <= u32::MAX by {
            assert(m.contains_key(key));
        }
    }
}

/// Merging stations whose counts fit keeps every station valid.
pub proof fn lemma_merge_valid(a: Stats, b: Stats)
    requires
        all_stations_valid(a),
        all_stations_valid(b),
        merge_fits(a, b),
    ensures
        all_stations_valid(merge_stats(a, b)),
{
    let m = merge_stats(a, b);
    assert forall|k: Seq<u8>| #[trigger] m.contains_key(k) implies is_station_summary(m[k]) by {
        if a.contains_key(k) && b.contains_key(k) {
            lemma_combine_valid(a[k], b[k]);
        }
    }
}

} // verus!
