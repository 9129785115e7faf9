//! Per-map statistics and the relative time of each record.
//!
//! Maps are referred to by their position in the map table. A record's
//! relative time is kept as an exact fraction; the scoring curve is applied to
//! it by the caller.
use vstd::prelude::*;
use crate::category::{category_matches, map_matches_category, MapInfo};

verus! {

/// Maps with fewer participants than this are left out of the rating.
pub const MIN_MAP_TOTAL_PARTICIPATORS: usize = 5;

/// Floor applied to a map's best and second-best times.
pub const MIN_TOP1_TIME: i32 = 500;

/// One timed run on a map.
pub struct Record {
    pub mdd_id: i32,
    pub user_id: Option<i32>,
    pub name: String,
    /// Position of the map in the map table.
    pub map: usize,
    pub physics: String,
    pub mode: String,
    /// Elapsed time; smaller is better.
    pub time: i32,
    /// When the run was set, as `YYYY-MM-DD HH:MM:SS`.
    pub date_set: String,
}

/// What scoring needs to know of one map: how many records it has, and its
/// two smallest times.
#[derive(Clone, Copy, Debug)]
pub struct MapStats {
    pub participants: usize,
    pub best: Option<i32>,
    pub second: Option<i32>,
}

/// A record's time over the reference time it is compared with.
#[derive(Clone, Copy, Debug, PartialEq, Eq, Structural)]
pub struct RelTime {
    pub time: i32,
    pub reference: i32,
}

/// The times of the records on map `m`, in record order.
pub open spec fn map_times(recs: Seq<Record>, m: nat) -> Seq<i32>
    decreases recs.len(),
{
    if recs.len() == 0 {
        seq![]
    } else if recs.last().map == m {
        map_times(recs.drop_last(), m).push(recs.last().time)
    } else {
        map_times(recs.drop_last(), m)
    }
}

/// The two smallest values seen so far, updated with `t`.
spec fn with_time(acc: (Option<i32>, Option<i32>), t: i32) -> (Option<i32>, Option<i32>) {
    match acc.0 {
        None => (Some(t), None),
        Some(a) => if t < a {
            (Some(t), Some(a))
        } else {
            match acc.1 {
                Some(b) if b <= t => acc,
                _ => (Some(a), Some(t)),
            }
        },
    }
}

/// The two smallest of `ts`, gathered in order.
spec fn least_two(ts: Seq<i32>) -> (Option<i32>, Option<i32>)
    decreases ts.len(),
{
    if ts.len() == 0 {
        (None, None)
    } else {
        with_time(least_two(ts.drop_last()), ts.last())
    }
}

/// Statistics gathered from `ts` in order.
spec fn stats_of(ts: Seq<i32>) -> MapStats {
    MapStats { participants: ts.len() as usize, best: least_two(ts).0, second: least_two(ts).1 }
}

pub open spec fn floored(t: i32) -> i32 {
    if t < MIN_TOP1_TIME {
        MIN_TOP1_TIME
    } else {
        t
    }
}

/// The relative time of a record with time `time` on a map with statistics
/// `st`, or `None` where the map is left out: it has too few participants, or
/// its best time over the floored best time is below 0.6. The holder of the
/// best time is compared with the floored second-best time, every other
/// record with the floored best time.
pub open spec fn reltime_spec(st: MapStats, time: i32) -> Option<RelTime> {
    if st.participants < MIN_MAP_TOTAL_PARTICIPATORS || st.best is None {
        None
    } else {
        let t0 = st.best->0;
        let top1 = floored(t0);
        let top2 = match st.second {
            Some(t) => floored(t),
            None => top1,
        };
        if (t0 as int) * 10 < (top1 as int) * 6 {
            None
        } else if time == t0 {
            Some(RelTime { time, reference: top2 })
        } else {
            Some(RelTime { time, reference: top1 })
        }
    }
}

/// `best` is the time `ts[k1]` and no time is below it; `second`, where
/// present, is the time `ts[k2]` of another record and no other record's time
/// is below it.
pub open spec fn smallest_pair_at(ts: Seq<i32>, k1: int, k2: int, best: i32, second: Option<i32>) -> bool {
    &&& 0 <= k1 < ts.len()
    &&& ts[k1] == best
    &&& forall|k: int| 0 <= k < ts.len() ==> best <= #[trigger] ts[k]
    &&& second is Some ==> {
        &&& 0 <= k2 < ts.len()
        &&& k2 != k1
        &&& ts[k2] == second->0
        &&& forall|k: int| 0 <= k < ts.len() && k != k1 ==> second->0 <= #[trigger] ts[k]
    }
}

/// `st` is the statistics of a map whose times are `ts`: the number of
/// times, the smallest time, and the smallest of the remaining times (the
/// first two entries of `ts` sorted ascending).
pub open spec fn describes(st: MapStats, ts: Seq<i32>) -> bool {
    &&& st.participants == ts.len()
    &&& (ts.len() == 0) == (st.best is None)
    &&& (ts.len() >= 2) == (st.second is Some)
    &&& ts.len() > 0 ==> exists|k1: int, k2: int| #[trigger]
        smallest_pair_at(ts, k1, k2, st.best->0, st.second)
}

/// Statistics are determined by the times.
pub proof fn lemma_describes_unique(s1: MapStats, s2: MapStats, ts: Seq<i32>)
    requires
        describes(s1, ts),
        describes(s2, ts),
    ensures
        s1 == s2,
{
    if ts.len() > 0 {
        let (a1, b1) = choose|k1: int, k2: int| #[trigger] smallest_pair_at(ts, k1, k2, s1.best->0, s1.second);
        let (a2, b2) = choose|k1: int, k2: int| #[trigger] smallest_pair_at(ts, k1, k2, s2.best->0, s2.second);
        assert(s1.best->0 <= ts[a2] && s2.best->0 <= ts[a1]);
        if ts.len() >= 2 {
            if a1 != a2 {
                assert(s1.second->0 <= ts[a2]);
                assert(s2.second->0 <= ts[a1]);
            } else {
                assert(s1.second->0 <= ts[b2]);
                assert(s2.second->0 <= ts[b1]);
            }
        }
    }
}

/// The statistics gathered in order describe the times.
proof fn lemma_stats_of_describes(ts: Seq<i32>)
    requires
        ts.len() <= usize::MAX,
    ensures
        describes(stats_of(ts), ts),
    decreases ts.len(),
{
    if ts.len() > 0 {
        let pre = ts.drop_last();
        let t = ts.last();
        lemma_stats_of_describes(pre);
        let n = ts.len() - 1;
        assert(forall|k: int| 0 <= k < n ==> ts[k] == pre[k]);
        assert(least_two(ts) == with_time(least_two(pre), t));
        let st = stats_of(ts);
        if pre.len() == 0 {
            assert(smallest_pair_at(ts, n, n, st.best->0, st.second));
        } else {
            let (k1, k2) = choose|k1: int, k2: int| #[trigger]
                smallest_pair_at(pre, k1, k2, least_two(pre).0->0, least_two(pre).1);
            let a = least_two(pre).0->0;
            if t < a {
                assert(smallest_pair_at(ts, n, k1, st.best->0, st.second));
            } else {
                match least_two(pre).1 {
                    Some(b) => {
                        if b <= t {
                            assert(smallest_pair_at(ts, k1, k2, st.best->0, st.second));
                        } else {
                            assert(smallest_pair_at(ts, k1, n, st.best->0, st.second));
                        }
                    },
                    None => {
                        assert(smallest_pair_at(ts, k1, n, st.best->0, st.second));
                    },
                }
            }
        }
    }
}

proof fn lemma_map_times_len(recs: Seq<Record>, m: nat)
    ensures
        map_times(recs, m).len() <= recs.len(),
    decreases recs.len(),
{
    if recs.len() > 0 {
        lemma_map_times_len(recs.drop_last(), m);
    }
}

fn add_time(acc: (Option<i32>, Option<i32>), t: i32) -> (r: (Option<i32>, Option<i32>))
    ensures
        r == with_time(acc, t),
{
    match acc.0 {
        None => (Some(t), None),
        Some(a) => if t < a {
            (Some(t), Some(a))
        } else {
            match acc.1 {
                Some(b) if b <= t => acc,
                _ => (Some(a), Some(t)),
            }
        },
    }
}

/// Statistics for each of the `n_maps` maps, built from all records.
pub fn build_map_stats(recs: &Vec<Record>, n_maps: usize) -> (r: Vec<MapStats>)
    requires
        forall|i: int| 0 <= i < recs.len() ==> #[trigger] recs[i].map < n_maps,
    ensures
        r.len() == n_maps,
        forall|m: int| 0 <= m < n_maps ==> #[trigger] describes(r[m], map_times(recs@, m as nat)),
{
    let mut r: Vec<MapStats> = Vec::new();
    let mut m: usize = 0;
    while m < n_maps
        invariant
            m <= n_maps,
            r.len() == m,
            forall|k: int| 0 <= k < m ==> #[trigger] r[k] == (MapStats {
                participants: 0,
                best: None,
                second: None,
            }),
        decreases n_maps - m,
    {
        r.push(MapStats { participants: 0, best: None, second: None });
        m = m + 1;
    }
    proof {
        assert forall|k: int| 0 <= k < n_maps implies #[trigger] r[k] == stats_of(
            map_times(recs@.take(0), k as nat),
        ) by {
            assert(recs@.take(0).len() == 0);
        }
    }
    let mut i: usize = 0;
    while i < recs.len()
        invariant
            i <= recs.len(),
            r.len() == n_maps,
            forall|j: int| 0 <= j < recs.len() ==> #[trigger] recs[j].map < n_maps,
            forall|k: int| 0 <= k < n_maps ==> #[trigger] r[k] == stats_of(
                map_times(recs@.take(i as int), k as nat),
            ),
        decreases recs.len() - i,
    {
        let mi = recs[i].map;
        let t = recs[i].time;
        let ghost old_r = r@;
        let cur = r[mi];
        proof {
            lemma_map_times_len(recs@.take(i as int), mi as nat);
        }
        let (b, s) = add_time((cur.best, cur.second), t);
        r.set(mi, MapStats { participants: cur.participants + 1, best: b, second: s });
        proof {
            let pre = recs@.take(i as int);
            let post = recs@.take(i + 1);
            assert(post.drop_last() =~= pre);
            assert(post.last() == recs@[i as int]);
            assert forall|k: int| 0 <= k < n_maps implies #[trigger] r[k] == stats_of(
                map_times(post, k as nat),
            ) by {
                if k != mi {
                    assert(r[k] == old_r[k]);
                } else {
                    let ts = map_times(pre, k as nat);
                    assert(map_times(post, k as nat) == ts.push(t));
                    assert(ts.push(t).drop_last() =~= ts);
                    assert(least_two(ts.push(t)) == with_time(least_two(ts), t));
                }
            }
        }
        i = i + 1;
    }
    assert(recs@.take(recs.len() as int) =~= recs@);
    proof {
        assert forall|m: int| 0 <= m < n_maps implies #[trigger] describes(r[m], map_times(recs@, m as nat)) by {
            lemma_map_times_len(recs@, m as nat);
            lemma_stats_of_describes(map_times(recs@, m as nat));
        }
    }
    r
}

/// The relative time of a record with time `time` on a map with statistics
/// `st`; `None` where the map is left out.
pub fn record_reltime(st: MapStats, time: i32) -> (r: Option<RelTime>)
    ensures
        r == reltime_spec(st, time),
{
    if st.participants < MIN_MAP_TOTAL_PARTICIPATORS {
        return None;
    }
    match st.best {
        None => None,
        Some(t0) => {
            let top1 = if t0 < MIN_TOP1_TIME {
                MIN_TOP1_TIME
            } else {
                t0
            };
            let top2 = match st.second {
                Some(t) => if t < MIN_TOP1_TIME {
                    MIN_TOP1_TIME
                } else {
                    t
                },
                None => top1,
            };
            if (t0 as i64) * 10 < (top1 as i64) * 6 {
                None
            } else if time == t0 {
                Some(RelTime { time, reference: top2 })
            } else {
                Some(RelTime { time, reference: top1 })
            }
        },
    }
}

/// Whether each map of the table belongs to `category`.
pub fn select_maps(maps: &Vec<MapInfo>, category: &str) -> (r: Vec<bool>)
    ensures
        r.len() == maps.len(),
        forall|m: int| 0 <= m < maps.len() ==> #[trigger] r[m] == category_matches(
            maps[m].weapons@,
            maps[m].functions@,
            category@,
        ),
{
    let mut r: Vec<bool> = Vec::new();
    let mut m: usize = 0;
    while m < maps.len()
        invariant
            m <= maps.len(),
            r.len() == m,
            forall|k: int| 0 <= k < m ==> #[trigger] r[k] == category_matches(
                maps[k].weapons@,
                maps[k].functions@,
                category@,
            ),
        decreases maps.len() - m,
    {
        r.push(map_matches_category(&maps[m], category));
        m = m + 1;
    }
    r
}

/// The relative time for `category` of a record `rec` on a map with
/// statistics `st`, or `None` where the record does not count.
pub open spec fn scored_spec(maps: Seq<MapInfo>, category: Seq<char>, rec: Record, st: MapStats) -> Option<RelTime> {
    if category_matches(maps[rec.map as int].weapons@, maps[rec.map as int].functions@, category) {
        reltime_spec(st, rec.time)
    } else {
        None
    }
}

/// The relative time of each record for `category`, or `None` where the
/// record's map is outside the category, has too few participants, or has an
/// untrustworthy best time.
pub fn score_records(recs: &Vec<Record>, maps: &Vec<MapInfo>, category: &str) -> (r: Vec<Option<RelTime>>)
    requires
        forall|i: int| 0 <= i < recs.len() ==> #[trigger] recs[i].map < maps.len(),
    ensures
        r.len() == recs.len(),
        forall|i: int, st: MapStats|
            #![trigger describes(st, map_times(recs@, recs[i].map as nat)), r[i]]
            0 <= i < recs.len() && describes(st, map_times(recs@, recs[i].map as nat)) ==> r[i]
                == scored_spec(maps@, category@, recs[i], st),
{
    let selected = select_maps(maps, category);
    let stats = build_map_stats(recs, maps.len());
    let mut r: Vec<Option<RelTime>> = Vec::new();
    let mut i: usize = 0;
    while i < recs.len()
        invariant
            i <= recs.len(),
            r.len() == i,
            selected.len() == maps.len(),
            stats.len() == maps.len(),
            forall|j: int| 0 <= j < recs.len() ==> #[trigger] recs[j].map < maps.len(),
            forall|m: int| 0 <= m < maps.len() ==> #[trigger] selected[m] == category_matches(
                maps[m].weapons@,
                maps[m].functions@,
                category@,
            ),
            forall|m: int| 0 <= m < maps.len() ==> #[trigger] describes(
                stats[m],
                map_times(recs@, m as nat),
            ),
            forall|j: int| 0 <= j < i ==> #[trigger] r[j] == scored_spec(
                maps@,
                category@,
                recs[j],
                stats[recs[j].map as int],
            ),
        decreases recs.len() - i,
    {
        let mi = recs[i].map;
        if selected[mi] {
            r.push(record_reltime(stats[mi], recs[i].time));
        } else {
            r.push(None);
        }
        i = i + 1;
    }
    proof {
        assert forall|i: int, st: MapStats|
            0 <= i < recs.len() && #[trigger] describes(st, map_times(recs@, recs[i].map as nat)) implies #[trigger] r[i]
                == scored_spec(maps@, category@, recs[i], st) by {
            let m = recs[i].map as int;
            assert(m < maps.len());
            assert(describes(stats[m], map_times(recs@, m as nat)));
            lemma_describes_unique(st, stats[m], map_times(recs@, m as nat));
        }
    }
    r
}

/// A map with fewer than five records contributes no relative time, whatever
/// the record and the category.
pub proof fn lemma_small_map_excluded(recs: Seq<Record>, maps: Seq<MapInfo>, category: Seq<char>, i: int, st: MapStats)
    requires
        0 <= i < recs.len(),
        describes(st, map_times(recs, recs[i].map as nat)),
        map_times(recs, recs[i].map as nat).len() < MIN_MAP_TOTAL_PARTICIPATORS,
    ensures
        scored_spec(maps, category, recs[i], st) is None,
{
}

} // verus!
