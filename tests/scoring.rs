use rating_service::category::MapInfo;
use rating_service::scoring::{build_map_stats, record_reltime, score_records, MapStats, Record, RelTime};

fn rec(id: i32, map: usize, time: i32) -> Record {
    Record {
        mdd_id: id,
        user_id: None,
        name: format!("p{}", id),
        map,
        physics: "cpm".to_string(),
        mode: "run".to_string(),
        time,
        date_set: "2024-01-01 00:00:00".to_string(),
    }
}

fn map(weapons: &str) -> MapInfo {
    MapInfo { name: "m".to_string(), weapons: weapons.to_string(), functions: String::new() }
}

#[test]
fn stats_keep_two_smallest_times_and_count() {
    let recs = vec![rec(1, 0, 900), rec(2, 0, 700), rec(3, 1, 100), rec(4, 0, 800), rec(5, 0, 700)];
    let st = build_map_stats(&recs, 3);
    assert_eq!(st[0].participants, 4);
    assert_eq!(st[0].best, Some(700));
    assert_eq!(st[0].second, Some(700));
    assert_eq!(st[1].participants, 1);
    assert_eq!(st[1].best, Some(100));
    assert_eq!(st[1].second, None);
    assert_eq!(st[2].participants, 0);
    assert_eq!(st[2].best, None);
}

#[test]
fn map_with_four_participants_is_banned() {
    let recs = vec![rec(1, 0, 1000), rec(2, 0, 1100), rec(3, 0, 1200), rec(4, 0, 1300)];
    let r = score_records(&recs, &vec![map("")], "overall");
    assert!(r.iter().all(|x| x.is_none()));
}

#[test]
fn map_with_five_participants_is_kept() {
    let recs = vec![rec(1, 0, 1000), rec(2, 0, 1100), rec(3, 0, 1200), rec(4, 0, 1300), rec(5, 0, 2000)];
    let r = score_records(&recs, &vec![map("")], "overall");
    assert_eq!(r[0], Some(RelTime { time: 1000, reference: 1100 }));
    assert_eq!(r[1], Some(RelTime { time: 1100, reference: 1000 }));
    assert_eq!(r[4], Some(RelTime { time: 2000, reference: 1000 }));
}

#[test]
fn top_time_below_floor_keeps_map() {
    // 400 / 500 = 0.8 is not below 0.6, so the map stays; the holder of the
    // best time is compared with the runner-up, everyone else with the
    // floored best.
    let st = MapStats { participants: 5, best: Some(400), second: Some(900) };
    assert_eq!(record_reltime(st, 400), Some(RelTime { time: 400, reference: 900 }));
    assert_eq!(record_reltime(st, 900), Some(RelTime { time: 900, reference: 500 }));
}

#[test]
fn record_holder_is_compared_with_runner_up() {
    let st = MapStats { participants: 5, best: Some(600), second: Some(900) };
    assert_eq!(record_reltime(st, 600), Some(RelTime { time: 600, reference: 900 }));
    assert_eq!(record_reltime(st, 700), Some(RelTime { time: 700, reference: 600 }));
}

#[test]
fn floored_best_time_matches_floor() {
    let st = MapStats { participants: 5, best: Some(500), second: None };
    assert_eq!(record_reltime(st, 500), Some(RelTime { time: 500, reference: 500 }));
    let st2 = MapStats { participants: 5, best: Some(450), second: Some(450) };
    assert_eq!(record_reltime(st2, 500), Some(RelTime { time: 500, reference: 500 }));
}

#[test]
fn untrustworthy_top_time_drops_map() {
    let st = MapStats { participants: 6, best: Some(299), second: Some(900) };
    assert_eq!(record_reltime(st, 900), None);
    let edge = MapStats { participants: 6, best: Some(300), second: Some(900) };
    assert_eq!(record_reltime(edge, 900), Some(RelTime { time: 900, reference: 500 }));
}

#[test]
fn records_outside_category_are_dropped() {
    let recs = vec![
        rec(1, 0, 1000), rec(2, 0, 1100), rec(3, 0, 1200), rec(4, 0, 1300), rec(5, 0, 1400),
        rec(1, 1, 1000), rec(2, 1, 1100), rec(3, 1, 1200), rec(4, 1, 1300), rec(5, 1, 1400),
    ];
    let r = score_records(&recs, &vec![map("rl"), map("mg")], "strafe");
    assert!(r[0..5].iter().all(|x| x.is_none()));
    assert_eq!(r[5], Some(RelTime { time: 1000, reference: 1100 }));
}
