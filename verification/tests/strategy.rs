use std::collections::VecDeque;

use pairs_trading::book::PositionKind;
use pairs_trading::spread::{
    close_legs, entry_pairs, must_swap, open_legs, push_window, spread_pairs, top_by_volume,
    warmup_days,
};

fn names(v: &[&str]) -> Vec<String> {
    v.iter().map(|s| s.to_string()).collect()
}

/// The spread histories a warm-up builds from date-sorted rows: rows grouped
/// by day and split into legs by the library, then each day's spreads pushed.
fn load_history(
    dates: &[&str],
    contracts: &[&str],
    prices: &[f64],
    prefix_a: &str,
    prefix_b: &str,
) -> Vec<((String, String), VecDeque<f32>)> {
    let dates = names(dates);
    let rows: Vec<Option<String>> = contracts.iter().map(|c| Some(c.to_string())).collect();
    let mut histories: Vec<((String, String), VecDeque<f32>)> = Vec::new();
    for (ra, rb) in warmup_days(&dates, &rows, prefix_a, prefix_b) {
        let na: Vec<String> = ra.iter().map(|&r| contracts[r].to_string()).collect();
        let nb: Vec<String> = rb.iter().map(|&r| contracts[r].to_string()).collect();
        for (i, j) in spread_pairs(&na, &nb) {
            let spread = (prices[ra[i]] as f32) - (prices[rb[j]] as f32);
            let key = (na[i].clone(), nb[j].clone());
            match histories.iter_mut().find(|(k, _)| *k == key) {
                Some((_, h)) => push_window(h, 20, spread),
                None => {
                    let mut h = VecDeque::new();
                    push_window(&mut h, 20, spread);
                    histories.push((key, h));
                }
            }
        }
    }
    histories
}

#[test]
fn load_history_cross_prefix_pairs() {
    // 2 days, 2 AG contracts, 2 CU contracts each day -> 4 spreads per day (2x2)
    let histories = load_history(
        &["2025-08-06", "2025-08-06", "2025-08-06", "2025-08-06", "2025-08-07", "2025-08-07", "2025-08-07", "2025-08-07"],
        &["ag2510", "ag2511", "cu2510", "cu2511", "ag2510", "ag2511", "cu2510", "cu2511"],
        &[10.0, 11.0, 20.0, 21.0, 11.0, 12.0, 19.0, 22.0],
        "ag",
        "cu",
    );
    // Expect 4 unique AGxCU pairs
    assert_eq!(histories.len(), 4, "should have 4 cross pairs");
    for (_, hist) in histories.iter() {
        assert_eq!(hist.len(), 2, "two days of spreads");
    }
}

#[test]
fn load_history_same_prefix_intra_pairs() {
    // Both prefixes identical -> intra commodity pairing
    let histories = load_history(
        &["2025-08-06", "2025-08-06", "2025-08-06", "2025-08-07", "2025-08-07", "2025-08-07"],
        &["ag2510", "ag2511", "ag2512", "ag2510", "ag2511", "ag2512"],
        &[9182.0, 9191.0, 9205.0, 9185.0, 9190.0, 9210.0],
        "ag",
        "ag",
    );
    assert_eq!(histories.len(), 6, "should have 6 intra pairs");
    for (_, hist) in histories.iter() {
        assert_eq!(hist.len(), 2, "two days of spreads");
    }
}

#[test]
fn warmup_groups_rows_by_day_and_leg() {
    let dates = names(&["d1", "d1", "d2", "d2", "d2", "d1"]);
    let rows: Vec<Option<String>> = vec![
        Some("CU2405".into()),
        Some("fu2405".into()),
        Some("cu2406".into()),
        None,
        Some("rb2405".into()),
        Some("Fu2406".into()),
    ];
    let groups = warmup_days(&dates, &rows, "cu", "fu");
    // a new day starts wherever the date changes, even back to an earlier one;
    // contracts are matched in lowercase
    assert_eq!(
        groups,
        vec![(vec![0], vec![1]), (vec![2], vec![]), (vec![], vec![5])]
    );
    // a contract may belong to both legs
    let both = warmup_days(&names(&["d", "d"]), &vec![Some("ag1".into()), Some("AG2".into())], "ag", "a");
    assert_eq!(both, vec![(vec![0, 1], vec![0, 1])]);
    assert_eq!(warmup_days(&Vec::new(), &Vec::new(), "ag", "cu"), Vec::<(Vec<usize>, Vec<usize>)>::new());
}

#[test]
fn spread_pairs_skip_same_contract_in_order() {
    let a = names(&["x1", "x2"]);
    let b = names(&["x2", "y1", "x1"]);
    assert_eq!(spread_pairs(&a, &b), vec![(0, 0), (0, 1), (1, 1), (1, 2)]);
}

#[test]
fn window_keeps_last_values() {
    let mut h: VecDeque<i32> = VecDeque::new();
    for v in 1..=7 {
        push_window(&mut h, 5, v);
    }
    assert_eq!(h, VecDeque::from(vec![3, 4, 5, 6, 7]));
    // a zero-length window still keeps the newest value
    let mut z: VecDeque<i32> = VecDeque::new();
    push_window(&mut z, 0, 1);
    push_window(&mut z, 0, 2);
    assert_eq!(z, VecDeque::from(vec![1, 2]));
}

#[test]
fn top_contracts_by_volume_stable() {
    let vol = vec![10u32, 50, 30, 50, 5, 30, 70];
    assert_eq!(top_by_volume(&vol, 5), vec![6, 1, 3, 2, 5]);
    assert_eq!(top_by_volume(&vol, 2), vec![6, 1]);
    assert_eq!(top_by_volume(&vec![4, 4], 5), vec![0, 1]);
    assert_eq!(top_by_volume(&vec![], 5), Vec::<usize>::new());
    // agrees with a stable sort by decreasing volume
    let mut idx: Vec<usize> = (0..vol.len()).collect();
    idx.sort_by_key(|i| std::cmp::Reverse(vol[*i]));
    idx.truncate(5);
    assert_eq!(top_by_volume(&vol, 5), idx);
}

#[test]
fn entry_candidates_order() {
    let ta = vec![4usize, 1, 2];
    let tb = vec![7usize, 8];
    assert_eq!(entry_pairs(&ta, &tb, true), vec![(4, 1), (4, 2), (1, 2)]);
    assert_eq!(
        entry_pairs(&ta, &tb, false),
        vec![(4, 7), (4, 8), (1, 7), (1, 8), (2, 7), (2, 8)]
    );
    assert_eq!(entry_pairs(&vec![3], &tb, true), Vec::<(usize, usize)>::new());
}

#[test]
fn intra_pairs_follow_string_order() {
    assert!(must_swap(true, "ag2511", "ag2510"));
    assert!(!must_swap(true, "ag2510", "ag2511"));
    assert!(!must_swap(false, "ag2511", "ag2510"));
    assert!(must_swap(true, "ag25100", "ag2510"));
    assert!(!must_swap(true, "ag2510", "ag2510"));
}

#[test]
fn legs_open_and_close_opposite() {
    assert_eq!(open_legs(PositionKind::Long, 100, 80), (100, -80));
    assert_eq!(open_legs(PositionKind::Short, 100, 80), (-100, 80));
    assert_eq!(close_legs(PositionKind::Long, 100, 80), (-100, 80));
    assert_eq!(close_legs(PositionKind::Short, 100, 80), (100, -80));
}
