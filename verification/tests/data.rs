use chrono::NaiveDate;
use pairs_trading::bars::{day_legs, dense_rank, distinct_sorted, epoch_days, prefix_mask};

fn filter_by_mask<'a>(contracts: &'a [String], mask: &[bool]) -> Vec<&'a str> {
    contracts
        .iter()
        .zip(mask.iter())
        .filter(|(_, m)| **m)
        .map(|(c, _)| c.as_str())
        .collect()
}

fn names(v: &[&str]) -> Vec<String> {
    v.iter().map(|s| s.to_string()).collect()
}

#[test]
fn test_filter_contract_by_prefix() {
    // Create sample data with various contract names
    let contracts = names(&[
        "ES_202112",
        "NQ_202112",
        "CL_202112",
        "GC_202112",
        "ES_202203",
        "ZN_202112",
        "NQ_202203",
    ]);
    // Filter for ES and NQ contracts
    let mask = prefix_mask(&contracts, "ES_", "NQ_");
    let filtered_contracts = filter_by_mask(&contracts, &mask);

    // Should only contain ES and NQ contracts
    assert_eq!(
        filtered_contracts,
        vec!["ES_202112", "NQ_202112", "ES_202203", "NQ_202203"]
    );
    assert_eq!(filtered_contracts.len(), 4);
}

#[test]
fn test_filter_contract_by_prefix_empty_result() {
    let contracts = names(&["CL_202112", "GC_202112", "ZN_202112"]);
    // Filter for prefixes that don't exist
    let mask = prefix_mask(&contracts, "ES_", "NQ_");
    assert_eq!(filter_by_mask(&contracts, &mask).len(), 0);
}

#[test]
fn test_filter_contract_by_prefix_single_match() {
    let contracts = names(&["ES_202112", "CL_202112", "GC_202112"]);
    // Filter for only ES contracts
    let mask = prefix_mask(&contracts, "ES_", "XX_");
    let filtered_contracts = filter_by_mask(&contracts, &mask);
    assert_eq!(filtered_contracts, vec!["ES_202112"]);
    assert_eq!(filtered_contracts.len(), 1);
}

fn days(dates: &[&str]) -> Vec<i64> {
    epoch_days(&names(dates)).expect("Failed to parse date string")
}

#[test]
fn test_date_remap_simple() {
    // Create sample dates (unordered with duplicates)
    let d = days(&["2021-01-05", "2021-01-04", "2021-01-05", "2021-01-06", "2021-01-04"]);
    let vals: Vec<u32> = dense_rank(&d);
    // Unique input days sorted: 2021-01-04, 2021-01-05, 2021-01-06 -> indices 0,1,2
    // Input rows mapping: [2021-01-05(1), 2021-01-04(0), 2021-01-05(1), 2021-01-06(2), 2021-01-04(0)]
    assert_eq!(vals, vec![1, 0, 1, 2, 0]);
}

#[test]
fn dense_rank_keeps_order_without_gaps() {
    let v = vec![30i64, -5, 30, 7, 1000, -5, 7];
    assert_eq!(dense_rank(&v), vec![2, 0, 2, 1, 3, 0, 1]);
    assert_eq!(dense_rank(&Vec::new()), Vec::<u32>::new());
}

#[test]
fn distinct_sorted_lists_trading_days() {
    assert_eq!(distinct_sorted(&vec![3, 1, 3, 2, 1]), vec![1, 2, 3]);
    assert_eq!(distinct_sorted(&vec![]), Vec::<i64>::new());
}

#[test]
fn prepare_data_today_same_prefix_duplicates_sets() {
    // three contracts of the same commodity prefix, all on bar 1
    let contracts = names(&["AG1", "AG2", "AG3"]);
    let bars = vec![1u32, 1, 1];
    let (a, b) = day_legs(&contracts, &bars, 1, "AG", "AG");
    assert_eq!(a.len(), 3, "All contracts should appear in A vector");
    assert_eq!(
        b.len(),
        3,
        "Same contracts should be mirrored in B vector for intra-commodity"
    );
    assert!(a.iter().zip(b.iter()).all(|(l, r)| contracts[*l] == contracts[*r]));
}

#[test]
fn day_legs_split_two_commodities() {
    let contracts = names(&["cu2405", "fu2405", "cu2406", "fu2406", "cu2407"]);
    let bars = vec![3u32, 3, 3, 4, 4];
    let (a, b) = day_legs(&contracts, &bars, 3, "cu", "fu");
    assert_eq!(a, vec![0, 2]);
    assert_eq!(b, vec![1]);
    let (a, b) = day_legs(&contracts, &bars, 4, "cu", "fu");
    assert_eq!(a, vec![4]);
    assert_eq!(b, vec![3]);
    let (a, b) = day_legs(&contracts, &bars, 9, "cu", "fu");
    assert!(a.is_empty() && b.is_empty());
}

#[test]
fn date_texts_read_as_days_since_epoch() {
    assert_eq!(epoch_days(&names(&["1970-01-01", "1970-01-02", "1969-12-31"])), Some(vec![0, 1, -1]));
    let epoch = NaiveDate::from_ymd_opt(1970, 1, 1).unwrap();
    let d = NaiveDate::from_ymd_opt(2021, 1, 5).unwrap();
    assert_eq!(epoch_days(&names(&["2021-01-05"])), Some(vec![(d - epoch).num_days()]));
    assert_eq!(epoch_days(&names(&[])), Some(vec![]));
    // one unreadable date spoils the column
    assert_eq!(epoch_days(&names(&["2021-01-05", "2021-13-01"])), None);
    assert_eq!(epoch_days(&names(&["2021/01/05"])), None);
}

#[test]
fn compact_dates_read_like_iso_dates() {
    let epoch = NaiveDate::from_ymd_opt(1970, 1, 1).unwrap();
    let d = NaiveDate::from_ymd_opt(2021, 1, 5).unwrap();
    assert_eq!(epoch_days(&names(&["20210105"])), Some(vec![(d - epoch).num_days()]));
    assert_eq!(
        epoch_days(&names(&["20210105", "2021-01-05"])),
        Some(vec![(d - epoch).num_days(), (d - epoch).num_days()])
    );
    assert_eq!(dense_rank(&days(&["20210105", "20210104"])), vec![1, 0]);
    assert_eq!(epoch_days(&names(&["20211301"])), None);
}
