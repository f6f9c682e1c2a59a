use rspec_timing_tool::timings::select_pre_bucketed_split;
use rspec_timing_tool::timings::select_split;
use rspec_timing_tool::timings::split_timings;
use rspec_timing_tool::timings::FileTiming;
use rspec_timing_tool::timings::InputRangeError;

fn ft(file_path: &str, total_time: u64) -> FileTiming {
    FileTiming { file_path: file_path.to_string(), total_time }
}

fn check_produces_the_same_result_over_multiple_runs_and_ret(
    timings: Vec<FileTiming>,
    total_splits: u32,
) -> Vec<Vec<FileTiming>> {
    let first_result = split_timings(&timings, total_splits);
    for _ in 0..10 {
        assert_eq!(first_result, split_timings(&timings, total_splits));
    }
    first_result
}

#[test]
fn less_timings_than_buckets() {
    let buckets = check_produces_the_same_result_over_multiple_runs_and_ret(
        vec![ft("a", 10_000_000), ft("b", 20_000_000)],
        3,
    );
    assert_eq!(
        buckets,
        vec![vec![ft("b", 20_000_000)], vec![ft("a", 10_000_000)], vec![]]
    );
}

#[test]
fn more_timings_than_buckets() {
    let buckets = check_produces_the_same_result_over_multiple_runs_and_ret(
        vec![
            ft("a", 10_000_000),
            ft("b", 20_000_000),
            ft("c", 15_000_000),
            ft("d", 5_000_000),
        ],
        2,
    );
    assert_eq!(
        buckets,
        vec![
            vec![ft("b", 20_000_000), ft("d", 5_000_000)],
            vec![ft("c", 15_000_000), ft("a", 10_000_000)],
        ]
    );
}

#[test]
fn zero_buckets_yield_an_empty_partition() {
    let timings = vec![ft("a", 1), ft("b", 2)];
    let buckets = split_timings(&timings, 0);
    assert_eq!(buckets, Vec::<Vec<FileTiming>>::new());
}

#[test]
fn zero_records_yield_empty_buckets() {
    let buckets = split_timings(&Vec::new(), 4);
    assert_eq!(buckets, vec![vec![], vec![], vec![], vec![]]);
}

#[test]
fn every_record_lands_in_exactly_one_bucket() {
    let timings = vec![
        ft("a", 7_000_000),
        ft("b", 3_000_000),
        ft("c", 3_000_000),
        ft("d", 9_000_000),
        ft("e", 1_000_000),
    ];
    for k in 1..6u32 {
        let buckets = split_timings(&timings, k);
        assert_eq!(buckets.len(), k as usize);
        let total: usize = buckets.iter().map(|b| b.len()).sum();
        assert_eq!(total, timings.len());
        for t in &timings {
            let hits = buckets
                .iter()
                .map(|b| b.iter().filter(|x| *x == t).count())
                .sum::<usize>();
            assert_eq!(hits, 1);
        }
    }
}

#[test]
fn equal_times_keep_input_order() {
    let timings = vec![ft("first", 5), ft("second", 5), ft("third", 5)];
    let buckets = split_timings(&timings, 1);
    assert_eq!(
        buckets,
        vec![vec![ft("first", 5), ft("second", 5), ft("third", 5)]]
    );
}

#[test]
fn select_split_hands_out_the_requested_bucket() {
    let timings = vec![
        ft("a", 10_000_000),
        ft("b", 20_000_000),
        ft("c", 15_000_000),
        ft("d", 5_000_000),
    ];
    let bucket = select_split(&timings, 2, 1).expect("in range");
    assert_eq!(bucket, vec![ft("c", 15_000_000), ft("a", 10_000_000)]);
}

#[test]
fn select_split_rejects_an_out_of_range_index() {
    let timings = vec![ft("a", 10_000_000), ft("b", 20_000_000)];
    let err = select_split(&timings, 3, 3).expect_err("out of range");
    assert_eq!(
        err,
        InputRangeError { total_splits: 3, current_split: 3 }
    );
    assert!(select_split(&timings, 3, 7).is_err());
    assert!(select_split(&timings, 0, 0).is_err());
}

#[test]
fn select_pre_bucketed_split_reads_the_partition_as_given() {
    let bucketed = vec![
        vec!["a.rb".to_string()],
        vec!["c.rb".to_string(), "e.rb".to_string()],
    ];
    let bucket = select_pre_bucketed_split(&bucketed, 2, 1).expect("in range");
    assert_eq!(bucket, vec!["c.rb".to_string(), "e.rb".to_string()]);
}

#[test]
fn select_pre_bucketed_split_rejects_an_out_of_range_index() {
    let bucketed = vec![vec!["a.rb".to_string()]];
    let err = select_pre_bucketed_split(&bucketed, 2, 1).expect_err("out of range");
    assert_eq!(
        err,
        InputRangeError { total_splits: 2, current_split: 1 }
    );
}
