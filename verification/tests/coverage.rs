use rspec_timing_tool::coverage::get_file_stem;
use rspec_timing_tool::coverage::is_spec_file;
use rspec_timing_tool::coverage::paths_not_covered;
use rspec_timing_tool::coverage::paths_not_covered_by_timings;
use rspec_timing_tool::coverage::retain_spec_timings;
use rspec_timing_tool::timings::split_timings;
use rspec_timing_tool::timings::FileTiming;

fn ft(file_path: &str, total_time: u64) -> FileTiming {
    FileTiming { file_path: file_path.to_string(), total_time }
}

fn strings(paths: &[&str]) -> Vec<String> {
    paths.iter().map(|p| p.to_string()).collect()
}

fn search_splits(all_splits: &Vec<Vec<String>>, search_file: &str) -> bool {
    for split in all_splits {
        for file in split {
            if file.contains(search_file) {
                return true;
            }
        }
    }
    false
}

/// Balancing plus reconciliation covers every discovered spec file: the four
/// buckets hold the timed files, and the last bucket also receives whatever
/// the timing data missed.
#[test]
fn test_split_it_covers_all_test_files() {
    let all_specs = strings(&[
        "./spec/tests_a_spec.rb",
        "./spec/tests_b_spec.rb",
        "./spec/nested/tests_c_spec.rb",
        "./spec/nested/tests_d_spec.rb",
    ]);
    let timings = vec![
        ft("./spec/tests_a_spec.rb", 3_300_000),
        ft("./spec/nested/tests_c_spec.rb", 31_903_082),
    ];
    let total_splits = 4u32;

    let mut all_splits: Vec<Vec<String>> = split_timings(&timings, total_splits)
        .into_iter()
        .map(|bucket| bucket.into_iter().map(|t| t.file_path).collect())
        .collect();
    let missing = paths_not_covered_by_timings(&timings, &all_specs);
    all_splits.last_mut().unwrap().extend(missing);

    assert_eq!(search_splits(&all_splits, "spec/tests_a_spec.rb"), true);
    assert_eq!(search_splits(&all_splits, "spec/tests_b_spec.rb"), true);
    assert_eq!(
        search_splits(&all_splits, "spec/nested/tests_c_spec.rb"),
        true
    );
    assert_eq!(
        search_splits(&all_splits, "spec/nested/tests_d_spec.rb"),
        true
    );
}

/// A hand-made partition plus reconciliation covers every discovered spec
/// file as well.
#[test]
fn test_split_pre_bucketed_it_covers_all_test_files() {
    let all_specs = strings(&[
        "./spec/tests_a_spec.rb",
        "./spec/tests_b_spec.rb",
        "./spec/nested/tests_c_spec.rb",
        "./spec/nested/tests_d_spec.rb",
        "./spec/nested/tests_e_spec.rb",
    ]);
    let mut all_splits: Vec<Vec<String>> = vec![
        strings(&["./spec/tests_a_spec.rb"]),
        strings(&[
            "./spec/nested/tests_c_spec.rb",
            "./spec/nested/tests_e_spec.rb",
        ]),
    ];
    let covered: Vec<String> = all_splits.iter().flatten().cloned().collect();
    let missing = paths_not_covered(&covered, &all_specs);
    all_splits.last_mut().unwrap().extend(missing);

    assert_eq!(search_splits(&all_splits, "spec/tests_a_spec.rb"), true);
    assert_eq!(search_splits(&all_splits, "spec/tests_b_spec.rb"), true);
    assert_eq!(
        search_splits(&all_splits, "spec/nested/tests_c_spec.rb"),
        true
    );
    assert_eq!(
        search_splits(&all_splits, "spec/nested/tests_d_spec.rb"),
        true
    );
    assert_eq!(
        search_splits(&all_splits, "spec/nested/tests_e_spec.rb"),
        true
    );
}

#[test]
fn paths_not_covered_keeps_discovery_order() {
    let covered = strings(&["b.rb"]);
    let specs = strings(&["a.rb", "b.rb", "c.rb"]);
    assert_eq!(paths_not_covered(&covered, &specs), strings(&["a.rb", "c.rb"]));
}

#[test]
fn paths_not_covered_with_nothing_covered() {
    let specs = strings(&["a.rb", "b.rb"]);
    assert_eq!(paths_not_covered(&Vec::new(), &specs), specs);
}

#[test]
fn retain_spec_timings_drops_unknown_paths() {
    let timings = vec![ft("a.rb", 1), ft("gone.rb", 2), ft("b.rb", 3)];
    let specs = strings(&["a.rb", "b.rb"]);
    assert_eq!(
        retain_spec_timings(&timings, &specs),
        vec![ft("a.rb", 1), ft("b.rb", 3)]
    );
}

#[test]
fn file_stems() {
    assert_eq!(get_file_stem("spec/tests_a_spec.rb"), "tests_a_spec");
    assert_eq!(get_file_stem("./spec/nested/tests_c_spec.rb"), "tests_c_spec");
    assert_eq!(get_file_stem("a/b/c.tar.gz"), "c.tar");
    assert_eq!(get_file_stem(".bashrc"), ".bashrc");
    assert_eq!(get_file_stem("plain"), "plain");
    assert_eq!(get_file_stem("trailing."), "trailing");
}

#[test]
fn spec_files_by_stem_suffix() {
    assert!(is_spec_file("spec/tests_a_spec.rb"));
    assert!(is_spec_file("deep/nested/worker_spec.rb"));
    assert!(!is_spec_file("spec/test_helper.rb"));
    assert!(!is_spec_file("spec/spec.rb"));
    assert!(!is_spec_file("notes.txt"));
}
