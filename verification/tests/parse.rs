use rspec_timing_tool::timings::parse_rspec_output;
use rspec_timing_tool::timings::FileTiming;

fn ft(file_path: &str, total_time: u64) -> FileTiming {
    FileTiming { file_path: file_path.to_string(), total_time }
}

#[test]
fn it_works() {
    let file_timings = parse_rspec_output(
        r####"
            <garbage>
            q-rj9r1-924i-ef0iw-fi-0iqp2ojlkj
            <testcase classname="spec.lib.deliveries.worker_spec" name="Some spec name" file="./spec/lib/deliveries/worker_spec.rb" time="0.164580"></testcase>
            <testcase classname="spec.lib.deliveries.worker_spec" name="Some spec name 2" file="./spec/lib/deliveries/worker_spec.rb" time="0.42"></testcase>
        "####,
    )
    .expect("no errors");

    assert_eq!(
        file_timings,
        vec![ft("./spec/lib/deliveries/worker_spec.rb", 584_580)]
    );
}

#[test]
fn accumulates_per_file() {
    // two lines for one path: 0.164580 s + 0.42 s = 0.584580 s
    let report = "<testcase file=\"./spec/worker_spec.rb\" time=\"0.164580\"/>\n<testcase file=\"./spec/worker_spec.rb\" time=\"0.42\"/>\n";
    let file_timings = parse_rspec_output(report).expect("no errors");
    assert_eq!(file_timings, vec![ft("./spec/worker_spec.rb", 584_580)]);
}

#[test]
fn keeps_first_appearance_order() {
    let report = "<t file=\"b.rb\" time=\"1\"/>\n<t file=\"a.rb\" time=\"2\"/>\n<t file=\"b.rb\" time=\"0.5\"/>\n";
    let file_timings = parse_rspec_output(report).expect("no errors");
    assert_eq!(
        file_timings,
        vec![ft("b.rb", 1_500_000), ft("a.rb", 2_000_000)]
    );
}

#[test]
fn tolerates_lines_without_both_keys() {
    let report = "random noise with no tags\n<testcase file=\"only_file.rb\"/>\n<testcase time=\"1.5\"/>\n<sometag name=\"neither\" id=\"42\"/>\n\n";
    let file_timings = parse_rspec_output(report).expect("no errors");
    assert_eq!(file_timings, vec![]);
}

#[test]
fn malformed_time_is_an_error() {
    let result = parse_rspec_output("<testcase file=\"x\" time=\"not-a-number\"/>");
    let err = result.expect_err("a malformed time must fail");
    assert_eq!(err.value, "not-a-number".to_string());
}

#[test]
fn malformed_time_fails_even_with_garbage_around() {
    let report = "fine line without tags\n<testcase file=\"ok.rb\" time=\"1.0\"/>\n<testcase file=\"bad.rb\" time=\"1.2.3\"/>\n";
    assert!(parse_rspec_output(report).is_err());
}

#[test]
fn empty_report_yields_no_records() {
    assert_eq!(parse_rspec_output("").expect("no errors"), vec![]);
}

#[test]
fn later_attributes_override_earlier_ones() {
    let report = "<t file=\"first.rb\" time=\"1\" file=\"second.rb\" time=\"2\"/>";
    let file_timings = parse_rspec_output(report).expect("no errors");
    assert_eq!(file_timings, vec![ft("second.rb", 2_000_000)]);
}

#[test]
fn number_shapes_parse_exactly() {
    let report = "<t file=\"a\" time=\"5\"/>\n<t file=\"b\" time=\"5.\"/>\n<t file=\"c\" time=\".5\"/>\n<t file=\"d\" time=\"0.1234567\"/>\n";
    let file_timings = parse_rspec_output(report).expect("no errors");
    assert_eq!(
        file_timings,
        vec![
            ft("a", 5_000_000),
            ft("b", 5_000_000),
            ft("c", 500_000),
            ft("d", 123_456),
        ]
    );
}

#[test]
fn windows_line_endings_are_handled() {
    let report = "<t file=\"a.rb\" time=\"1\"/>\r\n<t file=\"b.rb\" time=\"2\"/>\r\n";
    let file_timings = parse_rspec_output(report).expect("no errors");
    assert_eq!(
        file_timings,
        vec![ft("a.rb", 1_000_000), ft("b.rb", 2_000_000)]
    );
}
