use crc_check::report::{report_all, report_line, HashOutcome};

#[test]
fn matching_token_reports_ok() {
    let line = report_line(b"movie_1A2B3C4D.mkv", &HashOutcome::Hashed(0x1A2B3C4D), false);
    assert_eq!(line, b"1A2B3C4D\tOK".to_vec());
}

#[test]
fn mismatching_token_reports_bad_with_both_values() {
    let line = report_line(b"movie_1A2B3C4D.mkv", &HashOutcome::Hashed(0x00000000), false);
    assert_eq!(line, b"00000000\tBAD 00000000 != 1A2B3C4D".to_vec());
}

#[test]
fn failure_reports_err_with_placeholder_and_diagnostic() {
    let outcome = HashOutcome::Failed(b"No such file or directory (os error 2)".to_vec());
    let line = report_line(b"missing.bin", &outcome, false);
    assert_eq!(
        line,
        b"????????\tERR No such file or directory (os error 2)".to_vec()
    );
}

#[test]
fn no_token_means_no_verdict() {
    let line = report_line(b"a.txt", &HashOutcome::Hashed(0x0000007B), false);
    assert_eq!(line, b"0000007B".to_vec());
}

#[test]
fn path_is_appended_only_for_multi_file_reports() {
    let single = report_line(b"a.txt", &HashOutcome::Hashed(1), false);
    assert_eq!(single, b"00000001".to_vec());
    let multi = report_line(b"a.txt", &HashOutcome::Hashed(1), true);
    assert_eq!(multi, b"00000001\ta.txt".to_vec());
}

#[test]
fn failure_line_with_path_keeps_field_order() {
    let outcome = HashOutcome::Failed(b"permission denied".to_vec());
    let line = report_line(b"locked.bin", &outcome, true);
    assert_eq!(line, b"????????\tlocked.bin\tERR permission denied".to_vec());
}

#[test]
fn report_all_keeps_input_order() {
    let paths = vec![b"a.txt".to_vec(), b"b.txt".to_vec(), b"c.txt".to_vec()];
    let outcomes = vec![
        HashOutcome::Hashed(1),
        HashOutcome::Hashed(2),
        HashOutcome::Hashed(3),
    ];
    let lines = report_all(&paths, &outcomes);
    assert_eq!(
        lines,
        vec![
            b"00000001\ta.txt".to_vec(),
            b"00000002\tb.txt".to_vec(),
            b"00000003\tc.txt".to_vec(),
        ]
    );
}
