use crc_check::checksum::hash_bytes;
use crc_check::dispatch::restore_order;
use crc_check::hex::crc_hex_upper;
use crc_check::report::{report_all, HashOutcome};

#[test]
fn restore_order_undoes_any_completion_order() {
    let completed = vec![
        (2usize, HashOutcome::Hashed(33)),
        (0usize, HashOutcome::Hashed(11)),
        (1usize, HashOutcome::Hashed(22)),
    ];
    let restored = restore_order(3, completed);
    assert_eq!(
        restored,
        Some(vec![
            HashOutcome::Hashed(11),
            HashOutcome::Hashed(22),
            HashOutcome::Hashed(33),
        ])
    );
}

#[test]
fn restore_order_accepts_in_order_completion_too() {
    let completed = vec![
        (0usize, HashOutcome::Hashed(11)),
        (1usize, HashOutcome::Failed(b"gone".to_vec())),
    ];
    let restored = restore_order(2, completed);
    assert_eq!(
        restored,
        Some(vec![
            HashOutcome::Hashed(11),
            HashOutcome::Failed(b"gone".to_vec()),
        ])
    );
}

#[test]
fn duplicated_position_is_an_invariant_violation() {
    let completed = vec![
        (0usize, HashOutcome::Hashed(11)),
        (0usize, HashOutcome::Hashed(22)),
    ];
    assert_eq!(restore_order(2, completed), None);
}

#[test]
fn missing_position_is_an_invariant_violation() {
    let completed = vec![(0usize, HashOutcome::Hashed(11))];
    assert_eq!(restore_order(2, completed), None);
}

#[test]
fn out_of_range_position_is_an_invariant_violation() {
    let completed = vec![(1usize, HashOutcome::Hashed(11))];
    assert_eq!(restore_order(1, completed), None);
}

#[test]
fn empty_batch_restores_to_empty() {
    assert_eq!(restore_order(0, Vec::new()), Some(Vec::new()));
}

#[test]
fn three_paths_report_in_input_order_even_when_last_finishes_first() {
    let paths = vec![b"a.txt".to_vec(), b"b.txt".to_vec(), b"c.txt".to_vec()];
    let ha = hash_bytes(&b"alpha"[..]);
    let hb = hash_bytes(&b"bravo"[..]);
    let hc = hash_bytes(&b"charlie"[..]);
    // c.txt was hashed first internally, a.txt last.
    let completed = vec![
        (2usize, HashOutcome::Hashed(hc)),
        (1usize, HashOutcome::Hashed(hb)),
        (0usize, HashOutcome::Hashed(ha)),
    ];
    let outcomes = restore_order(3, completed).expect("every job completed exactly once");
    let lines = report_all(&paths, &outcomes);
    let expected: Vec<Vec<u8>> = vec![(ha, &b"a.txt"[..]), (hb, &b"b.txt"[..]), (hc, &b"c.txt"[..])]
        .into_iter()
        .map(|(h, p)| {
            let mut line = crc_hex_upper(h);
            line.push(b'\t');
            line.extend_from_slice(p);
            line
        })
        .collect();
    assert_eq!(lines, expected);
}
