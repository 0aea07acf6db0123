use red_dot_count::file::{process_file, FileRecord};
use red_dot_count::frame::Frame;
use red_dot_count::summary::{
    all_names_well_formed, arrange, find_earliest, make_entry, summarize, Entry, SummaryRow,
};
use red_dot_count::timestamp::Timestamp;

const T0: i64 = 1_704_067_200; // 2024-01-01T00:00:00

fn record(name: &str, count: u128) -> FileRecord {
    FileRecord { file_name: name.to_string(), total_red_dot_count: count }
}

fn entry(seconds: Option<i64>, number: Option<i64>, count: u128) -> Entry {
    Entry {
        timestamp: seconds.map(|seconds| Timestamp { seconds }),
        sequence_number: number,
        red_dot_count: count,
    }
}

fn hours(rows: &[SummaryRow]) -> Vec<Option<f64>> {
    rows.iter().map(|r| r.elapsed_seconds.map(|s| s as f64 / 3600.0)).collect()
}

fn counts(rows: &[SummaryRow]) -> Vec<u128> {
    rows.iter().map(|r| r.red_dot_count).collect()
}

fn frame_with(pixels: usize, red: usize) -> Frame {
    let mut samples = Vec::new();
    for i in 0..pixels {
        if i < red {
            samples.extend_from_slice(&[0, 255, 255]);
        } else {
            samples.extend_from_slice(&[100, 255, 255]);
        }
    }
    Frame { width: pixels, height: 1, channels: 3, bits_per_sample: 8, samples }
}

#[test]
fn elapsed_hours_do_not_depend_on_the_input_order() {
    let a = record("001_20240101_000000.tiff", 5);
    let b = record("002_20240101_010000.tiff", 10);
    let c = record("003_20240101_020000.tiff", 3);
    let orders = [
        [&a, &b, &c],
        [&a, &c, &b],
        [&b, &a, &c],
        [&b, &c, &a],
        [&c, &a, &b],
        [&c, &b, &a],
    ];
    for order in orders {
        let batch: Vec<FileRecord> = order.iter().map(|r| (*r).clone()).collect();
        let rows = summarize(&batch);
        assert_eq!(hours(&rows), vec![Some(0.0), Some(1.0), Some(2.0)]);
        assert_eq!(counts(&rows), vec![5, 10, 3]);
        assert_eq!(
            rows.iter().map(|r| r.timestamp.map(|t| t.seconds)).collect::<Vec<_>>(),
            vec![Some(T0), Some(T0 + 3600), Some(T0 + 7200)]
        );
        assert_eq!(
            rows.iter().map(|r| r.sequence_number).collect::<Vec<_>>(),
            vec![Some(1), Some(2), Some(3)]
        );
    }
}

#[test]
fn arranging_entries_gives_the_same_rows_in_any_arrival_order() {
    let a = entry(Some(T0), Some(1), 5);
    let b = entry(Some(T0 + 3600), Some(2), 10);
    let c = entry(Some(T0 + 7200), Some(3), 3);
    let expected = arrange(&vec![a, b, c]);
    for batch in [vec![a, c, b], vec![b, a, c], vec![b, c, a], vec![c, a, b], vec![c, b, a]] {
        assert_eq!(arrange(&batch), expected);
    }
}

#[test]
fn summarising_a_summary_again_changes_nothing() {
    let batch = vec![
        entry(Some(T0 + 7200), Some(3), 3),
        entry(None, Some(9), 1),
        entry(Some(T0), Some(2), 5),
        entry(Some(T0), Some(1), 10),
        entry(Some(T0), Some(1), 11),
        entry(None, None, 4),
    ];
    let once = arrange(&batch);
    let again: Vec<Entry> = once.iter().map(|r| r.to_entry()).collect();
    let twice = arrange(&again);
    assert_eq!(twice, once);
}

#[test]
fn sorted_batch_of_records_comes_out_in_the_same_order() {
    let batch = vec![
        record("001_20240101_000000.tiff", 5),
        record("002_20240101_010000.tiff", 10),
        record("003_20240101_020000.tiff", 3),
    ];
    let first = summarize(&batch);
    let second = summarize(&batch);
    assert_eq!(first, second);
    assert_eq!(counts(&first), vec![5, 10, 3]);
}

#[test]
fn two_files_of_one_directory_end_to_end() {
    let first = process_file("001_20240101_000000.tif", &vec![frame_with(10, 3)]).unwrap();
    let second =
        process_file("002_20240101_010000.tif", &vec![frame_with(6, 2), frame_with(8, 5)]).unwrap();
    for batch in [vec![first.clone(), second.clone()], vec![second, first]] {
        let rows = summarize(&batch);
        assert_eq!(
            rows,
            vec![
                SummaryRow {
                    timestamp: Some(Timestamp { seconds: T0 }),
                    sequence_number: Some(1),
                    red_dot_count: 3,
                    elapsed_seconds: Some(0),
                },
                SummaryRow {
                    timestamp: Some(Timestamp { seconds: T0 + 3600 }),
                    sequence_number: Some(2),
                    red_dot_count: 7,
                    elapsed_seconds: Some(3600),
                },
            ]
        );
        assert_eq!(hours(&rows), vec![Some(0.0), Some(1.0)]);
    }
}

#[test]
fn elapsed_time_is_counted_from_the_earliest_timestamp() {
    let rows = arrange(&vec![
        entry(Some(100), None, 1),
        entry(Some(-50), None, 2),
        entry(Some(7300), None, 3),
    ]);
    assert_eq!(
        rows.iter().map(|r| r.elapsed_seconds).collect::<Vec<_>>(),
        vec![Some(0), Some(150), Some(7350)]
    );
    assert_eq!(counts(&rows), vec![2, 1, 3]);
}

#[test]
fn elapsed_time_spans_the_whole_range_of_timestamps() {
    let rows = arrange(&vec![entry(Some(i64::MAX), None, 1), entry(Some(i64::MIN), None, 2)]);
    assert_eq!(
        rows.iter().map(|r| r.elapsed_seconds).collect::<Vec<_>>(),
        vec![Some(0), Some(u64::MAX)]
    );
}

#[test]
fn rows_without_timestamp_come_first_and_have_no_elapsed_time() {
    let batch = vec![
        record("002_20240101_010000.tiff", 10),
        record("009_notadate_010000.tiff", 1),
        record("001_20240101_000000.tiff", 5),
        record("004_20241301_000000.tiff", 2),
    ];
    assert!(all_names_well_formed(&batch));
    let rows = summarize(&batch);
    assert_eq!(
        rows,
        vec![
            SummaryRow {
                timestamp: None,
                sequence_number: Some(4),
                red_dot_count: 2,
                elapsed_seconds: None
            },
            SummaryRow {
                timestamp: None,
                sequence_number: Some(9),
                red_dot_count: 1,
                elapsed_seconds: None
            },
            SummaryRow {
                timestamp: Some(Timestamp { seconds: T0 }),
                sequence_number: Some(1),
                red_dot_count: 5,
                elapsed_seconds: Some(0)
            },
            SummaryRow {
                timestamp: Some(Timestamp { seconds: T0 + 3600 }),
                sequence_number: Some(2),
                red_dot_count: 10,
                elapsed_seconds: Some(3600)
            },
        ]
    );
}

#[test]
fn one_malformed_name_leaves_the_whole_batch_without_timestamps() {
    let batch = vec![
        record("002_20240101_010000.tiff", 10),
        record("badname.tiff", 1),
        record("42.tiff", 7),
        record("001_20240101_000000.tiff", 5),
    ];
    assert!(!all_names_well_formed(&batch));
    let rows = summarize(&batch);
    assert_eq!(
        rows,
        vec![
            SummaryRow {
                timestamp: None,
                sequence_number: None,
                red_dot_count: 10,
                elapsed_seconds: None
            },
            SummaryRow {
                timestamp: None,
                sequence_number: None,
                red_dot_count: 1,
                elapsed_seconds: None
            },
            SummaryRow {
                timestamp: None,
                sequence_number: None,
                red_dot_count: 5,
                elapsed_seconds: None
            },
            SummaryRow {
                timestamp: None,
                sequence_number: Some(42),
                red_dot_count: 7,
                elapsed_seconds: None
            },
        ]
    );
}

#[test]
fn equal_timestamps_are_ordered_by_sequence_number() {
    let batch = vec![
        record("003_20240101_000000.tiff", 30),
        record("001_20240101_000000.tiff", 10),
        record("002_20240101_000000.tiff", 20),
    ];
    let rows = summarize(&batch);
    assert_eq!(counts(&rows), vec![10, 20, 30]);
    assert_eq!(hours(&rows), vec![Some(0.0), Some(0.0), Some(0.0)]);
}

#[test]
fn rows_that_tie_keep_their_arrival_order() {
    let batch = vec![
        record("001_20240101_000000_b.tiff", 2),
        record("001_20240101_000000_a.tiff", 1),
        record("1_20240101_000000.tif", 3),
    ];
    assert_eq!(counts(&summarize(&batch)), vec![2, 1, 3]);
}

#[test]
fn empty_batch_gives_an_empty_summary() {
    assert_eq!(summarize(&vec![]), vec![]);
    assert_eq!(arrange(&vec![]), vec![]);
    assert!(all_names_well_formed(&vec![]));
}

#[test]
fn single_file_has_elapsed_time_zero() {
    let rows = summarize(&vec![record("007_20240115_083000.tiff", 12)]);
    assert_eq!(
        rows,
        vec![SummaryRow {
            timestamp: Some(Timestamp { seconds: 1_705_307_400 }),
            sequence_number: Some(7),
            red_dot_count: 12,
            elapsed_seconds: Some(0),
        }]
    );
}

#[test]
fn earliest_timestamp_of_a_batch() {
    assert_eq!(find_earliest(&vec![]), None);
    assert_eq!(find_earliest(&vec![entry(None, Some(1), 0), entry(None, None, 0)]), None);
    assert_eq!(
        find_earliest(&vec![
            entry(Some(5), None, 0),
            entry(None, None, 0),
            entry(Some(-3), None, 0),
            entry(Some(4), None, 0)
        ]),
        Some(Timestamp { seconds: -3 })
    );
}

#[test]
fn entry_of_a_file_in_either_kind_of_batch() {
    let file = record("003_20240115_083000.tiff", 9);
    assert_eq!(make_entry(&file, true), entry(Some(1_705_307_400), Some(3), 9));
    assert_eq!(make_entry(&file, false), entry(None, None, 9));
    let plain = record("17.tif", 4);
    assert_eq!(make_entry(&plain, false), entry(None, Some(17), 4));
    assert_eq!(make_entry(&plain, true), entry(None, Some(17), 4));
    let odd = record("x_20240115_0830.tiff", 1);
    assert_eq!(make_entry(&odd, true), entry(None, None, 1));
}

#[test]
fn row_and_entry_convert_back_and_forth() {
    let row = SummaryRow {
        timestamp: Some(Timestamp { seconds: 9 }),
        sequence_number: Some(2),
        red_dot_count: 4,
        elapsed_seconds: Some(1),
    };
    assert_eq!(row.to_entry(), entry(Some(9), Some(2), 4));
    assert_eq!(row.to_entry().sort_key().timestamp, Some(Timestamp { seconds: 9 }));
    assert_eq!(row.to_entry().sort_key().sequence_number, Some(2));
}
