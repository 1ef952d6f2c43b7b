use log_ingest::batch::{batch_capacity, split_logs, Dispatcher, SINK_PARAMETER_LIMIT};
use log_ingest::encode::encode_record;
use log_ingest::model::{NewFinishedLog, NewStartingLog};
use log_ingest::pipeline::{ingest, Ingested};
use log_ingest::record::{Field, RecordError};

fn starts_of(out: &Ingested) -> Vec<(i64, i64)> {
    out.starts
        .iter()
        .flat_map(|(_, b)| b.iter().map(|s| (s.log_id, s.timestamp)))
        .collect()
}

fn finishes_of(out: &Ingested) -> Vec<(i64, i64)> {
    out.finishes
        .iter()
        .flat_map(|(_, b)| b.iter().map(|f| (f.log_id, f.timestamp)))
        .collect()
}

#[test]
fn start_then_finish_record() {
    let input = br#"{"id":"1","state":"STARTED","timestamp":"0"}{"id":"1","state":"FINISHED","timestamp":"999"}"#;
    let out = ingest(input, 32767, 2).unwrap();
    assert_eq!(out.starts.len(), 1);
    assert_eq!(out.starts[0].0, 0);
    assert_eq!(out.starts[0].1, vec![NewStartingLog { log_id: 1, timestamp: 0 }]);
    assert_eq!(out.finishes.len(), 1);
    assert_eq!(out.finishes[0].0, 0);
    assert_eq!(out.finishes[0].1, vec![NewFinishedLog { log_id: 1, timestamp: 999 }]);
}

#[test]
fn unknown_state_aborts() {
    let input = br#"{"id":"1","state":"STARTED","timestamp":"0"}{"id":"2","state":"CANCELLED","timestamp":"5"}{"id":"3","state":"STARTED","timestamp":"7"}"#;
    assert!(matches!(ingest(input, 32767, 2), Err(RecordError::UnknownState)));
}

#[test]
fn two_hundred_thousand_starts() {
    let capacity = batch_capacity(SINK_PARAMETER_LIMIT, 2).unwrap();
    assert_eq!(capacity, 32767);
    let mut input = Vec::new();
    for i in 0..200_000i64 {
        input.extend_from_slice(&encode_record(i, 0, false));
    }
    let out = ingest(&input, capacity, 2).unwrap();
    assert_eq!(out.starts.len(), 7);
    assert!(out.finishes.is_empty());
    for (k, (worker, batch)) in out.starts.iter().enumerate() {
        assert_eq!(*worker, k % 2);
        if k < 6 {
            assert_eq!(batch.len(), 32767);
        } else {
            assert_eq!(batch.len(), 200_000 - 6 * 32767);
        }
    }
    let ids: Vec<i64> = starts_of(&out).iter().map(|p| p.0).collect();
    assert_eq!(ids, (0..200_000i64).collect::<Vec<i64>>());
}

#[test]
fn round_trip_does_not_depend_on_batching() {
    let tuples: Vec<(i64, i64, bool)> = vec![
        (1, 0, false),
        (1, 999, true),
        (-5, 12, false),
        (i64::MAX, i64::MIN, true),
        (0, -1, false),
        (42, 7, true),
        (43, 8, false),
    ];
    let mut input = Vec::new();
    for (id, ts, finished) in &tuples {
        input.extend_from_slice(&encode_record(*id, *ts, *finished));
    }
    let want_starts: Vec<(i64, i64)> =
        tuples.iter().filter(|t| !t.2).map(|t| (t.0, t.1)).collect();
    let want_finishes: Vec<(i64, i64)> =
        tuples.iter().filter(|t| t.2).map(|t| (t.0, t.1)).collect();
    for capacity in 1..5usize {
        for workers in 1..4usize {
            let out = ingest(&input, capacity, workers).unwrap();
            assert_eq!(starts_of(&out), want_starts);
            assert_eq!(finishes_of(&out), want_finishes);
        }
    }
}

#[test]
fn batches_respect_capacity() {
    let mut input = Vec::new();
    for i in 0..23i64 {
        input.extend_from_slice(&encode_record(i, i * 10, i % 3 == 0));
    }
    let out = ingest(&input, 4, 3).unwrap();
    for batches in [
        out.starts.iter().map(|b| b.1.len()).collect::<Vec<usize>>(),
        out.finishes.iter().map(|b| b.1.len()).collect::<Vec<usize>>(),
    ] {
        let n = batches.len();
        for (k, len) in batches.iter().enumerate() {
            assert!(*len > 0 && *len <= 4);
            if k + 1 < n {
                assert_eq!(*len, 4);
            }
        }
    }
    assert_eq!(out.starts.iter().map(|b| b.0).collect::<Vec<usize>>(), vec![0, 1, 2, 0]);
    assert_eq!(out.finishes.iter().map(|b| b.0).collect::<Vec<usize>>(), vec![0, 1]);
}

#[test]
fn rerun_duplicates_rows() {
    let input = br#"{"id":"1","state":"STARTED","timestamp":"0"}{"id":"2","state":"STARTED","timestamp":"3"}"#;
    let mut store: Vec<NewStartingLog> = Vec::new();
    for _ in 0..2 {
        let out = ingest(input, 10, 2).unwrap();
        for (_, batch) in out.starts {
            store.extend(batch);
        }
    }
    assert_eq!(store.len(), 4);
    assert_eq!(store.iter().filter(|s| s.log_id == 1).count(), 2);
    assert_eq!(store.iter().filter(|s| s.log_id == 2).count(), 2);
}

#[test]
fn malformed_records_fail() {
    let missing = br#"{"id":"1","state":"STARTED"}"#;
    assert!(matches!(
        ingest(missing, 10, 1),
        Err(RecordError::MissingField(Field::Timestamp))
    ));
    let bad = br#"{"id":"x1","state":"STARTED","timestamp":"0"}"#;
    assert!(matches!(
        ingest(bad, 10, 1),
        Err(RecordError::NotAnInteger(Field::Id))
    ));
}

#[test]
fn trailing_partial_record_is_dropped() {
    let input = br#"{"id":"1","state":"STARTED","timestamp":"0"}{"id":"2","sta"#;
    let out = ingest(input, 10, 1).unwrap();
    assert_eq!(starts_of(&out), vec![(1, 0)]);
}

#[test]
fn empty_input_gives_no_batch() {
    let out = ingest(b"", 10, 2).unwrap();
    assert!(out.starts.is_empty());
    assert!(out.finishes.is_empty());
}

#[test]
fn capacity_from_limit_and_fields() {
    assert_eq!(batch_capacity(65535, 2), Some(32767));
    assert_eq!(batch_capacity(65535, 3), Some(21845));
    assert_eq!(batch_capacity(1, 2), None);
    assert_eq!(batch_capacity(10, 0), None);
}

#[test]
fn split_logs_cuts_by_parameters() {
    let logs: Vec<u32> = (0..70000).collect();
    let parts = split_logs(&logs, 2);
    assert_eq!(parts.len(), 3);
    assert_eq!(parts[0].len(), 32767);
    assert_eq!(parts[1].len(), 32767);
    assert_eq!(parts[2].len(), 70000 - 2 * 32767);
    assert_eq!(parts[1][0], 32767);
    let empty: Vec<u32> = Vec::new();
    assert!(split_logs(&empty, 2).is_empty());
    let exact: Vec<u32> = (0..32767).collect();
    assert_eq!(split_logs(&exact, 2).len(), 1);
}

#[test]
fn dispatcher_deals_in_turn() {
    let mut d: Dispatcher<u32> = Dispatcher::new(2, 3);
    let mut dealt = Vec::new();
    for i in 0..9u32 {
        if let Some(b) = d.push(i) {
            dealt.push(b);
        }
    }
    if let Some(b) = d.finish() {
        dealt.push(b);
    }
    assert_eq!(
        dealt,
        vec![(0, vec![0, 1]), (1, vec![2, 3]), (2, vec![4, 5]), (0, vec![6, 7]), (1, vec![8])]
    );
}

#[test]
fn every_started_id_once_per_record() {
    let input = br#"{"id":"5","state":"STARTED","timestamp":"1"}{"id":"6","state":"FINISHED","timestamp":"2"}{"id":"5","state":"STARTED","timestamp":"3"}{"id":"7","state":"STARTED","timestamp":"4"}"#;
    let out = ingest(input, 2, 2).unwrap();
    let mut ids: Vec<i64> = starts_of(&out).iter().map(|p| p.0).collect();
    ids.sort();
    assert_eq!(ids, vec![5, 5, 7]);
    assert_eq!(finishes_of(&out), vec![(6, 2)]);
}
