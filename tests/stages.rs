use log_ingest::encode::encode_record;
use log_ingest::model::{Entry, NewFinishedLog, NewStartingLog};
use log_ingest::pipeline::{Phase, StageEvent};
use log_ingest::progress::{Progress, Tracker};
use log_ingest::record::{parse_i64, parse_record, split_fields, Classifier, Field, RecordError};
use log_ingest::segment::Segmenter;

#[test]
fn segmenter_cuts_at_closing_brackets() {
    let mut s = Segmenter::new();
    let out = s.feed(b"{a}{bc");
    assert_eq!(out.records, vec![b"{a}".to_vec()]);
    assert_eq!(s.pending_len(), 3);
    let out = s.feed(b"d}}x");
    assert_eq!(out.records, vec![b"{bcd}".to_vec(), b"}".to_vec()]);
    assert_eq!(s.pending_len(), 1);
    assert!(out.samples.is_empty());
    assert_eq!(s.finish(), vec![Tracker::BytesRead(None), Tracker::LogsFound(3)]);
}

#[test]
fn segmenter_chunks_do_not_matter() {
    let text = b"{\"id\":\"1\"}{\"id\":\"2\"}{\"id\":\"3\"}{\"i";
    let mut whole = Segmenter::new();
    let all = whole.feed(text).records;
    for cut in 0..text.len() {
        let mut s = Segmenter::new();
        let mut got = s.feed(&text[..cut]).records;
        got.extend(s.feed(&text[cut..]).records);
        assert_eq!(got, all);
    }
    assert_eq!(all.len(), 3);
}

#[test]
fn segmenter_reports_every_four_mebibytes() {
    let mut s = Segmenter::new();
    let mut chunk = vec![b'a'; 4194303];
    chunk.push(b'}');
    chunk.extend_from_slice(b"{b}");
    let out = s.feed(&chunk);
    assert_eq!(out.records.len(), 2);
    assert_eq!(out.samples, vec![Tracker::BytesRead(Some(4194304)), Tracker::LogsFound(1)]);
    assert_eq!(s.finish(), vec![Tracker::BytesRead(None), Tracker::LogsFound(1)]);
}

#[test]
fn fields_are_split_after_stripping() {
    let parts = split_fields(b"{\"id\":\"1\", \"host\":\"a:b\"}");
    assert_eq!(parts, vec![b"id:1".to_vec(), b"host:a:b".to_vec()]);
    assert_eq!(split_fields(b""), vec![Vec::<u8>::new()]);
}

#[test]
fn generated_records_with_extra_fields_parse() {
    let raw = br#"{"id":"17", "state":"FINISHED", "type":"TEST", "host":"1234", "timestamp":"999"}"#;
    assert_eq!(
        parse_record(raw),
        Ok(Entry::Finish(NewFinishedLog { log_id: 17, timestamp: 999 }))
    );
}

#[test]
fn record_errors() {
    assert_eq!(
        parse_record(br#"{"state":"STARTED","timestamp":"0"}"#),
        Err(RecordError::MissingField(Field::Id))
    );
    assert_eq!(
        parse_record(br#"{"id":"1","timestamp":"0"}"#),
        Err(RecordError::MissingField(Field::State))
    );
    assert_eq!(
        parse_record(br#"{"id":"1","state":"RUNNING","timestamp":"0"}"#),
        Err(RecordError::UnknownState)
    );
    assert_eq!(
        parse_record(br#"{"id":"1","state":"STARTED","timestamp":"soon"}"#),
        Err(RecordError::NotAnInteger(Field::Timestamp))
    );
    assert_eq!(
        parse_record(br#"{"id":"99999999999999999999","state":"STARTED","timestamp":"0"}"#),
        Err(RecordError::NotAnInteger(Field::Id))
    );
}

#[test]
fn integers_parse_like_std() {
    for s in ["0", "7", "-7", "+7", "007", "9223372036854775807", "-9223372036854775808"] {
        assert_eq!(parse_i64(s.as_bytes()), s.parse::<i64>().ok(), "{}", s);
    }
    for s in ["", "-", "+", "1a", "9223372036854775808", "-9223372036854775809", "--1", " 1"] {
        assert_eq!(parse_i64(s.as_bytes()), None, "{}", s);
    }
}

#[test]
fn encoded_record_text() {
    assert_eq!(
        encode_record(12, -3, false),
        br#"{"id":"12","state":"STARTED","timestamp":"-3"}"#.to_vec()
    );
    assert_eq!(
        encode_record(i64::MIN, 0, true),
        br#"{"id":"-9223372036854775808","state":"FINISHED","timestamp":"0"}"#.to_vec()
    );
    assert_eq!(
        parse_record(&encode_record(5, 6, false)),
        Ok(Entry::Start(NewStartingLog { log_id: 5, timestamp: 6 }))
    );
}

#[test]
fn classifier_reports_status_every_period() {
    let mut c = Classifier::new();
    for i in 0..32766i64 {
        let out = c.classify(&encode_record(i, 0, false)).unwrap();
        assert!(out.samples.is_empty());
    }
    let out = c.classify(&encode_record(-4, 0, true)).unwrap();
    assert_eq!(out.entry, Entry::Finish(NewFinishedLog { log_id: -4, timestamp: 0 }));
    assert_eq!(
        out.samples,
        vec![
            Tracker::LogsMessage(Some("parsing -> ID [-4]".to_string())),
            Tracker::LogsParsed(32767)
        ]
    );
    c.classify(&encode_record(1, 0, false)).unwrap();
    assert!(c.classify(b"{\"id\":\"1\"}").is_err());
    assert_eq!(c.finish(), vec![Tracker::LogsParsed(1), Tracker::LogsMessage(None)]);
}

#[test]
fn progress_accumulates_samples() {
    let mut p = Progress::new(100);
    p.apply(Tracker::BytesRead(Some(40)));
    p.apply(Tracker::BytesRead(Some(50)));
    p.apply(Tracker::LogsFound(3));
    p.apply(Tracker::LogsParsed(2));
    p.apply(Tracker::LogsSaved(2));
    p.apply(Tracker::LogsMessage(Some("parsing -> ID [1]".to_string())));
    assert_eq!(p.bytes_read, 90);
    assert_eq!(p.records_found, 3);
    assert_eq!(p.records_expected, 2);
    assert_eq!(p.records_saved, 2);
    assert_eq!(p.status, Some("parsing -> ID [1]".to_string()));
    assert!(!p.reading_done && !p.parsing_done);
    p.apply(Tracker::BytesRead(None));
    p.apply(Tracker::LogsMessage(None));
    assert!(p.reading_done && p.parsing_done);
    assert_eq!(p.bytes_total, 100);
    p.apply(Tracker::LogsSaved(u64::MAX));
    assert_eq!(p.records_saved, u64::MAX);
}

#[test]
fn phases_of_a_run() {
    let p = Phase::NotStarted.next(StageEvent::ProducersClosed);
    assert_eq!(p, Phase::NotStarted);
    let p = p.next(StageEvent::Started);
    assert_eq!(p, Phase::Running);
    let p = p.next(StageEvent::ProducersClosed);
    assert_eq!(p, Phase::Draining);
    assert!(!p.is_finished());
    assert_eq!(p.next(StageEvent::Fatal), Phase::Aborted);
    let done = p.next(StageEvent::AllExited);
    assert_eq!(done, Phase::Completed);
    assert!(done.is_finished());
    assert_eq!(done.next(StageEvent::Fatal), Phase::Completed);
    assert_eq!(Phase::Aborted.next(StageEvent::AllExited), Phase::Aborted);
}
