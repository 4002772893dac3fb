use chainsaw_engine::event::ChainsawEvent;
use chainsaw_engine::ingest::{
    absorb, event_from_fields, events_from_rows, ingest_sources, row_degradation,
    row_from_record, rows_from_records, rows_of_source, IngestionError, IngestionReport,
    ParseDegradation, Source,
};

const HEADER: &str = "timestamp,detections,path,Event ID,Record ID,Computer,User,User SID,Member SID\n";

fn row(cells: &[&str]) -> Vec<Option<String>> {
    cells.iter().map(|s| Some(s.to_string())).collect()
}

fn record(cells: &[&[u8]]) -> Vec<Vec<u8>> {
    cells.iter().map(|c| c.to_vec()).collect()
}

fn readable(name: &str, text: &str) -> Source {
    Source { name: name.to_string(), data: Some(text.as_bytes().to_vec()) }
}

fn unreadable(name: &str) -> Source {
    Source { name: name.to_string(), data: None }
}

fn failed(name: &str) -> IngestionError {
    IngestionError { source: name.to_string() }
}

fn full_event() -> ChainsawEvent {
    ChainsawEvent {
        timestamp: Some("2024-01-01T00:00:00Z".to_string()),
        detections: Some("logon".to_string()),
        path: Some("/bin/sh".to_string()),
        event_id: Some(4624),
        record_id: Some(17),
        computer: Some("host".to_string()),
        user: Some("root".to_string()),
        user_sid: Some("S-1".to_string()),
        member_sid: Some("S-2".to_string()),
    }
}

#[test]
fn a_full_row_fills_every_field() {
    let fields = row(&[
        "2024-01-01T00:00:00Z", "logon", "/bin/sh", "4624", "17", "host", "root", "S-1", "S-2",
    ]);
    assert_eq!(event_from_fields(&fields), full_event());
}

#[test]
fn cells_after_the_ninth_are_not_looked_at() {
    let fields = row(&[
        "2024-01-01T00:00:00Z", "logon", "/bin/sh", "4624", "17", "host", "root", "S-1", "S-2",
        "extra", "more",
    ]);
    assert_eq!(event_from_fields(&fields), full_event());
}

#[test]
fn a_short_row_leaves_the_rest_unset() {
    let mut expected = ChainsawEvent::empty();
    assert_eq!(event_from_fields(&row(&[])), expected);
    expected.timestamp = Some("t".to_string());
    assert_eq!(event_from_fields(&row(&["t"])), expected);
    expected.detections = Some("d".to_string());
    expected.path = Some("p".to_string());
    expected.event_id = Some(1);
    assert_eq!(event_from_fields(&row(&["t", "d", "p", "1"])), expected);
}

#[test]
fn an_empty_cell_is_an_empty_text() {
    let ev = event_from_fields(&row(&["", "", "", "", "", "", "", "", ""]));
    assert_eq!(ev.timestamp, Some(String::new()));
    assert_eq!(ev.detections, Some(String::new()));
    assert_eq!(ev.path, Some(String::new()));
    assert_eq!(ev.event_id, None);
    assert_eq!(ev.record_id, None);
    assert_eq!(ev.computer, Some(String::new()));
    assert_eq!(ev.user, Some(String::new()));
    assert_eq!(ev.user_sid, Some(String::new()));
    assert_eq!(ev.member_sid, Some(String::new()));
}

#[test]
fn a_number_that_cannot_be_read_is_left_out() {
    let ev = event_from_fields(&row(&["t", "d", "p", "four", "-3", "c", "u", "s", "m"]));
    assert_eq!(ev.event_id, None);
    assert_eq!(ev.record_id, None);
    assert_eq!(ev.computer, Some("c".to_string()));
    let ev = event_from_fields(&row(&["t", "d", "p", "4294967296", "+5", "c", "u", "s", "m"]));
    assert_eq!(ev.event_id, None);
    assert_eq!(ev.record_id, Some(5));
}

#[test]
fn a_cell_that_is_no_text_leaves_the_field_unset() {
    let mut fields = row(&["t", "d", "p", "1", "2", "c", "u", "s", "m"]);
    fields[1] = None;
    fields[3] = None;
    fields[7] = None;
    let ev = event_from_fields(&fields);
    assert_eq!(ev.timestamp, Some("t".to_string()));
    assert_eq!(ev.detections, None);
    assert_eq!(ev.path, Some("p".to_string()));
    assert_eq!(ev.event_id, None);
    assert_eq!(ev.record_id, Some(2));
    assert_eq!(ev.user_sid, None);
    assert_eq!(ev.member_sid, Some("m".to_string()));
    assert_eq!(
        row_degradation(&vec![None, None, None, None, Some("7".to_string())]),
        ParseDegradation { timestamp: true, event_id: true, record_id: false }
    );
}

#[test]
fn the_cells_of_a_record_are_read_as_text() {
    assert_eq!(
        row_from_record(&record(&[b"abc", b"", "h\u{e9}llo \u{1f600}".as_bytes()])),
        row(&["abc", "", "h\u{e9}llo \u{1f600}"])
    );
    assert_eq!(row_from_record(&record(&[])), row(&[]));
}

#[test]
fn bytes_that_are_no_text_are_a_cell_without_text() {
    let cells: [&[u8]; 7] = [
        b"ok",
        &[0xff],
        &[0xc3],
        &[0xc0, 0xaf],
        &[0xed, 0xa0, 0x80],
        &[0xf4, 0x90, 0x80, 0x80],
        &[b'a', 0x80],
    ];
    assert_eq!(
        row_from_record(&record(&cells)),
        vec![Some("ok".to_string()), None, None, None, None, None, None]
    );
}

#[test]
fn text_agrees_with_std() {
    let samples: [&[u8]; 8] = [
        b"",
        b"plain",
        &[0xc3, 0xa9],
        &[0xe2, 0x82, 0xac],
        &[0xf0, 0x9f, 0x98, 0x80],
        &[0xe2, 0x82],
        &[0x80],
        &[0xf8, 0x88, 0x80, 0x80, 0x80],
    ];
    for sample in samples {
        let expected = std::str::from_utf8(sample).ok().map(|s| s.to_string());
        assert_eq!(row_from_record(&record(&[sample])), vec![expected]);
    }
}

#[test]
fn records_become_rows_in_order() {
    let records = vec![record(&[b"a", b"b"]), record(&[]), record(&[&[0xff], b"c"])];
    assert_eq!(
        rows_from_records(&records),
        vec![row(&["a", "b"]), row(&[]), vec![None, Some("c".to_string())]]
    );
    assert_eq!(rows_from_records(&vec![]), Vec::<Vec<Option<String>>>::new());
}

#[test]
fn degradation_can_be_seen() {
    let clean = ParseDegradation { timestamp: false, event_id: false, record_id: false };
    assert_eq!(
        row_degradation(&row(&["2024-01-01T00:00:00Z", "d", "p", "1", "2", "c", "u", "s", "m"])),
        clean
    );
    assert_eq!(row_degradation(&row(&[])), clean);
    assert_eq!(
        row_degradation(&row(&["yesterday", "d", "p", "1", "two"])),
        ParseDegradation { timestamp: true, event_id: false, record_id: true }
    );
    assert_eq!(
        row_degradation(&row(&["", "d", "p", ""])),
        ParseDegradation { timestamp: true, event_id: true, record_id: false }
    );
}

#[test]
fn rows_become_events_in_order() {
    let rows = vec![row(&["a"]), row(&[]), row(&["b", "c"])];
    let events = events_from_rows(&rows);
    assert_eq!(events.len(), 3);
    assert_eq!(events[0].timestamp, Some("a".to_string()));
    assert_eq!(events[1], ChainsawEvent::empty());
    assert_eq!(events[2].timestamp, Some("b".to_string()));
    assert_eq!(events[2].detections, Some("c".to_string()));
    assert_eq!(events_from_rows(&vec![]), Vec::<ChainsawEvent>::new());
}

#[test]
fn reads_the_rows_of_a_source() {
    let text = format!("{}2024-01-01T00:00:00Z,logon,/bin/sh,4624,17,host,root,S-1,S-2\n", HEADER);
    let rows = rows_of_source(&readable("one.csv", &text)).unwrap();
    assert_eq!(
        rows,
        vec![row(&[
            "2024-01-01T00:00:00Z", "logon", "/bin/sh", "4624", "17", "host", "root", "S-1",
            "S-2",
        ])]
    );
}

#[test]
fn the_first_row_is_the_header() {
    assert_eq!(rows_of_source(&readable("h.csv", HEADER)), Some(vec![]));
    assert_eq!(rows_of_source(&readable("e.csv", "")), Some(vec![]));
    assert_eq!(
        rows_of_source(&readable("x.csv", "a,b\n1,2\n3,4\n")),
        Some(vec![row(&["1", "2"]), row(&["3", "4"])])
    );
}

#[test]
fn quoted_cells_are_read_as_csv() {
    let rows = rows_of_source(&readable("q.csv", "a,b\n\"x,y\",\"say \"\"hi\"\"\"\n")).unwrap();
    assert_eq!(rows, vec![row(&["x,y", "say \"hi\""])]);
}

#[test]
fn a_source_without_bytes_is_unreadable() {
    assert_eq!(rows_of_source(&unreadable("gone.csv")), None);
}

#[test]
fn rows_may_be_shorter_or_longer_than_the_header() {
    assert_eq!(
        rows_of_source(&readable("any.csv", "a,b,c\n1,2,3\n4,5\n6\n7,8,9,10\n")),
        Some(vec![row(&["1", "2", "3"]), row(&["4", "5"]), row(&["6"]), row(&["7", "8", "9", "10"])])
    );
}

#[test]
fn a_short_row_gives_an_event_and_no_failure() {
    let text = format!("{}2024-01-01T00:00:00Z,logon,/bin/sh,4624,17,host,root,S-1,S-2\nlater,logoff\n", HEADER);
    let report = ingest_sources(&vec![readable("short.csv", &text)]);
    assert_eq!(report.errors, vec![]);
    assert_eq!(report.events.len(), 2);
    assert_eq!(report.events[0], full_event());
    let mut second = ChainsawEvent::empty();
    second.timestamp = Some("later".to_string());
    second.detections = Some("logoff".to_string());
    assert_eq!(report.events[1], second);
}

#[test]
fn a_cell_of_bytes_that_are_no_text_does_not_stop_the_source() {
    let mut bytes = b"ts,label,path\nt1,".to_vec();
    bytes.extend_from_slice(&[0xff, 0xfe]);
    bytes.extend_from_slice(b",/p1\nt2,b,/p2\n");
    let source = Source { name: "bin.csv".to_string(), data: Some(bytes) };
    assert_eq!(
        rows_of_source(&source),
        Some(vec![
            vec![Some("t1".to_string()), None, Some("/p1".to_string())],
            row(&["t2", "b", "/p2"]),
        ])
    );
    let report = ingest_sources(&vec![source]);
    assert_eq!(report.errors, vec![]);
    assert_eq!(report.events.len(), 2);
    assert_eq!(report.events[0].timestamp, Some("t1".to_string()));
    assert_eq!(report.events[0].detections, None);
    assert_eq!(report.events[0].path, Some("/p1".to_string()));
    assert_eq!(report.events[1].detections, Some("b".to_string()));
}

#[test]
fn absorbing_rows_appends_events() {
    let mut report = IngestionReport { events: vec![full_event()], errors: vec![] };
    absorb(&mut report, &"two.csv".to_string(), &Some(vec![row(&["t1"]), row(&["t2"])]));
    assert_eq!(report.events.len(), 3);
    assert_eq!(report.events[0], full_event());
    assert_eq!(report.events[1].timestamp, Some("t1".to_string()));
    assert_eq!(report.events[2].timestamp, Some("t2".to_string()));
    assert_eq!(report.errors, vec![]);
}

#[test]
fn absorbing_a_failure_appends_an_error() {
    let mut report =
        IngestionReport { events: vec![full_event()], errors: vec![failed("one.csv")] };
    absorb(&mut report, &"two.csv".to_string(), &None);
    assert_eq!(report.events, vec![full_event()]);
    assert_eq!(report.errors, vec![failed("one.csv"), failed("two.csv")]);
}

#[test]
fn sources_are_taken_in_order() {
    let first = "ts,label\n2024-01-01T00:00:00Z,a\n2024-01-01T00:00:01Z,b\n";
    let second = "ts,label\n2024-01-02T00:00:00Z,c\n";
    let report = ingest_sources(&vec![readable("1.csv", first), readable("2.csv", second)]);
    let labels: Vec<Option<String>> = report.events.iter().map(|ev| ev.detections.clone()).collect();
    assert_eq!(
        labels,
        vec![Some("a".to_string()), Some("b".to_string()), Some("c".to_string())]
    );
    assert_eq!(report.events[2].timestamp, Some("2024-01-02T00:00:00Z".to_string()));
    assert_eq!(report.events[0].path, None);
    assert_eq!(report.errors, vec![]);
}

#[test]
fn a_failed_source_does_not_stop_the_batch() {
    let report = ingest_sources(&vec![
        readable("1.csv", "ts,label\nt1,a\n"),
        unreadable("2.csv"),
        readable("3.csv", "ts,label\nt3,c\nshort\n"),
        unreadable("4.csv"),
        readable("5.csv", "ts,label\nt5,d\n"),
    ]);
    let stamps: Vec<Option<String>> = report.events.iter().map(|ev| ev.timestamp.clone()).collect();
    assert_eq!(
        stamps,
        vec![
            Some("t1".to_string()),
            Some("t3".to_string()),
            Some("short".to_string()),
            Some("t5".to_string()),
        ]
    );
    assert_eq!(report.errors, vec![failed("2.csv"), failed("4.csv")]);
}

#[test]
fn no_sources_give_an_empty_report() {
    let report = ingest_sources(&vec![]);
    assert_eq!(report.events, vec![]);
    assert_eq!(report.errors, vec![]);
}

#[test]
fn duplicates_are_kept() {
    let text = "ts,label\nt,a\nt,a\n";
    let report = ingest_sources(&vec![readable("1.csv", text), readable("1.csv", text)]);
    assert_eq!(report.events.len(), 4);
    assert_eq!(report.events[0], report.events[3]);
}
