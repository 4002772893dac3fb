//! Ingestion: from the bytes of CSV sources to events.
//!
//! A source is a named run of bytes, or a name alone where the bytes could
//! not be had.  The rows of a source become events, cell by cell.  A row
//! may have any number of cells, and a cell that is no text, or no number
//! where one is looked for, leaves its field unset: neither stops the row
//! or the source.  Only a source that could not be read gives no event and
//! is reported; the sources after it are still taken in.

use vstd::prelude::*;
use vstd::utf8::{decode_utf8, valid_utf8};
use crate::event::{copy_text, text_of, views, ChainsawEvent, EventView};
use crate::text::{decimal_u32, parse_u32};
use crate::timestamp::instant_of_field;

verus! {

/// `csv::Error`, declared without its fields: the error is passed on and
/// never looked into.
#[verifier::external_type_specification]
#[verifier::external_body]
pub struct ExCsvError(csv::Error);

/// The records that a flexible `csv::Reader` yields from a run of bytes,
/// each record as the list of its fields and each field as its bytes;
/// `None` where a record comes out as an error.  The reader takes the first
/// record as the header row and does not yield it.  Being flexible, it
/// yields records of any length, and reading byte records it does not ask
/// the fields to be text: the one error it knows then is a failure to read
/// from what is below it.
pub uninterp spec fn csv_records(bytes: Seq<u8>) -> Option<Seq<Seq<Seq<u8>>>>;

/// Builds a reader with `csv::ReaderBuilder::new().flexible(true)` and
/// `from_reader` on the bytes, and walks `Reader::byte_records` to the end
/// or to the first error.  Every field of every record is copied.  The
/// contract claims only that the outcome is the one named `csv_records` for
/// these bytes: reading from memory depends on nothing but the bytes.
#[verifier::external_body]
fn read_records(bytes: &[u8]) -> (out: Result<Vec<Vec<Vec<u8>>>, csv::Error>)
    ensures
        match out {
            Ok(rows) => csv_records(bytes@) == Some(rows.deep_view()),
            Err(_) => csv_records(bytes@) is None,
        },
{
    let mut reader = csv::ReaderBuilder::new().flexible(true).from_reader(bytes);
    let mut rows: Vec<Vec<Vec<u8>>> = Vec::new();
    for record in reader.byte_records() {
        rows.push(record?.iter().map(|field| field.to_vec()).collect());
    }
    Ok(rows)
}

/// The text that a run of bytes encodes in UTF-8, if it encodes one.
pub open spec fn text_in(bytes: Seq<u8>) -> Option<Seq<char>> {
    if valid_utf8(bytes) {
        Some(decode_utf8(bytes))
    } else {
        None
    }
}

/// `core::str::from_utf8`, with the text copied into a `String`: the text
/// that the bytes encode in UTF-8, and nothing where they encode none.
#[verifier::external_body]
fn read_text(bytes: &[u8]) -> (out: Option<String>)
    ensures
        text_of(out) == text_in(bytes@),
{
    match std::str::from_utf8(bytes) {
        Ok(text) => Some(text.to_string()),
        Err(_) => None,
    }
}

/// The cells of a record as texts: a field that is no text is a cell
/// without one.
pub open spec fn texts_in(record: Seq<Seq<u8>>) -> Seq<Option<Seq<char>>> {
    Seq::new(record.len(), |i: int| text_in(record[i]))
}

/// The rows that a list of records stands for.
pub open spec fn rows_in(records: Seq<Seq<Seq<u8>>>) -> Seq<Seq<Option<Seq<char>>>> {
    Seq::new(records.len(), |i: int| texts_in(records[i]))
}

/// The cells of a record as texts.
pub fn row_from_record(record: &Vec<Vec<u8>>) -> (row: Vec<Option<String>>)
    ensures
        row.deep_view() == texts_in(record.deep_view()),
{
    let mut row: Vec<Option<String>> = Vec::new();
    let mut i: usize = 0;
    while i < record.len()
        invariant
            i <= record.len(),
            row.len() == i,
            forall|k: int|
                0 <= k < i ==> text_of(#[trigger] row@[k]) == text_in(record.deep_view()[k]),
        decreases record.len() - i,
    {
        assert(record.deep_view()[i as int] == record@[i as int]@);
        row.push(read_text(record[i].as_slice()));
        i += 1;
    }
    assert(row.deep_view() =~= texts_in(record.deep_view())) by {
        assert forall|k: int| 0 <= k < row.len() implies row.deep_view()[k] == text_of(row@[k]) by {
            assert(row.deep_view()[k] == row@[k].deep_view());
        }
    }
    row
}

/// The rows that a list of records stands for.
pub fn rows_from_records(records: &Vec<Vec<Vec<u8>>>) -> (rows: Vec<Vec<Option<String>>>)
    ensures
        rows.deep_view() == rows_in(records.deep_view()),
{
    let mut rows: Vec<Vec<Option<String>>> = Vec::new();
    let mut i: usize = 0;
    while i < records.len()
        invariant
            i <= records.len(),
            rows.len() == i,
            forall|k: int|
                0 <= k < i ==> (#[trigger] rows@[k]).deep_view() == texts_in(
                    records.deep_view()[k],
                ),
        decreases records.len() - i,
    {
        assert(records.deep_view()[i as int] == records@[i as int].deep_view());
        rows.push(row_from_record(&records[i]));
        i += 1;
    }
    assert(rows.deep_view() =~= rows_in(records.deep_view()));
    rows
}

/// The text in the cell at position `i` of a row: nothing where the row is
/// shorter, or the cell holds no text.
pub open spec fn cell(row: Seq<Option<Seq<char>>>, i: int) -> Option<Seq<char>> {
    if 0 <= i < row.len() {
        row[i]
    } else {
        None
    }
}

/// The number in the cell at position `i`: nothing where the row is
/// shorter, or the cell writes no number.
pub open spec fn number_cell(row: Seq<Option<Seq<char>>>, i: int) -> Option<u32> {
    match cell(row, i) {
        Some(s) => decimal_u32(s),
        None => None,
    }
}

/// The event that a row stands for.  The cells are, in order: timestamp,
/// detection label, path, event id, record id, computer, user, user SID,
/// member SID.  A cell that the row does not have leaves its field unset,
/// and so does a cell that holds no text or, for a number, writes none.
/// Cells after the ninth are not looked at.
pub open spec fn event_of_row(row: Seq<Option<Seq<char>>>) -> EventView {
    EventView {
        timestamp: cell(row, 0),
        detections: cell(row, 1),
        path: cell(row, 2),
        event_id: number_cell(row, 3),
        record_id: number_cell(row, 4),
        computer: cell(row, 5),
        user: cell(row, 6),
        user_sid: cell(row, 7),
        member_sid: cell(row, 8),
    }
}

/// The events that a list of rows stands for.
pub open spec fn events_of_rows(rows: Seq<Seq<Option<Seq<char>>>>) -> Seq<EventView> {
    Seq::new(rows.len(), |i: int| event_of_row(rows[i]))
}

fn text_cell(fields: &Vec<Option<String>>, i: usize) -> (out: Option<String>)
    ensures
        text_of(out) == cell(fields.deep_view(), i as int),
{
    if i < fields.len() {
        assert(fields.deep_view()[i as int] == fields@[i as int].deep_view());
        copy_text(&fields[i])
    } else {
        None
    }
}

fn numeric_cell(fields: &Vec<Option<String>>, i: usize) -> (out: Option<u32>)
    ensures
        out == number_cell(fields.deep_view(), i as int),
{
    if i < fields.len() {
        assert(fields.deep_view()[i as int] == fields@[i as int].deep_view());
        match &fields[i] {
            Some(text) => parse_u32(text.as_str()),
            None => None,
        }
    } else {
        None
    }
}

/// The event that a row of cells stands for.
pub fn event_from_fields(fields: &Vec<Option<String>>) -> (ev: ChainsawEvent)
    ensures
        ev@ == event_of_row(fields.deep_view()),
{
    ChainsawEvent {
        timestamp: text_cell(fields, 0),
        detections: text_cell(fields, 1),
        path: text_cell(fields, 2),
        event_id: numeric_cell(fields, 3),
        record_id: numeric_cell(fields, 4),
        computer: text_cell(fields, 5),
        user: text_cell(fields, 6),
        user_sid: text_cell(fields, 7),
        member_sid: text_cell(fields, 8),
    }
}

/// Which cells of a row were there but could not be read, so that the event
/// has nothing in their place or, for the timestamp, no instant.
#[derive(Debug, Clone, Copy, PartialEq, Eq, Structural)]
pub struct ParseDegradation {
    pub timestamp: bool,
    pub event_id: bool,
    pub record_id: bool,
}

/// The degradation of a row: for the timestamp, the event id and the record
/// id, whether the row has the cell and yet no instant or number comes of
/// it.
pub open spec fn degradation_of(row: Seq<Option<Seq<char>>>) -> ParseDegradation {
    ParseDegradation {
        timestamp: 0 < row.len() && instant_of_field(cell(row, 0)) is None,
        event_id: 3 < row.len() && number_cell(row, 3) is None,
        record_id: 4 < row.len() && number_cell(row, 4) is None,
    }
}

/// Which cells of a row are there but cannot be read.
pub fn row_degradation(fields: &Vec<Option<String>>) -> (out: ParseDegradation)
    ensures
        out == degradation_of(fields.deep_view()),
{
    let timestamp: bool = if 0 < fields.len() {
        assert(fields.deep_view()[0] == fields@[0].deep_view());
        match &fields[0] {
            Some(text) => crate::timestamp::parse_timestamp(text.as_str()).is_err(),
            None => true,
        }
    } else {
        false
    };
    ParseDegradation {
        timestamp,
        event_id: 3 < fields.len() && numeric_cell(fields, 3).is_none(),
        record_id: 4 < fields.len() && numeric_cell(fields, 4).is_none(),
    }
}

/// The events that a list of rows stands for, in the order of the rows.
pub fn events_from_rows(rows: &Vec<Vec<Option<String>>>) -> (out: Vec<ChainsawEvent>)
    ensures
        views(out@) == events_of_rows(rows.deep_view()),
{
    let mut out: Vec<ChainsawEvent> = Vec::new();
    let mut i: usize = 0;
    while i < rows.len()
        invariant
            i <= rows.len(),
            out.len() == i,
            forall|k: int| 0 <= k < i ==> (#[trigger] out@[k])@ == event_of_row(rows.deep_view()[k]),
        decreases rows.len() - i,
    {
        assert(rows.deep_view()[i as int] == rows@[i as int].deep_view());
        out.push(event_from_fields(&rows[i]));
        i += 1;
    }
    assert(views(out@) =~= events_of_rows(rows.deep_view()));
    out
}

/// A source of events: its name and, where it could be read, its bytes.
pub struct Source {
    pub name: String,
    pub data: Option<Vec<u8>>,
}

/// A source as the contracts see it.
pub struct SourceView {
    pub name: Seq<char>,
    pub data: Option<Seq<u8>>,
}

impl View for Source {
    type V = SourceView;

    open spec fn view(&self) -> SourceView {
        SourceView {
            name: self.name@,
            data: match self.data {
                Some(bytes) => Some(bytes@),
                None => None,
            },
        }
    }
}

/// A source that could not be opened or read, and so gave no events.
#[derive(Debug, Clone, PartialEq, Eq)]
pub struct IngestionError {
    pub source: String,
}

/// What an ingestion gives: the events of the sources that could be taken
/// in, and the sources that could not.
pub struct IngestionReport {
    pub events: Vec<ChainsawEvent>,
    pub errors: Vec<IngestionError>,
}

/// A report as the contracts see it: the events, and the names of the
/// sources that could not be read.
pub struct ReportView {
    pub events: Seq<EventView>,
    pub errors: Seq<Seq<char>>,
}

impl View for IngestionReport {
    type V = ReportView;

    open spec fn view(&self) -> ReportView {
        ReportView {
            events: views(self.events@),
            errors: Seq::new(self.errors@.len(), |i: int| self.errors@[i].source@),
        }
    }
}

/// The rows of a source; nothing for a source that could not be read:
/// one without bytes, or one on whose bytes the reader reports an error.
pub open spec fn source_rows(data: Option<Seq<u8>>) -> Option<Seq<Seq<Option<Seq<char>>>>> {
    match data {
        None => None,
        Some(bytes) => match csv_records(bytes) {
            Some(records) => Some(rows_in(records)),
            None => None,
        },
    }
}

/// A report with one more source taken in: its events behind those that
/// are there, or its name behind the errors that are there.
pub open spec fn absorbed(
    report: ReportView,
    name: Seq<char>,
    outcome: Option<Seq<Seq<Option<Seq<char>>>>>,
) -> ReportView {
    match outcome {
        Some(rows) => ReportView {
            events: report.events + events_of_rows(rows),
            errors: report.errors,
        },
        None => ReportView { events: report.events, errors: report.errors.push(name) },
    }
}

/// The report of a list of sources: they are taken in one by one, in their
/// order.
pub open spec fn ingested(sources: Seq<SourceView>) -> ReportView
    decreases sources.len(),
{
    if sources.len() == 0 {
        ReportView { events: Seq::empty(), errors: Seq::empty() }
    } else {
        absorbed(
            ingested(sources.drop_last()),
            sources.last().name,
            source_rows(sources.last().data),
        )
    }
}

/// The views of a list of sources.
pub open spec fn source_views(sources: Seq<Source>) -> Seq<SourceView> {
    Seq::new(sources.len(), |i: int| sources[i]@)
}

/// The rows of a source; nothing for a source that could not be read.
pub fn rows_of_source(source: &Source) -> (out: Option<Vec<Vec<Option<String>>>>)
    ensures
        outcome_view(out) == source_rows(source@.data),
{
    match &source.data {
        None => None,
        Some(bytes) => match read_records(bytes.as_slice()) {
            Ok(records) => Some(rows_from_records(&records)),
            Err(_) => None,
        },
    }
}

/// The outcome of reading a source as the contracts see it.
pub open spec fn outcome_view(outcome: Option<Vec<Vec<Option<String>>>>) -> Option<
    Seq<Seq<Option<Seq<char>>>>,
> {
    match outcome {
        Some(rows) => Some(rows.deep_view()),
        None => None,
    }
}

/// Takes one source into a report: its rows become events behind those
/// that the report holds, or, where it has none to give, its name is put
/// behind the errors that the report holds.
pub fn absorb(
    report: &mut IngestionReport,
    name: &String,
    outcome: &Option<Vec<Vec<Option<String>>>>,
)
    ensures
        final(report)@ == absorbed(old(report)@, name@, outcome_view(*outcome)),
{
    let ghost before = report@;
    match outcome {
        Some(rows) => {
            let mut fresh = events_from_rows(rows);
            let ghost added = views(fresh@);
            let ghost held = report.events@;
            report.events.append(&mut fresh);
            assert(views(report.events@) =~= views(held) + added);
            assert(report@.errors =~= before.errors);
        },
        None => {
            report.errors.push(IngestionError { source: name.clone() });
            assert(report@.errors =~= before.errors.push(name@));
            assert(report@.events =~= before.events);
        },
    }
}

/// Takes in a list of sources, one by one and in their order.  The events
/// of the sources that can be read stand in the order of the sources, and
/// within a source in the order of its rows.  A source that cannot be read
/// gives no event and is listed among the errors; the others are taken in
/// all the same.
pub fn ingest_sources(sources: &Vec<Source>) -> (report: IngestionReport)
    ensures
        report@ == ingested(source_views(sources@)),
{
    let mut report = IngestionReport { events: Vec::new(), errors: Vec::new() };
    let mut i: usize = 0;
    proof {
        assert(source_views(sources@).take(0) =~= Seq::<SourceView>::empty());
        assert(report@.events =~= Seq::<EventView>::empty());
        assert(report@.errors =~= Seq::<Seq<char>>::empty());
    }
    while i < sources.len()
        invariant
            i <= sources.len(),
            report@ == ingested(source_views(sources@).take(i as int)),
        decreases sources.len() - i,
    {
        let outcome = rows_of_source(&sources[i]);
        absorb(&mut report, &sources[i].name, &outcome);
        proof {
            let longer = source_views(sources@).take(i + 1);
            assert(longer.drop_last() =~= source_views(sources@).take(i as int));
            assert(longer.last() == sources@[i as int]@);
        }
        i += 1;
    }
    assert(source_views(sources@).take(sources.len() as int) =~= source_views(sources@));
    report
}

} // verus!
