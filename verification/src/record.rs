//! The query log: how many queries were served, and the last few of them.
use std::collections::VecDeque;
use vstd::prelude::*;

use crate::text::{
    decimal, decimal_string, lemma_decimal_free_of_escape, lemma_escape_free_opens_none,
    lemma_decimal_reads_back, lemma_seconds_text_free_of_escape, lemma_seconds_text_reads_back,
    opens_no_control_sequence, push_decimal, seconds_string, seconds_text, digits_value, all_digits,
    text_millis,
};

verus! {

broadcast use {vstd::std_specs::vecdeque::group_vec_dequeue_axioms, vstd::string::group_string_axioms};

/// How many of the most recent queries the log keeps.
pub const RECENT_QUERIES: usize = 10;

/// How long a request took, taken apart as chrono's `TimeDelta` gives it: the whole seconds
/// (`num_seconds`, rounded toward zero) and the nanoseconds beyond them (`subsec_nanos`, which
/// carries the sign of the duration).
#[derive(Debug, Clone, Copy, PartialEq, Eq, Structural)]
pub struct Elapsed {
    pub secs: i64,
    pub nanos: i32,
}

/// `a / b` rounded toward zero, as integer division in Rust rounds.
pub open spec fn div_toward_zero(a: int, b: int) -> int {
    if a >= 0 {
        a / b
    } else {
        -((-a) / b)
    }
}

/// The whole milliseconds of a duration: `secs * 1000` plus the whole milliseconds of the
/// nanoseconds, as `TimeDelta::num_milliseconds` counts them.
pub open spec fn elapsed_millis(secs: int, nanos: int) -> int {
    secs * 1000 + div_toward_zero(nanos, 1_000_000)
}

/// A duration's whole milliseconds are its nanoseconds divided by a million and rounded toward
/// zero: for `secs` whole seconds and `nanos` further nanoseconds of the same sign (as
/// `num_seconds` and `subsec_nanos` give them), the milliseconds times a million lie within a
/// millisecond of the total nanoseconds, on the side of zero.
pub proof fn lemma_elapsed_millis_truncates(secs: int, nanos: int)
    requires
        -1_000_000_000 < nanos < 1_000_000_000,
        secs > 0 ==> nanos >= 0,
        secs < 0 ==> nanos <= 0,
    ensures
        ({
            let total = secs * 1_000_000_000 + nanos;
            let ms = elapsed_millis(secs, nanos);
            &&& total >= 0 ==> ms * 1_000_000 <= total < (ms + 1) * 1_000_000
            &&& total < 0 ==> (ms - 1) * 1_000_000 < total <= ms * 1_000_000
        }),
{
    if nanos >= 0 {
        let q = nanos / 1_000_000;
        assert(q * 1_000_000 <= nanos < (q + 1) * 1_000_000);
    } else {
        let q = (-nanos) / 1_000_000;
        assert(q * 1_000_000 <= -nanos < (q + 1) * 1_000_000);
    }
}

impl Elapsed {
    /// The whole milliseconds of this duration.
    pub fn num_milliseconds(&self) -> (ms: i128)
        ensures
            ms == elapsed_millis(self.secs as int, self.nanos as int),
    {
        let millis_of_nanos: i128 = if self.nanos >= 0 {
            (self.nanos / 1_000_000) as i128
        } else {
            -(((-(self.nanos as i64)) / 1_000_000) as i128)
        };
        (self.secs as i128) * 1000 + millis_of_nanos
    }
}

/// One served query: the recognised text and how long the request took.
#[derive(Debug, Clone)]
pub struct QueryRecord {
    pub text: String,
    pub duration: Elapsed,
}

/// The mathematical value of a [`QueryRecord`].
pub struct RecordView {
    pub text: Seq<char>,
    pub secs: int,
    pub nanos: int,
}

impl View for QueryRecord {
    type V = RecordView;

    open spec fn view(&self) -> RecordView {
        RecordView {
            text: self.text@,
            secs: self.duration.secs as int,
            nanos: self.duration.nanos as int,
        }
    }
}

/// The mathematical value of a [`QueryTracker`].
pub struct TrackerView {
    pub total: nat,
    pub start_time: Seq<char>,
    pub records: Seq<RecordView>,
}

/// Counts the queries served since the start and keeps the last [`RECENT_QUERIES`] of them,
/// oldest first.
pub struct QueryTracker {
    pub total_cnts: usize,
    pub start_time: String,
    pub records: VecDeque<QueryRecord>,
}

pub open spec fn record_views(records: Seq<QueryRecord>) -> Seq<RecordView> {
    records.map_values(|r: QueryRecord| r@)
}

impl View for QueryTracker {
    type V = TrackerView;

    open spec fn view(&self) -> TrackerView {
        TrackerView {
            total: self.total_cnts as nat,
            start_time: self.start_time@,
            records: record_views(self.records@),
        }
    }
}

/// A fresh log: nothing counted, nothing kept.
pub open spec fn initial_tracker(start_time: Seq<char>) -> TrackerView {
    TrackerView { total: 0, start_time, records: Seq::empty() }
}

/// The log after one more query: the count goes up by one, the query is appended, and when
/// [`RECENT_QUERIES`] or more were kept the oldest one is dropped.
pub open spec fn record_step(t: TrackerView, q: RecordView) -> TrackerView {
    TrackerView {
        total: t.total + 1,
        start_time: t.start_time,
        records: if t.records.len() >= RECENT_QUERIES {
            t.records.drop_first().push(q)
        } else {
            t.records.push(q)
        },
    }
}

/// The log after the queries `qs`, in order, starting from `t`.
pub open spec fn replay(t: TrackerView, qs: Seq<RecordView>) -> TrackerView
    decreases qs.len(),
{
    if qs.len() == 0 {
        t
    } else {
        record_step(replay(t, qs.drop_last()), qs.last())
    }
}

/// The last `min(qs.len(), RECENT_QUERIES)` elements of `qs`.
pub open spec fn most_recent<A>(qs: Seq<A>) -> Seq<A> {
    if qs.len() <= RECENT_QUERIES {
        qs
    } else {
        qs.subrange(qs.len() - RECENT_QUERIES, qs.len() as int)
    }
}

/// A log that keeps no more than [`RECENT_QUERIES`] queries.
pub open spec fn tracker_wf(t: TrackerView) -> bool {
    t.records.len() <= RECENT_QUERIES
}

/// Every recorded query keeps the log within its bound, and what it keeps is the most recent
/// queries of what it kept before followed by the new one.
pub proof fn lemma_record_step_keeps_recent(t: TrackerView, q: RecordView)
    requires
        tracker_wf(t),
    ensures
        tracker_wf(record_step(t, q)),
        record_step(t, q).records == most_recent(t.records.push(q)),
        record_step(t, q).total == t.total + 1,
        record_step(t, q).start_time == t.start_time,
{
    let s = t.records.push(q);
    if t.records.len() >= RECENT_QUERIES {
        assert(t.records.drop_first().push(q) =~= s.subrange(s.len() - RECENT_QUERIES, s.len() as int));
    }
}

/// From a fresh log, after any sequence of queries, the count is the number of queries, the
/// start time is the one it was created with, and the log holds exactly the last
/// [`RECENT_QUERIES`] queries (all of them when there were fewer), oldest first.
pub proof fn lemma_log_keeps_last_queries(start_time: Seq<char>, qs: Seq<RecordView>)
    ensures
        replay(initial_tracker(start_time), qs) == (TrackerView {
            total: qs.len(),
            start_time,
            records: most_recent(qs),
        }),
    decreases qs.len(),
{
    if qs.len() > 0 {
        let prev = qs.drop_last();
        let x = qs.last();
        lemma_log_keeps_last_queries(start_time, prev);
        let t = replay(initial_tracker(start_time), prev);
        assert(tracker_wf(t));
        lemma_record_step_keeps_recent(t, x);
        assert(prev.push(x) =~= qs);
        let after = record_step(t, x);
        assert(after.records == most_recent(most_recent(prev).push(x)));
        if prev.len() >= RECENT_QUERIES {
            let m = most_recent(prev).push(x);
            assert(m.len() == RECENT_QUERIES + 1);
            assert(most_recent(m) =~= most_recent(qs));
        } else {
            assert(most_recent(prev).push(x) =~= qs);
        }
        assert(after.records =~= most_recent(qs));
        assert(replay(initial_tracker(start_time), qs) == after);
    } else {
        assert(qs =~= Seq::<RecordView>::empty());
    }
}

/// The rows of the report table: a header, then one row per kept query with its position,
/// its duration in seconds and its text.
pub open spec fn report_rows(records: Seq<RecordView>) -> Seq<Seq<Seq<char>>> {
    seq![seq!["Index"@, "Duration (s)"@, "Text"@]] + Seq::new(
        records.len(),
        |i: int|
            seq![
                decimal(i as nat),
                seconds_text(elapsed_millis(records[i].secs, records[i].nanos)),
                records[i].text,
            ],
    )
}

/// The report shows each kept query on the row after the header at its position: the row has
/// three cells; read back, the first gives the position and the second the query's whole
/// milliseconds (its duration in seconds, exactly); the third is the query's text.
pub proof fn lemma_report_rows_show_records(records: Seq<RecordView>)
    ensures
        report_rows(records).len() == records.len() + 1,
        report_rows(records)[0] == seq!["Index"@, "Duration (s)"@, "Text"@],
        forall|i: int|
            0 <= i < records.len() ==> {
                let row = #[trigger] report_rows(records)[i + 1];
                &&& row.len() == 3
                &&& digits_value(row[0]) == i
                &&& text_millis(row[1]) == elapsed_millis(records[i].secs, records[i].nanos)
                &&& row[2] == records[i].text
            },
{
    assert forall|i: int| 0 <= i < records.len() implies {
        let row = #[trigger] report_rows(records)[i + 1];
        &&& row.len() == 3
        &&& digits_value(row[0]) == i
        &&& text_millis(row[1]) == elapsed_millis(records[i].secs, records[i].nanos)
        &&& row[2] == records[i].text
    } by {
        lemma_decimal_reads_back(i as nat);
        lemma_seconds_text_reads_back(elapsed_millis(records[i].secs, records[i].nanos));
    }
}

/// The text that the outside table printer gives for `rows`: one line per row, with the cells
/// in columns, in the format that has no separator line between rows.
pub uninterp spec fn table_text(rows: Seq<Seq<Seq<char>>>) -> Seq<char>;

/// The status report: start time, count of queries, and the table of the kept queries.
pub open spec fn report_text(t: TrackerView) -> Seq<char> {
    "Start at: "@ + t.start_time + "\nTotal Query Times:"@ + decimal(t.total)
        + "\n\nLast 10 Queries:\n"@ + table_text(report_rows(t.records))
}

/// The report is, in this order: `Start at: ` and the start time; a line with `Total Query
/// Times:` and digits that read back as the number of queries served; a blank line; the heading
/// `Last 10 Queries:`; and the table of the report's rows.
pub proof fn lemma_report_layout(t: TrackerView)
    ensures
        exists|count: Seq<char>|
            {
                &&& all_digits(count)
                &&& count.len() >= 1
                &&& digits_value(count) == t.total
                &&& #[trigger] report_text(t) == "Start at: "@ + t.start_time + "\nTotal Query Times:"@
                    + count + "\n\nLast 10 Queries:\n"@ + table_text(report_rows(t.records))
            },
{
    lemma_decimal_reads_back(t.total);
    let count = decimal(t.total);
    assert(report_text(t) == "Start at: "@ + t.start_time + "\nTotal Query Times:"@ + count
        + "\n\nLast 10 Queries:\n"@ + table_text(report_rows(t.records)));
}

/// Renders `rows` with prettytable's `Table`, in the format `FORMAT_NO_LINESEP_WITH_TITLE`,
/// one `Row` per element and one `Cell::new` per string, and returns what its `Display` writes.
/// The contract claims only that the result is the printer's text for these rows, a function of
/// the rows alone: prettytable writes the table into an in-memory string.
/// `Cell::new` measures each cell and asserts that its printable width is not less than the
/// characters it counts inside ANSI control sequences, which some text that opens such a
/// sequence breaks. Where no cell holds an escape character directly followed by `'['`, it counts
/// none and the assertion holds.
#[verifier::external_body]
fn render_table(rows: &Vec<Vec<String>>) -> (text: String)
    requires
        forall|i: int, j: int|
            0 <= i < rows.deep_view().len() && 0 <= j < rows.deep_view()[i].len()
                ==> opens_no_control_sequence(
                #[trigger] rows.deep_view()[i][j],
            ),
    ensures
        text@ == table_text(rows.deep_view()),
{
    let rows = rows.iter().map(|row| prettytable::Row::new(row.iter().map(|cell| prettytable::Cell::new(cell)).collect())).collect();
    let mut table = prettytable::Table::init(rows);
    table.set_format(*prettytable::format::consts::FORMAT_NO_LINESEP_WITH_TITLE);
    table.to_string()
}

fn copy_record(r: &QueryRecord) -> (c: QueryRecord)
    ensures
        c@ == r@,
{
    QueryRecord { text: r.text.clone(), duration: r.duration }
}

impl QueryTracker {
    /// A log that starts at `start_time` with nothing counted.
    pub fn new(start_time: String) -> (t: QueryTracker)
        ensures
            t@ == initial_tracker(start_time@),
            tracker_wf(t@),
    {
        let t = QueryTracker { total_cnts: 0, start_time, records: VecDeque::new() };
        assert(t@.records =~= Seq::<RecordView>::empty());
        t
    }

    /// Counts one more query and keeps it, dropping the oldest kept one when
    /// [`RECENT_QUERIES`] are already kept.
    pub fn record_query(&mut self, text: String, duration: Elapsed)
        requires
            old(self).total_cnts < usize::MAX,
        ensures
            final(self)@ == record_step(old(self)@, QueryRecord { text, duration }@),
            tracker_wf(old(self)@) ==> tracker_wf(final(self)@),
    {
        let record = QueryRecord { text, duration };
        let ghost q = record@;
        if self.records.len() >= RECENT_QUERIES {
            self.records.pop_front();
        }
        self.records.push_back(record);
        self.total_cnts = self.total_cnts + 1;
        assert(self@.records =~= record_step(old(self)@, q).records);
        proof {
            if tracker_wf(old(self)@) {
                lemma_record_step_keeps_recent(old(self)@, q);
            }
        }
    }

    /// The number of queries counted since the start.
    pub fn get_total_cnts(&self) -> (n: usize)
        ensures
            n == self.total_cnts,
            n == self@.total,
    {
        self.total_cnts
    }

    /// The kept queries, oldest first.
    pub fn get_records(&self) -> (v: Vec<QueryRecord>)
        ensures
            record_views(v@) == self@.records,
    {
        let n = self.records.len();
        let mut v: Vec<QueryRecord> = Vec::new();
        let mut i: usize = 0;
        while i < n
            invariant
                n == self.records@.len(),
                i <= n,
                v@.len() == i,
                forall|j: int| 0 <= j < i ==> #[trigger] v@[j]@ == self.records@[j]@,
            decreases n - i,
        {
            let r = copy_record(&self.records[i]);
            v.push(r);
            i = i + 1;
        }
        assert(record_views(v@) =~= self@.records);
        v
    }

    /// The status report: `Start at: <start>`, `Total Query Times:<count>`, then the table of the
    /// kept queries with their position, their duration in seconds and their text.
    ///
    /// The table printer cannot take every text that opens an ANSI control sequence (see
    /// `render_table`); no kept text may hold an escape character directly followed by `'['`.
    pub fn to_table_string(&self) -> (s: String)
        requires
            forall|i: int|
                0 <= i < self@.records.len() ==> opens_no_control_sequence(
                    #[trigger] self@.records[i].text,
                ),
        ensures
            s@ == report_text(self@),
    {
        let ghost recs = self@.records;
        let mut rows: Vec<Vec<String>> = Vec::new();
        let mut header: Vec<String> = Vec::new();
        header.push("Index".to_string());
        header.push("Duration (s)".to_string());
        header.push("Text".to_string());
        assert(header.deep_view() =~= report_rows(recs)[0]);
        rows.push(header);
        assert(rows.deep_view() =~= report_rows(recs).take(1));
        let n = self.records.len();
        let mut i: usize = 0;
        while i < n
            invariant
                n == self.records@.len(),
                recs == self@.records,
                i <= n,
                rows@.len() == i + 1,
                rows.deep_view() =~= report_rows(recs).take(i + 1),
            decreases n - i,
        {
            let r = &self.records[i];
            let mut row: Vec<String> = Vec::new();
            row.push(decimal_string(i as u128));
            row.push(seconds_string(r.duration.num_milliseconds()));
            row.push(r.text.clone());
            assert(row.deep_view() =~= report_rows(recs)[i + 1]);
            let ghost before = rows.deep_view();
            rows.push(row);
            assert(rows.deep_view() =~= before.push(report_rows(recs)[i + 1]));
            i = i + 1;
            assert(rows.deep_view() =~= report_rows(recs).take(i + 1));
        }
        assert(report_rows(recs).take(n + 1) =~= report_rows(recs));
        proof {
            reveal_strlit("Index");
            reveal_strlit("Duration (s)");
            reveal_strlit("Text");
            let r = report_rows(recs);
            assert forall|i: int, j: int|
                0 <= i < r.len() && 0 <= j < r[i].len() implies opens_no_control_sequence(
                #[trigger] r[i][j],
            ) by {
                if i > 0 {
                    lemma_decimal_free_of_escape((i - 1) as nat);
                    lemma_escape_free_opens_none(decimal((i - 1) as nat));
                    let ms = elapsed_millis(recs[i - 1].secs, recs[i - 1].nanos);
                    lemma_seconds_text_free_of_escape(ms);
                    lemma_escape_free_opens_none(seconds_text(ms));
                    assert(opens_no_control_sequence(recs[i - 1].text));
                } else {
                    assert(opens_no_control_sequence(r[i][j]));
                }
            }
        }
        let table = render_table(&rows);
        proof {
            reveal_strlit("Start at: ");
            reveal_strlit("\nTotal Query Times:");
            reveal_strlit("\n\nLast 10 Queries:\n");
        }
        let mut s = String::new();
        s.append("Start at: ");
        s.append(self.start_time.as_str());
        s.append("\nTotal Query Times:");
        push_decimal(&mut s, self.total_cnts as u128);
        s.append("\n\nLast 10 Queries:\n");
        s.append(table.as_str());
        assert(s@ =~= report_text(self@));
        s
    }
}

impl Default for QueryTracker {
    /// A log with an empty start time and nothing counted.
    fn default() -> (t: QueryTracker)
        ensures
            t@ == initial_tracker(Seq::empty()),
    {
        QueryTracker::new(String::new())
    }
}

} // verus!
