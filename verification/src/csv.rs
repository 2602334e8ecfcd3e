//! CSV interchange for result sets: one header line, then one row per
//! result, each derived column rendered in exact decimal so that
//! re-parsing an exported document recovers the original tuples.

use vstd::prelude::*;
use crate::stats::BenchmarkResult;
use crate::text::{
    all_digits, dec_value, digit_char, is_digit, parse_u64, push_char, push_decimal, spec_digits,
    split_char, split_on,
};
use vstd::string::StrSliceExecFns;
use vstd::string::StringExecFns;

verus! {

/// A string that cannot disturb the CSV structure: free of separators
/// and line breaks.
pub open spec fn csv_safe(s: Seq<char>) -> bool {
    !s.contains(',') && !s.contains('\n')
}

/// Relies on chrono's `Utc::now` and its `%Y-%m-%d %H:%M:%S`
/// formatting: whatever moment the clock reports, the rendered label
/// is built of digits, `-`, space and `:` alone, so it never holds a
/// comma or a line break.
#[verifier::external_body]
pub fn now_timestamp_label() -> (r: String)
    ensures
        csv_safe(r@),
{
    chrono::Utc::now().format("%Y-%m-%d %H:%M:%S").to_string()
}

/// The fractional digits of `frac` rendered to the full width of the
/// power-of-ten scale `pow`, leading zeros kept.
pub open spec fn pad_digits(frac: nat, pow: nat) -> Seq<char>
    decreases pow,
{
    if pow <= 1 {
        Seq::empty()
    } else {
        pad_digits(frac / 10, pow / 10).push(digit_char((frac % 10) as int))
    }
}

/// The fractional digits with trailing zeros removed.
pub open spec fn trimmed_frac(frac: nat, pow: nat) -> Seq<char>
    decreases pow,
{
    if pow <= 1 {
        Seq::empty()
    } else if frac % 10 == 0 {
        trimmed_frac(frac / 10, pow / 10)
    } else {
        pad_digits(frac, pow)
    }
}

/// `n / pow` rendered as an exact decimal: the integer part, and the
/// fractional part only when it is not zero, with no trailing zeros.
pub open spec fn spec_scaled(n: nat, pow: nat) -> Seq<char> {
    if n % pow == 0 {
        spec_digits(n / pow)
    } else {
        spec_digits(n / pow) + seq!['.'] + trimmed_frac(n % pow, pow)
    }
}

fn push_padded(frac: u64, pow: u64, out: &mut String)
    ensures
        final(out)@ == old(out)@ + pad_digits(frac as nat, pow as nat),
    decreases pow,
{
    if pow <= 1 {
        assert(final(out)@ =~= old(out)@ + pad_digits(frac as nat, pow as nat));
    } else {
        push_padded(frac / 10, pow / 10, out);
        push_char(out, crate::text::digit_to_char(frac % 10));
        assert(final(out)@ =~= old(out)@ + pad_digits(frac as nat, pow as nat));
    }
}

fn push_trimmed(frac: u64, pow: u64, out: &mut String)
    ensures
        final(out)@ == old(out)@ + trimmed_frac(frac as nat, pow as nat),
    decreases pow,
{
    if pow <= 1 {
        assert(final(out)@ =~= old(out)@ + trimmed_frac(frac as nat, pow as nat));
    } else if frac % 10 == 0 {
        push_trimmed(frac / 10, pow / 10, out);
    } else {
        push_padded(frac, pow, out);
    }
}

/// Appends `n / pow` as an exact decimal.
pub fn push_scaled(n: u64, pow: u64, out: &mut String)
    requires
        pow >= 1,
    ensures
        final(out)@ == old(out)@ + spec_scaled(n as nat, pow as nat),
{
    push_decimal(n / pow, out);
    if n % pow != 0 {
        push_char(out, '.');
        push_trimmed(n % pow, pow, out);
    }
    assert(final(out)@ =~= old(out)@ + spec_scaled(n as nat, pow as nat));
}

/// Appends the canonical decimal rendering of a wide value.
pub fn push_decimal_wide(n: u128, out: &mut String)
    ensures
        final(out)@ == old(out)@ + spec_digits(n as nat),
    decreases n,
{
    if n < 10 {
        push_char(out, crate::text::digit_to_char(n as u64));
        assert(final(out)@ =~= old(out)@ + spec_digits(n as nat));
    } else {
        push_decimal_wide(n / 10, out);
        push_char(out, crate::text::digit_to_char((n % 10) as u64));
        assert(final(out)@ =~= old(out)@ + spec_digits(n as nat));
    }
}

/// The CSV header line.
pub open spec fn csv_header() -> Seq<char> {
    "timestamp,name,operation_type,data_size,time_ns,time_us,time_ms,throughput_ops_per_sec,per_order_ns"@
}

/// One CSV row for a result, stamped with the export time: the raw
/// name, label, size and nanoseconds, then the derived microseconds,
/// milliseconds, whole operations per second, and whole nanoseconds
/// per order.
#[verifier::opaque]
pub open spec fn spec_csv_row(ts: Seq<char>, r: BenchmarkResult) -> Seq<char> {
    let tail = spec_digits(((r.data_size as nat) * 1000000000) / (r.time_ns as nat)) + seq![',']
        + spec_digits((r.time_ns as nat) / (r.data_size as nat));
    let derived = spec_scaled(r.time_ns as nat, 1000) + seq![','] + spec_scaled(
        r.time_ns as nat,
        1000000,
    ) + seq![','] + tail;
    ts + seq![','] + (r.name@ + seq![','] + (r.operation_type@ + seq![','] + (spec_digits(
        r.data_size as nat,
    ) + seq![','] + (spec_digits(r.time_ns as nat) + seq![','] + derived))))
}

/// The rows of a result set, each ended by one line break.
pub open spec fn spec_csv_rows(ts: Seq<char>, rs: Seq<BenchmarkResult>) -> Seq<char>
    decreases rs.len(),
{
    if rs.len() == 0 {
        Seq::empty()
    } else {
        spec_csv_row(ts, rs.first()) + seq!['\n'] + spec_csv_rows(ts, rs.drop_first())
    }
}

/// A whole CSV document: the header line, then the rows.
pub open spec fn spec_csv_doc(ts: Seq<char>, rs: Seq<BenchmarkResult>) -> Seq<char> {
    csv_header() + seq!['\n'] + spec_csv_rows(ts, rs)
}

/// Appending one result appends one row.
proof fn lemma_rows_push(ts: Seq<char>, rs: Seq<BenchmarkResult>, r: BenchmarkResult)
    ensures
        spec_csv_rows(ts, rs.push(r)) == spec_csv_rows(ts, rs) + spec_csv_row(ts, r) + seq!['\n'],
    decreases rs.len(),
{
    if rs.len() == 0 {
        assert(rs.push(r).drop_first() =~= rs);
        assert(spec_csv_rows(ts, rs.push(r)) =~= spec_csv_rows(ts, rs) + spec_csv_row(ts, r)
            + seq!['\n']);
    } else {
        lemma_rows_push(ts, rs.drop_first(), r);
        assert(rs.push(r).drop_first() =~= rs.drop_first().push(r));
        assert(rs.push(r).first() == rs.first());
        assert(spec_csv_rows(ts, rs.push(r)) =~= spec_csv_rows(ts, rs) + spec_csv_row(ts, r)
            + seq!['\n']);
    }
}

#[verifier::rlimit(100)]
fn push_row(out: &mut String, timestamp: &str, r: &BenchmarkResult)
    requires
        r.wf(),
    ensures
        final(out)@ == old(out)@ + spec_csv_row(timestamp@, *r) + seq!['\n'],
{
    out.append(timestamp);
    push_char(out, ',');
    out.append(r.name.as_str());
    push_char(out, ',');
    out.append(r.operation_type.as_str());
    push_char(out, ',');
    proof {
        assert(r.data_size <= u64::MAX);
    }
    push_decimal(r.data_size as u64, out);
    push_char(out, ',');
    push_decimal(r.time_ns, out);
    push_char(out, ',');
    push_scaled(r.time_ns, 1000, out);
    push_char(out, ',');
    push_scaled(r.time_ns, 1000000, out);
    push_char(out, ',');
    proof {
        assert((r.data_size as int) * 1000000000 <= (crate::stats::MAX_DATA_SIZE as int)
            * 1000000000) by (nonlinear_arith)
            requires
                0 <= r.data_size as int <= crate::stats::MAX_DATA_SIZE as int,
        ;
    }
    let throughput: u128 = ((r.data_size as u128) * 1000000000) / (r.time_ns as u128);
    push_decimal_wide(throughput, out);
    push_char(out, ',');
    let per_order: u64 = r.time_ns / (r.data_size as u64);
    push_decimal(per_order, out);
    push_char(out, '\n');
    proof {
        reveal(spec_csv_row);
        assert(final(out)@ =~= old(out)@ + spec_csv_row(timestamp@, *r) + seq!['\n']);
    }
}

/// Renders a result set as a CSV document stamped with the given
/// timestamp label.
pub fn csv_document_at(results: &Vec<BenchmarkResult>, timestamp: &str) -> (out: String)
    requires
        forall|i: int| 0 <= i < results@.len() ==> (#[trigger] results@[i]).wf(),
    ensures
        out@ == spec_csv_doc(timestamp@, results@),
{
    let mut out =
        "timestamp,name,operation_type,data_size,time_ns,time_us,time_ms,throughput_ops_per_sec,per_order_ns".to_owned();
    push_char(&mut out, '\n');
    let mut i: usize = 0;
    while i < results.len()
        invariant
            forall|j: int| 0 <= j < results@.len() ==> (#[trigger] results@[j]).wf(),
            0 <= i <= results@.len(),
            out@ == spec_csv_doc(timestamp@, results@.take(i as int)),
        decreases results@.len() - i,
    {
        let r = &results[i];
        let ghost before = out@;
        push_row(&mut out, timestamp, r);
        proof {
            lemma_rows_push(timestamp@, results@.take(i as int), results@[i as int]);
            assert(results@.take(i as int).push(results@[i as int]) =~= results@.take(i as int + 1));
            assert(out@ =~= spec_csv_doc(timestamp@, results@.take(i as int + 1)));
        }
        i = i + 1;
    }
    proof {
        assert(results@.take(results@.len() as int) =~= results@);
    }
    out
}

/// Renders a result set as a CSV document stamped with the current
/// time. Everything but the stamp is fixed by the results; of the
/// stamp, only its CSV-safety is known, which is all the round trip
/// of the other columns needs.
pub fn csv_document(results: &Vec<BenchmarkResult>) -> (out: String)
    requires
        forall|i: int| 0 <= i < results@.len() ==> (#[trigger] results@[i]).wf(),
    ensures
        exists|ts: Seq<char>|
            #[trigger] csv_safe(ts) && out@ == spec_csv_doc(ts, results@),
{
    let stamp = now_timestamp_label();
    let out = csv_document_at(results, stamp.as_str());
    proof {
        assert(csv_safe(stamp@) && out@ == spec_csv_doc(stamp@, results@));
    }
    out
}

/// Free of line breaks.
pub open spec fn no_newline(s: Seq<char>) -> bool {
    !s.contains('\n')
}

proof fn lemma_no_newline_concat(a: Seq<char>, b: Seq<char>)
    requires
        no_newline(a),
        no_newline(b),
    ensures
        no_newline(a + b),
{
    if (a + b).contains('\n') {
        let i = choose|i: int| 0 <= i < (a + b).len() && (a + b)[i] == '\n';
        if i < a.len() {
            assert(a[i] == '\n');
        } else {
            assert(b[i - a.len()] == '\n');
        }
    }
}

/// Digit strings hold no separator, dot or line break.
proof fn lemma_all_digits_safe(s: Seq<char>)
    requires
        all_digits(s),
    ensures
        csv_safe(s),
        no_newline(s),
{
    assert(',' as int == 44);
    assert('\n' as int == 10);
    if s.contains(',') {
        let i = choose|i: int| 0 <= i < s.len() && s[i] == ',';
        assert(is_digit(s[i]));
    }
    if s.contains('\n') {
        let i = choose|i: int| 0 <= i < s.len() && s[i] == '\n';
        assert(is_digit(s[i]));
    }
}

proof fn lemma_pad_all_digits(frac: nat, pow: nat)
    ensures
        all_digits(pad_digits(frac, pow)),
    decreases pow,
{
    if pow > 1 {
        lemma_pad_all_digits(frac / 10, pow / 10);
        crate::text::lemma_digit_char_value(((frac % 10) as int));
    }
}

proof fn lemma_trimmed_all_digits(frac: nat, pow: nat)
    ensures
        all_digits(trimmed_frac(frac, pow)),
    decreases pow,
{
    if pow > 1 {
        if frac % 10 == 0 {
            lemma_trimmed_all_digits(frac / 10, pow / 10);
        } else {
            lemma_pad_all_digits(frac, pow);
        }
    }
}

/// Exact decimals hold digits and at most one dot: CSV-safe.
proof fn lemma_scaled_safe(n: nat, pow: nat)
    ensures
        csv_safe(spec_scaled(n, pow)),
        no_newline(spec_scaled(n, pow)),
{
    crate::text::lemma_digits_roundtrip(n / pow);
    lemma_all_digits_safe(spec_digits(n / pow));
    if n % pow != 0 {
        lemma_trimmed_all_digits(n % pow, pow);
        lemma_all_digits_safe(trimmed_frac(n % pow, pow));
        assert('.' as int == 46);
        let dot = seq!['.'];
        assert(csv_safe(dot) && no_newline(dot)) by {
            if dot.contains(',') {
                let i = choose|i: int| 0 <= i < dot.len() && dot[i] == ',';
            }
            if dot.contains('\n') {
                let i = choose|i: int| 0 <= i < dot.len() && dot[i] == '\n';
            }
        }
        let a = spec_digits(n / pow);
        let b = trimmed_frac(n % pow, pow);
        if (a + dot + b).contains(',') {
            let i = choose|i: int| 0 <= i < (a + dot + b).len() && (a + dot + b)[i] == ',';
            if i < a.len() {
                assert(a[i] == ',');
            } else if i < a.len() + 1 {
                assert(dot[0] == ',');
            } else {
                assert(b[i - a.len() - 1] == ',');
            }
        }
        if (a + dot + b).contains('\n') {
            let i = choose|i: int| 0 <= i < (a + dot + b).len() && (a + dot + b)[i] == '\n';
            if i < a.len() {
                assert(a[i] == '\n');
            } else if i < a.len() + 1 {
                assert(dot[0] == '\n');
            } else {
                assert(b[i - a.len() - 1] == '\n');
            }
        }
    }
}

/// The tuple one CSV line recovers: the operation label, the workload
/// size and the elapsed nanoseconds, read from the third, fourth and
/// fifth comma-separated fields.
pub open spec fn spec_parse_record(line: Seq<char>) -> Option<(Seq<char>, u64, u64)> {
    let fs = split_on(line, ',');
    if fs.len() >= 5 && fs[3].len() > 0 && all_digits(fs[3]) && dec_value(fs[3]) <= u64::MAX
        && fs[4].len() > 0 && all_digits(fs[4]) && dec_value(fs[4]) <= u64::MAX {
        Some((fs[2], dec_value(fs[3]) as u64, dec_value(fs[4]) as u64))
    } else {
        None
    }
}

/// What a list of data lines recovers: empty lines are skipped, and a
/// malformed line spoils the whole document.
pub open spec fn spec_parse_lines(lines: Seq<Seq<char>>) -> Option<Seq<(Seq<char>, u64, u64)>>
    decreases lines.len(),
{
    if lines.len() == 0 {
        Some(Seq::empty())
    } else if lines.first().len() == 0 {
        spec_parse_lines(lines.drop_first())
    } else {
        match (spec_parse_record(lines.first()), spec_parse_lines(lines.drop_first())) {
            (Some(t), Some(rest)) => Some(seq![t] + rest),
            _ => None,
        }
    }
}

/// What a CSV document recovers: its lines after the header.
pub open spec fn spec_parse_csv(doc: Seq<char>) -> Option<Seq<(Seq<char>, u64, u64)>> {
    spec_parse_lines(split_on(doc, '\n').drop_first())
}

/// One tuple recovered from a CSV data row.
#[derive(Debug)]
pub struct CsvRecord {
    pub operation_type: String,
    pub data_size: u64,
    pub time_ns: u64,
}

impl Clone for CsvRecord {
    fn clone(&self) -> (r: Self)
        ensures
            r == *self,
    {
        CsvRecord {
            operation_type: self.operation_type.clone(),
            data_size: self.data_size,
            time_ns: self.time_ns,
        }
    }
}

fn parse_record_line(line: &str) -> (r: Option<CsvRecord>)
    ensures
        match r {
            Some(rec) => spec_parse_record(line@) == Some(
                (rec.operation_type@, rec.data_size, rec.time_ns),
            ),
            None => spec_parse_record(line@) is None,
        },
{
    let fields = split_char(line, ',');
    if fields.len() < 5 {
        return None;
    }
    let size = match parse_u64(fields[3].as_str()) {
        Some(v) => v,
        None => {
            return None;
        },
    };
    let ns = match parse_u64(fields[4].as_str()) {
        Some(v) => v,
        None => {
            return None;
        },
    };
    Some(CsvRecord { operation_type: fields[2].clone(), data_size: size, time_ns: ns })
}

/// Re-parses a CSV document: skips the header line and empty lines,
/// and recovers the operation label, workload size and nanoseconds of
/// every data row, in row order; a malformed row yields nothing.
pub fn parse_csv(s: &str) -> (r: Option<Vec<CsvRecord>>)
    ensures
        match r {
            Some(v) => spec_parse_csv(s@) == Some(
                Seq::new(
                    v@.len(),
                    |j: int| (v@[j].operation_type@, v@[j].data_size, v@[j].time_ns),
                ),
            ),
            None => spec_parse_csv(s@) is None,
        },
{
    let lines = split_char(s, '\n');
    let ghost all = split_on(s@, '\n');
    let mut acc: Vec<CsvRecord> = Vec::new();
    let mut i: usize = 1;
    proof {
        crate::text::lemma_split_on_len(s@, '\n');
        assert(all.skip(1) =~= all.drop_first());
        assert(Seq::new(acc@.len(), |j: int| (acc@[j].operation_type@, acc@[j].data_size, acc@[j].time_ns)) =~= Seq::empty());
    }
    while i < lines.len()
        invariant
            lines@.len() == all.len(),
            forall|j: int| 0 <= j < all.len() ==> (#[trigger] lines@[j])@ == all[j],
            all == split_on(s@, '\n'),
            all.len() >= 1,
            1 <= i <= all.len(),
            spec_parse_csv(s@) == (match spec_parse_lines(all.skip(i as int)) {
                Some(rest) => Some(
                    Seq::new(
                        acc@.len(),
                        |j: int| (acc@[j].operation_type@, acc@[j].data_size, acc@[j].time_ns),
                    ) + rest,
                ),
                None => None::<Seq<(Seq<char>, u64, u64)>>,
            }),
        decreases all.len() - i,
    {
        proof {
            assert(all.skip(i as int).drop_first() =~= all.skip(i as int + 1));
            assert(all.skip(i as int).first() == all[i as int]);
        }
        let line = &lines[i];
        if line.as_str().unicode_len() == 0 {
            i = i + 1;
            continue ;
        }
        match parse_record_line(line.as_str()) {
            Some(rec) => {
                let ghost old_acc = acc@;
                acc.push(rec);
                proof {
                    let old_views = Seq::new(
                        old_acc.len(),
                        |j: int| (old_acc[j].operation_type@, old_acc[j].data_size, old_acc[j].time_ns),
                    );
                    let new_views = Seq::new(
                        acc@.len(),
                        |j: int| (acc@[j].operation_type@, acc@[j].data_size, acc@[j].time_ns),
                    );
                    let t = (rec.operation_type@, rec.data_size, rec.time_ns);
                    assert(new_views =~= old_views.push(t));
                    if spec_parse_lines(all.skip(i as int + 1)) is Some {
                        let rest = spec_parse_lines(all.skip(i as int + 1)).unwrap();
                        assert(old_views + (seq![t] + rest) =~= new_views + rest);
                    }
                }
            },
            None => {
                return None;
            },
        }
        i = i + 1;
    }
    proof {
        assert(all.skip(all.len() as int) =~= Seq::<Seq<char>>::empty());
    }
    Some(acc)
}

proof fn lemma_header_no_newline()
    ensures
        no_newline(csv_header()),
{
    reveal_strlit("timestamp,name,operation_type,data_size,time_ns,time_us,time_ms,throughput_ops_per_sec,per_order_ns");
    if csv_header().contains('\n') {
        let i = choose|i: int| 0 <= i < csv_header().len() && csv_header()[i] == '\n';
    }
}

proof fn lemma_comma_newline_safe()
    ensures
        no_newline(seq![',']),
{
    if seq![','].contains('\n') {
        let i = choose|i: int| 0 <= i < seq![','].len() && seq![','][i] == '\n';
    }
}

/// A comma-joined field keeps a line-break-free text line-break-free.
proof fn lemma_field_no_newline(a: Seq<char>, b: Seq<char>)
    requires
        no_newline(a),
        no_newline(b),
    ensures
        no_newline(a + seq![','] + b),
{
    lemma_comma_newline_safe();
    lemma_no_newline_concat(a, seq![',']);
    lemma_no_newline_concat(a + seq![','], b);
}

/// Every rendered column of a row is digit-and-dot text: safe inside
/// CSV.
proof fn lemma_row_pieces_safe(r: BenchmarkResult)
    requires
        r.wf(),
    ensures
        csv_safe(spec_digits(r.data_size as nat)),
        no_newline(spec_digits(r.data_size as nat)),
        all_digits(spec_digits(r.data_size as nat)),
        spec_digits(r.data_size as nat).len() > 0,
        dec_value(spec_digits(r.data_size as nat)) == r.data_size as nat,
        csv_safe(spec_digits(r.time_ns as nat)),
        no_newline(spec_digits(r.time_ns as nat)),
        all_digits(spec_digits(r.time_ns as nat)),
        spec_digits(r.time_ns as nat).len() > 0,
        dec_value(spec_digits(r.time_ns as nat)) == r.time_ns as nat,
        csv_safe(spec_scaled(r.time_ns as nat, 1000)),
        no_newline(spec_scaled(r.time_ns as nat, 1000)),
        csv_safe(spec_scaled(r.time_ns as nat, 1000000)),
        no_newline(spec_scaled(r.time_ns as nat, 1000000)),
        csv_safe(spec_digits(((r.data_size as nat) * 1000000000) / (r.time_ns as nat))),
        no_newline(spec_digits(((r.data_size as nat) * 1000000000) / (r.time_ns as nat))),
        csv_safe(spec_digits((r.time_ns as nat) / (r.data_size as nat))),
        no_newline(spec_digits((r.time_ns as nat) / (r.data_size as nat))),
{
    crate::text::lemma_digits_roundtrip(r.data_size as nat);
    crate::text::lemma_digits_roundtrip(r.time_ns as nat);
    crate::text::lemma_digits_roundtrip(((r.data_size as nat) * 1000000000) / (r.time_ns as nat));
    crate::text::lemma_digits_roundtrip((r.time_ns as nat) / (r.data_size as nat));
    lemma_all_digits_safe(spec_digits(r.data_size as nat));
    lemma_all_digits_safe(spec_digits(r.time_ns as nat));
    lemma_all_digits_safe(spec_digits(((r.data_size as nat) * 1000000000) / (r.time_ns as nat)));
    lemma_all_digits_safe(spec_digits((r.time_ns as nat) / (r.data_size as nat)));
    lemma_scaled_safe(r.time_ns as nat, 1000);
    lemma_scaled_safe(r.time_ns as nat, 1000000);
}

/// The comma-split of one exported row: exactly its nine columns.
#[verifier::rlimit(100)]
#[verifier::spinoff_prover]
proof fn lemma_row_fields(ts: Seq<char>, r: BenchmarkResult)
    requires
        csv_safe(ts),
        csv_safe(r.name@),
        csv_safe(r.operation_type@),
        r.wf(),
    ensures
        split_on(spec_csv_row(ts, r), ',') =~~= seq![
            ts,
            r.name@,
            r.operation_type@,
            spec_digits(r.data_size as nat),
            spec_digits(r.time_ns as nat),
            spec_scaled(r.time_ns as nat, 1000),
            spec_scaled(r.time_ns as nat, 1000000),
            spec_digits(((r.data_size as nat) * 1000000000) / (r.time_ns as nat)),
            spec_digits((r.time_ns as nat) / (r.data_size as nat)),
        ],
{
    reveal(spec_csv_row);
    lemma_row_pieces_safe(r);
    let comma = seq![','];
    let size_d = spec_digits(r.data_size as nat);
    let ns_d = spec_digits(r.time_ns as nat);
    let us = spec_scaled(r.time_ns as nat, 1000);
    let ms = spec_scaled(r.time_ns as nat, 1000000);
    let tp = spec_digits(((r.data_size as nat) * 1000000000) / (r.time_ns as nat));
    let po = spec_digits((r.time_ns as nat) / (r.data_size as nat));
    let tail = tp + comma + po;
    let derived = us + comma + ms + comma + tail;
    let row = spec_csv_row(ts, r);
    assert(row =~= ts + comma + (r.name@ + comma + (r.operation_type@ + comma + (size_d + comma + (
    ns_d + comma + derived)))));
    crate::text::lemma_split_on_concat(
        ts,
        r.name@ + comma + (r.operation_type@ + comma + (size_d + comma + (ns_d + comma + derived))),
        ',',
    );
    crate::text::lemma_split_on_concat(
        r.name@,
        r.operation_type@ + comma + (size_d + comma + (ns_d + comma + derived)),
        ',',
    );
    crate::text::lemma_split_on_concat(
        r.operation_type@,
        size_d + comma + (ns_d + comma + derived),
        ',',
    );
    crate::text::lemma_split_on_concat(size_d, ns_d + comma + derived, ',');
    crate::text::lemma_split_on_concat(ns_d, derived, ',');
    assert(derived =~= us + comma + (ms + comma + tail));
    crate::text::lemma_split_on_concat(us, ms + comma + tail, ',');
    crate::text::lemma_split_on_concat(ms, tail, ',');
    crate::text::lemma_split_on_concat(tp, po, ',');
    crate::text::lemma_split_on_whole(po, ',');
}

/// One exported row holds no line break.
#[verifier::rlimit(100)]
#[verifier::spinoff_prover]
proof fn lemma_row_no_newline(ts: Seq<char>, r: BenchmarkResult)
    requires
        csv_safe(ts),
        csv_safe(r.name@),
        csv_safe(r.operation_type@),
        r.wf(),
    ensures
        no_newline(spec_csv_row(ts, r)),
{
    reveal(spec_csv_row);
    lemma_row_pieces_safe(r);
    let comma = seq![','];
    let size_d = spec_digits(r.data_size as nat);
    let ns_d = spec_digits(r.time_ns as nat);
    let us = spec_scaled(r.time_ns as nat, 1000);
    let ms = spec_scaled(r.time_ns as nat, 1000000);
    let tp = spec_digits(((r.data_size as nat) * 1000000000) / (r.time_ns as nat));
    let po = spec_digits((r.time_ns as nat) / (r.data_size as nat));
    let tail = tp + comma + po;
    lemma_field_no_newline(tp, po);
    lemma_field_no_newline(ms, tail);
    lemma_field_no_newline(us, ms + comma + tail);
    let derived = us + comma + (ms + comma + tail);
    lemma_field_no_newline(ns_d, derived);
    lemma_field_no_newline(size_d, ns_d + comma + derived);
    lemma_field_no_newline(r.operation_type@, size_d + comma + (ns_d + comma + derived));
    lemma_field_no_newline(
        r.name@,
        r.operation_type@ + comma + (size_d + comma + (ns_d + comma + derived)),
    );
    lemma_field_no_newline(
        ts,
        r.name@ + comma + (r.operation_type@ + comma + (size_d + comma + (ns_d + comma + derived))),
    );
    assert(spec_csv_row(ts, r) =~= ts + comma + (r.name@ + comma + (r.operation_type@ + comma + (
    size_d + comma + (ns_d + comma + (us + comma + ms + comma + tail))))));
    assert(ts + comma + (r.name@ + comma + (r.operation_type@ + comma + (size_d + comma + (ns_d
        + comma + (us + comma + ms + comma + tail))))) =~= ts + comma + (r.name@ + comma + (
    r.operation_type@ + comma + (size_d + comma + (ns_d + comma + derived)))));
}

/// One exported row holds no line break and re-parses to its own
/// operation label, size and nanoseconds.
#[verifier::rlimit(100)]
#[verifier::spinoff_prover]
proof fn lemma_parse_row(ts: Seq<char>, r: BenchmarkResult)
    requires
        csv_safe(ts),
        csv_safe(r.name@),
        csv_safe(r.operation_type@),
        r.wf(),
    ensures
        no_newline(spec_csv_row(ts, r)),
        spec_csv_row(ts, r).len() > 0,
        spec_parse_record(spec_csv_row(ts, r)) == Some(
            (r.operation_type@, r.data_size as u64, r.time_ns),
        ),
{
    lemma_row_no_newline(ts, r);
    lemma_row_fields(ts, r);
    lemma_row_pieces_safe(r);
    let row = spec_csv_row(ts, r);
    let fs = split_on(row, ',');
    assert(fs.len() == 9);
    assert(fs[2] == r.operation_type@);
    assert(fs[3] == spec_digits(r.data_size as nat));
    assert(fs[4] == spec_digits(r.time_ns as nat));
    assert(spec_parse_record(row) == Some((r.operation_type@, r.data_size as u64, r.time_ns)));
    assert(row.len() > 0) by {
        reveal(spec_csv_row);
    }
}

/// The tuples a result set should recover to.
pub open spec fn spec_projection(rs: Seq<BenchmarkResult>) -> Seq<(Seq<char>, u64, u64)> {
    Seq::new(rs.len(), |i: int| (rs[i].operation_type@, rs[i].data_size as u64, rs[i].time_ns))
}

/// Parsing one well-formed data line followed by more lines conses
/// its tuple onto what the rest recovers.
proof fn lemma_parse_lines_cons(
    line: Seq<char>,
    rest: Seq<Seq<char>>,
    t: (Seq<char>, u64, u64),
    q: Seq<(Seq<char>, u64, u64)>,
)
    requires
        line.len() > 0,
        spec_parse_record(line) == Some(t),
        spec_parse_lines(rest) == Some(q),
    ensures
        spec_parse_lines(seq![line] + rest) == Some(seq![t] + q),
{
    let lines = seq![line] + rest;
    assert(lines.first() == line);
    assert(lines.drop_first() =~~= rest);
}

/// The data rows of an exported result set re-parse to exactly the
/// set's tuples, in order.
#[verifier::rlimit(100)]
proof fn lemma_parse_rows(ts: Seq<char>, rs: Seq<BenchmarkResult>)
    requires
        csv_safe(ts),
        forall|i: int|
            0 <= i < rs.len() ==> {
                let r = #[trigger] rs[i];
                csv_safe(r.name@) && csv_safe(r.operation_type@) && r.wf()
            },
    ensures
        spec_parse_lines(split_on(spec_csv_rows(ts, rs), '\n')) == Some(spec_projection(rs)),
    decreases rs.len(),
{
    if rs.len() == 0 {
        reveal_with_fuel(spec_parse_lines, 3);
        let lines = split_on(spec_csv_rows(ts, rs), '\n');
        assert(lines =~~= seq![Seq::<char>::empty()]);
        assert(lines.drop_first() =~~= Seq::<Seq<char>>::empty());
        assert(spec_parse_lines(Seq::<Seq<char>>::empty()) == Some(
            Seq::<(Seq<char>, u64, u64)>::empty(),
        ));
        assert(spec_parse_lines(lines) == Some(Seq::<(Seq<char>, u64, u64)>::empty()));
        assert(spec_projection(rs) =~= Seq::empty());
    } else {
        let r0 = rs.first();
        assert(csv_safe(r0.name@) && csv_safe(r0.operation_type@) && r0.wf()) by {
            assert(rs[0] == r0);
        }
        lemma_parse_row(ts, r0);
        let row0 = spec_csv_row(ts, r0);
        let rest_rows = spec_csv_rows(ts, rs.drop_first());
        crate::text::lemma_split_on_concat(row0, rest_rows, '\n');
        assert(forall|i: int|
            0 <= i < rs.drop_first().len() ==> {
                let r = #[trigger] rs.drop_first()[i];
                csv_safe(r.name@) && csv_safe(r.operation_type@) && r.wf()
            });
        lemma_parse_rows(ts, rs.drop_first());
        let t0 = (r0.operation_type@, r0.data_size as u64, r0.time_ns);
        lemma_parse_lines_cons(
            row0,
            split_on(rest_rows, '\n'),
            t0,
            spec_projection(rs.drop_first()),
        );
        assert(split_on(spec_csv_rows(ts, rs), '\n') == seq![row0] + split_on(rest_rows, '\n'));
        assert(seq![t0] + spec_projection(rs.drop_first()) =~= spec_projection(rs));
    }
}

/// The CSV round trip: exporting a result set and re-parsing the
/// document recovers the same operation label, workload size and
/// nanosecond tuples, in the same row order — for any timestamp label
/// and any results whose labels are free of commas and line breaks.
pub proof fn lemma_csv_round_trip(ts: Seq<char>, rs: Seq<BenchmarkResult>)
    requires
        csv_safe(ts),
        forall|i: int|
            0 <= i < rs.len() ==> {
                let r = #[trigger] rs[i];
                csv_safe(r.name@) && csv_safe(r.operation_type@) && r.wf()
            },
    ensures
        spec_parse_csv(spec_csv_doc(ts, rs)) == Some(spec_projection(rs)),
{
    lemma_header_no_newline();
    crate::text::lemma_split_on_concat(csv_header(), spec_csv_rows(ts, rs), '\n');
    let lines = split_on(spec_csv_doc(ts, rs), '\n');
    assert(lines == seq![csv_header()] + split_on(spec_csv_rows(ts, rs), '\n'));
    assert(lines.drop_first() =~~= split_on(spec_csv_rows(ts, rs), '\n'));
    lemma_parse_rows(ts, rs);
}

} // verus!
