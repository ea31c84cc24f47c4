//! The scan state file: one line per recorded entry,
//! `path|size|seconds|nanoseconds|hash`, with the time counted from the Unix
//! epoch. Writing it, and reading it back.

use vstd::prelude::*;

use crate::decimal::{decimal, lemma_decimal, lemma_parse_decimal, parse_unsigned, parse_unsigned_at, push_decimal};
use crate::digest::{hex_lower_spec, is_hex_char, lemma_hex_lower};
use crate::scanner::{entries_view, EntryView, FileEntry};
use crate::text::{
    chars_of, first_index, lemma_first_index, lemma_first_index_at, lemma_first_index_none,
    split_on, split_ranges, string_from,
};
use crate::timestamp::{Timestamp, NANOS_PER_SEC};

verus! {

/// A line without the carriage return that ended it, if any.
pub open spec fn strip_cr(l: Seq<char>) -> Seq<char> {
    if l.len() > 0 && l.last() == '\r' {
        l.drop_last()
    } else {
        l
    }
}

/// The lines of a text, as the standard library's `str::lines` gives them:
/// split at each `'\n'`, a `'\r'` right before a `'\n'` dropped, and no
/// empty line after a final `'\n'`.
pub open spec fn lines_of(s: Seq<char>) -> Seq<Seq<char>>
    decreases s.len(),
{
    if s.len() == 0 {
        seq![]
    } else {
        match first_index(s, '\n') {
            Some(i) => {
                proof {
                    lemma_first_index(s, '\n');
                }
                seq![strip_cr(s.take(i))] + lines_of(s.skip(i + 1))
            },
            None => seq![s],
        }
    }
}

/// The fields of a line, split at each `'|'` (always at least one).
pub open spec fn fields_of(l: Seq<char>) -> Seq<Seq<char>> {
    split_on(l, '|')
}

/// Why a line with five fields records no entry.
#[derive(Debug, Clone, Copy, PartialEq, Eq, Structural)]
pub enum LineIssue {
    /// The size does not read as a `u64`.
    BadSize,
    /// The seconds do not read as a `u64`.
    BadSeconds,
    /// The nanoseconds do not read as a `u32`.
    BadNanos,
    /// The time lies beyond what a timestamp holds.
    TimeOutOfRange,
}

/// What a line of the state file stands for.
pub enum LineRecord {
    /// A well-formed line and the entry it records.
    Entry(EntryView),
    /// A line without exactly five fields.
    WrongShape,
    /// A line with five fields that records no entry.
    Rejected(LineIssue),
}

/// Reads one line: five fields, the three numbers in the middle being the
/// size (`u64`), the seconds (`u64`) and the nanoseconds (`u32`), read in
/// that order.
pub open spec fn line_record(l: Seq<char>) -> LineRecord {
    let f = fields_of(l);
    if f.len() != 5 {
        LineRecord::WrongShape
    } else {
        match parse_unsigned(f[1], u64::MAX as int) {
            None => LineRecord::Rejected(LineIssue::BadSize),
            Some(size) => match parse_unsigned(f[2], u64::MAX as int) {
                None => LineRecord::Rejected(LineIssue::BadSeconds),
                Some(secs) => match parse_unsigned(f[3], u32::MAX as int) {
                    None => LineRecord::Rejected(LineIssue::BadNanos),
                    Some(nanos) => {
                        if Timestamp::fits(secs as u64, nanos as u32) {
                            LineRecord::Entry(
                                EntryView {
                                    path: f[0],
                                    size: size as u64,
                                    modified: Timestamp::spec_after_epoch(
                                        secs as u64,
                                        nanos as u32,
                                    ),
                                    hash: f[4],
                                },
                            )
                        } else {
                            LineRecord::Rejected(LineIssue::TimeOutOfRange)
                        }
                    },
                },
            },
        }
    }
}

/// A line whose time lies beyond what a timestamp holds.
pub open spec fn out_of_range(l: Seq<char>) -> bool {
    line_record(l) == LineRecord::Rejected(LineIssue::TimeOutOfRange)
}

/// The entries that a sequence of lines records, in order.
pub open spec fn records_of_lines(ls: Seq<Seq<char>>) -> Seq<EntryView>
    decreases ls.len(),
{
    if ls.len() == 0 {
        seq![]
    } else {
        let first = match line_record(ls[0]) {
            LineRecord::Entry(e) => seq![e],
            _ => seq![],
        };
        first + records_of_lines(ls.drop_first())
    }
}

/// No line has a time out of range.
pub open spec fn lines_in_range(ls: Seq<Seq<char>>) -> bool
    decreases ls.len(),
{
    ls.len() == 0 || (!out_of_range(ls[0]) && lines_in_range(ls.drop_first()))
}

/// The lines with five fields that record no entry, each with its issue,
/// in order.
pub open spec fn rejected_lines(ls: Seq<Seq<char>>) -> Seq<(LineIssue, Seq<char>)>
    decreases ls.len(),
{
    if ls.len() == 0 {
        seq![]
    } else {
        let first = match line_record(ls[0]) {
            LineRecord::Rejected(issue) => seq![(issue, ls[0])],
            _ => seq![],
        };
        first + rejected_lines(ls.drop_first())
    }
}

/// The rejected lines of a state text.
pub open spec fn state_rejected(text: Seq<char>) -> Seq<(LineIssue, Seq<char>)> {
    rejected_lines(lines_of(text))
}

/// A line of the state text that records no entry, and why.
#[derive(Debug)]
pub struct SkippedLine {
    pub issue: LineIssue,
    pub line: String,
}

impl View for SkippedLine {
    type V = (LineIssue, Seq<char>);

    open spec fn view(&self) -> (LineIssue, Seq<char>) {
        (self.issue, self.line@)
    }
}

/// The values of a sequence of skipped lines.
pub open spec fn skipped_view(s: Seq<SkippedLine>) -> Seq<(LineIssue, Seq<char>)> {
    s.map_values(|x: SkippedLine| x@)
}

/// The entries that a state text records.
pub open spec fn state_entries(text: Seq<char>) -> Seq<EntryView> {
    records_of_lines(lines_of(text))
}

/// Every well-formed line of the state text has a representable time.
pub open spec fn state_in_range(text: Seq<char>) -> bool {
    lines_in_range(lines_of(text))
}

/// The outcome of reading one line.
enum LineParse {
    Record(FileEntry),
    WrongShape,
    Rejected(LineIssue),
}

/// Reads the line `chars[start..end]`.
fn parse_line(chars: &Vec<char>, start: usize, end: usize) -> (res: LineParse)
    requires
        start <= end <= chars@.len(),
    ensures
        match res {
            LineParse::Record(e) => line_record(chars@.subrange(start as int, end as int))
                == LineRecord::Entry(e@),
            LineParse::WrongShape => line_record(
                chars@.subrange(start as int, end as int),
            ) is WrongShape,
            LineParse::Rejected(issue) => line_record(chars@.subrange(start as int, end as int))
                == LineRecord::Rejected(issue),
        },
{
    let ghost l = chars@.subrange(start as int, end as int);
    let ranges = split_ranges(chars, start, end, '|');
    let ghost f = fields_of(l);
    if ranges.len() != 5 {
        return LineParse::WrongShape;
    }
    assert(f[0] == chars@.subrange(ranges@[0].0 as int, ranges@[0].1 as int));
    assert(f[1] == chars@.subrange(ranges@[1].0 as int, ranges@[1].1 as int));
    assert(f[2] == chars@.subrange(ranges@[2].0 as int, ranges@[2].1 as int));
    assert(f[3] == chars@.subrange(ranges@[3].0 as int, ranges@[3].1 as int));
    assert(f[4] == chars@.subrange(ranges@[4].0 as int, ranges@[4].1 as int));
    let size = match parse_unsigned_at(chars, ranges[1].0, ranges[1].1, u64::MAX) {
        Some(v) => v,
        None => {
            return LineParse::Rejected(LineIssue::BadSize);
        },
    };
    let secs = match parse_unsigned_at(chars, ranges[2].0, ranges[2].1, u64::MAX) {
        Some(v) => v,
        None => {
            return LineParse::Rejected(LineIssue::BadSeconds);
        },
    };
    let nanos = match parse_unsigned_at(chars, ranges[3].0, ranges[3].1, u32::MAX as u64) {
        Some(v) => v as u32,
        None => {
            return LineParse::Rejected(LineIssue::BadNanos);
        },
    };
    let carry = (nanos / NANOS_PER_SEC) as u64;
    if secs > i64::MAX as u64 - carry {
        return LineParse::Rejected(LineIssue::TimeOutOfRange);
    }
    let modified = Timestamp::after_epoch(secs, nanos);
    let path = string_from(chars, ranges[0].0, ranges[0].1);
    let hash = string_from(chars, ranges[4].0, ranges[4].1);
    LineParse::Record(FileEntry::new(path, size, modified, hash))
}

/// Reads a whole state text: the entries it records, the lines it rejects,
/// and whether every well-formed line has a representable time.
fn read_state(text: &str) -> (res: (Vec<FileEntry>, Vec<SkippedLine>, bool))
    ensures
        entries_view(res.0@) == state_entries(text@),
        skipped_view(res.1@) == state_rejected(text@),
        res.2 == state_in_range(text@),
{
    let chars = chars_of(text);
    let n = chars.len();
    let mut entries: Vec<FileEntry> = Vec::new();
    let mut skipped: Vec<SkippedLine> = Vec::new();
    let mut fits = true;
    let mut pos: usize = 0;
    assert(chars@.subrange(0, n as int) =~= chars@);
    while pos < n
        invariant
            pos <= n == chars@.len(),
            chars@ == text@,
            state_entries(text@) == entries_view(entries@) + records_of_lines(
                lines_of(chars@.subrange(pos as int, n as int)),
            ),
            state_rejected(text@) == skipped_view(skipped@) + rejected_lines(
                lines_of(chars@.subrange(pos as int, n as int)),
            ),
            state_in_range(text@) == (fits && lines_in_range(
                lines_of(chars@.subrange(pos as int, n as int)),
            )),
        decreases n - pos,
    {
        let ghost rest = chars@.subrange(pos as int, n as int);
        let mut j = pos;
        while j < n && chars[j] != '\n'
            invariant
                pos <= j <= n == chars@.len(),
                forall|m: int| pos <= m < j ==> chars@[m] != '\n',
            decreases n - j,
        {
            j = j + 1;
        }
        let mut end = j;
        let next;
        let ghost line: Seq<char>;
        let ghost after: Seq<char>;
        if j < n {
            if end > pos && chars[end - 1] == '\r' {
                end = end - 1;
            }
            next = j + 1;
            proof {
                lemma_first_index_at(rest, '\n', j - pos);
                line = strip_cr(rest.take(j - pos));
                after = rest.skip(j - pos + 1);
                assert(after =~= chars@.subrange(next as int, n as int));
                assert(line =~= chars@.subrange(pos as int, end as int));
            }
        } else {
            next = n;
            proof {
                lemma_first_index_none(rest, '\n');
                line = rest;
                after = chars@.subrange(n as int, n as int);
                assert(after.len() == 0);
            }
        }
        assert(lines_of(rest) =~= seq![line] + lines_of(after));
        assert((seq![line] + lines_of(after)).drop_first() =~= lines_of(after));
        let ghost before = entries@;
        let ghost skipped_before = skipped@;
        match parse_line(&chars, pos, end) {
            LineParse::Record(e) => {
                entries.push(e);
                assert(entries_view(entries@) =~= entries_view(before).push(e@));
            },
            LineParse::WrongShape => {},
            LineParse::Rejected(issue) => {
                if issue == LineIssue::TimeOutOfRange {
                    fits = false;
                }
                let s = SkippedLine { issue, line: string_from(&chars, pos, end) };
                skipped.push(s);
                assert(skipped_view(skipped@) =~= skipped_view(skipped_before).push(
                    (issue, line),
                ));
            },
        }
        pos = next;
    }
    (entries, skipped, fits)
}

/// Whether every well-formed line of a state text has a time that a
/// timestamp holds; where one does not, reading the text is refused.
pub fn state_times_fit(text: &str) -> (res: bool)
    ensures
        res == state_in_range(text@),
{
    read_state(text).2
}

/// The lines of a state text that have five fields yet record no entry,
/// in order, each with the first reason found: the size, then the seconds,
/// then the nanoseconds do not read, or the time is out of range.
pub fn skipped_state_lines(text: &str) -> (skipped: Vec<SkippedLine>)
    ensures
        skipped_view(skipped@) == state_rejected(text@),
{
    read_state(text).1
}

/// What the text of a rejected line starts with when it is reported.
pub open spec fn issue_prefix(issue: LineIssue) -> Seq<char> {
    match issue {
        LineIssue::BadSize => "Error retrieving file size during loading: "@,
        LineIssue::BadSeconds => "Error getting file modification seconds during loading: "@,
        LineIssue::BadNanos => "Error getting file modification nanoseconds during loading: "@,
        LineIssue::TimeOutOfRange => "Time out of range during loading: "@,
    }
}

/// The report of a rejected line: its reason, then the line.
pub fn skip_message(skipped: &SkippedLine) -> (message: String)
    ensures
        message@ == issue_prefix(skipped.issue) + skipped.line@,
{
    let mut message = String::new();
    match skipped.issue {
        LineIssue::BadSize => message.push_str("Error retrieving file size during loading: "),
        LineIssue::BadSeconds => message.push_str(
            "Error getting file modification seconds during loading: ",
        ),
        LineIssue::BadNanos => message.push_str(
            "Error getting file modification nanoseconds during loading: ",
        ),
        LineIssue::TimeOutOfRange => message.push_str("Time out of range during loading: "),
    }
    message.push_str(skipped.line.as_str());
    message
}

/// The entries recorded in a state text, in order; lines without five
/// fields, or whose size or time do not read, are passed over.
pub fn parse_state(text: &str) -> (entries: Vec<FileEntry>)
    requires
        state_in_range(text@),
    ensures
        entries_view(entries@) == state_entries(text@),
{
    read_state(text).0
}

/// Whether an entry gets a line in the state text: its time is not before
/// the epoch.
pub fn is_recorded(entry: &FileEntry) -> (res: bool)
    ensures
        res == (entry.modified.secs >= 0),
{
    entry.modified.secs >= 0
}


/// An entry's line without its final `'\n'`.
pub open spec fn line_body(e: EntryView) -> Seq<char> {
    e.path + seq!['|'] + decimal(e.size as nat) + seq!['|'] + decimal(e.modified.secs as nat)
        + seq!['|'] + decimal(e.modified.nanos as nat) + seq!['|'] + e.hash
}

/// The line that records an entry.
pub open spec fn state_line(e: EntryView) -> Seq<char> {
    line_body(e).push('\n')
}

/// The state text of a scan: one line per entry whose time is not before
/// the epoch, in order; other entries are left out.
pub open spec fn state_text(es: Seq<EntryView>) -> Seq<char>
    decreases es.len(),
{
    if es.len() == 0 {
        seq![]
    } else {
        (if es[0].modified.secs >= 0 {
            state_line(es[0])
        } else {
            seq![]
        }) + state_text(es.drop_first())
    }
}

/// The entries of a scan whose time is not before the epoch, in order.
pub open spec fn recorded(es: Seq<EntryView>) -> Seq<EntryView>
    decreases es.len(),
{
    if es.len() == 0 {
        seq![]
    } else {
        (if es[0].modified.secs >= 0 {
            seq![es[0]]
        } else {
            seq![]
        }) + recorded(es.drop_first())
    }
}

/// Writes the state text of a scan.
pub fn render_state(entries: &[FileEntry]) -> (text: String)
    ensures
        text@ == state_text(entries_view(entries@)),
{
    let ghost ev = entries_view(entries@);
    let mut out = String::new();
    let mut i: usize = 0;
    assert(ev.skip(0) =~= ev);
    while i < entries.len()
        invariant
            ev == entries_view(entries@),
            i <= entries@.len(),
            out@ + state_text(ev.skip(i as int)) =~= state_text(ev),
        decreases entries@.len() - i,
    {
        let e = &entries[i];
        let ghost before = out@;
        assert(ev.skip(i as int)[0] == e@);
        assert(ev.skip(i as int).drop_first() =~= ev.skip(i + 1));
        if e.modified.secs >= 0 {
            out.push_str(e.path.as_str());
            out.push('|');
            push_decimal(&mut out, e.size);
            out.push('|');
            push_decimal(&mut out, e.modified.secs as u64);
            out.push('|');
            push_decimal(&mut out, e.modified.nanos as u64);
            out.push('|');
            out.push_str(e.hash.as_str());
            out.push('\n');
            assert(out@ =~= before + state_line(e@));
        }
        i = i + 1;
    }
    assert(ev.skip(entries@.len() as int) =~= Seq::<EntryView>::empty());
    out
}

/// An entry that the state file keeps exactly: a well-formed time, no
/// `'|'` or `'\n'` in path or digest, and no digest ending in `'\r'`.
pub open spec fn storable(e: EntryView) -> bool {
    &&& e.modified.wf()
    &&& !e.path.contains('|')
    &&& !e.path.contains('\n')
    &&& !e.hash.contains('|')
    &&& !e.hash.contains('\n')
    &&& !(e.hash.len() > 0 && e.hash.last() == '\r')
}

/// Neither part holds `c`, so neither does their concatenation.
proof fn lemma_concat_lacks(a: Seq<char>, b: Seq<char>, c: char)
    requires
        !a.contains(c),
        !b.contains(c),
    ensures
        !(a + b).contains(c),
{
    if (a + b).contains(c) {
        let k = choose|k: int| 0 <= k < (a + b).len() && (a + b)[k] == c;
        if k < a.len() {
            assert(a[k] == c);
        } else {
            assert(b[k - a.len()] == c);
        }
    }
}

/// Decimal digits hold neither `'|'` nor `'\n'`.
proof fn lemma_decimal_lacks(n: nat)
    ensures
        !decimal(n).contains('|'),
        !decimal(n).contains('\n'),
{
    lemma_decimal(n);
    let d = decimal(n);
    if d.contains('|') {
        let k = choose|k: int| 0 <= k < d.len() && d[k] == '|';
        assert(crate::decimal::is_digit(d[k]));
    }
    if d.contains('\n') {
        let k = choose|k: int| 0 <= k < d.len() && d[k] == '\n';
        assert(crate::decimal::is_digit(d[k]));
    }
}

/// A field free of `'|'` followed by a separator splits off first.
proof fn lemma_fields_sep(x: Seq<char>, y: Seq<char>)
    requires
        !x.contains('|'),
    ensures
        fields_of(x + seq!['|'] + y) == seq![x] + fields_of(y),
{
    let s = x + seq!['|'] + y;
    assert forall|k: int| 0 <= k < x.len() implies s[k] != '|' by {
        assert(s[k] == x[k]);
    }
    lemma_first_index_at(s, '|', x.len() as int);
    assert(s.take(x.len() as int) =~= x);
    assert(s.skip(x.len() as int + 1) =~= y);
}

/// The line of a storable entry is one line of the text, and reads back as
/// the entry.
proof fn lemma_line_roundtrip(e: EntryView, rest: Seq<char>)
    requires
        storable(e),
        e.modified.secs >= 0,
    ensures
        lines_of(state_line(e) + rest) == seq![line_body(e)] + lines_of(rest),
        line_record(line_body(e)) == LineRecord::Entry(e),
{
    let ds = decimal(e.size as nat);
    let dt = decimal(e.modified.secs as nat);
    let dn = decimal(e.modified.nanos as nat);
    let bar = seq!['|'];
    lemma_decimal_lacks(e.size as nat);
    lemma_decimal_lacks(e.modified.secs as nat);
    lemma_decimal_lacks(e.modified.nanos as nat);
    let b = line_body(e);
    // no line break inside the body
    assert(!bar.contains('\n')) by {
        if bar.contains('\n') {
            let k = choose|k: int| 0 <= k < bar.len() && bar[k] == '\n';
        }
    }
    lemma_concat_lacks(e.path, bar, '\n');
    lemma_concat_lacks(e.path + bar, ds, '\n');
    lemma_concat_lacks(e.path + bar + ds, bar, '\n');
    lemma_concat_lacks(e.path + bar + ds + bar, dt, '\n');
    lemma_concat_lacks(e.path + bar + ds + bar + dt, bar, '\n');
    lemma_concat_lacks(e.path + bar + ds + bar + dt + bar, dn, '\n');
    lemma_concat_lacks(e.path + bar + ds + bar + dt + bar + dn, bar, '\n');
    lemma_concat_lacks(e.path + bar + ds + bar + dt + bar + dn + bar, e.hash, '\n');
    assert(!b.contains('\n'));
    let s = state_line(e) + rest;
    assert forall|k: int| 0 <= k < b.len() implies s[k] != '\n' by {
        assert(s[k] == b[k]);
    }
    lemma_first_index_at(s, '\n', b.len() as int);
    assert(s.take(b.len() as int) =~= b);
    assert(s.skip(b.len() as int + 1) =~= rest);
    assert(b.last() != '\r') by {
        if e.hash.len() > 0 {
            assert(b.last() == e.hash.last());
        } else {
            assert(b.last() == '|');
        }
    }
    assert(strip_cr(b) == b);
    assert(lines_of(s) == seq![strip_cr(s.take(b.len() as int))] + lines_of(s.skip(b.len() as int + 1)));
    // the five fields
    lemma_fields_sep(e.path, ds + bar + dt + bar + dn + bar + e.hash);
    lemma_fields_sep(ds, dt + bar + dn + bar + e.hash);
    lemma_fields_sep(dt, dn + bar + e.hash);
    lemma_fields_sep(dn, e.hash);
    lemma_first_index_none(e.hash, '|');
    assert(fields_of(e.hash) == seq![e.hash]);
    assert(b =~= e.path + bar + (ds + bar + dt + bar + dn + bar + e.hash));
    assert(ds + bar + dt + bar + dn + bar + e.hash =~= ds + bar + (dt + bar + dn + bar + e.hash));
    assert(dt + bar + dn + bar + e.hash =~= dt + bar + (dn + bar + e.hash));
    let f = fields_of(b);
    assert(f =~= seq![e.path, ds, dt, dn, e.hash]);
    lemma_parse_decimal(e.size as nat, u64::MAX as int);
    lemma_parse_decimal(e.modified.secs as nat, u64::MAX as int);
    lemma_parse_decimal(e.modified.nanos as nat, u32::MAX as int);
    let secs = e.modified.secs as u64;
    let nanos = e.modified.nanos;
    assert(nanos / NANOS_PER_SEC == 0);
    assert(Timestamp::fits(secs, nanos));
    assert(Timestamp::spec_after_epoch(secs, nanos) == e.modified);
}

/// Reading back the state text of a scan gives the scan's entries whose
/// time is not before the epoch, in order, provided that each entry is
/// storable; and the text never holds a time out of range.
pub proof fn lemma_state_roundtrip(es: Seq<EntryView>)
    requires
        forall|i: int| 0 <= i < es.len() ==> storable(#[trigger] es[i]),
    ensures
        state_entries(state_text(es)) == recorded(es),
        state_in_range(state_text(es)),
    decreases es.len(),
{
    if es.len() == 0 {
        assert(lines_of(state_text(es)) =~= Seq::<Seq<char>>::empty());
    } else {
        let tail = es.drop_first();
        assert forall|i: int| 0 <= i < tail.len() implies storable(#[trigger] tail[i]) by {
            assert(tail[i] == es[i + 1]);
        }
        lemma_state_roundtrip(tail);
        let rest = state_text(tail);
        if es[0].modified.secs >= 0 {
            assert(storable(es[0]));
            lemma_line_roundtrip(es[0], rest);
            let ls = lines_of(state_text(es));
            assert(state_text(es) == state_line(es[0]) + rest);
            assert(ls.drop_first() =~= lines_of(rest));
            assert(ls[0] == line_body(es[0]));
        } else {
            assert(state_text(es) =~= rest);
        }
    }
}
/// An entry whose digest is a hexadecimal string, with a well-formed time
/// and a path free of `'|'` and `'\n'`, is storable: the state file keeps
/// every entry that a scan makes from such a path.
pub proof fn lemma_hex_digest_storable(e: EntryView, bytes: Seq<u8>)
    requires
        e.hash == hex_lower_spec(bytes),
        e.modified.wf(),
        !e.path.contains('|'),
        !e.path.contains('\n'),
    ensures
        storable(e),
{
    lemma_hex_lower(bytes);
    let h = e.hash;
    if h.contains('|') {
        let k = choose|k: int| 0 <= k < h.len() && h[k] == '|';
        assert(is_hex_char(h[k]));
    }
    if h.contains('\n') {
        let k = choose|k: int| 0 <= k < h.len() && h[k] == '\n';
        assert(is_hex_char(h[k]));
    }
    if h.len() > 0 {
        assert(is_hex_char(h[h.len() - 1]));
    }
}

} // verus!
