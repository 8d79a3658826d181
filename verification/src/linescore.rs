//! The "linescore" format: one record per line, four fields separated by `|`:
//!
//! ```text
//! label|score|entropy_bits|crack_time
//! ```
//!
//! A literal `\` or `|` (and a line break) inside a field is escaped with a
//! backslash so that the split at `|` stays unambiguous.
use vstd::prelude::*;
use crate::text::{
    all_digits, is_digit, blank, lemma_decimal_value, lemma_bar_not_blank, lemma_lines_split_line, lemma_parse_u8_decimal,
    lines_split, decimal, is_blank, lines, parse_u8, parse_u8_spec, push_char, push_decimal, split_lines,
    string_option_view, string_views,
};
use crate::record::{
    Entropy, EntropyView, Record, RecordView, record_error, record_views, records_result_view,
    valid_record,
};

verus! {

/// How one character of a field is written.
pub open spec fn escape_char(c: char) -> Seq<char> {
    if c == '\\' {
        seq!['\\', '\\']
    } else if c == '|' {
        seq!['\\', '|']
    } else if c == '\n' {
        seq!['\\', 'n']
    } else {
        seq![c]
    }
}

/// A field as it is written: `\`, `|` and line breaks escaped.
pub open spec fn escape_spec(s: Seq<char>) -> Seq<char>
    decreases s.len(),
{
    if s.len() == 0 {
        seq![]
    } else {
        escape_spec(s.drop_last()) + escape_char(s.last())
    }
}

/// Escapes `\`, `|` and line breaks in a field.
pub fn escape(field: &str) -> (r: String)
    ensures
        r@ == escape_spec(field@),
{
    let mut out = String::new();
    for c in it: field.chars()
        invariant
            out@ == escape_spec(it.seq().take(it.index() as int)),
    {
        proof {
            let k = it.index() as int;
            assert(it.seq().take(k + 1).drop_last() =~= it.seq().take(k));
        }
        if c == '\\' {
            push_char(&mut out, '\\');
            push_char(&mut out, '\\');
        } else if c == '|' {
            push_char(&mut out, '\\');
            push_char(&mut out, '|');
        } else if c == '\n' {
            push_char(&mut out, '\\');
            push_char(&mut out, 'n');
        } else {
            push_char(&mut out, c);
        }
        assert(out@ =~= escape_spec(it.seq().take(it.index() as int + 1)));
    }
    assert(field@.take(field@.len() as int) =~= field@);
    out
}

/// The text decoded so far, and whether a backslash is waiting for the
/// character it escapes.
pub open spec fn unescape_run(s: Seq<char>) -> (Seq<char>, bool)
    decreases s.len(),
{
    if s.len() == 0 {
        (seq![], false)
    } else {
        let (o, pending) = unescape_run(s.drop_last());
        let c = s.last();
        if pending {
            (o.push(if c == 'n' { '\n' } else { c }), false)
        } else if c == '\\' {
            (o, true)
        } else {
            (o.push(c), false)
        }
    }
}

/// A field as read back: `\n` is a line break, a backslash followed by any
/// other character is that character, and a lone backslash at the end stays.
pub open spec fn unescape_spec(s: Seq<char>) -> Seq<char> {
    let (o, pending) = unescape_run(s);
    if pending {
        o.push('\\')
    } else {
        o
    }
}

/// Decodes the escapes of a field.
pub fn unescape(field: &str) -> (r: String)
    ensures
        r@ == unescape_spec(field@),
{
    let mut out = String::new();
    let mut pending = false;
    for c in it: field.chars()
        invariant
            (out@, pending) == unescape_run(it.seq().take(it.index() as int)),
    {
        proof {
            let k = it.index() as int;
            assert(it.seq().take(k + 1).drop_last() =~= it.seq().take(k));
        }
        if pending {
            if c == 'n' {
                push_char(&mut out, '\n');
            } else {
                push_char(&mut out, c);
            }
            pending = false;
        } else if c == '\\' {
            pending = true;
        } else {
            push_char(&mut out, c);
        }
    }
    assert(field@.take(field@.len() as int) =~= field@);
    if pending {
        push_char(&mut out, '\\');
    }
    out
}

/// The fields finished so far, the current field, and whether the previous
/// character was an escaping backslash.
pub open spec fn split_run(s: Seq<char>) -> (Seq<Seq<char>>, Seq<char>, bool)
    decreases s.len(),
{
    if s.len() == 0 {
        (seq![], seq![], false)
    } else {
        let (fields, cur, pending) = split_run(s.drop_last());
        let c = s.last();
        if pending {
            (fields, cur.push(c), false)
        } else if c == '\\' {
            (fields, cur.push('\\'), true)
        } else if c == '|' {
            (fields.push(cur), seq![], false)
        } else {
            (fields, cur.push(c), false)
        }
    }
}

/// The fields of a line: split at every `|` that is not escaped; escapes are
/// kept as they are.
pub open spec fn split_unescaped_spec(s: Seq<char>) -> Seq<Seq<char>> {
    let (fields, cur, _) = split_run(s);
    fields.push(cur)
}

/// Splits a line at the `|` characters that are not escaped.
pub fn split_unescaped(line: &str) -> (r: Vec<String>)
    ensures
        string_views(r@) == split_unescaped_spec(line@),
{
    let mut fields: Vec<String> = Vec::new();
    let mut current = String::new();
    let mut pending = false;
    for c in it: line.chars()
        invariant
            (string_views(fields@), current@, pending) == split_run(
                it.seq().take(it.index() as int),
            ),
    {
        proof {
            let k = it.index() as int;
            assert(it.seq().take(k + 1).drop_last() =~= it.seq().take(k));
        }
        if pending {
            push_char(&mut current, c);
            pending = false;
        } else if c == '\\' {
            push_char(&mut current, '\\');
            pending = true;
        } else if c == '|' {
            let ghost before = string_views(fields@);
            fields.push(current);
            current = String::new();
            assert(string_views(fields@) =~= before.push(split_run(
                it.seq().take(it.index() as int),
            ).1));
        } else {
            push_char(&mut current, c);
        }
    }
    assert(line@.take(line@.len() as int) =~= line@);
    fields.push(current);
    assert(string_views(fields@) =~= split_unescaped_spec(line@));
    fields
}

/// A non-blank line whose fields were read: its number (counting from 1,
/// blank lines included), its label and crack time unescaped, its score,
/// and its entropy field as written.
pub struct ScannedLine {
    pub line: usize,
    pub label: String,
    pub score: u8,
    pub entropy_text: String,
    pub crack_time: String,
}

/// The contents of a [`ScannedLine`].
pub struct ScannedLineView {
    pub line: nat,
    pub label: Seq<char>,
    pub score: u8,
    pub entropy_text: Seq<char>,
    pub crack_time: Seq<char>,
}

impl View for ScannedLine {
    type V = ScannedLineView;

    open spec fn view(&self) -> ScannedLineView {
        ScannedLineView {
            line: self.line as nat,
            label: self.label@,
            score: self.score,
            entropy_text: self.entropy_text@,
            crack_time: self.crack_time@,
        }
    }
}

/// The lines of an input read up to the first one whose fields cannot be
/// read, and the message for that one if there is one.
pub struct LineScan {
    pub lines: Vec<ScannedLine>,
    pub failure: Option<String>,
}

/// The contents of a [`LineScan`].
pub struct LineScanView {
    pub lines: Seq<ScannedLineView>,
    pub failure: Option<Seq<char>>,
}

/// The contents of a sequence of scanned lines.
pub open spec fn scanned_views(v: Seq<ScannedLine>) -> Seq<ScannedLineView> {
    v.map_values(|l: ScannedLine| l@)
}

impl View for LineScan {
    type V = LineScanView;

    open spec fn view(&self) -> LineScanView {
        LineScanView {
            lines: scanned_views(self.lines@),
            failure: string_option_view(self.failure),
        }
    }
}

/// What reading one line gives.
pub enum LineOutcome {
    Blank,
    Fields(ScannedLineView),
    Fail(Seq<char>),
}

/// The prefix of every message about line `no`.
pub open spec fn line_prefix(no: nat) -> Seq<char> {
    "line "@ + decimal(no) + ": "@
}

/// Reading line number `no`: a blank line is skipped; otherwise it must have
/// four fields and a score that `u8::from_str` accepts.
pub open spec fn scan_line(no: nat, line: Seq<char>) -> LineOutcome {
    if is_blank(line) {
        LineOutcome::Blank
    } else {
        let fields = split_unescaped_spec(line);
        if fields.len() != 4 {
            LineOutcome::Fail(
                line_prefix(no) + "expected 4 fields, found "@ + decimal(fields.len()),
            )
        } else {
            match parse_u8_spec(fields[1]) {
                None => LineOutcome::Fail(line_prefix(no) + "invalid score '"@ + fields[1] + "'"@),
                Some(score) => LineOutcome::Fields(
                    ScannedLineView {
                        line: no,
                        label: unescape_spec(fields[0]),
                        score,
                        entropy_text: fields[2],
                        crack_time: unescape_spec(fields[3]),
                    },
                ),
            }
        }
    }
}

/// Reading the lines from index `k` on, after `acc` was read from those before.
pub open spec fn scan_from(ls: Seq<Seq<char>>, k: int, acc: Seq<ScannedLineView>) -> LineScanView
    decreases ls.len() - k,
{
    if k < 0 || k >= ls.len() {
        LineScanView { lines: acc, failure: None }
    } else {
        match scan_line((k + 1) as nat, ls[k]) {
            LineOutcome::Blank => scan_from(ls, k + 1, acc),
            LineOutcome::Fields(l) => scan_from(ls, k + 1, acc.push(l)),
            LineOutcome::Fail(m) => LineScanView { lines: acc, failure: Some(m) },
        }
    }
}

/// Reading all lines of an input.
pub open spec fn scan_spec(input: Seq<char>) -> LineScanView {
    scan_from(lines(input), 0, seq![])
}

/// Reads the lines of an input up to the first whose fields cannot be read.
/// The entropy fields are returned as written: turning them into numbers is
/// floating-point work that the caller does before calling [`parse`].
pub fn scan(input: &str) -> (r: LineScan)
    ensures
        r@ == scan_spec(input@),
{
    let ls = split_lines(input);
    let ghost all = string_views(ls@);
    let mut out: Vec<ScannedLine> = Vec::new();
    assert(scanned_views(out@) =~= seq![]);
    let mut k: usize = 0;
    while k < ls.len()
        invariant
            k <= ls.len(),
            all == string_views(ls@),
            all == lines(input@),
            scan_from(all, k as int, scanned_views(out@)) == scan_spec(input@),
        decreases ls.len() - k,
    {
        let line = ls[k].as_str();
        assert(line@ == all[k as int]);
        if !blank(line) {
            let fields = split_unescaped(line);
            let ghost fs = string_views(fields@);
            assert(fs.len() == fields.len());
            if fields.len() != 4 {
                let mut m = String::new();
                m.append("line ");
                push_decimal(&mut m, k + 1);
                m.append(": ");
                m.append("expected 4 fields, found ");
                push_decimal(&mut m, fields.len());
                return LineScan { lines: out, failure: Some(m) };
            }
            assert(fs[1] == fields@[1]@);
            match parse_u8(fields[1].as_str()) {
                None => {
                    let mut m = String::new();
                    m.append("line ");
                    push_decimal(&mut m, k + 1);
                    m.append(": ");
                    m.append("invalid score '");
                    m.append(fields[1].as_str());
                    m.append("'");
                    return LineScan { lines: out, failure: Some(m) };
                },
                Some(score) => {
                    assert(fs[0] == fields@[0]@ && fs[2] == fields@[2]@ && fs[3] == fields@[3]@);
                    let scanned = ScannedLine {
                        line: k + 1,
                        label: unescape(fields[0].as_str()),
                        score,
                        entropy_text: fields[2].clone(),
                        crack_time: unescape(fields[3].as_str()),
                    };
                    let ghost before = scanned_views(out@);
                    out.push(scanned);
                    assert(scanned_views(out@) =~= before.push(scanned@));
                },
            }
        }
        k = k + 1;
    }
    LineScan { lines: out, failure: None }
}

/// The entropies handed to [`parse`], by their contents.
pub open spec fn entropy_options(v: Seq<Option<Entropy>>) -> Seq<Option<EntropyView>> {
    v.map_values(
        |o: Option<Entropy>|
            match o {
                Some(e) => Some(e@),
                None => None,
            },
    )
}

/// Building the records of the scanned lines from index `k` on, after `acc`
/// was built from those before. `values[k]` is the number that the entropy
/// field of line `k` denotes, or `None` when it is not a number.
pub open spec fn resolve_lines(
    ls: Seq<ScannedLineView>,
    values: Seq<Option<EntropyView>>,
    failure: Option<Seq<char>>,
    k: int,
    acc: Seq<RecordView>,
) -> Result<Seq<RecordView>, Seq<char>>
    decreases ls.len() - k,
{
    if k < 0 || k >= ls.len() {
        match failure {
            Some(m) => Err(m),
            None => Ok(acc),
        }
    } else {
        let l = ls[k];
        match values[k] {
            None => Err(line_prefix(l.line) + "invalid entropy '"@ + l.entropy_text + "'"@),
            Some(e) => match record_error(l.label, l.score, e) {
                Some(m) => Err(line_prefix(l.line) + m),
                None => resolve_lines(
                    ls,
                    values,
                    failure,
                    k + 1,
                    acc.push(
                        RecordView {
                            label: l.label,
                            score: l.score,
                            entropy_bits: e,
                            crack_time: l.crack_time,
                        },
                    ),
                ),
            },
        }
    }
}

/// What [`parse`] gives for a scan and the numbers of its entropy fields.
pub open spec fn parse_spec(scan: LineScanView, values: Seq<Option<EntropyView>>) -> Result<
    Seq<RecordView>,
    Seq<char>,
> {
    resolve_lines(scan.lines, values, scan.failure, 0, seq![])
}

/// Builds the records of a scanned input. `entropies[k]` is the number that
/// the entropy field of `scan.lines[k]` denotes, or `None` where that field
/// is not a number. The first problem met, line by line, is reported: an
/// entropy that is not a number, then a score above 4, then an entropy out
/// of range; after the last scanned line, the failure of the scan if any.
pub fn parse(scan: &LineScan, entropies: &[Option<Entropy>]) -> (r: Result<Vec<Record>, String>)
    requires
        entropies@.len() == scan.lines@.len(),
    ensures
        records_result_view(r) == parse_spec(scan@, entropy_options(entropies@)),
        r matches Ok(v) ==> forall|i: int| 0 <= i < v@.len() ==> #[trigger] v@[i].score <= 4
            && v@[i].entropy_bits.in_range,
{
    let ghost ls = scan@.lines;
    let ghost vals = entropy_options(entropies@);
    let mut out: Vec<Record> = Vec::new();
    assert(record_views(out@) =~= seq![]);
    let mut k: usize = 0;
    while k < scan.lines.len()
        invariant
            k <= scan.lines@.len(),
            entropies@.len() == scan.lines@.len(),
            ls == scan@.lines,
            vals == entropy_options(entropies@),
            resolve_lines(ls, vals, scan@.failure, k as int, record_views(out@)) == parse_spec(
                scan@,
                vals,
            ),
            forall|i: int| 0 <= i < out@.len() ==> #[trigger] out@[i].score <= 4
                && out@[i].entropy_bits.in_range,
        decreases scan.lines@.len() - k,
    {
        let l = &scan.lines[k];
        assert(ls[k as int] == l@);
        match &entropies[k] {
            None => {
                let mut m = String::new();
                m.append("line ");
                push_decimal(&mut m, l.line);
                m.append(": ");
                m.append("invalid entropy '");
                m.append(l.entropy_text.as_str());
                m.append("'");
                return Err(m);
            },
            Some(e) => {
                assert(vals[k as int] == Some(e@));
                match Record::new(l.label.clone(), l.score, e.duplicate(), l.crack_time.clone()) {
                    Err(msg) => {
                        let mut m = String::new();
                        m.append("line ");
                        push_decimal(&mut m, l.line);
                        m.append(": ");
                        m.append(msg.as_str());
                        return Err(m);
                    },
                    Ok(rec) => {
                        let ghost before = record_views(out@);
                        out.push(rec);
                        assert(record_views(out@) =~= before.push(rec@));
                    },
                }
            },
        }
        k = k + 1;
    }
    match &scan.failure {
        Some(m) => Err(m.clone()),
        None => Ok(out),
    }
}

/// One record as a line, without the line break.
pub open spec fn line_text(r: RecordView) -> Seq<char> {
    escape_spec(r.label) + seq!['|'] + decimal(r.score as nat) + seq!['|'] + r.entropy_bits.fixed
        + seq!['|'] + escape_spec(r.crack_time)
}

/// One record as a line.
pub open spec fn write_line(r: RecordView) -> Seq<char> {
    line_text(r) + seq!['\n']
}

/// Records as linescore text, one line each, in order.
pub open spec fn write_spec(rs: Seq<RecordView>) -> Seq<char>
    decreases rs.len(),
{
    if rs.len() == 0 {
        seq![]
    } else {
        write_spec(rs.drop_last()) + write_line(rs.last())
    }
}

/// Writes records in the linescore format, the entropy with two decimals.
pub fn write(records: &[Record]) -> (r: String)
    ensures
        r@ == write_spec(record_views(records@)),
{
    let mut out = String::new();
    let mut k: usize = 0;
    while k < records.len()
        invariant
            k <= records@.len(),
            out@ == write_spec(record_views(records@).take(k as int)),
        decreases records@.len() - k,
    {
        let r = &records[k];
        let label = escape(r.label.as_str());
        let crack = escape(r.crack_time.as_str());
        out.append(label.as_str());
        push_char(&mut out, '|');
        push_decimal(&mut out, r.score as usize);
        push_char(&mut out, '|');
        out.append(r.entropy_bits.fixed.as_str());
        push_char(&mut out, '|');
        out.append(crack.as_str());
        push_char(&mut out, '\n');
        proof {
            let rv = record_views(records@);
            assert(rv.take(k + 1).drop_last() =~= rv.take(k as int));
            assert(rv[k as int] == r@);
        }
        assert(out@ =~= write_spec(record_views(records@).take(k + 1)));
        k = k + 1;
    }
    assert(record_views(records@).take(records@.len() as int) =~= record_views(records@));
    out
}

/// One step of [`unescape_run`].
pub open spec fn unescape_step(st: (Seq<char>, bool), c: char) -> (Seq<char>, bool) {
    let (o, pending) = st;
    if pending {
        (o.push(if c == 'n' { '\n' } else { c }), false)
    } else if c == '\\' {
        (o, true)
    } else {
        (o.push(c), false)
    }
}

proof fn lemma_unescape_run_push(a: Seq<char>, c: char)
    ensures
        unescape_run(a.push(c)) == unescape_step(unescape_run(a), c),
{
    assert(a.push(c).drop_last() =~= a);
}

proof fn lemma_unescape_run_escaped(s: Seq<char>)
    ensures
        unescape_run(escape_spec(s)) == (s, false),
    decreases s.len(),
{
    if s.len() == 0 {
        assert(escape_spec(s) =~= Seq::<char>::empty());
    } else {
        let p = s.drop_last();
        let c = s.last();
        lemma_unescape_run_escaped(p);
        let e = escape_spec(p);
        if c == '\\' || c == '|' || c == '\n' {
            let second = if c == '\\' { '\\' } else if c == '|' { '|' } else { 'n' };
            assert(escape_spec(s) =~= e.push('\\').push(second));
            lemma_unescape_run_push(e, '\\');
            lemma_unescape_run_push(e.push('\\'), second);
        } else {
            assert(escape_spec(s) =~= e.push(c));
            lemma_unescape_run_push(e, c);
        }
        assert(p.push(c) =~= s);
    }
}

/// Reading back a written field gives the field: `unescape` undoes `escape`.
pub proof fn law_unescape_escape(s: Seq<char>)
    ensures
        unescape_spec(escape_spec(s)) == s,
{
    lemma_unescape_run_escaped(s);
}

/// One step of [`split_run`].
pub open spec fn split_step(st: (Seq<Seq<char>>, Seq<char>, bool), c: char) -> (
    Seq<Seq<char>>,
    Seq<char>,
    bool,
) {
    let (fields, cur, pending) = st;
    if pending {
        (fields, cur.push(c), false)
    } else if c == '\\' {
        (fields, cur.push('\\'), true)
    } else if c == '|' {
        (fields.push(cur), seq![], false)
    } else {
        (fields, cur.push(c), false)
    }
}

proof fn lemma_split_run_push(a: Seq<char>, c: char)
    ensures
        split_run(a.push(c)) == split_step(split_run(a), c),
{
    assert(a.push(c).drop_last() =~= a);
}

/// A text with no backslash, bar or line break: written as it is.
pub open spec fn is_plain(t: Seq<char>) -> bool {
    forall|i: int| 0 <= i < t.len() ==> #[trigger] t[i] != '\\' && t[i] != '|' && t[i] != '\n'
}

proof fn lemma_split_plain(a: Seq<char>, t: Seq<char>)
    requires
        split_run(a).2 == false,
        is_plain(t),
    ensures
        split_run(a + t) == (split_run(a).0, split_run(a).1 + t, false),
    decreases t.len(),
{
    if t.len() == 0 {
        assert(a + t =~= a);
        assert(split_run(a).1 + t =~= split_run(a).1);
    } else {
        let p = t.drop_last();
        assert(is_plain(p)) by {
            assert forall|i: int| 0 <= i < p.len() implies #[trigger] p[i] != '\\' && p[i] != '|'
                && p[i] != '\n' by {
                assert(p[i] == t[i]);
            }
        }
        lemma_split_plain(a, p);
        assert(a + t =~= (a + p).push(t.last()));
        lemma_split_run_push(a + p, t.last());
        assert(t[t.len() - 1] != '\\' && t[t.len() - 1] != '|');
        assert((split_run(a).1 + p).push(t.last()) =~= split_run(a).1 + t);
    }
}

proof fn lemma_split_escaped(a: Seq<char>, s: Seq<char>)
    requires
        split_run(a).2 == false,
    ensures
        split_run(a + escape_spec(s)) == (split_run(a).0, split_run(a).1 + escape_spec(s), false),
    decreases s.len(),
{
    if s.len() == 0 {
        assert(escape_spec(s) =~= Seq::<char>::empty());
        assert(a + escape_spec(s) =~= a);
        assert(split_run(a).1 + escape_spec(s) =~= split_run(a).1);
    } else {
        let p = s.drop_last();
        let c = s.last();
        lemma_split_escaped(a, p);
        let e = escape_spec(p);
        let cur = split_run(a).1 + e;
        if c == '\\' || c == '|' || c == '\n' {
            let second = if c == '\\' { '\\' } else if c == '|' { '|' } else { 'n' };
            assert(a + escape_spec(s) =~= (a + e).push('\\').push(second));
            lemma_split_run_push(a + e, '\\');
            lemma_split_run_push((a + e).push('\\'), second);
            assert(cur.push('\\').push(second) =~= split_run(a).1 + escape_spec(s));
        } else {
            assert(a + escape_spec(s) =~= (a + e).push(c));
            lemma_split_run_push(a + e, c);
            assert(cur.push(c) =~= split_run(a).1 + escape_spec(s));
        }
    }
}

proof fn lemma_split_bar(a: Seq<char>)
    requires
        split_run(a).2 == false,
    ensures
        split_run(a + seq!['|']) == (split_run(a).0.push(split_run(a).1), Seq::<char>::empty(), false),
{
    assert(a + seq!['|'] =~= a.push('|'));
    lemma_split_run_push(a, '|');
}

proof fn lemma_digits_plain(t: Seq<char>)
    requires
        all_digits(t),
    ensures
        is_plain(t),
{
    assert forall|i: int| 0 <= i < t.len() implies #[trigger] t[i] != '\\' && t[i] != '|' && t[i]
        != '\n' by {
        assert(is_digit(t[i]));
    }
}

/// Splitting a written line gives back its four fields as written.
pub proof fn law_split_written_line(r: RecordView)
    requires
        is_plain(r.entropy_bits.fixed),
    ensures
        split_unescaped_spec(line_text(r)) == seq![
            escape_spec(r.label),
            decimal(r.score as nat),
            r.entropy_bits.fixed,
            escape_spec(r.crack_time),
        ],
{
    let e0 = escape_spec(r.label);
    let d = decimal(r.score as nat);
    let f = r.entropy_bits.fixed;
    let e3 = escape_spec(r.crack_time);
    let empty = Seq::<char>::empty();
    lemma_decimal_value(r.score as nat);
    lemma_digits_plain(d);
    assert(split_run(empty) == (Seq::<Seq<char>>::empty(), empty, false));
    lemma_split_escaped(empty, r.label);
    assert(empty + e0 =~= e0);
    assert(empty + e0 =~= e0);
    lemma_split_bar(e0);
    let a1 = e0 + seq!['|'];
    lemma_split_plain(a1, d);
    assert(empty + d =~= d);
    lemma_split_bar(a1 + d);
    let a2 = a1 + d + seq!['|'];
    lemma_split_plain(a2, f);
    lemma_split_bar(a2 + f);
    let a3 = a2 + f + seq!['|'];
    lemma_split_escaped(a3, r.crack_time);
    assert(line_text(r) =~= a3 + e3);
    assert(split_unescaped_spec(line_text(r)) =~= seq![e0, d, f, e3]);
}

/// Fields written one after the other, each escaped, separated by `|`.
pub open spec fn join_escaped(xs: Seq<Seq<char>>) -> Seq<char>
    decreases xs.len(),
{
    if xs.len() <= 1 {
        if xs.len() == 1 {
            escape_spec(xs[0])
        } else {
            seq![]
        }
    } else {
        join_escaped(xs.drop_last()) + seq!['|'] + escape_spec(xs.last())
    }
}

proof fn lemma_split_run_joined(xs: Seq<Seq<char>>)
    requires
        xs.len() >= 1,
    ensures
        split_run(join_escaped(xs)) == (
            xs.drop_last().map_values(|x: Seq<char>| escape_spec(x)),
            escape_spec(xs.last()),
            false,
        ),
    decreases xs.len(),
{
    let empty = Seq::<char>::empty();
    if xs.len() == 1 {
        assert(split_run(empty) == (Seq::<Seq<char>>::empty(), empty, false));
        lemma_split_escaped(empty, xs[0]);
        assert(empty + escape_spec(xs[0]) =~= escape_spec(xs[0]));
        assert(xs.drop_last().map_values(|x: Seq<char>| escape_spec(x)) =~= Seq::<
            Seq<char>,
        >::empty());
    } else {
        let p = xs.drop_last();
        lemma_split_run_joined(p);
        let a = join_escaped(p);
        lemma_split_bar(a);
        assert(split_run(a).1 + empty =~= split_run(a).1);
        lemma_split_escaped(a + seq!['|'], xs.last());
        assert(split_run(a + seq!['|']).1 + escape_spec(xs.last()) =~= escape_spec(xs.last()));
        assert(p.drop_last().map_values(|x: Seq<char>| escape_spec(x)).push(escape_spec(p.last()))
            =~= p.map_values(|x: Seq<char>| escape_spec(x)));
    }
}

/// Splitting fields written escaped and joined by `|` gives the written
/// fields back, and unescaping each gives the fields.
pub proof fn law_split_joined(xs: Seq<Seq<char>>)
    requires
        xs.len() >= 1,
    ensures
        split_unescaped_spec(join_escaped(xs)) == xs.map_values(|x: Seq<char>| escape_spec(x)),
        split_unescaped_spec(join_escaped(xs)).map_values(|f: Seq<char>| unescape_spec(f)) == xs,
{
    lemma_split_run_joined(xs);
    let fs = xs.map_values(|x: Seq<char>| escape_spec(x));
    assert(xs.drop_last().map_values(|x: Seq<char>| escape_spec(x)).push(escape_spec(xs.last()))
        =~= fs);
    let back = fs.map_values(|f: Seq<char>| unescape_spec(f));
    assert forall|i: int| 0 <= i < xs.len() implies #[trigger] back[i] == xs[i] by {
        law_unescape_escape(xs[i]);
    }
    assert(back =~= xs);
}

/// A text without line breaks.
pub open spec fn no_break(t: Seq<char>) -> bool {
    forall|i: int| 0 <= i < t.len() ==> #[trigger] t[i] != '\n'
}

proof fn lemma_no_break_concat(a: Seq<char>, b: Seq<char>)
    requires
        no_break(a),
        no_break(b),
    ensures
        no_break(a + b),
{
    assert forall|i: int| 0 <= i < (a + b).len() implies #[trigger] (a + b)[i] != '\n' by {
        if i < a.len() {
            assert((a + b)[i] == a[i]);
        } else {
            assert((a + b)[i] == b[i - a.len()]);
        }
    }
}

proof fn lemma_escape_shape(s: Seq<char>)
    ensures
        no_break(escape_spec(s)),
        s.len() == 0 ==> escape_spec(s).len() == 0,
        s.len() > 0 ==> escape_spec(s).len() > 0 && (s.last() != '\r' ==> escape_spec(s).last()
            != '\r'),
    decreases s.len(),
{
    if s.len() > 0 {
        lemma_escape_shape(s.drop_last());
        let c = s.last();
        assert(no_break(escape_char(c)));
        lemma_no_break_concat(escape_spec(s.drop_last()), escape_char(c));
    }
}

/// A record that the linescore writer writes in a form that reads back:
/// its two-decimal entropy holds no backslash, bar or line break, and its
/// crack time does not end with a carriage return (which `str::lines`
/// would take as part of the line break).
pub open spec fn writable(r: RecordView) -> bool {
    &&& is_plain(r.entropy_bits.fixed)
    &&& !(r.crack_time.len() > 0 && r.crack_time.last() == '\r')
}

proof fn lemma_line_text_shape(r: RecordView)
    requires
        writable(r),
    ensures
        no_break(line_text(r)),
        !(line_text(r).len() > 0 && line_text(r).last() == '\r'),
        line_text(r)[escape_spec(r.label).len() as int] == '|',
        escape_spec(r.label).len() < line_text(r).len(),
{
    let e0 = escape_spec(r.label);
    let d = decimal(r.score as nat);
    let f = r.entropy_bits.fixed;
    let e3 = escape_spec(r.crack_time);
    lemma_escape_shape(r.label);
    lemma_escape_shape(r.crack_time);
    lemma_decimal_value(r.score as nat);
    lemma_digits_plain(d);
    let bar = seq!['|'];
    assert(no_break(bar));
    assert(no_break(d));
    assert(no_break(f));
    lemma_no_break_concat(e0, bar);
    lemma_no_break_concat(e0 + bar, d);
    lemma_no_break_concat(e0 + bar + d, bar);
    lemma_no_break_concat(e0 + bar + d + bar, f);
    lemma_no_break_concat(e0 + bar + d + bar + f, bar);
    lemma_no_break_concat(e0 + bar + d + bar + f + bar, e3);
    let t = line_text(r);
    assert(t =~= e0 + bar + d + bar + f + bar + e3);
    if e3.len() > 0 {
        assert(t.last() == e3.last());
    } else {
        assert(t.last() == '|');
    }
}

/// The lines of a written text are the records' line texts.
proof fn lemma_lines_written(rs: Seq<RecordView>)
    requires
        forall|i: int| 0 <= i < rs.len() ==> writable(#[trigger] rs[i]),
    ensures
        lines_split(write_spec(rs)) == (rs.map_values(|r: RecordView| line_text(r)), Seq::<
            char,
        >::empty()),
    decreases rs.len(),
{
    if rs.len() == 0 {
        assert(rs.map_values(|r: RecordView| line_text(r)) =~= Seq::<Seq<char>>::empty());
    } else {
        let p = rs.drop_last();
        assert forall|i: int| 0 <= i < p.len() implies writable(#[trigger] p[i]) by {
            assert(p[i] == rs[i]);
        }
        lemma_lines_written(p);
        let r = rs.last();
        assert(writable(rs[rs.len() - 1]));
        lemma_line_text_shape(r);
        lemma_lines_split_line(write_spec(p), line_text(r));
        assert(write_spec(rs) =~= write_spec(p) + line_text(r) + seq!['\n']);
        assert(p.map_values(|r: RecordView| line_text(r)).push(line_text(r)) =~= rs.map_values(
            |r: RecordView| line_text(r),
        ));
    }
}

/// What reading back a written record gives, on line `no`.
pub open spec fn scanned_record(no: nat, r: RecordView) -> ScannedLineView {
    ScannedLineView {
        line: no,
        label: r.label,
        score: r.score,
        entropy_text: r.entropy_bits.fixed,
        crack_time: r.crack_time,
    }
}

/// What reading back written records gives.
pub open spec fn scanned_records(rs: Seq<RecordView>) -> Seq<ScannedLineView> {
    Seq::new(rs.len(), |i: int| scanned_record((i + 1) as nat, rs[i]))
}

proof fn lemma_scan_line_written(no: nat, r: RecordView)
    requires
        writable(r),
    ensures
        scan_line(no, line_text(r)) == LineOutcome::Fields(scanned_record(no, r)),
{
    lemma_line_text_shape(r);
    lemma_bar_not_blank(line_text(r), escape_spec(r.label).len() as int);
    law_split_written_line(r);
    lemma_parse_u8_decimal(r.score);
    law_unescape_escape(r.label);
    law_unescape_escape(r.crack_time);
}

proof fn lemma_scan_from_written(rs: Seq<RecordView>, k: int)
    requires
        0 <= k <= rs.len(),
        forall|i: int| 0 <= i < rs.len() ==> writable(#[trigger] rs[i]),
    ensures
        scan_from(
            rs.map_values(|r: RecordView| line_text(r)),
            k,
            scanned_records(rs).take(k),
        ) == (LineScanView { lines: scanned_records(rs), failure: None }),
    decreases rs.len() - k,
{
    let ls = rs.map_values(|r: RecordView| line_text(r));
    if k == rs.len() {
        assert(scanned_records(rs).take(k) =~= scanned_records(rs));
    } else {
        assert(writable(rs[k]));
        lemma_scan_line_written((k + 1) as nat, rs[k]);
        assert(ls[k] == line_text(rs[k]));
        assert(scanned_records(rs).take(k).push(scanned_record((k + 1) as nat, rs[k]))
            =~= scanned_records(rs).take(k + 1));
        lemma_scan_from_written(rs, k + 1);
    }
}

/// Reading written records back gives, line by line, their labels, scores
/// and crack times, and their entropies as written, with no failure.
pub proof fn law_scan_written(rs: Seq<RecordView>)
    requires
        forall|i: int| 0 <= i < rs.len() ==> writable(#[trigger] rs[i]),
    ensures
        scan_spec(write_spec(rs)) == (LineScanView { lines: scanned_records(rs), failure: None }),
{
    lemma_lines_written(rs);
    lemma_scan_from_written(rs, 0);
    assert(scanned_records(rs).take(0) =~= Seq::<ScannedLineView>::empty());
}

proof fn lemma_resolve_written(rs: Seq<RecordView>, k: int)
    requires
        0 <= k <= rs.len(),
        forall|i: int| 0 <= i < rs.len() ==> valid_record(#[trigger] rs[i]),
    ensures
        resolve_lines(
            scanned_records(rs),
            rs.map_values(|r: RecordView| Some(r.entropy_bits)),
            None,
            k,
            rs.take(k),
        ) == Ok::<Seq<RecordView>, Seq<char>>(rs),
    decreases rs.len() - k,
{
    if k == rs.len() {
        assert(rs.take(k) =~= rs);
    } else {
        assert(valid_record(rs[k]));
        assert(rs.take(k).push(rs[k]) =~= rs.take(k + 1));
        lemma_resolve_written(rs, k + 1);
    }
}

/// Writing valid records and reading them back gives the same records,
/// provided each entropy field reads back as the entropy that was written.
pub proof fn law_round_trip(rs: Seq<RecordView>)
    requires
        forall|i: int| 0 <= i < rs.len() ==> writable(#[trigger] rs[i]),
        forall|i: int| 0 <= i < rs.len() ==> valid_record(#[trigger] rs[i]),
    ensures
        parse_spec(
            scan_spec(write_spec(rs)),
            rs.map_values(|r: RecordView| Some(r.entropy_bits)),
        ) == Ok::<Seq<RecordView>, Seq<char>>(rs),
{
    law_scan_written(rs);
    lemma_resolve_written(rs, 0);
    assert(rs.take(0) =~= Seq::<RecordView>::empty());
}

/// A field with no backslash, bar or line break is written unchanged: the
/// writer escapes those three characters and nothing else.
pub proof fn law_escape_plain(t: Seq<char>)
    requires
        is_plain(t),
    ensures
        escape_spec(t) == t,
    decreases t.len(),
{
    if t.len() > 0 {
        let p = t.drop_last();
        assert(is_plain(p)) by {
            assert forall|i: int| 0 <= i < p.len() implies #[trigger] p[i] != '\\' && p[i] != '|'
                && p[i] != '\n' by {
                assert(p[i] == t[i]);
            }
        }
        law_escape_plain(p);
        assert(t[t.len() - 1] != '\\' && t[t.len() - 1] != '|' && t[t.len() - 1] != '\n');
        assert(p.push(t.last()) =~= t);
    }
}

/// A record whose label and crack time hold no backslash, bar or line break
/// is written as the plain line `label|score|entropy|crack_time`.
pub proof fn law_write_plain_line(r: RecordView)
    requires
        is_plain(r.label),
        is_plain(r.crack_time),
    ensures
        write_line(r) == r.label + seq!['|'] + decimal(r.score as nat) + seq!['|']
            + r.entropy_bits.fixed + seq!['|'] + r.crack_time + seq!['\n'],
{
    law_escape_plain(r.label);
    law_escape_plain(r.crack_time);
}

proof fn lemma_escape_concat(a: Seq<char>, b: Seq<char>)
    ensures
        escape_spec(a + b) == escape_spec(a) + escape_spec(b),
    decreases b.len(),
{
    if b.len() == 0 {
        assert(a + b =~= a);
        assert(escape_spec(a) + escape_spec(b) =~= escape_spec(a));
    } else {
        lemma_escape_concat(a, b.drop_last());
        assert((a + b).drop_last() =~= a + b.drop_last());
        assert((a + b).last() == b.last());
        assert(escape_spec(a + b.drop_last()) + escape_char(b.last()) =~= escape_spec(a) + (
        escape_spec(b.drop_last()) + escape_char(b.last())));
    }
}

/// The linescore writer writes a backslash, a bar and a line break as `\\`,
/// `\|` and `\n`, wherever they stand in a field.
pub proof fn law_escape_special(a: Seq<char>, c: char, b: Seq<char>, x: char)
    requires
        (c == '\\' && x == '\\') || (c == '|' && x == '|') || (c == '\n' && x == 'n'),
    ensures
        escape_spec(a + seq![c] + b) == escape_spec(a) + seq!['\\', x] + escape_spec(b),
{
    lemma_escape_concat(a + seq![c], b);
    lemma_escape_concat(a, seq![c]);
    assert(seq![c].drop_last() =~= Seq::<char>::empty());
    assert(escape_spec(seq![c]) =~= seq!['\\', x]) by {
        assert(escape_spec(Seq::<char>::empty()) =~= Seq::<char>::empty());
        assert(escape_spec(seq![c]) =~= escape_spec(Seq::<char>::empty()) + escape_char(c));
    }
    assert(a + seq![c] + b =~= (a + seq![c]) + b);
}

proof fn lemma_unescape_run_concat(p: Seq<char>, b: Seq<char>)
    requires
        unescape_run(p).1 == false,
    ensures
        unescape_run(p + b) == (unescape_run(p).0 + unescape_run(b).0, unescape_run(b).1),
    decreases b.len(),
{
    if b.len() == 0 {
        assert(p + b =~= p);
        assert(unescape_run(p).0 + Seq::<char>::empty() =~= unescape_run(p).0);
    } else {
        lemma_unescape_run_concat(p, b.drop_last());
        assert((p + b).drop_last() =~= p + b.drop_last());
        assert((p + b).last() == b.last());
        let o = unescape_run(p).0;
        let ob = unescape_run(b.drop_last()).0;
        let c = b.last();
        assert((o + ob).push(if c == 'n' { '\n' } else { c }) =~= o + ob.push(
            if c == 'n' { '\n' } else { c },
        ));
        assert((o + ob).push(c) =~= o + ob.push(c));
    }
}

/// Reading a field back, from the front: a character other than a backslash
/// stands for itself; a backslash and `n` stand for a line break; a backslash
/// and any other character stand for that character; and a backslash at the
/// very end stays a backslash.
pub proof fn law_unescape_front(c: char, d: char, b: Seq<char>)
    ensures
        c != '\\' ==> unescape_spec(seq![c] + b) == seq![c] + unescape_spec(b),
        unescape_spec(seq!['\\', d] + b) == seq![if d == 'n' { '\n' } else { d }] + unescape_spec(b),
        unescape_spec(seq!['\\']) == seq!['\\'],
{
    let one = seq![c];
    assert(one.drop_last() =~= Seq::<char>::empty());
    if c != '\\' {
        assert(unescape_run(one) == (seq![c], false)) by {
            assert(unescape_run(Seq::<char>::empty()).1 == false);
            assert(unescape_run(Seq::<char>::empty()).0 =~= Seq::<char>::empty());
            assert(one.last() == c);
            assert(unescape_run(one).0 =~= Seq::<char>::empty().push(c));
            assert(Seq::<char>::empty().push(c) =~= seq![c]);
        }
        lemma_unescape_run_concat(one, b);
        assert(unescape_run(one).0 + unescape_run(b).0.push('\\') =~= (unescape_run(one).0
            + unescape_run(b).0).push('\\'));
    }
    let two = seq!['\\', d];
    let dd = if d == 'n' { '\n' } else { d };
    assert(two.drop_last() =~= seq!['\\']);
    assert(seq!['\\'].drop_last() =~= Seq::<char>::empty());
    assert(unescape_run(seq!['\\']) == (Seq::<char>::empty(), true)) by {
        assert(unescape_run(Seq::<char>::empty()).1 == false);
        assert(unescape_run(Seq::<char>::empty()).0 =~= Seq::<char>::empty());
        assert(seq!['\\'].last() == '\\');
    }
    assert(unescape_run(two) == (seq![dd], false)) by {
        assert(Seq::<char>::empty().push(dd) =~= seq![dd]);
    }
    lemma_unescape_run_concat(two, b);
    assert(seq![dd] + unescape_run(b).0.push('\\') =~= (seq![dd] + unescape_run(b).0).push('\\'));
    assert(Seq::<char>::empty().push('\\') =~= seq!['\\']);
}

} // verus!
