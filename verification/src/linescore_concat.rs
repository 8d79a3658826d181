//! Reading two linescore texts one after the other.
use vstd::prelude::*;
use crate::text::{lines, lines_split, strip_cr};
use crate::record::{EntropyView, RecordView, record_error};
use crate::linescore::{
    LineOutcome, LineScanView, ScannedLineView, parse_spec, resolve_lines, scan_from, scan_line,
    scan_spec,
};

verus! {

proof fn lemma_lines_split_concat(a: Seq<char>, b: Seq<char>)
    requires
        lines_split(a).1.len() == 0,
    ensures
        lines_split(a + b) == (lines_split(a).0 + lines_split(b).0, lines_split(b).1),
    decreases b.len(),
{
    if b.len() == 0 {
        assert(a + b =~= a);
        assert(lines_split(a).0 + lines_split(b).0 =~= lines_split(a).0);
        assert(lines_split(b).1 =~= lines_split(a).1);
    } else {
        let p = b.drop_last();
        lemma_lines_split_concat(a, p);
        assert((a + b).drop_last() =~= a + p);
        assert((a + b).last() == b.last());
        if b.last() == '\n' {
            assert(lines_split(a).0 + lines_split(p).0.push(strip_cr(lines_split(p).1))
                =~= (lines_split(a).0 + lines_split(p).0).push(strip_cr(lines_split(p).1)));
        }
    }
}

/// The lines of two texts, the first ending at a line break (or empty), are
/// the lines of the first followed by those of the second.
proof fn lemma_lines_concat(a: Seq<char>, b: Seq<char>)
    requires
        a.len() == 0 || a.last() == '\n',
    ensures
        lines(a + b) == lines(a) + lines(b),
{
    if a.len() > 0 {
        assert(a.drop_last().push(a.last()) =~= a);
    }
    assert(lines_split(a).1.len() == 0);
    lemma_lines_split_concat(a, b);
    if lines_split(b).1.len() > 0 {
        assert((lines_split(a).0 + lines_split(b).0).push(lines_split(b).1) =~= lines_split(a).0
            + lines_split(b).0.push(lines_split(b).1));
    }
    assert(lines(a) =~= lines_split(a).0);
}

/// Scanned lines renumbered `d` further on.
pub open spec fn shift_lines(ls: Seq<ScannedLineView>, d: nat) -> Seq<ScannedLineView> {
    ls.map_values(|l: ScannedLineView| ScannedLineView { line: l.line + d, ..l })
}

proof fn lemma_scan_line_shift(no: nat, d: nat, line: Seq<char>)
    ensures
        scan_line(no, line) is Blank <==> scan_line(no + d, line) is Blank,
        scan_line(no, line) is Fail <==> scan_line(no + d, line) is Fail,
        scan_line(no, line) matches LineOutcome::Fields(l) ==> scan_line(no + d, line)
            == LineOutcome::Fields(ScannedLineView { line: l.line + d, ..l }),
{
}

/// The lines read do not depend on what was read before.
proof fn lemma_scan_from_acc(ls: Seq<Seq<char>>, k: int, acc: Seq<ScannedLineView>)
    requires
        0 <= k <= ls.len(),
    ensures
        scan_from(ls, k, acc) == (LineScanView {
            lines: acc + scan_from(ls, k, seq![]).lines,
            failure: scan_from(ls, k, seq![]).failure,
        }),
    decreases ls.len() - k,
{
    let e = Seq::<ScannedLineView>::empty();
    if k == ls.len() {
        assert(acc + e =~= acc);
    } else {
        match scan_line((k + 1) as nat, ls[k]) {
            LineOutcome::Blank => {
                lemma_scan_from_acc(ls, k + 1, acc);
                lemma_scan_from_acc(ls, k + 1, e);
            },
            LineOutcome::Fields(l) => {
                lemma_scan_from_acc(ls, k + 1, acc.push(l));
                lemma_scan_from_acc(ls, k + 1, e.push(l));
                assert(acc.push(l) + scan_from(ls, k + 1, e).lines =~= acc + (e.push(l)
                    + scan_from(ls, k + 1, e).lines));
            },
            LineOutcome::Fail(m) => {
                assert(acc + e =~= acc);
            },
        }
    }
}

proof fn lemma_scan_prefix(la: Seq<Seq<char>>, lb: Seq<Seq<char>>, k: int, acc: Seq<ScannedLineView>)
    requires
        0 <= k <= la.len(),
        scan_from(la, k, seq![]).failure is None,
    ensures
        scan_from(la + lb, k, acc) == scan_from(
            la + lb,
            la.len() as int,
            acc + scan_from(la, k, seq![]).lines,
        ),
    decreases la.len() - k,
{
    let e = Seq::<ScannedLineView>::empty();
    if k == la.len() {
        assert(acc + e =~= acc);
    } else {
        assert((la + lb)[k] == la[k]);
        lemma_scan_from_acc(la, k + 1, e);
        match scan_line((k + 1) as nat, la[k]) {
            LineOutcome::Blank => {
                lemma_scan_prefix(la, lb, k + 1, acc);
            },
            LineOutcome::Fields(l) => {
                lemma_scan_from_acc(la, k + 1, e.push(l));
                lemma_scan_prefix(la, lb, k + 1, acc.push(l));
                assert(acc.push(l) + scan_from(la, k + 1, e).lines =~= acc + (e.push(l)
                    + scan_from(la, k + 1, e).lines));
            },
            LineOutcome::Fail(m) => {},
        }
    }
}

proof fn lemma_scan_suffix(la: Seq<Seq<char>>, lb: Seq<Seq<char>>, k: int, acc: Seq<ScannedLineView>)
    requires
        0 <= k <= lb.len(),
        scan_from(lb, k, seq![]).failure is None,
    ensures
        scan_from(la + lb, la.len() + k, acc) == (LineScanView {
            lines: acc + shift_lines(scan_from(lb, k, seq![]).lines, la.len()),
            failure: None,
        }),
    decreases lb.len() - k,
{
    let e = Seq::<ScannedLineView>::empty();
    let d = la.len();
    if k == lb.len() {
        assert(shift_lines(e, d) =~= e);
        assert(acc + e =~= acc);
    } else {
        assert((la + lb)[d + k] == lb[k]);
        lemma_scan_line_shift((k + 1) as nat, d, lb[k]);
        assert((d + k + 1) as nat == (k + 1) as nat + d);
        lemma_scan_from_acc(lb, k + 1, e);
        match scan_line((k + 1) as nat, lb[k]) {
            LineOutcome::Blank => {
                lemma_scan_suffix(la, lb, k + 1, acc);
            },
            LineOutcome::Fields(l) => {
                let l2 = ScannedLineView { line: l.line + d, ..l };
                lemma_scan_from_acc(lb, k + 1, e.push(l));
                lemma_scan_suffix(la, lb, k + 1, acc.push(l2));
                let rest = scan_from(lb, k + 1, e).lines;
                assert(shift_lines(e.push(l) + rest, d) =~= e.push(l2) + shift_lines(rest, d));
                assert(acc.push(l2) + shift_lines(rest, d) =~= acc + (e.push(l2) + shift_lines(
                    rest,
                    d,
                )));
            },
            LineOutcome::Fail(m) => {},
        }
    }
}

/// Building records does not depend on the records built before.
proof fn lemma_resolve_acc(
    ls: Seq<ScannedLineView>,
    vals: Seq<Option<EntropyView>>,
    failure: Option<Seq<char>>,
    k: int,
    acc: Seq<RecordView>,
)
    requires
        0 <= k <= ls.len(),
    ensures
        resolve_lines(ls, vals, failure, k, acc) == (match resolve_lines(
            ls,
            vals,
            failure,
            k,
            seq![],
        ) {
            Ok(r) => Ok(acc + r),
            Err(m) => Err(m),
        }),
    decreases ls.len() - k,
{
    let e = Seq::<RecordView>::empty();
    if k == ls.len() {
        assert(acc + e =~= acc);
    } else {
        let l = ls[k];
        if let Some(v) = vals[k] {
            if record_error(l.label, l.score, v) is None {
                let rec = RecordView {
                    label: l.label,
                    score: l.score,
                    entropy_bits: v,
                    crack_time: l.crack_time,
                };
                lemma_resolve_acc(ls, vals, failure, k + 1, acc.push(rec));
                lemma_resolve_acc(ls, vals, failure, k + 1, e.push(rec));
                if let Ok(r) = resolve_lines(ls, vals, failure, k + 1, e) {
                    assert(acc.push(rec) + r =~= acc + (e.push(rec) + r));
                }
            }
        }
    }
}

/// Building records succeeds only when the scan had no failure.
proof fn lemma_resolve_failure(
    ls: Seq<ScannedLineView>,
    vals: Seq<Option<EntropyView>>,
    m: Seq<char>,
    k: int,
    acc: Seq<RecordView>,
)
    requires
        0 <= k <= ls.len(),
    ensures
        resolve_lines(ls, vals, Some(m), k, acc) is Err,
    decreases ls.len() - k,
{
    if k < ls.len() {
        let l = ls[k];
        if let Some(v) = vals[k] {
            if record_error(l.label, l.score, v) is None {
                lemma_resolve_failure(
                    ls,
                    vals,
                    m,
                    k + 1,
                    acc.push(
                        RecordView {
                            label: l.label,
                            score: l.score,
                            entropy_bits: v,
                            crack_time: l.crack_time,
                        },
                    ),
                );
            }
        }
    }
}

proof fn lemma_resolve_prefix(
    la: Seq<ScannedLineView>,
    lb: Seq<ScannedLineView>,
    va: Seq<Option<EntropyView>>,
    vb: Seq<Option<EntropyView>>,
    k: int,
    acc: Seq<RecordView>,
)
    requires
        0 <= k <= la.len(),
        va.len() == la.len(),
        resolve_lines(la, va, None, k, seq![]) is Ok,
    ensures
        resolve_lines(la + lb, va + vb, None, k, acc) == resolve_lines(
            la + lb,
            va + vb,
            None,
            la.len() as int,
            acc + resolve_lines(la, va, None, k, seq![])->Ok_0,
        ),
    decreases la.len() - k,
{
    let e = Seq::<RecordView>::empty();
    if k == la.len() {
        assert(acc + e =~= acc);
    } else {
        let l = la[k];
        assert((la + lb)[k] == l);
        assert((va + vb)[k] == va[k]);
        let v = va[k]->0;
        let rec = RecordView { label: l.label, score: l.score, entropy_bits: v, crack_time: l.crack_time };
        lemma_resolve_acc(la, va, None, k + 1, e.push(rec));
        lemma_resolve_prefix(la, lb, va, vb, k + 1, acc.push(rec));
        let r = resolve_lines(la, va, None, k + 1, e)->Ok_0;
        assert(acc.push(rec) + r =~= acc + (e.push(rec) + r));
    }
}

proof fn lemma_resolve_suffix(
    la: Seq<ScannedLineView>,
    lb: Seq<ScannedLineView>,
    d: nat,
    va: Seq<Option<EntropyView>>,
    vb: Seq<Option<EntropyView>>,
    k: int,
    acc: Seq<RecordView>,
)
    requires
        0 <= k <= lb.len(),
        va.len() == la.len(),
        vb.len() == lb.len(),
        resolve_lines(lb, vb, None, k, seq![]) is Ok,
    ensures
        resolve_lines(la + shift_lines(lb, d), va + vb, None, la.len() + k, acc) == Ok::<
            Seq<RecordView>,
            Seq<char>,
        >(acc + resolve_lines(lb, vb, None, k, seq![])->Ok_0),
    decreases lb.len() - k,
{
    let e = Seq::<RecordView>::empty();
    let ls = la + shift_lines(lb, d);
    if k == lb.len() {
        assert(acc + e =~= acc);
    } else {
        let l = lb[k];
        assert(ls[la.len() + k] == ScannedLineView { line: l.line + d, ..l });
        assert((va + vb)[la.len() + k] == vb[k]);
        let v = vb[k]->0;
        let rec = RecordView { label: l.label, score: l.score, entropy_bits: v, crack_time: l.crack_time };
        lemma_resolve_acc(lb, vb, None, k + 1, e.push(rec));
        lemma_resolve_suffix(la, lb, d, va, vb, k + 1, acc.push(rec));
        let r = resolve_lines(lb, vb, None, k + 1, e)->Ok_0;
        assert(acc.push(rec) + r =~= acc + (e.push(rec) + r));
        assert(la.len() + (k + 1) == la.len() + k + 1);
    }
}

/// Reading two texts, the first ending at a line break (or empty), one
/// after the other gives the records of the first followed by those of the
/// second, when each reads on its own, with one entropy per scanned line.
pub proof fn law_concat(
    a: Seq<char>,
    b: Seq<char>,
    va: Seq<Option<EntropyView>>,
    vb: Seq<Option<EntropyView>>,
    ra: Seq<RecordView>,
    rb: Seq<RecordView>,
)
    requires
        a.len() == 0 || a.last() == '\n',
        va.len() == scan_spec(a).lines.len(),
        vb.len() == scan_spec(b).lines.len(),
        parse_spec(scan_spec(a), va) == Ok::<Seq<RecordView>, Seq<char>>(ra),
        parse_spec(scan_spec(b), vb) == Ok::<Seq<RecordView>, Seq<char>>(rb),
    ensures
        scan_spec(a + b).lines.len() == va.len() + vb.len(),
        parse_spec(scan_spec(a + b), va + vb) == Ok::<Seq<RecordView>, Seq<char>>(ra + rb),
{
    let e = Seq::<ScannedLineView>::empty();
    let la = lines(a);
    let lb = lines(b);
    lemma_lines_concat(a, b);
    let sa = scan_spec(a);
    let sb = scan_spec(b);
    if let Some(m) = sa.failure {
        lemma_resolve_failure(sa.lines, va, m, 0, seq![]);
    }
    if let Some(m) = sb.failure {
        lemma_resolve_failure(sb.lines, vb, m, 0, seq![]);
    }
    lemma_scan_prefix(la, lb, 0, e);
    lemma_scan_suffix(la, lb, 0, e + sa.lines);
    assert(e + sa.lines =~= sa.lines);
    let sab = scan_spec(a + b);
    assert(sab.lines == sa.lines + shift_lines(sb.lines, la.len()));
    assert(sab.failure is None);
    let d = la.len();
    lemma_resolve_prefix(sa.lines, shift_lines(sb.lines, d), va, vb, 0, seq![]);
    lemma_resolve_suffix(sa.lines, sb.lines, d, va, vb, 0, Seq::<RecordView>::empty() + ra);
    assert(Seq::<RecordView>::empty() + ra =~= ra);
    assert(sa.lines.len() + 0 == sa.lines.len());
}

} // verus!
