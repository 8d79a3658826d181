//! Reading back what the JSON writer writes.
use vstd::prelude::*;
use crate::text::{decimal, is_digit, lead_byte_spec, lemma_decimal_value};
use crate::record::{RecordView, valid_record};
use crate::json::{
    FieldsView, JsonEventView, JsonScanView, peek_spec, after_object, byte_offset, escape_char,
    escape_spec, expect_spec, is_json_ws, is_number_char, lemma_string_body_escaped, members_from,
    no_fields, number_end, object_text, objects_from, objects_text, parse_string_spec, skip_ws_spec,
    write_spec, scan_spec, parse_spec, resolve_events, NumberView,
};

verus! {

/// `t` occurs in `s` at index `i`.
pub open spec fn at(s: Seq<char>, i: int, t: Seq<char>) -> bool {
    0 <= i && i + t.len() <= s.len() && s.subrange(i, i + t.len()) == t
}

proof fn lemma_at_concat(s: Seq<char>, i: int, a: Seq<char>, b: Seq<char>)
    requires
        at(s, i, a + b),
    ensures
        at(s, i, a),
        at(s, i + a.len(), b),
{
    assert(s.subrange(i, i + a.len()) =~= (a + b).subrange(0, a.len() as int));
    assert((a + b).subrange(0, a.len() as int) =~= a);
    assert(s.subrange(i + a.len(), i + a.len() + b.len()) =~= (a + b).subrange(
        a.len() as int,
        (a + b).len() as int,
    ));
    assert((a + b).subrange(a.len() as int, (a + b).len() as int) =~= b);
}

proof fn lemma_at_char(s: Seq<char>, i: int, t: Seq<char>, k: int)
    requires
        at(s, i, t),
        0 <= k < t.len(),
    ensures
        s[i + k] == t[k],
{
    assert(s.subrange(i, i + t.len())[k] == t[k]);
}

/// White space of exactly `w` characters at `i`.
pub(crate) proof fn lemma_skip_exact(s: Seq<char>, i: int, w: int)
    requires
        0 <= i,
        0 <= w,
        i + w <= s.len(),
        forall|k: int| i <= k < i + w ==> #[trigger] is_json_ws(s[k]),
        i + w == s.len() || !is_json_ws(s[i + w]),
    ensures
        skip_ws_spec(s, i) == i + w,
    decreases w,
{
    if w > 0 {
        lemma_skip_exact(s, i + 1, w - 1);
    }
}

/// The first byte of an ASCII character is its code.
proof fn lemma_lead_byte_ascii(c: char)
    requires
        (c as u32) < 128,
    ensures
        lead_byte_spec(c) == (c as u32) as u8,
{
    let u = c as u32;
    assert((u & 0x7F) as u8 == u as u8) by (bit_vector)
        requires
            u < 128,
    ;
}

pub(crate) proof fn lemma_expect_at(s: Seq<char>, i: int, j: int, c: char)
    requires
        0 <= i,
        skip_ws_spec(s, i) == j,
        0 <= j < s.len(),
        s[j] == c,
        (c as u32) < 128,
    ensures
        expect_spec(s, i, (c as u32) as u8) == Ok::<int, Seq<char>>(j + 1),
{
    reveal(expect_spec);
    reveal(peek_spec);
    lemma_lead_byte_ascii(c);
}

/// A text that the JSON writer writes as it is.
pub open spec fn is_plain_json(t: Seq<char>) -> bool {
    forall|i: int|
        0 <= i < t.len() ==> #[trigger] t[i] != '"' && t[i] != '\\' && (t[i] as u32) >= 0x20
}

pub(crate) proof fn lemma_escape_identity(t: Seq<char>)
    requires
        is_plain_json(t),
    ensures
        escape_spec(t) == t,
    decreases t.len(),
{
    if t.len() > 0 {
        let p = t.drop_last();
        assert(is_plain_json(p)) by {
            assert forall|i: int| 0 <= i < p.len() implies #[trigger] p[i] != '"' && p[i] != '\\'
                && (p[i] as u32) >= 0x20 by {
                assert(p[i] == t[i]);
            }
        }
        lemma_escape_identity(p);
        let c = t[t.len() - 1];
        assert(c != '"' && c != '\\' && (c as u32) >= 0x20);
        assert(escape_char(c) == seq![c]);
        assert(p.push(c) =~= t);
    }
}

/// A string literal after `w` spaces at `i`: `"`, the written text of `v`, `"`.
proof fn lemma_string_at(s: Seq<char>, i: int, w: int, v: Seq<char>)
    requires
        0 <= i,
        0 <= w,
        forall|k: int| i <= k < i + w ==> #[trigger] s[k] == ' ',
        i + w + 1 + escape_spec(v).len() < s.len(),
        s[i + w] == '"',
        at(s, i + w + 1, escape_spec(v)),
        s[i + w + 1 + escape_spec(v).len()] == '"',
    ensures
        parse_string_spec(s, i) == Ok::<(Seq<char>, int), Seq<char>>(
            (v, i + w + 2 + escape_spec(v).len()),
        ),
{
    reveal(parse_string_spec);
    lemma_skip_exact(s, i, w);
    lemma_skip_exact(s, i + w, 0);
    lemma_expect_at(s, i + w, i + w, '"');
    lemma_string_body_escaped(s, i + w + 1, Seq::<char>::empty(), v);
    assert(Seq::<char>::empty() + v =~= v);
}

/// A member key after `w` spaces at `i`, and the colon after it.
proof fn lemma_key_at(s: Seq<char>, i: int, w: int, k: Seq<char>)
    requires
        0 <= i,
        0 <= w,
        forall|t: int| i <= t < i + w ==> #[trigger] s[t] == ' ',
        is_plain_json(k),
        i + w + 2 + k.len() < s.len(),
        s[i + w] == '"',
        at(s, i + w + 1, k),
        s[i + w + 1 + k.len()] == '"',
        s[i + w + 2 + k.len()] == ':',
    ensures
        parse_string_spec(s, i) == Ok::<(Seq<char>, int), Seq<char>>((k, i + w + 2 + k.len())),
        expect_spec(s, i + w + 2 + k.len(), 58u8) == Ok::<int, Seq<char>>(i + w + 3 + k.len()),
{
    lemma_escape_identity(k);
    lemma_string_at(s, i, w, k);
    lemma_skip_exact(s, i + w + 2 + k.len(), 0);
    lemma_expect_at(s, i + w + 2 + k.len(), i + w + 2 + k.len(), ':');
}

/// A number token after one space at `i`, ended by a character that is
/// neither white space nor part of a number.
proof fn lemma_number_at(s: Seq<char>, i: int, t: Seq<char>)
    requires
        0 <= i,
        s[i] == ' ',
        at(s, i + 1, t),
        i + 1 + t.len() < s.len(),
        forall|k: int| 0 <= k < t.len() ==> #[trigger] is_number_char(t[k]),
        !is_number_char(s[i + 1 + t.len()]),
        !is_json_ws(s[i + 1 + t.len()]),
    ensures
        skip_ws_spec(s, i) == i + 1,
        number_end(s, i + 1) == i + 1 + t.len(),
        s.subrange(i + 1, i + 1 + t.len()) == t,
{
    if t.len() > 0 {
        lemma_at_char(s, i + 1, t, 0);
        assert(is_number_char(t[0]));
        lemma_skip_exact(s, i, 1);
    } else {
        lemma_skip_exact(s, i, 1);
    }
    lemma_number_end_exact(s, i + 1, t);
}

proof fn lemma_number_end_exact(s: Seq<char>, j: int, t: Seq<char>)
    requires
        0 <= j,
        at(s, j, t),
        j + t.len() < s.len(),
        forall|k: int| 0 <= k < t.len() ==> #[trigger] is_number_char(t[k]),
        !is_number_char(s[j + t.len()]),
    ensures
        number_end(s, j) == j + t.len(),
    decreases t.len(),
{
    if t.len() > 0 {
        lemma_at_char(s, j, t, 0);
        assert(is_number_char(t[0]));
        let rest = t.drop_first();
        assert(at(s, j + 1, rest)) by {
            assert(s.subrange(j + 1, j + 1 + rest.len()) =~= rest) by {
                assert forall|k: int| 0 <= k < rest.len() implies s.subrange(
                    j + 1,
                    j + 1 + rest.len(),
                )[k] == rest[k] by {
                    lemma_at_char(s, j, t, k + 1);
                }
            }
        }
        assert forall|k: int| 0 <= k < rest.len() implies #[trigger] is_number_char(rest[k]) by {
            assert(rest[k] == t[k + 1]);
        }
        lemma_number_end_exact(s, j + 1, rest);
    }
}

/// The literal pieces of an object line, by their characters.
proof fn lemma_object_literals()
    ensures
        "  {\"label\": \""@ == seq![' ', ' ', '{', '"', 'l', 'a', 'b', 'e', 'l', '"', ':', ' ', '"'],
        "\", \"score\": "@ == seq!['"', ',', ' ', '"', 's', 'c', 'o', 'r', 'e', '"', ':', ' '],
        ", \"entropy_bits\": "@ == seq![
            ',',
            ' ',
            '"',
            'e',
            'n',
            't',
            'r',
            'o',
            'p',
            'y',
            '_',
            'b',
            'i',
            't',
            's',
            '"',
            ':',
            ' ',
        ],
        ", \"crack_time\": \""@ == seq![
            ',',
            ' ',
            '"',
            'c',
            'r',
            'a',
            'c',
            'k',
            '_',
            't',
            'i',
            'm',
            'e',
            '"',
            ':',
            ' ',
            '"',
        ],
        "\"}"@ == seq!['"', '}'],
        "label"@ == seq!['l', 'a', 'b', 'e', 'l'],
        "score"@ == seq!['s', 'c', 'o', 'r', 'e'],
        "entropy_bits"@ == seq!['e', 'n', 't', 'r', 'o', 'p', 'y', '_', 'b', 'i', 't', 's'],
        "crack_time"@ == seq!['c', 'r', 'a', 'c', 'k', '_', 't', 'i', 'm', 'e'],
        "[\n"@ == seq!['[', '\n'],
        "]\n"@ == seq![']', '\n'],
{
    reveal_strlit("  {\"label\": \"");
    reveal_strlit("\", \"score\": ");
    reveal_strlit(", \"entropy_bits\": ");
    reveal_strlit(", \"crack_time\": \"");
    reveal_strlit("\"}");
    reveal_strlit("label");
    reveal_strlit("score");
    reveal_strlit("entropy_bits");
    reveal_strlit("crack_time");
    reveal_strlit("[\n");
    reveal_strlit("]\n");
    assert("  {\"label\": \""@ =~= seq![' ', ' ', '{', '"', 'l', 'a', 'b', 'e', 'l', '"', ':', ' ', '"']);
    assert("\", \"score\": "@ =~= seq!['"', ',', ' ', '"', 's', 'c', 'o', 'r', 'e', '"', ':', ' ']);
    assert(", \"entropy_bits\": "@ =~= seq![
        ',',
        ' ',
        '"',
        'e',
        'n',
        't',
        'r',
        'o',
        'p',
        'y',
        '_',
        'b',
        'i',
        't',
        's',
        '"',
        ':',
        ' ',
    ]);
    assert(", \"crack_time\": \""@ =~= seq![
        ',',
        ' ',
        '"',
        'c',
        'r',
        'a',
        'c',
        'k',
        '_',
        't',
        'i',
        'm',
        'e',
        '"',
        ':',
        ' ',
        '"',
    ]);
    assert("\"}"@ =~= seq!['"', '}']);
    assert("label"@ =~= seq!['l', 'a', 'b', 'e', 'l']);
    assert("score"@ =~= seq!['s', 'c', 'o', 'r', 'e']);
    assert("entropy_bits"@ =~= seq!['e', 'n', 't', 'r', 'o', 'p', 'y', '_', 'b', 'i', 't', 's']);
    assert("crack_time"@ =~= seq!['c', 'r', 'a', 'c', 'k', '_', 't', 'i', 'm', 'e']);
    assert("[\n"@ =~= seq!['[', '\n']);
    assert("]\n"@ =~= seq![']', '\n']);
}

proof fn lemma_at_sub(s: Seq<char>, i: int, t: Seq<char>, a: int, b: int)
    requires
        at(s, i, t),
        0 <= a <= b <= t.len(),
    ensures
        at(s, i + a, t.subrange(a, b)),
{
    assert forall|k: int| 0 <= k < b - a implies s.subrange(i + a, i + b)[k] == t.subrange(a, b)[k] by {
        lemma_at_char(s, i, t, a + k);
    }
    assert(s.subrange(i + a, i + b) =~= t.subrange(a, b));
}

/// Objects may be preceded by white space.
proof fn lemma_objects_from_ws(s: Seq<char>, i: int, ev: Seq<JsonEventView>, n: nat)
    requires
        0 <= i < s.len(),
        is_json_ws(s[i]),
    ensures
        objects_from(s, i, ev, n) == objects_from(s, i + 1, ev, n),
{
    assert(skip_ws_spec(s, i) == skip_ws_spec(s, i + 1));
    assert(expect_spec(s, i, 123u8) == expect_spec(s, i + 1, 123u8)) by {
        reveal(expect_spec);
    }
}

/// A record that the JSON writer writes in a form that reads back: its
/// two-decimal entropy is made of characters that may form a number.
pub open spec fn json_writable(r: RecordView) -> bool {
    forall|i: int|
        0 <= i < r.entropy_bits.fixed.len() ==> #[trigger] is_number_char(r.entropy_bits.fixed[i])
}

/// The fields of a written record as read back, its numbers being tokens `n`
/// and `n + 1`.
pub open spec fn written_fields(r: RecordView, n: nat) -> FieldsView {
    FieldsView {
        label: Some(r.label),
        score: Some(n),
        entropy_bits: Some(n + 1),
        crack_time: Some(r.crack_time),
    }
}

/// The events that reading one written object records.
pub open spec fn object_events(
    s: Seq<char>,
    q: int,
    r: RecordView,
    ev: Seq<JsonEventView>,
    n: nat,
) -> Seq<JsonEventView> {
    let p_d = q + 25 + escape_spec(r.label).len();
    let p_f = p_d + decimal(r.score as nat).len() + 18;
    ev.push(JsonEventView::Number { start: byte_offset(s, p_d), text: decimal(r.score as nat) }).push(
        JsonEventView::Number { start: byte_offset(s, p_f), text: r.entropy_bits.fixed },
    ).push(JsonEventView::ObjectEnd(written_fields(r, n)))
}

/// Reading the opening brace and the label of a written object.
proof fn lemma_scan_label(s: Seq<char>, q: int, r: RecordView, ev: Seq<JsonEventView>, n: nat)
    requires
        at(s, q, "  {\"label\": \""@),
        at(s, q + 13, escape_spec(r.label)),
        at(s, q + 13 + escape_spec(r.label).len(), seq!['"', ',']),
    ensures
        objects_from(s, q, ev, n) == members_from(
            s,
            q + 15 + escape_spec(r.label).len(),
            FieldsView { label: Some(r.label), ..no_fields() },
            ev,
            n,
        ),
{
    lemma_object_literals();
    let la = "  {\"label\": \""@;
    let n0 = escape_spec(r.label).len() as int;
    let tail = seq!['"', ','];
    lemma_at_char(s, q, la, 0);
    lemma_at_char(s, q, la, 1);
    lemma_at_char(s, q, la, 2);
    lemma_skip_exact(s, q, 2);
    lemma_expect_at(s, q, q + 2, '{');
    lemma_at_char(s, q, la, 3);
    lemma_at_sub(s, q, la, 4, 9);
    assert(la.subrange(4, 9) =~= "label"@);
    lemma_at_char(s, q, la, 9);
    lemma_at_char(s, q, la, 10);
    lemma_key_at(s, q + 3, 0, "label"@);
    lemma_at_char(s, q, la, 11);
    lemma_at_char(s, q, la, 12);
    lemma_at_char(s, q + 13 + n0, tail, 0);
    lemma_at_char(s, q + 13 + n0, tail, 1);
    lemma_string_at(s, q + 11, 1, r.label);
    lemma_skip_exact(s, q + 14 + n0, 0);
}

/// Reading the score member of a written object; `i` is where the quote
/// that closes the label stands.
proof fn lemma_scan_score(
    s: Seq<char>,
    i: int,
    r: RecordView,
    f: FieldsView,
    ev: Seq<JsonEventView>,
    n: nat,
)
    requires
        at(s, i, "\", \"score\": "@),
        at(s, i + 12, decimal(r.score as nat)),
        at(s, i + 12 + decimal(r.score as nat).len(), seq![',']),
    ensures
        members_from(s, i + 2, f, ev, n) == members_from(
            s,
            i + 13 + decimal(r.score as nat).len(),
            FieldsView { score: Some(n), ..f },
            ev.push(
                JsonEventView::Number {
                    start: byte_offset(s, i + 12),
                    text: decimal(r.score as nat),
                },
            ),
            n + 1,
        ),
{
    lemma_object_literals();
    let lb = "\", \"score\": "@;
    let d = decimal(r.score as nat);
    let p_c = i + 12 + d.len();
    lemma_decimal_value(r.score as nat);
    assert forall|k: int| 0 <= k < d.len() implies #[trigger] is_number_char(d[k]) by {
        assert(is_digit(d[k]));
    }
    lemma_at_char(s, i, lb, 2);
    lemma_at_char(s, i, lb, 3);
    lemma_at_sub(s, i, lb, 4, 9);
    assert(lb.subrange(4, 9) =~= "score"@);
    lemma_at_char(s, i, lb, 9);
    lemma_at_char(s, i, lb, 10);
    lemma_key_at(s, i + 2, 1, "score"@);
    lemma_at_char(s, i, lb, 11);
    lemma_at_char(s, p_c, seq![','], 0);
    lemma_number_at(s, i + 11, d);
    assert("score"@ != "label"@);
    lemma_skip_exact(s, p_c, 0);
}

/// Reading the entropy member of a written object; `i` is where the comma
/// after the score stands.
proof fn lemma_scan_entropy(
    s: Seq<char>,
    i: int,
    r: RecordView,
    f: FieldsView,
    ev: Seq<JsonEventView>,
    n: nat,
)
    requires
        at(s, i, ", \"entropy_bits\": "@),
        at(s, i + 18, r.entropy_bits.fixed),
        at(s, i + 18 + r.entropy_bits.fixed.len(), seq![',']),
        json_writable(r),
    ensures
        members_from(s, i + 1, f, ev, n) == members_from(
            s,
            i + 19 + r.entropy_bits.fixed.len(),
            FieldsView { entropy_bits: Some(n), ..f },
            ev.push(
                JsonEventView::Number {
                    start: byte_offset(s, i + 18),
                    text: r.entropy_bits.fixed,
                },
            ),
            n + 1,
        ),
{
    lemma_object_literals();
    let lc = ", \"entropy_bits\": "@;
    let x = r.entropy_bits.fixed;
    let p_g = i + 18 + x.len();
    lemma_at_char(s, i, lc, 1);
    lemma_at_char(s, i, lc, 2);
    lemma_at_sub(s, i, lc, 3, 15);
    assert(lc.subrange(3, 15) =~= "entropy_bits"@);
    lemma_at_char(s, i, lc, 15);
    lemma_at_char(s, i, lc, 16);
    lemma_key_at(s, i + 1, 1, "entropy_bits"@);
    lemma_at_char(s, i, lc, 17);
    lemma_at_char(s, p_g, seq![','], 0);
    lemma_number_at(s, i + 17, x);
    assert("entropy_bits"@ != "label"@);
    assert("entropy_bits"@ != "score"@);
    lemma_skip_exact(s, p_g, 0);
}

/// Reading the crack time member and the closing brace of a written object;
/// `i` is where the comma after the entropy stands.
proof fn lemma_scan_crack_time(
    s: Seq<char>,
    i: int,
    r: RecordView,
    f: FieldsView,
    ev: Seq<JsonEventView>,
    n: nat,
)
    requires
        at(s, i, ", \"crack_time\": \""@),
        at(s, i + 17, escape_spec(r.crack_time)),
        at(s, i + 17 + escape_spec(r.crack_time).len(), "\"}"@),
    ensures
        members_from(s, i + 1, f, ev, n) == after_object(
            s,
            i + 19 + escape_spec(r.crack_time).len(),
            ev.push(JsonEventView::ObjectEnd(FieldsView { crack_time: Some(r.crack_time), ..f })),
            n,
        ),
{
    lemma_object_literals();
    let lg = ", \"crack_time\": \""@;
    let lh = "\"}"@;
    let p_h = i + 17 + escape_spec(r.crack_time).len();
    lemma_at_char(s, i, lg, 1);
    lemma_at_char(s, i, lg, 2);
    lemma_at_sub(s, i, lg, 3, 13);
    assert(lg.subrange(3, 13) =~= "crack_time"@);
    lemma_at_char(s, i, lg, 13);
    lemma_at_char(s, i, lg, 14);
    lemma_key_at(s, i + 1, 1, "crack_time"@);
    lemma_at_char(s, i, lg, 15);
    lemma_at_char(s, i, lg, 16);
    lemma_at_char(s, p_h, lh, 0);
    lemma_at_char(s, p_h, lh, 1);
    lemma_string_at(s, i + 15, 1, r.crack_time);
    assert("crack_time"@ != "label"@);
    assert("crack_time"@ != "score"@);
    assert("crack_time"@ != "entropy_bits"@);
    lemma_skip_exact(s, p_h + 1, 0);
}

/// Where the pieces of a written object stand.
proof fn lemma_object_pieces(s: Seq<char>, q: int, r: RecordView, last: bool)
    requires
        at(s, q, object_text(r, last)),
    ensures
        ({
            let n0 = escape_spec(r.label).len() as int;
            let p_b = q + 13 + n0;
            let p_c = p_b + 12 + decimal(r.score as nat).len();
            let p_g = p_c + 18 + r.entropy_bits.fixed.len();
            let p_h = p_g + 17 + escape_spec(r.crack_time).len();
            &&& at(s, q, "  {\"label\": \""@)
            &&& at(s, q + 13, escape_spec(r.label))
            &&& at(s, p_b, seq!['"', ','])
            &&& at(s, p_b, "\", \"score\": "@)
            &&& at(s, p_b + 12, decimal(r.score as nat))
            &&& at(s, p_c, seq![','])
            &&& at(s, p_c, ", \"entropy_bits\": "@)
            &&& at(s, p_c + 18, r.entropy_bits.fixed)
            &&& at(s, p_g, seq![','])
            &&& at(s, p_g, ", \"crack_time\": \""@)
            &&& at(s, p_g + 17, escape_spec(r.crack_time))
            &&& at(s, p_h, "\"}"@)
            &&& (last ==> object_text(r, last).len() == p_h + 3 - q && s[p_h + 2] == '\n')
            &&& (!last ==> object_text(r, last).len() == p_h + 4 - q && s[p_h + 2] == ',' && s[p_h
                + 3] == '\n')
        }),
{
    lemma_object_literals();
    let la = "  {\"label\": \""@;
    let lb = "\", \"score\": "@;
    let lc = ", \"entropy_bits\": "@;
    let lg = ", \"crack_time\": \""@;
    let lh = "\"}"@;
    let e0 = escape_spec(r.label);
    let d = decimal(r.score as nat);
    let x = r.entropy_bits.fixed;
    let e3 = escape_spec(r.crack_time);
    let tail: Seq<char> = if last { seq![] } else { seq![','] };
    let nl = seq!['\n'];
    let t = object_text(r, last);
    let p2 = la + e0;
    let p3 = p2 + lb;
    let p4 = p3 + d;
    let p5 = p4 + lc;
    let p6 = p5 + x;
    let p7 = p6 + lg;
    let p8 = p7 + e3;
    let p9 = p8 + lh;
    let p10 = p9 + tail;
    assert(t =~= p10 + nl);
    lemma_at_concat(s, q, p10, nl);
    lemma_at_concat(s, q, p9, tail);
    lemma_at_concat(s, q, p8, lh);
    lemma_at_concat(s, q, p7, e3);
    lemma_at_concat(s, q, p6, lg);
    lemma_at_concat(s, q, p5, x);
    lemma_at_concat(s, q, p4, lc);
    lemma_at_concat(s, q, p3, d);
    lemma_at_concat(s, q, p2, lb);
    lemma_at_concat(s, q, la, e0);
    let n0 = e0.len() as int;
    let p_b = q + 13 + n0;
    let p_c = p_b + 12 + d.len();
    let p_g = p_c + 18 + x.len();
    let p_h = p_g + 17 + e3.len();
    lemma_at_sub(s, p_b, lb, 0, 2);
    assert(lb.subrange(0, 2) =~= seq!['"', ',']);
    lemma_at_sub(s, p_c, lc, 0, 1);
    assert(lc.subrange(0, 1) =~= seq![',']);
    lemma_at_sub(s, p_g, lg, 0, 1);
    assert(lg.subrange(0, 1) =~= seq![',']);
    lemma_at_char(s, q + p10.len(), nl, 0);
    if !last {
        lemma_at_char(s, p_h + 2, tail, 0);
    }
}

/// Reading one written object.
proof fn lemma_object_scan(
    s: Seq<char>,
    q: int,
    r: RecordView,
    last: bool,
    ev: Seq<JsonEventView>,
    n: nat,
)
    requires
        at(s, q, object_text(r, last)),
        json_writable(r),
        last ==> q + object_text(r, last).len() < s.len() && s[q + object_text(r, last).len()]
            == ']',
    ensures
        last ==> objects_from(s, q, ev, n) == (JsonScanView {
            events: object_events(s, q, r, ev, n),
            failure: None,
        }),
        !last ==> objects_from(s, q, ev, n) == objects_from(
            s,
            q + object_text(r, last).len(),
            object_events(s, q, r, ev, n),
            n + 2,
        ),
{
    lemma_object_pieces(s, q, r, last);
    let n0 = escape_spec(r.label).len() as int;
    let p_b = q + 13 + n0;
    let p_c = p_b + 12 + decimal(r.score as nat).len();
    let p_g = p_c + 18 + r.entropy_bits.fixed.len();
    let p_h = p_g + 17 + escape_spec(r.crack_time).len();
    lemma_scan_label(s, q, r, ev, n);
    let f1 = FieldsView { label: Some(r.label), ..no_fields() };
    lemma_scan_score(s, p_b, r, f1, ev, n);
    let ev1 = ev.push(
        JsonEventView::Number { start: byte_offset(s, p_b + 12), text: decimal(r.score as nat) },
    );
    let f2 = FieldsView { score: Some(n), ..f1 };
    lemma_scan_entropy(s, p_c, r, f2, ev1, n + 1);
    let ev2 = ev1.push(
        JsonEventView::Number { start: byte_offset(s, p_c + 18), text: r.entropy_bits.fixed },
    );
    let f3 = FieldsView { entropy_bits: Some(n + 1), ..f2 };
    lemma_scan_crack_time(s, p_g, r, f3, ev2, n + 2);
    let f4 = FieldsView { crack_time: Some(r.crack_time), ..f3 };
    assert(f4 == written_fields(r, n));
    let ev3 = ev2.push(JsonEventView::ObjectEnd(f4));
    assert(ev3 == object_events(s, q, r, ev, n));
    assert(objects_from(s, q, ev, n) == after_object(s, p_h + 2, ev3, n + 2));
    if last {
        lemma_skip_exact(s, p_h + 2, 1);
    } else {
        lemma_skip_exact(s, p_h + 2, 0);
        assert(after_object(s, p_h + 2, ev3, n + 2) == objects_from(s, p_h + 3, ev3, n + 2));
        lemma_objects_from_ws(s, p_h + 3, ev3, n + 2);
    }
}

proof fn lemma_objects_prefix(rs: Seq<RecordView>, k: int, m: int)
    requires
        0 <= k <= m,
    ensures
        objects_text(rs, k).len() <= objects_text(rs, m).len(),
        objects_text(rs, m).subrange(0, objects_text(rs, k).len() as int) == objects_text(rs, k),
    decreases m - k,
{
    if k < m {
        lemma_objects_prefix(rs, k, m - 1);
        let a = objects_text(rs, m - 1);
        let b = object_text(rs[m - 1], m == rs.len());
        assert(objects_text(rs, m) == a + b);
        assert((a + b).subrange(0, objects_text(rs, k).len() as int) =~= a.subrange(
            0,
            objects_text(rs, k).len() as int,
        ));
    } else {
        assert(objects_text(rs, m).subrange(0, objects_text(rs, m).len() as int) =~= objects_text(
            rs,
            m,
        ));
    }
}

/// Where the `k`-th object stands in the written text.
pub open spec fn object_start(rs: Seq<RecordView>, k: int) -> int {
    2 + objects_text(rs, k).len() as int
}

proof fn lemma_object_at(rs: Seq<RecordView>, k: int)
    requires
        0 <= k < rs.len(),
    ensures
        at(write_spec(rs), object_start(rs, k), object_text(rs[k], k + 1 == rs.len())),
        object_start(rs, k + 1) == object_start(rs, k) + object_text(rs[k], k + 1 == rs.len()).len(),
{
    lemma_object_literals();
    let s = write_spec(rs);
    let n = rs.len() as int;
    let all = objects_text(rs, n);
    let pre = objects_text(rs, k + 1);
    assert(s =~= "[\n"@ + all + "]\n"@);
    assert(at(s, 0, "[\n"@ + all + "]\n"@)) by {
        assert(s.subrange(0, s.len() as int) =~= s);
    }
    lemma_at_concat(s, 0, "[\n"@ + all, "]\n"@);
    lemma_at_concat(s, 0, "[\n"@, all);
    lemma_objects_prefix(rs, k + 1, n);
    assert(all =~= pre + all.subrange(pre.len() as int, all.len() as int));
    lemma_at_concat(s, 2, pre, all.subrange(pre.len() as int, all.len() as int));
    assert(pre == objects_text(rs, k) + object_text(rs[k], k + 1 == rs.len()));
    lemma_at_concat(s, 2, objects_text(rs, k), object_text(rs[k], k + 1 == rs.len()));
}

/// The events recorded for the first `k` written records.
#[verifier::opaque]
pub open spec fn events_match(ev: Seq<JsonEventView>, rs: Seq<RecordView>, k: int) -> bool {
    &&& ev.len() == 3 * k
    &&& forall|i: int|
        0 <= i < ev.len() ==> (if i % 3 == 2 {
            #[trigger] ev[i] == JsonEventView::ObjectEnd(written_fields(rs[i / 3], (2 * (i / 3)) as nat))
        } else {
            ev[i] is Number
        })
}

proof fn lemma_events_match_step(
    s: Seq<char>,
    q: int,
    ev: Seq<JsonEventView>,
    rs: Seq<RecordView>,
    k: int,
)
    requires
        0 <= k < rs.len(),
        events_match(ev, rs, k),
    ensures
        events_match(object_events(s, q, rs[k], ev, (2 * k) as nat), rs, k + 1),
{
    reveal(events_match);
    let ev3 = object_events(s, q, rs[k], ev, (2 * k) as nat);
    assert forall|i: int| 0 <= i < ev3.len() implies (if i % 3 == 2 {
        #[trigger] ev3[i] == JsonEventView::ObjectEnd(written_fields(rs[i / 3], (2 * (i / 3)) as nat))
    } else {
        ev3[i] is Number
    }) by {
        if i < 3 * k {
            assert(ev3[i] == ev[i]);
        } else {
            assert(i / 3 == k);
        }
    }
}

/// After the last object comes the closing bracket.
proof fn lemma_closing_bracket(rs: Seq<RecordView>)
    ensures
        object_start(rs, rs.len() as int) < write_spec(rs).len(),
        write_spec(rs)[object_start(rs, rs.len() as int)] == ']',
{
    lemma_object_literals();
    let s = write_spec(rs);
    assert(s =~= "[\n"@ + objects_text(rs, rs.len() as int) + "]\n"@);
}

proof fn lemma_objects_written(rs: Seq<RecordView>, k: int, ev: Seq<JsonEventView>)
    requires
        0 <= k < rs.len(),
        forall|i: int| 0 <= i < rs.len() ==> json_writable(#[trigger] rs[i]),
        events_match(ev, rs, k),
    ensures
        ({
            let r = objects_from(write_spec(rs), object_start(rs, k), ev, (2 * k) as nat);
            r.failure is None && events_match(r.events, rs, rs.len() as int)
        }),
    decreases rs.len() - k,
{
    let s = write_spec(rs);
    let q = object_start(rs, k);
    let last = k + 1 == rs.len();
    lemma_object_at(rs, k);
    assert(json_writable(rs[k]));
    lemma_events_match_step(s, q, ev, rs, k);
    if last {
        lemma_closing_bracket(rs);
        lemma_object_scan(s, q, rs[k], last, ev, (2 * k) as nat);
    } else {
        lemma_object_scan(s, q, rs[k], last, ev, (2 * k) as nat);
        lemma_objects_written(rs, k + 1, object_events(s, q, rs[k], ev, (2 * k) as nat));
    }
}

/// The written text opens with a bracket and a line break, then the first
/// object's indentation and brace, or the closing bracket.
proof fn lemma_written_head(rs: Seq<RecordView>)
    ensures
        write_spec(rs).len() >= 3,
        write_spec(rs)[0] == '[',
        write_spec(rs)[1] == '\n',
        rs.len() == 0 ==> write_spec(rs)[2] == ']',
        rs.len() > 0 ==> write_spec(rs).len() > 4 && write_spec(rs)[2] == ' ' && write_spec(rs)[3]
            == ' ' && write_spec(rs)[4] == '{',
{
    lemma_object_literals();
    let s = write_spec(rs);
    assert(s =~= "[\n"@ + objects_text(rs, rs.len() as int) + "]\n"@);
    if rs.len() == 0 {
        assert(objects_text(rs, 0) =~= Seq::<char>::empty());
    } else {
        lemma_object_at(rs, 0);
        assert(objects_text(rs, 0) =~= Seq::<char>::empty());
        let t = object_text(rs[0], 1 == rs.len());
        lemma_at_char(s, 2, t, 0);
        lemma_at_char(s, 2, t, 1);
        lemma_at_char(s, 2, t, 2);
    }
}

proof fn lemma_scan_written(rs: Seq<RecordView>)
    requires
        forall|i: int| 0 <= i < rs.len() ==> json_writable(#[trigger] rs[i]),
    ensures
        scan_spec(write_spec(rs)).failure is None,
        events_match(scan_spec(write_spec(rs)).events, rs, rs.len() as int),
{
    let s = write_spec(rs);
    lemma_written_head(rs);
    lemma_skip_exact(s, 0, 0);
    lemma_expect_at(s, 0, 0, '[');
    assert(events_match(Seq::<JsonEventView>::empty(), rs, 0)) by {
        reveal(events_match);
    }
    if rs.len() == 0 {
        lemma_skip_exact(s, 1, 1);
    } else {
        lemma_skip_exact(s, 1, 3);
        lemma_objects_from_ws(s, 2, Seq::<JsonEventView>::empty(), 0);
        lemma_objects_from_ws(s, 3, Seq::<JsonEventView>::empty(), 0);
        assert(object_start(rs, 0) == 2) by {
            assert(objects_text(rs, 0) =~= Seq::<char>::empty());
        }
        lemma_objects_written(rs, 0, Seq::<JsonEventView>::empty());
    }
}

/// What the number tokens of written records read back as: the score, read
/// exactly as a whole number, and the entropy of each record, in turn.
pub open spec fn numbers_match(vals: Seq<Option<NumberView>>, rs: Seq<RecordView>) -> bool {
    &&& vals.len() == 2 * rs.len()
    &&& forall|i: int|
        0 <= i < vals.len() ==> #[trigger] vals[i] is Some && (if i % 2 == 0 {
            vals[i]->0.as_score == rs[i / 2].score && vals[i]->0.exact
        } else {
            vals[i]->0.value == rs[i / 2].entropy_bits
        })
}

proof fn lemma_resolve_written(
    ev: Seq<JsonEventView>,
    vals: Seq<Option<NumberView>>,
    rs: Seq<RecordView>,
    k: int,
)
    requires
        0 <= k <= rs.len(),
        events_match(ev, rs, rs.len() as int),
        numbers_match(vals, rs),
        forall|i: int| 0 <= i < rs.len() ==> valid_record(#[trigger] rs[i]),
    ensures
        resolve_events(ev, vals, None, 3 * k, 2 * k, rs.take(k)) == Ok::<
            Seq<RecordView>,
            Seq<char>,
        >(rs),
    decreases rs.len() - k,
{
    if k == rs.len() {
        reveal(events_match);
        assert(rs.take(k) =~= rs);
    } else {
        reveal(events_match);
        let a = 3 * k;
        assert(a % 3 == 0 && (a + 1) % 3 == 1 && (a + 2) % 3 == 2);
        assert((a + 2) / 3 == k);
        assert(ev[a] is Number);
        assert(ev[a + 1] is Number);
        assert(ev[a + 2] == JsonEventView::ObjectEnd(written_fields(rs[k], (2 * k) as nat)));
        let b = 2 * k;
        assert(b % 2 == 0 && (b + 1) % 2 == 1 && b / 2 == k && (b + 1) / 2 == k);
        assert(vals[b] is Some);
        assert(vals[b + 1] is Some);
        assert(vals[b]->0.as_score == rs[k].score && vals[b]->0.exact);
        assert(vals[b + 1]->0.value == rs[k].entropy_bits);
        assert(valid_record(rs[k]));
        assert(rs.take(k).push(rs[k]) =~= rs.take(k + 1));
        lemma_resolve_written(ev, vals, rs, k + 1);
        assert(resolve_events(ev, vals, None, a, b, rs.take(k)) == resolve_events(
            ev,
            vals,
            None,
            a + 1,
            b + 1,
            rs.take(k),
        ));
        assert(resolve_events(ev, vals, None, a + 1, b + 1, rs.take(k)) == resolve_events(
            ev,
            vals,
            None,
            a + 2,
            b + 2,
            rs.take(k),
        ));
        assert(resolve_events(ev, vals, None, a + 2, b + 2, rs.take(k)) == resolve_events(
            ev,
            vals,
            None,
            a + 3,
            b + 2,
            rs.take(k + 1),
        ));
    }
}

/// Writing valid records as JSON and reading them back gives the same
/// records, provided each number token reads back as what was written.
pub proof fn law_round_trip(rs: Seq<RecordView>, vals: Seq<Option<NumberView>>)
    requires
        forall|i: int| 0 <= i < rs.len() ==> json_writable(#[trigger] rs[i]),
        forall|i: int| 0 <= i < rs.len() ==> valid_record(#[trigger] rs[i]),
        numbers_match(vals, rs),
    ensures
        parse_spec(scan_spec(write_spec(rs)), vals) == Ok::<Seq<RecordView>, Seq<char>>(rs),
{
    lemma_scan_written(rs);
    lemma_resolve_written(scan_spec(write_spec(rs)).events, vals, rs, 0);
    assert(rs.take(0) =~= Seq::<RecordView>::empty());
}

/// A string written by `escape` between quotes reads back as the string.
pub proof fn law_string_round_trip(v: Seq<char>)
    ensures
        parse_string_spec(seq!['"'] + escape_spec(v) + seq!['"'], 0) == Ok::<
            (Seq<char>, int),
            Seq<char>,
        >((v, escape_spec(v).len() + 2int)),
{
    let e = escape_spec(v);
    let s = seq!['"'] + e + seq!['"'];
    assert(s.subrange(1, 1 + e.len() as int) =~= e);
    lemma_string_at(s, 0, 0, v);
}

} // verus!
