//! What the JSON reader makes of hexadecimal escapes and number members.
use vstd::prelude::*;
use crate::json::{
    FieldsView, JsonEventView, after_member, byte_offset, code_char, escape_char, escape_spec, hex_run,
    hex_value, is_json_ws, is_number_char, lemma_byte_len_at_least, lemma_bytes_after,
    lemma_escape_concat, members_from, number_end, parse_string_spec, radix16_spec, string_body,
};
use crate::json_roundtrip::{
    is_plain_json, lemma_escape_identity, lemma_expect_at, lemma_skip_exact,
};

verus! {

/// What a character is worth as a hexadecimal digit: `0` to `9` are 0 to 9,
/// `a` to `f` and `A` to `F` alike are 10 to 15, and no other character is a
/// digit.
pub proof fn law_hex_digit(c: char)
    ensures
        48 <= (c as u32) <= 57 ==> hex_value(c) == Some((c as u32) - 48),
        97 <= (c as u32) <= 102 ==> hex_value(c) == Some((c as u32) - 97 + 10),
        65 <= (c as u32) <= 70 ==> hex_value(c) == Some((c as u32) - 65 + 10),
        !(48 <= (c as u32) <= 57 || 97 <= (c as u32) <= 102 || 65 <= (c as u32) <= 70)
            ==> hex_value(c) is None,
{
}

/// `u` is `t` with some of its ASCII letters in the other case.
pub open spec fn same_but_case(t: Seq<char>, u: Seq<char>) -> bool {
    &&& t.len() == u.len()
    &&& forall|i: int|
        0 <= i < t.len() ==> {
            ||| #[trigger] t[i] == u[i]
            ||| 65 <= (t[i] as u32) <= 90 && (u[i] as u32) == (t[i] as u32) + 32
            ||| 97 <= (t[i] as u32) <= 122 && (t[i] as u32) == (u[i] as u32) + 32
        }
}

proof fn lemma_hex_value_case(c: char, d: char)
    requires
        c == d || 65 <= (c as u32) <= 90 && (d as u32) == (c as u32) + 32 || 97 <= (c as u32)
            <= 122 && (c as u32) == (d as u32) + 32,
    ensures
        hex_value(c) == hex_value(d),
{
}

proof fn lemma_hex_run_case(t: Seq<char>, u: Seq<char>)
    requires
        same_but_case(t, u),
    ensures
        hex_run(t) == hex_run(u),
    decreases t.len(),
{
    if t.len() > 0 {
        let i = t.len() - 1;
        assert(t[i] == u[i] || 65 <= (t[i] as u32) <= 90 && (u[i] as u32) == (t[i] as u32) + 32
            || 97 <= (t[i] as u32) <= 122 && (t[i] as u32) == (u[i] as u32) + 32);
        lemma_hex_value_case(t[i], u[i]);
        assert(same_but_case(t.drop_last(), u.drop_last())) by {
            assert forall|k: int| 0 <= k < t.drop_last().len() implies {
                ||| #[trigger] t.drop_last()[k] == u.drop_last()[k]
                ||| 65 <= (t.drop_last()[k] as u32) <= 90 && (u.drop_last()[k] as u32) == (
                t.drop_last()[k] as u32) + 32
                ||| 97 <= (t.drop_last()[k] as u32) <= 122 && (t.drop_last()[k] as u32) == (
                u.drop_last()[k] as u32) + 32
            } by {
                assert(t[k] == u[k] || 65 <= (t[k] as u32) <= 90 && (u[k] as u32) == (t[k] as u32)
                    + 32 || 97 <= (t[k] as u32) <= 122 && (t[k] as u32) == (u[k] as u32) + 32);
            }
        }
        lemma_hex_run_case(t.drop_last(), u.drop_last());
    }
}

/// The digits of a `\u` escape read the same in upper and lower case: a text
/// and the same text with letters in the other case give the same value
/// (or both none).
pub proof fn law_hex_case(t: Seq<char>, u: Seq<char>)
    requires
        same_but_case(t, u),
    ensures
        radix16_spec(t) == radix16_spec(u),
{
    if t.len() > 0 {
        assert(t[0] == u[0] || 65 <= (t[0] as u32) <= 90 && (u[0] as u32) == (t[0] as u32) + 32
            || 97 <= (t[0] as u32) <= 122 && (t[0] as u32) == (u[0] as u32) + 32);
        if t[0] == '+' {
            assert(u[0] == '+');
        }
        if u[0] == '+' {
            assert(t[0] == '+');
        }
        if t[0] == '+' {
            assert(same_but_case(t.drop_first(), u.drop_first())) by {
                assert forall|k: int| 0 <= k < t.drop_first().len() implies {
                    ||| #[trigger] t.drop_first()[k] == u.drop_first()[k]
                    ||| 65 <= (t.drop_first()[k] as u32) <= 90 && (u.drop_first()[k] as u32) == (
                    t.drop_first()[k] as u32) + 32
                    ||| 97 <= (t.drop_first()[k] as u32) <= 122 && (t.drop_first()[k] as u32) == (
                    u.drop_first()[k] as u32) + 32
                } by {
                    assert(t[k + 1] == u[k + 1] || 65 <= (t[k + 1] as u32) <= 90 && (
                    u[k + 1] as u32) == (t[k + 1] as u32) + 32 || 97 <= (t[k + 1] as u32) <= 122
                        && (t[k + 1] as u32) == (u[k + 1] as u32) + 32);
                }
            }
            lemma_hex_run_case(t.drop_first(), u.drop_first());
        } else {
            lemma_hex_run_case(t, u);
        }
    }
}

/// A `\u` code decodes to the character with that code; only a surrogate
/// code, which no character has, decodes to `?`.
pub proof fn law_code_char(code: int)
    requires
        0 <= code <= 0xFFFF,
    ensures
        0xD800 <= code <= 0xDFFF ==> code_char(code) == '?',
        !(0xD800 <= code <= 0xDFFF) ==> code_char(code) as u32 == code,
{
}

/// The run of number characters from `a` ends at `b`.
proof fn lemma_number_end_at(s: Seq<char>, a: int, b: int)
    requires
        0 <= a <= b <= s.len(),
        forall|m: int| a <= m < b ==> #[trigger] is_number_char(s[m]),
        b == s.len() || !is_number_char(s[b]),
    ensures
        number_end(s, a) == b,
    decreases b - a,
{
    if a < b {
        lemma_number_end_at(s, a + 1, b);
    }
}

/// A number member's value is the run of number characters that starts at
/// the first character after the colon that is not white space. For a key
/// `score` or `entropy_bits` read from `i` to `j`, then white space up to a
/// colon at `c`, white space from `c + 1` to `a` and number characters from
/// `a` to `b`: the member records the token `s[a..b]`, at the byte offset of
/// `a`, as the field's number, and reading goes on at `b`.
pub proof fn law_number_member(
    s: Seq<char>,
    i: int,
    key: Seq<char>,
    j: int,
    c: int,
    a: int,
    b: int,
    f: FieldsView,
    ev: Seq<JsonEventView>,
    n: nat,
)
    requires
        parse_string_spec(s, i) == Ok::<(Seq<char>, int), Seq<char>>((key, j)),
        key == "score"@ || key == "entropy_bits"@,
        0 <= j <= c < a <= b <= s.len(),
        forall|m: int| j <= m < c ==> #[trigger] is_json_ws(s[m]),
        s[c] == ':',
        forall|m: int| c + 1 <= m < a ==> #[trigger] is_json_ws(s[m]),
        a == s.len() || !is_json_ws(s[a]),
        forall|m: int| a <= m < b ==> #[trigger] is_number_char(s[m]),
        b == s.len() || !is_number_char(s[b]),
    ensures
        members_from(s, i, f, ev, n) == after_member(
            s,
            b,
            if key == "score"@ {
                FieldsView { score: Some(n), ..f }
            } else {
                FieldsView { entropy_bits: Some(n), ..f }
            },
            ev.push(JsonEventView::Number { start: byte_offset(s, a), text: s.subrange(a, b) }),
            n + 1,
        ),
{
    lemma_skip_exact(s, j, c - j);
    lemma_expect_at(s, j, c, ':');
    assert((':' as u32) as u8 == 58u8);
    lemma_skip_exact(s, c + 1, a - (c + 1));
    lemma_number_end_at(s, a, b);
    reveal_strlit("score");
    reveal_strlit("entropy_bits");
    reveal_strlit("label");
    reveal_strlit("crack_time");
    assert("score"@ != "entropy_bits"@) by {
        assert("score"@.len() != "entropy_bits"@.len());
    }
    assert("score"@ != "label"@) by {
        assert("score"@[0] != "label"@[0]);
    }
    assert("entropy_bits"@ != "label"@) by {
        assert("entropy_bits"@.len() != "label"@.len());
    }
    assert("score"@ != "crack_time"@) by {
        assert("score"@.len() != "crack_time"@.len());
    }
    assert("entropy_bits"@ != "crack_time"@) by {
        assert("entropy_bits"@[0] != "crack_time"@[0]);
    }
}

/// The JSON writer writes a string with no quote, backslash or control
/// character unchanged.
pub proof fn law_json_escape_plain(t: Seq<char>)
    requires
        is_plain_json(t),
    ensures
        escape_spec(t) == t,
{
    lemma_escape_identity(t);
}

/// The JSON writer writes a quote, a backslash, a line break, a tab and a
/// carriage return as `\"`, `\\`, `\n`, `\t` and `\r`, wherever they stand.
pub proof fn law_json_escape_special(a: Seq<char>, c: char, b: Seq<char>, x: char)
    requires
        (c == '"' && x == '"') || (c == '\\' && x == '\\') || (c == '\n' && x == 'n') || (c
            == '\t' && x == 't') || (c == '\r' && x == 'r'),
    ensures
        escape_spec(a + seq![c] + b) == escape_spec(a) + seq!['\\', x] + escape_spec(b),
{
    lemma_escape_concat(a + seq![c], b);
    lemma_escape_concat(a, seq![c]);
    assert(seq![c].drop_last() =~= Seq::<char>::empty());
    assert(escape_spec(seq![c]) =~= seq!['\\', x]) by {
        assert(escape_spec(Seq::<char>::empty()) =~= Seq::<char>::empty());
        assert(escape_spec(seq![c]) =~= escape_spec(Seq::<char>::empty()) + escape_char(c));
    }
    assert(a + seq![c] + b =~= (a + seq![c]) + b);
}

/// In a string's body, a character other than a quote or a backslash stands
/// for itself.
pub proof fn law_string_plain_char(s: Seq<char>, i: int, acc: Seq<char>)
    requires
        0 <= i < s.len(),
        s[i] != '"',
        s[i] != '\\',
    ensures
        string_body(s, i, acc) == string_body(s, i + 1, acc.push(s[i])),
{
    reveal(string_body);
}

/// In a string's body, the escapes `\"`, `\\`, `\/`, `\n`, `\t` and `\r` stand
/// for a quote, a backslash, a slash, a line break, a tab and a carriage
/// return.
pub proof fn law_string_simple_escape(s: Seq<char>, i: int, acc: Seq<char>, x: char, d: char)
    requires
        0 <= i,
        i + 1 < s.len(),
        s[i] == '\\',
        s[i + 1] == x,
        (x == '"' && d == '"') || (x == '\\' && d == '\\') || (x == '/' && d == '/') || (x == 'n'
            && d == '\n') || (x == 't' && d == '\t') || (x == 'r' && d == '\r'),
    ensures
        string_body(s, i, acc) == string_body(s, i + 2, acc.push(d)),
{
    reveal(string_body);
}

/// In a string's body, a `\u` escape whose four digits have the value `v`
/// stands for the character with code `v`, or for `?` where `v` is a
/// surrogate code, which no character has.
pub proof fn law_string_unicode_escape(s: Seq<char>, i: int, acc: Seq<char>, v: int, c: char)
    requires
        0 <= i,
        i + 6 <= s.len(),
        s[i] == '\\',
        s[i + 1] == 'u',
        radix16_spec(s.subrange(i + 2, i + 6)) == Some(v),
        (c as u32) == v || (0xD800 <= v <= 0xDFFF && c == '?'),
    ensures
        string_body(s, i, acc) == string_body(s, i + 6, acc.push(c)),
{
    reveal(string_body);
    lemma_bytes_after(s, i + 2);
    lemma_byte_len_at_least(s.skip(i + 2));
}

/// The characters that the JSON reader skips as white space are the space,
/// the tab, the line break and the carriage return; those that make up a
/// number are the digits, the signs, the point and `e` in either case.
pub proof fn law_json_character_classes(c: char)
    ensures
        is_json_ws(c) <==> (c == ' ' || c == '\t' || c == '\n' || c == '\r'),
        is_number_char(c) <==> (48 <= (c as u32) <= 57 || c == '-' || c == '+' || c == '.' || c
            == 'e' || c == 'E'),
{
}

} // verus!
