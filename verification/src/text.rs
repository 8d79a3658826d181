//! Character-level helpers shared by both formats: decimal numerals,
//! Unicode white space, and the splitting of text into lines.
use vstd::prelude::*;

verus! {

/// Appends one character to a string.
/// Calls `String::push`, which the standard library documents as appending
/// the given `char` to the end of the string; the contract says exactly that.
#[verifier::external_body]
pub(crate) fn push_char(s: &mut String, c: char)
    ensures
        final(s)@ == old(s)@.push(c),
{
    s.push(c);
}

/// The characters of a string slice, in order.
pub fn chars_of(s: &str) -> (v: Vec<char>)
    ensures
        v@ == s@,
{
    let mut v: Vec<char> = Vec::new();
    for c in it: s.chars()
        invariant
            v@ == it.seq().take(it.index() as int),
    {
        v.push(c);
    }
    v
}

/// The ASCII digit for a value below ten.
pub open spec fn digit_char(d: int) -> char {
    ((d + 48) as u8) as char
}

/// Decimal notation of a natural number, as `Display` writes integers:
/// no sign, no leading zeros, `0` for zero.
pub open spec fn decimal(n: nat) -> Seq<char>
    decreases n,
{
    if n < 10 {
        seq![digit_char(n as int)]
    } else {
        decimal(n / 10).push(digit_char((n % 10) as int))
    }
}

fn digit(d: usize) -> (c: char)
    requires
        d < 10,
    ensures
        c == digit_char(d as int),
{
    let b: u8 = d as u8;
    (b + 48) as char
}

/// Appends the decimal notation of `n` to `out`.
pub fn push_decimal(out: &mut String, n: usize)
    ensures
        final(out)@ == old(out)@ + decimal(n as nat),
    decreases n,
{
    if n >= 10 {
        push_decimal(out, n / 10);
    }
    push_char(out, digit(n % 10));
}

/// An ASCII decimal digit.
pub open spec fn is_digit(c: char) -> bool {
    48 <= (c as u32) <= 57
}

/// The value of an ASCII decimal digit.
pub open spec fn digit_value(c: char) -> int {
    (c as u32) - 48
}

/// The value of a sequence of decimal digits (leading zeros allowed).
pub open spec fn digits_value(s: Seq<char>) -> nat
    decreases s.len(),
{
    if s.len() == 0 {
        0
    } else {
        (digits_value(s.drop_last()) * 10 + digit_value(s.last())) as nat
    }
}

/// Every character is an ASCII decimal digit.
pub open spec fn all_digits(s: Seq<char>) -> bool {
    forall|i: int| 0 <= i < s.len() ==> #[trigger] is_digit(s[i])
}

/// What `u8::from_str` gives: an optional `+` followed by one or more ASCII
/// digits whose value is at most 255; anything else is an error.
pub open spec fn parse_u8_spec(s: Seq<char>) -> Option<u8> {
    let body = if s.len() > 0 && s[0] == '+' { s.drop_first() } else { s };
    if body.len() > 0 && all_digits(body) && digits_value(body) < 256 {
        Some(digits_value(body) as u8)
    } else {
        None
    }
}

/// Parses an unsigned byte the way `u8::from_str` does.
pub fn parse_u8(text: &str) -> (r: Option<u8>)
    ensures
        r == parse_u8_spec(text@),
{
    let chars = chars_of(text);
    let s = chars.as_slice();
    let n = s.len();
    let start: usize = if n > 0 && s[0] == '+' { 1 } else { 0 };
    let ghost body = if s@.len() > 0 && s@[0] == '+' { s@.drop_first() } else { s@ };
    assert(body =~= s@.subrange(start as int, n as int));
    if start >= n {
        return None;
    }
    let mut acc: u32 = 0;
    let mut i: usize = start;
    while i < n
        invariant
            start <= i <= n,
            n == s@.len(),
            s@ == text@,
            body == (if s@.len() > 0 && s@[0] == '+' { s@.drop_first() } else { s@ }),
            body =~= s@.subrange(start as int, n as int),
            all_digits(body.take(i - start)),
            acc == if digits_value(body.take(i - start)) < 256 {
                digits_value(body.take(i - start))
            } else {
                256
            },
        decreases n - i,
    {
        let u: u32 = s[i] as u32;
        if !(48 <= u && u <= 57) {
            assert(!is_digit(body[i - start]));
            assert(!all_digits(body));
            return None;
        }
        let d: u32 = u - 48;
        assert(body.take(i + 1 - start).drop_last() =~= body.take(i - start));
        if acc >= 256 || acc * 10 + d >= 256 {
            acc = 256;
        } else {
            acc = acc * 10 + d;
        }
        i = i + 1;
        assert forall|j: int| 0 <= j < body.take(i - start).len() implies #[trigger] is_digit(
            body.take(i - start)[j],
        ) by {
            if j < i - 1 - start {
                assert(body.take(i - start)[j] == body.take(i - 1 - start)[j]);
            }
        }
    }
    assert(body.take(n - start) =~= body);
    if acc < 256 {
        Some(acc as u8)
    } else {
        None
    }
}

/// The Unicode `White_Space` property, which `char::is_whitespace` tests
/// and `str::trim` strips.
pub open spec fn is_unicode_whitespace(c: char) -> bool {
    let u = c as u32;
    ||| 0x09 <= u <= 0x0D
    ||| u == 0x20
    ||| u == 0x85
    ||| u == 0xA0
    ||| u == 0x1680
    ||| 0x2000 <= u <= 0x200A
    ||| u == 0x2028
    ||| u == 0x2029
    ||| u == 0x202F
    ||| u == 0x205F
    ||| u == 0x3000
}

/// Whether `c` is Unicode white space.
pub fn is_whitespace(c: char) -> (r: bool)
    ensures
        r == is_unicode_whitespace(c),
{
    let u = c as u32;
    (0x09 <= u && u <= 0x0D) || u == 0x20 || u == 0x85 || u == 0xA0 || u == 0x1680 || (0x2000 <= u
        && u <= 0x200A) || u == 0x2028 || u == 0x2029 || u == 0x202F || u == 0x205F || u == 0x3000
}

/// A text that trims to nothing: every character is white space.
pub open spec fn is_blank(s: Seq<char>) -> bool {
    forall|i: int| 0 <= i < s.len() ==> #[trigger] is_unicode_whitespace(s[i])
}

/// Whether every character of `text` is white space (`text.trim().is_empty()`).
pub fn blank(text: &str) -> (r: bool)
    ensures
        r == is_blank(text@),
{
    let chars = chars_of(text);
    let s = chars.as_slice();
    let mut i: usize = 0;
    while i < s.len()
        invariant
            i <= s.len(),
            s@ == text@,
            forall|j: int| 0 <= j < i ==> #[trigger] is_unicode_whitespace(s@[j]),
        decreases s.len() - i,
    {
        if !is_whitespace(s[i]) {
            return false;
        }
        i = i + 1;
    }
    true
}

/// A line without the carriage return that ends it, if it has one.
pub open spec fn strip_cr(l: Seq<char>) -> Seq<char> {
    if l.len() > 0 && l.last() == '\r' {
        l.drop_last()
    } else {
        l
    }
}

/// The lines finished so far and the unfinished line, after reading `s`.
pub open spec fn lines_split(s: Seq<char>) -> (Seq<Seq<char>>, Seq<char>)
    decreases s.len(),
{
    if s.len() == 0 {
        (seq![], seq![])
    } else {
        let (done, cur) = lines_split(s.drop_last());
        if s.last() == '\n' {
            (done.push(strip_cr(cur)), seq![])
        } else {
            (done, cur.push(s.last()))
        }
    }
}

/// The lines of a text as `str::lines` yields them: split at `\n`, a `\r`
/// just before the `\n` dropped, and no empty line after a final `\n`.
pub open spec fn lines(s: Seq<char>) -> Seq<Seq<char>> {
    let (done, cur) = lines_split(s);
    if cur.len() > 0 {
        done.push(cur)
    } else {
        done
    }
}

/// The contents of a sequence of strings.
pub open spec fn string_views(v: Seq<String>) -> Seq<Seq<char>> {
    v.map_values(|x: String| x@)
}

/// The contents of an optional string.
pub open spec fn string_option_view(o: Option<String>) -> Option<Seq<char>> {
    match o {
        Some(s) => Some(s@),
        None => None,
    }
}

/// Splits a text into lines as `str::lines` does.
pub fn split_lines(text: &str) -> (r: Vec<String>)
    ensures
        string_views(r@) == lines(text@),
{
    let chars = chars_of(text);
    let s = chars.as_slice();
    let mut done: Vec<String> = Vec::new();
    // The unfinished line, without a carriage return that may still turn out
    // to end it; `cr` tells whether such a carriage return was read.
    let mut cur = String::new();
    let mut cr = false;
    let mut i: usize = 0;
    while i < s.len()
        invariant
            i <= s.len(),
            s@ == text@,
            string_views(done@) == lines_split(s@.take(i as int)).0,
            lines_split(s@.take(i as int)).1 == (if cr {
                cur@.push('\r')
            } else {
                cur@
            }),
            !cr ==> (cur@.len() == 0 || cur@.last() != '\r'),
        decreases s.len() - i,
    {
        let c = s[i];
        assert(s@.take(i + 1).drop_last() =~= s@.take(i as int));
        if c == '\n' {
            let ghost before = string_views(done@);
            assert(cr ==> cur@.push('\r').drop_last() =~= cur@);
            done.push(cur);
            cur = String::new();
            cr = false;
            assert(string_views(done@) =~= before.push(
                strip_cr(lines_split(s@.take(i as int)).1),
            ));
        } else {
            if cr {
                push_char(&mut cur, '\r');
            }
            if c == '\r' {
                cr = true;
            } else {
                push_char(&mut cur, c);
                cr = false;
            }
        }
        i = i + 1;
    }
    assert(s@.take(s@.len() as int) =~= s@);
    if cr {
        push_char(&mut cur, '\r');
    }
    if !cur.as_str().is_empty() {
        let ghost before = string_views(done@);
        done.push(cur);
        assert(string_views(done@) =~= before.push(lines_split(text@).1));
    } else {
        assert(cur@ =~= Seq::<char>::empty());
    }
    done
}

/// The number of bytes of the UTF-8 encoding of a text.
pub open spec fn byte_len(s: Seq<char>) -> nat {
    vstd::utf8::encode_utf8(s).len()
}

/// The number of bytes of the UTF-8 encoding of one character.
pub open spec fn char_width_spec(c: char) -> nat {
    vstd::utf8::encode_scalar(c as u32).len()
}

/// The first byte of the UTF-8 encoding of a character.
pub open spec fn lead_byte_spec(c: char) -> u8 {
    vstd::utf8::encode_scalar(c as u32)[0]
}

/// The encoding of a concatenation is the concatenation of the encodings.
pub proof fn lemma_encode_utf8_concat(a: Seq<char>, b: Seq<char>)
    ensures
        vstd::utf8::encode_utf8(a + b) == vstd::utf8::encode_utf8(a) + vstd::utf8::encode_utf8(b),
    decreases a.len(),
{
    if a.len() > 0 {
        assert((a + b).drop_first() =~= a.drop_first() + b);
        lemma_encode_utf8_concat(a.drop_first(), b);
        assert(vstd::utf8::encode_utf8(a + b) =~= vstd::utf8::encode_scalar(a[0] as u32)
            + vstd::utf8::encode_utf8(a.drop_first() + b));
    } else {
        assert(a + b =~= b);
    }
}

/// The byte offset of character `i + 1` is that of character `i` plus the
/// width of character `i`, and it does not exceed the length of the text.
pub proof fn lemma_byte_len_step(s: Seq<char>, i: int)
    requires
        0 <= i < s.len(),
    ensures
        byte_len(s.take(i + 1)) == byte_len(s.take(i)) + char_width_spec(s[i]),
        byte_len(s.take(i + 1)) <= byte_len(s),
{
    assert(s.take(i + 1) =~= s.take(i) + seq![s[i]]);
    lemma_encode_utf8_concat(s.take(i), seq![s[i]]);
    assert(vstd::utf8::encode_utf8(seq![s[i]]) =~= vstd::utf8::encode_scalar(s[i] as u32)) by {
        reveal_with_fuel(vstd::utf8::encode_utf8, 2);
        assert(seq![s[i]].drop_first() =~= Seq::<char>::empty());
    }
    assert(s =~= s.take(i + 1) + s.skip(i + 1));
    lemma_encode_utf8_concat(s.take(i + 1), s.skip(i + 1));
}

/// The number of bytes of the UTF-8 encoding of `c`.
pub fn char_width(c: char) -> (w: usize)
    ensures
        w == char_width_spec(c),
        1 <= w <= 4,
{
    proof {
        vstd::utf8::char_is_scalar(c);
    }
    let u = c as u32;
    if u <= 0x7F {
        1
    } else if u <= 0x7FF {
        2
    } else if u <= 0xFFFF {
        3
    } else {
        4
    }
}

/// The first byte of the UTF-8 encoding of `c`.
pub fn lead_byte(c: char) -> (b: u8)
    ensures
        b == lead_byte_spec(c),
{
    proof {
        vstd::utf8::char_is_scalar(c);
    }
    let u = c as u32;
    if u <= 0x7F {
        (u & 0x7F) as u8
    } else if u <= 0x7FF {
        0xC0 | ((u >> 6) & 0x1F) as u8
    } else if u <= 0xFFFF {
        0xE0 | ((u >> 12) & 0x0F) as u8
    } else {
        0xF0 | ((u >> 18) & 0x7) as u8
    }
}

/// A decimal numeral reads back as its value.
pub proof fn lemma_decimal_value(n: nat)
    ensures
        digits_value(decimal(n)) == n,
        all_digits(decimal(n)),
        decimal(n).len() > 0,
        is_digit(decimal(n)[0]),
    decreases n,
{
    let c = digit_char((n % 10) as int);
    assert((((n % 10) + 48) as u8) as char as u32 == (n % 10) + 48);
    assert(digit_value(c) == n % 10);
    assert(decimal(n).last() == c);
    assert(n == (n / 10) * 10 + n % 10);
    if n >= 10 {
        lemma_decimal_value(n / 10);
        let d = decimal(n / 10);
        assert(decimal(n).drop_last() =~= d);
        assert forall|i: int| 0 <= i < decimal(n).len() implies #[trigger] is_digit(decimal(n)[i]) by {
            if i < d.len() {
                assert(decimal(n)[i] == d[i]);
            }
        }
        assert(decimal(n)[0] == d[0]);
        assert(digits_value(decimal(n)) == digits_value(d) * 10 + digit_value(c));
    } else {
        assert(decimal(n).drop_last() =~= Seq::<char>::empty());
        assert(digits_value(Seq::<char>::empty()) == 0);
        assert(digits_value(decimal(n)) == digits_value(decimal(n).drop_last()) * 10 + digit_value(c));
    }
}

/// `u8::from_str` reads back what `Display` writes for a byte.
pub proof fn lemma_parse_u8_decimal(b: u8)
    ensures
        parse_u8_spec(decimal(b as nat)) == Some(b),
{
    lemma_decimal_value(b as nat);
    assert(decimal(b as nat)[0] != '+');
}

/// `|` is not white space.
pub proof fn lemma_bar_not_blank(s: Seq<char>, i: int)
    requires
        0 <= i < s.len(),
        s[i] == '|',
    ensures
        !is_blank(s),
{
    assert(!is_unicode_whitespace(s[i]));
}

/// The lines state after a text without line breaks.
pub proof fn lemma_lines_split_no_break(a: Seq<char>, t: Seq<char>)
    requires
        forall|i: int| 0 <= i < t.len() ==> #[trigger] t[i] != '\n',
    ensures
        lines_split(a + t) == (lines_split(a).0, lines_split(a).1 + t),
    decreases t.len(),
{
    if t.len() == 0 {
        assert(a + t =~= a);
        assert(lines_split(a).1 + t =~= lines_split(a).1);
    } else {
        let p = t.drop_last();
        assert forall|i: int| 0 <= i < p.len() implies #[trigger] p[i] != '\n' by {
            assert(p[i] == t[i]);
        }
        lemma_lines_split_no_break(a, p);
        assert((a + t).drop_last() =~= a + p);
        assert((a + t).last() == t[t.len() - 1]);
        assert((lines_split(a).1 + p).push(t.last()) =~= lines_split(a).1 + t);
    }
}

/// Appending a line and its break to text that ends at a line break.
pub proof fn lemma_lines_split_line(a: Seq<char>, t: Seq<char>)
    requires
        lines_split(a).1.len() == 0,
        forall|i: int| 0 <= i < t.len() ==> #[trigger] t[i] != '\n',
        !(t.len() > 0 && t.last() == '\r'),
    ensures
        lines_split(a + t + seq!['\n']) == (lines_split(a).0.push(t), Seq::<char>::empty()),
{
    lemma_lines_split_no_break(a, t);
    assert((a + t + seq!['\n']).drop_last() =~= a + t);
    assert(lines_split(a).1 + t =~= t);
}

} // verus!
