//! A small JSON reader and writer for exactly the shape that newer tooling
//! expects: an array of objects with the four record fields. It is not a
//! general-purpose JSON library.
use vstd::prelude::*;
use crate::text::{
    byte_len, char_width, chars_of, decimal, digit_char, is_digit, lead_byte, lead_byte_spec,
    lemma_byte_len_step, push_char, push_decimal, string_option_view, string_views,
};
use crate::record::{
    Entropy, EntropyView, Record, RecordView, record_error, record_views, records_result_view,
    score_error, score_text_message,
};

verus! {

/// JSON white space.
pub open spec fn is_json_ws(c: char) -> bool {
    c == ' ' || c == '\t' || c == '\n' || c == '\r'
}

/// The byte offset, in the UTF-8 encoding of `s`, of character `i`.
#[verifier::opaque]
pub open spec fn byte_offset(s: Seq<char>, i: int) -> nat {
    byte_len(s.take(i))
}

/// The first index at or after `i` that is not JSON white space.
pub open spec fn skip_ws_spec(s: Seq<char>, i: int) -> int
    decreases s.len() - i,
{
    if 0 <= i < s.len() && is_json_ws(s[i]) {
        skip_ws_spec(s, i + 1)
    } else {
        i
    }
}

/// The byte at character index `i`, if there is one.
#[verifier::opaque]
pub open spec fn peek_spec(s: Seq<char>, i: int) -> Option<u8> {
    if 0 <= i < s.len() {
        Some(lead_byte_spec(s[i]))
    } else {
        None
    }
}

/// `Option<u8>` as `Debug` writes it.
pub open spec fn byte_debug(b: Option<u8>) -> Seq<char> {
    match b {
        Some(v) => "Some("@ + decimal(v as nat) + ")"@,
        None => "None"@,
    }
}

/// The message when `byte` was expected at byte offset `pos`.
pub open spec fn expected_message(byte: u8, pos: nat) -> Seq<char> {
    "expected '"@ + seq![byte as char] + "' at byte "@ + decimal(pos)
}

/// Skipping white space, then consuming `byte`.
#[verifier::opaque]
pub open spec fn expect_spec(s: Seq<char>, i: int, byte: u8) -> Result<int, Seq<char>> {
    let j = skip_ws_spec(s, i);
    if peek_spec(s, j) == Some(byte) {
        Ok(j + 1)
    } else {
        Err(expected_message(byte, byte_offset(s, j)))
    }
}

/// Skipping white space moves forward over white space only.
pub proof fn lemma_skip_ws(s: Seq<char>, i: int)
    ensures
        skip_ws_spec(s, i) >= i,
        i <= s.len() ==> skip_ws_spec(s, i) <= s.len(),
        forall|k: int| i <= k < skip_ws_spec(s, i) ==> #[trigger] is_json_ws(s[k]),
        0 <= i ==> (skip_ws_spec(s, i) == s.len() || skip_ws_spec(s, i) > s.len() || !is_json_ws(
            s[skip_ws_spec(s, i)],
        )),
    decreases s.len() - i,
{
    if 0 <= i < s.len() && is_json_ws(s[i]) {
        lemma_skip_ws(s, i + 1);
    }
}

/// Consuming an expected byte moves forward, within the text.
pub proof fn lemma_expect(s: Seq<char>, i: int, byte: u8)
    ensures
        expect_spec(s, i, byte) matches Ok(j) ==> i < j <= s.len(),
{
    reveal(expect_spec);
    reveal(peek_spec);
    lemma_skip_ws(s, i);
}

/// A hexadecimal digit's value.
pub open spec fn hex_value(c: char) -> Option<int> {
    let u = c as u32;
    if 48 <= u <= 57 {
        Some(u - 48)
    } else if 97 <= u <= 102 {
        Some(u - 87)
    } else if 65 <= u <= 70 {
        Some(u - 55)
    } else {
        None
    }
}

/// The value of a run of hexadecimal digits.
pub open spec fn hex_run(t: Seq<char>) -> Option<int>
    decreases t.len(),
{
    if t.len() == 0 {
        Some(0)
    } else {
        match (hex_run(t.drop_last()), hex_value(t.last())) {
            (Some(a), Some(d)) => Some(a * 16 + d),
            _ => None,
        }
    }
}

/// What `u32::from_str_radix(t, 16)` gives for a short text: an optional
/// `+` followed by one or more hexadecimal digits.
pub open spec fn radix16_spec(t: Seq<char>) -> Option<int> {
    let body = if t.len() > 0 && t[0] == '+' { t.drop_first() } else { t };
    if body.len() == 0 {
        None
    } else {
        hex_run(body)
    }
}

/// The code of a `\u` escape whose four digits start at index `k`. The four
/// bytes that follow `\u` are these four characters exactly when they are
/// ASCII, which every accepted digit is.
pub open spec fn unicode_escape_spec(s: Seq<char>, k: int) -> Option<int> {
    if 0 <= k && k + 4 <= s.len() {
        radix16_spec(s.subrange(k, k + 4))
    } else {
        None
    }
}

/// The character for a `\u` code; a surrogate becomes `?`.
pub open spec fn code_char(code: int) -> char {
    if 0xD800 <= code <= 0xDFFF {
        '?'
    } else {
        (code as u32) as char
    }
}

/// The character that an escape letter stands for, if it is a simple escape.
pub open spec fn simple_escape(c: char) -> Option<char> {
    if c == '"' {
        Some('"')
    } else if c == '\\' {
        Some('\\')
    } else if c == '/' {
        Some('/')
    } else if c == 'n' {
        Some('\n')
    } else if c == 't' {
        Some('\t')
    } else if c == 'r' {
        Some('\r')
    } else {
        None
    }
}

/// Reading the rest of a string literal from index `i`, `acc` decoded so far:
/// the decoded text and the index after the closing quote.
#[verifier::opaque]
pub open spec fn string_body(s: Seq<char>, i: int, acc: Seq<char>) -> Result<
    (Seq<char>, int),
    Seq<char>,
>
    decreases s.len() - i,
{
    if i < 0 || i >= s.len() {
        Err("unterminated string"@)
    } else if s[i] == '"' {
        Ok((acc, i + 1))
    } else if s[i] == '\\' {
        if i + 1 < s.len() && simple_escape(s[i + 1]) is Some {
            string_body(s, i + 2, acc.push(simple_escape(s[i + 1])->0))
        } else if i + 1 < s.len() && s[i + 1] == 'u' {
            if byte_len(s) - byte_offset(s, i + 2) < 4 {
                Err("truncated unicode escape"@)
            } else {
                match unicode_escape_spec(s, i + 2) {
                    None => Err("invalid unicode escape"@),
                    Some(code) => string_body(s, i + 6, acc.push(code_char(code))),
                }
            }
        } else {
            Err("invalid escape '"@ + byte_debug(peek_spec(s, i + 1)) + "'"@)
        }
    } else {
        string_body(s, i + 1, acc.push(s[i]))
    }
}

/// Reading a string literal at index `i`, white space first.
#[verifier::opaque]
pub open spec fn parse_string_spec(s: Seq<char>, i: int) -> Result<(Seq<char>, int), Seq<char>> {
    match expect_spec(s, skip_ws_spec(s, i), 34u8) {
        Err(m) => Err(m),
        Ok(j) => string_body(s, j, seq![]),
    }
}

/// Reading a string literal moves forward, within the text.
pub proof fn lemma_string_body(s: Seq<char>, i: int, acc: Seq<char>)
    ensures
        string_body(s, i, acc) matches Ok((_, j)) ==> i < j <= s.len(),
    decreases s.len() - i,
{
    reveal(string_body);
    if 0 <= i < s.len() && s[i] != '"' {
        if s[i] == '\\' {
            if i + 1 < s.len() && simple_escape(s[i + 1]) is Some {
                lemma_string_body(s, i + 2, acc.push(simple_escape(s[i + 1])->0));
            } else if i + 1 < s.len() && s[i + 1] == 'u' {
                if let Some(code) = unicode_escape_spec(s, i + 2) {
                    lemma_string_body(s, i + 6, acc.push(code_char(code)));
                }
            }
        } else {
            lemma_string_body(s, i + 1, acc.push(s[i]));
        }
    }
}

/// Reading a string literal moves forward, within the text.
pub proof fn lemma_parse_string(s: Seq<char>, i: int)
    ensures
        parse_string_spec(s, i) matches Ok((_, j)) ==> i < j <= s.len(),
{
    reveal(parse_string_spec);
    lemma_skip_ws(s, i);
    lemma_expect(s, skip_ws_spec(s, i), 34u8);
    if let Ok(j) = expect_spec(s, skip_ws_spec(s, i), 34u8) {
        lemma_string_body(s, j, seq![]);
    }
}

/// A character that may be part of a number.
pub open spec fn is_number_char(c: char) -> bool {
    is_digit(c) || c == '-' || c == '+' || c == '.' || c == 'e' || c == 'E'
}

/// The end of the run of number characters that starts at `j`.
pub open spec fn number_end(s: Seq<char>, j: int) -> int
    decreases s.len() - j,
{
    if 0 <= j < s.len() && is_number_char(s[j]) {
        number_end(s, j + 1)
    } else {
        j
    }
}

/// A number token is a run of number characters, within the text.
pub proof fn lemma_number_end(s: Seq<char>, j: int)
    ensures
        number_end(s, j) >= j,
        j <= s.len() ==> number_end(s, j) <= s.len(),
        forall|k: int| j <= k < number_end(s, j) ==> #[trigger] is_number_char(s[k]),
        0 <= j ==> (number_end(s, j) >= s.len() || !is_number_char(s[number_end(s, j)])),
    decreases s.len() - j,
{
    if 0 <= j < s.len() && is_number_char(s[j]) {
        lemma_number_end(s, j + 1);
    }
}

/// Converts a code to a character.
/// Calls `char::from_u32`, documented to give `None` exactly when the value
/// is not a Unicode scalar value (a surrogate or above `0x10FFFF`).
#[verifier::external_body]
fn char_from_u32(code: u32) -> (r: Option<char>)
    ensures
        r == (if vstd::utf8::is_scalar(code) {
            Some(code as char)
        } else {
            None
        }),
{
    char::from_u32(code)
}

/// A cursor over the text of a JSON document. `idx` counts characters and
/// `pos` the bytes of their UTF-8 encoding; `len` is the byte length.
pub struct Parser {
    pub chars: Vec<char>,
    pub idx: usize,
    pub pos: usize,
    pub len: usize,
}

impl Parser {
    /// The cursor's bookkeeping agrees with its text.
    pub open spec fn wf(&self) -> bool {
        &&& self.idx <= self.chars@.len()
        &&& self.pos == byte_offset(self.chars@, self.idx as int)
        &&& self.len == byte_len(self.chars@)
        &&& self.pos <= self.len
    }

    /// A cursor at the start of `input`.
    pub fn new(input: &str) -> (p: Parser)
        ensures
            p.wf(),
            p.chars@ == input@,
            p.idx == 0,
    {
        proof {
            reveal(byte_offset);
        }
        let chars = chars_of(input);
        let len = input.as_bytes().len();
        assert(chars@.take(0) =~= Seq::<char>::empty());
        assert(vstd::utf8::encode_utf8(Seq::<char>::empty()) =~= Seq::<u8>::empty());
        Parser { chars, idx: 0, pos: 0, len }
    }

    /// The character under the cursor.
    fn current(&self) -> (r: Option<char>)
        requires
            self.wf(),
        ensures
            r == (if self.idx < self.chars@.len() {
                Some(self.chars@[self.idx as int])
            } else {
                None
            }),
    {
        if self.idx < self.chars.len() {
            Some(self.chars[self.idx])
        } else {
            None
        }
    }

    /// Whether the character under the cursor is JSON white space.
    fn at_ws(&self) -> (r: bool)
        requires
            self.wf(),
        ensures
            r == (self.idx < self.chars@.len() && is_json_ws(self.chars@[self.idx as int])),
    {
        match self.current() {
            Some(c) => c == ' ' || c == '\t' || c == '\n' || c == '\r',
            None => false,
        }
    }

    /// Moves past the character under the cursor.
    fn advance(&mut self)
        requires
            old(self).wf(),
            old(self).idx < old(self).chars@.len(),
        ensures
            final(self).wf(),
            final(self).chars@ == old(self).chars@,
            final(self).idx >= old(self).idx,
            final(self).idx == old(self).idx + 1,
    {
        proof {
            reveal(byte_offset);
            lemma_byte_len_step(self.chars@, self.idx as int);
        }
        let w = char_width(self.chars[self.idx]);
        let n = self.chars.len();
        assert(self.idx < n);
        self.idx = self.idx + 1;
        self.pos = self.pos + w;
    }

    /// Skips JSON white space.
    pub fn skip_ws(&mut self)
        requires
            old(self).wf(),
        ensures
            final(self).wf(),
            final(self).chars@ == old(self).chars@,
            final(self).idx >= old(self).idx,
            final(self).idx == skip_ws_spec(old(self).chars@, old(self).idx as int),
    {
        let ghost s = self.chars@;
        let ghost i0 = self.idx as int;
        while self.at_ws()
            invariant
                self.wf(),
                self.chars@ == s,
                skip_ws_spec(s, self.idx as int) == skip_ws_spec(s, i0),
                self.idx >= i0,
            decreases s.len() - self.idx,
        {
            self.advance();
        }
    }

    /// The byte under the cursor, if any.
    pub fn peek(&self) -> (r: Option<u8>)
        requires
            self.wf(),
        ensures
            r == peek_spec(self.chars@, self.idx as int),
    {
        proof {
            reveal(peek_spec);
        }
        if self.idx < self.chars.len() {
            Some(lead_byte(self.chars[self.idx]))
        } else {
            None
        }
    }

    /// Skips white space, then consumes `byte` or reports where it was expected.
    pub fn expect(&mut self, byte: u8) -> (r: Result<(), String>)
        requires
            old(self).wf(),
        ensures
            final(self).wf(),
            final(self).chars@ == old(self).chars@,
            final(self).idx >= old(self).idx,
            match expect_spec(old(self).chars@, old(self).idx as int, byte) {
                Ok(j) => r is Ok && final(self).idx == j,
                Err(m) => r matches Err(e) && e@ == m && final(self).idx == skip_ws_spec(
                    old(self).chars@,
                    old(self).idx as int,
                ),
            },
    {
        proof {
            reveal(expect_spec);
            reveal(peek_spec);
        }
        self.skip_ws();
        if self.peek() == Some(byte) {
            self.advance();
            Ok(())
        } else {
            let mut m = String::new();
            m.append("expected '");
            push_char(&mut m, byte as char);
            m.append("' at byte ");
            push_decimal(&mut m, self.pos);
            Err(m)
        }
    }

    /// Reads a string literal, white space first, decoding its escapes.
    pub fn parse_string(&mut self) -> (r: Result<String, String>)
        requires
            old(self).wf(),
        ensures
            final(self).wf(),
            final(self).chars@ == old(self).chars@,
            final(self).idx >= old(self).idx,
            match parse_string_spec(old(self).chars@, old(self).idx as int) {
                Ok((v, j)) => r matches Ok(o) && o@ == v && final(self).idx == j,
                Err(m) => r matches Err(e) && e@ == m,
            },
    {
        let ghost s = self.chars@;
        let ghost target = parse_string_spec(s, self.idx as int);
        proof {
            reveal(parse_string_spec);
            reveal(string_body);
        }
        self.skip_ws();
        match self.expect(34u8) {
            Err(e) => {
                return Err(e);
            },
            Ok(()) => {},
        }
        let mut out = String::new();
        loop
            invariant
                self.wf(),
                self.chars@ == s,
                s == old(self).chars@,
                target == parse_string_spec(old(self).chars@, old(self).idx as int),
                string_body(s, self.idx as int, out@) == target,
                self.idx >= old(self).idx,
            decreases s.len() - self.idx,
        {
            proof {
                reveal(string_body);
            }
            match self.current() {
                None => {
                    return Err(String::from_str("unterminated string"));
                },
                Some(c) => {
                    if c == '"' {
                        self.advance();
                        return Ok(out);
                    } else if c == '\\' {
                        self.advance();
                        match self.current() {
                            None => {
                                let mut m = String::new();
                                m.append("invalid escape '");
                                push_byte_debug(&mut m, self.peek());
                                m.append("'");
                                return Err(m);
                            },
                            Some(e) => {
                                let simple = if e == '"' {
                                    Some('"')
                                } else if e == '\\' {
                                    Some('\\')
                                } else if e == '/' {
                                    Some('/')
                                } else if e == 'n' {
                                    Some('\n')
                                } else if e == 't' {
                                    Some('\t')
                                } else if e == 'r' {
                                    Some('\r')
                                } else {
                                    None
                                };
                                match simple {
                                    Some(d) => {
                                        push_char(&mut out, d);
                                        self.advance();
                                    },
                                    None => {
                                        if e == 'u' {
                                            self.advance();
                                            if self.len - self.pos < 4 {
                                                return Err(
                                                    String::from_str("truncated unicode escape"),
                                                );
                                            }
                                            match self.unicode_escape() {
                                                None => {
                                                    return Err(
                                                        String::from_str("invalid unicode escape"),
                                                    );
                                                },
                                                Some(d) => {
                                                    push_char(&mut out, d);
                                                },
                                            }
                                        } else {
                                            let mut m = String::new();
                                            m.append("invalid escape '");
                                            push_byte_debug(&mut m, self.peek());
                                            m.append("'");
                                            return Err(m);
                                        }
                                    },
                                }
                            },
                        }
                    } else {
                        push_char(&mut out, c);
                        self.advance();
                    }
                },
            }
        }
    }

    /// Reads the four digits of a `\u` escape under the cursor and moves past
    /// them; `None` when they are not a valid hexadecimal number.
    fn unicode_escape(&mut self) -> (r: Option<char>)
        requires
            old(self).wf(),
        ensures
            final(self).wf(),
            final(self).chars@ == old(self).chars@,
            final(self).idx >= old(self).idx,
            match unicode_escape_spec(old(self).chars@, old(self).idx as int) {
                Some(code) => r == Some(code_char(code)) && final(self).idx == old(self).idx + 4,
                None => r is None,
            },
    {
        let ghost s = self.chars@;
        let ghost k = self.idx as int;
        let n = self.chars.len();
        if n < 4 || self.idx > n - 4 {
            return None;
        }
        let t = slice_four(&self.chars, self.idx);
        assert(t@ =~= s.subrange(k, k + 4));
        match radix16(t.as_slice()) {
            None => None,
            Some(code) => {
                assert(unicode_escape_spec(s, k) == Some(code as int));
                let d = if 0xD800 <= code && code <= 0xDFFF {
                    '?'
                } else {
                    match char_from_u32(code) {
                        Some(d) => d,
                        None => '?',
                    }
                };
                assert(d == code_char(code as int));
                self.advance();
                self.advance();
                self.advance();
                self.advance();
                Some(d)
            },
        }
    }

    /// Reads the run of number characters that follows any white space:
    /// the byte offset where it starts, and its text.
    pub fn number_token(&mut self) -> (r: (usize, String))
        requires
            old(self).wf(),
        ensures
            final(self).wf(),
            final(self).chars@ == old(self).chars@,
            final(self).idx >= old(self).idx,
            ({
                let s = old(self).chars@;
                let a = skip_ws_spec(s, old(self).idx as int);
                &&& r.0 == byte_offset(s, a)
                &&& r.1@ == s.subrange(a, number_end(s, a))
                &&& final(self).idx == number_end(s, a)
            }),
    {
        let ghost s = self.chars@;
        self.skip_ws();
        let ghost a = self.idx as int;
        let start = self.pos;
        let mut text = String::new();
        proof {
            lemma_number_end(s, a);
        }
        while self.at_number_char()
            invariant
                self.wf(),
                self.chars@ == s,
                a <= self.idx <= number_end(s, a),
                number_end(s, self.idx as int) == number_end(s, a),
                text@ == s.subrange(a, self.idx as int),
            decreases s.len() - self.idx,
        {
            let c = self.chars[self.idx];
            push_char(&mut text, c);
            self.advance();
            proof {
                lemma_number_end(s, self.idx as int);
            }
            assert(text@ =~= s.subrange(a, self.idx as int));
        }
        (start, text)
    }

    /// Whether the character under the cursor may be part of a number.
    fn at_number_char(&self) -> (r: bool)
        requires
            self.wf(),
        ensures
            r == (self.idx < self.chars@.len() && is_number_char(self.chars@[self.idx as int])),
    {
        match self.current() {
            Some(c) => {
                let u = c as u32;
                (48 <= u && u <= 57) || c == '-' || c == '+' || c == '.' || c == 'e' || c == 'E'
            },
            None => false,
        }
    }
}

/// The four characters starting at `k`.
fn slice_four(v: &Vec<char>, k: usize) -> (t: Vec<char>)
    requires
        k + 4 <= v@.len(),
    ensures
        t@ == v@.subrange(k as int, k + 4),
{
    let n = v.len();
    assert(k + 4 <= n);
    let mut t: Vec<char> = Vec::new();
    t.push(v[k]);
    t.push(v[k + 1]);
    t.push(v[k + 2]);
    t.push(v[k + 3]);
    assert(t@ =~= v@.subrange(k as int, k + 4));
    t
}

/// The value of a hexadecimal digit.
fn hex_digit_value(c: char) -> (r: Option<u32>)
    ensures
        match hex_value(c) {
            Some(v) => r == Some(v as u32),
            None => r is None,
        },
{
    let u = c as u32;
    if 48 <= u && u <= 57 {
        Some(u - 48)
    } else if 97 <= u && u <= 102 {
        Some(u - 87)
    } else if 65 <= u && u <= 70 {
        Some(u - 55)
    } else {
        None
    }
}

/// Parses at most four characters the way `u32::from_str_radix(t, 16)` does.
fn radix16(t: &[char]) -> (r: Option<u32>)
    requires
        t@.len() <= 4,
    ensures
        match radix16_spec(t@) {
            Some(v) => r == Some(v as u32) && 0 <= v <= 0xFFFF,
            None => r is None,
        },
{
    let n = t.len();
    let start: usize = if n > 0 && t[0] == '+' { 1 } else { 0 };
    let ghost body = if t@.len() > 0 && t@[0] == '+' { t@.drop_first() } else { t@ };
    assert(body =~= t@.subrange(start as int, n as int));
    if start >= n {
        return None;
    }
    let mut acc: u32 = 0;
    let mut i: usize = start;
    while i < n
        invariant
            start <= i <= n,
            n == t@.len(),
            n <= 4,
            body == (if t@.len() > 0 && t@[0] == '+' { t@.drop_first() } else { t@ }),
            body =~= t@.subrange(start as int, n as int),
            hex_run(body.take(i - start)) == Some(acc as int),
            i - start <= 0 ==> acc < 1,
            i - start <= 1 ==> acc < 16,
            i - start <= 2 ==> acc < 256,
            i - start <= 3 ==> acc < 4096,
            acc < 65536,
        decreases n - i,
    {
        assert(body.take(i + 1 - start).drop_last() =~= body.take(i - start));
        assert(body.take(i + 1 - start).last() == t@[i as int]);
        match hex_digit_value(t[i]) {
            None => {
                proof {
                    lemma_hex_run_none(body, i + 1 - start);
                }
                return None;
            },
            Some(d) => {
                assert(d < 16);
                assert(acc < 4096 ==> acc * 16 + d < 65536) by (nonlinear_arith)
                    requires
                        d < 16,
                ;
                assert(acc < 256 ==> acc * 16 + d < 4096) by (nonlinear_arith)
                    requires
                        d < 16,
                ;
                assert(acc < 16 ==> acc * 16 + d < 256) by (nonlinear_arith)
                    requires
                        d < 16,
                ;
                assert(acc < 1 ==> acc * 16 + d < 16) by (nonlinear_arith)
                    requires
                        d < 16,
                ;
                acc = acc * 16 + d;
            },
        }
        i = i + 1;
    }
    assert(body.take(n - start) =~= body);
    Some(acc)
}

/// A run with an invalid digit in some prefix is invalid.
proof fn lemma_hex_run_none(t: Seq<char>, k: int)
    requires
        0 <= k <= t.len(),
        hex_run(t.take(k)) is None,
    ensures
        hex_run(t) is None,
    decreases t.len(),
{
    if k < t.len() {
        assert(t.drop_last().take(k) =~= t.take(k));
        lemma_hex_run_none(t.drop_last(), k);
    } else {
        assert(t.take(k) =~= t);
    }
}

/// Appends `Option<u8>` as `Debug` writes it.
fn push_byte_debug(out: &mut String, b: Option<u8>)
    ensures
        final(out)@ == old(out)@ + byte_debug(b),
{
    match b {
        Some(v) => {
            out.append("Some(");
            push_decimal(out, v as usize);
            out.append(")");
        },
        None => {
            out.append("None");
        },
    }
}

/// A lowercase hexadecimal digit.
pub open spec fn hex_char_spec(d: int) -> char {
    if d < 10 {
        digit_char(d)
    } else {
        ((d + 87) as u8) as char
    }
}

/// Four lowercase hexadecimal digits, as `{:04x}` writes a value below 0x10000.
pub open spec fn hex4(v: int) -> Seq<char> {
    seq![
        hex_char_spec((v / 4096) % 16),
        hex_char_spec((v / 256) % 16),
        hex_char_spec((v / 16) % 16),
        hex_char_spec(v % 16),
    ]
}

/// How one character of a string is written.
pub open spec fn escape_char(c: char) -> Seq<char> {
    if c == '"' {
        seq!['\\', '"']
    } else if c == '\\' {
        seq!['\\', '\\']
    } else if c == '\n' {
        seq!['\\', 'n']
    } else if c == '\t' {
        seq!['\\', 't']
    } else if c == '\r' {
        seq!['\\', 'r']
    } else if (c as u32) < 0x20 {
        seq!['\\', 'u'] + hex4((c as u32) as int)
    } else {
        seq![c]
    }
}

/// A string as it is written between quotes.
pub open spec fn escape_spec(s: Seq<char>) -> Seq<char>
    decreases s.len(),
{
    if s.len() == 0 {
        seq![]
    } else {
        escape_spec(s.drop_last()) + escape_char(s.last())
    }
}

fn hex_char(d: u32) -> (c: char)
    requires
        d < 16,
    ensures
        c == hex_char_spec(d as int),
{
    let b: u8 = d as u8;
    if b < 10 {
        (b + 48) as char
    } else {
        (b + 87) as char
    }
}

/// Escapes quotes, backslashes and control characters for a JSON string.
pub fn escape(s: &str) -> (r: String)
    ensures
        r@ == escape_spec(s@),
{
    let mut out = String::new();
    for c in it: s.chars()
        invariant
            out@ == escape_spec(it.seq().take(it.index() as int)),
    {
        proof {
            let k = it.index() as int;
            assert(it.seq().take(k + 1).drop_last() =~= it.seq().take(k));
        }
        let u = c as u32;
        if c == '"' {
            push_char(&mut out, '\\');
            push_char(&mut out, '"');
        } else if c == '\\' {
            push_char(&mut out, '\\');
            push_char(&mut out, '\\');
        } else if c == '\n' {
            push_char(&mut out, '\\');
            push_char(&mut out, 'n');
        } else if c == '\t' {
            push_char(&mut out, '\\');
            push_char(&mut out, 't');
        } else if c == '\r' {
            push_char(&mut out, '\\');
            push_char(&mut out, 'r');
        } else if u < 0x20 {
            push_char(&mut out, '\\');
            push_char(&mut out, 'u');
            push_char(&mut out, hex_char((u / 4096) % 16));
            push_char(&mut out, hex_char((u / 256) % 16));
            push_char(&mut out, hex_char((u / 16) % 16));
            push_char(&mut out, hex_char(u % 16));
        } else {
            push_char(&mut out, c);
        }
        assert(out@ =~= escape_spec(it.seq().take(it.index() as int + 1)));
    }
    assert(s@.take(s@.len() as int) =~= s@);
    out
}

/// One record as an object line, with a comma unless it is the last.
pub open spec fn object_text(r: RecordView, last: bool) -> Seq<char> {
    "  {\"label\": \""@ + escape_spec(r.label) + "\", \"score\": "@ + decimal(r.score as nat)
        + ", \"entropy_bits\": "@ + r.entropy_bits.fixed + ", \"crack_time\": \""@ + escape_spec(
        r.crack_time,
    ) + "\"}"@ + (if last {
        seq![]
    } else {
        seq![',']
    }) + seq!['\n']
}

/// The object lines of the first `k` records.
pub open spec fn objects_text(rs: Seq<RecordView>, k: int) -> Seq<char>
    decreases k,
{
    if k <= 0 {
        seq![]
    } else {
        objects_text(rs, k - 1) + object_text(rs[k - 1], k == rs.len())
    }
}

/// Records as a JSON array, one object per line.
pub open spec fn write_spec(rs: Seq<RecordView>) -> Seq<char> {
    "[\n"@ + objects_text(rs, rs.len() as int) + "]\n"@
}

/// Appends one record as an object line.
fn push_object(out: &mut String, r: &Record, last: bool)
    ensures
        final(out)@ == old(out)@ + object_text(r@, last),
{
    out.append("  {\"label\": \"");
    let label = escape(r.label.as_str());
    out.append(label.as_str());
    out.append("\", \"score\": ");
    push_decimal(out, r.score as usize);
    out.append(", \"entropy_bits\": ");
    out.append(r.entropy_bits.fixed.as_str());
    out.append(", \"crack_time\": \"");
    let crack = escape(r.crack_time.as_str());
    out.append(crack.as_str());
    out.append("\"}");
    if !last {
        push_char(out, ',');
    }
    push_char(out, '\n');
    assert(out@ =~= old(out)@ + object_text(r@, last));
}

/// Writes records as a JSON array, the entropy with two decimals.
pub fn write(records: &[Record]) -> (r: String)
    ensures
        r@ == write_spec(record_views(records@)),
{
    let ghost rv = record_views(records@);
    let mut out = String::new();
    out.append("[\n");
    let n = records.len();
    let mut k: usize = 0;
    while k < n
        invariant
            k <= n,
            n == records@.len(),
            rv == record_views(records@),
            out@ == "[\n"@ + objects_text(rv, k as int),
        decreases n - k,
    {
        let r = &records[k];
        assert(rv[k as int] == r@);
        let ghost before = out@;
        push_object(&mut out, r, k + 1 == n);
        assert(out@ =~= "[\n"@ + objects_text(rv, k + 1));
        k = k + 1;
    }
    out.append("]\n");
    out
}

/// A step of reading a document that the library records: a number token
/// (where it starts and its text), or the end of an object (the value of
/// each known field seen in it, a number field by the index of its token
/// among all number tokens).
pub enum JsonEvent {
    Number { start: usize, text: String },
    ObjectEnd {
        label: Option<String>,
        score: Option<usize>,
        entropy_bits: Option<usize>,
        crack_time: Option<String>,
    },
}

/// The fields seen in an object, a number field by the index of its token.
pub struct FieldsView {
    pub label: Option<Seq<char>>,
    pub score: Option<nat>,
    pub entropy_bits: Option<nat>,
    pub crack_time: Option<Seq<char>>,
}

/// The contents of a [`JsonEvent`].
pub enum JsonEventView {
    Number { start: nat, text: Seq<char> },
    ObjectEnd(FieldsView),
}

/// The contents of an optional token index.
pub open spec fn index_option_view(o: Option<usize>) -> Option<nat> {
    match o {
        Some(i) => Some(i as nat),
        None => None,
    }
}

impl View for JsonEvent {
    type V = JsonEventView;

    open spec fn view(&self) -> JsonEventView {
        match self {
            JsonEvent::Number { start, text } => JsonEventView::Number {
                start: *start as nat,
                text: text@,
            },
            JsonEvent::ObjectEnd { label, score, entropy_bits, crack_time } => JsonEventView::ObjectEnd(
                FieldsView {
                    label: string_option_view(*label),
                    score: index_option_view(*score),
                    entropy_bits: index_option_view(*entropy_bits),
                    crack_time: string_option_view(*crack_time),
                },
            ),
        }
    }
}

/// What reading a document up to its end, or up to the first problem that
/// does not depend on the value of a number, records; and that problem.
pub struct JsonScan {
    pub events: Vec<JsonEvent>,
    pub failure: Option<String>,
}

/// The contents of a [`JsonScan`].
pub struct JsonScanView {
    pub events: Seq<JsonEventView>,
    pub failure: Option<Seq<char>>,
}

/// The contents of a sequence of events.
pub open spec fn event_views(v: Seq<JsonEvent>) -> Seq<JsonEventView> {
    v.map_values(|e: JsonEvent| e@)
}

impl View for JsonScan {
    type V = JsonScanView;

    open spec fn view(&self) -> JsonScanView {
        JsonScanView { events: event_views(self.events@), failure: string_option_view(self.failure) }
    }
}

/// No field seen yet.
pub open spec fn no_fields() -> FieldsView {
    FieldsView { label: None, score: None, entropy_bits: None, crack_time: None }
}

/// A scan that stopped with message `m` after recording `ev`.
pub open spec fn scan_fail(ev: Seq<JsonEventView>, m: Seq<char>) -> JsonScanView {
    JsonScanView { events: ev, failure: Some(m) }
}

/// Reading objects from index `i`, where an object must start; `ev` was
/// recorded so far and `n` number tokens were met.
pub open spec fn objects_from(s: Seq<char>, i: int, ev: Seq<JsonEventView>, n: nat) -> JsonScanView
    decreases s.len() - i,
{
    match expect_spec(s, i, 123u8) {
        Err(m) => scan_fail(ev, m),
        Ok(j) => {
            proof {
                lemma_expect(s, i, 123u8);
            }
            members_from(s, j, no_fields(), ev, n)
        },
    }
}

/// Reading the members of an object from index `i`, where a key must come.
pub open spec fn members_from(
    s: Seq<char>,
    i: int,
    f: FieldsView,
    ev: Seq<JsonEventView>,
    n: nat,
) -> JsonScanView
    decreases s.len() - i,
{
    match parse_string_spec(s, i) {
        Err(m) => scan_fail(ev, m),
        Ok((key, j)) => {
            proof {
                lemma_parse_string(s, i);
            }
            match expect_spec(s, j, 58u8) {
                Err(m) => scan_fail(ev, m),
                Ok(k) => {
                    proof {
                        lemma_expect(s, j, 58u8);
                        lemma_skip_ws(s, k);
                        lemma_number_end(s, skip_ws_spec(s, k));
                        lemma_parse_string(s, k);
                    }
                    let a = skip_ws_spec(s, k);
                    let b = number_end(s, a);
                    let token = JsonEventView::Number { start: byte_offset(s, a), text: s.subrange(a, b) };
                    if key == "label"@ {
                        match parse_string_spec(s, k) {
                            Err(m) => scan_fail(ev, m),
                            Ok((v, k2)) => after_member(
                                s,
                                k2,
                                FieldsView { label: Some(v), ..f },
                                ev,
                                n,
                            ),
                        }
                    } else if key == "score"@ {
                        after_member(s, b, FieldsView { score: Some(n), ..f }, ev.push(token), n + 1)
                    } else if key == "entropy_bits"@ {
                        after_member(
                            s,
                            b,
                            FieldsView { entropy_bits: Some(n), ..f },
                            ev.push(token),
                            n + 1,
                        )
                    } else if key == "crack_time"@ {
                        match parse_string_spec(s, k) {
                            Err(m) => scan_fail(ev, m),
                            Ok((v, k2)) => after_member(
                                s,
                                k2,
                                FieldsView { crack_time: Some(v), ..f },
                                ev,
                                n,
                            ),
                        }
                    } else {
                        scan_fail(ev, "unknown field '"@ + key + "'"@)
                    }
                },
            }
        },
    }
}

/// After a member's value at index `i`: a comma (another member follows)
/// or the closing brace.
pub open spec fn after_member(
    s: Seq<char>,
    i: int,
    f: FieldsView,
    ev: Seq<JsonEventView>,
    n: nat,
) -> JsonScanView
    decreases s.len() - i,
{
    let j = skip_ws_spec(s, i);
    proof {
        lemma_skip_ws(s, i);
    }
    if 0 <= j < s.len() && s[j] == ',' {
        members_from(s, j + 1, f, ev, n)
    } else if 0 <= j < s.len() && s[j] == '}' {
        after_object(s, j + 1, ev.push(JsonEventView::ObjectEnd(f)), n)
    } else {
        scan_fail(ev, "unexpected byte "@ + byte_debug(peek_spec(s, j)) + " in object"@)
    }
}

/// After an object at index `i`: a comma (another object follows) or the
/// closing bracket, after which nothing more is read.
pub open spec fn after_object(s: Seq<char>, i: int, ev: Seq<JsonEventView>, n: nat) -> JsonScanView
    decreases s.len() - i,
{
    let j = skip_ws_spec(s, i);
    proof {
        lemma_skip_ws(s, i);
    }
    if 0 <= j < s.len() && s[j] == ',' {
        objects_from(s, j + 1, ev, n)
    } else if 0 <= j < s.len() && s[j] == ']' {
        JsonScanView { events: ev, failure: None }
    } else {
        scan_fail(ev, "unexpected byte "@ + byte_debug(peek_spec(s, j)) + " after object"@)
    }
}

/// Reading a whole document: an opening bracket, then either a closing
/// bracket or objects.
pub open spec fn scan_spec(s: Seq<char>) -> JsonScanView {
    match expect_spec(s, 0, 91u8) {
        Err(m) => scan_fail(seq![], m),
        Ok(i) => {
            let j = skip_ws_spec(s, i);
            if 0 <= j < s.len() && s[j] == ']' {
                JsonScanView { events: seq![], failure: None }
            } else {
                objects_from(s, j, seq![], 0)
            }
        },
    }
}

/// How many number tokens a sequence of events holds.
pub open spec fn numbers_in(ev: Seq<JsonEventView>) -> nat
    decreases ev.len(),
{
    if ev.len() == 0 {
        0
    } else {
        numbers_in(ev.drop_last()) + (if ev.last() is Number {
            1nat
        } else {
            0nat
        })
    }
}

/// The number fields of an object refer to tokens among the first `n`.
pub open spec fn fields_below(f: FieldsView, n: nat) -> bool {
    &&& (f.score matches Some(x) ==> x < n)
    &&& (f.entropy_bits matches Some(x) ==> x < n)
}

/// Every object end refers only to number tokens met before it.
#[verifier::opaque]
pub open spec fn events_wf(ev: Seq<JsonEventView>) -> bool {
    forall|k: int|
        0 <= k < ev.len() ==> (#[trigger] ev[k] matches JsonEventView::ObjectEnd(f) ==> fields_below(
            f,
            numbers_in(ev.take(k)),
        ))
}

proof fn lemma_events_push(ev: Seq<JsonEventView>, e: JsonEventView)
    requires
        events_wf(ev),
        e matches JsonEventView::ObjectEnd(f) ==> fields_below(f, numbers_in(ev)),
    ensures
        events_wf(ev.push(e)),
        numbers_in(ev.push(e)) == numbers_in(ev) + (if e is Number {
            1nat
        } else {
            0nat
        }),
{
    reveal(events_wf);
    let ev2 = ev.push(e);
    assert(ev2.drop_last() =~= ev);
    assert forall|k: int|
        0 <= k < ev2.len() implies (#[trigger] ev2[k] matches JsonEventView::ObjectEnd(f)
        ==> fields_below(f, numbers_in(ev2.take(k)))) by {
        if k < ev.len() {
            assert(ev2.take(k) =~= ev.take(k));
            assert(ev2[k] == ev[k]);
        } else {
            assert(ev2.take(k) =~= ev);
        }
    }
}

/// The contents of the fields seen in an object.
pub open spec fn fields_view(
    label: Option<String>,
    score: Option<usize>,
    entropy_bits: Option<usize>,
    crack_time: Option<String>,
) -> FieldsView {
    FieldsView {
        label: string_option_view(label),
        score: index_option_view(score),
        entropy_bits: index_option_view(entropy_bits),
        crack_time: string_option_view(crack_time),
    }
}

impl Parser {
    /// Whether the character under the cursor is `c`.
    fn at_char(&self, c: char) -> (r: bool)
        requires
            self.wf(),
        ensures
            r == (self.idx < self.chars@.len() && self.chars@[self.idx as int] == c),
    {
        match self.current() {
            Some(d) => d == c,
            None => false,
        }
    }

    /// The message for an unexpected byte under the cursor, `where_` telling
    /// where it was met.
    fn unexpected(&self, where_: &str) -> (m: String)
        requires
            self.wf(),
        ensures
            m@ == "unexpected byte "@ + byte_debug(peek_spec(self.chars@, self.idx as int)) + where_@,
    {
        let mut m = String::new();
        m.append("unexpected byte ");
        push_byte_debug(&mut m, self.peek());
        m.append(where_);
        m
    }
}

/// The fields seen so far in the object being read.
struct Fields {
    label: Option<String>,
    score: Option<usize>,
    entropy_bits: Option<usize>,
    crack_time: Option<String>,
}

impl View for Fields {
    type V = FieldsView;

    closed spec fn view(&self) -> FieldsView {
        fields_view(self.label, self.score, self.entropy_bits, self.crack_time)
    }
}

/// What the scanning functions keep between steps.
pub open spec fn scan_state_ok(p: Parser, events: Seq<JsonEvent>, n: usize) -> bool {
    &&& p.wf()
    &&& events_wf(event_views(events))
    &&& numbers_in(event_views(events)) == n
    &&& n <= p.idx
}

/// Appends an event, keeping the events well formed.
fn push_event(events: &mut Vec<JsonEvent>, ev: JsonEvent)
    requires
        events_wf(event_views(old(events)@)),
        ev@ matches JsonEventView::ObjectEnd(f) ==> fields_below(
            f,
            numbers_in(event_views(old(events)@)),
        ),
    ensures
        event_views(final(events)@) == event_views(old(events)@).push(ev@),
        events_wf(event_views(final(events)@)),
        numbers_in(event_views(final(events)@)) == numbers_in(event_views(old(events)@)) + (
        if ev@ is Number {
            1nat
        } else {
            0nat
        }),
{
    let ghost before = event_views(events@);
    proof {
        lemma_events_push(before, ev@);
    }
    let ghost e = ev@;
    events.push(ev);
    assert(event_views(events@) =~= before.push(e));
}

/// Reads one member of an object and the comma or brace after it.
/// `Ok(true)` when the brace closed the object.
fn scan_member(p: &mut Parser, events: &mut Vec<JsonEvent>, fields: &mut Fields, n: &mut usize) -> (r:
    Result<bool, String>)
    requires
        scan_state_ok(*old(p), old(events)@, *old(n)),
        fields_below(old(fields)@, *old(n) as nat),
    ensures
        final(p).chars@ == old(p).chars@,
        final(p).idx >= old(p).idx,
        scan_state_ok(*final(p), final(events)@, *final(n)),
        fields_below(final(fields)@, *final(n) as nat),
        ({
            let before = members_from(
                old(p).chars@,
                old(p).idx as int,
                old(fields)@,
                event_views(old(events)@),
                *old(n) as nat,
            );
            match r {
                Err(m) => before == scan_fail(event_views(final(events)@), m@),
                Ok(false) => before == members_from(
                    final(p).chars@,
                    final(p).idx as int,
                    final(fields)@,
                    event_views(final(events)@),
                    *final(n) as nat,
                ) && final(p).idx > old(p).idx,
                Ok(true) => before == after_object(
                    final(p).chars@,
                    final(p).idx as int,
                    event_views(final(events)@),
                    *final(n) as nat,
                ) && final(p).idx > old(p).idx,
            }
        }),
{
    let ghost s = p.chars@;
    let ghost i0 = p.idx as int;
    let ghost target = members_from(s, i0, fields@, event_views(events@), *n as nat);
    proof {
        lemma_parse_string(s, i0);
    }
    let key = match p.parse_string() {
        Err(m) => {
            return Err(m);
        },
        Ok(k) => k,
    };
    let ghost j = p.idx as int;
    proof {
        lemma_expect(s, j, 58u8);
    }
    match p.expect(58u8) {
        Err(m) => {
            return Err(m);
        },
        Ok(()) => {},
    }
    let ghost k = p.idx as int;
    proof {
        lemma_skip_ws(s, k);
        lemma_number_end(s, skip_ws_spec(s, k));
        lemma_parse_string(s, k);
    }
    if key == String::from_str("label") {
        match p.parse_string() {
            Err(m) => {
                return Err(m);
            },
            Ok(v) => {
                fields.label = Some(v);
            },
        }
    } else if key == String::from_str("score") {
        let (start, text) = p.number_token();
        push_event(events, JsonEvent::Number { start, text });
        fields.score = Some(*n);
        *n = *n + 1;
    } else if key == String::from_str("entropy_bits") {
        let (start, text) = p.number_token();
        push_event(events, JsonEvent::Number { start, text });
        fields.entropy_bits = Some(*n);
        *n = *n + 1;
    } else if key == String::from_str("crack_time") {
        match p.parse_string() {
            Err(m) => {
                return Err(m);
            },
            Ok(v) => {
                fields.crack_time = Some(v);
            },
        }
    } else {
        let mut m = String::new();
        m.append("unknown field '");
        m.append(key.as_str());
        m.append("'");
        return Err(m);
    }
    let ghost m_idx = p.idx as int;
    proof {
        lemma_skip_ws(s, m_idx);
    }
    assert(target == after_member(s, m_idx, fields@, event_views(events@), *n as nat));
    p.skip_ws();
    if p.at_char(',') {
        p.advance();
        Ok(false)
    } else if p.at_char('}') {
        p.advance();
        let ghost fv = fields@;
        let done = JsonEvent::ObjectEnd {
            label: fields.label.take(),
            score: fields.score.take(),
            entropy_bits: fields.entropy_bits.take(),
            crack_time: fields.crack_time.take(),
        };
        assert(done@ == JsonEventView::ObjectEnd(fv));
        push_event(events, done);
        Ok(true)
    } else {
        Err(p.unexpected(" in object"))
    }
}

/// Reads one object and the comma or bracket after it. `Ok(true)` when a
/// comma announced another object.
fn scan_object(p: &mut Parser, events: &mut Vec<JsonEvent>, n: &mut usize) -> (r: Result<
    bool,
    String,
>)
    requires
        scan_state_ok(*old(p), old(events)@, *old(n)),
    ensures
        final(p).chars@ == old(p).chars@,
        final(p).idx >= old(p).idx,
        scan_state_ok(*final(p), final(events)@, *final(n)),
        ({
            let before = objects_from(
                old(p).chars@,
                old(p).idx as int,
                event_views(old(events)@),
                *old(n) as nat,
            );
            match r {
                Err(m) => before == scan_fail(event_views(final(events)@), m@),
                Ok(true) => before == objects_from(
                    final(p).chars@,
                    final(p).idx as int,
                    event_views(final(events)@),
                    *final(n) as nat,
                ) && final(p).idx > old(p).idx,
                Ok(false) => before == (JsonScanView {
                    events: event_views(final(events)@),
                    failure: None,
                }),
            }
        }),
{
    let ghost s = p.chars@;
    let ghost target = objects_from(s, p.idx as int, event_views(events@), *n as nat);
    proof {
        lemma_expect(s, p.idx as int, 123u8);
    }
    match p.expect(123u8) {
        Err(m) => {
            return Err(m);
        },
        Ok(()) => {},
    }
    let mut fields = Fields { label: None, score: None, entropy_bits: None, crack_time: None };
    assert(fields@ == no_fields());
    assert(target == members_from(s, p.idx as int, no_fields(), event_views(events@), *n as nat));
    let mut closed = false;
    while !closed
        invariant
            p.chars@ == s,
            s == old(p).chars@,
            target == objects_from(
                old(p).chars@,
                old(p).idx as int,
                event_views(old(events)@),
                *old(n) as nat,
            ),
            p.idx >= old(p).idx,
            scan_state_ok(*p, events@, *n),
            fields_below(fields@, *n as nat),
            !closed ==> members_from(s, p.idx as int, fields@, event_views(events@), *n as nat)
                == target,
            closed ==> after_object(s, p.idx as int, event_views(events@), *n as nat) == target,
        decreases s.len() - p.idx, if closed { 0int } else { 1int },
    {
        match scan_member(p, events, &mut fields, n) {
            Err(m) => {
                return Err(m);
            },
            Ok(c) => {
                closed = c;
            },
        }
    }
    let ghost a = p.idx as int;
    proof {
        lemma_skip_ws(s, a);
    }
    p.skip_ws();
    if p.at_char(',') {
        p.advance();
        Ok(true)
    } else if p.at_char(']') {
        p.advance();
        Ok(false)
    } else {
        Err(p.unexpected(" after object"))
    }
}

/// Reads a document up to its end or up to the first problem that does not
/// depend on the value of a number. Number tokens are recorded as written:
/// turning them into numbers is floating-point work that the caller does
/// before calling [`parse`].
pub fn scan(input: &str) -> (r: JsonScan)
    ensures
        r@ == scan_spec(input@),
        events_wf(r@.events),
{
    let mut p = Parser::new(input);
    let ghost s = p.chars@;
    let mut events: Vec<JsonEvent> = Vec::new();
    assert(event_views(events@) =~= seq![]);
    proof {
        reveal(events_wf);
    }
    match p.expect(91u8) {
        Err(m) => {
            return JsonScan { events, failure: Some(m) };
        },
        Ok(()) => {},
    }
    p.skip_ws();
    if p.at_char(']') {
        p.advance();
        return JsonScan { events, failure: None };
    }
    let mut n: usize = 0;
    let mut more = true;
    while more
        invariant
            p.chars@ == s,
            s == input@,
            scan_state_ok(p, events@, n),
            more ==> objects_from(s, p.idx as int, event_views(events@), n as nat) == scan_spec(s),
            !more ==> (JsonScanView { events: event_views(events@), failure: None }) == scan_spec(
                s,
            ),
        decreases s.len() - p.idx, if more { 1int } else { 0int },
    {
        match scan_object(&mut p, &mut events, &mut n) {
            Err(m) => {
                return JsonScan { events, failure: Some(m) };
            },
            Ok(again) => {
                more = again;
            },
        }
    }
    JsonScan { events, failure: None }
}

/// The texts of the number tokens among some events, in order.
pub open spec fn number_texts_spec(ev: Seq<JsonEventView>) -> Seq<Seq<char>>
    decreases ev.len(),
{
    if ev.len() == 0 {
        seq![]
    } else {
        let before = number_texts_spec(ev.drop_last());
        match ev.last() {
            JsonEventView::Number { start, text } => before.push(text),
            JsonEventView::ObjectEnd(_) => before,
        }
    }
}

/// There is one number text per number token.
pub proof fn lemma_number_texts_len(ev: Seq<JsonEventView>)
    ensures
        number_texts_spec(ev).len() == numbers_in(ev),
    decreases ev.len(),
{
    if ev.len() > 0 {
        lemma_number_texts_len(ev.drop_last());
    }
}

/// The texts of the number tokens of a scan, in order: the caller turns
/// each into a [`Number`] before calling [`parse`], which needs one per token.
pub fn number_texts(scan: &JsonScan) -> (r: Vec<String>)
    ensures
        string_views(r@) == number_texts_spec(scan@.events),
        r@.len() == numbers_in(scan@.events),
{
    let ghost ev = scan@.events;
    let mut out: Vec<String> = Vec::new();
    let mut k: usize = 0;
    assert(ev.take(0) =~= Seq::<JsonEventView>::empty());
    assert(string_views(out@) =~= Seq::<Seq<char>>::empty());
    while k < scan.events.len()
        invariant
            k <= scan.events@.len(),
            ev == scan@.events,
            ev.len() == scan.events@.len(),
            string_views(out@) == number_texts_spec(ev.take(k as int)),
        decreases scan.events@.len() - k,
    {
        assert(ev.take(k + 1).drop_last() =~= ev.take(k as int));
        assert(ev[k as int] == scan.events@[k as int]@);
        match &scan.events[k] {
            JsonEvent::Number { start, text } => {
                let ghost before = string_views(out@);
                out.push(text.clone());
                assert(string_views(out@) =~= before.push(text@));
            },
            JsonEvent::ObjectEnd { .. } => {},
        }
        k = k + 1;
    }
    assert(ev.take(ev.len() as int) =~= ev);
    proof {
        lemma_number_texts_len(ev);
    }
    out
}

/// What a number token denotes, as the library sees it: the value as an
/// entropy; the value converted to a byte as a score is (`as u8`: the
/// fraction dropped, saturating at 0 and 255); and whether the value is that
/// byte exactly, that is a whole number from 0 to 255.
#[derive(Debug, Clone, PartialEq)]
pub struct Number {
    pub as_score: u8,
    pub exact: bool,
    pub value: Entropy,
}

/// The contents of a [`Number`].
pub struct NumberView {
    pub as_score: u8,
    pub exact: bool,
    pub value: EntropyView,
}

impl View for Number {
    type V = NumberView;

    open spec fn view(&self) -> NumberView {
        NumberView { as_score: self.as_score, exact: self.exact, value: self.value@ }
    }
}

/// The numbers handed to [`parse`], by their contents.
pub open spec fn number_options(v: Seq<Option<Number>>) -> Seq<Option<NumberView>> {
    v.map_values(
        |o: Option<Number>|
            match o {
                Some(x) => Some(x@),
                None => None,
            },
    )
}

/// Building the records from event `k` on, `n` number tokens having been
/// met before it and `acc` built so far. `vals[t]` is what number token `t`
/// denotes, or `None` when it is not a number.
pub open spec fn resolve_events(
    ev: Seq<JsonEventView>,
    vals: Seq<Option<NumberView>>,
    failure: Option<Seq<char>>,
    k: int,
    n: int,
    acc: Seq<RecordView>,
) -> Result<Seq<RecordView>, Seq<char>>
    decreases ev.len() - k,
{
    if k < 0 || k >= ev.len() {
        match failure {
            Some(m) => Err(m),
            None => Ok(acc),
        }
    } else {
        match ev[k] {
            JsonEventView::Number { start, text } => {
                if vals[n] is None {
                    Err("invalid number at byte "@ + decimal(start))
                } else {
                    resolve_events(ev, vals, failure, k + 1, n + 1, acc)
                }
            },
            JsonEventView::ObjectEnd(f) => {
                if f.label is None {
                    Err("missing 'label'"@)
                } else if f.score is None {
                    Err("missing 'score'"@)
                } else if f.entropy_bits is None {
                    Err("missing 'entropy_bits'"@)
                } else if f.crack_time is None {
                    Err("missing 'crack_time'"@)
                } else {
                    let label = f.label->0;
                    let num = vals[f.score->0 as int]->0;
                    let e = vals[f.entropy_bits->0 as int]->0.value;
                    let crack_time = f.crack_time->0;
                    let score = num.as_score;
                    if score <= 4 && !num.exact {
                        Err(score_text_message(label, num.value.shown))
                    } else {
                        match record_error(label, score, e) {
                            Some(m) => Err(m),
                            None => resolve_events(
                                ev,
                                vals,
                                failure,
                                k + 1,
                                n,
                                acc.push(RecordView { label, score, entropy_bits: e, crack_time }),
                            ),
                        }
                    }
                }
            },
        }
    }
}

/// What [`parse`] gives for a scan and the numbers of its tokens.
pub open spec fn parse_spec(scan: JsonScanView, vals: Seq<Option<NumberView>>) -> Result<
    Seq<RecordView>,
    Seq<char>,
> {
    resolve_events(scan.events, vals, scan.failure, 0, 0, seq![])
}

proof fn lemma_numbers_in_prefix(ev: Seq<JsonEventView>, j: int)
    requires
        0 <= j <= ev.len(),
    ensures
        numbers_in(ev.take(j)) <= numbers_in(ev),
    decreases ev.len(),
{
    if j < ev.len() {
        assert(ev.drop_last().take(j) =~= ev.take(j));
        lemma_numbers_in_prefix(ev.drop_last(), j);
    } else {
        assert(ev.take(j) =~= ev);
    }
}

/// Builds the records of a scanned document. `numbers[t]` is what number
/// token `t` denotes, or `None` where it is not a number. Events are taken in
/// order: a token that is not a number, a missing field (label, score,
/// entropy_bits, crack_time, in that order), a score out of range or an
/// entropy out of range is reported where it is met; after the last event,
/// the failure of the scan if any. A score whose byte (`as_score`) is above
/// 4 is reported by that byte; one whose byte is from 0 to 4 but that is not
/// exactly that whole number is reported as written.
/// [`number_texts`] gives the token texts, one per entry of `numbers`.
pub fn parse(scan: &JsonScan, numbers: &[Option<Number>]) -> (r: Result<Vec<Record>, String>)
    requires
        events_wf(scan@.events),
        numbers@.len() == numbers_in(scan@.events),
    ensures
        records_result_view(r) == parse_spec(scan@, number_options(numbers@)),
        r matches Ok(v) ==> forall|i: int| 0 <= i < v@.len() ==> #[trigger] v@[i].score <= 4
            && v@[i].entropy_bits.in_range,
{
    let ghost ev = scan@.events;
    let ghost vals = number_options(numbers@);
    let mut out: Vec<Record> = Vec::new();
    assert(record_views(out@) =~= seq![]);
    let mut k: usize = 0;
    let mut n: usize = 0;
    assert(ev.take(0) =~= seq![]);
    while k < scan.events.len()
        invariant
            k <= scan.events@.len(),
            ev == scan@.events,
            ev.len() == scan.events@.len(),
            vals == number_options(numbers@),
            events_wf(ev),
            numbers@.len() == numbers_in(ev),
            n == numbers_in(ev.take(k as int)),
            forall|t: int| 0 <= t < n ==> #[trigger] numbers@[t] is Some,
            resolve_events(ev, vals, scan@.failure, k as int, n as int, record_views(out@))
                == parse_spec(scan@, vals),
            forall|i: int| 0 <= i < out@.len() ==> #[trigger] out@[i].score <= 4
                && out@[i].entropy_bits.in_range,
        decreases scan.events@.len() - k,
    {
        proof {
            assert(ev.take(k + 1).drop_last() =~= ev.take(k as int));
            lemma_numbers_in_prefix(ev, k + 1);
        }
        assert(ev[k as int] matches JsonEventView::ObjectEnd(f) ==> fields_below(f, n as nat)) by {
            reveal(events_wf);
        }
        assert(ev[k as int] == scan.events@[k as int]@);
        match &scan.events[k] {
            JsonEvent::Number { start, text } => {
                match &numbers[n] {
                    None => {
                        let mut m = String::new();
                        m.append("invalid number at byte ");
                        push_decimal(&mut m, *start);
                        return Err(m);
                    },
                    Some(_) => {
                        n = n + 1;
                    },
                }
            },
            JsonEvent::ObjectEnd { label, score, entropy_bits, crack_time } => {
                let label = match label {
                    None => {
                        return Err(String::from_str("missing 'label'"));
                    },
                    Some(l) => l,
                };
                let si = match score {
                    None => {
                        return Err(String::from_str("missing 'score'"));
                    },
                    Some(i) => *i,
                };
                let ei = match entropy_bits {
                    None => {
                        return Err(String::from_str("missing 'entropy_bits'"));
                    },
                    Some(i) => *i,
                };
                let crack_time = match crack_time {
                    None => {
                        return Err(String::from_str("missing 'crack_time'"));
                    },
                    Some(c) => c,
                };
                assert(numbers@[si as int] is Some);
                assert(numbers@[ei as int] is Some);
                let num = numbers[si].as_ref().unwrap();
                let sc = num.as_score;
                if sc <= 4 && !num.exact {
                    return Err(score_error(label.as_str(), num.value.shown.as_str()));
                }
                let e = numbers[ei].as_ref().unwrap().value.duplicate();
                match Record::new(label.clone(), sc, e, crack_time.clone()) {
                    Err(m) => {
                        return Err(m);
                    },
                    Ok(rec) => {
                        let ghost before = record_views(out@);
                        out.push(rec);
                        assert(record_views(out@) =~= before.push(rec@));
                    },
                }
            },
        }
        k = k + 1;
    }
    match &scan.failure {
        Some(m) => Err(m.clone()),
        None => Ok(out),
    }
}

pub(crate) proof fn lemma_escape_concat(a: Seq<char>, b: Seq<char>)
    ensures
        escape_spec(a + b) == escape_spec(a) + escape_spec(b),
    decreases b.len(),
{
    if b.len() == 0 {
        assert(a + b =~= a);
        assert(escape_spec(b) =~= Seq::<char>::empty());
        assert(escape_spec(a) + escape_spec(b) =~= escape_spec(a));
    } else {
        lemma_escape_concat(a, b.drop_last());
        assert((a + b).drop_last() =~= a + b.drop_last());
        assert((a + b).last() == b.last());
        assert(escape_spec(a + b.drop_last()) + escape_char(b.last()) =~= escape_spec(a) + (
        escape_spec(b.drop_last()) + escape_char(b.last())));
    }
}

proof fn lemma_escape_front(v: Seq<char>)
    requires
        v.len() > 0,
    ensures
        escape_spec(v) == escape_char(v[0]) + escape_spec(v.drop_first()),
{
    let one = seq![v[0]];
    assert(v =~= one + v.drop_first());
    lemma_escape_concat(one, v.drop_first());
    assert(one.drop_last() =~= Seq::<char>::empty());
    assert(escape_spec(Seq::<char>::empty()) =~= Seq::<char>::empty());
    assert(escape_spec(one) =~= escape_char(v[0]));
}

/// Every character takes at least one byte.
pub(crate) proof fn lemma_byte_len_at_least(t: Seq<char>)
    ensures
        byte_len(t) >= t.len(),
    decreases t.len(),
{
    if t.len() > 0 {
        lemma_byte_len_at_least(t.drop_first());
        vstd::utf8::char_is_scalar(t[0]);
    }
}

/// The bytes after character `k` are the encoding of the rest of the text.
pub(crate) proof fn lemma_bytes_after(s: Seq<char>, k: int)
    requires
        0 <= k <= s.len(),
    ensures
        byte_len(s) - byte_offset(s, k) == byte_len(s.skip(k)),
{
    reveal(byte_offset);
    assert(s =~= s.take(k) + s.skip(k));
    crate::text::lemma_encode_utf8_concat(s.take(k), s.skip(k));
}

proof fn lemma_hex_char_value(d: int)
    requires
        0 <= d < 16,
    ensures
        hex_value(hex_char_spec(d)) == Some(d),
{
    if d < 10 {
        assert((((d + 48) as u8) as char) as u32 == d + 48);
    } else {
        assert((((d + 87) as u8) as char) as u32 == d + 87);
    }
}

/// The four digits written for a control character read back as its code.
proof fn lemma_hex4_control(v: int)
    requires
        0 <= v < 32,
    ensures
        radix16_spec(hex4(v)) == Some(v),
{
    let t = hex4(v);
    assert((v / 4096) % 16 == 0);
    assert((v / 256) % 16 == 0);
    assert((v / 16) % 16 == v / 16);
    lemma_hex_char_value(0);
    lemma_hex_char_value(v / 16);
    lemma_hex_char_value(v % 16);
    assert(t[0] != '+') by {
        assert(hex_value(t[0]) is Some);
    }
    let t3 = seq![t[0]];
    let t2 = seq![t[0], t[1]];
    let t1 = seq![t[0], t[1], t[2]];
    assert(t.drop_last() =~= t1);
    assert(t1.drop_last() =~= t2);
    assert(t2.drop_last() =~= t3);
    assert(t3.drop_last() =~= Seq::<char>::empty());
    assert(hex_run(Seq::<char>::empty()) == Some(0int));
    assert(hex_run(t3) == Some(0int));
    assert(hex_run(t2) == Some(0int));
    assert(hex_run(t1) == Some(v / 16));
    assert(hex_run(t) == Some((v / 16) * 16 + v % 16));
}

/// A written string followed by its closing quote reads back as the string.
pub proof fn lemma_string_body_escaped(s: Seq<char>, i: int, acc: Seq<char>, v: Seq<char>)
    requires
        0 <= i,
        i + escape_spec(v).len() < s.len(),
        s.subrange(i, i + escape_spec(v).len()) == escape_spec(v),
        s[i + escape_spec(v).len()] == '"',
    ensures
        string_body(s, i, acc) == Ok::<(Seq<char>, int), Seq<char>>(
            (acc + v, i + escape_spec(v).len() + 1),
        ),
    decreases v.len(),
{
    reveal(string_body);
    let e = escape_spec(v);
    if v.len() == 0 {
        assert(e =~= Seq::<char>::empty());
        assert(acc + v =~= acc);
    } else {
        let c = v[0];
        let rest = v.drop_first();
        lemma_escape_front(v);
        let chunk = escape_char(c);
        let w = chunk.len();
        assert(e =~= chunk + escape_spec(rest));
        assert forall|k: int| 0 <= k < w implies s[i + k] == #[trigger] chunk[k] by {
            assert(s.subrange(i, i + e.len())[k] == e[k]);
        }
        assert(s.subrange(i + w, i + w + escape_spec(rest).len()) =~= escape_spec(rest)) by {
            assert forall|k: int| 0 <= k < escape_spec(rest).len() implies s.subrange(
                i + w,
                i + w + escape_spec(rest).len(),
            )[k] == escape_spec(rest)[k] by {
                assert(s.subrange(i, i + e.len())[w + k] == e[w + k]);
            }
        }
        assert(acc.push(c) + rest =~= acc + v);
        if c == '"' || c == '\\' || c == '\n' || c == '\t' || c == '\r' {
            assert(chunk[0] == '\\');
            assert(s[i] == '\\');
            assert(s[i + 1] == chunk[1]);
            assert(simple_escape(s[i + 1]) == Some(c));
            lemma_string_body_escaped(s, i + 2, acc.push(c), rest);
        } else if (c as u32) < 0x20 {
            let code = (c as u32) as int;
            assert(chunk[0] == '\\' && chunk[1] == 'u');
            assert(s[i] == '\\' && s[i + 1] == 'u');
            assert(simple_escape(s[i + 1]) is None);
            assert forall|k: int| 0 <= k < 4 implies s.subrange(i + 2, i + 6)[k] == hex4(code)[k] by {
                assert(chunk[k + 2] == hex4(code)[k]);
                assert(s[i + (k + 2)] == chunk[k + 2]);
            }
            assert(s.subrange(i + 2, i + 6) =~= hex4(code));
            lemma_bytes_after(s, i + 2);
            lemma_byte_len_at_least(s.skip(i + 2));
            lemma_hex4_control(code);
            assert(unicode_escape_spec(s, i + 2) == Some(code));
            vstd::utf8::char_u32_cast(c, c as u32);
            assert(code_char(code) == c);
            lemma_string_body_escaped(s, i + 6, acc.push(c), rest);
        } else {
            assert(chunk[0] == c);
            assert(s[i] == c);
            lemma_string_body_escaped(s, i + 1, acc.push(c), rest);
        }
    }
}

} // verus!