//! Reading the lexical forms of Turtle: escapes in strings, and the three
//! kinds of numbers.
use crate::ranks::{all_digits, is_digit};
use crate::text::{chars_of, first_index_of, lemma_first_index_of};
use vstd::prelude::*;

verus! {

/// Why an escape cannot be decoded.
#[derive(Debug, Clone, Copy, PartialEq, Eq, Structural)]
pub enum DecodeError {
    /// The character cannot stand behind a backslash.
    InvalidEscape(char),
    /// What is written is no code point of a character.
    InvalidCodePoint,
    /// The text ends within an escape.
    Truncated,
}

/// The character that a one-letter escape stands for.
pub open spec fn echar(c: char) -> Option<char> {
    if c == 't' {
        Some('\t')
    } else if c == 'b' {
        Some('\u{08}')
    } else if c == 'n' {
        Some('\n')
    } else if c == 'r' {
        Some('\r')
    } else if c == 'f' {
        Some('\u{0C}')
    } else if c == '"' {
        Some('"')
    } else if c == '\'' {
        Some('\'')
    } else if c == '\\' {
        Some('\\')
    } else {
        None
    }
}

/// Decodes the escape of one letter: the character that stands for the
/// letter `c` behind a backslash.
pub fn decode_echar(c: char) -> (r: Result<char, DecodeError>)
    ensures
        match echar(c) {
            Some(d) => r == Ok::<char, DecodeError>(d),
            None => r == Err::<char, DecodeError>(DecodeError::InvalidEscape(c)),
        },
{
    if c == 't' {
        Ok('\t')
    } else if c == 'b' {
        Ok('\u{08}')
    } else if c == 'n' {
        Ok('\n')
    } else if c == 'r' {
        Ok('\r')
    } else if c == 'f' {
        Ok('\u{0C}')
    } else if c == '"' {
        Ok('"')
    } else if c == '\'' {
        Ok('\'')
    } else if c == '\\' {
        Ok('\\')
    } else {
        Err(DecodeError::InvalidEscape(c))
    }
}

/// The value of a hexadecimal digit.
pub open spec fn hex_value(c: char) -> Option<int> {
    if '0' <= c && c <= '9' {
        Some(c as int - '0' as int)
    } else if 'a' <= c && c <= 'f' {
        Some(c as int - 'a' as int + 10)
    } else if 'A' <= c && c <= 'F' {
        Some(c as int - 'A' as int + 10)
    } else {
        None
    }
}

/// Every character from `from` up to `to` is a hexadecimal digit.
pub open spec fn all_hex(s: Seq<char>, from: int, to: int) -> bool {
    forall|i: int| from <= i < to ==> hex_value(#[trigger] s[i]) is Some
}

/// The number that the hexadecimal digits from `from` up to `to` write.
pub open spec fn hex_number(s: Seq<char>, from: int, to: int) -> int
    decreases to - from,
{
    if to <= from {
        0
    } else {
        hex_number(s, from, to - 1) * 16 + hex_value(s[to - 1]).unwrap()
    }
}

/// The number is the code point of a character.
pub open spec fn is_scalar(code: int) -> bool {
    (0 <= code && code < 0xD800) || (0xE000 <= code && code <= 0x10FFFF)
}

/// The character that a numeric escape stands for: behind its first two
/// characters (`\u` or `\U`) it holds between one and eight hexadecimal
/// digits, which write the code point of a character.
pub open spec fn uchar(s: Seq<char>) -> Option<char> {
    if 2 < s.len() && s.len() <= 10 && all_hex(s, 2, s.len() as int) && is_scalar(
        hex_number(s, 2, s.len() as int),
    ) {
        Some(hex_number(s, 2, s.len() as int) as char)
    } else {
        None
    }
}

/// Trusted: `char::from_u32`, which gives the character with the code
/// point, and none where the number is no code point of a character.
#[verifier::external_body]
fn char_from_u32(code: u32) -> (r: Option<char>)
    ensures
        r is Some <==> is_scalar(code as int),
        r is Some ==> r->Some_0 as int == code as int,
{
    char::from_u32(code)
}

fn hex_value_of(c: char) -> (r: Option<u32>)
    ensures
        match r {
            Some(v) => hex_value(c) == Some(v as int) && v < 16,
            None => hex_value(c) is None,
        },
{
    let digits: [char; 16] = ['0', '1', '2', '3', '4', '5', '6', '7', '8', '9', 'a', 'b', 'c', 'd', 'e', 'f'];
    let upper: [char; 6] = ['A', 'B', 'C', 'D', 'E', 'F'];
    let mut i: usize = 0;
    while i < 16
        invariant
            i <= 16,
            digits@ == seq!['0', '1', '2', '3', '4', '5', '6', '7', '8', '9', 'a', 'b', 'c', 'd', 'e', 'f'],
            forall|j: int| 0 <= j < i ==> digits@[j] != c,
        decreases 16 - i,
    {
        if digits[i] == c {
            return Some(i as u32);
        }
        i += 1;
    }
    let mut k: usize = 0;
    while k < 6
        invariant
            k <= 6,
            upper@ == seq!['A', 'B', 'C', 'D', 'E', 'F'],
            forall|j: int| 0 <= j < k ==> upper@[j] != c,
            forall|j: int| 0 <= j < 16 ==> digits@[j] != c,
            digits@ == seq!['0', '1', '2', '3', '4', '5', '6', '7', '8', '9', 'a', 'b', 'c', 'd', 'e', 'f'],
        decreases 6 - k,
    {
        if upper[k] == c {
            return Some(k as u32 + 10);
        }
        k += 1;
    }
    proof {
        if '0' <= c && c <= '9' {
            assert(digits@[c as int - '0' as int] == c);
        }
        if 'a' <= c && c <= 'f' {
            assert(digits@[c as int - 'a' as int + 10] == c);
        }
        if 'A' <= c && c <= 'F' {
            assert(upper@[c as int - 'A' as int] == c);
        }
    }
    None
}

/// Decodes the numeric escape whose characters are `chars[from..to]`.
fn decode_uchar_at(chars: &Vec<char>, from: usize, to: usize) -> (r: Result<char, DecodeError>)
    requires
        from <= to <= chars.len(),
    ensures
        match uchar(chars@.subrange(from as int, to as int)) {
            Some(c) => r == Ok::<char, DecodeError>(c),
            None => r == Err::<char, DecodeError>(DecodeError::InvalidCodePoint),
        },
{
    let ghost s = chars@.subrange(from as int, to as int);
    if to - from <= 2 || to - from > 10 {
        return Err(DecodeError::InvalidCodePoint);
    }
    let mut code: u32 = 0;
    let mut i: usize = from + 2;
    while i < to
        invariant
            from + 2 <= i <= to <= chars.len(),
            to - from <= 10,
            s == chars@.subrange(from as int, to as int),
            all_hex(s, 2, i - from),
            code as int == hex_number(s, 2, i - from),
            (code as int) < pow16(i - from - 2),
        decreases to - i,
    {
        assert(s[i - from] == chars@[i as int]);
        match hex_value_of(chars[i]) {
            Some(v) => {
                proof {
                    lemma_pow16(i - from - 2);
                }
                code = code * 16 + v;
            },
            None => {
                assert(!all_hex(s, 2, s.len() as int));
                return Err(DecodeError::InvalidCodePoint);
            },
        }
        i += 1;
    }
    match char_from_u32(code) {
        Some(c) => Ok(c),
        None => Err(DecodeError::InvalidCodePoint),
    }
}

/// Sixteen to the power of `n`.
pub open spec fn pow16(n: int) -> int
    decreases n,
{
    if n <= 0 {
        1
    } else {
        16 * pow16(n - 1)
    }
}

proof fn lemma_pow16(n: int)
    requires
        0 <= n < 8,
    ensures
        pow16(n) * 16 == pow16(n + 1),
        pow16(n + 1) <= 0x1_0000_0000,
        pow16(n) >= 1,
    decreases n,
{
    reveal_with_fuel(pow16, 10);
}

/// Decodes a numeric escape, `\u` or `\U` with its hexadecimal digits.
pub fn decode_uchar(input: &str) -> (r: Result<char, DecodeError>)
    ensures
        match uchar(input@) {
            Some(c) => r == Ok::<char, DecodeError>(c),
            None => r == Err::<char, DecodeError>(DecodeError::InvalidCodePoint),
        },
{
    let chars = chars_of(input);
    assert(chars@.subrange(0, chars.len() as int) =~= input@);
    decode_uchar_at(&chars, 0, chars.len())
}

/// Walks through a string with escapes and hands out its characters.
pub struct StringDecoder {
    /// The characters of the string.
    input: Vec<char>,
    /// How many of them are used up.
    i: usize,
}

/// What comes next at the position `i` of the text: the decoded character
/// or the error, and the position behind it. Nothing at the end.
pub open spec fn next_at(s: Seq<char>, i: int) -> Option<(Result<char, DecodeError>, int)> {
    if i < 0 || i >= s.len() {
        None
    } else if s[i] != '\\' {
        Some((Ok(s[i]), i + 1))
    } else if i + 1 >= s.len() {
        Some((Err(DecodeError::Truncated), s.len() as int))
    } else if s[i + 1] == 'u' {
        if i + 6 > s.len() {
            Some((Err(DecodeError::Truncated), s.len() as int))
        } else {
            Some(
                (
                    match uchar(s.subrange(i, i + 6)) {
                        Some(c) => Ok(c),
                        None => Err(DecodeError::InvalidCodePoint),
                    },
                    i + 6,
                ),
            )
        }
    } else if s[i + 1] == 'U' {
        if i + 10 > s.len() {
            Some((Err(DecodeError::Truncated), s.len() as int))
        } else {
            Some(
                (
                    match uchar(s.subrange(i, i + 10)) {
                        Some(c) => Ok(c),
                        None => Err(DecodeError::InvalidCodePoint),
                    },
                    i + 10,
                ),
            )
        }
    } else {
        Some(
            (
                match echar(s[i + 1]) {
                    Some(c) => Ok(c),
                    None => Err(DecodeError::InvalidEscape(s[i + 1])),
                },
                i + 2,
            ),
        )
    }
}

/// The text that a string with escapes stands for from the position `i`
/// on: its characters decoded one after the other, or nothing where one
/// of its escapes cannot be decoded.
pub open spec fn decoded(s: Seq<char>, i: int) -> Option<Seq<char>>
    decreases s.len() - i,
{
    match next_at(s, i) {
        None => Some(Seq::empty()),
        Some((item, position)) => if position <= i {
            None
        } else {
            match item {
                Ok(c) => match decoded(s, position) {
                    Some(rest) => Some(seq![c] + rest),
                    None => None,
                },
                Err(_) => None,
            }
        },
    }
}

impl StringDecoder {
    #[verifier::type_invariant]
    spec fn within(self) -> bool {
        self.i <= self.input.len()
    }

    /// The string that is decoded.
    pub closed spec fn text(self) -> Seq<char> {
        self.input@
    }

    /// How many characters of the string are used up.
    pub closed spec fn position(self) -> int {
        self.i as int
    }

    /// A decoder at the start of the string.
    #[must_use]
    pub fn new(input: &str) -> (r: Self)
        ensures
            r.text() == input@,
            r.position() == 0,
    {
        Self { input: chars_of(input), i: 0 }
    }

    /// The next character of the string: a character that stands for
    /// itself, or the one that an escape stands for. An escape that cannot
    /// be decoded gives an error and is passed over. At the end there is
    /// nothing.
    pub fn next(&mut self) -> (r: Option<Result<char, DecodeError>>)
        ensures
            final(self).text() == old(self).text(),
            match next_at(old(self).text(), old(self).position()) {
                Some((item, position)) => r == Some(item) && final(self).position() == position,
                None => r is None && final(self).position() == old(self).position(),
            },
    {
        proof {
            use_type_invariant(&*self);
        }
        let n = self.input.len();
        if self.i >= n {
            return None;
        }
        let c = self.input[self.i];
        if c != '\\' {
            self.i += 1;
            return Some(Ok(c));
        }
        if n - self.i < 2 {
            self.i = n;
            return Some(Err(DecodeError::Truncated));
        }
        let e = self.input[self.i + 1];
        if e == 'u' {
            if n - self.i < 6 {
                self.i = n;
                return Some(Err(DecodeError::Truncated));
            }
            let r = decode_uchar_at(&self.input, self.i, self.i + 6);
            self.i += 6;
            Some(r)
        } else if e == 'U' {
            if n - self.i < 10 {
                self.i = n;
                return Some(Err(DecodeError::Truncated));
            }
            let r = decode_uchar_at(&self.input, self.i, self.i + 10);
            self.i += 10;
            Some(r)
        } else {
            self.i += 2;
            Some(decode_echar(e))
        }
    }
}

/// The text without the sign that it may begin with.
pub open spec fn without_sign(s: Seq<char>) -> Seq<char> {
    if s.len() > 0 && (s[0] == '+' || s[0] == '-') {
        s.drop_first()
    } else {
        s
    }
}

/// One digit or more, and nothing else.
pub open spec fn is_digits(s: Seq<char>) -> bool {
    s.len() > 0 && all_digits(s)
}

/// The text is an `INTEGER` of the Turtle grammar: `[+-]? [0-9]+`.
pub open spec fn turtle_integer(s: Seq<char>) -> bool {
    is_digits(without_sign(s))
}

/// The text, without a sign, is digits, a point, and one digit or more.
pub open spec fn decimal_body(d: Seq<char>) -> bool {
    match first_index_of(d, '.') {
        Some(k) => all_digits(d.subrange(0, k)) && is_digits(d.subrange(k + 1, d.len() as int)),
        None => false,
    }
}

/// The text is a `DECIMAL` of the Turtle grammar: `[+-]? [0-9]* '.' [0-9]+`.
pub open spec fn turtle_decimal(s: Seq<char>) -> bool {
    decimal_body(without_sign(s))
}

/// The text is the mantissa of a double: digits with a point somewhere
/// among, before or behind them, or digits alone; one digit at least.
pub open spec fn mantissa(m: Seq<char>) -> bool {
    match first_index_of(m, '.') {
        Some(k) => all_digits(m.subrange(0, k)) && all_digits(m.subrange(k + 1, m.len() as int)) && m.len()
            > 1,
        None => is_digits(m),
    }
}

/// Where the exponent of a double begins: at its first `e` or `E`.
pub open spec fn exponent_mark(d: Seq<char>) -> Option<int>
    decreases d.len(),
{
    if d.len() == 0 {
        None
    } else if d[0] == 'e' || d[0] == 'E' {
        Some(0)
    } else {
        match exponent_mark(d.drop_first()) {
            Some(i) => Some(i + 1),
            None => None,
        }
    }
}

/// The text, without a sign, is a mantissa, `e` or `E`, and digits with or
/// without a sign.
pub open spec fn double_body(d: Seq<char>) -> bool {
    match exponent_mark(d) {
        Some(e) => mantissa(d.subrange(0, e)) && is_digits(without_sign(d.subrange(e + 1, d.len() as int))),
        None => false,
    }
}

/// The text is a `DOUBLE` of the Turtle grammar:
/// `[+-]? ([0-9]+ '.' [0-9]* EXPONENT | '.' [0-9]+ EXPONENT | [0-9]+ EXPONENT)`
/// with `EXPONENT ::= [eE] [+-]? [0-9]+`.
pub open spec fn turtle_double(s: Seq<char>) -> bool {
    double_body(without_sign(s))
}

/// How far the digits reach from `from` on.
fn skip_digits(chars: &Vec<char>, from: usize) -> (to: usize)
    requires
        from <= chars.len(),
    ensures
        from <= to <= chars.len(),
        forall|i: int| from <= i < to ==> is_digit(#[trigger] chars@[i]),
        to < chars.len() ==> !is_digit(chars@[to as int]),
{
    let mut i: usize = from;
    while i < chars.len() && '0' <= chars[i] && chars[i] <= '9'
        invariant
            from <= i <= chars.len(),
            forall|j: int| from <= j < i ==> is_digit(#[trigger] chars@[j]),
        decreases chars.len() - i,
    {
        i += 1;
    }
    i
}

fn skip_sign(chars: &Vec<char>, from: usize) -> (to: usize)
    requires
        from <= chars.len(),
    ensures
        to == from || to == from + 1,
        to <= chars.len(),
        chars@.subrange(to as int, chars.len() as int) == without_sign(
            chars@.subrange(from as int, chars.len() as int),
        ),
{
    let ghost s = chars@.subrange(from as int, chars.len() as int);
    if from < chars.len() && (chars[from] == '+' || chars[from] == '-') {
        assert(s[0] == chars@[from as int]);
        assert(s.drop_first() =~= chars@.subrange(from + 1, chars.len() as int));
        from + 1
    } else {
        if from < chars.len() {
            assert(s[0] == chars@[from as int]);
        }
        from
    }
}

/// Is the text an `INTEGER` of the Turtle grammar?
pub fn is_turtle_integer(value: &str) -> (r: bool)
    ensures
        r == turtle_integer(value@),
{
    let chars = chars_of(value);
    assert(chars@.subrange(0, chars.len() as int) =~= value@);
    let from = skip_sign(&chars, 0);
    let to = skip_digits(&chars, from);
    let ghost d = chars@.subrange(from as int, chars.len() as int);
    proof {
        if to == chars.len() {
            assert forall|i: int| 0 <= i < d.len() implies is_digit(#[trigger] d[i]) by {
                assert(d[i] == chars@[i + from]);
            }
        } else {
            assert(d[to - from] == chars@[to as int]);
        }
    }
    from < chars.len() && to == chars.len()
}

/// Is the text a `DECIMAL` of the Turtle grammar?
pub fn is_turtle_decimal(value: &str) -> (r: bool)
    ensures
        r == turtle_decimal(value@),
{
    let chars = chars_of(value);
    assert(chars@.subrange(0, chars.len() as int) =~= value@);
    let from = skip_sign(&chars, 0);
    let point = skip_digits(&chars, from);
    let ghost d = chars@.subrange(from as int, chars.len() as int);
    proof {
        lemma_first_index_of(d, '.');
        assert forall|i: int| 0 <= i < point - from implies d[i] != '.' by {
            assert(d[i] == chars@[i + from]);
            assert(is_digit(chars@[i + from]));
        }
    }
    if point >= chars.len() || chars[point] != '.' {
        proof {
            if point < chars.len() {
                assert(d[point - from] == chars@[point as int]);
                match first_index_of(d, '.') {
                    Some(k) => {
                        assert(k > point - from);
                        assert(d.subrange(0, k)[point - from] == d[point - from]);
                        assert(!all_digits(d.subrange(0, k)));
                    },
                    None => {},
                }
            } else {
                match first_index_of(d, '.') {
                    Some(k) => {
                        assert(d[k] == chars@[k + from]);
                    },
                    None => {},
                }
            }
        }
        return false;
    }
    let to = skip_digits(&chars, point + 1);
    proof {
        assert(d[point - from] == '.');
        assert(first_index_of(d, '.') == Some(point - from));
        let k = point - from;
        let tail = d.subrange(k + 1, d.len() as int);
        assert forall|i: int| 0 <= i < k implies is_digit(#[trigger] d.subrange(0, k)[i]) by {
            assert(d.subrange(0, k)[i] == chars@[i + from]);
        }
        if to == chars.len() {
            assert forall|i: int| 0 <= i < tail.len() implies is_digit(#[trigger] tail[i]) by {
                assert(tail[i] == chars@[i + point + 1]);
            }
        } else {
            assert(tail[to - point - 1] == chars@[to as int]);
        }
    }
    point + 1 < chars.len() && to == chars.len()
}

proof fn lemma_exponent_mark(d: Seq<char>)
    ensures
        match exponent_mark(d) {
            Some(e) => 0 <= e < d.len() && (d[e] == 'e' || d[e] == 'E') && forall|j: int|
                0 <= j < e ==> d[j] != 'e' && d[j] != 'E',
            None => forall|j: int| 0 <= j < d.len() ==> d[j] != 'e' && d[j] != 'E',
        },
    decreases d.len(),
{
    if d.len() > 0 && !(d[0] == 'e' || d[0] == 'E') {
        let t = d.drop_first();
        lemma_exponent_mark(t);
        match exponent_mark(t) {
            Some(i) => {
                assert(t[i] == d[i + 1]);
                assert forall|j: int| 0 <= j < i + 1 implies d[j] != 'e' && d[j] != 'E' by {
                    if j > 0 {
                        assert(t[j - 1] == d[j]);
                    }
                }
            },
            None => {
                assert forall|j: int| 0 <= j < d.len() implies d[j] != 'e' && d[j] != 'E' by {
                    if j > 0 {
                        assert(t[j - 1] == d[j]);
                    }
                }
            },
        }
    }
}

/// A mantissa described by how far its digits reach: `p` digits, then
/// either the end, or a point and digits up to `q`.
proof fn lemma_mantissa(m: Seq<char>, p: int, q: int)
    requires
        0 <= p <= m.len(),
        forall|i: int| 0 <= i < p ==> is_digit(#[trigger] m[i]),
        p < m.len() ==> !is_digit(m[p]),
        p < m.len() && m[p] == '.' ==> p + 1 <= q <= m.len() && (forall|i: int|
            p < i < q ==> is_digit(#[trigger] m[i])) && (q < m.len() ==> !is_digit(m[q])),
    ensures
        mantissa(m) == (if p < m.len() && m[p] == '.' {
            q == m.len() && m.len() > 1
        } else {
            p == m.len() && p > 0
        }),
{
    lemma_first_index_of(m, '.');
    if p < m.len() && m[p] == '.' {
        assert(first_index_of(m, '.') == Some(p));
        let head = m.subrange(0, p);
        let tail = m.subrange(p + 1, m.len() as int);
        assert forall|i: int| 0 <= i < head.len() implies is_digit(#[trigger] head[i]) by {
            assert(head[i] == m[i]);
        }
        if q == m.len() {
            assert forall|i: int| 0 <= i < tail.len() implies is_digit(#[trigger] tail[i]) by {
                assert(tail[i] == m[i + p + 1]);
            }
        } else {
            assert(tail[q - p - 1] == m[q]);
        }
    } else if p == m.len() {
        assert(first_index_of(m, '.') is None);
    } else {
        match first_index_of(m, '.') {
            Some(k) => {
                assert(k > p);
                assert(m.subrange(0, k)[p] == m[p]);
            },
            None => {},
        }
    }
}

/// The mantissa that stands at `from`: how far its digits before the
/// point reach, and how far it reaches in all.
fn scan_mantissa(chars: &Vec<char>, from: usize) -> (r: (usize, usize))
    requires
        from <= chars.len(),
    ensures
        from <= r.0 <= r.1 <= chars.len(),
        forall|i: int| from <= i < r.0 ==> is_digit(#[trigger] chars@[i]),
        r.0 < chars.len() ==> !is_digit(chars@[r.0 as int]),
        r.0 < chars.len() && chars@[r.0 as int] == '.' ==> r.0 + 1 <= r.1 && (forall|i: int|
            r.0 < i < r.1 ==> is_digit(#[trigger] chars@[i])) && (r.1 < chars.len() ==> !is_digit(
            chars@[r.1 as int],
        )),
        !(r.0 < chars.len() && chars@[r.0 as int] == '.') ==> r.1 == r.0,
{
    let point = skip_digits(chars, from);
    if point < chars.len() && chars[point] == '.' {
        let end = skip_digits(chars, point + 1);
        (point, end)
    } else {
        (point, point)
    }
}

/// Is the text a `DOUBLE` of the Turtle grammar?
pub fn is_turtle_double(value: &str) -> (r: bool)
    ensures
        r == turtle_double(value@),
{
    let chars = chars_of(value);
    let n = chars.len();
    assert(chars@.subrange(0, n as int) =~= value@);
    let from = skip_sign(&chars, 0);
    let ghost d = chars@.subrange(from as int, n as int);
    let (point, mark) = scan_mantissa(&chars, from);
    proof {
        lemma_exponent_mark(d);
        assert forall|i: int| 0 <= i < mark - from implies d[i] != 'e' && d[i] != 'E' by {
            assert(d[i] == chars@[i + from]);
            if i != point - from {
                assert(is_digit(chars@[i + from]));
            }
        }
    }
    if !(mark < n && (chars[mark] == 'e' || chars[mark] == 'E')) {
        proof {
            match exponent_mark(d) {
                Some(e) => {
                    assert(d[e] == chars@[e + from]);
                    let m = d.subrange(0, e);
                    assert forall|i: int| 0 <= i < m.len() implies #[trigger] m[i] == chars@[i + from] by {}
                    assert(m[point - from] == chars@[point as int]);
                    assert(m[mark - from] == chars@[mark as int]);
                    lemma_mantissa(m, point - from, mark - from);
                },
                None => {},
            }
        }
        return false;
    }
    let sign_end = skip_sign(&chars, mark + 1);
    let to = skip_digits(&chars, sign_end);
    proof {
        let e = mark - from;
        assert(d[e] == chars@[mark as int]);
        assert(exponent_mark(d) == Some(e));
        let m = d.subrange(0, e);
        assert forall|i: int| 0 <= i < m.len() implies #[trigger] m[i] == chars@[i + from] by {}
        if point < mark {
            assert(m[point - from] == chars@[point as int]);
        }
        lemma_mantissa(m, point - from, mark - from);
        let x = d.subrange(e + 1, d.len() as int);
        assert(x =~= chars@.subrange(mark + 1, n as int));
        let y = without_sign(x);
        if to == n {
            assert forall|i: int| 0 <= i < y.len() implies is_digit(#[trigger] y[i]) by {
                assert(y[i] == chars@[i + sign_end]);
            }
        } else {
            assert(y[to - sign_end] == chars@[to as int]);
        }
    }
    mark > from && (mark > point + 1 || point > from) && sign_end < n && to == n
}

} // verus!
