//! The lexical forms of Turtle: local names and quoted strings.
use crate::decoders::decoded;
use crate::text::{chars_of, push_char};
use vstd::prelude::*;

verus! {

/// A character of the production `PN_CHARS_BASE` of the Turtle grammar.
pub open spec fn pn_chars_base(c: char) -> bool {
    ||| ('A' <= c && c <= 'Z')
    ||| ('a' <= c && c <= 'z')
    ||| ('\u{00C0}' <= c && c <= '\u{00D6}')
    ||| ('\u{00D8}' <= c && c <= '\u{00F6}')
    ||| ('\u{00F8}' <= c && c <= '\u{02FF}')
    ||| ('\u{0370}' <= c && c <= '\u{037D}')
    ||| ('\u{037F}' <= c && c <= '\u{1FFF}')
    ||| ('\u{200C}' <= c && c <= '\u{200D}')
    ||| ('\u{2070}' <= c && c <= '\u{218F}')
    ||| ('\u{2C00}' <= c && c <= '\u{2FEF}')
    ||| ('\u{3001}' <= c && c <= '\u{D7FF}')
    ||| ('\u{F900}' <= c && c <= '\u{FDCF}')
    ||| ('\u{FDF0}' <= c && c <= '\u{FFFD}')
    ||| ('\u{10000}' <= c && c <= '\u{EFFFF}')
}

/// A character of the production `PN_CHARS_U`: `PN_CHARS_BASE` or `_`.
pub open spec fn pn_chars_u(c: char) -> bool {
    pn_chars_base(c) || c == '_'
}

/// A character of the production `PN_CHARS`.
pub open spec fn pn_chars(c: char) -> bool {
    ||| pn_chars_u(c)
    ||| c == '-'
    ||| ('0' <= c && c <= '9')
    ||| c == '\u{00B7}'
    ||| ('\u{0300}' <= c && c <= '\u{036F}')
    ||| ('\u{203F}' <= c && c <= '\u{2040}')
}

/// A character that a local name can hold behind a backslash.
pub open spec fn escapable_in_local_name(c: char) -> bool {
    ||| c == '_'
    ||| c == '~'
    ||| c == '.'
    ||| c == '-'
    ||| c == '!'
    ||| c == '$'
    ||| c == '&'
    ||| c == '\''
    ||| c == '('
    ||| c == ')'
    ||| c == '*'
    ||| c == '+'
    ||| c == ','
    ||| c == ';'
    ||| c == '='
    ||| c == '/'
    ||| c == '?'
    ||| c == '#'
    ||| c == '@'
    ||| c == '%'
}

/// Is `c` a character of `PN_CHARS_BASE`?
pub fn is_possible_pn_chars_base(c: char) -> (r: bool)
    ensures
        r == pn_chars_base(c),
{
    ('A' <= c && c <= 'Z') || ('a' <= c && c <= 'z') || ('\u{00C0}' <= c && c <= '\u{00D6}') || ('\u{00D8}'
        <= c && c <= '\u{00F6}') || ('\u{00F8}' <= c && c <= '\u{02FF}') || ('\u{0370}' <= c && c
        <= '\u{037D}') || ('\u{037F}' <= c && c <= '\u{1FFF}') || ('\u{200C}' <= c && c <= '\u{200D}') || (
    '\u{2070}' <= c && c <= '\u{218F}') || ('\u{2C00}' <= c && c <= '\u{2FEF}') || ('\u{3001}' <= c && c
        <= '\u{D7FF}') || ('\u{F900}' <= c && c <= '\u{FDCF}') || ('\u{FDF0}' <= c && c <= '\u{FFFD}') || (
    '\u{10000}' <= c && c <= '\u{EFFFF}')
}

/// Is `c` a character of `PN_CHARS_U`?
pub fn is_possible_pn_chars_u(c: char) -> (r: bool)
    ensures
        r == pn_chars_u(c),
{
    is_possible_pn_chars_base(c) || c == '_'
}

/// Is `c` a character of `PN_CHARS`?
pub fn is_possible_pn_chars(c: char) -> (r: bool)
    ensures
        r == pn_chars(c),
{
    is_possible_pn_chars_u(c) || c == '-' || ('0' <= c && c <= '9') || c == '\u{00B7}' || ('\u{0300}' <= c
        && c <= '\u{036F}') || ('\u{203F}' <= c && c <= '\u{2040}')
}

/// Can `c` stand in a local name behind a backslash?
pub fn can_be_escaped_in_local_name(c: char) -> (r: bool)
    ensures
        r == escapable_in_local_name(c),
{
    c == '_' || c == '~' || c == '.' || c == '-' || c == '!' || c == '$' || c == '&' || c == '\'' || c == '('
        || c == ')' || c == '*' || c == '+' || c == ',' || c == ';' || c == '=' || c == '/' || c == '?' || c
        == '#' || c == '@' || c == '%'
}

/// The character at `i` of a local name can be written as it is.
pub open spec fn plain_in_local_name(s: Seq<char>, i: int) -> bool {
    if i == 0 {
        pn_chars_u(s[i]) || s[i] == ':' || ('0' <= s[i] && s[i] <= '9')
    } else {
        pn_chars(s[i]) || s[i] == ':' || (s[i] == '.' && i + 1 < s.len())
    }
}

/// The first `n` characters of a local name can all be written, as they
/// are or behind a backslash.
pub open spec fn local_name_writable(s: Seq<char>, n: int) -> bool {
    forall|i: int| 0 <= i < n ==> plain_in_local_name(s, i) || escapable_in_local_name(#[trigger] s[i])
}

/// The first `n` characters of a local name as they are written.
pub open spec fn escaped_prefix(s: Seq<char>, n: int) -> Seq<char>
    decreases n,
{
    if n <= 0 {
        Seq::empty()
    } else if plain_in_local_name(s, n - 1) {
        escaped_prefix(s, n - 1).push(s[n - 1])
    } else {
        escaped_prefix(s, n - 1).push('\\').push(s[n - 1])
    }
}

/// The local name as it is written: every character as it is where the
/// grammar takes it, else behind a backslash where it may stand so. There
/// is no such form for the empty name, nor for a name with a character
/// that can stand neither way.
pub open spec fn escaped_local_name(s: Seq<char>) -> Option<Seq<char>> {
    if s.len() > 0 && local_name_writable(s, s.len() as int) {
        Some(escaped_prefix(s, s.len() as int))
    } else {
        None
    }
}

/// Writes the local name of a prefixed name, with backslashes where they
/// are needed.
pub fn escape_local_name(value: &str) -> (r: Option<String>)
    ensures
        match r {
            Some(out) => escaped_local_name(value@) == Some(out@),
            None => escaped_local_name(value@) is None,
        },
{
    let chars = chars_of(value);
    if chars.len() == 0 {
        return None;
    }
    let mut output = String::new();
    let mut i: usize = 0;
    while i < chars.len()
        invariant
            i <= chars.len(),
            chars@ == value@,
            local_name_writable(chars@, i as int),
            output@ == escaped_prefix(chars@, i as int),
        decreases chars.len() - i,
    {
        let c = chars[i];
        let plain = if i == 0 {
            is_possible_pn_chars_u(c) || c == ':' || ('0' <= c && c <= '9')
        } else {
            is_possible_pn_chars(c) || c == ':' || (c == '.' && i + 1 < chars.len())
        };
        if plain {
            push_char(&mut output, c);
        } else if can_be_escaped_in_local_name(c) {
            push_char(&mut output, '\\');
            push_char(&mut output, c);
        } else {
            assert(!local_name_writable(chars@, chars.len() as int));
            return None;
        }
        i += 1;
    }
    Some(output)
}

/// The digit of the number `n`, below sixteen, in upper-case hexadecimal.
pub open spec fn hex_digit(n: int) -> char {
    if n == 0 {
        '0'
    } else if n == 1 {
        '1'
    } else if n == 2 {
        '2'
    } else if n == 3 {
        '3'
    } else if n == 4 {
        '4'
    } else if n == 5 {
        '5'
    } else if n == 6 {
        '6'
    } else if n == 7 {
        '7'
    } else if n == 8 {
        '8'
    } else if n == 9 {
        '9'
    } else if n == 10 {
        'A'
    } else if n == 11 {
        'B'
    } else if n == 12 {
        'C'
    } else if n == 13 {
        'D'
    } else if n == 14 {
        'E'
    } else {
        'F'
    }
}

fn hex_digit_of(n: u8) -> (r: char)
    requires
        n < 16,
    ensures
        r == hex_digit(n as int),
{
    if n == 0 {
        '0'
    } else if n == 1 {
        '1'
    } else if n == 2 {
        '2'
    } else if n == 3 {
        '3'
    } else if n == 4 {
        '4'
    } else if n == 5 {
        '5'
    } else if n == 6 {
        '6'
    } else if n == 7 {
        '7'
    } else if n == 8 {
        '8'
    } else if n == 9 {
        '9'
    } else if n == 10 {
        'A'
    } else if n == 11 {
        'B'
    } else if n == 12 {
        'C'
    } else if n == 13 {
        'D'
    } else if n == 14 {
        'E'
    } else {
        'F'
    }
}

/// The code point of a character of the ASCII range.
fn ascii_code(c: char) -> (r: u8)
    requires
        c <= '\u{7F}',
    ensures
        r as int == c as int,
{
    let mut code: u8 = 0;
    while code < 127
        invariant
            code <= 127,
            code as int <= c as int,
        decreases 127 - code,
    {
        if code as char == c {
            return code;
        }
        code += 1;
    }
    code
}

/// A control character that is written by its code point.
pub open spec fn is_control(c: char) -> bool {
    c <= '\u{1F}' || c == '\u{7F}'
}

/// A character as it stands inside a quoted string on one line.
pub open spec fn quoted_char(c: char) -> Seq<char> {
    if c == '\u{08}' {
        seq!['\\', 'b']
    } else if c == '\t' {
        seq!['\\', 't']
    } else if c == '\n' {
        seq!['\\', 'n']
    } else if c == '\u{0C}' {
        seq!['\\', 'f']
    } else if c == '\r' {
        seq!['\\', 'r']
    } else if c == '"' {
        seq!['\\', '"']
    } else if c == '\\' {
        seq!['\\', '\\']
    } else if is_control(c) {
        seq!['\\', 'u', '0', '0', hex_digit((c as int) / 16), hex_digit((c as int) % 16)]
    } else {
        seq![c]
    }
}

/// The first `n` characters of a string as they stand inside a quoted
/// string on one line.
pub open spec fn quoted_prefix(s: Seq<char>, n: int) -> Seq<char>
    decreases n,
{
    if n <= 0 {
        Seq::empty()
    } else {
        quoted_prefix(s, n - 1) + quoted_char(s[n - 1])
    }
}

/// The string between double quotes, on one line.
pub open spec fn quoted_str(s: Seq<char>) -> Seq<char> {
    seq!['"'] + quoted_prefix(s, s.len() as int) + seq!['"']
}

/// The digit of a number below sixteen has that number as its value.
proof fn lemma_hex_digit(n: int)
    requires
        0 <= n < 16,
    ensures
        crate::decoders::hex_value(hex_digit(n)) == Some(n),
{
}

/// The numeric escape of a control character stands for that character.
proof fn lemma_control_escape(c: char)
    requires
        quoted_char(c).len() == 6,
    ensures
        crate::decoders::uchar(quoted_char(c)) == Some(c),
{
    assert(is_control(c));
    let e = quoted_char(c);
    let hi = (c as int) / 16;
    let lo = (c as int) % 16;
    assert(0 <= hi < 16 && 0 <= lo < 16);
    lemma_hex_digit(hi);
    lemma_hex_digit(lo);
    lemma_hex_digit(0);
    assert(e[2] == '0' && e[3] == '0' && e[4] == hex_digit(hi) && e[5] == hex_digit(lo));
    assert(crate::decoders::all_hex(e, 2, 6));
    reveal_with_fuel(crate::decoders::hex_number, 6);
    assert(crate::decoders::hex_number(e, 2, 6) == hi * 16 + lo);
    assert(hi * 16 + lo == c as int);
}

/// Where the `k`-th character of a string stands between the quotes, and
/// that it stands there as [`quoted_char`] says.
proof fn lemma_quoted_at(s: Seq<char>, k: int, n: int)
    requires
        0 <= k < n <= s.len(),
    ensures
        quoted_prefix(s, k).len() + quoted_char(s[k]).len() <= quoted_prefix(s, n).len(),
        quoted_prefix(s, n).subrange(
            quoted_prefix(s, k).len() as int,
            (quoted_prefix(s, k).len() + quoted_char(s[k]).len()) as int,
        ) == quoted_char(s[k]),
    decreases n - k,
{
    let from = quoted_prefix(s, k).len() as int;
    let to = (quoted_prefix(s, k).len() + quoted_char(s[k]).len()) as int;
    if k + 1 == n {
        assert(quoted_prefix(s, n).subrange(from, to) =~= quoted_char(s[k]));
    } else {
        lemma_quoted_at(s, k, n - 1);
        assert(quoted_prefix(s, n).subrange(from, to) =~= quoted_prefix(s, n - 1).subrange(from, to));
    }
}

proof fn lemma_quoted_from(s: Seq<char>, k: int)
    requires
        0 <= k <= s.len(),
    ensures
        decoded(quoted_prefix(s, s.len() as int), quoted_prefix(s, k).len() as int) == Some(
            s.subrange(k, s.len() as int),
        ),
    decreases s.len() - k,
{
    let body = quoted_prefix(s, s.len() as int);
    let at = quoted_prefix(s, k).len() as int;
    if k == s.len() {
        assert(s.subrange(k, s.len() as int) =~= Seq::<char>::empty());
    } else {
        lemma_quoted_at(s, k, s.len() as int);
        lemma_quoted_from(s, k + 1);
        let c = s[k];
        let piece = quoted_char(c);
        let there = body.subrange(at, (at + piece.len()) as int);
        assert(there == piece);
        assert(body[at] == there[0]);
        if piece.len() >= 2 {
            assert(body[at + 1] == there[1]);
        }
        if piece.len() == 6 {
            lemma_control_escape(c);
            assert(body.subrange(at, at + 6) == piece);
        }
        assert(quoted_prefix(s, k + 1).len() == at + piece.len());
        assert(crate::decoders::next_at(body, at) == Some((Ok::<char, crate::decoders::DecodeError>(c), at + piece.len())));
        assert(seq![c] + s.subrange(k + 1, s.len() as int) =~= s.subrange(k, s.len() as int));
    }
}

/// What stands between the quotes reads back as the string: with its
/// escapes decoded it is the string, character for character. No double
/// quote stands there without a backslash before it, and no line ends
/// there: both are written as escapes.
pub proof fn lemma_quoted_str_decodes(s: Seq<char>)
    ensures
        decoded(quoted_prefix(s, s.len() as int), 0) == Some(s),
        forall|k: int|
            0 <= k < s.len() && (s[k] == '"' || s[k] == '\n' || s[k] == '\r') ==> (#[trigger] quoted_char(
                s[k],
            ))[0] == '\\',
{
    lemma_quoted_from(s, 0);
    assert(s.subrange(0, s.len() as int) =~= s);
}

/// Writes the string between double quotes, on one line: control
/// characters, the double quote and the backslash are escaped.
pub fn print_quoted_str(string: &str, f: &mut String)
    ensures
        final(f)@ == old(f)@ + quoted_str(string@),
{
    let chars = chars_of(string);
    push_char(f, '"');
    let mut i: usize = 0;
    assert(f@ =~= old(f)@ + (seq!['"'] + quoted_prefix(chars@, 0)));
    while i < chars.len()
        invariant
            i <= chars.len(),
            chars@ == string@,
            f@ == old(f)@ + (seq!['"'] + quoted_prefix(chars@, i as int)),
        decreases chars.len() - i,
    {
        let c = chars[i];
        let ghost before = f@;
        if c == '\u{08}' {
            push_char(f, '\\');
            push_char(f, 'b');
        } else if c == '\t' {
            push_char(f, '\\');
            push_char(f, 't');
        } else if c == '\n' {
            push_char(f, '\\');
            push_char(f, 'n');
        } else if c == '\u{0C}' {
            push_char(f, '\\');
            push_char(f, 'f');
        } else if c == '\r' {
            push_char(f, '\\');
            push_char(f, 'r');
        } else if c == '"' {
            push_char(f, '\\');
            push_char(f, '"');
        } else if c == '\\' {
            push_char(f, '\\');
            push_char(f, '\\');
        } else if c <= '\u{1F}' || c == '\u{7F}' {
            push_char(f, '\\');
            push_char(f, 'u');
            push_char(f, '0');
            push_char(f, '0');
            let code = ascii_code(c);
            push_char(f, hex_digit_of(code / 16));
            push_char(f, hex_digit_of(code % 16));
        } else {
            push_char(f, c);
        }
        assert(f@ =~= before + quoted_char(c));
        assert(f@ =~= old(f)@ + (seq!['"'] + quoted_prefix(chars@, i + 1)));
        i += 1;
    }
    push_char(f, '"');
    assert(f@ =~= old(f)@ + quoted_str(string@));
}

/// How many double quotes stand among the first `n` characters.
pub open spec fn quotes_before(s: Seq<char>, n: int) -> int
    decreases n,
{
    if n <= 0 {
        0
    } else if s[n - 1] == '"' {
        quotes_before(s, n - 1) + 1
    } else {
        quotes_before(s, n - 1)
    }
}

/// The double quote at `k` has a backslash before it: every third double
/// quote of the string has, and so has a double quote at the end.
pub open spec fn quote_escaped(s: Seq<char>, k: int) -> bool {
    s[k] == '"' && (quotes_before(s, k + 1) % 3 == 0 || k == s.len() - 1)
}

/// The character at `k` as it stands inside a string between triple
/// quotes: a backslash is doubled, a double quote has a backslash before
/// it where it could else end the string, and any other character stands
/// for itself.
pub open spec fn long_char(s: Seq<char>, k: int) -> Seq<char> {
    if s[k] == '\\' {
        seq!['\\', '\\']
    } else if quote_escaped(s, k) {
        seq!['\\', '"']
    } else {
        seq![s[k]]
    }
}

/// The first `n` characters of a string as they stand inside a string
/// between triple quotes.
pub open spec fn long_body(s: Seq<char>, n: int) -> Seq<char>
    decreases n,
{
    if n <= 0 {
        Seq::empty()
    } else {
        long_body(s, n - 1) + long_char(s, n - 1)
    }
}

/// The string between triple double quotes, over as many lines as it has.
pub open spec fn long_str(s: Seq<char>) -> Seq<char> {
    seq!['"', '"', '"'] + long_body(s, s.len() as int) + seq!['"', '"', '"']
}

/// Writes the string between triple double quotes. Read back, with its
/// escapes decoded, what stands between the quotes is the string
/// ([`lemma_long_body_decodes`]), and it cannot end the string early
/// ([`lemma_long_quotes`]).
pub fn print_unquoted_str(string: &str, f: &mut String)
    ensures
        final(f)@ == old(f)@ + long_str(string@),
{
    let chars = chars_of(string);
    push_char(f, '"');
    push_char(f, '"');
    push_char(f, '"');
    let ghost open = seq!['"', '"', '"'];
    let mut quote_counter: u8 = 0;
    let mut i: usize = 0;
    assert(f@ =~= old(f)@ + (open + long_body(chars@, 0)));
    while i < chars.len()
        invariant
            i <= chars.len(),
            chars@ == string@,
            open == seq!['"', '"', '"'],
            quote_counter < 3,
            quote_counter as int == quotes_before(chars@, i as int) % 3,
            f@ == old(f)@ + (open + long_body(chars@, i as int)),
        decreases chars.len() - i,
    {
        let ghost before = f@;
        let c = chars[i];
        if c == '\\' {
            push_char(f, '\\');
            push_char(f, '\\');
        } else if c == '"' {
            quote_counter += 1;
            if quote_counter == 3 {
                quote_counter = 0;
            }
            if quote_counter == 0 || i == chars.len() - 1 {
                push_char(f, '\\');
            }
            push_char(f, '"');
        } else {
            push_char(f, c);
        }
        assert(f@ =~= before + long_char(chars@, i as int));
        assert(f@ =~= old(f)@ + (open + long_body(chars@, i + 1)));
        i += 1;
    }
    push_char(f, '"');
    push_char(f, '"');
    push_char(f, '"');
    assert(f@ =~= old(f)@ + long_str(string@));
}

/// How many characters the first `k` characters of a string take inside
/// triple quotes is where the `k`-th stands there; it stands there as
/// [`long_char`] says.
proof fn lemma_long_body_at(s: Seq<char>, k: int, n: int)
    requires
        0 <= k < n <= s.len(),
    ensures
        long_body(s, k).len() + long_char(s, k).len() <= long_body(s, n).len(),
        long_body(s, n).subrange(
            long_body(s, k).len() as int,
            (long_body(s, k).len() + long_char(s, k).len()) as int,
        ) == long_char(s, k),
    decreases n - k,
{
    if k + 1 == n {
        assert(long_body(s, n).subrange(
            long_body(s, k).len() as int,
            (long_body(s, k).len() + long_char(s, k).len()) as int,
        ) =~= long_char(s, k));
    } else {
        lemma_long_body_at(s, k, n - 1);
        let shorter = long_body(s, n - 1);
        let from = long_body(s, k).len() as int;
        let to = (long_body(s, k).len() + long_char(s, k).len()) as int;
        assert(long_body(s, n).subrange(from, to) =~= shorter.subrange(from, to));
    }
}

proof fn lemma_long_body_from(s: Seq<char>, k: int)
    requires
        0 <= k <= s.len(),
    ensures
        decoded(long_body(s, s.len() as int), long_body(s, k).len() as int) == Some(
            s.subrange(k, s.len() as int),
        ),
    decreases s.len() - k,
{
    let body = long_body(s, s.len() as int);
    let at = long_body(s, k).len() as int;
    if k == s.len() {
        assert(s.subrange(k, s.len() as int) =~= Seq::<char>::empty());
    } else {
        lemma_long_body_at(s, k, s.len() as int);
        lemma_long_body_from(s, k + 1);
        let piece = long_char(s, k);
        let there = body.subrange(at, (at + piece.len()) as int);
        assert(there == piece);
        assert(body[at] == there[0]);
        if piece.len() == 2 {
            assert(body[at + 1] == there[1]);
        }
        assert(long_body(s, k + 1).len() == at + piece.len());
        assert(seq![s[k]] + s.subrange(k + 1, s.len() as int) =~= s.subrange(k, s.len() as int));
    }
}

/// What stands between the triple quotes reads back as the string: with
/// its escapes decoded it is the string, character for character.
pub proof fn lemma_long_body_decodes(s: Seq<char>)
    ensures
        decoded(long_body(s, s.len() as int), 0) == Some(s),
{
    lemma_long_body_from(s, 0);
    assert(s.subrange(0, s.len() as int) =~= s);
}

/// What stands between the triple quotes cannot end the string early: of
/// three double quotes in a row one has a backslash before it, and so has
/// a double quote at the end.
pub proof fn lemma_long_quotes(s: Seq<char>)
    ensures
        forall|k: int|
            0 <= k && k + 2 < s.len() && s[k] == '"' && #[trigger] s[k + 1] == '"' && s[k + 2] == '"'
                ==> quote_escaped(s, k) || quote_escaped(s, k + 1) || quote_escaped(s, k + 2),
        s.len() > 0 && s.last() == '"' ==> quote_escaped(s, s.len() - 1),
{
    assert forall|k: int|
        0 <= k && k + 2 < s.len() && s[k] == '"' && #[trigger] s[k + 1] == '"' && s[k + 2] == '"' implies quote_escaped(
        s,
        k,
    ) || quote_escaped(s, k + 1) || quote_escaped(s, k + 2) by {
        let q = quotes_before(s, k + 1);
        assert(quotes_before(s, k + 2) == q + 1);
        assert(quotes_before(s, k + 3) == q + 2);
    }
}

} // verus!
