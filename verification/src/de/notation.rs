//! The notation encoding, read.
//!
//! Notation is similar to JSON, but not compatible with it. It comes as a
//! stream of characters or as a stream of bytes. Both share one grammar, but
//! for two productions that count raw bytes, `b(N)"..."` and `s(N)"..."`:
//! those exist in a stream of bytes only. Each byte of a stream of bytes
//! stands for the character with the same number, but between quotes, where
//! the bytes are the UTF-8 form of the text.
use vstd::prelude::*;
use vstd::utf8::{decode_utf8, valid_utf8};
use crate::error::NotationError;
use crate::outside::{
    alphabetic, base64_decode, base64_decoded, hex_bytes, hex_decode, is_alphabetic, is_hex_text,
    parse_rfc3339, percent_decode, percent_decoded, rfc3339_seconds, uuid_parse, uuid_parsed,
};
use crate::text::{
    chars_of, int_of_text, is_real, is_real_literal, is_space, is_whitespace, parse_i32,
    push_char, string_of, utf8_to_string,
};
use crate::value::{insert_entry, items_view, Entries, LLSDMap, LLSDReal, LLSDValue, Real, Value};

verus! {

/// What reading one piece of the grammar gives: the piece and the
/// characters after it.
pub type Scan<T> = Result<(T, Seq<char>), NotationError>;

/// What reading one value gives.
pub type Parsed = Scan<Value>;

/// Skippable white space: space and newline only.
pub open spec fn is_blank(c: char) -> bool {
    c == ' ' || c == '\n'
}

/// The text without its leading blanks.
pub open spec fn skip_blanks(s: Seq<char>) -> Seq<char>
    decreases s.len(),
{
    if s.len() > 0 && is_blank(s[0]) {
        skip_blanks(s.skip(1))
    } else {
        s
    }
}

/// After blanks, the character `want`.
pub open spec fn expect(s: Seq<char>, want: char) -> Scan<()> {
    let t = skip_blanks(s);
    if t.len() == 0 {
        Err(NotationError::UnexpectedEnd)
    } else if t[0] == want {
        Ok(((), t.skip(1)))
    } else {
        Err(NotationError::Expected(want, t[0]))
    }
}

/// A sign or a digit.
pub open spec fn is_integer_char(c: char) -> bool {
    ('0' <= c <= '9') || c == '+' || c == '-'
}

/// A sign, a digit or a point.
pub open spec fn is_real_char(c: char) -> bool {
    is_integer_char(c) || c == '.'
}

/// How many characters at the head of `s` are signs or digits.
pub open spec fn integer_run(s: Seq<char>) -> int
    decreases s.len(),
{
    if s.len() > 0 && is_integer_char(s[0]) {
        1 + integer_run(s.skip(1))
    } else {
        0
    }
}

/// How many characters at the head of `s` are signs, digits or points.
pub open spec fn real_run(s: Seq<char>) -> int
    decreases s.len(),
{
    if s.len() > 0 && is_real_char(s[0]) {
        1 + real_run(s.skip(1))
    } else {
        0
    }
}

/// An ASCII letter.
pub open spec fn is_letter(c: char) -> bool {
    ('a' <= c <= 'z') || ('A' <= c <= 'Z')
}

/// An alphabetic character: among the ASCII characters a letter, beyond
/// them what the standard library calls alphabetic.
pub open spec fn is_word_char(c: char) -> bool {
    if c <= '\u{7f}' {
        is_letter(c)
    } else {
        alphabetic(c)
    }
}

/// How many characters at the head of `s` are alphabetic.
pub open spec fn word_run(s: Seq<char>) -> int
    decreases s.len(),
{
    if s.len() > 0 && is_word_char(s[0]) {
        1 + word_run(s.skip(1))
    } else {
        0
    }
}

/// `i`: the longest run of signs and digits, read as a 32-bit integer.
pub open spec fn take_integer(s: Seq<char>) -> Scan<i32> {
    let n = integer_run(s);
    match int_of_text(s.take(n)) {
        Some(i) => Ok((i, s.skip(n))),
        None => Err(NotationError::BadInteger),
    }
}

/// `r`: the longest run of signs, digits and points, which has to be a
/// decimal number. It is kept as its numeral.
pub open spec fn take_real(s: Seq<char>) -> Parsed {
    let n = real_run(s);
    if is_real_literal(s.take(n)) {
        Ok((Value::Real(Real::Decimal(s.take(n))), s.skip(n)))
    } else {
        Err(NotationError::BadReal)
    }
}

/// The spellings of a boolean: `t`, `T`, `true`, `TRUE` and `f`, `F`,
/// `false`, `FALSE`.
pub open spec fn boolean_of_word(w: Seq<char>) -> Option<bool> {
    if w == seq!['t'] || w == seq!['T'] || w == seq!['t', 'r', 'u', 'e'] || w == seq![
        'T',
        'R',
        'U',
        'E',
    ] {
        Some(true)
    } else if w == seq!['f'] || w == seq!['F'] || w == seq!['f', 'a', 'l', 's', 'e'] || w == seq![
        'F',
        'A',
        'L',
        'S',
        'E',
    ] {
        Some(false)
    } else {
        None
    }
}

/// A boolean spelled out: `first` and the longest run of alphabetic
/// characters after it have to be one of the spellings.
pub open spec fn take_boolean(first: char, s: Seq<char>) -> Parsed {
    let n = word_run(s);
    match boolean_of_word(seq![first] + s.take(n)) {
        Some(b) => Ok((Value::Boolean(b), s.skip(n))),
        None => Err(NotationError::BadBoolean),
    }
}

/// The characters of the body of a quoted string, up to the closing
/// `quote`. A backslash takes the character after it as it is.
pub open spec fn take_quoted(s: Seq<char>, quote: char) -> Scan<Seq<char>>
    decreases s.len(),
{
    if s.len() == 0 {
        Err(NotationError::UnexpectedEnd)
    } else if s[0] == quote {
        Ok((Seq::empty(), s.skip(1)))
    } else if s[0] == '\\' {
        if s.len() < 2 {
            Err(NotationError::UnexpectedEnd)
        } else {
            match take_quoted(s.skip(2), quote) {
                Err(e) => Err(e),
                Ok((t, rest)) => Ok((seq![s[1]] + t, rest)),
            }
        }
    } else {
        match take_quoted(s.skip(1), quote) {
            Err(e) => Err(e),
            Ok((t, rest)) => Ok((seq![s[0]] + t, rest)),
        }
    }
}

/// The text that the characters between two quotes stand for. In a stream
/// of characters they are the text; in a stream of bytes they are the bytes
/// of the text in UTF-8.
pub open spec fn text_of(t: Seq<char>, raw: bool) -> Result<Seq<char>, NotationError> {
    if !raw {
        Ok(t)
    } else if valid_utf8(bytes_of(t)) {
        Ok(decode_utf8(bytes_of(t)))
    } else {
        Err(NotationError::InvalidUtf8)
    }
}

/// A quoted string after its opening quote: its body up to the closing
/// `quote`, as text.
pub open spec fn take_string(s: Seq<char>, quote: char, raw: bool) -> Scan<Seq<char>> {
    match take_quoted(s, quote) {
        Err(e) => Err(e),
        Ok((t, rest)) => match text_of(t, raw) {
            Err(e) => Err(e),
            Ok(text) => Ok((text, rest)),
        },
    }
}

/// A quote and the string that it opens.
pub open spec fn take_string_after_quote(s: Seq<char>, raw: bool) -> Scan<Seq<char>> {
    if s.len() == 0 {
        Err(NotationError::UnexpectedEnd)
    } else if s[0] == '"' || s[0] == '\'' {
        take_string(s.skip(1), s[0], raw)
    } else {
        Err(NotationError::MissingQuote(s[0]))
    }
}

/// `d`: a quoted RFC 3339 date.
pub open spec fn take_date(s: Seq<char>, raw: bool) -> Parsed {
    match take_string_after_quote(s, raw) {
        Err(e) => Err(e),
        Ok((t, rest)) => match rfc3339_seconds(t) {
            Some(d) => Ok((Value::Date(d), rest)),
            None => Err(NotationError::BadDate),
        },
    }
}

/// `l`: a quoted, percent-encoded URI.
pub open spec fn take_uri(s: Seq<char>, raw: bool) -> Parsed {
    match take_string_after_quote(s, raw) {
        Err(e) => Err(e),
        Ok((t, rest)) => match percent_decoded(t) {
            Some(u) => Ok((Value::Uri(u), rest)),
            None => Err(NotationError::BadUri),
        },
    }
}

/// `u`: exactly thirty-six characters, unquoted.
pub open spec fn take_uuid(s: Seq<char>) -> Parsed {
    if s.len() < 36 {
        Err(NotationError::UnexpectedEnd)
    } else {
        match uuid_parsed(s.take(36)) {
            Some(u) => if u.len() == 16 {
                Ok((Value::Uuid(u), s.skip(36)))
            } else {
                Err(NotationError::BadUuid)
            },
            None => Err(NotationError::BadUuid),
        }
    }
}

/// A count between parentheses.
pub open spec fn take_count(s: Seq<char>) -> Scan<nat> {
    match expect(s, '(') {
        Err(e) => Err(e),
        Ok((_, s1)) => match take_integer(s1) {
            Err(e) => Err(e),
            Ok((n, s2)) => match expect(s2, ')') {
                Err(e) => Err(e),
                Ok((_, s3)) => if n < 0 {
                    Err(NotationError::BadLength)
                } else {
                    Ok((n as nat, s3))
                },
            },
        }
    }
}

/// The bytes that characters of a stream of bytes stand for.
pub open spec fn bytes_of(s: Seq<char>) -> Seq<u8> {
    s.map_values(|c: char| c as u8)
}

/// A count between parentheses, then that many raw bytes between double
/// quotes.
pub open spec fn take_counted(s: Seq<char>) -> Scan<Seq<u8>> {
    match take_count(s) {
        Err(e) => Err(e),
        Ok((n, s1)) => match expect(s1, '"') {
            Err(e) => Err(e),
            Ok((_, s2)) => if s2.len() < n {
                Err(NotationError::UnexpectedEnd)
            } else {
                match expect(s2.skip(n as int), '"') {
                    Err(e) => Err(e),
                    Ok((_, s3)) => Ok((bytes_of(s2.take(n as int)), s3)),
                }
            },
        },
    }
}

/// The text without its white space.
pub open spec fn without_spaces(t: Seq<char>) -> Seq<char>
    decreases t.len(),
{
    if t.len() == 0 {
        Seq::empty()
    } else if is_space(t.last()) {
        without_spaces(t.drop_last())
    } else {
        without_spaces(t.drop_last()).push(t.last())
    }
}

/// After `a`, `b` and a double quote, a quoted text, with its white space
/// taken out.
pub open spec fn take_encoded(s: Seq<char>, a: char, b: char, raw: bool) -> Scan<Seq<char>> {
    match expect(s, a) {
        Err(e) => Err(e),
        Ok((_, s1)) => match expect(s1, b) {
            Err(e) => Err(e),
            Ok((_, s2)) => match expect(s2, '"') {
                Err(e) => Err(e),
                Ok((_, s3)) => match take_string(s3, '"', raw) {
                    Err(e) => Err(e),
                    Ok((t, rest)) => Ok((without_spaces(t), rest)),
                },
            },
        },
    }
}

/// `b`: a binary value in one of three forms, `(N)"raw bytes"`,
/// `16"hexadecimal"` or `64"base64"`. The first exists in a stream of bytes
/// only.
pub open spec fn take_binary(s: Seq<char>, raw: bool) -> Parsed {
    if s.len() == 0 {
        Err(NotationError::UnexpectedEnd)
    } else if s[0] == '(' {
        if !raw {
            Err(NotationError::Unsupported)
        } else {
            match take_counted(s) {
                Err(e) => Err(e),
                Ok((bytes, rest)) => Ok((Value::Binary(bytes), rest)),
            }
        }
    } else if s[0] == '1' {
        match take_encoded(s, '1', '6', raw) {
            Err(e) => Err(e),
            Ok((t, rest)) => if is_hex_text(t) {
                Ok((Value::Binary(hex_bytes(t)), rest))
            } else {
                Err(NotationError::BadHex)
            },
        }
    } else if s[0] == '6' {
        match take_encoded(s, '6', '4', raw) {
            Err(e) => Err(e),
            Ok((t, rest)) => match base64_decoded(t) {
                Some(bytes) => Ok((Value::Binary(bytes), rest)),
                None => Err(NotationError::BadBase64),
            },
        }
    } else {
        Err(NotationError::BadBinary(s[0]))
    }
}

/// `s`: a string of counted bytes, which have to be UTF-8. It exists in a
/// stream of bytes only.
pub open spec fn take_sized_string(s: Seq<char>, raw: bool) -> Parsed {
    if !raw {
        Err(NotationError::Unsupported)
    } else {
        match take_counted(s) {
            Err(e) => Err(e),
            Ok((bytes, rest)) => if valid_utf8(bytes) {
                Ok((Value::String(decode_utf8(bytes)), rest))
            } else {
                Err(NotationError::InvalidUtf8)
            },
        }
    }
}

/// A quoted string as a value.
pub open spec fn take_text(s: Seq<char>, quote: char, raw: bool) -> Parsed {
    match take_string(s, quote, raw) {
        Err(e) => Err(e),
        Ok((t, rest)) => Ok((Value::String(t), rest)),
    }
}

/// One value: after blanks, the character that selects its kind, then its
/// body. `raw` tells a stream of bytes from a stream of characters.
pub open spec fn scan_value(s: Seq<char>, raw: bool) -> Parsed
    decreases s.len(), 0nat,
{
    if s.len() == 0 {
        Err(NotationError::UnexpectedEnd)
    } else if is_blank(s[0]) {
        scan_value(s.skip(1), raw)
    } else {
        let c = s[0];
        let body = s.skip(1);
        if c == '!' {
            Ok((Value::Undefined, body))
        } else if c == '0' {
            Ok((Value::Boolean(false), body))
        } else if c == '1' {
            Ok((Value::Boolean(true), body))
        } else if c == 'f' || c == 'F' || c == 't' || c == 'T' {
            take_boolean(c, body)
        } else if c == '{' {
            scan_map(body, Entries::empty(), raw)
        } else if c == '[' {
            scan_array(body, Seq::empty(), raw)
        } else if c == 'i' {
            match take_integer(body) {
                Err(e) => Err(e),
                Ok((i, rest)) => Ok((Value::Integer(i), rest)),
            }
        } else if c == 'r' {
            take_real(body)
        } else if c == 'd' {
            take_date(body, raw)
        } else if c == 'u' {
            take_uuid(body)
        } else if c == 'l' {
            take_uri(body, raw)
        } else if c == 'b' {
            take_binary(body, raw)
        } else if c == 's' {
            take_sized_string(body, raw)
        } else if c == '"' || c == '\'' {
            take_text(body, c, raw)
        } else {
            Err(NotationError::UnexpectedChar(c))
        }
    }
}

/// The items of an array after its `[`, added to those in `done`: values
/// with commas between them, then `]`. A comma just before the `]` is
/// tolerated.
pub open spec fn scan_array(s: Seq<char>, done: Seq<Value>, raw: bool) -> Parsed
    decreases s.len(), 1nat,
{
    if s.len() == 0 {
        Err(NotationError::UnexpectedEnd)
    } else if is_blank(s[0]) {
        scan_array(s.skip(1), done, raw)
    } else if s[0] == ']' {
        Ok((Value::Array(done), s.skip(1)))
    } else {
        match scan_value(s, raw) {
            Err(e) => Err(e),
            Ok((v, rest)) => if rest.len() < s.len() {
                array_separator(rest, done.push(v), raw)
            } else {
                Err(NotationError::UnexpectedEnd)
            },
        }
    }
}

/// What follows an item of an array: a comma and the further items, or `]`.
pub open spec fn array_separator(s: Seq<char>, done: Seq<Value>, raw: bool) -> Parsed
    decreases s.len(), 1nat,
{
    if s.len() == 0 {
        Err(NotationError::UnexpectedEnd)
    } else if is_blank(s[0]) {
        array_separator(s.skip(1), done, raw)
    } else if s[0] == ',' {
        scan_array(s.skip(1), done, raw)
    } else if s[0] == ']' {
        Ok((Value::Array(done), s.skip(1)))
    } else {
        Err(NotationError::BadSeparator(s[0]))
    }
}

/// The entries of a map after its `{`, set in turn in `done`: quoted keys,
/// each with a colon and a value, with commas between the entries, then `}`.
/// A comma just before the `}` is tolerated; a key that is already present
/// overwrites it.
pub open spec fn scan_map(s: Seq<char>, done: Entries, raw: bool) -> Parsed
    decreases s.len(), 1nat,
{
    if s.len() == 0 {
        Err(NotationError::UnexpectedEnd)
    } else if is_blank(s[0]) {
        scan_map(s.skip(1), done, raw)
    } else if s[0] == '}' {
        Ok((Value::Mapping(done), s.skip(1)))
    } else if s[0] == '"' || s[0] == '\'' {
        match take_string(s.skip(1), s[0], raw) {
            Err(e) => Err(e),
            Ok((key, s1)) => match expect(s1, ':') {
                Err(e) => Err(e),
                Ok((_, s2)) => if s2.len() < s.len() {
                    match scan_value(s2, raw) {
                        Err(e) => Err(e),
                        Ok((v, rest)) => if rest.len() < s.len() {
                            map_separator(rest, insert_entry(done, key, v), raw)
                        } else {
                            Err(NotationError::UnexpectedEnd)
                        },
                    }
                } else {
                    Err(NotationError::UnexpectedEnd)
                },
            },
        }
    } else {
        Err(NotationError::BadKey(s[0]))
    }
}

/// What follows an entry of a map: a comma and the further entries, or `}`.
pub open spec fn map_separator(s: Seq<char>, done: Entries, raw: bool) -> Parsed
    decreases s.len(), 1nat,
{
    if s.len() == 0 {
        Err(NotationError::UnexpectedEnd)
    } else if is_blank(s[0]) {
        map_separator(s.skip(1), done, raw)
    } else if s[0] == ',' {
        scan_map(s.skip(1), done, raw)
    } else if s[0] == '}' {
        Ok((Value::Mapping(done), s.skip(1)))
    } else {
        Err(NotationError::BadSeparator(s[0]))
    }
}

/// What decoding a text gives: the first value in it. What follows that
/// value is not looked at.
pub open spec fn decoded(s: Seq<char>, raw: bool) -> Result<Value, NotationError> {
    match scan_value(s, raw) {
        Ok((v, _)) => Ok(v),
        Err(e) => Err(e),
    }
}

/// The characters that the bytes of a stream of bytes stand for.
pub open spec fn chars_of_bytes(b: Seq<u8>) -> Seq<char> {
    b.map_values(|x: u8| x as char)
}

/// Leading blanks do not change what a value is.
pub proof fn lemma_value_skips_blanks(s: Seq<char>, raw: bool)
    ensures
        scan_value(skip_blanks(s), raw) == scan_value(s, raw),
        skip_blanks(s).len() <= s.len(),
        skip_blanks(s).len() > 0 ==> !is_blank(skip_blanks(s)[0]),
    decreases s.len(),
{
    if s.len() > 0 && is_blank(s[0]) {
        lemma_value_skips_blanks(s.skip(1), raw);
    }
}

/// Leading blanks do not change what the items of an array are.
pub proof fn lemma_array_skips_blanks(s: Seq<char>, done: Seq<Value>, raw: bool)
    ensures
        scan_array(skip_blanks(s), done, raw) == scan_array(s, done, raw),
        array_separator(skip_blanks(s), done, raw) == array_separator(s, done, raw),
    decreases s.len(),
{
    if s.len() > 0 && is_blank(s[0]) {
        lemma_array_skips_blanks(s.skip(1), done, raw);
    }
}

/// Leading blanks do not change what the entries of a map are.
pub proof fn lemma_map_skips_blanks(s: Seq<char>, done: Entries, raw: bool)
    ensures
        scan_map(skip_blanks(s), done, raw) == scan_map(s, done, raw),
        map_separator(skip_blanks(s), done, raw) == map_separator(s, done, raw),
    decreases s.len(),
{
    if s.len() > 0 && is_blank(s[0]) {
        lemma_map_skips_blanks(s.skip(1), done, raw);
    }
}

/// A stream of notation: what is left of it, and the two operations that
/// the grammar is written over.
pub trait LLSDStream {
    /// The characters not yet consumed.
    spec fn remaining(&self) -> Seq<char>;

    /// Whether this kind of stream counts raw bytes.
    spec fn raw() -> bool;

    /// Whether this kind of stream counts raw bytes.
    fn is_raw(&self) -> (r: bool)
        ensures
            r == Self::raw(),
    ;

    /// The next character, left in place.
    fn peek(&self) -> (c: Option<char>)
        ensures
            c == (if self.remaining().len() > 0 {
                Some(self.remaining()[0])
            } else {
                None::<char>
            }),
    ;

    /// The next character, consumed.
    fn next(&mut self) -> (c: Option<char>)
        ensures
            c == (if old(self).remaining().len() > 0 {
                Some(old(self).remaining()[0])
            } else {
                None::<char>
            }),
            final(self).remaining() == (if old(self).remaining().len() > 0 {
                old(self).remaining().skip(1)
            } else {
                old(self).remaining()
            }),
    ;
}

/// A stream of characters.
pub struct LLSDStreamChars {
    chars: Vec<char>,
    pos: usize,
}

/// A stream of raw bytes.
pub struct LLSDStreamBytes<'a> {
    bytes: &'a [u8],
    pos: usize,
}

impl LLSDStreamChars {
    #[verifier::type_invariant]
    spec fn within(self) -> bool {
        self.pos <= self.chars@.len()
    }

    /// A stream over the characters of a text.
    pub fn new(notation_str: &str) -> (stream: LLSDStreamChars)
        ensures
            stream.remaining() == notation_str@,
    {
        let stream = LLSDStreamChars { chars: chars_of(notation_str), pos: 0 };
        assert(stream.chars@.skip(0) =~= notation_str@);
        stream
    }
}

impl<'a> LLSDStreamBytes<'a> {
    #[verifier::type_invariant]
    spec fn within(self) -> bool {
        self.pos <= self.bytes@.len()
    }

    /// A stream over bytes.
    pub fn new(notation_bytes: &'a [u8]) -> (stream: LLSDStreamBytes<'a>)
        ensures
            stream.remaining() == chars_of_bytes(notation_bytes@),
    {
        let stream = LLSDStreamBytes { bytes: notation_bytes, pos: 0 };
        assert(chars_of_bytes(notation_bytes@).skip(0) =~= chars_of_bytes(notation_bytes@));
        stream
    }
}

impl LLSDStream for LLSDStreamChars {
    closed spec fn remaining(&self) -> Seq<char> {
        self.chars@.skip(self.pos as int)
    }

    open spec fn raw() -> bool {
        false
    }

    fn is_raw(&self) -> (r: bool) {
        false
    }

    fn peek(&self) -> (c: Option<char>) {
        proof {
            use_type_invariant(self);
        }
        if self.pos < self.chars.len() {
            Some(self.chars[self.pos])
        } else {
            None
        }
    }

    fn next(&mut self) -> (c: Option<char>) {
        proof {
            use_type_invariant(&*self);
        }
        if self.pos < self.chars.len() {
            let c = self.chars[self.pos];
            self.pos = self.pos + 1;
            assert(self.chars@.skip(self.pos as int) =~= old(self).chars@.skip(
                old(self).pos as int,
            ).skip(1));
            Some(c)
        } else {
            None
        }
    }
}

impl<'a> LLSDStream for LLSDStreamBytes<'a> {
    closed spec fn remaining(&self) -> Seq<char> {
        chars_of_bytes(self.bytes@).skip(self.pos as int)
    }

    open spec fn raw() -> bool {
        true
    }

    fn is_raw(&self) -> (r: bool) {
        true
    }

    fn peek(&self) -> (c: Option<char>) {
        proof {
            use_type_invariant(self);
        }
        if self.pos < self.bytes.len() {
            Some(self.bytes[self.pos] as char)
        } else {
            None
        }
    }

    fn next(&mut self) -> (c: Option<char>) {
        proof {
            use_type_invariant(&*self);
        }
        if self.pos < self.bytes.len() {
            let c = self.bytes[self.pos] as char;
            self.pos = self.pos + 1;
            assert(chars_of_bytes(self.bytes@).skip(self.pos as int) =~= chars_of_bytes(
                old(self).bytes@,
            ).skip(old(self).pos as int).skip(1));
            Some(c)
        } else {
            None
        }
    }
}

/// How an executable result stands for a scan in the model: on success the
/// value has the scanned value as its model and the stream is where the rest
/// begins.
pub open spec fn agrees(r: Result<LLSDValue, NotationError>, after: Seq<char>, want: Parsed) -> bool {
    match want {
        Ok((v, rest)) => r is Ok && r->Ok_0@ == v && after == rest,
        Err(e) => r == Err::<LLSDValue, NotationError>(e),
    }
}

/// Consumes blanks. The next character is no blank.
pub fn consume_whitespace<S: LLSDStream>(stream: &mut S)
    ensures
        final(stream).remaining() == skip_blanks(old(stream).remaining()),
        final(stream).remaining().len() <= old(stream).remaining().len(),
{
    loop
        invariant
            skip_blanks(stream.remaining()) == skip_blanks(old(stream).remaining()),
            stream.remaining().len() <= old(stream).remaining().len(),
        ensures
            stream.remaining() == skip_blanks(old(stream).remaining()),
            stream.remaining().len() <= old(stream).remaining().len(),
        decreases stream.remaining().len(),
    {
        match stream.peek() {
            Some(c) => {
                if c == ' ' || c == '\n' {
                    let _ = stream.next();
                } else {
                    break ;
                }
            },
            None => {
                break ;
            },
        }
    }
}

/// Consumes blanks and then the expected character.
pub fn consume_char<S: LLSDStream>(stream: &mut S, expected_ch: char) -> (r: Result<
    (),
    NotationError,
>)
    ensures
        match expect(old(stream).remaining(), expected_ch) {
            Ok((_, rest)) => r is Ok && final(stream).remaining() == rest,
            Err(e) => r == Err::<(), NotationError>(e),
        },
        final(stream).remaining().len() <= old(stream).remaining().len(),
{
    consume_whitespace(stream);
    match stream.next() {
        None => Err(NotationError::UnexpectedEnd),
        Some(ch) => {
            if ch == expected_ch {
                Ok(())
            } else {
                Err(NotationError::Expected(expected_ch, ch))
            }
        },
    }
}

/// Consumes the longest run of signs and digits.
fn integer_chars<S: LLSDStream>(stream: &mut S) -> (run: Vec<char>)
    ensures
        run@ == old(stream).remaining().take(integer_run(old(stream).remaining())),
        final(stream).remaining() == old(stream).remaining().skip(
            integer_run(old(stream).remaining()),
        ),
        0 <= integer_run(old(stream).remaining()) <= old(stream).remaining().len(),
{
    let ghost start = stream.remaining();
    let mut run: Vec<char> = Vec::new();
    assert(start.take(0) =~= run@);
    assert(start.skip(0) =~= start);
    loop
        invariant
            run@.len() <= start.len(),
            run@ == start.take(run@.len() as int),
            stream.remaining() == start.skip(run@.len() as int),
            integer_run(start) == run@.len() + integer_run(stream.remaining()),
        ensures
            run@.len() <= start.len(),
            run@ == start.take(run@.len() as int),
            stream.remaining() == start.skip(run@.len() as int),
            integer_run(start) == run@.len(),
        decreases stream.remaining().len(),
    {
        match stream.peek() {
            Some(c) => {
                if (c >= '0' && c <= '9') || c == '+' || c == '-' {
                    let ghost n = run@.len() as int;
                    let _ = stream.next();
                    run.push(c);
                    assert(start.skip(n).skip(1) =~= start.skip(n + 1));
                    assert(run@ =~= start.take(n + 1));
                } else {
                    break ;
                }
            },
            None => {
                break ;
            },
        }
    }
    run
}

/// Consumes the longest run of signs, digits and points.
fn real_chars<S: LLSDStream>(stream: &mut S) -> (run: Vec<char>)
    ensures
        run@ == old(stream).remaining().take(real_run(old(stream).remaining())),
        final(stream).remaining() == old(stream).remaining().skip(
            real_run(old(stream).remaining()),
        ),
        0 <= real_run(old(stream).remaining()) <= old(stream).remaining().len(),
{
    let ghost start = stream.remaining();
    let mut run: Vec<char> = Vec::new();
    assert(start.take(0) =~= run@);
    assert(start.skip(0) =~= start);
    loop
        invariant
            run@.len() <= start.len(),
            run@ == start.take(run@.len() as int),
            stream.remaining() == start.skip(run@.len() as int),
            real_run(start) == run@.len() + real_run(stream.remaining()),
        ensures
            run@.len() <= start.len(),
            run@ == start.take(run@.len() as int),
            stream.remaining() == start.skip(run@.len() as int),
            real_run(start) == run@.len(),
        decreases stream.remaining().len(),
    {
        match stream.peek() {
            Some(c) => {
                if (c >= '0' && c <= '9') || c == '+' || c == '-' || c == '.' {
                    let ghost n = run@.len() as int;
                    let _ = stream.next();
                    run.push(c);
                    assert(start.skip(n).skip(1) =~= start.skip(n + 1));
                    assert(run@ =~= start.take(n + 1));
                } else {
                    break ;
                }
            },
            None => {
                break ;
            },
        }
    }
    run
}

/// Consumes the longest run of alphabetic characters.
fn word_chars<S: LLSDStream>(stream: &mut S) -> (run: Vec<char>)
    ensures
        run@ == old(stream).remaining().take(word_run(old(stream).remaining())),
        final(stream).remaining() == old(stream).remaining().skip(
            word_run(old(stream).remaining()),
        ),
        0 <= word_run(old(stream).remaining()) <= old(stream).remaining().len(),
{
    let ghost start = stream.remaining();
    let mut run: Vec<char> = Vec::new();
    assert(start.take(0) =~= run@);
    assert(start.skip(0) =~= start);
    loop
        invariant
            run@.len() <= start.len(),
            run@ == start.take(run@.len() as int),
            stream.remaining() == start.skip(run@.len() as int),
            word_run(start) == run@.len() + word_run(stream.remaining()),
        ensures
            run@.len() <= start.len(),
            run@ == start.take(run@.len() as int),
            stream.remaining() == start.skip(run@.len() as int),
            word_run(start) == run@.len(),
        decreases stream.remaining().len(),
    {
        match stream.peek() {
            Some(c) => {
                if (c >= 'a' && c <= 'z') || (c >= 'A' && c <= 'Z') || (c > '\u{7f}'
                    && is_alphabetic(c)) {
                    let ghost n = run@.len() as int;
                    let _ = stream.next();
                    run.push(c);
                    assert(start.skip(n).skip(1) =~= start.skip(n + 1));
                    assert(run@ =~= start.take(n + 1));
                } else {
                    break ;
                }
            },
            None => {
                break ;
            },
        }
    }
    run
}

/// Parses the digits of "iNNN".
pub fn parse_integer<S: LLSDStream>(stream: &mut S) -> (r: Result<i32, NotationError>)
    ensures
        match take_integer(old(stream).remaining()) {
            Ok((i, rest)) => r == Ok::<i32, NotationError>(i) && final(stream).remaining() == rest,
            Err(e) => r == Err::<i32, NotationError>(e),
        },
        final(stream).remaining().len() <= old(stream).remaining().len(),
{
    let run = integer_chars(stream);
    match parse_i32(&run) {
        Some(i) => Ok(i),
        None => Err(NotationError::BadInteger),
    }
}

/// Parses the numeral of "rNNN". There is no exponent form.
pub fn parse_real<S: LLSDStream>(stream: &mut S) -> (r: Result<LLSDValue, NotationError>)
    ensures
        agrees(r, final(stream).remaining(), take_real(old(stream).remaining())),
        final(stream).remaining().len() <= old(stream).remaining().len(),
{
    let run = real_chars(stream);
    if is_real(&run) {
        let text = string_of(&run, 0, run.len());
        assert(run@.subrange(0, run@.len() as int) =~= run@);
        Ok(LLSDValue::Real(LLSDReal::Decimal(text)))
    } else {
        Err(NotationError::BadReal)
    }
}

/// Whether a word is the given one.
fn word_is(word: &Vec<char>, spelling: &[char]) -> (r: bool)
    ensures
        r == (word@ == spelling@),
{
    if word.len() != spelling.len() {
        return false;
    }
    let mut i: usize = 0;
    while i < word.len()
        invariant
            word@.len() == spelling@.len(),
            i <= word@.len(),
            forall|j: int| 0 <= j < i ==> word@[j] == spelling@[j],
        decreases word@.len() - i,
    {
        if word[i] != spelling[i] {
            return false;
        }
        i = i + 1;
    }
    assert(word@ =~= spelling@);
    true
}

/// The boolean that a word spells.
fn boolean_word(word: &Vec<char>) -> (r: Option<bool>)
    ensures
        r == boolean_of_word(word@),
{
    let t1: [char; 1] = ['t'];
    let t2: [char; 1] = ['T'];
    let t3: [char; 4] = ['t', 'r', 'u', 'e'];
    let t4: [char; 4] = ['T', 'R', 'U', 'E'];
    let f1: [char; 1] = ['f'];
    let f2: [char; 1] = ['F'];
    let f3: [char; 5] = ['f', 'a', 'l', 's', 'e'];
    let f4: [char; 5] = ['F', 'A', 'L', 'S', 'E'];
    assert(t1@ =~= seq!['t']);
    assert(t2@ =~= seq!['T']);
    assert(t3@ =~= seq!['t', 'r', 'u', 'e']);
    assert(t4@ =~= seq!['T', 'R', 'U', 'E']);
    assert(f1@ =~= seq!['f']);
    assert(f2@ =~= seq!['F']);
    assert(f3@ =~= seq!['f', 'a', 'l', 's', 'e']);
    assert(f4@ =~= seq!['F', 'A', 'L', 'S', 'E']);
    if word_is(word, t1.as_slice()) || word_is(word, t2.as_slice()) || word_is(
        word,
        t3.as_slice(),
    ) || word_is(word, t4.as_slice()) {
        Some(true)
    } else if word_is(word, f1.as_slice()) || word_is(word, f2.as_slice()) || word_is(
        word,
        f3.as_slice(),
    ) || word_is(word, f4.as_slice()) {
        Some(false)
    } else {
        None
    }
}

/// Parses a boolean spelled out. The first character was consumed already.
pub fn parse_boolean<S: LLSDStream>(stream: &mut S, first_char: char) -> (r: Result<
    LLSDValue,
    NotationError,
>)
    ensures
        agrees(r, final(stream).remaining(), take_boolean(first_char, old(stream).remaining())),
        final(stream).remaining().len() <= old(stream).remaining().len(),
{
    let run = word_chars(stream);
    let mut word: Vec<char> = Vec::new();
    word.push(first_char);
    let mut i: usize = 0;
    while i < run.len()
        invariant
            i <= run@.len(),
            word@ == seq![first_char] + run@.take(i as int),
        decreases run@.len() - i,
    {
        word.push(run[i]);
        i = i + 1;
        assert(word@ =~= seq![first_char] + run@.take(i as int));
    }
    assert(run@.take(run@.len() as int) =~= run@);
    match boolean_word(&word) {
        Some(b) => Ok(LLSDValue::Boolean(b)),
        None => Err(NotationError::BadBoolean),
    }
}

/// Consumes the characters of the body of a string, up to the closing
/// quote.
fn quoted_chars<S: LLSDStream>(stream: &mut S, delim: char) -> (r: Result<
    Vec<char>,
    NotationError,
>)
    ensures
        match take_quoted(old(stream).remaining(), delim) {
            Ok((t, rest)) => r is Ok && r->Ok_0@ == t && final(stream).remaining() == rest,
            Err(e) => r == Err::<Vec<char>, NotationError>(e),
        },
        final(stream).remaining().len() <= old(stream).remaining().len(),
        r is Ok ==> final(stream).remaining().len() < old(stream).remaining().len(),
{
    let ghost start = stream.remaining();
    let mut s: Vec<char> = Vec::new();
    loop
        invariant
            stream.remaining().len() <= start.len(),
            s@.len() > 0 ==> stream.remaining().len() < start.len(),
            start == old(stream).remaining(),
            match take_quoted(stream.remaining(), delim) {
                Ok((t, rest)) => take_quoted(start, delim) == Ok::<
                    (Seq<char>, Seq<char>),
                    NotationError,
                >((s@ + t, rest)),
                Err(e) => take_quoted(start, delim) == Err::<(Seq<char>, Seq<char>), NotationError>(
                    e,
                ),
            },
        decreases stream.remaining().len(),
    {
        let ghost here = stream.remaining();
        let ghost before = s@;
        let ch = match stream.next() {
            Some(c) => c,
            None => {
                return Err(NotationError::UnexpectedEnd);
            },
        };
        if ch == delim {
            assert(before + Seq::<char>::empty() =~= before);
            return Ok(s);
        }
        if ch == '\\' {
            match stream.next() {
                Some(c) => {
                    s.push(c);
                    proof {
                        assert(here.skip(1).skip(1) =~= here.skip(2));
                        assert(here.skip(1)[0] == here[1]);
                        if let Ok((t, rest)) = take_quoted(here.skip(2), delim) {
                            assert(before + (seq![c] + t) =~= before.push(c) + t);
                        }
                    }
                },
                None => {
                    return Err(NotationError::UnexpectedEnd);
                },
            }
        } else {
            s.push(ch);
            proof {
                if let Ok((t, rest)) = take_quoted(here.skip(1), delim) {
                    assert(before + (seq![ch] + t) =~= before.push(ch) + t);
                }
            }
        }
    }
}

/// The text that the characters between two quotes stand for.
fn text_from(chars: &Vec<char>, raw: bool) -> (r: Result<String, NotationError>)
    ensures
        match text_of(chars@, raw) {
            Ok(t) => r is Ok && r->Ok_0@ == t,
            Err(e) => r == Err::<String, NotationError>(e),
        },
{
    if !raw {
        let text = string_of(chars, 0, chars.len());
        assert(chars@.subrange(0, chars@.len() as int) =~= chars@);
        return Ok(text);
    }
    let mut bytes: Vec<u8> = Vec::new();
    let mut i: usize = 0;
    assert(bytes_of(chars@.take(0)) =~= bytes@);
    while i < chars.len()
        invariant
            i <= chars@.len(),
            bytes@ == bytes_of(chars@.take(i as int)),
        decreases chars@.len() - i,
    {
        bytes.push(chars[i] as u8);
        i = i + 1;
        assert(bytes@ =~= bytes_of(chars@.take(i as int)));
    }
    assert(chars@.take(chars@.len() as int) =~= chars@);
    match utf8_to_string(bytes) {
        Some(text) => Ok(text),
        None => Err(NotationError::InvalidUtf8),
    }
}

/// Parses the body of a string, "ABC" or 'ABC', with '\' as escape. The
/// opening quote was consumed already.
pub fn parse_quoted_string<S: LLSDStream>(stream: &mut S, delim: char) -> (r: Result<
    String,
    NotationError,
>)
    ensures
        match take_string(old(stream).remaining(), delim, S::raw()) {
            Ok((t, rest)) => r is Ok && r->Ok_0@ == t && final(stream).remaining() == rest,
            Err(e) => r == Err::<String, NotationError>(e),
        },
        final(stream).remaining().len() <= old(stream).remaining().len(),
        r is Ok ==> final(stream).remaining().len() < old(stream).remaining().len(),
{
    let chars = quoted_chars(stream, delim)?;
    text_from(&chars, stream.is_raw())
}

/// Consumes a quote and parses the string that it opens.
fn parse_string_after_quote<S: LLSDStream>(stream: &mut S) -> (r: Result<String, NotationError>)
    ensures
        match take_string_after_quote(old(stream).remaining(), S::raw()) {
            Ok((t, rest)) => r is Ok && r->Ok_0@ == t && final(stream).remaining() == rest,
            Err(e) => r == Err::<String, NotationError>(e),
        },
        final(stream).remaining().len() <= old(stream).remaining().len(),
{
    match stream.next() {
        None => Err(NotationError::UnexpectedEnd),
        Some(delim) => {
            if delim == '"' || delim == '\'' {
                parse_quoted_string(stream, delim)
            } else {
                Err(NotationError::MissingQuote(delim))
            }
        },
    }
}

/// Parses a quoted date, per RFC 3339.
pub fn parse_date<S: LLSDStream>(stream: &mut S) -> (r: Result<LLSDValue, NotationError>)
    ensures
        agrees(r, final(stream).remaining(), take_date(old(stream).remaining(), S::raw())),
        final(stream).remaining().len() <= old(stream).remaining().len(),
{
    let s = parse_string_after_quote(stream)?;
    match parse_rfc3339(s.as_str()) {
        Some(d) => Ok(LLSDValue::Date(d)),
        None => Err(NotationError::BadDate),
    }
}

/// Parses a quoted URI, which is percent-encoded.
pub fn parse_uri<S: LLSDStream>(stream: &mut S) -> (r: Result<LLSDValue, NotationError>)
    ensures
        agrees(r, final(stream).remaining(), take_uri(old(stream).remaining(), S::raw())),
        final(stream).remaining().len() <= old(stream).remaining().len(),
{
    let s = parse_string_after_quote(stream)?;
    match percent_decode(s.as_str()) {
        Some(u) => Ok(LLSDValue::URI(u)),
        None => Err(NotationError::BadUri),
    }
}

/// Parses a UUID: thirty-six characters, no quotes.
pub fn parse_uuid<S: LLSDStream>(stream: &mut S) -> (r: Result<LLSDValue, NotationError>)
    ensures
        agrees(r, final(stream).remaining(), take_uuid(old(stream).remaining())),
        final(stream).remaining().len() <= old(stream).remaining().len(),
{
    let ghost start = stream.remaining();
    let mut s = String::new();
    let mut i: usize = 0;
    assert(start.skip(0) =~= start);
    while i < 36
        invariant
            i <= 36,
            start == old(stream).remaining(),
            i <= start.len(),
            s@ == start.take(i as int),
            stream.remaining() == start.skip(i as int),
        decreases 36 - i,
    {
        match stream.next() {
            Some(c) => {
                push_char(&mut s, c);
                assert(start.skip(i as int).skip(1) =~= start.skip(i + 1));
                assert(s@ =~= start.take(i + 1));
            },
            None => {
                return Err(NotationError::UnexpectedEnd);
            },
        }
        i = i + 1;
    }
    match uuid_parse(s.as_str()) {
        Some(u) => Ok(LLSDValue::UUID(u)),
        None => Err(NotationError::BadUuid),
    }
}

/// Parses "(NNN)", which is used for length information.
pub fn parse_number_in_parentheses<S: LLSDStream>(stream: &mut S) -> (r: Result<
    usize,
    NotationError,
>)
    ensures
        match take_count(old(stream).remaining()) {
            Ok((n, rest)) => r == Ok::<usize, NotationError>(n as usize) && n <= i32::MAX
                && final(stream).remaining() == rest,
            Err(e) => r == Err::<usize, NotationError>(e),
        },
        final(stream).remaining().len() <= old(stream).remaining().len(),
{
    consume_char(stream, '(')?;
    let val = parse_integer(stream)?;
    consume_char(stream, ')')?;
    if val < 0 {
        Err(NotationError::BadLength)
    } else {
        Ok(val as usize)
    }
}

/// Reads a chunk of `cnt` raw bytes.
pub fn next_chunk<S: LLSDStream>(stream: &mut S, cnt: usize) -> (r: Result<Vec<u8>, NotationError>)
    ensures
        old(stream).remaining().len() < cnt ==> r == Err::<Vec<u8>, NotationError>(
            NotationError::UnexpectedEnd,
        ),
        old(stream).remaining().len() >= cnt ==> r is Ok && r->Ok_0@ == bytes_of(
            old(stream).remaining().take(cnt as int),
        ) && final(stream).remaining() == old(stream).remaining().skip(cnt as int),
        final(stream).remaining().len() <= old(stream).remaining().len(),
{
    let ghost start = stream.remaining();
    let mut s: Vec<u8> = Vec::new();
    let mut i: usize = 0;
    assert(start.skip(0) =~= start);
    assert(bytes_of(start.take(0)) =~= s@);
    while i < cnt
        invariant
            i <= cnt,
            start == old(stream).remaining(),
            i <= start.len(),
            s@ == bytes_of(start.take(i as int)),
            stream.remaining() == start.skip(i as int),
        decreases cnt - i,
    {
        match stream.next() {
            Some(c) => {
                s.push(c as u8);
                assert(start.skip(i as int).skip(1) =~= start.skip(i + 1));
                assert(s@ =~= bytes_of(start.take(i + 1)));
            },
            None => {
                return Err(NotationError::UnexpectedEnd);
            },
        }
        i = i + 1;
    }
    Ok(s)
}

/// Parses "(NNN)" and that many raw bytes between double quotes.
fn parse_counted<S: LLSDStream>(stream: &mut S) -> (r: Result<Vec<u8>, NotationError>)
    ensures
        match take_counted(old(stream).remaining()) {
            Ok((bytes, rest)) => r is Ok && r->Ok_0@ == bytes && final(stream).remaining() == rest,
            Err(e) => r == Err::<Vec<u8>, NotationError>(e),
        },
        final(stream).remaining().len() <= old(stream).remaining().len(),
{
    let cnt = parse_number_in_parentheses(stream)?;
    consume_char(stream, '"')?;
    let s = next_chunk(stream, cnt)?;
    consume_char(stream, '"')?;
    Ok(s)
}

/// The text without its white space.
fn strip_spaces(t: &str) -> (r: String)
    ensures
        r@ == without_spaces(t@),
{
    let chars = chars_of(t);
    let mut r = String::new();
    let mut i: usize = 0;
    assert(chars@.take(0) =~= Seq::<char>::empty());
    while i < chars.len()
        invariant
            i <= chars@.len(),
            r@ == without_spaces(chars@.take(i as int)),
        decreases chars@.len() - i,
    {
        let c = chars[i];
        assert(chars@.take(i + 1).drop_last() =~= chars@.take(i as int));
        if !is_whitespace(c) {
            push_char(&mut r, c);
        }
        i = i + 1;
    }
    assert(chars@.take(chars@.len() as int) =~= chars@);
    r
}

/// Parses two characters, a double quote and a quoted text; gives the text
/// without its white space.
fn parse_encoded<S: LLSDStream>(stream: &mut S, a: char, b: char) -> (r: Result<
    String,
    NotationError,
>)
    ensures
        match take_encoded(old(stream).remaining(), a, b, S::raw()) {
            Ok((t, rest)) => r is Ok && r->Ok_0@ == t && final(stream).remaining() == rest,
            Err(e) => r == Err::<String, NotationError>(e),
        },
        final(stream).remaining().len() <= old(stream).remaining().len(),
{
    consume_char(stream, a)?;
    consume_char(stream, b)?;
    consume_char(stream, '"')?;
    let s = parse_quoted_string(stream, '"')?;
    Ok(strip_spaces(s.as_str()))
}

/// Parses a binary value: b16"value", b64"value" or b(cnt)"value".
pub fn parse_binary<S: LLSDStream>(stream: &mut S) -> (r: Result<LLSDValue, NotationError>)
    ensures
        agrees(r, final(stream).remaining(), take_binary(old(stream).remaining(), S::raw())),
        final(stream).remaining().len() <= old(stream).remaining().len(),
{
    match stream.peek() {
        None => Err(NotationError::UnexpectedEnd),
        Some(ch) => {
            if ch == '(' {
                if !stream.is_raw() {
                    return Err(NotationError::Unsupported);
                }
                let s = parse_counted(stream)?;
                Ok(LLSDValue::Binary(s))
            } else if ch == '1' {
                let s = parse_encoded(stream, '1', '6')?;
                match hex_decode(s.as_str()) {
                    Some(bytes) => Ok(LLSDValue::Binary(bytes)),
                    None => Err(NotationError::BadHex),
                }
            } else if ch == '6' {
                let s = parse_encoded(stream, '6', '4')?;
                match base64_decode(s.as_str()) {
                    Some(bytes) => Ok(LLSDValue::Binary(bytes)),
                    None => Err(NotationError::BadBase64),
                }
            } else {
                Err(NotationError::BadBinary(ch))
            }
        },
    }
}

/// Parses a sized string: s(NNN)"string".
pub fn parse_sized_string<S: LLSDStream>(stream: &mut S) -> (r: Result<LLSDValue, NotationError>)
    ensures
        agrees(
            r,
            final(stream).remaining(),
            take_sized_string(old(stream).remaining(), S::raw()),
        ),
        final(stream).remaining().len() <= old(stream).remaining().len(),
{
    if !stream.is_raw() {
        return Err(NotationError::Unsupported);
    }
    let s = parse_counted(stream)?;
    match utf8_to_string(s) {
        Some(text) => Ok(LLSDValue::String(text)),
        None => Err(NotationError::InvalidUtf8),
    }
}

/// Parses a quoted string as a value. The opening quote was consumed
/// already.
fn parse_text<S: LLSDStream>(stream: &mut S, delim: char) -> (r: Result<LLSDValue, NotationError>)
    ensures
        agrees(
            r,
            final(stream).remaining(),
            take_text(old(stream).remaining(), delim, S::raw()),
        ),
        final(stream).remaining().len() <= old(stream).remaining().len(),
{
    let s = parse_quoted_string(stream, delim)?;
    Ok(LLSDValue::String(s))
}

/// Parses "[ value, value ... ]". The '[' was consumed already; on success
/// the closing ']' is consumed too.
pub fn parse_array<S: LLSDStream>(stream: &mut S) -> (r: Result<LLSDValue, NotationError>)
    ensures
        agrees(
            r,
            final(stream).remaining(),
            scan_array(old(stream).remaining(), Seq::empty(), S::raw()),
        ),
        final(stream).remaining().len() <= old(stream).remaining().len(),
    decreases old(stream).remaining().len(), 1nat,
{
    let ghost start = stream.remaining();
    let mut array_items: Vec<LLSDValue> = Vec::new();
    assert(items_view(array_items@) =~= Seq::<Value>::empty());
    loop
        invariant
            start == old(stream).remaining(),
            stream.remaining().len() <= start.len(),
            scan_array(start, Seq::empty(), S::raw()) == scan_array(
                stream.remaining(),
                items_view(array_items@),
                S::raw(),
            ),
        decreases stream.remaining().len(),
    {
        let ghost done = items_view(array_items@);
        proof {
            lemma_array_skips_blanks(stream.remaining(), done, S::raw());
            lemma_value_skips_blanks(stream.remaining(), S::raw());
        }
        consume_whitespace(stream);
        match stream.peek() {
            None => {
                return Err(NotationError::UnexpectedEnd);
            },
            Some(ch) => {
                if ch == ']' {
                    let _ = stream.next();
                    return Ok(LLSDValue::Array(array_items));
                }
            },
        }
        let value = parse_value(stream)?;
        array_items.push(value);
        let ghost more = items_view(array_items@);
        assert(more =~= done.push(value@));
        proof {
            lemma_array_skips_blanks(stream.remaining(), more, S::raw());
            lemma_value_skips_blanks(stream.remaining(), S::raw());
        }
        consume_whitespace(stream);
        match stream.next() {
            None => {
                return Err(NotationError::UnexpectedEnd);
            },
            Some(ch) => {
                if ch == ']' {
                    return Ok(LLSDValue::Array(array_items));
                } else if ch != ',' {
                    return Err(NotationError::BadSeparator(ch));
                }
            },
        }
    }
}

/// Parses "{ 'key' : value, 'key' : value ... }". The '{' was consumed
/// already; on success the closing '}' is consumed too.
pub fn parse_map<S: LLSDStream>(stream: &mut S) -> (r: Result<LLSDValue, NotationError>)
    ensures
        agrees(
            r,
            final(stream).remaining(),
            scan_map(old(stream).remaining(), Entries::empty(), S::raw()),
        ),
        final(stream).remaining().len() <= old(stream).remaining().len(),
    decreases old(stream).remaining().len(), 1nat,
{
    let ghost start = stream.remaining();
    let mut kvmap = LLSDMap::new();
    loop
        invariant
            start == old(stream).remaining(),
            stream.remaining().len() <= start.len(),
            scan_map(start, Entries::empty(), S::raw()) == scan_map(
                stream.remaining(),
                kvmap@,
                S::raw(),
            ),
        decreases stream.remaining().len(),
    {
        let ghost done = kvmap@;
        proof {
            lemma_map_skips_blanks(stream.remaining(), done, S::raw());
            lemma_value_skips_blanks(stream.remaining(), S::raw());
        }
        consume_whitespace(stream);
        let key = match stream.next() {
            None => {
                return Err(NotationError::UnexpectedEnd);
            },
            Some(ch) => {
                if ch == '}' {
                    return Ok(LLSDValue::Mapping(kvmap));
                } else if ch == '"' || ch == '\'' {
                    parse_quoted_string(stream, ch)?
                } else {
                    return Err(NotationError::BadKey(ch));
                }
            },
        };
        consume_char(stream, ':')?;
        let value = parse_value(stream)?;
        kvmap.insert(key, value);
        let ghost more = kvmap@;
        proof {
            lemma_map_skips_blanks(stream.remaining(), more, S::raw());
            lemma_value_skips_blanks(stream.remaining(), S::raw());
        }
        consume_whitespace(stream);
        match stream.next() {
            None => {
                return Err(NotationError::UnexpectedEnd);
            },
            Some(ch) => {
                if ch == '}' {
                    return Ok(LLSDValue::Mapping(kvmap));
                } else if ch != ',' {
                    return Err(NotationError::BadSeparator(ch));
                }
            },
        }
    }
}

/// Parses one value: real, integer, map, etc. Recursive. This is the top
/// level of the parser.
pub fn parse_value<S: LLSDStream>(stream: &mut S) -> (r: Result<LLSDValue, NotationError>)
    ensures
        agrees(r, final(stream).remaining(), scan_value(old(stream).remaining(), S::raw())),
        final(stream).remaining().len() <= old(stream).remaining().len(),
        r is Ok ==> final(stream).remaining().len() < old(stream).remaining().len(),
    decreases old(stream).remaining().len(), 0nat,
{
    proof {
        lemma_value_skips_blanks(stream.remaining(), S::raw());
    }
    consume_whitespace(stream);
    let ch = match stream.next() {
        None => {
            return Err(NotationError::UnexpectedEnd);
        },
        Some(c) => c,
    };
    if ch == '!' {
        Ok(LLSDValue::Undefined)
    } else if ch == '0' {
        Ok(LLSDValue::Boolean(false))
    } else if ch == '1' {
        Ok(LLSDValue::Boolean(true))
    } else if ch == 'f' || ch == 'F' || ch == 't' || ch == 'T' {
        parse_boolean(stream, ch)
    } else if ch == '{' {
        parse_map(stream)
    } else if ch == '[' {
        parse_array(stream)
    } else if ch == 'i' {
        match parse_integer(stream) {
            Ok(i) => Ok(LLSDValue::Integer(i)),
            Err(e) => Err(e),
        }
    } else if ch == 'r' {
        parse_real(stream)
    } else if ch == 'd' {
        parse_date(stream)
    } else if ch == 'u' {
        parse_uuid(stream)
    } else if ch == 'l' {
        parse_uri(stream)
    } else if ch == 'b' {
        parse_binary(stream)
    } else if ch == 's' {
        parse_sized_string(stream)
    } else if ch == '"' || ch == '\'' {
        parse_text(stream, ch)
    } else {
        Err(NotationError::UnexpectedChar(ch))
    }
}

impl LLSDStreamChars {
    /// Parses LLSD expressed in notation format into a tree of values. No
    /// header. String form. What follows the first value is ignored.
    pub fn parse(notation_str: &str) -> (r: Result<LLSDValue, NotationError>)
        ensures
            match decoded(notation_str@, false) {
                Ok(v) => r is Ok && r->Ok_0@ == v,
                Err(e) => r == Err::<LLSDValue, NotationError>(e),
            },
    {
        let mut stream = LLSDStreamChars::new(notation_str);
        parse_value(&mut stream)
    }

    /// Consumes blanks and then the expected character.
    pub fn consume_char(&mut self, expected_ch: char) -> (r: Result<(), NotationError>)
        ensures
            match expect(old(self).remaining(), expected_ch) {
                Ok((_, rest)) => r is Ok && final(self).remaining() == rest,
                Err(e) => r == Err::<(), NotationError>(e),
            },
    {
        consume_char(self, expected_ch)
    }

    /// Parses the body of a string up to the closing quote `delim`.
    pub fn parse_quoted_string(&mut self, delim: char) -> (r: Result<String, NotationError>)
        ensures
            match take_string(old(self).remaining(), delim, false) {
                Ok((t, rest)) => r is Ok && r->Ok_0@ == t && final(self).remaining() == rest,
                Err(e) => r == Err::<String, NotationError>(e),
            },
    {
        parse_quoted_string(self, delim)
    }
}

impl<'a> LLSDStreamBytes<'a> {
    /// Parses LLSD expressed in notation format into a tree of values. No
    /// header. Bytes form. What follows the first value is ignored.
    pub fn parse(notation_bytes: &[u8]) -> (r: Result<LLSDValue, NotationError>)
        ensures
            match decoded(chars_of_bytes(notation_bytes@), true) {
                Ok(v) => r is Ok && r->Ok_0@ == v,
                Err(e) => r == Err::<LLSDValue, NotationError>(e),
            },
    {
        let mut stream = LLSDStreamBytes::new(notation_bytes);
        parse_value(&mut stream)
    }

    /// Parses "(NNN)", which is used for length information.
    pub fn parse_number_in_parentheses(&mut self) -> (r: Result<usize, NotationError>)
        ensures
            match take_count(old(self).remaining()) {
                Ok((n, rest)) => r == Ok::<usize, NotationError>(n as usize)
                    && final(self).remaining() == rest,
                Err(e) => r == Err::<usize, NotationError>(e),
            },
    {
        parse_number_in_parentheses(self)
    }

    /// Reads a chunk of `cnt` raw bytes.
    pub fn next_chunk(&mut self, cnt: usize) -> (r: Result<Vec<u8>, NotationError>)
        ensures
            old(self).remaining().len() < cnt ==> r == Err::<Vec<u8>, NotationError>(
                NotationError::UnexpectedEnd,
            ),
            old(self).remaining().len() >= cnt ==> r is Ok && r->Ok_0@ == bytes_of(
                old(self).remaining().take(cnt as int),
            ) && final(self).remaining() == old(self).remaining().skip(cnt as int),
    {
        next_chunk(self, cnt)
    }
}

/// Parses LLSD expressed in notation format, as text. No header.
pub fn from_str(notation_str: &str) -> (r: Result<LLSDValue, NotationError>)
    ensures
        match decoded(notation_str@, false) {
            Ok(v) => r is Ok && r->Ok_0@ == v,
            Err(e) => r == Err::<LLSDValue, NotationError>(e),
        },
{
    LLSDStreamChars::parse(notation_str)
}

/// Parses LLSD expressed in notation format, as bytes. No header.
pub fn from_bytes(notation_bytes: &[u8]) -> (r: Result<LLSDValue, NotationError>)
    ensures
        match decoded(chars_of_bytes(notation_bytes@), true) {
            Ok(v) => r is Ok && r->Ok_0@ == v,
            Err(e) => r == Err::<LLSDValue, NotationError>(e),
        },
{
    LLSDStreamBytes::parse(notation_bytes)
}

} // verus!
