//! Deserialization: from an LLSD stream to a tree of values.
pub mod binary;
pub mod notation;
pub mod xml;

use vstd::prelude::*;
use vstd::slice::slice_subrange;
use vstd::string::StringSliceAdditionalSpecFns;
use vstd::utf8::{encode_utf8, valid_utf8};
use crate::error::{Failure, LLSDError};
use crate::outside::{lossy_text, utf8_lossy};
use crate::text::{chars_of, string_of};
use crate::value::{LLSDValue, Value};
use crate::de::xml::is_utf8;

verus! {

/// The sentinel of notation without its newline: `<? llsd/notation ?>`.
pub const NOTATION_MARK: [u8; 19] = [
    0x3c, 0x3f, 0x20, 0x6c, 0x6c, 0x73, 0x64, 0x2f, 0x6e, 0x6f, 0x74, 0x61, 0x74, 0x69, 0x6f,
    0x6e, 0x20, 0x3f, 0x3e,
];

/// The sentinel of XML: `<?xml`.
pub const XML_MARK: [u8; 5] = [0x3c, 0x3f, 0x78, 0x6d, 0x6c];

/// How many characters of unrecognized input an error quotes.
pub const SNIPPET: usize = 60;

/// White space among the ASCII bytes: space, tab, line feed, form feed,
/// carriage return.
pub open spec fn is_ascii_space(b: u8) -> bool {
    b == 0x20 || b == 0x09 || b == 0x0a || b == 0x0c || b == 0x0d
}

/// The bytes without their leading ASCII white space.
pub open spec fn trimmed_start(b: Seq<u8>) -> Seq<u8>
    decreases b.len(),
{
    if b.len() > 0 && is_ascii_space(b[0]) {
        trimmed_start(b.skip(1))
    } else {
        b
    }
}

/// Whether `s` begins with `mark`.
pub open spec fn begins<T>(s: Seq<T>, mark: Seq<T>) -> bool {
    mark.len() <= s.len() && s.take(mark.len() as int) == mark
}

/// The characters that ASCII bytes stand for.
pub open spec fn as_chars(b: Seq<u8>) -> Seq<char> {
    b.map_values(|x: u8| x as char)
}

/// The beginning of a text: its first sixty characters at most.
pub open spec fn snippet(t: Seq<char>) -> Seq<char> {
    if t.len() <= SNIPPET {
        t
    } else {
        t.take(SNIPPET as int)
    }
}

/// The result of a binary decoder as the result of detection.
pub open spec fn of_binary(r: Result<Value, crate::error::BinaryError>) -> Result<Value, Failure> {
    match r {
        Ok(v) => Ok(v),
        Err(e) => Err(Failure::Binary(e)),
    }
}

/// The result of a notation decoder as the result of detection.
pub open spec fn of_notation(r: Result<Value, crate::error::NotationError>) -> Result<
    Value,
    Failure,
> {
    match r {
        Ok(v) => Ok(v),
        Err(e) => Err(Failure::Notation(e)),
    }
}

/// The result of the XML decoder as the result of detection.
pub open spec fn of_xml(r: Result<Value, crate::error::XmlError>) -> Result<Value, Failure> {
    match r {
        Ok(v) => Ok(v),
        Err(e) => Err(Failure::Xml(e)),
    }
}

/// What decoding bytes of an undeclared encoding gives. In this order:
/// the binary sentinel at the very beginning selects binary; after leading
/// white space, the sentinel of notation, with or without its newline,
/// selects notation and the sentinel of XML selects XML; input that begins
/// with `{` or `[` is binary without its sentinel; any other input is not
/// recognized.
pub open spec fn detected_bytes(msg: Seq<u8>) -> Result<Value, Failure> {
    let t = trimmed_start(msg);
    if begins(msg, binary::sentinel()) {
        of_binary(binary::decoded(msg.skip(binary::sentinel().len() as int)))
    } else if begins(t, NOTATION_MARK@) {
        of_notation(
            notation::decoded(
                notation::chars_of_bytes(t.skip(NOTATION_MARK@.len() as int)),
                true,
            ),
        )
    } else if begins(t, XML_MARK@) {
        if valid_utf8(t) {
            of_xml(xml::decoded(t))
        } else {
            Err(Failure::InvalidUtf8)
        }
    } else if msg.len() > 0 && (msg[0] == 0x7b || msg[0] == 0x5b) {
        of_binary(binary::decoded(msg))
    } else {
        Err(Failure::Unrecognized(snippet(lossy_text(msg))))
    }
}

/// The characters without their leading ASCII white space.
pub open spec fn trimmed_text(s: Seq<char>) -> Seq<char>
    decreases s.len(),
{
    if s.len() > 0 && xml::is_ascii_space(s[0]) {
        trimmed_text(s.skip(1))
    } else {
        s
    }
}

/// What decoding text of an undeclared encoding gives. After leading white
/// space, the sentinel of notation, with or without its newline, selects
/// notation and the sentinel of XML selects XML; any other text is not
/// recognized.
pub open spec fn detected_str(s: Seq<char>) -> Result<Value, Failure> {
    let t = trimmed_text(s);
    if begins(t, as_chars(NOTATION_MARK@)) {
        of_notation(notation::decoded(t.skip(NOTATION_MARK@.len() as int), false))
    } else if begins(t, as_chars(XML_MARK@)) {
        of_xml(xml::decoded(encode_utf8(t)))
    } else {
        Err(Failure::Unrecognized(snippet(t)))
    }
}

/// How an executable result stands for a detection in the model.
pub open spec fn agrees(r: Result<LLSDValue, LLSDError>, want: Result<Value, Failure>) -> bool {
    match want {
        Ok(v) => r is Ok && r->Ok_0@ == v,
        Err(f) => r is Err && r->Err_0@ == f,
    }
}

/// Whether the bytes from `from` on begin with `mark`.
fn begins_with(msg: &[u8], from: usize, mark: &[u8]) -> (r: bool)
    requires
        from <= msg@.len(),
    ensures
        r == begins(msg@.skip(from as int), mark@),
{
    let n = msg.len();
    if n - from < mark.len() {
        return false;
    }
    let mut i: usize = 0;
    while i < mark.len()
        invariant
            n == msg@.len(),
            from <= n,
            mark@.len() <= n - from,
            i <= mark@.len(),
            forall|j: int| 0 <= j < i ==> msg@[from + j] == mark@[j],
        decreases mark@.len() - i,
    {
        if msg[from + i] != mark[i] {
            assert(msg@.skip(from as int).take(mark@.len() as int)[i as int] != mark@[i as int]);
            return false;
        }
        i = i + 1;
    }
    assert(msg@.skip(from as int).take(mark@.len() as int) =~= mark@);
    true
}

/// Whether the characters from `from` on begin with the characters that
/// the bytes of `mark` stand for.
fn text_begins_with(text: &Vec<char>, from: usize, mark: &[u8]) -> (r: bool)
    requires
        from <= text@.len(),
    ensures
        r == begins(text@.skip(from as int), as_chars(mark@)),
{
    let n = text.len();
    if n - from < mark.len() {
        return false;
    }
    let mut i: usize = 0;
    while i < mark.len()
        invariant
            n == text@.len(),
            from <= n,
            mark@.len() <= n - from,
            i <= mark@.len(),
            forall|j: int| 0 <= j < i ==> text@[from + j] == mark@[j] as char,
        decreases mark@.len() - i,
    {
        if text[from + i] != mark[i] as char {
            assert(text@.skip(from as int).take(mark@.len() as int)[i as int] != as_chars(
                mark@,
            )[i as int]);
            return false;
        }
        i = i + 1;
    }
    assert(text@.skip(from as int).take(mark@.len() as int) =~= as_chars(mark@));
    true
}

/// Trim ASCII whitespace from the start of bytes.
pub fn trim_ascii_start(b: &[u8]) -> (bytes: &[u8])
    ensures
        bytes@ == trimmed_start(b@),
{
    let start = trimmed_from(b);
    let bytes = slice_subrange(b, start, b.len());
    assert(b@.subrange(start as int, b@.len() as int) =~= b@.skip(start as int));
    bytes
}

/// Where the bytes begin once leading ASCII white space is trimmed.
fn trimmed_from(b: &[u8]) -> (start: usize)
    ensures
        start <= b@.len(),
        b@.skip(start as int) == trimmed_start(b@),
{
    let n = b.len();
    let mut i: usize = 0;
    assert(b@.skip(0) =~= b@);
    while i < n && (b[i] == 0x20 || b[i] == 0x09 || b[i] == 0x0a || b[i] == 0x0c || b[i] == 0x0d)
        invariant
            i <= n,
            n == b@.len(),
            trimmed_start(b@) == trimmed_start(b@.skip(i as int)),
        decreases n - i,
    {
        assert(b@.skip(i as int).skip(1) =~= b@.skip(i + 1));
        i = i + 1;
    }
    i
}

/// Where the characters begin once leading ASCII white space is trimmed.
fn trim_text_start(s: &Vec<char>) -> (start: usize)
    ensures
        start <= s@.len(),
        s@.skip(start as int) == trimmed_text(s@),
{
    let n = s.len();
    let mut i: usize = 0;
    assert(s@.skip(0) =~= s@);
    while i < n && (s[i] == ' ' || s[i] == '\t' || s[i] == '\n' || s[i] == '\x0c' || s[i]
        == '\r')
        invariant
            i <= n,
            n == s@.len(),
            trimmed_text(s@) == trimmed_text(s@.skip(i as int)),
        decreases n - i,
    {
        assert(s@.skip(i as int).skip(1) =~= s@.skip(i + 1));
        i = i + 1;
    }
    i
}

/// Parse LLSD, detecting format. Recognizes Notation and XML LLSD with
/// sentinels. Will accept leading whitespace.
pub fn auto_from_str(msg_string: &str) -> (r: Result<LLSDValue, LLSDError>)
    ensures
        agrees(r, detected_str(msg_string@)),
{
    let chars = chars_of(msg_string);
    let n = chars.len();
    let start = trim_text_start(&chars);
    let ghost t = chars@.skip(start as int);
    //  Try Notation sentinel. Tolerate missing newline at end of sentinel.
    if text_begins_with(&chars, start, NOTATION_MARK.as_slice()) {
        let from = start + NOTATION_MARK.len();
        assert(t.skip(NOTATION_MARK@.len() as int) =~= chars@.skip(from as int));
        let rest = string_of(&chars, from, n);
        assert(chars@.subrange(from as int, n as int) =~= chars@.skip(from as int));
        return match notation::from_str(rest.as_str()) {
            Ok(v) => Ok(v),
            Err(e) => Err(LLSDError::Notation(e)),
        };
    }
    //  Try XML sentinel.
    if text_begins_with(&chars, start, XML_MARK.as_slice()) {
        let rest = string_of(&chars, start, n);
        assert(chars@.subrange(start as int, n as int) =~= t);
        return match xml::from_str(rest.as_str()) {
            Ok(v) => Ok(v),
            Err(e) => Err(LLSDError::Xml(e)),
        };
    }
    //  Trim string to N chars for error msg.
    let end = if n - start <= SNIPPET {
        n
    } else {
        start + SNIPPET
    };
    let text = string_of(&chars, start, end);
    assert(chars@.subrange(start as int, end as int) =~= snippet(t));
    Err(LLSDError::Unrecognized(text))
}

/// Parse LLSD, detecting format. Recognizes binary, Notation, and XML LLSD,
/// with or without sentinel. Will accept leading whitespace for text forms,
/// but not binary. That's strict.
pub fn auto_from_bytes(msg: &[u8]) -> (r: Result<LLSDValue, LLSDError>)
    ensures
        agrees(r, detected_bytes(msg@)),
{
    let n = msg.len();
    assert(msg@.skip(0) =~= msg@);
    //  Try sentinels first. Binary sentinel.
    if begins_with(msg, 0, binary::LLSDBINARYSENTINEL.as_slice()) {
        let rest = slice_subrange(msg, binary::LLSDBINARYSENTINEL.len(), n);
        assert(msg@.subrange(binary::sentinel().len() as int, n as int) =~= msg@.skip(
            binary::sentinel().len() as int,
        ));
        return match binary::from_bytes(rest) {
            Ok(v) => Ok(v),
            Err(e) => Err(LLSDError::Binary(e)),
        };
    }
    //  For text forms, tolerate leading whitespace.
    let trimmed = trim_ascii_start(msg);
    let m = trimmed.len();
    assert(trimmed@.skip(0) =~= trimmed@);
    if begins_with(trimmed, 0, NOTATION_MARK.as_slice()) {
        let from = NOTATION_MARK.len();
        let rest = slice_subrange(trimmed, from, m);
        assert(trimmed@.subrange(from as int, m as int) =~= trimmed@.skip(from as int));
        return match notation::from_bytes(rest) {
            Ok(v) => Ok(v),
            Err(e) => Err(LLSDError::Notation(e)),
        };
    }
    if begins_with(trimmed, 0, XML_MARK.as_slice()) {
        if !is_utf8(trimmed) {
            return Err(LLSDError::InvalidUtf8);
        }
        return match xml::from_bytes(trimmed) {
            Ok(v) => Ok(v),
            Err(e) => Err(LLSDError::Xml(e)),
        };
    }
    //  Check for binary without header. If array or map marker, parse.
    if n > 0 && (msg[0] == 0x7b || msg[0] == 0x5b) {
        return match binary::from_bytes(msg) {
            Ok(v) => Ok(v),
            Err(e) => Err(LLSDError::Binary(e)),
        };
    }
    //  Trim string to N chars for error msg.
    let lossy = utf8_lossy(msg);
    let chars = chars_of(lossy.as_str());
    let end = if chars.len() <= SNIPPET {
        chars.len()
    } else {
        SNIPPET
    };
    let text = string_of(&chars, 0, end);
    assert(chars@.subrange(0, end as int) =~= snippet(chars@));
    Err(LLSDError::Unrecognized(text))
}

} // verus!
