//! What this library takes on trust from the crates it calls.
//!
//! Each function here makes one call into another crate, or into a part of
//! the standard library that has no specification. Its contract is believed,
//! not proved: the doc comment says what is claimed of the call.
use vstd::prelude::*;
use vstd::utf8::encode_utf8;
use base64::Engine;
use quick_xml::events::Event;
use crate::de::xml::{Token, XmlEvent, XmlEventKind};

verus! {

/// The seconds since the epoch that an RFC 3339 date-time denotes, as
/// `chrono` reads it; `None` for a text that it rejects.
pub uninterp spec fn rfc3339_seconds(text: Seq<char>) -> Option<i64>;

/// The RFC 3339 text, in UTC and to the second, of a number of seconds since
/// the epoch, as `chrono` writes it; `None` for a number that is no date to
/// it.
pub uninterp spec fn rfc3339_text(seconds: i64) -> Option<Seq<char>>;

/// What percent-decoding a text gives, as `urlencoding` does it; `None`
/// where the decoded bytes are not UTF-8.
pub uninterp spec fn percent_decoded(text: Seq<char>) -> Option<Seq<char>>;

/// The sixteen bytes of a UUID written as text, as `uuid` reads it; `None`
/// for a text that it rejects.
pub uninterp spec fn uuid_parsed(text: Seq<char>) -> Option<Seq<u8>>;

/// The bytes that a base64 text stands for, in the standard alphabet with
/// padding, as `base64` decodes it; `None` for a text that it rejects.
pub uninterp spec fn base64_decoded(text: Seq<char>) -> Option<Seq<u8>>;

/// The base64 text of a run of bytes, in the standard alphabet with
/// padding, as `base64` encodes it.
pub uninterp spec fn base64_text(bytes: Seq<u8>) -> Seq<char>;

/// Whether a character has the Unicode property `Alphabetic`, as the
/// standard library tells it.
pub uninterp spec fn alphabetic(c: char) -> bool;

/// Tells whether a character is alphabetic (`char::is_alphabetic`). The
/// result is a function of the character alone.
#[verifier::external_body]
pub(crate) fn is_alphabetic(c: char) -> (r: bool)
    ensures
        r == alphabetic(c),
{
    c.is_alphabetic()
}

/// The text that bytes stand for when each malformed UTF-8 sequence in them
/// is replaced by U+FFFD, as the standard library does it.
pub uninterp spec fn lossy_text(bytes: Seq<u8>) -> Seq<char>;

/// Reads bytes as text, replacing what is not UTF-8
/// (`String::from_utf8_lossy`). The result is a function of the bytes alone.
#[verifier::external_body]
pub(crate) fn utf8_lossy(bytes: &[u8]) -> (r: String)
    ensures
        r@ == lossy_text(bytes@),
{
    String::from_utf8_lossy(bytes).into_owned()
}

/// The first and the last second that RFC 3339 can write with a year of
/// four digits: the years 0 to 9999.
pub open spec fn in_four_digit_years(seconds: i64) -> bool {
    -62167219200 <= seconds <= 253402300799
}

/// A character of the standard base64 alphabet, or the padding `=`.
pub open spec fn is_base64_char(c: char) -> bool {
    ('A' <= c <= 'Z') || ('a' <= c <= 'z') || ('0' <= c <= '9') || c == '+' || c == '/' || c
        == '='
}

/// The value of a hexadecimal digit, in either case.
pub open spec fn hex_digit_value(c: char) -> Option<u8> {
    if '0' <= c <= '9' {
        Some((c as u8 - 48) as u8)
    } else if 'a' <= c <= 'f' {
        Some((c as u8 - 87) as u8)
    } else if 'A' <= c <= 'F' {
        Some((c as u8 - 55) as u8)
    } else {
        None
    }
}

/// An even number of hexadecimal digits and nothing else.
pub open spec fn is_hex_text(t: Seq<char>) -> bool {
    &&& t.len() % 2 == 0
    &&& forall|i: int| 0 <= i < t.len() ==> hex_digit_value(#[trigger] t[i]) is Some
}

/// The bytes that pairs of hexadecimal digits spell.
pub open spec fn hex_bytes(t: Seq<char>) -> Seq<u8> {
    Seq::new(
        t.len() / 2,
        |i: int| (hex_digit_value(t[2 * i])->0 * 16 + hex_digit_value(t[2 * i + 1])->0) as u8,
    )
}

/// A hexadecimal digit for a number below sixteen, letters in lower case.
pub open spec fn lower_hex(n: int) -> char {
    if n < 10 {
        (48 + n) as char
    } else {
        (87 + n) as char
    }
}

/// A hexadecimal digit for a number below sixteen, letters in upper case.
pub open spec fn upper_hex(n: int) -> char {
    if n < 10 {
        (48 + n) as char
    } else {
        (55 + n) as char
    }
}

/// The bytes in hexadecimal, two lower-case digits each.
pub open spec fn lower_hex_text(bytes: Seq<u8>) -> Seq<char>
    decreases bytes.len(),
{
    if bytes.len() == 0 {
        Seq::empty()
    } else {
        lower_hex_text(bytes.drop_last()) + seq![
            lower_hex(bytes.last() as int / 16),
            lower_hex(bytes.last() as int % 16),
        ]
    }
}

/// The canonical text of a UUID: its sixteen bytes in lower-case
/// hexadecimal, in groups of 4, 2, 2, 2 and 6 bytes with hyphens between.
pub open spec fn hyphenated(bytes: Seq<u8>) -> Seq<char> {
    lower_hex_text(bytes.subrange(0, 4)) + seq!['-'] + lower_hex_text(bytes.subrange(4, 6))
        + seq!['-'] + lower_hex_text(bytes.subrange(6, 8)) + seq!['-'] + lower_hex_text(
        bytes.subrange(8, 10),
    ) + seq!['-'] + lower_hex_text(bytes.subrange(10, 16))
}

/// A byte that percent-encoding leaves as it is: an ASCII letter or digit,
/// `-`, `_`, `.` or `~`.
pub open spec fn is_unreserved(b: u8) -> bool {
    (0x30 <= b <= 0x39) || (0x41 <= b <= 0x5a) || (0x61 <= b <= 0x7a) || b == 0x2d || b == 0x2e
        || b == 0x5f || b == 0x7e
}

/// One byte, percent-encoded: itself, or `%` and two upper-case
/// hexadecimal digits.
pub open spec fn percent_byte(b: u8) -> Seq<char> {
    if is_unreserved(b) {
        seq![b as char]
    } else {
        seq!['%', upper_hex(b as int / 16), upper_hex(b as int % 16)]
    }
}

/// A run of bytes, percent-encoded.
pub open spec fn percent_bytes(bytes: Seq<u8>) -> Seq<char>
    decreases bytes.len(),
{
    if bytes.len() == 0 {
        Seq::empty()
    } else {
        percent_bytes(bytes.drop_last()) + percent_byte(bytes.last())
    }
}

/// A text, percent-encoded: every byte of its UTF-8 form but letters,
/// digits, `-`, `_`, `.` and `~` becomes `%` and two hexadecimal digits.
pub open spec fn percent_encoded(text: Seq<char>) -> Seq<char> {
    percent_bytes(encode_utf8(text))
}

/// A reader over an XML document held in memory (`quick_xml::Reader`). It
/// trims the white space around text and reports an empty element as a start
/// tag and an end tag.
#[verifier::external_body]
pub struct XmlReader<'a> {
    reader: quick_xml::Reader<&'a [u8]>,
}

/// The events that `quick_xml` reads from a document, in order, up to the
/// end of the document or to the first error, which is then the last event.
pub uninterp spec fn xml_events(input: Seq<u8>) -> Seq<Token>;

/// The events that a reader has yet to give.
pub uninterp spec fn pending_events(reader: &XmlReader) -> Seq<Token>;

/// The text of an XML text node, as `quick_xml` decodes it: entities
/// replaced, the rest read as UTF-8; `None` where it rejects the text.
pub uninterp spec fn xml_text_decoded(content: Seq<u8>) -> Option<Seq<char>>;

/// An attribute value with its entities replaced, as `quick_xml` does it;
/// `None` for a malformed entity.
pub uninterp spec fn xml_unescaped(value: Seq<u8>) -> Option<Seq<u8>>;

/// The attributes of a start tag as `quick_xml` splits them, each a key and
/// a raw value, or `None` for a malformed one, which is then the last.
pub uninterp spec fn xml_attribute_list(raw: Seq<u8>) -> Seq<Option<(Seq<u8>, Seq<u8>)>>;

/// The bytes that Ascii85 text stands for, as `ascii85` decodes it; `None`
/// for a text that it rejects.
pub uninterp spec fn base85_decoded(text: Seq<char>) -> Option<Seq<u8>>;

impl<'a> XmlReader<'a> {
    /// The events that the reader has yet to give.
    pub open spec fn pending(&self) -> Seq<Token> {
        pending_events(self)
    }
}

/// Starts reading a document (`quick_xml::Reader::from_reader`, with
/// `trim_text` and `expand_empty_elements` set). The events to come are a
/// function of the document alone.
#[verifier::external_body]
pub(crate) fn xml_reader<'a>(input: &'a [u8]) -> (reader: XmlReader<'a>)
    ensures
        pending_events(&reader) == xml_events(input@),
{
    let mut reader = quick_xml::Reader::from_reader(input);
    reader.trim_text(true).expand_empty_elements(true);
    XmlReader { reader }
}

/// Reads the next event (`quick_xml::Reader::read_event`), with the offset
/// that the reader has reached (`buffer_position`). `None` at the end of the
/// document, and from then on.
#[verifier::external_body]
pub(crate) fn read_event(reader: &mut XmlReader) -> (event: Option<XmlEvent>)
    ensures
        pending_events(&*old(reader)).len() == 0 ==> event is None && pending_events(
            &*final(reader),
        ).len() == 0,
        pending_events(&*old(reader)).len() > 0 ==> event is Some && event->0@ == pending_events(
            &*old(reader),
        )[0] && pending_events(&*final(reader)) == pending_events(&*old(reader)).skip(1),
{
    let mut buf = Vec::new();
    let (kind, content) = match reader.reader.read_event(&mut buf) {
        Ok(Event::Start(e)) => (XmlEventKind::Start, e.to_vec()),
        Ok(Event::End(e)) => (XmlEventKind::End, e.to_vec()),
        Ok(Event::Text(e)) => (XmlEventKind::Text, e.to_vec()),
        Ok(Event::Comment(_)) => (XmlEventKind::Comment, Vec::new()),
        Ok(Event::Eof) => return None,
        Ok(_) => (XmlEventKind::Other, Vec::new()),
        Err(_) => (XmlEventKind::Error, Vec::new()),
    };
    Some(XmlEvent { kind, content, offset: reader.reader.buffer_position() })
}

/// Decodes the text of a text node (`BytesText::unescape_and_decode`). The
/// result is a function of the bytes alone.
#[verifier::external_body]
pub(crate) fn xml_text(content: &[u8]) -> (r: Option<String>)
    ensures
        match r {
            Some(t) => xml_text_decoded(content@) == Some(t@),
            None => xml_text_decoded(content@) is None,
        },
{
    let text = quick_xml::events::BytesText::from_escaped(content);
    text.unescape_and_decode(&quick_xml::Reader::from_reader(&b""[..])).ok()
}

/// Replaces the entities of an attribute value (`quick_xml::escape::unescape`).
/// The result is a function of the bytes alone.
#[verifier::external_body]
pub(crate) fn xml_unescape(value: &[u8]) -> (r: Option<Vec<u8>>)
    ensures
        match r {
            Some(v) => xml_unescaped(value@) == Some(v@),
            None => xml_unescaped(value@) is None,
        },
{
    match quick_xml::escape::unescape(value) {
        Ok(v) => Some(v.into_owned()),
        Err(_) => None,
    }
}

/// Splits the attributes of a start tag (`quick_xml`'s `Attributes`
/// iterator). The result is a function of the bytes alone.
#[verifier::external_body]
pub(crate) fn xml_attributes(raw: &[u8]) -> (r: Vec<Option<(Vec<u8>, Vec<u8>)>>)
    ensures
        r@.len() == xml_attribute_list(raw@).len(),
        forall|i: int|
            0 <= i < r@.len() ==> match #[trigger] r@[i] {
                Some(a) => xml_attribute_list(raw@)[i] == Some((a.0@, a.1@)),
                None => xml_attribute_list(raw@)[i] is None,
            },
{
    quick_xml::events::attributes::Attributes::new(raw, 0)
        .map(|a| a.ok().map(|a| (a.key.to_vec(), a.value.into_owned())))
        .collect()
}

/// Decodes Ascii85 text (`ascii85::decode`). The text has to be made of the
/// characters `!` to `u` alone, in groups of five that each spell a number
/// of 32 bits, the last group filled up with `u`: on other texts the
/// decoder's arithmetic can overflow.
#[verifier::external_body]
pub(crate) fn base85_decode(text: &str) -> (r: Option<Vec<u8>>)
    requires
        crate::de::xml::is_base85_payload(text@),
    ensures
        match r {
            Some(v) => base85_decoded(text@) == Some(v@),
            None => base85_decoded(text@) is None,
        },
{
    ascii85::decode(text).ok()
}

/// Reads an RFC 3339 date-time (`chrono::DateTime::parse_from_rfc3339`) and
/// gives its seconds since the epoch (`timestamp`). The result is a function
/// of the text alone.
#[verifier::external_body]
pub(crate) fn parse_rfc3339(s: &str) -> (r: Option<i64>)
    ensures
        r == rfc3339_seconds(s@),
{
    match chrono::DateTime::parse_from_rfc3339(s) {
        Ok(t) => Some(t.timestamp()),
        Err(_) => None,
    }
}

/// Writes seconds since the epoch as RFC 3339 in UTC, to the second, with
/// `Z` for the zone (`chrono::DateTime::to_rfc3339_opts`). `None` where the
/// number is no date to `chrono`. Claimed besides: where the year has four
/// digits, `chrono` reads the text back as the same number.
#[verifier::external_body]
pub(crate) fn format_rfc3339(seconds: i64) -> (r: Option<String>)
    ensures
        match r {
            Some(t) => rfc3339_text(seconds) == Some(t@) && (in_four_digit_years(seconds)
                ==> rfc3339_seconds(t@) == Some(seconds)),
            None => rfc3339_text(seconds) is None,
        },
{
    match chrono::DateTime::from_timestamp(seconds, 0) {
        Some(t) => Some(t.to_rfc3339_opts(chrono::SecondsFormat::Secs, true)),
        None => None,
    }
}

/// Percent-decodes a text (`urlencoding::decode`). The result is a function
/// of the text alone.
#[verifier::external_body]
pub(crate) fn percent_decode(s: &str) -> (r: Option<String>)
    ensures
        match r {
            Some(t) => percent_decoded(s@) == Some(t@),
            None => percent_decoded(s@) is None,
        },
{
    match urlencoding::decode(s) {
        Ok(t) => Some(t.into_owned()),
        Err(_) => None,
    }
}

/// Percent-encodes a text (`urlencoding::encode`): every byte but letters,
/// digits, `-`, `_`, `.` and `~` is escaped. Claimed besides: decoding the
/// result gives the text back.
#[verifier::external_body]
pub(crate) fn percent_encode(s: &str) -> (r: String)
    ensures
        r@ == percent_encoded(s@),
        percent_decoded(r@) == Some(s@),
{
    urlencoding::encode(s).into_owned()
}

/// Reads a UUID from text (`uuid::Uuid::parse_str`). The result is a
/// function of the text alone.
#[verifier::external_body]
pub(crate) fn uuid_parse(s: &str) -> (r: Option<[u8; 16]>)
    ensures
        match r {
            Some(u) => uuid_parsed(s@) == Some(u@),
            None => uuid_parsed(s@) is None,
        },
{
    match uuid::Uuid::parse_str(s) {
        Ok(u) => Some(u.into_bytes()),
        Err(_) => None,
    }
}

/// Writes a UUID as text (`Display` of `uuid::Uuid`): lower-case
/// hexadecimal with hyphens. Claimed besides: `uuid` reads the text back as
/// the same bytes.
#[verifier::external_body]
pub(crate) fn uuid_format(u: &[u8; 16]) -> (r: String)
    ensures
        r@ == hyphenated(u@),
        uuid_parsed(r@) == Some(u@),
{
    uuid::Uuid::from_bytes(*u).to_string()
}

/// Decodes hexadecimal text (`hex::decode`): `Some` exactly for an even
/// number of hexadecimal digits, in either case, and then each pair gives
/// one byte.
#[verifier::external_body]
pub(crate) fn hex_decode(s: &str) -> (r: Option<Vec<u8>>)
    ensures
        match r {
            Some(v) => is_hex_text(s@) && v@ == hex_bytes(s@),
            None => !is_hex_text(s@),
        },
{
    hex::decode(s).ok()
}

/// Decodes base64 text (`decode` of `base64`'s standard engine). The result
/// is a function of the text alone.
#[verifier::external_body]
pub(crate) fn base64_decode(s: &str) -> (r: Option<Vec<u8>>)
    ensures
        match r {
            Some(v) => base64_decoded(s@) == Some(v@),
            None => base64_decoded(s@) is None,
        },
{
    base64::engine::general_purpose::STANDARD.decode(s).ok()
}

/// Encodes bytes as base64 text (`encode` of `base64`'s standard engine).
/// Claimed besides: the text is made of the base64 alphabet and `=`, and
/// decoding it gives the bytes back.
#[verifier::external_body]
pub(crate) fn base64_encode(b: &[u8]) -> (r: String)
    ensures
        r@ == base64_text(b@),
        base64_decoded(r@) == Some(b@),
        forall|i: int| 0 <= i < r@.len() ==> is_base64_char(#[trigger] r@[i]),
{
    base64::engine::general_purpose::STANDARD.encode(b)
}

} // verus!
