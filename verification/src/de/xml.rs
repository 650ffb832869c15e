//! The XML encoding, read.
//!
//! A document is an `llsd` element around exactly one value. The name of an
//! element tells the type of its value. The document is first split into
//! events by `quick_xml`; the value is then read from the events.
use vstd::prelude::*;
use vstd::slice::slice_subrange;
use vstd::string::StringSliceAdditionalSpecFns;
use vstd::utf8::{decode_utf8, valid_utf8};
use crate::error::{XmlError, XmlErrorKind};
use crate::outside::{
    base64_decode, base64_decoded, base85_decode, base85_decoded, hex_bytes, hex_decode,
    is_hex_text, parse_rfc3339, read_event, rfc3339_seconds, uuid_parse, uuid_parsed,
    xml_attribute_list, xml_attributes, xml_events, xml_reader, xml_text, xml_text_decoded,
    xml_unescape, xml_unescaped,
};
use crate::text::{
    bytes_eq, chars_of, int_of_text, is_real, is_real_literal, is_space, is_whitespace,
    matches_word, parse_i32, push_char, spells, string_of, utf8_to_string,
};
use crate::value::{insert_entry, items_view, Entries, LLSDMap, LLSDReal, LLSDValue, Real, Value};
use crate::wire::copy_range;

verus! {

/// The preamble of an XML document: the declaration and the opening `llsd`.
pub const LLSDXMLPREFIX: &'static str = "<?xml version=\"1.0\" encoding=\"UTF-8\"?>\n<llsd>\n";

/// The sentinel that identifies an XML document: it must begin with this.
pub const LLSDXMLSENTINEL: &'static str = "<?xml";

/// The kinds of event that a document is split into.
#[derive(Debug, Clone, Copy, PartialEq, Eq, Structural)]
pub enum XmlEventKind {
    /// A start tag. An empty element gives a start tag and an end tag.
    Start,
    /// An end tag.
    End,
    /// Text between tags, trimmed; never empty.
    Text,
    /// A comment.
    Comment,
    /// A declaration, a processing instruction, a document type, character
    /// data.
    Other,
    /// Malformed XML. Nothing follows it.
    Error,
}

/// One event of a document.
#[derive(Debug, PartialEq, Eq)]
pub struct XmlEvent {
    pub kind: XmlEventKind,
    /// What stands between the angle brackets of a start tag, name and
    /// attributes; the name of an end tag; the raw content of a text.
    pub content: Vec<u8>,
    /// The offset in the document just after the event.
    pub offset: usize,
}

/// The model of an event.
pub ghost struct Token {
    pub kind: XmlEventKind,
    pub content: Seq<u8>,
    pub offset: usize,
}

/// White space inside a tag: space, carriage return, line feed, tab.
pub open spec fn is_tag_space(b: u8) -> bool {
    b == 0x20 || b == 0x0d || b == 0x0a || b == 0x09
}

/// How long the name of a start tag is: it ends at the first white space.
pub open spec fn name_len(content: Seq<u8>) -> int
    decreases content.len(),
{
    if content.len() == 0 || is_tag_space(content[0]) {
        0
    } else {
        1 + name_len(content.skip(1))
    }
}

/// The name of a start tag.
pub open spec fn name_of(content: Seq<u8>) -> Seq<u8> {
    content.take(name_len(content))
}

/// What follows the name in a start tag: its attributes.
pub open spec fn attributes_of(content: Seq<u8>) -> Seq<u8> {
    content.skip(name_len(content))
}

impl View for XmlEvent {
    type V = Token;

    open spec fn view(&self) -> Token {
        Token { kind: self.kind, content: self.content@, offset: self.offset }
    }
}

/// The models of a sequence of events.
pub open spec fn tokens(events: Seq<XmlEvent>) -> Seq<Token> {
    events.map_values(|e: XmlEvent| e@)
}

/// What the name of an element says.
#[derive(Debug, Clone, Copy, PartialEq, Eq, Structural)]
pub enum Tag {
    Undef,
    Boolean,
    Integer,
    Real,
    String,
    Uri,
    Uuid,
    Date,
    Binary,
    Mapping,
    Array,
    Llsd,
    Key,
    Unknown,
}

pub const NAME_UNDEF: [u8; 5] = [0x75, 0x6e, 0x64, 0x65, 0x66];

pub const NAME_BOOLEAN: [u8; 7] = [0x62, 0x6f, 0x6f, 0x6c, 0x65, 0x61, 0x6e];

pub const NAME_INTEGER: [u8; 7] = [0x69, 0x6e, 0x74, 0x65, 0x67, 0x65, 0x72];

pub const NAME_REAL: [u8; 4] = [0x72, 0x65, 0x61, 0x6c];

pub const NAME_STRING: [u8; 6] = [0x73, 0x74, 0x72, 0x69, 0x6e, 0x67];

pub const NAME_URI: [u8; 3] = [0x75, 0x72, 0x69];

pub const NAME_UUID: [u8; 4] = [0x75, 0x75, 0x69, 0x64];

pub const NAME_DATE: [u8; 4] = [0x64, 0x61, 0x74, 0x65];

pub const NAME_BINARY: [u8; 6] = [0x62, 0x69, 0x6e, 0x61, 0x72, 0x79];

pub const NAME_MAP: [u8; 3] = [0x6d, 0x61, 0x70];

pub const NAME_ARRAY: [u8; 5] = [0x61, 0x72, 0x72, 0x61, 0x79];

pub const NAME_LLSD: [u8; 4] = [0x6c, 0x6c, 0x73, 0x64];

pub const NAME_KEY: [u8; 3] = [0x6b, 0x65, 0x79];

pub const NAME_ENCODING: [u8; 8] = [0x65, 0x6e, 0x63, 0x6f, 0x64, 0x69, 0x6e, 0x67];

/// What a name says: `undef`, `boolean`, `integer`, `real`, `string`, `uri`,
/// `uuid`, `date`, `binary`, `map`, `array` are the types; `llsd` is the
/// root and `key` the key of a map entry.
pub open spec fn tag_of(name: Seq<u8>) -> Tag {
    if name == NAME_UNDEF@ {
        Tag::Undef
    } else if name == NAME_BOOLEAN@ {
        Tag::Boolean
    } else if name == NAME_INTEGER@ {
        Tag::Integer
    } else if name == NAME_REAL@ {
        Tag::Real
    } else if name == NAME_STRING@ {
        Tag::String
    } else if name == NAME_URI@ {
        Tag::Uri
    } else if name == NAME_UUID@ {
        Tag::Uuid
    } else if name == NAME_DATE@ {
        Tag::Date
    } else if name == NAME_BINARY@ {
        Tag::Binary
    } else if name == NAME_MAP@ {
        Tag::Mapping
    } else if name == NAME_ARRAY@ {
        Tag::Array
    } else if name == NAME_LLSD@ {
        Tag::Llsd
    } else if name == NAME_KEY@ {
        Tag::Key
    } else {
        Tag::Unknown
    }
}

/// Tells what a name says.
pub fn classify(name: &[u8]) -> (tag: Tag)
    ensures
        tag == tag_of(name@),
{
    if bytes_eq(name, NAME_UNDEF.as_slice()) {
        Tag::Undef
    } else if bytes_eq(name, NAME_BOOLEAN.as_slice()) {
        Tag::Boolean
    } else if bytes_eq(name, NAME_INTEGER.as_slice()) {
        Tag::Integer
    } else if bytes_eq(name, NAME_REAL.as_slice()) {
        Tag::Real
    } else if bytes_eq(name, NAME_STRING.as_slice()) {
        Tag::String
    } else if bytes_eq(name, NAME_URI.as_slice()) {
        Tag::Uri
    } else if bytes_eq(name, NAME_UUID.as_slice()) {
        Tag::Uuid
    } else if bytes_eq(name, NAME_DATE.as_slice()) {
        Tag::Date
    } else if bytes_eq(name, NAME_BINARY.as_slice()) {
        Tag::Binary
    } else if bytes_eq(name, NAME_MAP.as_slice()) {
        Tag::Mapping
    } else if bytes_eq(name, NAME_ARRAY.as_slice()) {
        Tag::Array
    } else if bytes_eq(name, NAME_LLSD.as_slice()) {
        Tag::Llsd
    } else if bytes_eq(name, NAME_KEY.as_slice()) {
        Tag::Key
    } else {
        Tag::Unknown
    }
}

/// An error of a kind at an offset.
pub open spec fn fail(kind: XmlErrorKind, offset: usize) -> XmlError {
    XmlError { kind, offset }
}

/// The text without its leading white space.
pub open spec fn trim_front(t: Seq<char>) -> Seq<char>
    decreases t.len(),
{
    if t.len() > 0 && is_space(t[0]) {
        trim_front(t.skip(1))
    } else {
        t
    }
}

/// The text without its trailing white space.
pub open spec fn trim_back(t: Seq<char>) -> Seq<char>
    decreases t.len(),
{
    if t.len() > 0 && is_space(t.last()) {
        trim_back(t.drop_last())
    } else {
        t
    }
}

/// The text without the white space at its two ends.
pub open spec fn trimmed(t: Seq<char>) -> Seq<char> {
    trim_back(trim_front(t))
}

/// The pieces of text of an element, joined by single spaces.
pub open spec fn joined(pieces: Seq<Seq<char>>) -> Seq<char>
    decreases pieces.len(),
{
    if pieces.len() == 0 {
        Seq::empty()
    } else if pieces.len() == 1 {
        pieces[0]
    } else {
        joined(pieces.drop_last()) + seq![' '] + pieces.last()
    }
}

/// The text of an element: its pieces joined, then trimmed.
pub open spec fn content(pieces: Seq<Seq<char>>) -> Seq<char> {
    trimmed(joined(pieces))
}

/// The boolean that a text spells: `0`, `0.0` and `false`, or `1`, `1.0`
/// and `true`.
pub open spec fn boolean_of_text(t: Seq<char>) -> Option<bool> {
    if t == seq!['0'] || t == seq!['0', '.', '0'] || t == seq!['f', 'a', 'l', 's', 'e'] {
        Some(false)
    } else if t == seq!['1'] || t == seq!['1', '.', '0'] || t == seq!['t', 'r', 'u', 'e'] {
        Some(true)
    } else {
        None
    }
}

/// The integer that a text spells, white space at its ends aside. The empty
/// text is 0.
pub open spec fn integer_of_text(t: Seq<char>) -> Option<i32> {
    if trimmed(t).len() == 0 {
        Some(0)
    } else {
        int_of_text(trimmed(t))
    }
}

/// The bits of the NaN that the token `nan` stands for.
pub open spec fn nan_bits() -> u64 {
    0x7ff8_0000_0000_0000
}

/// The nil UUID: sixteen zero bytes.
pub open spec fn nil_uuid() -> Seq<u8> {
    Seq::new(16, |i: int| 0u8)
}

/// White space among the ASCII characters: space, tab, line feed, form
/// feed, carriage return.
pub open spec fn is_ascii_space(c: char) -> bool {
    c == ' ' || c == '\t' || c == '\n' || c == '\x0c' || c == '\r'
}

/// The text without each leading `<~`.
pub open spec fn strip_open(t: Seq<char>) -> Seq<char>
    decreases t.len(),
{
    if t.len() >= 2 && t[0] == '<' && t[1] == '~' {
        strip_open(t.skip(2))
    } else {
        t
    }
}

/// The text without each trailing `~>`.
pub open spec fn strip_close(t: Seq<char>) -> Seq<char>
    decreases t.len(),
{
    if t.len() >= 2 && t[t.len() - 2] == '~' && t[t.len() - 1] == '>' {
        strip_close(t.take(t.len() - 2))
    } else {
        t
    }
}

/// The text without its ASCII white space.
pub open spec fn without_ascii_spaces(t: Seq<char>) -> Seq<char>
    decreases t.len(),
{
    if t.len() == 0 {
        Seq::empty()
    } else if is_ascii_space(t.last()) {
        without_ascii_spaces(t.drop_last())
    } else {
        without_ascii_spaces(t.drop_last()).push(t.last())
    }
}

/// The digits of an Ascii85 text: the text without the marks `<~` and `~>`
/// around it and without white space.
pub open spec fn base85_payload(t: Seq<char>) -> Seq<char> {
    without_ascii_spaces(strip_close(strip_open(t)))
}

/// An Ascii85 digit: `!` to `u`.
pub open spec fn is_base85_digit(c: char) -> bool {
    '!' <= c <= 'u'
}

/// The number that up to five Ascii85 digits spell, a group that is short
/// being filled up with `u`.
pub open spec fn group_value(g: Seq<char>) -> int {
    let d = |i: int|
        if i < g.len() {
            g[i] as int - 33
        } else {
            84int
        };
    d(0) * 52200625 + d(1) * 614125 + d(2) * 7225 + d(3) * 85 + d(4)
}

/// Every group of five digits spells a number of 32 bits.
pub open spec fn groups_fit(p: Seq<char>) -> bool
    decreases p.len(),
{
    if p.len() == 0 {
        true
    } else if p.len() <= 5 {
        group_value(p) <= u32::MAX
    } else {
        group_value(p.take(5)) <= u32::MAX && groups_fit(p.skip(5))
    }
}

/// Ascii85 digits alone, in groups that each spell a number of 32 bits.
pub open spec fn is_base85_payload(p: Seq<char>) -> bool {
    &&& forall|i: int| 0 <= i < p.len() ==> is_base85_digit(#[trigger] p[i])
    &&& groups_fit(p)
}

/// The value of the attribute `key`, if there is one: the first attribute
/// of that name, with its entities replaced. A malformed attribute in front
/// of it is an error.
pub open spec fn attribute(list: Seq<Option<(Seq<u8>, Seq<u8>)>>, key: Seq<u8>) -> Result<
    Option<Seq<char>>,
    XmlErrorKind,
>
    decreases list.len(),
{
    if list.len() == 0 {
        Ok(None)
    } else {
        match list[0] {
            None => Err(XmlErrorKind::BadAttribute),
            Some((name, value)) => if name == key {
                match xml_unescaped(value) {
                    None => Err(XmlErrorKind::BadAttribute),
                    Some(u) => if valid_utf8(u) {
                        Ok(Some(decode_utf8(u)))
                    } else {
                        Err(XmlErrorKind::BadAttribute)
                    },
                }
            } else {
                attribute(list.skip(1), key)
            },
        }
    }
}

/// The bytes of a `binary` element: its text decoded as its attribute
/// `encoding` says, `base64` where it says nothing.
pub open spec fn binary_of(text: Seq<char>, attributes: Seq<u8>) -> Result<Value, XmlErrorKind> {
    match attribute(xml_attribute_list(attributes), NAME_ENCODING@) {
        Err(kind) => Err(kind),
        Ok(named) => {
            let name = match named {
                Some(n) => n,
                None => seq!['b', 'a', 's', 'e', '6', '4'],
            };
            if name == seq!['b', 'a', 's', 'e', '6', '4'] {
                match base64_decoded(text) {
                    Some(bytes) => Ok(Value::Binary(bytes)),
                    None => Err(XmlErrorKind::BadBinary),
                }
            } else if name == seq!['b', 'a', 's', 'e', '1', '6'] {
                if is_hex_text(text) {
                    Ok(Value::Binary(hex_bytes(text)))
                } else {
                    Err(XmlErrorKind::BadBinary)
                }
            } else if name == seq!['b', 'a', 's', 'e', '8', '5'] {
                if is_base85_payload(base85_payload(text)) {
                    match base85_decoded(base85_payload(text)) {
                        Some(bytes) => Ok(Value::Binary(bytes)),
                        None => Err(XmlErrorKind::BadBinary),
                    }
                } else {
                    Err(XmlErrorKind::BadBinary)
                }
            } else {
                Err(XmlErrorKind::UnknownEncoding)
            }
        },
    }
}

/// The value of a primitive element with the given text.
///
/// An empty `integer` is 0 and an empty `uuid` is the nil UUID. The token
/// `nan`, in any case, is the NaN; any other real number is kept as its
/// numeral.
pub open spec fn convert(tag: Tag, text: Seq<char>, attributes: Seq<u8>) -> Result<
    Value,
    XmlErrorKind,
> {
    match tag {
        Tag::Undef => Ok(Value::Undefined),
        Tag::Real => if spells(text, 0, seq!['n', 'a', 'n']) {
            Ok(Value::Real(Real::Bits(nan_bits())))
        } else if is_real_literal(text) {
            Ok(Value::Real(Real::Decimal(text)))
        } else {
            Err(XmlErrorKind::BadReal)
        },
        Tag::Integer => match integer_of_text(text) {
            Some(i) => Ok(Value::Integer(i)),
            None => Err(XmlErrorKind::BadInteger),
        },
        Tag::Boolean => match boolean_of_text(text) {
            Some(b) => Ok(Value::Boolean(b)),
            None => Err(XmlErrorKind::BadBoolean),
        },
        Tag::String => Ok(Value::String(text)),
        Tag::Uri => Ok(Value::Uri(text)),
        Tag::Uuid => if text.len() == 0 {
            Ok(Value::Uuid(nil_uuid()))
        } else {
            match uuid_parsed(text) {
                Some(u) => if u.len() == 16 {
                    Ok(Value::Uuid(u))
                } else {
                    Err(XmlErrorKind::BadUuid)
                },
                None => Err(XmlErrorKind::BadUuid),
            }
        },
        Tag::Date => match rfc3339_seconds(text) {
            Some(d) => Ok(Value::Date(d)),
            None => Err(XmlErrorKind::BadDate),
        },
        Tag::Binary => binary_of(text, attributes),
        _ => Err(XmlErrorKind::UnknownType),
    }
}

/// What reading a piece of a document gives: the piece and the events after
/// it.
pub type Scan<T> = Result<(T, Seq<Token>), XmlError>;

/// A primitive element after its start tag: text, in pieces where comments
/// split it, up to the end tag. `end` is the length of the document.
pub open spec fn primitive(
    tag: Tag,
    attributes: Seq<u8>,
    ev: Seq<Token>,
    pieces: Seq<Seq<char>>,
    end: usize,
) -> Scan<Value>
    decreases ev.len(),
{
    if ev.len() == 0 {
        Err(fail(XmlErrorKind::UnexpectedEnd, end))
    } else {
        let e = ev[0];
        match e.kind {
            XmlEventKind::Text => match xml_text_decoded(e.content) {
                Some(t) => primitive(tag, attributes, ev.skip(1), pieces.push(t), end),
                None => Err(fail(XmlErrorKind::BadText, e.offset)),
            },
            XmlEventKind::End => if !valid_utf8(e.content) {
                Err(fail(XmlErrorKind::BadName, e.offset))
            } else if tag_of(e.content) != tag {
                Err(fail(XmlErrorKind::UnmatchedTag, e.offset))
            } else {
                match convert(tag, content(pieces), attributes) {
                    Ok(v) => Ok((v, ev.skip(1))),
                    Err(kind) => Err(fail(kind, e.offset)),
                }
            },
            XmlEventKind::Comment => primitive(tag, attributes, ev.skip(1), pieces, end),
            XmlEventKind::Error => Err(fail(XmlErrorKind::Syntax, e.offset)),
            _ => Err(fail(XmlErrorKind::UnexpectedEvent, e.offset)),
        }
    }
}

/// The value of an element after its start tag `start`.
pub open spec fn element(start: Token, ev: Seq<Token>, end: usize) -> Scan<Value>
    decreases ev.len(), 2nat,
{
    if !valid_utf8(name_of(start.content)) {
        Err(fail(XmlErrorKind::BadName, start.offset))
    } else {
        match tag_of(name_of(start.content)) {
            Tag::Mapping => map_entries(ev, Entries::empty(), end),
            Tag::Array => array_items(ev, Seq::empty(), end),
            Tag::Llsd | Tag::Key | Tag::Unknown => Err(
                fail(XmlErrorKind::UnknownType, start.offset),
            ),
            tag => primitive(tag, attributes_of(start.content), ev, Seq::empty(), end),
        }
    }
}

/// The items of an array after its start tag, added to those in `done`, up
/// to its end tag.
pub open spec fn array_items(ev: Seq<Token>, done: Seq<Value>, end: usize) -> Scan<Value>
    decreases ev.len(), 1nat,
{
    if ev.len() == 0 {
        Err(fail(XmlErrorKind::UnexpectedEnd, end))
    } else {
        let e = ev[0];
        match e.kind {
            XmlEventKind::Start => match element(e, ev.skip(1), end) {
                Err(x) => Err(x),
                Ok((v, rest)) => if rest.len() < ev.len() {
                    array_items(rest, done.push(v), end)
                } else {
                    Err(fail(XmlErrorKind::UnexpectedEnd, end))
                },
            },
            XmlEventKind::Text => match xml_text_decoded(e.content) {
                Some(_) => array_items(ev.skip(1), done, end),
                None => Err(fail(XmlErrorKind::BadText, e.offset)),
            },
            XmlEventKind::End => if !valid_utf8(e.content) {
                Err(fail(XmlErrorKind::BadName, e.offset))
            } else if tag_of(e.content) != Tag::Array {
                Err(fail(XmlErrorKind::UnmatchedTag, e.offset))
            } else {
                Ok((Value::Array(done), ev.skip(1)))
            },
            XmlEventKind::Comment => array_items(ev.skip(1), done, end),
            XmlEventKind::Error => Err(fail(XmlErrorKind::Syntax, e.offset)),
            XmlEventKind::Other => Err(fail(XmlErrorKind::UnexpectedEvent, e.offset)),
        }
    }
}

/// The entries of a map after its start tag, set in turn in `done`, up to
/// its end tag. An entry is a `key` element and, at once after it, the
/// element of a value; a key that is already present overwrites it.
pub open spec fn map_entries(ev: Seq<Token>, done: Entries, end: usize) -> Scan<Value>
    decreases ev.len(), 1nat,
{
    if ev.len() == 0 {
        Err(fail(XmlErrorKind::UnexpectedEnd, end))
    } else {
        let e = ev[0];
        match e.kind {
            XmlEventKind::Start => if !valid_utf8(name_of(e.content)) {
                Err(fail(XmlErrorKind::BadName, e.offset))
            } else if tag_of(name_of(e.content)) != Tag::Key {
                Err(fail(XmlErrorKind::ExpectedKey, e.offset))
            } else {
                match map_entry(ev.skip(1), Seq::empty(), end) {
                    Err(x) => Err(x),
                    Ok(((key, v), rest)) => if rest.len() < ev.len() {
                        map_entries(rest, insert_entry(done, key, v), end)
                    } else {
                        Err(fail(XmlErrorKind::UnexpectedEnd, end))
                    },
                }
            },
            XmlEventKind::Text => match xml_text_decoded(e.content) {
                Some(_) => map_entries(ev.skip(1), done, end),
                None => Err(fail(XmlErrorKind::BadText, e.offset)),
            },
            XmlEventKind::End => if !valid_utf8(e.content) {
                Err(fail(XmlErrorKind::BadName, e.offset))
            } else if tag_of(e.content) != Tag::Mapping {
                Err(fail(XmlErrorKind::UnmatchedTag, e.offset))
            } else {
                Ok((Value::Mapping(done), ev.skip(1)))
            },
            XmlEventKind::Comment => map_entries(ev.skip(1), done, end),
            XmlEventKind::Error => Err(fail(XmlErrorKind::Syntax, e.offset)),
            XmlEventKind::Other => Err(fail(XmlErrorKind::UnexpectedEvent, e.offset)),
        }
    }
}

/// One entry of a map after the start tag of its key: the text of the key
/// up to the end tag, then the element of the value.
pub open spec fn map_entry(ev: Seq<Token>, pieces: Seq<Seq<char>>, end: usize) -> Scan<
    (Seq<char>, Value),
>
    decreases ev.len(), 0nat,
{
    if ev.len() == 0 {
        Err(fail(XmlErrorKind::UnexpectedEnd, end))
    } else {
        let e = ev[0];
        match e.kind {
            XmlEventKind::Start => if !valid_utf8(name_of(e.content)) {
                Err(fail(XmlErrorKind::BadName, e.offset))
            } else {
                Err(fail(XmlErrorKind::ExpectedKey, e.offset))
            },
            XmlEventKind::Text => match xml_text_decoded(e.content) {
                Some(t) => map_entry(ev.skip(1), pieces.push(t), end),
                None => Err(fail(XmlErrorKind::BadText, e.offset)),
            },
            XmlEventKind::End => if !valid_utf8(e.content) {
                Err(fail(XmlErrorKind::BadName, e.offset))
            } else if tag_of(e.content) != Tag::Key {
                Err(fail(XmlErrorKind::UnmatchedTag, e.offset))
            } else if ev.len() < 2 {
                Err(fail(XmlErrorKind::UnexpectedEvent, end))
            } else if !(ev[1].kind is Start) {
                Err(fail(XmlErrorKind::UnexpectedEvent, ev[1].offset))
            } else {
                match element(ev[1], ev.skip(2), end) {
                    Err(x) => Err(x),
                    Ok((v, rest)) => Ok(((content(pieces), v), rest)),
                }
            },
            XmlEventKind::Comment => map_entry(ev.skip(1), pieces, end),
            XmlEventKind::Error => Err(fail(XmlErrorKind::Syntax, e.offset)),
            XmlEventKind::Other => Err(fail(XmlErrorKind::UnexpectedEvent, e.offset)),
        }
    }
}

/// A document: one `llsd` element with, at once after its start tag, the
/// element of one value. `found` is the value of an `llsd` element that was
/// read already.
pub open spec fn document(ev: Seq<Token>, found: Option<Value>, end: usize) -> Result<
    Value,
    XmlError,
>
    decreases ev.len(),
{
    if ev.len() == 0 {
        match found {
            Some(v) => Ok(v),
            None => Err(fail(XmlErrorKind::NoLlsd, end)),
        }
    } else {
        let e = ev[0];
        match e.kind {
            XmlEventKind::Start => if tag_of(name_of(e.content)) != Tag::Llsd {
                Err(fail(XmlErrorKind::ExpectedLlsd, e.offset))
            } else if found is Some {
                Err(fail(XmlErrorKind::DuplicateLlsd, e.offset))
            } else if ev.len() < 2 {
                Err(fail(XmlErrorKind::ExpectedValue, end))
            } else if !(ev[1].kind is Start) {
                Err(fail(XmlErrorKind::ExpectedValue, ev[1].offset))
            } else {
                match element(ev[1], ev.skip(2), end) {
                    Err(x) => Err(x),
                    Ok((v, rest)) => if rest.len() < ev.len() {
                        document(rest, Some(v), end)
                    } else {
                        Err(fail(XmlErrorKind::UnexpectedEnd, end))
                    },
                }
            },
            XmlEventKind::Error => Err(fail(XmlErrorKind::Syntax, e.offset)),
            _ => document(ev.skip(1), found, end),
        }
    }
}

/// What decoding a document gives.
pub open spec fn decoded(input: Seq<u8>) -> Result<Value, XmlError> {
    document(xml_events(input), None, input.len() as usize)
}

/// The text without the white space at its two ends.
pub fn trim(s: &str) -> (r: String)
    ensures
        r@ == trimmed(s@),
{
    let chars = chars_of(s);
    let n = chars.len();
    let mut i: usize = 0;
    assert(chars@.skip(0) =~= chars@);
    while i < n && is_whitespace(chars[i])
        invariant
            i <= n,
            n == chars@.len(),
            trim_front(chars@) == trim_front(chars@.skip(i as int)),
        decreases n - i,
    {
        assert(chars@.skip(i as int).skip(1) =~= chars@.skip(i + 1));
        i = i + 1;
    }
    let ghost front = chars@.skip(i as int);
    assert(trim_front(chars@) == front);
    let mut j: usize = n;
    assert(chars@.subrange(i as int, n as int) =~= front);
    while j > i && is_whitespace(chars[j - 1])
        invariant
            i <= j <= n,
            n == chars@.len(),
            trim_back(front) == trim_back(chars@.subrange(i as int, j as int)),
        decreases j,
    {
        assert(chars@.subrange(i as int, j as int).drop_last() =~= chars@.subrange(
            i as int,
            j - 1,
        ));
        j = j - 1;
    }
    string_of(&chars, i, j)
}

/// Whether the bytes are UTF-8.
pub fn is_utf8(b: &[u8]) -> (r: bool)
    ensures
        r == valid_utf8(b@),
{
    let copy = copy_range(b, 0, b.len());
    assert(b@.subrange(0, b@.len() as int) =~= b@);
    utf8_to_string(copy).is_some()
}

/// Finds where the name of a start tag ends.
pub fn name_end(content: &[u8]) -> (n: usize)
    ensures
        n == name_len(content@),
        n <= content@.len(),
{
    let len = content.len();
    let mut i: usize = 0;
    assert(content@.skip(0) =~= content@);
    while i < len && !(content[i] == 0x20 || content[i] == 0x0d || content[i] == 0x0a
        || content[i] == 0x09)
        invariant
            i <= len,
            len == content@.len(),
            name_len(content@) == i + name_len(content@.skip(i as int)),
        decreases len - i,
    {
        assert(content@.skip(i as int).skip(1) =~= content@.skip(i + 1));
        i = i + 1;
    }
    i
}

/// The name of a start tag.
pub fn tag_name(content: &[u8]) -> (name: &[u8])
    ensures
        name@ == name_of(content@),
{
    slice_subrange(content, 0, name_end(content))
}

/// What follows the name in a start tag.
pub fn tag_attributes(content: &[u8]) -> (attrs: &[u8])
    ensures
        attrs@ == attributes_of(content@),
{
    slice_subrange(content, name_end(content), content.len())
}

/// Whether a text is the given one.
fn text_is(text: &Vec<char>, spelling: &[char]) -> (r: bool)
    ensures
        r == (text@ == spelling@),
{
    if text.len() != spelling.len() {
        return false;
    }
    let mut i: usize = 0;
    while i < text.len()
        invariant
            text@.len() == spelling@.len(),
            i <= text@.len(),
            forall|j: int| 0 <= j < i ==> text@[j] == spelling@[j],
        decreases text@.len() - i,
    {
        if text[i] != spelling[i] {
            return false;
        }
        i = i + 1;
    }
    assert(text@ =~= spelling@);
    true
}

/// Parse integer. The empty string is 0.
pub fn parse_integer(s: &str) -> (r: Result<i32, XmlErrorKind>)
    ensures
        match integer_of_text(s@) {
            Some(i) => r == Ok::<i32, XmlErrorKind>(i),
            None => r == Err::<i32, XmlErrorKind>(XmlErrorKind::BadInteger),
        },
{
    let t = trim(s);
    let chars = chars_of(t.as_str());
    if chars.len() == 0 {
        Ok(0)
    } else {
        match parse_i32(&chars) {
            Some(i) => Ok(i),
            None => Err(XmlErrorKind::BadInteger),
        }
    }
}

/// Parse boolean: 0, 0.0, false, 1, 1.0, true.
pub fn parse_boolean(s: &str) -> (r: Result<bool, XmlErrorKind>)
    ensures
        match boolean_of_text(s@) {
            Some(b) => r == Ok::<bool, XmlErrorKind>(b),
            None => r == Err::<bool, XmlErrorKind>(XmlErrorKind::BadBoolean),
        },
{
    let t = chars_of(s);
    let f1: [char; 1] = ['0'];
    let f2: [char; 3] = ['0', '.', '0'];
    let f3: [char; 5] = ['f', 'a', 'l', 's', 'e'];
    let t1: [char; 1] = ['1'];
    let t2: [char; 3] = ['1', '.', '0'];
    let t3: [char; 4] = ['t', 'r', 'u', 'e'];
    assert(f1@ =~= seq!['0']);
    assert(f2@ =~= seq!['0', '.', '0']);
    assert(f3@ =~= seq!['f', 'a', 'l', 's', 'e']);
    assert(t1@ =~= seq!['1']);
    assert(t2@ =~= seq!['1', '.', '0']);
    assert(t3@ =~= seq!['t', 'r', 'u', 'e']);
    if text_is(&t, f1.as_slice()) || text_is(&t, f2.as_slice()) || text_is(&t, f3.as_slice()) {
        Ok(false)
    } else if text_is(&t, t1.as_slice()) || text_is(&t, t2.as_slice()) || text_is(
        &t,
        t3.as_slice(),
    ) {
        Ok(true)
    } else {
        Err(XmlErrorKind::BadBoolean)
    }
}

/// Parse a date, per RFC 3339.
pub fn parse_date(s: &str) -> (r: Result<i64, XmlErrorKind>)
    ensures
        match rfc3339_seconds(s@) {
            Some(d) => r == Ok::<i64, XmlErrorKind>(d),
            None => r == Err::<i64, XmlErrorKind>(XmlErrorKind::BadDate),
        },
{
    match parse_rfc3339(s) {
        Some(d) => Ok(d),
        None => Err(XmlErrorKind::BadDate),
    }
}

/// Search for attribute in attribute list.
pub fn get_attr(attrs: &[u8], key: &[u8]) -> (r: Result<Option<String>, XmlErrorKind>)
    ensures
        match attribute(xml_attribute_list(attrs@), key@) {
            Ok(Some(t)) => r is Ok && r->Ok_0 is Some && r->Ok_0->0@ == t,
            Ok(None) => r is Ok && r->Ok_0 is None,
            Err(kind) => r == Err::<Option<String>, XmlErrorKind>(kind),
        },
{
    let list = xml_attributes(attrs);
    let ghost all = xml_attribute_list(attrs@);
    let mut i: usize = 0;
    assert(all.skip(0) =~= all);
    while i < list.len()
        invariant
            i <= list@.len(),
            list@.len() == all.len(),
            all == xml_attribute_list(attrs@),
            forall|k: int|
                0 <= k < list@.len() ==> match #[trigger] list@[k] {
                    Some(a) => all[k] == Some((a.0@, a.1@)),
                    None => all[k] is None,
                },
            attribute(all, key@) == attribute(all.skip(i as int), key@),
        decreases list@.len() - i,
    {
        assert(all.skip(i as int).skip(1) =~= all.skip(i + 1));
        assert(all.skip(i as int)[0] == all[i as int]);
        match &list[i] {
            None => {
                return Err(XmlErrorKind::BadAttribute);
            },
            Some(a) => {
                if bytes_eq(a.0.as_slice(), key) {
                    let value = match xml_unescape(a.1.as_slice()) {
                        Some(v) => v,
                        None => {
                            return Err(XmlErrorKind::BadAttribute);
                        },
                    };
                    return match utf8_to_string(value) {
                        Some(t) => Ok(Some(t)),
                        None => Err(XmlErrorKind::BadAttribute),
                    };
                }
            },
        }
        i = i + 1;
    }
    assert(all.skip(i as int) =~= Seq::<Option<(Seq<u8>, Seq<u8>)>>::empty());
    Ok(None)
}

/// The digits of an Ascii85 text: the text without the marks around it and
/// without white space.
pub fn base85_digits(text: &str) -> (r: Vec<char>)
    ensures
        r@ == base85_payload(text@),
{
    let chars = chars_of(text);
    let n = chars.len();
    let mut i: usize = 0;
    assert(chars@.skip(0) =~= chars@);
    while n - i >= 2 && chars[i] == '<' && chars[i + 1] == '~'
        invariant
            i <= n,
            n == chars@.len(),
            strip_open(chars@) == strip_open(chars@.skip(i as int)),
        decreases n - i,
    {
        assert(chars@.skip(i as int).skip(2) =~= chars@.skip(i + 2));
        i = i + 2;
    }
    let ghost front = chars@.skip(i as int);
    assert(strip_open(chars@) == front);
    let mut j: usize = n;
    assert(chars@.subrange(i as int, n as int) =~= front);
    while j - i >= 2 && chars[j - 2] == '~' && chars[j - 1] == '>'
        invariant
            i <= j <= n,
            n == chars@.len(),
            strip_close(front) == strip_close(chars@.subrange(i as int, j as int)),
        decreases j,
    {
        assert(chars@.subrange(i as int, j as int).take(j - i - 2) =~= chars@.subrange(
            i as int,
            j - 2,
        ));
        j = j - 2;
    }
    let ghost middle = chars@.subrange(i as int, j as int);
    assert(strip_close(front) == middle);
    let mut r: Vec<char> = Vec::new();
    let mut k: usize = i;
    assert(middle.take(0) =~= Seq::<char>::empty());
    while k < j
        invariant
            i <= k <= j <= n,
            n == chars@.len(),
            middle == chars@.subrange(i as int, j as int),
            r@ == without_ascii_spaces(middle.take(k - i)),
        decreases j - k,
    {
        let c = chars[k];
        assert(middle.take(k + 1 - i).drop_last() =~= middle.take(k - i));
        assert(middle.take(k + 1 - i).last() == c);
        if !(c == ' ' || c == '\t' || c == '\n' || c == '\x0c' || c == '\r') {
            r.push(c);
        }
        k = k + 1;
    }
    assert(middle.take(middle.len() as int) =~= middle);
    r
}

/// Whether Ascii85 digits can be decoded: digits alone, in groups that each
/// spell a number of 32 bits.
pub fn fits_base85(p: &Vec<char>) -> (r: bool)
    ensures
        r == is_base85_payload(p@),
{
    let n = p.len();
    let mut i: usize = 0;
    while i < n
        invariant
            i <= n,
            n == p@.len(),
            forall|k: int| 0 <= k < i ==> is_base85_digit(#[trigger] p@[k]),
        decreases n - i,
    {
        if !(p[i] >= '!' && p[i] <= 'u') {
            return false;
        }
        i = i + 1;
    }
    let mut at: usize = 0;
    assert(p@.skip(0) =~= p@);
    while n - at > 5
        invariant
            at <= n,
            n == p@.len(),
            forall|k: int| 0 <= k < n ==> is_base85_digit(#[trigger] p@[k]),
            groups_fit(p@) == groups_fit(p@.skip(at as int)),
        decreases n - at,
    {
        let ghost here = p@.skip(at as int);
        let value: u64 = (p[at] as u64 - 33) * 52200625 + (p[at + 1] as u64 - 33) * 614125 + (p[at
            + 2] as u64 - 33) * 7225 + (p[at + 3] as u64 - 33) * 85 + (p[at + 4] as u64 - 33);
        assert(here.take(5)[0] == p@[at as int]);
        assert(here.take(5)[1] == p@[at + 1]);
        assert(here.take(5)[2] == p@[at + 2]);
        assert(here.take(5)[3] == p@[at + 3]);
        assert(here.take(5)[4] == p@[at + 4]);
        assert(value == group_value(here.take(5)));
        if value > 0xffff_ffff {
            return false;
        }
        assert(here.skip(5) =~= p@.skip(at + 5));
        at = at + 5;
    }
    let ghost last = p@.skip(at as int);
    if n - at == 0 {
        return true;
    }
    let d0: u64 = p[at] as u64 - 33;
    let d1: u64 = if n - at > 1 {
        p[at + 1] as u64 - 33
    } else {
        84
    };
    let d2: u64 = if n - at > 2 {
        p[at + 2] as u64 - 33
    } else {
        84
    };
    let d3: u64 = if n - at > 3 {
        p[at + 3] as u64 - 33
    } else {
        84
    };
    let d4: u64 = if n - at > 4 {
        p[at + 4] as u64 - 33
    } else {
        84
    };
    let value: u64 = d0 * 52200625 + d1 * 614125 + d2 * 7225 + d3 * 85 + d4;
    assert(last[0] == p@[at as int]);
    assert(n - at > 1 ==> last[1] == p@[at + 1]);
    assert(n - at > 2 ==> last[2] == p@[at + 2]);
    assert(n - at > 3 ==> last[3] == p@[at + 3]);
    assert(n - at > 4 ==> last[4] == p@[at + 4]);
    assert(value == group_value(last));
    value <= 0xffff_ffff
}

/// Parse binary object. Input in base64, base16, or base85.
pub fn parse_binary(s: &str, attrs: &[u8]) -> (r: Result<Vec<u8>, XmlErrorKind>)
    ensures
        match binary_of(s@, attrs@) {
            Ok(v) => r is Ok && Value::Binary(r->Ok_0@) == v,
            Err(kind) => r == Err::<Vec<u8>, XmlErrorKind>(kind),
        },
{
    let encoding = match get_attr(attrs, NAME_ENCODING.as_slice())? {
        Some(enc) => chars_of(enc.as_str()),
        None => {
            let mut name: Vec<char> = Vec::new();
            name.push('b');
            name.push('a');
            name.push('s');
            name.push('e');
            name.push('6');
            name.push('4');
            assert(name@ =~= seq!['b', 'a', 's', 'e', '6', '4']);
            name
        },
    };
    let base64: [char; 6] = ['b', 'a', 's', 'e', '6', '4'];
    let base16: [char; 6] = ['b', 'a', 's', 'e', '1', '6'];
    let base85: [char; 6] = ['b', 'a', 's', 'e', '8', '5'];
    assert(base64@ =~= seq!['b', 'a', 's', 'e', '6', '4']);
    assert(base16@ =~= seq!['b', 'a', 's', 'e', '1', '6']);
    assert(base85@ =~= seq!['b', 'a', 's', 'e', '8', '5']);
    if text_is(&encoding, base64.as_slice()) {
        match base64_decode(s) {
            Some(bytes) => Ok(bytes),
            None => Err(XmlErrorKind::BadBinary),
        }
    } else if text_is(&encoding, base16.as_slice()) {
        match hex_decode(s) {
            Some(bytes) => Ok(bytes),
            None => Err(XmlErrorKind::BadBinary),
        }
    } else if text_is(&encoding, base85.as_slice()) {
        let digits = base85_digits(s);
        if fits_base85(&digits) {
            let payload = string_of(&digits, 0, digits.len());
            assert(digits@.subrange(0, digits@.len() as int) =~= digits@);
            match base85_decode(payload.as_str()) {
                Some(bytes) => Ok(bytes),
                None => Err(XmlErrorKind::BadBinary),
            }
        } else {
            Err(XmlErrorKind::BadBinary)
        }
    } else {
        Err(XmlErrorKind::UnknownEncoding)
    }
}

/// The value of a primitive element with the given text.
pub fn convert_primitive(tag: Tag, text: String, attrs: &[u8]) -> (r: Result<
    LLSDValue,
    XmlErrorKind,
>)
    ensures
        match convert(tag, text@, attrs@) {
            Ok(v) => r is Ok && r->Ok_0@ == v,
            Err(kind) => r == Err::<LLSDValue, XmlErrorKind>(kind),
        },
{
    match tag {
        Tag::Undef => Ok(LLSDValue::Undefined),
        Tag::Real => {
            let chars = chars_of(text.as_str());
            let nan: [char; 3] = ['n', 'a', 'n'];
            assert(nan@ =~= seq!['n', 'a', 'n']);
            if matches_word(&chars, 0, nan.as_slice()) {
                Ok(LLSDValue::Real(LLSDReal::Bits(0x7ff8_0000_0000_0000)))
            } else if is_real(&chars) {
                Ok(LLSDValue::Real(LLSDReal::Decimal(text)))
            } else {
                Err(XmlErrorKind::BadReal)
            }
        },
        Tag::Integer => Ok(LLSDValue::Integer(parse_integer(text.as_str())?)),
        Tag::Boolean => Ok(LLSDValue::Boolean(parse_boolean(text.as_str())?)),
        Tag::String => Ok(LLSDValue::String(text)),
        Tag::Uri => Ok(LLSDValue::URI(text)),
        Tag::Uuid => {
            if text.as_str().is_empty() {
                let nil: [u8; 16] = [0, 0, 0, 0, 0, 0, 0, 0, 0, 0, 0, 0, 0, 0, 0, 0];
                assert(nil@ =~= nil_uuid());
                Ok(LLSDValue::UUID(nil))
            } else {
                match uuid_parse(text.as_str()) {
                    Some(u) => Ok(LLSDValue::UUID(u)),
                    None => Err(XmlErrorKind::BadUuid),
                }
            }
        },
        Tag::Date => Ok(LLSDValue::Date(parse_date(text.as_str())?)),
        Tag::Binary => Ok(LLSDValue::Binary(parse_binary(text.as_str(), attrs)?)),
        _ => Err(XmlErrorKind::UnknownType),
    }
}

/// The events from `pos` on hold the event at `pos` first.
proof fn lemma_tokens_step(events: Seq<XmlEvent>, pos: int)
    requires
        0 <= pos < events.len(),
    ensures
        tokens(events).skip(pos).len() == events.len() - pos,
        tokens(events).skip(pos)[0] == events[pos]@,
        tokens(events).skip(pos).skip(1) == tokens(events).skip(pos + 1),
        pos + 1 < events.len() ==> tokens(events).skip(pos)[1] == events[pos + 1]@,
        pos + 1 < events.len() ==> tokens(events).skip(pos).skip(2) == tokens(events).skip(
            pos + 2,
        ),
{
    assert(tokens(events).skip(pos).skip(1) =~= tokens(events).skip(pos + 1));
    if pos + 1 < events.len() {
        assert(tokens(events).skip(pos).skip(2) =~= tokens(events).skip(pos + 2));
    }
}

/// How an executable result stands for a scan in the model: the value has
/// the scanned value as its model, and the position is where the events
/// after it begin.
pub open spec fn agrees(
    r: Result<(LLSDValue, usize), XmlError>,
    events: Seq<XmlEvent>,
    want: Scan<Value>,
) -> bool {
    match want {
        Ok((v, rest)) => r is Ok && r->Ok_0.0@ == v && r->Ok_0.1 <= events.len() && tokens(
            events,
        ).skip(r->Ok_0.1 as int) == rest,
        Err(e) => r == Err::<(LLSDValue, usize), XmlError>(e),
    }
}

/// Reads a primitive element whose start tag, of the given type, came just
/// before `pos`.
fn parse_primitive_value(
    events: &Vec<XmlEvent>,
    pos: usize,
    tag: Tag,
    attrs: &[u8],
    end: usize,
) -> (r: Result<(LLSDValue, usize), XmlError>)
    requires
        pos <= events@.len(),
    ensures
        agrees(r, events@, primitive(tag, attrs@, tokens(events@).skip(pos as int), Seq::empty(), end)),
        r is Ok ==> pos < r->Ok_0.1,
{
    let mut text = String::new();
    let mut any = false;
    let ghost mut pieces: Seq<Seq<char>> = Seq::empty();
    let mut p: usize = pos;
    loop
        invariant
            pos <= p <= events@.len(),
            text@ == joined(pieces),
            any == (pieces.len() > 0),
            primitive(tag, attrs@, tokens(events@).skip(pos as int), Seq::empty(), end)
                == primitive(tag, attrs@, tokens(events@).skip(p as int), pieces, end),
        decreases events@.len() - p,
    {
        if p >= events.len() {
            return Err(XmlError { kind: XmlErrorKind::UnexpectedEnd, offset: end });
        }
        proof {
            lemma_tokens_step(events@, p as int);
        }
        let e = &events[p];
        match e.kind {
            XmlEventKind::Text => {
                match xml_text(e.content.as_slice()) {
                    Some(t) => {
                        if any {
                            push_char(&mut text, ' ');
                        }
                        text.append(t.as_str());
                        proof {
                            let more = pieces.push(t@);
                            assert(more.drop_last() =~= pieces);
                            assert(text@ =~= joined(more));
                            pieces = more;
                        }
                        any = true;
                        p = p + 1;
                    },
                    None => {
                        return Err(XmlError { kind: XmlErrorKind::BadText, offset: e.offset });
                    },
                }
            },
            XmlEventKind::End => {
                if !is_utf8(e.content.as_slice()) {
                    return Err(XmlError { kind: XmlErrorKind::BadName, offset: e.offset });
                }
                if classify(e.content.as_slice()) != tag {
                    return Err(XmlError { kind: XmlErrorKind::UnmatchedTag, offset: e.offset });
                }
                let trimmed_text = trim(text.as_str());
                return match convert_primitive(tag, trimmed_text, attrs) {
                    Ok(v) => Ok((v, p + 1)),
                    Err(kind) => Err(XmlError { kind, offset: e.offset }),
                };
            },
            XmlEventKind::Comment => {
                p = p + 1;
            },
            XmlEventKind::Error => {
                return Err(XmlError { kind: XmlErrorKind::Syntax, offset: e.offset });
            },
            _ => {
                return Err(XmlError { kind: XmlErrorKind::UnexpectedEvent, offset: e.offset });
            },
        }
    }
}

/// Reads the value of the element whose start tag is the event at `at`.
/// Recursive.
fn parse_value(events: &Vec<XmlEvent>, at: usize, end: usize) -> (r: Result<
    (LLSDValue, usize),
    XmlError,
>)
    requires
        at < events@.len(),
    ensures
        agrees(r, events@, element(events@[at as int]@, tokens(events@).skip(at + 1), end)),
        r is Ok ==> at + 1 < r->Ok_0.1,
    decreases events@.len() - at - 1, 2nat,
{
    let len = events.len();
    assert(at < len);
    let start = &events[at];
    let name = tag_name(start.content.as_slice());
    if !is_utf8(name) {
        return Err(XmlError { kind: XmlErrorKind::BadName, offset: start.offset });
    }
    let tag = classify(name);
    match tag {
        Tag::Mapping => parse_map(events, at + 1, end),
        Tag::Array => parse_array(events, at + 1, end),
        Tag::Llsd | Tag::Key | Tag::Unknown => Err(
            XmlError { kind: XmlErrorKind::UnknownType, offset: start.offset },
        ),
        _ => parse_primitive_value(
            events,
            at + 1,
            tag,
            tag_attributes(start.content.as_slice()),
            end,
        ),
    }
}

/// Reads the items of an array whose start tag came just before `pos`.
fn parse_array(events: &Vec<XmlEvent>, pos: usize, end: usize) -> (r: Result<
    (LLSDValue, usize),
    XmlError,
>)
    requires
        pos <= events@.len(),
    ensures
        agrees(r, events@, array_items(tokens(events@).skip(pos as int), Seq::empty(), end)),
        r is Ok ==> pos < r->Ok_0.1,
    decreases events@.len() - pos, 1nat,
{
    let mut items: Vec<LLSDValue> = Vec::new();
    let mut p: usize = pos;
    assert(items_view(items@) =~= Seq::<Value>::empty());
    loop
        invariant
            pos <= p <= events@.len(),
            array_items(tokens(events@).skip(pos as int), Seq::empty(), end) == array_items(
                tokens(events@).skip(p as int),
                items_view(items@),
                end,
            ),
        decreases events@.len() - p,
    {
        if p >= events.len() {
            return Err(XmlError { kind: XmlErrorKind::UnexpectedEnd, offset: end });
        }
        proof {
            lemma_tokens_step(events@, p as int);
        }
        let e = &events[p];
        match e.kind {
            XmlEventKind::Start => {
                let ghost before = items_view(items@);
                let (value, next) = parse_value(events, p, end)?;
                items.push(value);
                assert(items_view(items@) =~= before.push(value@));
                p = next;
            },
            XmlEventKind::Text => {
                if xml_text(e.content.as_slice()).is_none() {
                    return Err(XmlError { kind: XmlErrorKind::BadText, offset: e.offset });
                }
                p = p + 1;
            },
            XmlEventKind::End => {
                if !is_utf8(e.content.as_slice()) {
                    return Err(XmlError { kind: XmlErrorKind::BadName, offset: e.offset });
                }
                if classify(e.content.as_slice()) != Tag::Array {
                    return Err(XmlError { kind: XmlErrorKind::UnmatchedTag, offset: e.offset });
                }
                return Ok((LLSDValue::Array(items), p + 1));
            },
            XmlEventKind::Comment => {
                p = p + 1;
            },
            XmlEventKind::Error => {
                return Err(XmlError { kind: XmlErrorKind::Syntax, offset: e.offset });
            },
            XmlEventKind::Other => {
                return Err(XmlError { kind: XmlErrorKind::UnexpectedEvent, offset: e.offset });
            },
        }
    }
}

/// Reads the entries of a map whose start tag came just before `pos`.
fn parse_map(events: &Vec<XmlEvent>, pos: usize, end: usize) -> (r: Result<
    (LLSDValue, usize),
    XmlError,
>)
    requires
        pos <= events@.len(),
    ensures
        agrees(r, events@, map_entries(tokens(events@).skip(pos as int), Entries::empty(), end)),
        r is Ok ==> pos < r->Ok_0.1,
    decreases events@.len() - pos, 1nat,
{
    let mut map = LLSDMap::new();
    let mut p: usize = pos;
    loop
        invariant
            pos <= p <= events@.len(),
            map_entries(tokens(events@).skip(pos as int), Entries::empty(), end) == map_entries(
                tokens(events@).skip(p as int),
                map@,
                end,
            ),
        decreases events@.len() - p,
    {
        if p >= events.len() {
            return Err(XmlError { kind: XmlErrorKind::UnexpectedEnd, offset: end });
        }
        proof {
            lemma_tokens_step(events@, p as int);
        }
        let e = &events[p];
        match e.kind {
            XmlEventKind::Start => {
                let name = tag_name(e.content.as_slice());
                if !is_utf8(name) {
                    return Err(XmlError { kind: XmlErrorKind::BadName, offset: e.offset });
                }
                if classify(name) != Tag::Key {
                    return Err(XmlError { kind: XmlErrorKind::ExpectedKey, offset: e.offset });
                }
                let (key, value, next) = parse_map_entry(events, p + 1, end)?;
                map.insert(key, value);
                p = next;
            },
            XmlEventKind::Text => {
                if xml_text(e.content.as_slice()).is_none() {
                    return Err(XmlError { kind: XmlErrorKind::BadText, offset: e.offset });
                }
                p = p + 1;
            },
            XmlEventKind::End => {
                if !is_utf8(e.content.as_slice()) {
                    return Err(XmlError { kind: XmlErrorKind::BadName, offset: e.offset });
                }
                if classify(e.content.as_slice()) != Tag::Mapping {
                    return Err(XmlError { kind: XmlErrorKind::UnmatchedTag, offset: e.offset });
                }
                return Ok((LLSDValue::Mapping(map), p + 1));
            },
            XmlEventKind::Comment => {
                p = p + 1;
            },
            XmlEventKind::Error => {
                return Err(XmlError { kind: XmlErrorKind::Syntax, offset: e.offset });
            },
            XmlEventKind::Other => {
                return Err(XmlError { kind: XmlErrorKind::UnexpectedEvent, offset: e.offset });
            },
        }
    }
}

/// Reads one map entry, `<key>text</key>` and a value, from after the start
/// tag of the key.
fn parse_map_entry(events: &Vec<XmlEvent>, pos: usize, end: usize) -> (r: Result<
    (String, LLSDValue, usize),
    XmlError,
>)
    requires
        pos <= events@.len(),
    ensures
        match map_entry(tokens(events@).skip(pos as int), Seq::empty(), end) {
            Ok(((key, v), rest)) => r is Ok && r->Ok_0.0@ == key && r->Ok_0.1@ == v && pos
                < r->Ok_0.2 <= events@.len() && tokens(events@).skip(r->Ok_0.2 as int) == rest,
            Err(e) => r == Err::<(String, LLSDValue, usize), XmlError>(e),
        },
    decreases events@.len() - pos, 0nat,
{
    let mut text = String::new();
    let mut any = false;
    let ghost mut pieces: Seq<Seq<char>> = Seq::empty();
    let mut p: usize = pos;
    loop
        invariant
            pos <= p <= events@.len(),
            text@ == joined(pieces),
            any == (pieces.len() > 0),
            map_entry(tokens(events@).skip(pos as int), Seq::empty(), end) == map_entry(
                tokens(events@).skip(p as int),
                pieces,
                end,
            ),
        decreases events@.len() - p,
    {
        if p >= events.len() {
            return Err(XmlError { kind: XmlErrorKind::UnexpectedEnd, offset: end });
        }
        proof {
            lemma_tokens_step(events@, p as int);
        }
        let e = &events[p];
        match e.kind {
            XmlEventKind::Start => {
                if !is_utf8(tag_name(e.content.as_slice())) {
                    return Err(XmlError { kind: XmlErrorKind::BadName, offset: e.offset });
                }
                return Err(XmlError { kind: XmlErrorKind::ExpectedKey, offset: e.offset });
            },
            XmlEventKind::Text => {
                match xml_text(e.content.as_slice()) {
                    Some(t) => {
                        if any {
                            push_char(&mut text, ' ');
                        }
                        text.append(t.as_str());
                        proof {
                            let more = pieces.push(t@);
                            assert(more.drop_last() =~= pieces);
                            assert(text@ =~= joined(more));
                            pieces = more;
                        }
                        any = true;
                        p = p + 1;
                    },
                    None => {
                        return Err(XmlError { kind: XmlErrorKind::BadText, offset: e.offset });
                    },
                }
            },
            XmlEventKind::End => {
                if !is_utf8(e.content.as_slice()) {
                    return Err(XmlError { kind: XmlErrorKind::BadName, offset: e.offset });
                }
                if classify(e.content.as_slice()) != Tag::Key {
                    return Err(XmlError { kind: XmlErrorKind::UnmatchedTag, offset: e.offset });
                }
                let key = trim(text.as_str());
                if events.len() - p < 2 {
                    return Err(XmlError { kind: XmlErrorKind::UnexpectedEvent, offset: end });
                }
                let next = &events[p + 1];
                match next.kind {
                    XmlEventKind::Start => {
                        let (value, after) = parse_value(events, p + 1, end)?;
                        return Ok((key, value, after));
                    },
                    _ => {
                        return Err(
                            XmlError { kind: XmlErrorKind::UnexpectedEvent, offset: next.offset },
                        );
                    },
                }
            },
            XmlEventKind::Comment => {
                p = p + 1;
            },
            XmlEventKind::Error => {
                return Err(XmlError { kind: XmlErrorKind::Syntax, offset: e.offset });
            },
            XmlEventKind::Other => {
                return Err(XmlError { kind: XmlErrorKind::UnexpectedEvent, offset: e.offset });
            },
        }
    }
}

/// Reads a document from its events: one `llsd` element around one value.
/// `end` is the length of the document, the offset that is reported where
/// it ends too early.
pub fn decode_events(events: &Vec<XmlEvent>, end: usize) -> (r: Result<LLSDValue, XmlError>)
    ensures
        match document(tokens(events@), None, end) {
            Ok(v) => r is Ok && r->Ok_0@ == v,
            Err(e) => r == Err::<LLSDValue, XmlError>(e),
        },
{
    let mut output: Option<LLSDValue> = None;
    let mut p: usize = 0;
    assert(tokens(events@).skip(0) =~= tokens(events@));
    loop
        invariant
            p <= events@.len(),
            document(tokens(events@), None, end) == document(
                tokens(events@).skip(p as int),
                match output {
                    Some(v) => Some(v@),
                    None => None,
                },
                end,
            ),
        decreases events@.len() - p,
    {
        if p >= events.len() {
            return match output {
                Some(out) => Ok(out),
                None => Err(XmlError { kind: XmlErrorKind::NoLlsd, offset: end }),
            };
        }
        proof {
            lemma_tokens_step(events@, p as int);
        }
        let e = &events[p];
        match e.kind {
            XmlEventKind::Start => {
                if classify(tag_name(e.content.as_slice())) != Tag::Llsd {
                    return Err(XmlError { kind: XmlErrorKind::ExpectedLlsd, offset: e.offset });
                }
                if output.is_some() {
                    return Err(XmlError { kind: XmlErrorKind::DuplicateLlsd, offset: e.offset });
                }
                if events.len() - p < 2 {
                    return Err(XmlError { kind: XmlErrorKind::ExpectedValue, offset: end });
                }
                let next = &events[p + 1];
                match next.kind {
                    XmlEventKind::Start => {
                        let (value, after) = parse_value(events, p + 1, end)?;
                        output = Some(value);
                        p = after;
                    },
                    _ => {
                        return Err(
                            XmlError { kind: XmlErrorKind::ExpectedValue, offset: next.offset },
                        );
                    },
                }
            },
            XmlEventKind::Error => {
                return Err(XmlError { kind: XmlErrorKind::Syntax, offset: e.offset });
            },
            _ => {
                p = p + 1;
            },
        }
    }
}

/// Splits a document into its events.
pub fn read_events(input: &[u8]) -> (events: Vec<XmlEvent>)
    ensures
        tokens(events@) == xml_events(input@),
{
    let mut reader = xml_reader(input);
    let mut events: Vec<XmlEvent> = Vec::new();
    let ghost all = xml_events(input@);
    assert(tokens(events@) =~= all.take(0));
    assert(all.skip(0) =~= all);
    loop
        invariant
            all == xml_events(input@),
            events@.len() <= all.len(),
            tokens(events@) == all.take(events@.len() as int),
            reader.pending() == all.skip(events@.len() as int),
        ensures
            tokens(events@) == all,
        decreases reader.pending().len(),
    {
        let ghost n = events@.len() as int;
        match read_event(&mut reader) {
            Some(e) => {
                events.push(e);
                assert(all.skip(n).skip(1) =~= all.skip(n + 1));
                assert(tokens(events@) =~= all.take(n + 1));
            },
            None => {
                assert(all.take(n) =~= all);
                break ;
            },
        }
    }
    events
}

/// Parse LLSD expressed in XML, given as bytes, into a tree of values.
pub fn from_bytes(xml: &[u8]) -> (r: Result<LLSDValue, XmlError>)
    ensures
        match decoded(xml@) {
            Ok(v) => r is Ok && r->Ok_0@ == v,
            Err(e) => r == Err::<LLSDValue, XmlError>(e),
        },
{
    let events = read_events(xml);
    decode_events(&events, xml.len())
}

/// Parse LLSD expressed in XML into a tree of values.
pub fn from_str(xmlstr: &str) -> (r: Result<LLSDValue, XmlError>)
    ensures
        match decoded(xmlstr.spec_bytes()) {
            Ok(v) => r is Ok && r->Ok_0@ == v,
            Err(e) => r == Err::<LLSDValue, XmlError>(e),
        },
{
    from_bytes(xmlstr.as_bytes())
}

} // verus!
