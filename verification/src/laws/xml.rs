//! Laws of the XML encoding, on the events of a document.
//!
//! The text of a document is split into events by `quick_xml`, and nothing
//! is proved of that step. What is proved is that the decoder reads a tree
//! back from the events that stand for it, whatever their offsets, and so
//! from any text that is split into those events.
use vstd::prelude::*;
use vstd::utf8::{
    encode_utf8, encode_utf8_valid_utf8, is_ascii_chars, is_ascii_chars_encode_utf8, valid_utf8,
};
use crate::de::xml::{
    array_items, attributes_of, binary_of, content, convert, document, element, fail, is_tag_space,
    joined, map_entries, map_entry, NAME_ARRAY, NAME_BINARY, NAME_BOOLEAN, NAME_DATE, NAME_INTEGER,
    NAME_KEY, name_len, NAME_LLSD, NAME_MAP, name_of, NAME_REAL, NAME_STRING, NAME_UNDEF, NAME_URI,
    NAME_UUID, nan_bits, primitive, tag_of, trimmed, Tag, Token, XmlEventKind,
};
use crate::error::{XmlError, XmlErrorKind};
use crate::laws::notation::lemma_hyphenated_len;
use crate::outside::{
    base64_decoded, base64_text, hyphenated, rfc3339_seconds, rfc3339_text, uuid_parsed,
    xml_attribute_list, xml_events, xml_text_decoded,
};
use crate::ser::xml::xml_escaped;
use crate::text::{is_real_literal, lemma_int_text_round_trip, spells, text_of_int};
use crate::value::{
    distinct_keys, insert_entry, lemma_fresh_key, well_formed, Entries, Real, Value,
};

verus! {

/// A start tag without attributes.
pub open spec fn start(name: Seq<u8>) -> Token {
    Token { kind: XmlEventKind::Start, content: name, offset: 0 }
}

/// An end tag.
pub open spec fn end_of(name: Seq<u8>) -> Token {
    Token { kind: XmlEventKind::End, content: name, offset: 0 }
}

/// A text, escaped as the encoder escapes it.
pub open spec fn text_of(text: Seq<char>) -> Token {
    Token { kind: XmlEventKind::Text, content: encode_utf8(xml_escaped(text)), offset: 0 }
}

/// What follows the name in the start tag of an element with the given
/// text: an element without text is written as one empty tag, with a space
/// after its name.
pub open spec fn spare(text: Seq<char>) -> Seq<u8> {
    if text.len() == 0 {
        seq![0x20u8]
    } else {
        Seq::empty()
    }
}

/// The events of an element with text: a start tag, the text unless it is
/// empty, an end tag.
pub open spec fn leaf_events(name: Seq<u8>, text: Seq<char>) -> Seq<Token> {
    if text.len() == 0 {
        seq![start(name + spare(text)), end_of(name)]
    } else {
        seq![start(name), text_of(text), end_of(name)]
    }
}

/// The name of the element of a value.
pub open spec fn name_for(v: Value) -> Seq<u8> {
    match v {
        Value::Undefined => NAME_UNDEF@,
        Value::Boolean(_) => NAME_BOOLEAN@,
        Value::Real(_) => NAME_REAL@,
        Value::Integer(_) => NAME_INTEGER@,
        Value::Uuid(_) => NAME_UUID@,
        Value::String(_) => NAME_STRING@,
        Value::Date(_) => NAME_DATE@,
        Value::Uri(_) => NAME_URI@,
        Value::Binary(_) => NAME_BINARY@,
        Value::Mapping(_) => NAME_MAP@,
        Value::Array(_) => NAME_ARRAY@,
    }
}

/// The text of the element of a primitive value.
pub open spec fn text_for(v: Value) -> Seq<char> {
    match v {
        Value::Boolean(b) => if b {
            seq!['t', 'r', 'u', 'e']
        } else {
            seq!['f', 'a', 'l', 's', 'e']
        },
        Value::Real(Real::Decimal(t)) => t,
        Value::Real(Real::Bits(_)) => seq!['n', 'a', 'n'],
        Value::Integer(i) => text_of_int(i as int),
        Value::Uuid(u) => hyphenated(u),
        Value::String(s) => s,
        Value::Date(d) => rfc3339_text(d)->0,
        Value::Uri(s) => s,
        Value::Binary(b) => base64_text(b),
        _ => Seq::empty(),
    }
}

/// The events that stand for a value.
pub open spec fn events_of(v: Value) -> Seq<Token>
    decreases v, 0nat,
{
    match v {
        Value::Mapping(entries) => seq![start(NAME_MAP@)] + entries_events(entries) + seq![
            end_of(NAME_MAP@),
        ],
        Value::Array(items) => seq![start(NAME_ARRAY@)] + items_events(items) + seq![
            end_of(NAME_ARRAY@),
        ],
        _ => leaf_events(name_for(v), text_for(v)),
    }
}

/// The events that stand for the items of an array.
pub open spec fn items_events(items: Seq<Value>) -> Seq<Token>
    decreases items, 1nat,
{
    if items.len() == 0 {
        Seq::empty()
    } else {
        events_of(items[0]) + items_events(items.skip(1))
    }
}

/// The events that stand for the entries of a map: for each a `key`
/// element, then the value.
pub open spec fn entries_events(entries: Entries) -> Seq<Token>
    decreases entries, 1nat,
{
    if entries.len() == 0 {
        Seq::empty()
    } else {
        leaf_events(NAME_KEY@, entries[0].0) + events_of(entries[0].1) + entries_events(
            entries.skip(1),
        )
    }
}

/// The events that stand for a document.
pub open spec fn document_events(v: Value) -> Seq<Token> {
    seq![start(NAME_LLSD@)] + events_of(v) + seq![end_of(NAME_LLSD@)]
}

/// A text that comes through XML as it is: it has no white space at its
/// ends, and `quick_xml` reads it back from its escaped form. The second is
/// taken on trust.
pub open spec fn survives(t: Seq<char>) -> bool {
    &&& trimmed(t) == t
    &&& t.len() > 0 ==> xml_text_decoded(encode_utf8(xml_escaped(t))) == Some(t)
}

/// A tree that XML can carry: its texts and keys survive; a real number is
/// a numeral other than `nan`, or the NaN that `nan` stands for; the
/// crates that wrote its UUIDs, dates and binary values read them back; and
/// `quick_xml` finds no attribute in the start tag of a binary value.
pub open spec fn carried(v: Value) -> bool
    decreases v,
{
    match v {
        Value::Undefined => true,
        Value::Real(Real::Decimal(t)) => survives(t) && is_real_literal(t) && !spells(
            t,
            0,
            seq!['n', 'a', 'n'],
        ),
        Value::Real(Real::Bits(bits)) => bits == nan_bits() && survives(text_for(v)),
        Value::Uuid(u) => survives(text_for(v)) && uuid_parsed(hyphenated(u)) == Some(u),
        Value::Date(d) => rfc3339_text(d) is Some && survives(text_for(v)) && rfc3339_seconds(
            text_for(v),
        ) == Some(d),
        Value::Binary(b) => survives(text_for(v)) && base64_decoded(base64_text(b)) == Some(b)
            && xml_attribute_list(spare(text_for(v))).len() == 0,
        Value::Mapping(entries) => forall|i: int|
            0 <= i < entries.len() ==> survives(#[trigger] entries[i].0) && carried(entries[i].1),
        Value::Array(items) => forall|i: int|
            0 <= i < items.len() ==> carried(#[trigger] items[i]),
        _ => survives(text_for(v)),
    }
}

/// A name of ASCII bytes without white space is UTF-8, and is the whole of
/// a start tag that holds nothing else. In a start tag that holds a space
/// after it, it is the name and the space is the rest.
pub proof fn lemma_plain_name(name: Seq<u8>)
    requires
        forall|i: int| 0 <= i < name.len() ==> 0x21 <= #[trigger] name[i] < 0x7f,
    ensures
        valid_utf8(name),
        name_of(name) == name,
        attributes_of(name) == Seq::<u8>::empty(),
        name_of(name + seq![0x20u8]) == name,
        attributes_of(name + seq![0x20u8]) == seq![0x20u8],
{
    lemma_spaced_name_len(name);
    assert((name + seq![0x20u8]).take(name.len() as int) =~= name);
    assert((name + seq![0x20u8]).skip(name.len() as int) =~= seq![0x20u8]);
    let chars = name.map_values(|b: u8| b as char);
    assert(is_ascii_chars(chars)) by {
        assert forall|i: int| 0 <= i < chars.len() implies 0 <= (#[trigger] chars[i] as nat)
            < 128 by {
            assert(chars[i] == name[i] as char);
        }
    }
    is_ascii_chars_encode_utf8(chars);
    assert(encode_utf8(chars) =~= name) by {
        assert forall|i: int| 0 <= i < name.len() implies encode_utf8(chars)[i] == name[i] by {
            assert(chars[i] as u8 == name[i]);
        }
    }
    encode_utf8_valid_utf8(chars);
    lemma_name_len(name);
    assert(name.take(name.len() as int) =~= name);
    assert(name.skip(name.len() as int) =~= Seq::<u8>::empty());
}

/// A name without white space has its own length.
proof fn lemma_name_len(name: Seq<u8>)
    requires
        forall|i: int| 0 <= i < name.len() ==> !is_tag_space(#[trigger] name[i]),
    ensures
        name_len(name) == name.len(),
    decreases name.len(),
{
    if name.len() > 0 {
        assert forall|i: int| 0 <= i < name.skip(1).len() implies !is_tag_space(
            #[trigger] name.skip(1)[i],
        ) by {
            assert(name.skip(1)[i] == name[i + 1]);
        }
        lemma_name_len(name.skip(1));
    }
}

/// A name without white space ends at the space that follows it.
proof fn lemma_spaced_name_len(name: Seq<u8>)
    requires
        forall|i: int| 0 <= i < name.len() ==> !is_tag_space(#[trigger] name[i]),
    ensures
        name_len(name + seq![0x20u8]) == name.len(),
    decreases name.len(),
{
    let spaced = name + seq![0x20u8];
    if name.len() > 0 {
        assert(spaced[0] == name[0]);
        assert(spaced.skip(1) =~= name.skip(1) + seq![0x20u8]);
        assert forall|i: int| 0 <= i < name.skip(1).len() implies !is_tag_space(
            #[trigger] name.skip(1)[i],
        ) by {
            assert(name.skip(1)[i] == name[i + 1]);
        }
        lemma_spaced_name_len(name.skip(1));
    } else {
        assert(spaced[0] == 0x20u8);
    }
}

/// The names of the elements are told apart.
pub proof fn lemma_names()
    ensures
        tag_of(NAME_UNDEF@) == Tag::Undef,
        tag_of(NAME_BOOLEAN@) == Tag::Boolean,
        tag_of(NAME_INTEGER@) == Tag::Integer,
        tag_of(NAME_REAL@) == Tag::Real,
        tag_of(NAME_STRING@) == Tag::String,
        tag_of(NAME_URI@) == Tag::Uri,
        tag_of(NAME_UUID@) == Tag::Uuid,
        tag_of(NAME_DATE@) == Tag::Date,
        tag_of(NAME_BINARY@) == Tag::Binary,
        tag_of(NAME_MAP@) == Tag::Mapping,
        tag_of(NAME_ARRAY@) == Tag::Array,
        tag_of(NAME_LLSD@) == Tag::Llsd,
        tag_of(NAME_KEY@) == Tag::Key,
{
    assert(NAME_UNDEF@.len() == 5 && NAME_UNDEF@[0] == 0x75);
    assert(NAME_BOOLEAN@.len() == 7 && NAME_BOOLEAN@[0] == 0x62);
    assert(NAME_INTEGER@.len() == 7 && NAME_INTEGER@[0] == 0x69);
    assert(NAME_REAL@.len() == 4 && NAME_REAL@[0] == 0x72);
    assert(NAME_STRING@.len() == 6 && NAME_STRING@[0] == 0x73);
    assert(NAME_URI@.len() == 3 && NAME_URI@[0] == 0x75);
    assert(NAME_UUID@.len() == 4 && NAME_UUID@[0] == 0x75);
    assert(NAME_DATE@.len() == 4 && NAME_DATE@[0] == 0x64);
    assert(NAME_BINARY@.len() == 6 && NAME_BINARY@[0] == 0x62);
    assert(NAME_MAP@.len() == 3 && NAME_MAP@[0] == 0x6d);
    assert(NAME_ARRAY@.len() == 5 && NAME_ARRAY@[0] == 0x61);
    assert(NAME_LLSD@.len() == 4 && NAME_LLSD@[0] == 0x6c);
    assert(NAME_KEY@.len() == 3 && NAME_KEY@[0] == 0x6b);
}

/// The name of the element of a value is a plain name, and tells the kind
/// of the value.
pub proof fn lemma_name_for(v: Value)
    ensures
        valid_utf8(name_for(v)),
        name_of(name_for(v)) == name_for(v),
        attributes_of(name_for(v)) == Seq::<u8>::empty(),
        name_of(name_for(v) + seq![0x20u8]) == name_for(v),
        attributes_of(name_for(v) + seq![0x20u8]) == seq![0x20u8],
        tag_of(name_for(v)) == (match v {
            Value::Undefined => Tag::Undef,
            Value::Boolean(_) => Tag::Boolean,
            Value::Real(_) => Tag::Real,
            Value::Integer(_) => Tag::Integer,
            Value::Uuid(_) => Tag::Uuid,
            Value::String(_) => Tag::String,
            Value::Date(_) => Tag::Date,
            Value::Uri(_) => Tag::Uri,
            Value::Binary(_) => Tag::Binary,
            Value::Mapping(_) => Tag::Mapping,
            Value::Array(_) => Tag::Array,
        }),
{
    lemma_names();
    lemma_plain_name(name_for(v));
}

/// The text of an element that survives is what the decoder takes for the
/// content of the element.
#[verifier::rlimit(50)]
pub proof fn lemma_leaf(
    name: Seq<u8>,
    attributes: Seq<u8>,
    text: Seq<char>,
    tail: Seq<Token>,
    end: usize,
)
    requires
        survives(text),
        valid_utf8(name),
        tag_of(name) != Tag::Unknown,
    ensures
        primitive(
            tag_of(name),
            attributes,
            leaf_events(name, text).skip(1) + tail,
            Seq::empty(),
            end,
        ) == (match convert(tag_of(name), text, attributes) {
            Ok(v) => Ok::<(Value, Seq<Token>), XmlError>((v, tail)),
            Err(kind) => Err::<(Value, Seq<Token>), XmlError>(fail(kind, 0)),
        }),
{
    let tag = tag_of(name);
    let ev = leaf_events(name, text).skip(1) + tail;
    let none = Seq::<Seq<char>>::empty();
    if text.len() == 0 {
        assert(ev =~= seq![end_of(name)] + tail);
        assert(ev[0] == end_of(name));
        assert(ev.skip(1) =~= tail);
        assert(joined(none) =~= text);
        assert(content(none) == text);
    } else {
        assert(ev =~= seq![text_of(text), end_of(name)] + tail);
        assert(ev[0] == text_of(text));
        let after = ev.skip(1);
        assert(after =~= seq![end_of(name)] + tail);
        assert(after[0] == end_of(name));
        assert(after.skip(1) =~= tail);
        let one = none.push(text);
        assert(one.len() == 1 && one[0] == text);
        assert(joined(one) == text);
        assert(content(one) == text);
        assert(primitive(tag, attributes, ev, none, end) == primitive(
            tag,
            attributes,
            after,
            one,
            end,
        ));
    }
}

/// The text of a primitive value that XML can carry is converted back to
/// the value.
#[verifier::rlimit(50)]
pub proof fn lemma_convert(v: Value)
    requires
        !(v is Mapping) && !(v is Array),
        well_formed(v),
        carried(v),
    ensures
        convert(tag_of(name_for(v)), text_for(v), spare(text_for(v))) == Ok::<Value, XmlErrorKind>(
            v,
        ),
{
    lemma_names();
    match v {
        Value::Integer(i) => {
            lemma_int_text_round_trip(i);
            crate::text::lemma_digits_of(0);
            assert(text_for(v).len() > 0) by {
                if i < 0 {
                } else {
                    crate::text::lemma_digits_of(i as nat);
                }
            }
        },
        Value::Uuid(u) => {
            lemma_hyphenated_len(u);
        },
        Value::Real(x) => {
            match x {
                Real::Bits(_) => {
                    let nan = seq!['n', 'a', 'n'];
                    assert(spells(nan, 0, nan));
                },
                Real::Decimal(_) => {},
            }
        },
        Value::Binary(b) => {
            assert(binary_of(text_for(v), spare(text_for(v))) == Ok::<Value, XmlErrorKind>(v));
        },
        _ => {},
    }
}

/// The events of a value begin with a start tag of its name, and there are
/// two or more.
pub proof fn lemma_events_head(v: Value)
    ensures
        events_of(v).len() >= 2,
        events_of(v)[0].kind is Start,
        name_of(events_of(v)[0].content) == name_for(v),
        !(v is Mapping) && !(v is Array) ==> attributes_of(events_of(v)[0].content) == spare(
            text_for(v),
        ),
{
    lemma_name_for(v);
}

/// A primitive value is read back from its events.
#[verifier::rlimit(50)]
proof fn lemma_primitive_round_trip(v: Value, tail: Seq<Token>, end: usize)
    requires
        !(v is Mapping) && !(v is Array),
        well_formed(v),
        carried(v),
    ensures
        element(events_of(v)[0], events_of(v).skip(1) + tail, end) == Ok::<
            (Value, Seq<Token>),
            XmlError,
        >((v, tail)),
{
    lemma_name_for(v);
    lemma_events_head(v);
    lemma_convert(v);
    assert(survives(text_for(v))) by {
        if v is Undefined {
            assert(trimmed(Seq::<char>::empty()) == Seq::<char>::empty());
        }
    }
    lemma_leaf(name_for(v), spare(text_for(v)), text_for(v), tail, end);
}

/// The items of an array are read back from their events.
#[verifier::rlimit(80)]
proof fn lemma_items_round_trip(items: Seq<Value>, done: Seq<Value>, tail: Seq<Token>, end: usize)
    requires
        forall|i: int| 0 <= i < items.len() ==> well_formed(#[trigger] items[i]),
        forall|i: int| 0 <= i < items.len() ==> carried(#[trigger] items[i]),
    ensures
        array_items(items_events(items) + seq![end_of(NAME_ARRAY@)] + tail, done, end) == Ok::<
            (Value, Seq<Token>),
            XmlError,
        >((Value::Array(done + items), tail)),
    decreases items, 1nat,
{
    let ev = items_events(items) + seq![end_of(NAME_ARRAY@)] + tail;
    lemma_names();
    lemma_plain_name(NAME_ARRAY@);
    if items.len() == 0 {
        assert(ev =~= seq![end_of(NAME_ARRAY@)] + tail);
        assert(ev[0] == end_of(NAME_ARRAY@));
        assert(ev.skip(1) =~= tail);
        assert(done + items =~= done);
    } else {
        let first = items[0];
        let others = items.skip(1);
        let after = items_events(others) + seq![end_of(NAME_ARRAY@)] + tail;
        lemma_events_head(first);
        assert(ev =~= events_of(first) + after);
        assert(ev[0] == events_of(first)[0]);
        assert(ev.skip(1) =~= events_of(first).skip(1) + after);
        lemma_round_trip(first, after, end);
        assert forall|i: int| 0 <= i < others.len() implies well_formed(#[trigger] others[i])
            && carried(others[i]) by {
            assert(others[i] == items[i + 1]);
        }
        lemma_items_round_trip(others, done.push(first), tail, end);
        assert(done.push(first) + others =~= done + items);
    }
}

/// The key of an entry and its value are read back from their events.
#[verifier::rlimit(80)]
proof fn lemma_entry_round_trip(key: Seq<char>, value: Value, after: Seq<Token>, end: usize)
    requires
        survives(key),
        events_of(value).len() >= 2,
        events_of(value)[0].kind is Start,
        element(events_of(value)[0], events_of(value).skip(1) + after, end) == Ok::<
            (Value, Seq<Token>),
            XmlError,
        >((value, after)),
    ensures
        map_entry(leaf_events(NAME_KEY@, key).skip(1) + events_of(value) + after, Seq::empty(), end)
            == Ok::<((Seq<char>, Value), Seq<Token>), XmlError>(((key, value), after)),
{
    lemma_names();
    lemma_plain_name(NAME_KEY@);
    let none = Seq::<Seq<char>>::empty();
    let ev = leaf_events(NAME_KEY@, key).skip(1) + events_of(value) + after;
    let closing = seq![end_of(NAME_KEY@)] + events_of(value) + after;
    assert(closing[0] == end_of(NAME_KEY@));
    assert(closing[1] == events_of(value)[0]);
    assert(closing.skip(2) =~= events_of(value).skip(1) + after);
    if key.len() == 0 {
        assert(ev =~= closing);
        assert(joined(none) =~= key);
        assert(content(none) == key);
    } else {
        assert(ev =~= seq![text_of(key)] + closing);
        assert(ev[0] == text_of(key));
        assert(ev.skip(1) =~= closing);
        let one = none.push(key);
        assert(one.len() == 1 && one[0] == key);
        assert(joined(one) == key);
        assert(content(one) == key);
        assert(map_entry(ev, none, end) == map_entry(closing, one, end));
    }
}

/// The entries of a map with distinct keys are read back from their
/// events.
#[verifier::rlimit(80)]
proof fn lemma_entries_round_trip(entries: Entries, done: Entries, tail: Seq<Token>, end: usize)
    requires
        forall|i: int| 0 <= i < entries.len() ==> well_formed(#[trigger] entries[i].1),
        forall|i: int|
            0 <= i < entries.len() ==> survives(#[trigger] entries[i].0) && carried(entries[i].1),
        distinct_keys(done + entries),
    ensures
        map_entries(entries_events(entries) + seq![end_of(NAME_MAP@)] + tail, done, end) == Ok::<
            (Value, Seq<Token>),
            XmlError,
        >((Value::Mapping(done + entries), tail)),
    decreases entries, 1nat,
{
    let ev = entries_events(entries) + seq![end_of(NAME_MAP@)] + tail;
    lemma_names();
    lemma_plain_name(NAME_MAP@);
    lemma_plain_name(NAME_KEY@);
    if entries.len() == 0 {
        assert(ev =~= seq![end_of(NAME_MAP@)] + tail);
        assert(ev[0] == end_of(NAME_MAP@));
        assert(ev.skip(1) =~= tail);
        assert(done + entries =~= done);
    } else {
        let key = entries[0].0;
        let value = entries[0].1;
        let others = entries.skip(1);
        let after = entries_events(others) + seq![end_of(NAME_MAP@)] + tail;
        let open = leaf_events(NAME_KEY@, key);
        assert(ev =~= open + events_of(value) + after);
        assert(ev[0] == open[0]);
        assert(ev.skip(1) =~= open.skip(1) + events_of(value) + after);
        lemma_events_head(value);
        lemma_round_trip(value, after, end);
        lemma_entry_round_trip(key, value, after, end);
        lemma_fresh_key(done, entries);
        assert forall|i: int| 0 <= i < others.len() implies well_formed(#[trigger] others[i].1)
            && survives(others[i].0) && carried(others[i].1) by {
            assert(others[i] == entries[i + 1]);
        }
        lemma_entries_round_trip(others, done.push(entries[0]), tail, end);
    }
}

/// The decoder reads a tree back from the events that stand for it: a
/// well-formed tree that XML can carry, whatever events follow its own, and
/// those are left over.
pub proof fn lemma_round_trip(v: Value, tail: Seq<Token>, end: usize)
    requires
        well_formed(v),
        carried(v),
    ensures
        element(events_of(v)[0], events_of(v).skip(1) + tail, end) == Ok::<
            (Value, Seq<Token>),
            XmlError,
        >((v, tail)),
    decreases v, 0nat,
{
    match v {
        Value::Mapping(entries) => {
            lemma_name_for(v);
            let body = entries_events(entries) + seq![end_of(NAME_MAP@)] + tail;
            assert(events_of(v).skip(1) + tail =~= body);
            assert(Entries::empty() + entries =~= entries);
            lemma_entries_round_trip(entries, Entries::empty(), tail, end);
        },
        Value::Array(items) => {
            lemma_name_for(v);
            let body = items_events(items) + seq![end_of(NAME_ARRAY@)] + tail;
            assert(events_of(v).skip(1) + tail =~= body);
            lemma_items_round_trip(items, Seq::empty(), tail, end);
            assert(Seq::<Value>::empty() + items =~= items);
        },
        _ => {
            lemma_primitive_round_trip(v, tail, end);
        },
    }
}

/// The decoder reads a tree back from the events of a document that holds
/// it.
pub proof fn lemma_document_round_trip(v: Value, end: usize)
    requires
        well_formed(v),
        carried(v),
    ensures
        document(document_events(v), None, end) == Ok::<Value, XmlError>(v),
{
    lemma_names();
    lemma_plain_name(NAME_LLSD@);
    lemma_events_head(v);
    lemma_name_for(v);
    let ev = document_events(v);
    let closing = seq![end_of(NAME_LLSD@)];
    assert(ev[0] == start(NAME_LLSD@));
    assert(ev[1] == events_of(v)[0]);
    assert(ev.skip(2) =~= events_of(v).skip(1) + closing);
    lemma_round_trip(v, closing, end);
    assert(closing.skip(1) =~= Seq::<Token>::empty());
    assert(document(closing, Some(v), end) == document(closing.skip(1), Some(v), end));
}

/// An empty `integer` element is 0, and an empty `uuid` element is the nil
/// UUID, with or without a space after the name in the tag.
pub proof fn lemma_empty_elements(tail: Seq<Token>, end: usize)
    ensures
        element(start(NAME_INTEGER@), seq![end_of(NAME_INTEGER@)] + tail, end) == Ok::<
            (Value, Seq<Token>),
            XmlError,
        >((Value::Integer(0), tail)),
        element(start(NAME_INTEGER@ + seq![0x20u8]), seq![end_of(NAME_INTEGER@)] + tail, end)
            == Ok::<(Value, Seq<Token>), XmlError>((Value::Integer(0), tail)),
        element(start(NAME_UUID@), seq![end_of(NAME_UUID@)] + tail, end) == Ok::<
            (Value, Seq<Token>),
            XmlError,
        >((Value::Uuid(crate::de::xml::nil_uuid()), tail)),
        element(start(NAME_UUID@ + seq![0x20u8]), seq![end_of(NAME_UUID@)] + tail, end) == Ok::<
            (Value, Seq<Token>),
            XmlError,
        >((Value::Uuid(crate::de::xml::nil_uuid()), tail)),
{
    lemma_names();
    lemma_plain_name(NAME_INTEGER@);
    lemma_plain_name(NAME_UUID@);
    let none = Seq::<Seq<char>>::empty();
    assert(joined(none) =~= Seq::<char>::empty());
    assert(content(none) =~= Seq::<char>::empty());
    assert(trimmed(content(none)) =~= Seq::<char>::empty());
    let i = seq![end_of(NAME_INTEGER@)] + tail;
    assert(i[0] == end_of(NAME_INTEGER@));
    assert(i.skip(1) =~= tail);
    let u = seq![end_of(NAME_UUID@)] + tail;
    assert(u[0] == end_of(NAME_UUID@));
    assert(u.skip(1) =~= tail);
}

/// An event without its offset.
pub open spec fn unplaced_token(t: Token) -> Token {
    Token { kind: t.kind, content: t.content, offset: 0 }
}

/// Events without their offsets.
pub open spec fn unplaced(ev: Seq<Token>) -> Seq<Token> {
    ev.map_values(|t: Token| unplaced_token(t))
}

/// Two results are alike when both are errors, or both give the same piece
/// and leave the same events, offsets aside.
pub open spec fn alike<T>(
    placed: Result<(T, Seq<Token>), XmlError>,
    plain: Result<(T, Seq<Token>), XmlError>,
) -> bool {
    match placed {
        Ok((x, rest)) => plain is Ok && plain->Ok_0.0 == x && plain->Ok_0.1 == unplaced(rest),
        Err(_) => plain is Err,
    }
}

/// Events without their offsets, one by one.
proof fn lemma_unplaced_step(ev: Seq<Token>)
    ensures
        unplaced(ev).len() == ev.len(),
        ev.len() > 0 ==> unplaced(ev)[0] == unplaced_token(ev[0]) && unplaced(ev).skip(1)
            == unplaced(ev.skip(1)),
        ev.len() > 1 ==> unplaced(ev)[1] == unplaced_token(ev[1]) && unplaced(ev).skip(2)
            == unplaced(ev.skip(2)),
{
    if ev.len() > 0 {
        assert(unplaced(ev).skip(1) =~= unplaced(ev.skip(1)));
    }
    if ev.len() > 1 {
        assert(unplaced(ev).skip(2) =~= unplaced(ev.skip(2)));
    }
}

/// The offsets of events do not count in what a primitive element gives.
proof fn lemma_unplaced_primitive(
    tag: Tag,
    attributes: Seq<u8>,
    ev: Seq<Token>,
    pieces: Seq<Seq<char>>,
    end: usize,
    other_end: usize,
)
    ensures
        alike(
            primitive(tag, attributes, ev, pieces, end),
            primitive(tag, attributes, unplaced(ev), pieces, other_end),
        ),
    decreases ev.len(),
{
    lemma_unplaced_step(ev);
    if ev.len() > 0 {
        let e = ev[0];
        match e.kind {
            XmlEventKind::Text => {
                if let Some(t) = xml_text_decoded(e.content) {
                    lemma_unplaced_primitive(
                        tag,
                        attributes,
                        ev.skip(1),
                        pieces.push(t),
                        end,
                        other_end,
                    );
                }
            },
            XmlEventKind::Comment => {
                lemma_unplaced_primitive(tag, attributes, ev.skip(1), pieces, end, other_end);
            },
            _ => {},
        }
    }
}

/// The offsets of events do not count in what an element gives.
proof fn lemma_unplaced_element(start: Token, ev: Seq<Token>, end: usize, other_end: usize)
    ensures
        alike(element(start, ev, end), element(unplaced_token(start), unplaced(ev), other_end)),
    decreases ev.len(), 2nat,
{
    match tag_of(name_of(start.content)) {
        Tag::Mapping => {
            lemma_unplaced_map(ev, Entries::empty(), end, other_end);
        },
        Tag::Array => {
            lemma_unplaced_array(ev, Seq::empty(), end, other_end);
        },
        Tag::Llsd | Tag::Key | Tag::Unknown => {},
        tag => {
            lemma_unplaced_primitive(
                tag,
                attributes_of(start.content),
                ev,
                Seq::empty(),
                end,
                other_end,
            );
        },
    }
}

/// The offsets of events do not count in what the items of an array give.
proof fn lemma_unplaced_array(ev: Seq<Token>, done: Seq<Value>, end: usize, other_end: usize)
    ensures
        alike(array_items(ev, done, end), array_items(unplaced(ev), done, other_end)),
    decreases ev.len(), 1nat,
{
    lemma_unplaced_step(ev);
    if ev.len() > 0 {
        let e = ev[0];
        match e.kind {
            XmlEventKind::Start => {
                lemma_unplaced_element(e, ev.skip(1), end, other_end);
                if let Ok((v, rest)) = element(e, ev.skip(1), end) {
                    lemma_unplaced_step(rest);
                    if rest.len() < ev.len() {
                        lemma_unplaced_array(rest, done.push(v), end, other_end);
                    }
                }
            },
            XmlEventKind::Text | XmlEventKind::Comment => {
                lemma_unplaced_array(ev.skip(1), done, end, other_end);
            },
            _ => {},
        }
    }
}

/// The offsets of events do not count in what the entries of a map give.
proof fn lemma_unplaced_map(ev: Seq<Token>, done: Entries, end: usize, other_end: usize)
    ensures
        alike(map_entries(ev, done, end), map_entries(unplaced(ev), done, other_end)),
    decreases ev.len(), 1nat,
{
    lemma_unplaced_step(ev);
    if ev.len() > 0 {
        let e = ev[0];
        match e.kind {
            XmlEventKind::Start => {
                lemma_unplaced_entry(ev.skip(1), Seq::empty(), end, other_end);
                if let Ok(((key, v), rest)) = map_entry(ev.skip(1), Seq::empty(), end) {
                    lemma_unplaced_step(rest);
                    if rest.len() < ev.len() {
                        lemma_unplaced_map(rest, insert_entry(done, key, v), end, other_end);
                    }
                }
            },
            XmlEventKind::Text | XmlEventKind::Comment => {
                lemma_unplaced_map(ev.skip(1), done, end, other_end);
            },
            _ => {},
        }
    }
}

/// The offsets of events do not count in what an entry of a map gives.
proof fn lemma_unplaced_entry(
    ev: Seq<Token>,
    pieces: Seq<Seq<char>>,
    end: usize,
    other_end: usize,
)
    ensures
        alike(map_entry(ev, pieces, end), map_entry(unplaced(ev), pieces, other_end)),
    decreases ev.len(), 0nat,
{
    lemma_unplaced_step(ev);
    if ev.len() > 0 {
        let e = ev[0];
        match e.kind {
            XmlEventKind::Text => {
                if let Some(t) = xml_text_decoded(e.content) {
                    lemma_unplaced_entry(ev.skip(1), pieces.push(t), end, other_end);
                }
            },
            XmlEventKind::Comment => {
                lemma_unplaced_entry(ev.skip(1), pieces, end, other_end);
            },
            XmlEventKind::End => {
                if ev.len() >= 2 {
                    lemma_unplaced_element(ev[1], ev.skip(2), end, other_end);
                }
            },
            _ => {},
        }
    }
}

/// The offsets of events do not count in whether a document gives a tree,
/// nor in the tree that it gives.
pub proof fn lemma_unplaced_document(
    ev: Seq<Token>,
    found: Option<Value>,
    end: usize,
    other_end: usize,
)
    ensures
        match document(ev, found, end) {
            Ok(v) => document(unplaced(ev), found, other_end) == Ok::<Value, XmlError>(v),
            Err(_) => document(unplaced(ev), found, other_end) is Err,
        },
    decreases ev.len(),
{
    lemma_unplaced_step(ev);
    if ev.len() > 0 {
        let e = ev[0];
        match e.kind {
            XmlEventKind::Start => {
                if ev.len() >= 2 {
                    lemma_unplaced_element(ev[1], ev.skip(2), end, other_end);
                    if let Ok((v, rest)) = element(ev[1], ev.skip(2), end) {
                        lemma_unplaced_step(rest);
                        if rest.len() < ev.len() {
                            lemma_unplaced_document(rest, Some(v), end, other_end);
                        }
                    }
                }
            },
            XmlEventKind::Error => {},
            _ => {
                lemma_unplaced_document(ev.skip(1), found, end, other_end);
            },
        }
    }
}

/// The events of a document as the encoder writes it: the declaration,
/// then the `llsd` element around the events of the tree.
pub open spec fn written_events(v: Value) -> Seq<Token> {
    seq![Token { kind: XmlEventKind::Other, content: Seq::empty(), offset: 0 }] + document_events(
        v,
    )
}

/// The decoder reads a tree back from the text of a document, where
/// `quick_xml` splits the text into the events that stand for the tree,
/// whatever their offsets. That it does so for the documents that the
/// encoder writes is taken on trust: nothing is proved of how it splits a
/// text.
pub proof fn lemma_text_round_trip(v: Value, text: Seq<u8>)
    requires
        well_formed(v),
        carried(v),
        unplaced(xml_events(text)) == written_events(v),
    ensures
        crate::de::xml::decoded(text) == Ok::<Value, XmlError>(v),
{
    let ev = xml_events(text);
    let end = text.len() as usize;
    lemma_unplaced_document(ev, None, end, end);
    let plain = written_events(v);
    assert(plain.skip(1) =~= document_events(v));
    lemma_document_round_trip(v, end);
    assert(document(plain, None, end) == document(plain.skip(1), None, end));
}

/// The decoder reads a tree back from the document that the encoder writes
/// for it, with or without indentation, where `quick_xml` splits that
/// document into the events that stand for the tree.
pub proof fn lemma_written_round_trip(v: Value, do_indent: bool)
    requires
        well_formed(v),
        carried(v),
        crate::ser::xml::document(v, do_indent) is Ok,
        unplaced(xml_events(encode_utf8(crate::ser::xml::document(v, do_indent)->Ok_0)))
            == written_events(v),
    ensures
        crate::de::xml::decoded(encode_utf8(crate::ser::xml::document(v, do_indent)->Ok_0)) == Ok::<
            Value,
            XmlError,
        >(v),
{
    lemma_text_round_trip(v, encode_utf8(crate::ser::xml::document(v, do_indent)->Ok_0));
}

} // verus!
