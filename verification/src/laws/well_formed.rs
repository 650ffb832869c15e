//! What every decoder gives is a well-formed tree: each UUID has sixteen
//! bytes, and no map holds a key twice, whatever the input presented.
use vstd::prelude::*;
use crate::de::binary;
use crate::de::notation;
use crate::de::xml;
use crate::de::xml::Token;
use crate::value::{
    lemma_insert_keeps_well_formed, well_formed, Entries, Value,
};

verus! {

/// Every item is well formed.
pub open spec fn all_well_formed(items: Seq<Value>) -> bool {
    forall|i: int| 0 <= i < items.len() ==> well_formed(#[trigger] items[i])
}

/// A value that the binary decoder reads is well formed.
pub proof fn lemma_binary_value(b: Seq<u8>)
    ensures
        binary::parse_value(b) is Ok ==> well_formed(binary::parse_value(b)->Ok_0.0),
    decreases b.len(), 0nat,
{
    if b.len() > 0 {
        let body = b.skip(1);
        if b[0] == 0x7b && body.len() >= 4 {
            lemma_binary_entries(
                body.skip(4),
                crate::wire::u32_of_bytes(body) as nat,
                Entries::empty(),
            );
        } else if b[0] == 0x5b && body.len() >= 4 {
            lemma_binary_items(
                body.skip(4),
                crate::wire::u32_of_bytes(body) as nat,
                Seq::empty(),
            );
        }
    }
}

/// The items that the binary decoder reads are well formed.
pub proof fn lemma_binary_items(b: Seq<u8>, count: nat, done: Seq<Value>)
    requires
        all_well_formed(done),
    ensures
        binary::parse_items(b, count, done) is Ok ==> all_well_formed(
            binary::parse_items(b, count, done)->Ok_0.0,
        ),
    decreases b.len(), count + 1,
{
    if count > 0 {
        lemma_binary_value(b);
        if let Ok((v, rest)) = binary::parse_value(b) {
            if rest.len() < b.len() {
                let next = done.push(v);
                assert forall|i: int| 0 <= i < next.len() implies well_formed(
                    #[trigger] next[i],
                ) by {
                    if i < done.len() {
                        assert(next[i] == done[i]);
                    }
                }
                lemma_binary_items(rest, (count - 1) as nat, next);
            }
        }
    }
}

/// The entries that the binary decoder reads make a well-formed map.
pub proof fn lemma_binary_entries(b: Seq<u8>, count: nat, done: Entries)
    requires
        well_formed(Value::Mapping(done)),
    ensures
        binary::parse_entries(b, count, done) is Ok ==> well_formed(
            Value::Mapping(binary::parse_entries(b, count, done)->Ok_0.0),
        ),
    decreases b.len(), count + 1,
{
    if count > 0 && b.len() > 0 && b[0] == 0x6b {
        if let Ok((key, after_key)) = binary::take_text(b.skip(1)) {
            lemma_binary_value(after_key);
            if let Ok((v, rest)) = binary::parse_value(after_key) {
                if rest.len() < b.len() {
                    lemma_insert_keeps_well_formed(done, key, v);
                    lemma_binary_entries(
                        rest,
                        (count - 1) as nat,
                        crate::value::insert_entry(done, key, v),
                    );
                }
            }
        }
    }
}

/// A value that the notation decoder reads is well formed.
pub proof fn lemma_notation_value(s: Seq<char>, raw: bool)
    ensures
        notation::scan_value(s, raw) is Ok ==> well_formed(notation::scan_value(s, raw)->Ok_0.0),
    decreases s.len(), 0nat,
{
    if s.len() > 0 {
        if notation::is_blank(s[0]) {
            lemma_notation_value(s.skip(1), raw);
        } else if s[0] == '{' {
            lemma_notation_map(s.skip(1), Entries::empty(), raw);
        } else if s[0] == '[' {
            lemma_notation_array(s.skip(1), Seq::empty(), raw);
        }
    }
}

/// The items that the notation decoder reads are well formed.
pub proof fn lemma_notation_array(s: Seq<char>, done: Seq<Value>, raw: bool)
    requires
        all_well_formed(done),
    ensures
        notation::scan_array(s, done, raw) is Ok ==> well_formed(
            notation::scan_array(s, done, raw)->Ok_0.0,
        ),
        notation::array_separator(s, done, raw) is Ok ==> well_formed(
            notation::array_separator(s, done, raw)->Ok_0.0,
        ),
    decreases s.len(), 1nat,
{
    if s.len() > 0 {
        if notation::is_blank(s[0]) {
            lemma_notation_array(s.skip(1), done, raw);
        } else {
            if s[0] == ',' {
                lemma_notation_array(s.skip(1), done, raw);
            }
            if s[0] != ']' {
                lemma_notation_value(s, raw);
                if let Ok((v, rest)) = notation::scan_value(s, raw) {
                    if rest.len() < s.len() {
                        let next = done.push(v);
                        assert forall|i: int| 0 <= i < next.len() implies well_formed(
                            #[trigger] next[i],
                        ) by {
                            if i < done.len() {
                                assert(next[i] == done[i]);
                            }
                        }
                        lemma_notation_array(rest, next, raw);
                    }
                }
            }
        }
    }
}

/// The entries that the notation decoder reads make a well-formed map.
pub proof fn lemma_notation_map(s: Seq<char>, done: Entries, raw: bool)
    requires
        well_formed(Value::Mapping(done)),
    ensures
        notation::scan_map(s, done, raw) is Ok ==> well_formed(
            notation::scan_map(s, done, raw)->Ok_0.0,
        ),
        notation::map_separator(s, done, raw) is Ok ==> well_formed(
            notation::map_separator(s, done, raw)->Ok_0.0,
        ),
    decreases s.len(), 1nat,
{
    if s.len() > 0 {
        if notation::is_blank(s[0]) {
            lemma_notation_map(s.skip(1), done, raw);
        } else {
            if s[0] == ',' {
                lemma_notation_map(s.skip(1), done, raw);
            }
            if s[0] == '"' || s[0] == '\'' {
                if let Ok((key, s1)) = notation::take_string(s.skip(1), s[0], raw) {
                    if let Ok((_, s2)) = notation::expect(s1, ':') {
                        if s2.len() < s.len() {
                            lemma_notation_value(s2, raw);
                            if let Ok((v, rest)) = notation::scan_value(s2, raw) {
                                if rest.len() < s.len() {
                                    lemma_insert_keeps_well_formed(done, key, v);
                                    lemma_notation_map(
                                        rest,
                                        crate::value::insert_entry(done, key, v),
                                        raw,
                                    );
                                }
                            }
                        }
                    }
                }
            }
        }
    }
}

/// A value that the XML decoder reads from an element is well formed.
pub proof fn lemma_xml_element(start: Token, ev: Seq<Token>, end: usize)
    ensures
        xml::element(start, ev, end) is Ok ==> well_formed(xml::element(start, ev, end)->Ok_0.0),
    decreases ev.len(), 2nat,
{
    match xml::tag_of(xml::name_of(start.content)) {
        xml::Tag::Mapping => {
            lemma_xml_map(ev, Entries::empty(), end);
        },
        xml::Tag::Array => {
            lemma_xml_array(ev, Seq::empty(), end);
        },
        xml::Tag::Llsd | xml::Tag::Key | xml::Tag::Unknown => {},
        tag => {
            lemma_xml_primitive(tag, xml::attributes_of(start.content), ev, Seq::empty(), end);
        },
    }
}

/// A value that the XML decoder reads from a primitive element is well
/// formed.
pub proof fn lemma_xml_primitive(
    tag: xml::Tag,
    attributes: Seq<u8>,
    ev: Seq<Token>,
    pieces: Seq<Seq<char>>,
    end: usize,
)
    ensures
        xml::primitive(tag, attributes, ev, pieces, end) is Ok ==> well_formed(
            xml::primitive(tag, attributes, ev, pieces, end)->Ok_0.0,
        ),
    decreases ev.len(),
{
    if ev.len() > 0 {
        let e = ev[0];
        match e.kind {
            xml::XmlEventKind::Text => {
                if let Some(t) = crate::outside::xml_text_decoded(e.content) {
                    lemma_xml_primitive(tag, attributes, ev.skip(1), pieces.push(t), end);
                }
            },
            xml::XmlEventKind::Comment => {
                lemma_xml_primitive(tag, attributes, ev.skip(1), pieces, end);
            },
            _ => {},
        }
    }
}

/// The items that the XML decoder reads are well formed.
pub proof fn lemma_xml_array(ev: Seq<Token>, done: Seq<Value>, end: usize)
    requires
        all_well_formed(done),
    ensures
        xml::array_items(ev, done, end) is Ok ==> well_formed(
            xml::array_items(ev, done, end)->Ok_0.0,
        ),
    decreases ev.len(), 1nat,
{
    if ev.len() > 0 {
        let e = ev[0];
        match e.kind {
            xml::XmlEventKind::Start => {
                lemma_xml_element(e, ev.skip(1), end);
                if let Ok((v, rest)) = xml::element(e, ev.skip(1), end) {
                    if rest.len() < ev.len() {
                        let next = done.push(v);
                        assert forall|i: int| 0 <= i < next.len() implies well_formed(
                            #[trigger] next[i],
                        ) by {
                            if i < done.len() {
                                assert(next[i] == done[i]);
                            }
                        }
                        lemma_xml_array(rest, next, end);
                    }
                }
            },
            xml::XmlEventKind::Text | xml::XmlEventKind::Comment => {
                lemma_xml_array(ev.skip(1), done, end);
            },
            _ => {},
        }
    }
}

/// The entries that the XML decoder reads make a well-formed map.
pub proof fn lemma_xml_map(ev: Seq<Token>, done: Entries, end: usize)
    requires
        well_formed(Value::Mapping(done)),
    ensures
        xml::map_entries(ev, done, end) is Ok ==> well_formed(
            xml::map_entries(ev, done, end)->Ok_0.0,
        ),
    decreases ev.len(), 1nat,
{
    if ev.len() > 0 {
        let e = ev[0];
        match e.kind {
            xml::XmlEventKind::Start => {
                lemma_xml_entry(ev.skip(1), Seq::empty(), end);
                if let Ok(((key, v), rest)) = xml::map_entry(ev.skip(1), Seq::empty(), end) {
                    if rest.len() < ev.len() {
                        lemma_insert_keeps_well_formed(done, key, v);
                        lemma_xml_map(rest, crate::value::insert_entry(done, key, v), end);
                    }
                }
            },
            xml::XmlEventKind::Text | xml::XmlEventKind::Comment => {
                lemma_xml_map(ev.skip(1), done, end);
            },
            _ => {},
        }
    }
}

/// The value of an entry that the XML decoder reads is well formed.
pub proof fn lemma_xml_entry(ev: Seq<Token>, pieces: Seq<Seq<char>>, end: usize)
    ensures
        xml::map_entry(ev, pieces, end) is Ok ==> well_formed(
            xml::map_entry(ev, pieces, end)->Ok_0.0.1,
        ),
    decreases ev.len(), 0nat,
{
    if ev.len() > 0 {
        let e = ev[0];
        match e.kind {
            xml::XmlEventKind::Text => {
                if let Some(t) = crate::outside::xml_text_decoded(e.content) {
                    lemma_xml_entry(ev.skip(1), pieces.push(t), end);
                }
            },
            xml::XmlEventKind::Comment => {
                lemma_xml_entry(ev.skip(1), pieces, end);
            },
            xml::XmlEventKind::End => {
                if ev.len() >= 2 {
                    lemma_xml_element(ev[1], ev.skip(2), end);
                }
            },
            _ => {},
        }
    }
}

/// A tree that the XML decoder gives is well formed.
pub proof fn lemma_xml_document(ev: Seq<Token>, found: Option<Value>, end: usize)
    requires
        found is Some ==> well_formed(found->0),
    ensures
        xml::document(ev, found, end) is Ok ==> well_formed(xml::document(ev, found, end)->Ok_0),
    decreases ev.len(),
{
    if ev.len() > 0 {
        let e = ev[0];
        match e.kind {
            xml::XmlEventKind::Start => {
                if ev.len() >= 2 {
                    lemma_xml_element(ev[1], ev.skip(2), end);
                    if let Ok((v, rest)) = xml::element(ev[1], ev.skip(2), end) {
                        if rest.len() < ev.len() {
                            lemma_xml_document(rest, Some(v), end);
                        }
                    }
                }
            },
            xml::XmlEventKind::Error => {},
            _ => {
                lemma_xml_document(ev.skip(1), found, end);
            },
        }
    }
}

} // verus!
