//! The binary encoding, read.
//!
//! Every value starts with a one-byte type tag. Lengths and counts are four
//! bytes, integers four, reals and dates eight, all most significant byte
//! first.
use vstd::prelude::*;
use vstd::utf8::{decode_utf8, valid_utf8};
use crate::error::BinaryError;
use crate::text::utf8_to_string;
use crate::value::{insert_entry, items_view, Entries, LLSDMap, LLSDReal, LLSDValue, Real, Value};
use crate::wire::{
    copy_range, i32_of_u32, i64_of_u64, read_u32, read_u64, to_i32, to_i64, u32_of_bytes,
    u64_of_bytes,
};

verus! {

/// The prefix of a binary stream: the text `<? LLSD/Binary ?>` and a newline.
pub const LLSDBINARYPREFIX: [u8; 18] = [
    0x3c, 0x3f, 0x20, 0x4c, 0x4c, 0x53, 0x44, 0x2f, 0x42, 0x69, 0x6e, 0x61, 0x72, 0x79, 0x20,
    0x3f, 0x3e, 0x0a,
];

/// The sentinel that identifies a binary stream: it must match exactly.
pub const LLSDBINARYSENTINEL: [u8; 18] = LLSDBINARYPREFIX;

/// The sentinel, in the model.
pub open spec fn sentinel() -> Seq<u8> {
    LLSDBINARYSENTINEL@
}


/// What reading one value gives: the value and the bytes after it.
pub type Parsed = Result<(Value, Seq<u8>), BinaryError>;

/// A length-prefixed run of bytes at the head of `b`, and the bytes after it.
pub open spec fn take_block(b: Seq<u8>) -> Result<(Seq<u8>, Seq<u8>), BinaryError> {
    if b.len() < 4 {
        Err(BinaryError::UnexpectedEnd)
    } else {
        let n = u32_of_bytes(b) as int;
        if b.len() - 4 < n {
            Err(BinaryError::UnexpectedEnd)
        } else {
            Ok((b.subrange(4, 4 + n), b.skip(4 + n)))
        }
    }
}

/// A length-prefixed text at the head of `b`, and the bytes after it.
pub open spec fn take_text(b: Seq<u8>) -> Result<(Seq<char>, Seq<u8>), BinaryError> {
    match take_block(b) {
        Err(e) => Err(e),
        Ok((block, rest)) => if valid_utf8(block) {
            Ok((decode_utf8(block), rest))
        } else {
            Err(BinaryError::InvalidUtf8)
        },
    }
}

/// An integer: four bytes, two's complement.
pub open spec fn take_integer(body: Seq<u8>) -> Parsed {
    if body.len() < 4 {
        Err(BinaryError::UnexpectedEnd)
    } else {
        Ok((Value::Integer(i32_of_u32(u32_of_bytes(body))), body.skip(4)))
    }
}

/// A real number: the eight bytes of an IEEE-754 double.
pub open spec fn take_real(body: Seq<u8>) -> Parsed {
    if body.len() < 8 {
        Err(BinaryError::UnexpectedEnd)
    } else {
        Ok((Value::Real(Real::Bits(u64_of_bytes(body))), body.skip(8)))
    }
}

/// A date: eight bytes, two's complement, seconds since the epoch.
pub open spec fn take_date(body: Seq<u8>) -> Parsed {
    if body.len() < 8 {
        Err(BinaryError::UnexpectedEnd)
    } else {
        Ok((Value::Date(i64_of_u64(u64_of_bytes(body))), body.skip(8)))
    }
}

/// A UUID: sixteen bytes.
pub open spec fn take_uuid(body: Seq<u8>) -> Parsed {
    if body.len() < 16 {
        Err(BinaryError::UnexpectedEnd)
    } else {
        Ok((Value::Uuid(body.take(16)), body.skip(16)))
    }
}

/// A string: a length-prefixed text.
pub open spec fn take_string(body: Seq<u8>) -> Parsed {
    match take_text(body) {
        Err(e) => Err(e),
        Ok((s, rest)) => Ok((Value::String(s), rest)),
    }
}

/// A URI: a length-prefixed text.
pub open spec fn take_uri(body: Seq<u8>) -> Parsed {
    match take_text(body) {
        Err(e) => Err(e),
        Ok((s, rest)) => Ok((Value::Uri(s), rest)),
    }
}

/// A binary value: a length-prefixed run of bytes.
pub open spec fn take_binary(body: Seq<u8>) -> Parsed {
    match take_block(body) {
        Err(e) => Err(e),
        Ok((block, rest)) => Ok((Value::Binary(block), rest)),
    }
}

/// A map: a count, that many entries, and a closing `}`.
pub open spec fn take_map(body: Seq<u8>) -> Parsed
    decreases body.len(), 0nat,
{
    if body.len() < 4 {
        Err(BinaryError::UnexpectedEnd)
    } else {
        match parse_entries(body.skip(4), u32_of_bytes(body) as nat, Entries::empty()) {
            Err(e) => Err(e),
            Ok((entries, rest)) => if rest.len() == 0 {
                Err(BinaryError::UnexpectedEnd)
            } else if rest[0] != 0x7d {
                Err(BinaryError::UnclosedMap)
            } else {
                Ok((Value::Mapping(entries), rest.skip(1)))
            },
        }
    }
}

/// An array: a count, that many values, and a closing `]`.
pub open spec fn take_array(body: Seq<u8>) -> Parsed
    decreases body.len(), 0nat,
{
    if body.len() < 4 {
        Err(BinaryError::UnexpectedEnd)
    } else {
        match parse_items(body.skip(4), u32_of_bytes(body) as nat, Seq::empty()) {
            Err(e) => Err(e),
            Ok((items, rest)) => if rest.len() == 0 {
                Err(BinaryError::UnexpectedEnd)
            } else if rest[0] != 0x5d {
                Err(BinaryError::UnclosedArray)
            } else {
                Ok((Value::Array(items), rest.skip(1)))
            },
        }
    }
}

/// The value at the head of `b`, and the bytes after it. The first byte is
/// the type tag: `!` undefined, `0` and `1` boolean, `s` string, `l` URI,
/// `i` integer, `r` real, `u` UUID, `b` binary, `d` date, `{` map, `[` array.
pub open spec fn parse_value(b: Seq<u8>) -> Parsed
    decreases b.len(), 0nat,
{
    if b.len() == 0 {
        Err(BinaryError::UnexpectedEnd)
    } else {
        let tag = b[0];
        let body = b.skip(1);
        if tag == 0x21 {
            Ok((Value::Undefined, body))
        } else if tag == 0x30 {
            Ok((Value::Boolean(false), body))
        } else if tag == 0x31 {
            Ok((Value::Boolean(true), body))
        } else if tag == 0x73 {
            take_string(body)
        } else if tag == 0x6c {
            take_uri(body)
        } else if tag == 0x69 {
            take_integer(body)
        } else if tag == 0x72 {
            take_real(body)
        } else if tag == 0x75 {
            take_uuid(body)
        } else if tag == 0x62 {
            take_binary(body)
        } else if tag == 0x64 {
            take_date(body)
        } else if tag == 0x7b {
            take_map(body)
        } else if tag == 0x5b {
            take_array(body)
        } else {
            Err(BinaryError::UnknownTag(tag))
        }
    }
}

/// `count` values at the head of `b`, added to those in `done`, and the
/// bytes after them.
pub open spec fn parse_items(b: Seq<u8>, count: nat, done: Seq<Value>) -> Result<
    (Seq<Value>, Seq<u8>),
    BinaryError,
>
    decreases b.len(), count + 1,
{
    if count == 0 {
        Ok((done, b))
    } else {
        match parse_value(b) {
            Err(e) => Err(e),
            Ok((v, rest)) => if rest.len() < b.len() {
                parse_items(rest, (count - 1) as nat, done.push(v))
            } else {
                Err(BinaryError::UnexpectedEnd)
            },
        }
    }
}

/// `count` map entries at the head of `b`, set in turn in `done`, and the
/// bytes after them. Each entry is `k`, a length-prefixed key and a value; an
/// entry whose key is already present overwrites it.
pub open spec fn parse_entries(b: Seq<u8>, count: nat, done: Entries) -> Result<
    (Entries, Seq<u8>),
    BinaryError,
>
    decreases b.len(), count + 1,
{
    if count == 0 {
        Ok((done, b))
    } else if b.len() == 0 {
        Err(BinaryError::UnexpectedEnd)
    } else if b[0] != 0x6b {
        Err(BinaryError::BadKeyTag(b[0]))
    } else {
        match take_text(b.skip(1)) {
            Err(e) => Err(e),
            Ok((key, after_key)) => match parse_value(after_key) {
                Err(e) => Err(e),
                Ok((v, rest)) => if rest.len() < b.len() {
                    parse_entries(rest, (count - 1) as nat, insert_entry(done, key, v))
                } else {
                    Err(BinaryError::UnexpectedEnd)
                },
            },
        }
    }
}

/// What decoding a stream without its sentinel gives: the first value in it.
/// Bytes after that value are not looked at.
pub open spec fn decoded(b: Seq<u8>) -> Result<Value, BinaryError> {
    match parse_value(b) {
        Ok((v, _)) => Ok(v),
        Err(e) => Err(e),
    }
}

/// How an executable result stands for a parse in the model: the value has
/// the parsed value as its model, and the position is where the rest begins.
pub open spec fn agrees(
    r: Result<(LLSDValue, usize), BinaryError>,
    b: Seq<u8>,
    pos: int,
    want: Parsed,
) -> bool {
    match want {
        Ok((v, rest)) => r is Ok && r->Ok_0.0@ == v && pos <= r->Ok_0.1 <= b.len() && b.skip(
            r->Ok_0.1 as int,
        ) == rest,
        Err(e) => r == Err::<(LLSDValue, usize), BinaryError>(e),
    }
}

/// Reads a length-prefixed run of bytes at `pos`.
fn read_block(b: &[u8], pos: usize) -> (r: Result<(Vec<u8>, usize), BinaryError>)
    requires
        pos <= b@.len(),
    ensures
        match take_block(b@.skip(pos as int)) {
            Ok((block, rest)) => r is Ok && r->Ok_0.0@ == block && pos < r->Ok_0.1 <= b@.len()
                && b@.skip(r->Ok_0.1 as int) == rest,
            Err(e) => r == Err::<(Vec<u8>, usize), BinaryError>(e),
        },
{
    if b.len() - pos < 4 {
        return Err(BinaryError::UnexpectedEnd);
    }
    let n = read_u32(b, pos) as usize;
    if b.len() - pos - 4 < n {
        return Err(BinaryError::UnexpectedEnd);
    }
    let block = copy_range(b, pos + 4, pos + 4 + n);
    proof {
        let s = b@.skip(pos as int);
        assert(s.subrange(4, 4 + n) =~= b@.subrange(pos + 4, pos + 4 + n));
        assert(s.skip(4 + n) =~= b@.skip(pos + 4 + n));
    }
    Ok((block, pos + 4 + n))
}

/// Reads a length-prefixed text at `pos`.
fn read_text(b: &[u8], pos: usize) -> (r: Result<(String, usize), BinaryError>)
    requires
        pos <= b@.len(),
    ensures
        match take_text(b@.skip(pos as int)) {
            Ok((s, rest)) => r is Ok && r->Ok_0.0@ == s && pos < r->Ok_0.1 <= b@.len() && b@.skip(
                r->Ok_0.1 as int,
            ) == rest,
            Err(e) => r == Err::<(String, usize), BinaryError>(e),
        },
{
    match read_block(b, pos) {
        Err(e) => Err(e),
        Ok((block, next)) => match utf8_to_string(block) {
            Some(s) => Ok((s, next)),
            None => Err(BinaryError::InvalidUtf8),
        },
    }
}

/// Reads the body of a string at `at`.
fn string_at(b: &[u8], at: usize) -> (r: Result<(LLSDValue, usize), BinaryError>)
    requires
        at <= b@.len(),
    ensures
        agrees(r, b@, at as int, take_string(b@.skip(at as int))),
{
    match read_text(b, at) {
        Err(e) => Err(e),
        Ok((text, next)) => Ok((LLSDValue::String(text), next)),
    }
}

/// Reads the body of a URI at `at`.
fn uri_at(b: &[u8], at: usize) -> (r: Result<(LLSDValue, usize), BinaryError>)
    requires
        at <= b@.len(),
    ensures
        agrees(r, b@, at as int, take_uri(b@.skip(at as int))),
{
    match read_text(b, at) {
        Err(e) => Err(e),
        Ok((text, next)) => Ok((LLSDValue::URI(text), next)),
    }
}

/// Reads the body of a binary value at `at`.
fn binary_at(b: &[u8], at: usize) -> (r: Result<(LLSDValue, usize), BinaryError>)
    requires
        at <= b@.len(),
    ensures
        agrees(r, b@, at as int, take_binary(b@.skip(at as int))),
{
    match read_block(b, at) {
        Err(e) => Err(e),
        Ok((block, next)) => Ok((LLSDValue::Binary(block), next)),
    }
}

/// Reads the body of an integer at `at`.
fn integer_at(b: &[u8], at: usize) -> (r: Result<(LLSDValue, usize), BinaryError>)
    requires
        at <= b@.len(),
    ensures
        agrees(r, b@, at as int, take_integer(b@.skip(at as int))),
{
    if b.len() - at < 4 {
        return Err(BinaryError::UnexpectedEnd);
    }
    let v = to_i32(read_u32(b, at));
    assert(b@.skip(at as int).skip(4) =~= b@.skip(at + 4));
    Ok((LLSDValue::Integer(v), at + 4))
}

/// Reads the body of a real number at `at`.
fn real_at(b: &[u8], at: usize) -> (r: Result<(LLSDValue, usize), BinaryError>)
    requires
        at <= b@.len(),
    ensures
        agrees(r, b@, at as int, take_real(b@.skip(at as int))),
{
    if b.len() - at < 8 {
        return Err(BinaryError::UnexpectedEnd);
    }
    let bits = read_u64(b, at);
    assert(b@.skip(at as int).skip(8) =~= b@.skip(at + 8));
    Ok((LLSDValue::Real(LLSDReal::Bits(bits)), at + 8))
}

/// Reads the body of a date at `at`.
fn date_at(b: &[u8], at: usize) -> (r: Result<(LLSDValue, usize), BinaryError>)
    requires
        at <= b@.len(),
    ensures
        agrees(r, b@, at as int, take_date(b@.skip(at as int))),
{
    if b.len() - at < 8 {
        return Err(BinaryError::UnexpectedEnd);
    }
    let d = to_i64(read_u64(b, at));
    assert(b@.skip(at as int).skip(8) =~= b@.skip(at + 8));
    Ok((LLSDValue::Date(d), at + 8))
}

/// Reads the body of a UUID at `at`.
fn uuid_at(b: &[u8], at: usize) -> (r: Result<(LLSDValue, usize), BinaryError>)
    requires
        at <= b@.len(),
    ensures
        agrees(r, b@, at as int, take_uuid(b@.skip(at as int))),
{
    if b.len() - at < 16 {
        return Err(BinaryError::UnexpectedEnd);
    }
    let u: [u8; 16] = [
        b[at],
        b[at + 1],
        b[at + 2],
        b[at + 3],
        b[at + 4],
        b[at + 5],
        b[at + 6],
        b[at + 7],
        b[at + 8],
        b[at + 9],
        b[at + 10],
        b[at + 11],
        b[at + 12],
        b[at + 13],
        b[at + 14],
        b[at + 15],
    ];
    assert(u@ =~= b@.skip(at as int).take(16));
    assert(b@.skip(at as int).skip(16) =~= b@.skip(at + 16));
    Ok((LLSDValue::UUID(u), at + 16))
}

/// Reads the body of a map at `at`.
fn map_at(b: &[u8], at: usize) -> (r: Result<(LLSDValue, usize), BinaryError>)
    requires
        at <= b@.len(),
    ensures
        agrees(r, b@, at as int, take_map(b@.skip(at as int))),
    decreases b@.len() - at, 2nat,
{
    if b.len() - at < 4 {
        return Err(BinaryError::UnexpectedEnd);
    }
    let count = read_u32(b, at);
    assert(b@.skip(at as int).skip(4) =~= b@.skip(at + 4));
    let (map, p) = match parse_entries_at(b, at + 4, count) {
        Err(e) => {
            return Err(e);
        },
        Ok(found) => found,
    };
    if p >= b.len() {
        return Err(BinaryError::UnexpectedEnd);
    }
    if b[p] != 0x7d {
        return Err(BinaryError::UnclosedMap);
    }
    assert(b@.skip(p as int).skip(1) =~= b@.skip(p + 1));
    Ok((LLSDValue::Mapping(map), p + 1))
}

/// Reads the body of an array at `at`.
fn array_at(b: &[u8], at: usize) -> (r: Result<(LLSDValue, usize), BinaryError>)
    requires
        at <= b@.len(),
    ensures
        agrees(r, b@, at as int, take_array(b@.skip(at as int))),
    decreases b@.len() - at, 2nat,
{
    if b.len() - at < 4 {
        return Err(BinaryError::UnexpectedEnd);
    }
    let count = read_u32(b, at);
    assert(b@.skip(at as int).skip(4) =~= b@.skip(at + 4));
    let (items, p) = match parse_items_at(b, at + 4, count) {
        Err(e) => {
            return Err(e);
        },
        Ok(found) => found,
    };
    if p >= b.len() {
        return Err(BinaryError::UnexpectedEnd);
    }
    if b[p] != 0x5d {
        return Err(BinaryError::UnclosedArray);
    }
    assert(b@.skip(p as int).skip(1) =~= b@.skip(p + 1));
    Ok((LLSDValue::Array(items), p + 1))
}

/// Reads one value at `pos`; gives it with the position after it, which is
/// further on.
fn parse_at(b: &[u8], pos: usize) -> (r: Result<(LLSDValue, usize), BinaryError>)
    requires
        pos <= b@.len(),
    ensures
        agrees(r, b@, pos as int, parse_value(b@.skip(pos as int))),
        r is Ok ==> pos < r->Ok_0.1,
    decreases b@.len() - pos, 0nat,
{
    if pos >= b.len() {
        return Err(BinaryError::UnexpectedEnd);
    }
    let tag = b[pos];
    let at = pos + 1;
    assert(b@.skip(pos as int).skip(1) =~= b@.skip(at as int));
    if tag == 0x21 {
        Ok((LLSDValue::Undefined, at))
    } else if tag == 0x30 {
        Ok((LLSDValue::Boolean(false), at))
    } else if tag == 0x31 {
        Ok((LLSDValue::Boolean(true), at))
    } else if tag == 0x73 {
        string_at(b, at)
    } else if tag == 0x6c {
        uri_at(b, at)
    } else if tag == 0x69 {
        integer_at(b, at)
    } else if tag == 0x72 {
        real_at(b, at)
    } else if tag == 0x75 {
        uuid_at(b, at)
    } else if tag == 0x62 {
        binary_at(b, at)
    } else if tag == 0x64 {
        date_at(b, at)
    } else if tag == 0x7b {
        map_at(b, at)
    } else if tag == 0x5b {
        array_at(b, at)
    } else {
        Err(BinaryError::UnknownTag(tag))
    }
}

/// Reads `count` map entries at `pos`; gives the map with the position
/// after them.
fn parse_entries_at(b: &[u8], pos: usize, count: u32) -> (r: Result<(LLSDMap, usize), BinaryError>)
    requires
        pos <= b@.len(),
    ensures
        match parse_entries(b@.skip(pos as int), count as nat, Entries::empty()) {
            Ok((entries, rest)) => r is Ok && r->Ok_0.0@ == entries && pos <= r->Ok_0.1 <= b@.len()
                && b@.skip(r->Ok_0.1 as int) == rest,
            Err(e) => r == Err::<(LLSDMap, usize), BinaryError>(e),
        },
    decreases b@.len() - pos, 1nat,
{
    let mut map = LLSDMap::new();
    let mut p: usize = pos;
    let mut i: u32 = 0;
    while i < count
        invariant
            pos <= p <= b@.len(),
            i <= count,
            parse_entries(b@.skip(pos as int), count as nat, Entries::empty()) == parse_entries(
                b@.skip(p as int),
                (count - i) as nat,
                map@,
            ),
        decreases count - i,
    {
        let ghost here = b@.skip(p as int);
        if p >= b.len() {
            return Err(BinaryError::UnexpectedEnd);
        }
        let key_tag = b[p];
        if key_tag != 0x6b {
            return Err(BinaryError::BadKeyTag(key_tag));
        }
        assert(here.skip(1) =~= b@.skip(p + 1));
        let (key, after_key) = match read_text(b, p + 1) {
            Err(e) => {
                return Err(e);
            },
            Ok(found) => found,
        };
        let (value, next) = match parse_at(b, after_key) {
            Err(e) => {
                return Err(e);
            },
            Ok(found) => found,
        };
        map.insert(key, value);
        p = next;
        i = i + 1;
    }
    Ok((map, p))
}

/// Reads `count` values at `pos`; gives them with the position after them.
fn parse_items_at(b: &[u8], pos: usize, count: u32) -> (r: Result<
    (Vec<LLSDValue>, usize),
    BinaryError,
>)
    requires
        pos <= b@.len(),
    ensures
        match parse_items(b@.skip(pos as int), count as nat, Seq::empty()) {
            Ok((items, rest)) => r is Ok && items_view(r->Ok_0.0@) == items && pos <= r->Ok_0.1
                <= b@.len() && b@.skip(r->Ok_0.1 as int) == rest,
            Err(e) => r == Err::<(Vec<LLSDValue>, usize), BinaryError>(e),
        },
    decreases b@.len() - pos, 1nat,
{
    let mut items: Vec<LLSDValue> = Vec::new();
    let mut p: usize = pos;
    let mut i: u32 = 0;
    assert(items_view(items@) =~= Seq::<Value>::empty());
    while i < count
        invariant
            pos <= p <= b@.len(),
            i <= count,
            parse_items(b@.skip(pos as int), count as nat, Seq::empty()) == parse_items(
                b@.skip(p as int),
                (count - i) as nat,
                items_view(items@),
            ),
        decreases count - i,
    {
        let ghost before = items_view(items@);
        let (value, next) = match parse_at(b, p) {
            Err(e) => {
                return Err(e);
            },
            Ok(found) => found,
        };
        items.push(value);
        assert(items_view(items@) =~= before.push(value@));
        p = next;
        i = i + 1;
    }
    Ok((items, p))
}

/// Parses LLSD expressed in binary into a tree of values. The stream has no
/// header. Bytes after the first value are ignored.
pub fn from_bytes(b: &[u8]) -> (r: Result<LLSDValue, BinaryError>)
    ensures
        match decoded(b@) {
            Ok(v) => r is Ok && r->Ok_0@ == v,
            Err(e) => r == Err::<LLSDValue, BinaryError>(e),
        },
{
    assert(b@.skip(0) =~= b@);
    match parse_at(b, 0) {
        Ok((v, _)) => Ok(v),
        Err(e) => Err(e),
    }
}

} // verus!
