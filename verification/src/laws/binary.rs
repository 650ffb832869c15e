//! Laws of the binary encoding: what is written is read back.
use vstd::prelude::*;
use vstd::utf8::{encode_utf8, encode_utf8_decode_utf8, encode_utf8_valid_utf8};
use crate::de::binary::{
    decoded, parse_entries, parse_items, parse_value, sentinel, take_block, take_text,
};
use crate::error::BinaryError;
use crate::ser::binary::{
    block, encoding, entries_encoding, entry_encoding, items_encoding, stream,
};
use crate::value::{
    distinct_keys, insert_entry, lemma_fresh_key, well_formed, Entries, Value,
};
use crate::wire::{
    bytes_of_u32, bytes_of_u64, lemma_signed_round_trip, lemma_u32_round_trip,
    lemma_u64_round_trip, u32_of_bytes, u32_of_i32, u64_of_bytes, u64_of_i64,
};

verus! {

/// Four bytes in front of anything read back as the number they were
/// written from.
proof fn lemma_u32_prefix(n: u32, tail: Seq<u8>)
    ensures
        (bytes_of_u32(n) + tail).len() >= 4,
        u32_of_bytes(bytes_of_u32(n) + tail) == n,
        (bytes_of_u32(n) + tail).skip(4) == tail,
{
    lemma_u32_round_trip(n);
    let s = bytes_of_u32(n) + tail;
    assert(s[0] == bytes_of_u32(n)[0]);
    assert(s[1] == bytes_of_u32(n)[1]);
    assert(s[2] == bytes_of_u32(n)[2]);
    assert(s[3] == bytes_of_u32(n)[3]);
    assert(s.skip(4) =~= tail);
}

/// Eight bytes in front of anything read back as the number they were
/// written from.
proof fn lemma_u64_prefix(n: u64, tail: Seq<u8>)
    ensures
        (bytes_of_u64(n) + tail).len() >= 8,
        u64_of_bytes(bytes_of_u64(n) + tail) == n,
        (bytes_of_u64(n) + tail).skip(8) == tail,
{
    lemma_u64_round_trip(n);
    let hi = (n as int / 4294967296) as u32;
    let lo = (n as int % 4294967296) as u32;
    let s = bytes_of_u64(n) + tail;
    assert(s =~= bytes_of_u32(hi) + (bytes_of_u32(lo) + tail));
    lemma_u32_prefix(hi, bytes_of_u32(lo) + tail);
    lemma_u32_prefix(lo, tail);
    assert(s.skip(8) =~= tail);
}

/// A block in front of anything is read back as it was written.
proof fn lemma_block_round_trip(b: Seq<u8>, tail: Seq<u8>)
    requires
        block(b) is Ok,
    ensures
        take_block(block(b)->Ok_0 + tail) == Ok::<(Seq<u8>, Seq<u8>), BinaryError>((b, tail)),
{
    let n = b.len() as u32;
    let s = block(b)->Ok_0 + tail;
    assert(s =~= bytes_of_u32(n) + (b + tail));
    lemma_u32_prefix(n, b + tail);
    assert(s.subrange(4, 4 + n) =~= b);
    assert(s.skip(4 + n) =~= tail);
}

/// A text in front of anything is read back as it was written.
proof fn lemma_text_round_trip(t: Seq<char>, tail: Seq<u8>)
    requires
        block(encode_utf8(t)) is Ok,
    ensures
        take_text(block(encode_utf8(t))->Ok_0 + tail) == Ok::<(Seq<char>, Seq<u8>), BinaryError>(
            (t, tail),
        ),
{
    lemma_block_round_trip(encode_utf8(t), tail);
    encode_utf8_valid_utf8(t);
    encode_utf8_decode_utf8(t);
}

/// Every encoding holds at least its tag.
proof fn lemma_encoding_nonempty(v: Value)
    requires
        encoding(v) is Ok,
    ensures
        encoding(v)->Ok_0.len() >= 1,
{
}

/// Items written one after the other are read back in order.
proof fn lemma_items_round_trip(items: Seq<Value>, done: Seq<Value>, tail: Seq<u8>)
    requires
        forall|i: int| 0 <= i < items.len() ==> well_formed(#[trigger] items[i]),
        items_encoding(items) is Ok,
    ensures
        parse_items(items_encoding(items)->Ok_0 + tail, items.len(), done) == Ok::<
            (Seq<Value>, Seq<u8>),
            BinaryError,
        >((done + items, tail)),
    decreases items, 1nat,
{
    if items.len() == 0 {
        assert(done + items =~= done);
        assert(items_encoding(items)->Ok_0 + tail =~= tail);
    } else {
        let head = encoding(items[0])->Ok_0;
        let rest = items_encoding(items.skip(1))->Ok_0;
        lemma_round_trip(items[0], rest + tail);
        assert((head + rest) + tail =~= head + (rest + tail));
        lemma_encoding_nonempty(items[0]);
        assert forall|i: int| 0 <= i < items.skip(1).len() implies well_formed(
            #[trigger] items.skip(1)[i],
        ) by {
            assert(items.skip(1)[i] == items[i + 1]);
        }
        lemma_items_round_trip(items.skip(1), done.push(items[0]), tail);
        assert(done.push(items[0]) + items.skip(1) =~= done + items);
    }
}

/// One entry in front of anything is read as its key and its value, where
/// the value is read back from its bytes.
#[verifier::rlimit(40)]
proof fn lemma_entry_parses(key: Seq<char>, value: Value, x: Seq<u8>, count: nat, done: Entries)
    requires
        count > 0,
        entry_encoding(key, value) is Ok,
        parse_value(encoding(value)->Ok_0 + x) == Ok::<(Value, Seq<u8>), BinaryError>((value, x)),
    ensures
        parse_entries(entry_encoding(key, value)->Ok_0 + x, count, done) == parse_entries(
            x,
            (count - 1) as nat,
            insert_entry(done, key, value),
        ),
{
    let k = block(encode_utf8(key))->Ok_0;
    let v = encoding(value)->Ok_0;
    let s = entry_encoding(key, value)->Ok_0 + x;
    assert(s =~= seq![0x6bu8] + (k + (v + x)));
    assert(s[0] == 0x6b);
    assert(s.skip(1) =~= k + (v + x));
    lemma_text_round_trip(key, v + x);
}

/// Entries with distinct keys, written one after the other, are read back in
/// order.
proof fn lemma_entries_round_trip(entries: Entries, done: Entries, tail: Seq<u8>)
    requires
        forall|i: int| 0 <= i < entries.len() ==> well_formed(#[trigger] entries[i].1),
        distinct_keys(done + entries),
        entries_encoding(entries) is Ok,
    ensures
        parse_entries(entries_encoding(entries)->Ok_0 + tail, entries.len(), done) == Ok::<
            (Entries, Seq<u8>),
            BinaryError,
        >((done + entries, tail)),
    decreases entries, 1nat,
{
    if entries.len() == 0 {
        assert(done + entries =~= done);
        assert(entries_encoding(entries)->Ok_0 + tail =~= tail);
    } else {
        let key = entries[0].0;
        let value = entries[0].1;
        let head = entry_encoding(key, value)->Ok_0;
        let rest = entries_encoding(entries.skip(1))->Ok_0;
        assert(entry_encoding(key, value) is Ok);
        assert(entries_encoding(entries)->Ok_0 == head + rest);
        assert((head + rest) + tail =~= head + (rest + tail));
        lemma_round_trip(value, rest + tail);
        lemma_entry_parses(key, value, rest + tail, entries.len(), done);
        lemma_fresh_key(done, entries);
        assert forall|i: int| 0 <= i < entries.skip(1).len() implies well_formed(
            #[trigger] entries.skip(1)[i].1,
        ) by {
            assert(entries.skip(1)[i] == entries[i + 1]);
        }
        lemma_entries_round_trip(entries.skip(1), done.push(entries[0]), tail);
    }
}

/// A map is read back as it was written.
#[verifier::rlimit(40)]
proof fn lemma_map_round_trip(entries: Entries, tail: Seq<u8>)
    requires
        well_formed(Value::Mapping(entries)),
        encoding(Value::Mapping(entries)) is Ok,
    ensures
        parse_value(encoding(Value::Mapping(entries))->Ok_0 + tail) == Ok::<
            (Value, Seq<u8>),
            BinaryError,
        >((Value::Mapping(entries), tail)),
    decreases entries, 2nat,
{
    let n = entries.len() as u32;
    let body = entries_encoding(entries)->Ok_0;
    let s = encoding(Value::Mapping(entries))->Ok_0 + tail;
    let close = seq![0x7du8] + tail;
    assert(s =~= seq![0x7bu8] + (bytes_of_u32(n) + (body + close)));
    assert(s[0] == 0x7b);
    assert(s.skip(1) =~= bytes_of_u32(n) + (body + close));
    lemma_u32_prefix(n, body + close);
    assert(Entries::empty() + entries =~= entries);
    lemma_entries_round_trip(entries, Entries::empty(), close);
    assert(close[0] == 0x7d);
    assert(close.skip(1) =~= tail);
}

/// An array is read back as it was written.
#[verifier::rlimit(40)]
proof fn lemma_array_round_trip(items: Seq<Value>, tail: Seq<u8>)
    requires
        well_formed(Value::Array(items)),
        encoding(Value::Array(items)) is Ok,
    ensures
        parse_value(encoding(Value::Array(items))->Ok_0 + tail) == Ok::<
            (Value, Seq<u8>),
            BinaryError,
        >((Value::Array(items), tail)),
    decreases items, 2nat,
{
    let n = items.len() as u32;
    let body = items_encoding(items)->Ok_0;
    let s = encoding(Value::Array(items))->Ok_0 + tail;
    let close = seq![0x5du8] + tail;
    assert(s =~= seq![0x5bu8] + (bytes_of_u32(n) + (body + close)));
    assert(s[0] == 0x5b);
    assert(s.skip(1) =~= bytes_of_u32(n) + (body + close));
    lemma_u32_prefix(n, body + close);
    lemma_items_round_trip(items, Seq::empty(), close);
    assert(Seq::<Value>::empty() + items =~= items);
    assert(close[0] == 0x5d);
    assert(close.skip(1) =~= tail);
}

/// An undefined value, a boolean or a UUID is read back as it was written.
#[verifier::rlimit(40)]
proof fn lemma_plain_round_trip(v: Value, tail: Seq<u8>)
    requires
        well_formed(v),
        v is Undefined || v is Boolean || v is Uuid,
    ensures
        parse_value(encoding(v)->Ok_0 + tail) == Ok::<(Value, Seq<u8>), BinaryError>((v, tail)),
{
    let s = encoding(v)->Ok_0 + tail;
    match v {
        Value::Uuid(bytes) => {
            assert(s =~= seq![0x75u8] + (bytes + tail));
            assert(s[0] == 0x75);
            assert(s.skip(1) =~= bytes + tail);
            assert((bytes + tail).take(16) =~= bytes);
            assert((bytes + tail).skip(16) =~= tail);
        },
        _ => {
            assert(s.skip(1) =~= tail);
        },
    }
}

/// A string is read back as it was written.
#[verifier::rlimit(40)]
proof fn lemma_string_round_trip(t: Seq<char>, tail: Seq<u8>)
    requires
        encoding(Value::String(t)) is Ok,
    ensures
        parse_value(encoding(Value::String(t))->Ok_0 + tail) == Ok::<
            (Value, Seq<u8>),
            BinaryError,
        >((Value::String(t), tail)),
{
    let s = encoding(Value::String(t))->Ok_0 + tail;
    let body = block(encode_utf8(t))->Ok_0;
    assert(s =~= seq![0x73u8] + (body + tail));
    assert(s[0] == 0x73);
    assert(s.skip(1) =~= body + tail);
    lemma_text_round_trip(t, tail);
}

/// A URI is read back as it was written.
#[verifier::rlimit(40)]
proof fn lemma_uri_round_trip(t: Seq<char>, tail: Seq<u8>)
    requires
        encoding(Value::Uri(t)) is Ok,
    ensures
        parse_value(encoding(Value::Uri(t))->Ok_0 + tail) == Ok::<(Value, Seq<u8>), BinaryError>(
            (Value::Uri(t), tail),
        ),
{
    let s = encoding(Value::Uri(t))->Ok_0 + tail;
    let body = block(encode_utf8(t))->Ok_0;
    assert(s =~= seq![0x6cu8] + (body + tail));
    assert(s[0] == 0x6c);
    assert(s.skip(1) =~= body + tail);
    lemma_text_round_trip(t, tail);
}

/// A binary value is read back as it was written.
#[verifier::rlimit(40)]
proof fn lemma_bytes_round_trip(bytes: Seq<u8>, tail: Seq<u8>)
    requires
        encoding(Value::Binary(bytes)) is Ok,
    ensures
        parse_value(encoding(Value::Binary(bytes))->Ok_0 + tail) == Ok::<
            (Value, Seq<u8>),
            BinaryError,
        >((Value::Binary(bytes), tail)),
{
    let s = encoding(Value::Binary(bytes))->Ok_0 + tail;
    let body = block(bytes)->Ok_0;
    assert(s =~= seq![0x62u8] + (body + tail));
    assert(s[0] == 0x62);
    assert(s.skip(1) =~= body + tail);
    lemma_block_round_trip(bytes, tail);
}

/// A string, a URI or a binary value is read back as it was written.
proof fn lemma_blocks_round_trip(v: Value, tail: Seq<u8>)
    requires
        v is String || v is Uri || v is Binary,
        encoding(v) is Ok,
    ensures
        parse_value(encoding(v)->Ok_0 + tail) == Ok::<(Value, Seq<u8>), BinaryError>((v, tail)),
{
    match v {
        Value::String(t) => {
            lemma_string_round_trip(t, tail);
        },
        Value::Uri(t) => {
            lemma_uri_round_trip(t, tail);
        },
        Value::Binary(bytes) => {
            lemma_bytes_round_trip(bytes, tail);
        },
        _ => {},
    }
}

/// An integer, a real number or a date is read back as it was written.
#[verifier::rlimit(40)]
proof fn lemma_numbers_round_trip(v: Value, tail: Seq<u8>)
    requires
        v is Integer || v is Real || v is Date,
        encoding(v) is Ok,
    ensures
        parse_value(encoding(v)->Ok_0 + tail) == Ok::<(Value, Seq<u8>), BinaryError>((v, tail)),
{
    let s = encoding(v)->Ok_0 + tail;
    match v {
        Value::Integer(i) => {
            let body = bytes_of_u32(u32_of_i32(i));
            assert(s =~= seq![0x69u8] + (body + tail));
            assert(s[0] == 0x69);
            assert(s.skip(1) =~= body + tail);
            lemma_u32_prefix(u32_of_i32(i), tail);
            lemma_signed_round_trip(i, 0);
        },
        Value::Real(x) => {
            let bits = x->Bits_0;
            let body = bytes_of_u64(bits);
            assert(s =~= seq![0x72u8] + (body + tail));
            assert(s[0] == 0x72);
            assert(s.skip(1) =~= body + tail);
            lemma_u64_prefix(bits, tail);
        },
        Value::Date(d) => {
            let body = bytes_of_u64(u64_of_i64(d));
            assert(s =~= seq![0x64u8] + (body + tail));
            assert(s[0] == 0x64);
            assert(s.skip(1) =~= body + tail);
            lemma_u64_prefix(u64_of_i64(d), tail);
            lemma_signed_round_trip(0, d);
        },
        _ => {},
    }
}

/// Decoding inverts encoding: a well-formed tree that can be written is
/// read back from its bytes, whatever follows them, and what follows them is
/// left over.
pub proof fn lemma_round_trip(v: Value, tail: Seq<u8>)
    requires
        well_formed(v),
        encoding(v) is Ok,
    ensures
        parse_value(encoding(v)->Ok_0 + tail) == Ok::<(Value, Seq<u8>), BinaryError>((v, tail)),
    decreases v, 0nat,
{
    match v {
        Value::Undefined | Value::Boolean(_) | Value::Uuid(_) => {
            lemma_plain_round_trip(v, tail);
        },
        Value::String(_) | Value::Uri(_) | Value::Binary(_) => {
            lemma_blocks_round_trip(v, tail);
        },
        Value::Integer(_) | Value::Real(_) | Value::Date(_) => {
            lemma_numbers_round_trip(v, tail);
        },
        Value::Mapping(entries) => {
            lemma_map_round_trip(entries, tail);
        },
        Value::Array(items) => {
            lemma_array_round_trip(items, tail);
        },
    }
}

/// The detecting decoder takes a stream that was written for binary, and
/// gives the tree that was written.
pub proof fn lemma_stream_is_detected(v: Value)
    requires
        well_formed(v),
        stream(v) is Ok,
    ensures
        crate::de::detected_bytes(stream(v)->Ok_0) == Ok::<Value, crate::error::Failure>(v),
{
    lemma_stream_round_trip(v);
}

/// Decoding a stream that was written, once its sentinel is taken off,
/// gives the tree that was written.
pub proof fn lemma_stream_round_trip(v: Value)
    requires
        well_formed(v),
        stream(v) is Ok,
    ensures
        stream(v)->Ok_0.take(sentinel().len() as int) == sentinel(),
        decoded(stream(v)->Ok_0.skip(sentinel().len() as int)) == Ok::<Value, BinaryError>(v),
{
    let b = encoding(v)->Ok_0;
    lemma_round_trip(v, Seq::empty());
    assert(b + Seq::<u8>::empty() =~= b);
    assert((sentinel() + b).skip(sentinel().len() as int) =~= b);
    assert((sentinel() + b).take(sentinel().len() as int) =~= sentinel());
}

} // verus!
