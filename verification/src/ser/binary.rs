//! The binary encoding, written.
use vstd::prelude::*;
use vstd::string::StringSliceAdditionalSpecFns;
use vstd::utf8::encode_utf8;
use crate::de::binary::{decoded, LLSDBINARYPREFIX, sentinel};
use crate::error::{BinaryError, EncodeError};
use crate::value::{items_view, well_formed, Entries, LLSDMap, LLSDReal, LLSDValue, Real, Value};
use crate::wire::{
    bytes_of_u32, bytes_of_u64, to_u32, to_u64, u32_of_i32, u64_of_i64, write_bytes, write_u32,
    write_u64,
};

verus! {

/// What writing a value gives: its bytes, or the reason it cannot be written.
pub type Written = Result<Seq<u8>, EncodeError>;

/// A run of bytes behind its length.
pub open spec fn block(b: Seq<u8>) -> Written {
    if b.len() > u32::MAX {
        Err(EncodeError::TooLong)
    } else {
        Ok(bytes_of_u32(b.len() as u32) + b)
    }
}

/// A tag byte in front of an encoding.
pub open spec fn tagged(tag: u8, body: Written) -> Written {
    match body {
        Err(e) => Err(e),
        Ok(b) => Ok(seq![tag] + b),
    }
}

/// The bytes of a value: its type tag, then its body.
pub open spec fn encoding(v: Value) -> Written
    decreases v, 0nat,
{
    match v {
        Value::Undefined => Ok(seq![0x21u8]),
        Value::Boolean(b) => Ok(
            seq![
                if b {
                    0x31u8
                } else {
                    0x30u8
                },
            ],
        ),
        Value::String(s) => tagged(0x73, block(encode_utf8(s))),
        Value::Uri(s) => tagged(0x6c, block(encode_utf8(s))),
        Value::Integer(i) => Ok(seq![0x69u8] + bytes_of_u32(u32_of_i32(i))),
        Value::Real(Real::Bits(bits)) => Ok(seq![0x72u8] + bytes_of_u64(bits)),
        Value::Real(Real::Decimal(_)) => Err(EncodeError::RealWithoutBits),
        Value::Uuid(bytes) => Ok(seq![0x75u8] + bytes),
        Value::Binary(bytes) => tagged(0x62, block(bytes)),
        Value::Date(d) => Ok(seq![0x64u8] + bytes_of_u64(u64_of_i64(d))),
        Value::Mapping(entries) => if entries.len() > u32::MAX {
            Err(EncodeError::TooLong)
        } else {
            match entries_encoding(entries) {
                Err(e) => Err(e),
                Ok(body) => Ok(
                    seq![0x7bu8] + bytes_of_u32(entries.len() as u32) + body + seq![0x7du8],
                ),
            }
        },
        Value::Array(items) => if items.len() > u32::MAX {
            Err(EncodeError::TooLong)
        } else {
            match items_encoding(items) {
                Err(e) => Err(e),
                Ok(body) => Ok(
                    seq![0x5bu8] + bytes_of_u32(items.len() as u32) + body + seq![0x5du8],
                ),
            }
        },
    }
}

/// The bytes of a sequence of values, one after the other.
pub open spec fn items_encoding(items: Seq<Value>) -> Written
    decreases items, 1nat,
{
    if items.len() == 0 {
        Ok(Seq::empty())
    } else {
        match encoding(items[0]) {
            Err(e) => Err(e),
            Ok(head) => match items_encoding(items.skip(1)) {
                Err(e) => Err(e),
                Ok(tail) => Ok(head + tail),
            },
        }
    }
}

/// The bytes of one map entry: `k`, the key behind its length, the value.
pub open spec fn entry_encoding(key: Seq<char>, value: Value) -> Written
    decreases value, 1nat,
{
    match block(encode_utf8(key)) {
        Err(e) => Err(e),
        Ok(k) => match encoding(value) {
            Err(e) => Err(e),
            Ok(v) => Ok(seq![0x6bu8] + k + v),
        },
    }
}

/// The bytes of a map's entries, one after the other.
pub open spec fn entries_encoding(entries: Entries) -> Written
    decreases entries, 2nat,
{
    if entries.len() == 0 {
        Ok(Seq::empty())
    } else {
        match entry_encoding(entries[0].0, entries[0].1) {
            Err(e) => Err(e),
            Ok(head) => match entries_encoding(entries.skip(1)) {
                Err(e) => Err(e),
                Ok(tail) => Ok(head + tail),
            },
        }
    }
}

/// A whole stream: the sentinel, then the value.
pub open spec fn stream(v: Value) -> Written {
    match encoding(v) {
        Err(e) => Err(e),
        Ok(b) => Ok(sentinel() + b),
    }
}

/// How an executable result stands for an encoding in the model: on success
/// the encoding was appended to the buffer.
pub open spec fn appended(
    r: Result<(), EncodeError>,
    before: Seq<u8>,
    after: Seq<u8>,
    want: Written,
) -> bool {
    match want {
        Ok(b) => r is Ok && after == before + b,
        Err(e) => r == Err::<(), EncodeError>(e),
    }
}

/// Appends a run of bytes behind its length.
fn write_block(out: &mut Vec<u8>, tag: u8, b: &[u8]) -> (r: Result<(), EncodeError>)
    ensures
        appended(r, old(out)@, final(out)@, tagged(tag, block(b@))),
{
    if b.len() > u32::MAX as usize {
        return Err(EncodeError::TooLong);
    }
    out.push(tag);
    write_u32(out, b.len() as u32);
    write_bytes(out, b);
    assert(out@ =~= old(out)@ + (seq![tag] + (bytes_of_u32(b@.len() as u32) + b@)));
    Ok(())
}

/// Appends the entries of a map.
fn generate_entries(out: &mut Vec<u8>, map: &LLSDMap) -> (r: Result<(), EncodeError>)
    ensures
        appended(r, old(out)@, final(out)@, entries_encoding(map@)),
        r is Ok ==> well_formed(Value::Mapping(map@)),
    decreases map, 1nat,
{
    map.keys_are_distinct();
    let mut i: usize = 0;
    assert(map@.skip(0) =~= map@);
    while i < map.len()
        invariant
            i <= map@.len(),
            forall|j: int| 0 <= j < i ==> well_formed(#[trigger] map@[j].1),
            match entries_encoding(map@.skip(i as int)) {
                Ok(rest) => entries_encoding(map@) is Ok && old(out)@ + entries_encoding(
                    map@,
                )->Ok_0 == out@ + rest,
                Err(e) => entries_encoding(map@) == Err::<Seq<u8>, EncodeError>(e),
            },
        decreases map@.len() - i,
    {
        let ghost here = map@.skip(i as int);
        let ghost before = out@;
        assert(here.skip(1) =~= map@.skip(i + 1));
        assert(here[0] == map@[i as int]);
        let key = map.key_at(i);
        match write_block(out, 0x6b, key.as_str().as_bytes()) {
            Err(e) => {
                return Err(e);
            },
            Ok(()) => {},
        }
        let value = map.value_at(i);
        match generate_value(out, value) {
            Err(e) => {
                return Err(e);
            },
            Ok(()) => {},
        }
        proof {
            let head = entry_encoding(here[0].0, here[0].1)->Ok_0;
            let rest = entries_encoding(here.skip(1))->Ok_0;
            assert(out@ =~= before + head);
            assert(out@ + rest =~= before + (head + rest));
        }
        i = i + 1;
    }
    proof {
        assert(map@.skip(i as int) =~= Entries::empty());
        assert(out@ + Seq::<u8>::empty() =~= out@);
    }
    Ok(())
}

/// Appends the items of an array.
fn generate_items(out: &mut Vec<u8>, items: &Vec<LLSDValue>) -> (r: Result<(), EncodeError>)
    ensures
        appended(r, old(out)@, final(out)@, items_encoding(items_view(items@))),
        r is Ok ==> well_formed(Value::Array(items_view(items@))),
    decreases items, 1nat,
{
    let ghost all = items_view(items@);
    let mut i: usize = 0;
    assert(all.skip(0) =~= all);
    while i < items.len()
        invariant
            i <= items@.len(),
            all == items_view(items@),
            forall|j: int| 0 <= j < i ==> well_formed(#[trigger] all[j]),
            match items_encoding(all.skip(i as int)) {
                Ok(rest) => items_encoding(all) is Ok && old(out)@ + items_encoding(all)->Ok_0
                    == out@ + rest,
                Err(e) => items_encoding(all) == Err::<Seq<u8>, EncodeError>(e),
            },
        decreases items@.len() - i,
    {
        let ghost here = all.skip(i as int);
        let ghost before = out@;
        assert(here.skip(1) =~= all.skip(i + 1));
        assert(here[0] == items@[i as int]@);
        assert(decreases_to!(items => items[i as int]));
        match generate_value(out, &items[i]) {
            Err(e) => {
                return Err(e);
            },
            Ok(()) => {},
        }
        proof {
            let head = encoding(here[0])->Ok_0;
            let rest = items_encoding(here.skip(1))->Ok_0;
            assert(out@ + rest =~= before + (head + rest));
        }
        i = i + 1;
    }
    proof {
        assert(all.skip(i as int) =~= Seq::<Value>::empty());
        assert(out@ + Seq::<u8>::empty() =~= out@);
    }
    Ok(())
}

/// Appends one value: its tag and its body. Recursive.
pub fn generate_value(out: &mut Vec<u8>, val: &LLSDValue) -> (r: Result<(), EncodeError>)
    ensures
        appended(r, old(out)@, final(out)@, encoding(val@)),
        r is Ok ==> well_formed(val@),
    decreases val, 0nat,
{
    match val {
        LLSDValue::Undefined => {
            out.push(0x21);
            assert(out@ =~= old(out)@ + seq![0x21u8]);
            Ok(())
        },
        LLSDValue::Boolean(v) => {
            out.push(
                if *v {
                    0x31
                } else {
                    0x30
                },
            );
            assert(out@ =~= old(out)@ + encoding(val@)->Ok_0);
            Ok(())
        },
        LLSDValue::String(v) => write_block(out, 0x73, v.as_str().as_bytes()),
        LLSDValue::URI(v) => write_block(out, 0x6c, v.as_str().as_bytes()),
        LLSDValue::Integer(v) => {
            out.push(0x69);
            write_u32(out, to_u32(*v));
            assert(out@ =~= old(out)@ + (seq![0x69u8] + bytes_of_u32(u32_of_i32(*v))));
            Ok(())
        },
        LLSDValue::Real(LLSDReal::Bits(bits)) => {
            out.push(0x72);
            write_u64(out, *bits);
            assert(out@ =~= old(out)@ + (seq![0x72u8] + bytes_of_u64(*bits)));
            Ok(())
        },
        LLSDValue::Real(LLSDReal::Decimal(_)) => Err(EncodeError::RealWithoutBits),
        LLSDValue::UUID(v) => {
            out.push(0x75);
            write_bytes(out, v.as_slice());
            assert(out@ =~= old(out)@ + (seq![0x75u8] + v@));
            Ok(())
        },
        LLSDValue::Binary(v) => write_block(out, 0x62, v.as_slice()),
        LLSDValue::Date(v) => {
            out.push(0x64);
            write_u64(out, to_u64(*v));
            assert(out@ =~= old(out)@ + (seq![0x64u8] + bytes_of_u64(u64_of_i64(*v))));
            Ok(())
        },
        LLSDValue::Mapping(v) => {
            if v.len() > u32::MAX as usize {
                return Err(EncodeError::TooLong);
            }
            out.push(0x7b);
            write_u32(out, v.len() as u32);
            match generate_entries(out, v) {
                Err(e) => {
                    return Err(e);
                },
                Ok(()) => {},
            }
            out.push(0x7d);
            proof {
                let body = entries_encoding(v@)->Ok_0;
                assert(out@ =~= old(out)@ + (seq![0x7bu8] + bytes_of_u32(v@.len() as u32) + body
                    + seq![0x7du8]));
            }
            Ok(())
        },
        LLSDValue::Array(v) => {
            if v.len() > u32::MAX as usize {
                return Err(EncodeError::TooLong);
            }
            out.push(0x5b);
            write_u32(out, v.len() as u32);
            match generate_items(out, v) {
                Err(e) => {
                    return Err(e);
                },
                Ok(()) => {},
            }
            out.push(0x5d);
            proof {
                let body = items_encoding(items_view(v@))->Ok_0;
                assert(out@ =~= old(out)@ + (seq![0x5bu8] + bytes_of_u32(v@.len() as u32) + body
                    + seq![0x5du8]));
            }
            Ok(())
        },
    }
}

/// Outputs a value as a string of bytes, in LLSD "binary" format: the
/// sentinel, then the value. What is written is read back as the value, by
/// the binary decoder and by the detecting one.
pub fn to_bytes(val: &LLSDValue) -> (r: Result<Vec<u8>, EncodeError>)
    ensures
        match stream(val@) {
            Ok(b) => r is Ok && r->Ok_0@ == b,
            Err(e) => r == Err::<Vec<u8>, EncodeError>(e),
        },
        r is Ok ==> decoded(r->Ok_0@.skip(sentinel().len() as int)) == Ok::<Value, BinaryError>(
            val@,
        ),
        r is Ok ==> crate::de::detected_bytes(r->Ok_0@) == Ok::<Value, crate::error::Failure>(
            val@,
        ),
{
    let mut out: Vec<u8> = Vec::new();
    write_bytes(&mut out, LLSDBINARYPREFIX.as_slice());
    assert(out@ =~= sentinel());
    match generate_value(&mut out, val) {
        Err(e) => Err(e),
        Ok(()) => {
            proof {
                crate::laws::binary::lemma_stream_round_trip(val@);
                crate::laws::binary::lemma_stream_is_detected(val@);
            }
            Ok(out)
        },
    }
}

} // verus!
