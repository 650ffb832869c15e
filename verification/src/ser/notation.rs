//! The notation encoding, written.
//!
//! What is written stays within the part of the grammar that a stream of
//! characters and a stream of bytes share.
use vstd::prelude::*;
use vstd::utf8::encode_utf8;
use crate::error::EncodeError;
use crate::outside::{
    base64_decoded, base64_encode, base64_text, format_rfc3339, hyphenated, in_four_digit_years,
    is_base64_char, percent_decoded, percent_encode, percent_encoded, rfc3339_seconds,
    rfc3339_text, uuid_format, uuid_parsed,
};
use crate::laws::notation::{
    lemma_stream_is_detected, lemma_stream_is_detected_in_bytes, representable,
};
use crate::de::notation::is_real_char;
use crate::text::{chars_of, is_real, is_real_literal, push_char, push_int, text_of_int};
use crate::value::{
    items_view, well_formed, Entries, LLSDMap, LLSDReal, LLSDValue, Real, Value,
};

verus! {

/// The prefix of a notation stream.
pub const LLSDNOTATIONPREFIX: &'static str = "<? llsd/notation ?>\n";

/// The sentinel that identifies a notation stream.
pub const LLSDNOTATIONSENTINEL: &'static str = LLSDNOTATIONPREFIX;

/// The sentinel without its newline: `<? llsd/notation ?>`.
pub open spec fn sentinel() -> Seq<char> {
    seq![
        '<',
        '?',
        ' ',
        'l',
        'l',
        's',
        'd',
        '/',
        'n',
        'o',
        't',
        'a',
        't',
        'i',
        'o',
        'n',
        ' ',
        '?',
        '>',
    ]
}

/// What writing a value gives: its text, or the reason it cannot be
/// written.
pub type Written = Result<Seq<char>, EncodeError>;

/// A text with `quote` and the backslash escaped by a backslash.
pub open spec fn escaped(s: Seq<char>, quote: char) -> Seq<char>
    decreases s.len(),
{
    if s.len() == 0 {
        Seq::empty()
    } else if s[0] == quote || s[0] == '\\' {
        seq!['\\', s[0]] + escaped(s.skip(1), quote)
    } else {
        seq![s[0]] + escaped(s.skip(1), quote)
    }
}

/// A text between two `quote`s, escaped.
pub open spec fn quoted(s: Seq<char>, quote: char) -> Seq<char> {
    seq![quote] + escaped(s, quote) + seq![quote]
}

/// Whether the bits of a 64-bit float are those of a NaN: the exponent is
/// all ones and the fraction is not zero.
pub open spec fn is_nan_bits(bits: u64) -> bool {
    bits % 0x8000_0000_0000_0000 > 0x7ff0_0000_0000_0000
}

/// A numeral that notation can carry: a decimal number of signs, digits and
/// points alone, as the decoder reads one.
pub open spec fn is_notation_numeral(t: Seq<char>) -> bool {
    &&& is_real_literal(t)
    &&& forall|i: int| 0 <= i < t.len() ==> is_real_char(#[trigger] t[i])
}

/// What separates two items of a map or an array: a comma and a newline.
pub open spec fn separator() -> Seq<char> {
    seq![',', '\n']
}

/// The text of a value.
pub open spec fn encoding(v: Value) -> Written
    decreases v, 0nat,
{
    match v {
        Value::Undefined => Ok(seq!['!']),
        Value::Boolean(b) => Ok(
            seq![
                if b {
                    'T'
                } else {
                    'F'
                },
            ],
        ),
        Value::String(s) => Ok(quoted(s, '"')),
        Value::Uri(s) => Ok(seq!['l'] + quoted(percent_encoded(s), '"')),
        Value::Integer(i) => Ok(seq!['i'] + text_of_int(i as int)),
        Value::Real(Real::Decimal(t)) => if is_notation_numeral(t) {
            Ok(seq!['r'] + t)
        } else {
            Err(EncodeError::BadNumeral)
        },
        Value::Real(Real::Bits(bits)) => if is_nan_bits(bits) {
            Ok(seq!['r', 'N', 'a', 'N'])
        } else {
            Err(EncodeError::RealWithoutNumeral)
        },
        Value::Uuid(u) => Ok(seq!['u'] + hyphenated(u)),
        Value::Binary(b) => Ok(seq!['b', '6', '4'] + quoted(base64_text(b), '"')),
        Value::Date(d) => match rfc3339_text(d) {
            Some(t) => Ok(seq!['d'] + quoted(t, '"')),
            None => Err(EncodeError::DateOutOfRange),
        },
        Value::Mapping(entries) => match entries_text(entries, true) {
            Err(e) => Err(e),
            Ok(body) => Ok(seq!['{'] + body + seq!['}']),
        },
        Value::Array(items) => match items_text(items, true) {
            Err(e) => Err(e),
            Ok(body) => Ok(seq!['['] + body + seq![']']),
        },
    }
}

/// The texts of a sequence of values, with a separator in front of each but
/// the first of an array.
pub open spec fn items_text(items: Seq<Value>, first: bool) -> Written
    decreases items, 1nat,
{
    if items.len() == 0 {
        Ok(Seq::empty())
    } else {
        match encoding(items[0]) {
            Err(e) => Err(e),
            Ok(head) => match items_text(items.skip(1), false) {
                Err(e) => Err(e),
                Ok(tail) => Ok(
                    (if first {
                        Seq::empty()
                    } else {
                        separator()
                    }) + head + tail,
                ),
            },
        }
    }
}

/// The text of one entry of a map: the key between single quotes, a colon,
/// the value.
pub open spec fn entry_text(key: Seq<char>, value: Value) -> Written
    decreases value, 1nat,
{
    match encoding(value) {
        Err(e) => Err(e),
        Ok(v) => Ok(quoted(key, '\'') + seq![':'] + v),
    }
}

/// The texts of the entries of a map, with a separator in front of each but
/// the first of a map.
pub open spec fn entries_text(entries: Entries, first: bool) -> Written
    decreases entries, 2nat,
{
    if entries.len() == 0 {
        Ok(Seq::empty())
    } else {
        match entry_text(entries[0].0, entries[0].1) {
            Err(e) => Err(e),
            Ok(head) => match entries_text(entries.skip(1), false) {
                Err(e) => Err(e),
                Ok(tail) => Ok(
                    (if first {
                        Seq::empty()
                    } else {
                        separator()
                    }) + head + tail,
                ),
            },
        }
    }
}

/// A whole stream: the sentinel, a newline, the value.
pub open spec fn stream(v: Value) -> Written {
    match encoding(v) {
        Err(e) => Err(e),
        Ok(t) => Ok(sentinel() + seq!['\n'] + t),
    }
}

/// What writing a tree takes on trust of the crates that write its texts:
/// each of its UUIDs, URIs, binary values and dates is read back, by the
/// crate that wrote it, as what it was written from. A date is read back
/// where its year has four digits.
pub open spec fn reads_back(v: Value) -> bool
    decreases v,
{
    match v {
        Value::Uuid(u) => uuid_parsed(hyphenated(u)) == Some(u),
        Value::Uri(s) => percent_decoded(percent_encoded(s)) == Some(s),
        Value::Binary(b) => {
            &&& base64_decoded(base64_text(b)) == Some(b)
            &&& forall|i: int|
                0 <= i < base64_text(b).len() ==> is_base64_char(#[trigger] base64_text(b)[i])
        },
        Value::Date(d) => match rfc3339_text(d) {
            Some(t) => in_four_digit_years(d) ==> rfc3339_seconds(t) == Some(d),
            None => true,
        },
        Value::Mapping(entries) => forall|i: int|
            0 <= i < entries.len() ==> reads_back(#[trigger] entries[i].1),
        Value::Array(items) => forall|i: int|
            0 <= i < items.len() ==> reads_back(#[trigger] items[i]),
        _ => true,
    }
}

/// How an executable result stands for a text in the model: on success the
/// text was appended to the writer.
pub open spec fn appended(
    r: Result<(), EncodeError>,
    before: Seq<char>,
    after: Seq<char>,
    want: Written,
) -> bool {
    match want {
        Ok(t) => r is Ok && after == before + t,
        Err(e) => r == Err::<(), EncodeError>(e),
    }
}

/// Appends a text with `quote` and the backslash escaped.
fn push_escaped(writer: &mut String, s: &str, quote: char)
    ensures
        final(writer)@ == old(writer)@ + escaped(s@, quote),
{
    let chars = chars_of(s);
    let mut i: usize = 0;
    assert(chars@.skip(0) =~= chars@);
    assert(old(writer)@ + Seq::<char>::empty() =~= old(writer)@);
    while i < chars.len()
        invariant
            i <= chars@.len(),
            chars@ == s@,
            old(writer)@ + escaped(s@, quote) == writer@ + escaped(chars@.skip(i as int), quote),
        decreases chars@.len() - i,
    {
        let ch = chars[i];
        let ghost here = chars@.skip(i as int);
        let ghost before = writer@;
        assert(here.skip(1) =~= chars@.skip(i + 1));
        if ch == quote || ch == '\\' {
            push_char(writer, '\\');
            push_char(writer, ch);
            assert(writer@ + escaped(here.skip(1), quote) =~= before + (seq!['\\', ch] + escaped(
                here.skip(1),
                quote,
            )));
        } else {
            push_char(writer, ch);
            assert(writer@ + escaped(here.skip(1), quote) =~= before + (seq![ch] + escaped(
                here.skip(1),
                quote,
            )));
        }
        i = i + 1;
    }
    assert(chars@.skip(i as int) =~= Seq::<char>::empty());
    assert(writer@ + Seq::<char>::empty() =~= writer@);
}

/// Escape double quote as \", and of course \ as \\.
pub fn escape_quotes(s: &str) -> (r: String)
    ensures
        r@ == escaped(s@, '"'),
{
    let mut writer = String::new();
    push_escaped(&mut writer, s, '"');
    assert(Seq::<char>::empty() + escaped(s@, '"') =~= escaped(s@, '"'));
    writer
}

/// Escape URL per RFC 1738.
pub fn escape_url(s: &str) -> (r: String)
    ensures
        r@ == percent_encoded(s@),
        percent_decoded(r@) == Some(s@),
{
    percent_encode(s)
}

/// Appends a text between two `quote`s, escaped.
fn push_quoted(writer: &mut String, s: &str, quote: char)
    ensures
        final(writer)@ == old(writer)@ + quoted(s@, quote),
{
    push_char(writer, quote);
    push_escaped(writer, s, quote);
    push_char(writer, quote);
    assert(writer@ =~= old(writer)@ + quoted(s@, quote));
}

/// Whether the bits of a 64-bit float are those of a NaN.
pub fn is_nan(bits: u64) -> (r: bool)
    ensures
        r == is_nan_bits(bits),
{
    bits % 0x8000_0000_0000_0000 > 0x7ff0_0000_0000_0000
}

/// Whether a text is a numeral that notation can carry.
pub fn is_numeral(t: &str) -> (r: bool)
    ensures
        r == is_notation_numeral(t@),
{
    let chars = chars_of(t);
    let mut i: usize = 0;
    while i < chars.len()
        invariant
            i <= chars@.len(),
            chars@ == t@,
            forall|k: int| 0 <= k < i ==> is_real_char(#[trigger] chars@[k]),
        decreases chars@.len() - i,
    {
        let c = chars[i];
        if !((c >= '0' && c <= '9') || c == '+' || c == '-' || c == '.') {
            assert(!is_real_char(t@[i as int]));
            return false;
        }
        i = i + 1;
    }
    is_real(&chars)
}

/// Appends the separator, but in front of the first item.
fn push_separator(writer: &mut String, first: bool)
    ensures
        final(writer)@ == old(writer)@ + (if first {
            Seq::<char>::empty()
        } else {
            separator()
        }),
{
    if !first {
        push_char(writer, ',');
        push_char(writer, '\n');
        assert(writer@ =~= old(writer)@ + separator());
    } else {
        assert(writer@ =~= old(writer)@ + Seq::<char>::empty());
    }
}

/// Appends the entries of a map.
fn generate_entries(writer: &mut String, map: &LLSDMap) -> (r: Result<(), EncodeError>)
    ensures
        appended(r, old(writer)@, final(writer)@, entries_text(map@, true)),
        r is Ok ==> reads_back(Value::Mapping(map@)) && well_formed(Value::Mapping(map@)),
    decreases map, 1nat,
{
    map.keys_are_distinct();
    let mut i: usize = 0;
    assert(map@.skip(0) =~= map@);
    while i < map.len()
        invariant
            i <= map@.len(),
            forall|j: int|
                0 <= j < i ==> reads_back(#[trigger] map@[j].1) && well_formed(map@[j].1),
            match entries_text(map@.skip(i as int), i == 0) {
                Ok(rest) => entries_text(map@, true) is Ok && old(writer)@ + entries_text(
                    map@,
                    true,
                )->Ok_0 == writer@ + rest,
                Err(e) => entries_text(map@, true) == Err::<Seq<char>, EncodeError>(e),
            },
        decreases map@.len() - i,
    {
        let ghost here = map@.skip(i as int);
        let ghost before = writer@;
        assert(here.skip(1) =~= map@.skip(i + 1));
        assert(here[0] == map@[i as int]);
        push_separator(writer, i == 0);
        push_quoted(writer, map.key_at(i).as_str(), '\'');
        push_char(writer, ':');
        let ghost lead = writer@;
        match generate_value(writer, map.value_at(i)) {
            Err(e) => {
                return Err(e);
            },
            Ok(()) => {},
        }
        proof {
            let sep = if i == 0 {
                Seq::<char>::empty()
            } else {
                separator()
            };
            let v = encoding(here[0].1)->Ok_0;
            let head = entry_text(here[0].0, here[0].1)->Ok_0;
            let rest = entries_text(here.skip(1), false)->Ok_0;
            assert(head == quoted(here[0].0, '\'') + seq![':'] + v);
            assert(lead =~= before + sep + quoted(here[0].0, '\'') + seq![':']);
            assert(writer@ + rest =~= before + (sep + head + rest));
        }
        i = i + 1;
    }
    proof {
        assert(map@.skip(i as int) =~= Entries::empty());
        assert(writer@ + Seq::<char>::empty() =~= writer@);
    }
    Ok(())
}

/// Appends the items of an array.
fn generate_items(writer: &mut String, items: &Vec<LLSDValue>) -> (r: Result<(), EncodeError>)
    ensures
        appended(r, old(writer)@, final(writer)@, items_text(items_view(items@), true)),
        r is Ok ==> reads_back(Value::Array(items_view(items@))) && well_formed(
            Value::Array(items_view(items@)),
        ),
    decreases items, 1nat,
{
    let ghost all = items_view(items@);
    let mut i: usize = 0;
    assert(all.skip(0) =~= all);
    while i < items.len()
        invariant
            i <= items@.len(),
            all == items_view(items@),
            forall|j: int| 0 <= j < i ==> reads_back(#[trigger] all[j]) && well_formed(all[j]),
            match items_text(all.skip(i as int), i == 0) {
                Ok(rest) => items_text(all, true) is Ok && old(writer)@ + items_text(
                    all,
                    true,
                )->Ok_0 == writer@ + rest,
                Err(e) => items_text(all, true) == Err::<Seq<char>, EncodeError>(e),
            },
        decreases items@.len() - i,
    {
        let ghost here = all.skip(i as int);
        let ghost before = writer@;
        assert(here.skip(1) =~= all.skip(i + 1));
        assert(here[0] == items@[i as int]@);
        assert(decreases_to!(items => items[i as int]));
        push_separator(writer, i == 0);
        match generate_value(writer, &items[i]) {
            Err(e) => {
                return Err(e);
            },
            Ok(()) => {},
        }
        proof {
            let sep = if i == 0 {
                Seq::<char>::empty()
            } else {
                separator()
            };
            let head = encoding(here[0])->Ok_0;
            let rest = items_text(here.skip(1), false)->Ok_0;
            assert(writer@ + rest =~= before + (sep + head + rest));
        }
        i = i + 1;
    }
    proof {
        assert(all.skip(i as int) =~= Seq::<Value>::empty());
        assert(writer@ + Seq::<char>::empty() =~= writer@);
    }
    Ok(())
}

/// Appends the text of one value. Recursive.
pub fn generate_value(writer: &mut String, val: &LLSDValue) -> (r: Result<(), EncodeError>)
    ensures
        appended(r, old(writer)@, final(writer)@, encoding(val@)),
        r is Ok ==> reads_back(val@) && well_formed(val@),
    decreases val, 0nat,
{
    match val {
        LLSDValue::Undefined => {
            push_char(writer, '!');
            assert(writer@ =~= old(writer)@ + seq!['!']);
            Ok(())
        },
        LLSDValue::Boolean(v) => {
            push_char(
                writer,
                if *v {
                    'T'
                } else {
                    'F'
                },
            );
            assert(writer@ =~= old(writer)@ + encoding(val@)->Ok_0);
            Ok(())
        },
        LLSDValue::String(v) => {
            push_quoted(writer, v.as_str(), '"');
            Ok(())
        },
        LLSDValue::URI(v) => {
            push_char(writer, 'l');
            let text = escape_url(v.as_str());
            push_quoted(writer, text.as_str(), '"');
            assert(writer@ =~= old(writer)@ + (seq!['l'] + quoted(percent_encoded(v@), '"')));
            Ok(())
        },
        LLSDValue::Integer(v) => {
            push_char(writer, 'i');
            push_int(writer, *v as i64);
            assert(writer@ =~= old(writer)@ + (seq!['i'] + text_of_int(*v as int)));
            Ok(())
        },
        LLSDValue::Real(LLSDReal::Decimal(t)) => {
            if !is_numeral(t.as_str()) {
                return Err(EncodeError::BadNumeral);
            }
            push_char(writer, 'r');
            writer.append(t.as_str());
            assert(writer@ =~= old(writer)@ + (seq!['r'] + t@));
            Ok(())
        },
        LLSDValue::Real(LLSDReal::Bits(bits)) => {
            if !is_nan(*bits) {
                return Err(EncodeError::RealWithoutNumeral);
            }
            push_char(writer, 'r');
            push_char(writer, 'N');
            push_char(writer, 'a');
            push_char(writer, 'N');
            assert(writer@ =~= old(writer)@ + seq!['r', 'N', 'a', 'N']);
            Ok(())
        },
        LLSDValue::UUID(v) => {
            push_char(writer, 'u');
            let text = uuid_format(v);
            writer.append(text.as_str());
            assert(writer@ =~= old(writer)@ + (seq!['u'] + hyphenated(v@)));
            Ok(())
        },
        LLSDValue::Binary(v) => {
            push_char(writer, 'b');
            push_char(writer, '6');
            push_char(writer, '4');
            let text = base64_encode(v.as_slice());
            push_quoted(writer, text.as_str(), '"');
            assert(writer@ =~= old(writer)@ + (seq!['b', '6', '4'] + quoted(
                base64_text(v@),
                '"',
            )));
            Ok(())
        },
        LLSDValue::Date(v) => {
            let text = match format_rfc3339(*v) {
                Some(t) => t,
                None => {
                    return Err(EncodeError::DateOutOfRange);
                },
            };
            push_char(writer, 'd');
            push_quoted(writer, text.as_str(), '"');
            assert(writer@ =~= old(writer)@ + (seq!['d'] + quoted(text@, '"')));
            Ok(())
        },
        LLSDValue::Mapping(v) => {
            push_char(writer, '{');
            match generate_entries(writer, v) {
                Err(e) => {
                    return Err(e);
                },
                Ok(()) => {},
            }
            push_char(writer, '}');
            proof {
                let body = entries_text(v@, true)->Ok_0;
                assert(writer@ =~= old(writer)@ + (seq!['{'] + body + seq!['}']));
            }
            Ok(())
        },
        LLSDValue::Array(v) => {
            push_char(writer, '[');
            match generate_items(writer, v) {
                Err(e) => {
                    return Err(e);
                },
                Ok(()) => {},
            }
            push_char(writer, ']');
            proof {
                let body = items_text(items_view(v@), true)->Ok_0;
                assert(writer@ =~= old(writer)@ + (seq!['['] + body + seq![']']));
            }
            Ok(())
        },
    }
}

/// Outputs a value as text, in LLSD "notation" format: the sentinel, then
/// the value. Where notation can carry the tree, what is written is read
/// back as the tree by the detecting decoder, as text and as bytes.
pub fn to_string(val: &LLSDValue) -> (r: Result<String, EncodeError>)
    ensures
        match stream(val@) {
            Ok(t) => r is Ok && r->Ok_0@ == t,
            Err(e) => r == Err::<String, EncodeError>(e),
        },
        r is Ok ==> reads_back(val@) && well_formed(val@),
        r is Ok && representable(val@) ==> crate::de::detected_str(r->Ok_0@) == Ok::<
            Value,
            crate::error::Failure,
        >(val@),
        r is Ok && representable(val@) ==> crate::de::detected_bytes(encode_utf8(r->Ok_0@))
            == Ok::<Value, crate::error::Failure>(val@),
{
    let mut writer = String::new();
    writer.append(LLSDNOTATIONPREFIX);
    proof {
        reveal_strlit("<? llsd/notation ?>\n");
        assert(writer@ =~= sentinel() + seq!['\n']);
    }
    match generate_value(&mut writer, val) {
        Err(e) => Err(e),
        Ok(()) => {
            proof {
                if representable(val@) {
                    lemma_stream_is_detected(val@);
                    lemma_stream_is_detected_in_bytes(val@);
                }
            }
            Ok(writer)
        },
    }
}

} // verus!
