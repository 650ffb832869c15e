//! Laws of the notation encoding: what is written is read back.
use vstd::prelude::*;
use vstd::utf8::{
    char_is_scalar, encode_scalar, encode_utf8, encode_utf8_decode_utf8, encode_utf8_valid_utf8,
    is_ascii_chars, is_ascii_chars_encode_utf8, is_ascii_chars_nat_bound,
};
use crate::de::notation::{
    array_separator, bytes_of, chars_of_bytes, decoded, integer_run, is_blank, is_integer_char,
    is_real_char, map_separator, real_run, scan_array, scan_map, scan_value, skip_blanks,
    take_encoded, take_quoted, take_string, take_string_after_quote, text_of, without_spaces,
    word_run,
};
use crate::error::NotationError;
use crate::outside::{
    base64_text, hyphenated, in_four_digit_years, is_base64_char, lower_hex, lower_hex_text,
    percent_encoded, rfc3339_text,
};
use crate::ser::notation::{
    is_notation_numeral, encoding, entries_text, entry_text, escaped, items_text, quoted, reads_back, sentinel,
    separator, stream,
};
use crate::text::{
    digits_of, is_digit, is_real_literal, is_space, lemma_digits_of, lemma_int_text_round_trip,
    text_of_int,
};
use crate::value::{
    distinct_keys, insert_entry, lemma_fresh_key, well_formed, Entries, Real, Value,
};

verus! {

/// What may follow a value where it was written: nothing, a comma, or the
/// bracket that closes a map or an array.
pub open spec fn closes(tail: Seq<char>) -> bool {
    tail.len() == 0 || tail[0] == ',' || tail[0] == ']' || tail[0] == '}'
}

/// A tree that notation can carry: each real number is held as a numeral,
/// and each date has a year of four digits.
pub open spec fn representable(v: Value) -> bool
    decreases v,
{
    match v {
        Value::Real(Real::Decimal(_)) => true,
        Value::Real(Real::Bits(_)) => false,
        Value::Date(d) => in_four_digit_years(d),
        Value::Mapping(entries) => forall|i: int|
            0 <= i < entries.len() ==> representable(#[trigger] entries[i].1),
        Value::Array(items) => forall|i: int|
            0 <= i < items.len() ==> representable(#[trigger] items[i]),
        _ => true,
    }
}

/// The characters of a stream that holds a text: the text itself in a
/// stream of characters, and one character for each byte of its UTF-8 form
/// in a stream of bytes.
pub open spec fn in_stream(t: Seq<char>, raw: bool) -> Seq<char> {
    if raw {
        chars_of_bytes(encode_utf8(t))
    } else {
        t
    }
}

/// A byte with its high bit set is 0x80 or more.
proof fn lemma_high_bit(x: u8)
    by (bit_vector)
    ensures
        (0x80u8 | x) >= 0x80,
        (0xC0u8 | x) >= 0x80,
        (0xE0u8 | x) >= 0x80,
        (0xF0u8 | x) >= 0x80,
{
}

/// The low seven bits of a number below 0x80 are the number.
proof fn lemma_low_bits(s: u32)
    by (bit_vector)
    requires
        s <= 0x7f,
    ensures
        (s & 0x7F) as u8 == s as u8,
{
}

/// The UTF-8 form of one character: the character itself where it is
/// ASCII, bytes of 0x80 and more otherwise.
pub proof fn lemma_scalar_bytes(c: char)
    ensures
        c <= '\u{7f}' ==> encode_scalar(c as u32) == seq![c as u8],
        c > '\u{7f}' ==> forall|i: int|
            0 <= i < encode_scalar(c as u32).len() ==> #[trigger] encode_scalar(c as u32)[i]
                >= 0x80,
{
    let s = c as u32;
    char_is_scalar(c);
    if c <= '\u{7f}' {
        lemma_low_bits(s);
        assert(encode_scalar(s) =~= seq![c as u8]);
    } else {
        lemma_high_bit(((s >> 6) & 0x1F) as u8);
        lemma_high_bit(((s >> 12) & 0x0F) as u8);
        lemma_high_bit(((s >> 18) & 0x7) as u8);
        lemma_high_bit((s & 0x3F) as u8);
        lemma_high_bit(((s >> 6) & 0x3F) as u8);
        lemma_high_bit(((s >> 12) & 0x3F) as u8);
    }
}

/// No character comes before the first.
proof fn lemma_first_char(c: char)
    ensures
        '\0' <= c,
{
}

/// The UTF-8 form of a text of one character is that of the character.
proof fn lemma_one_char(c: char)
    ensures
        encode_utf8(seq![c]) == encode_scalar(c as u32),
{
    let one = seq![c];
    assert(one[0] == c);
    assert(one.drop_first() =~= Seq::<char>::empty());
    assert(encode_utf8(one.drop_first()) =~= Seq::<u8>::empty());
    assert(encode_utf8(one) =~= encode_scalar(c as u32) + encode_utf8(one.drop_first()));
}

/// The UTF-8 form of two texts put together is their UTF-8 forms put
/// together.
pub proof fn lemma_encode_concat(a: Seq<char>, b: Seq<char>)
    ensures
        encode_utf8(a + b) == encode_utf8(a) + encode_utf8(b),
    decreases a.len(),
{
    if a.len() == 0 {
        assert(a + b =~= b);
        assert(encode_utf8(a) + encode_utf8(b) =~= encode_utf8(b));
    } else {
        assert((a + b)[0] == a[0]);
        assert((a + b).drop_first() =~= a.drop_first() + b);
        lemma_encode_concat(a.drop_first(), b);
        assert(encode_utf8(a + b) =~= encode_utf8(a) + encode_utf8(b));
    }
}

/// Two texts put together stand in a stream one after the other.
pub proof fn lemma_in_stream_concat(a: Seq<char>, b: Seq<char>, raw: bool)
    ensures
        in_stream(a + b, raw) == in_stream(a, raw) + in_stream(b, raw),
{
    if raw {
        lemma_encode_concat(a, b);
        assert(chars_of_bytes(encode_utf8(a) + encode_utf8(b)) =~= chars_of_bytes(encode_utf8(a))
            + chars_of_bytes(encode_utf8(b)));
    }
}

/// A text of ASCII characters, put into bytes, stands for itself in a
/// stream of bytes.
pub proof fn lemma_ascii_bytes(t: Seq<char>)
    requires
        is_ascii_chars(t),
    ensures
        chars_of_bytes(encode_utf8(t)) == t,
{
    is_ascii_chars_encode_utf8(t);
    is_ascii_chars_nat_bound(t);
    let back = chars_of_bytes(encode_utf8(t));
    assert(back.len() == t.len());
    assert forall|i: int| 0 <= i < t.len() implies back[i] == t[i] by {
        assert(0 <= (t[i] as nat) < 128);
        assert(encode_utf8(t)[i] == t[i] as u8);
        assert(((t[i] as u8) as char) == t[i]);
    }
    assert(back =~= t);
}

/// An ASCII text stands in either kind of stream as itself.
pub proof fn lemma_in_stream_ascii(t: Seq<char>, raw: bool)
    requires
        is_ascii_chars(t),
    ensures
        in_stream(t, raw) == t,
{
    if raw {
        lemma_ascii_bytes(t);
    }
}

/// A text that begins with an ASCII character begins with it in a stream.
pub proof fn lemma_in_stream_head(t: Seq<char>, raw: bool)
    requires
        t.len() > 0,
        '\0' <= t[0] <= '\u{7f}',
    ensures
        in_stream(t, raw).len() >= 1,
        in_stream(t, raw)[0] == t[0],
{
    let first = seq![t[0]];
    assert(is_ascii_chars(first)) by {
        assert forall|i: int| 0 <= i < first.len() implies '\0' <= #[trigger] first[i]
            <= '\u{7f}' by {
            assert(first[i] == t[0]);
        }
    }
    assert(t =~= first + t.skip(1));
    lemma_in_stream_concat(first, t.skip(1), raw);
    lemma_in_stream_ascii(first, raw);
}

/// A quoted text is read back as it was before it was escaped.
pub proof fn lemma_escaped_is_read_back(s: Seq<char>, quote: char, tail: Seq<char>)
    requires
        quote != '\\',
    ensures
        take_quoted(escaped(s, quote) + seq![quote] + tail, quote) == Ok::<
            (Seq<char>, Seq<char>),
            NotationError,
        >((s, tail)),
    decreases s.len(),
{
    let text = escaped(s, quote) + seq![quote] + tail;
    if s.len() == 0 {
        assert(text =~= seq![quote] + tail);
        assert(text[0] == quote);
        assert(text.skip(1) =~= tail);
        assert(s =~= Seq::<char>::empty());
    } else {
        let rest = escaped(s.skip(1), quote) + seq![quote] + tail;
        lemma_escaped_is_read_back(s.skip(1), quote, tail);
        if s[0] == quote || s[0] == '\\' {
            assert(text =~= seq!['\\', s[0]] + rest);
            assert(text[0] == '\\');
            assert(text[1] == s[0]);
            assert(text.skip(2) =~= rest);
        } else {
            assert(text =~= seq![s[0]] + rest);
            assert(text[0] == s[0]);
            assert(text.skip(1) =~= rest);
        }
        assert(seq![s[0]] + s.skip(1) =~= s);
    }
}

/// Characters that are no quote and no backslash are taken as they are.
proof fn lemma_plain_chars(run: Seq<char>, rest: Seq<char>, quote: char)
    requires
        forall|i: int| 0 <= i < run.len() ==> #[trigger] run[i] != quote && run[i] != '\\',
    ensures
        take_quoted(run + rest, quote) == (match take_quoted(rest, quote) {
            Ok((t, r)) => Ok::<(Seq<char>, Seq<char>), NotationError>((run + t, r)),
            Err(e) => Err::<(Seq<char>, Seq<char>), NotationError>(e),
        }),
    decreases run.len(),
{
    if run.len() == 0 {
        assert(run + rest =~= rest);
        if let Ok((t, r)) = take_quoted(rest, quote) {
            assert(run + t =~= t);
        }
    } else {
        let text = run + rest;
        assert(text[0] == run[0]);
        assert(text.skip(1) =~= run.skip(1) + rest);
        assert forall|i: int| 0 <= i < run.skip(1).len() implies #[trigger] run.skip(1)[i]
            != quote && run.skip(1)[i] != '\\' by {
            assert(run.skip(1)[i] == run[i + 1]);
        }
        lemma_plain_chars(run.skip(1), rest, quote);
        if let Ok((t, r)) = take_quoted(rest, quote) {
            assert(seq![run[0]] + (run.skip(1) + t) =~= run + t);
        }
    }
}

/// In a stream of bytes, the characters of a quoted text are read back as
/// the bytes of the text as it was before it was escaped.
proof fn lemma_escaped_in_bytes(s: Seq<char>, quote: char, tail: Seq<char>)
    requires
        quote == '"' || quote == '\'',
    ensures
        take_quoted(in_stream(escaped(s, quote), true) + seq![quote] + tail, quote) == Ok::<
            (Seq<char>, Seq<char>),
            NotationError,
        >((in_stream(s, true), tail)),
    decreases s.len(),
{
    let text = in_stream(escaped(s, quote), true) + seq![quote] + tail;
    if s.len() == 0 {
        assert(in_stream(escaped(s, quote), true) =~= Seq::<char>::empty());
        assert(in_stream(s, true) =~= Seq::<char>::empty());
        assert(text =~= seq![quote] + tail);
        assert(text[0] == quote);
        assert(text.skip(1) =~= tail);
    } else {
        let c = s[0];
        let one = seq![c];
        let others = s.skip(1);
        let rest = in_stream(escaped(others, quote), true) + seq![quote] + tail;
        lemma_escaped_in_bytes(others, quote, tail);
        assert(s =~= one + others);
        lemma_in_stream_concat(one, others, true);
        lemma_scalar_bytes(c);
        lemma_one_char(c);
        if c == quote || c == '\\' {
            let pre = seq!['\\', c];
            assert(escaped(s, quote) == pre + escaped(others, quote));
            lemma_in_stream_concat(pre, escaped(others, quote), true);
            lemma_in_stream_ascii(pre, true);
            assert(text =~= pre + rest);
            assert(text[0] == '\\');
            assert(text[1] == c);
            assert(text.skip(2) =~= rest);
            lemma_in_stream_ascii(one, true);
        } else {
            assert(escaped(s, quote) == one + escaped(others, quote));
            lemma_in_stream_concat(one, escaped(others, quote), true);
            let run = in_stream(one, true);
            assert(text =~= run + rest);
            lemma_first_char(c);
            if c <= '\u{7f}' {
                assert(is_ascii_chars(one));
                lemma_in_stream_ascii(one, true);
            } else {
                assert forall|i: int| 0 <= i < run.len() implies #[trigger] run[i] != quote
                    && run[i] != '\\' by {
                    let b = encode_utf8(one)[i];
                    assert(run[i] == b as char);
                    assert(b >= 0x80);
                    assert((b as char) as int == b as int);
                }
            }
            lemma_plain_chars(run, rest, quote);
        }
    }
}

/// The characters that stand for a text in a stream are read as the text.
pub proof fn lemma_text_in_stream(s: Seq<char>, raw: bool)
    ensures
        text_of(in_stream(s, raw), raw) == Ok::<Seq<char>, NotationError>(s),
{
    if raw {
        let bytes = encode_utf8(s);
        assert(bytes_of(chars_of_bytes(bytes)) =~= bytes) by {
            assert forall|i: int| 0 <= i < bytes.len() implies bytes_of(chars_of_bytes(bytes))[i]
                == bytes[i] by {
                assert(((bytes[i] as char) as u8) == bytes[i]);
            }
        }
        encode_utf8_valid_utf8(s);
        encode_utf8_decode_utf8(s);
    }
}

/// A quoted text, as it stands in a stream, is read back as it was before
/// it was escaped.
pub proof fn lemma_quoted_in_stream(s: Seq<char>, quote: char, tail: Seq<char>, raw: bool)
    requires
        quote == '"' || quote == '\'',
    ensures
        take_string(in_stream(escaped(s, quote), raw) + seq![quote] + tail, quote, raw) == Ok::<
            (Seq<char>, Seq<char>),
            NotationError,
        >((s, tail)),
{
    if raw {
        lemma_escaped_in_bytes(s, quote, tail);
    } else {
        lemma_escaped_is_read_back(s, quote, tail);
    }
    lemma_text_in_stream(s, raw);
}

/// A text between quotes behind an ASCII prefix, as it stands in a stream.
pub proof fn lemma_quoted_written(prefix: Seq<char>, s: Seq<char>, quote: char, raw: bool)
    requires
        is_ascii_chars(prefix),
        quote == '"' || quote == '\'',
    ensures
        in_stream(prefix + quoted(s, quote), raw) == prefix + seq![quote] + in_stream(
            escaped(s, quote),
            raw,
        ) + seq![quote],
{
    let q = seq![quote];
    let e = escaped(s, quote);
    assert(prefix + quoted(s, quote) =~= (prefix + q) + (e + q));
    lemma_in_stream_concat(prefix + q, e + q, raw);
    lemma_in_stream_concat(e, q, raw);
    lemma_in_stream_ascii(prefix + q, raw);
    lemma_in_stream_ascii(q, raw);
    assert((prefix + q) + (in_stream(e, raw) + q) =~= prefix + q + in_stream(e, raw) + q);
}

/// A run of signs and digits in front of what closes a value ends there.
pub proof fn lemma_integer_run(t: Seq<char>, tail: Seq<char>)
    requires
        forall|i: int| 0 <= i < t.len() ==> is_integer_char(#[trigger] t[i]),
        tail.len() == 0 || !is_integer_char(tail[0]),
    ensures
        integer_run(t + tail) == t.len(),
    decreases t.len(),
{
    if t.len() == 0 {
        assert(t + tail =~= tail);
    } else {
        assert((t + tail)[0] == t[0]);
        assert((t + tail).skip(1) =~= t.skip(1) + tail);
        assert forall|i: int| 0 <= i < t.skip(1).len() implies is_integer_char(
            #[trigger] t.skip(1)[i],
        ) by {
            assert(t.skip(1)[i] == t[i + 1]);
        }
        lemma_integer_run(t.skip(1), tail);
    }
}

/// A run of signs, digits and points in front of what closes a value ends
/// there.
pub proof fn lemma_real_run(t: Seq<char>, tail: Seq<char>)
    requires
        forall|i: int| 0 <= i < t.len() ==> is_real_char(#[trigger] t[i]),
        tail.len() == 0 || !is_real_char(tail[0]),
    ensures
        real_run(t + tail) == t.len(),
    decreases t.len(),
{
    if t.len() == 0 {
        assert(t + tail =~= tail);
    } else {
        assert((t + tail)[0] == t[0]);
        assert((t + tail).skip(1) =~= t.skip(1) + tail);
        assert forall|i: int| 0 <= i < t.skip(1).len() implies is_real_char(
            #[trigger] t.skip(1)[i],
        ) by {
            assert(t.skip(1)[i] == t[i + 1]);
        }
        lemma_real_run(t.skip(1), tail);
    }
}

/// The text of an integer is made of a sign and digits.
pub proof fn lemma_int_text_chars(i: int)
    ensures
        forall|k: int| 0 <= k < text_of_int(i).len() ==> is_integer_char(#[trigger] text_of_int(i)[k]),
{
    if i < 0 {
        lemma_digits_of((-i) as nat);
        let d = digits_of((-i) as nat);
        assert forall|k: int| 0 <= k < text_of_int(i).len() implies is_integer_char(
            #[trigger] text_of_int(i)[k],
        ) by {
            if k > 0 {
                assert(text_of_int(i)[k] == d[k - 1]);
                assert(is_digit(d[k - 1]));
            }
        }
    } else {
        lemma_digits_of(i as nat);
        let d = digits_of(i as nat);
        assert forall|k: int| 0 <= k < text_of_int(i).len() implies is_integer_char(
            #[trigger] text_of_int(i)[k],
        ) by {
            assert(is_digit(d[k]));
        }
    }
}

/// Bytes in hexadecimal take two characters each, all of them ASCII.
pub proof fn lemma_hex_text(bytes: Seq<u8>)
    ensures
        lower_hex_text(bytes).len() == 2 * bytes.len(),
        is_ascii_chars(lower_hex_text(bytes)),
    decreases bytes.len(),
{
    if bytes.len() > 0 {
        lemma_hex_text(bytes.drop_last());
        let head = lower_hex_text(bytes.drop_last());
        let hi = bytes.last() as int / 16;
        let lo = bytes.last() as int % 16;
        let last = seq![lower_hex(hi), lower_hex(lo)];
        assert(lower_hex(hi) as int == (if hi < 10 {
            48 + hi
        } else {
            87 + hi
        }));
        assert(lower_hex(lo) as int == (if lo < 10 {
            48 + lo
        } else {
            87 + lo
        }));
        assert forall|i: int| 0 <= i < (head + last).len() implies '\0' <= #[trigger] (head
            + last)[i] <= '\u{7f}' by {
            if i < head.len() {
                assert((head + last)[i] == head[i]);
            } else {
                assert((head + last)[i] == last[i - head.len()]);
            }
        }
    }
}

/// The canonical text of a UUID has thirty-six characters, all of them
/// ASCII.
pub proof fn lemma_hyphenated_len(u: Seq<u8>)
    requires
        u.len() == 16,
    ensures
        hyphenated(u).len() == 36,
        is_ascii_chars(hyphenated(u)),
{
    lemma_hex_text(u.subrange(0, 4));
    lemma_hex_text(u.subrange(4, 6));
    lemma_hex_text(u.subrange(6, 8));
    lemma_hex_text(u.subrange(8, 10));
    lemma_hex_text(u.subrange(10, 16));
    let a = lower_hex_text(u.subrange(0, 4));
    let b = lower_hex_text(u.subrange(4, 6));
    let c = lower_hex_text(u.subrange(6, 8));
    let d = lower_hex_text(u.subrange(8, 10));
    let e = lower_hex_text(u.subrange(10, 16));
    let t = hyphenated(u);
    assert forall|i: int| 0 <= i < t.len() implies '\0' <= #[trigger] t[i] <= '\u{7f}' by {
        if i < 8 {
            assert(t[i] == a[i]);
        } else if i == 8 {
        } else if i < 13 {
            assert(t[i] == b[i - 9]);
        } else if i == 13 {
        } else if i < 18 {
            assert(t[i] == c[i - 14]);
        } else if i == 18 {
        } else if i < 23 {
            assert(t[i] == d[i - 19]);
        } else if i == 23 {
        } else {
            assert(t[i] == e[i - 24]);
        }
    }
}

/// Text of the base64 alphabet holds no white space.
pub proof fn lemma_base64_text_is_plain(t: Seq<char>)
    requires
        forall|i: int| 0 <= i < t.len() ==> is_base64_char(#[trigger] t[i]),
    ensures
        without_spaces(t) == t,
    decreases t.len(),
{
    if t.len() > 0 {
        assert forall|i: int| 0 <= i < t.drop_last().len() implies is_base64_char(
            #[trigger] t.drop_last()[i],
        ) by {
            assert(t.drop_last()[i] == t[i]);
        }
        lemma_base64_text_is_plain(t.drop_last());
        assert(is_base64_char(t.last()));
        assert(!is_space(t.last()));
        assert(t.drop_last().push(t.last()) =~= t);
    }
}

/// An encoding begins with the character that selects its kind, in either
/// kind of stream.
pub proof fn lemma_encoding_head(v: Value, raw: bool)
    requires
        encoding(v) is Ok,
    ensures
        in_stream(encoding(v)->Ok_0, raw).len() >= 1,
        !is_blank(in_stream(encoding(v)->Ok_0, raw)[0]),
        in_stream(encoding(v)->Ok_0, raw)[0] != ']',
        in_stream(encoding(v)->Ok_0, raw)[0] != '}',
        in_stream(encoding(v)->Ok_0, raw)[0] != ',',
{
    let text = encoding(v)->Ok_0;
    match v {
        Value::String(s) => {
            assert(quoted(s, '"')[0] == '"');
        },
        _ => {},
    }
    assert(text.len() >= 1);
    assert(text[0] == '!' || text[0] == 'T' || text[0] == 'F' || text[0] == '"' || text[0] == 'l'
        || text[0] == 'i' || text[0] == 'r' || text[0] == 'u' || text[0] == 'b' || text[0] == 'd'
        || text[0] == '{' || text[0] == '[');
    assert('\0' <= text[0] <= '\u{7f}');
    lemma_in_stream_head(text, raw);
}

/// An undefined value or a boolean is read back.
#[verifier::rlimit(50)]
proof fn lemma_plain_round_trip(v: Value, tail: Seq<char>, raw: bool)
    requires
        v is Undefined || v is Boolean,
        closes(tail),
    ensures
        scan_value(in_stream(encoding(v)->Ok_0, raw) + tail, raw) == Ok::<
            (Value, Seq<char>),
            NotationError,
        >((v, tail)),
{
    lemma_in_stream_ascii(encoding(v)->Ok_0, raw);
    let text = encoding(v)->Ok_0 + tail;
    assert(text.skip(1) =~= tail);
    if v is Boolean {
        assert(word_run(tail) == 0);
        assert(tail.take(0) =~= Seq::<char>::empty());
        assert(tail.skip(0) =~= tail);
        let c = text[0];
        assert(seq![c] + tail.take(0) =~= seq![c]);
    }
}

/// A string is read back.
#[verifier::rlimit(50)]
proof fn lemma_string_round_trip(s: Seq<char>, tail: Seq<char>, raw: bool)
    ensures
        scan_value(in_stream(encoding(Value::String(s))->Ok_0, raw) + tail, raw) == Ok::<
            (Value, Seq<char>),
            NotationError,
        >((Value::String(s), tail)),
{
    let none = Seq::<char>::empty();
    lemma_quoted_written(none, s, '"', raw);
    assert(none + quoted(s, '"') =~= quoted(s, '"'));
    let body = in_stream(escaped(s, '"'), raw) + seq!['"'] + tail;
    let text = in_stream(encoding(Value::String(s))->Ok_0, raw) + tail;
    assert(text =~= seq!['"'] + body);
    assert(text[0] == '"');
    assert(text.skip(1) =~= body);
    lemma_quoted_in_stream(s, '"', tail, raw);
}

/// A quoted text behind the character that selects a kind is read back.
proof fn lemma_after_quote(t: Seq<char>, tail: Seq<char>, raw: bool)
    ensures
        take_string_after_quote(
            seq!['"'] + in_stream(escaped(t, '"'), raw) + seq!['"'] + tail,
            raw,
        ) == Ok::<(Seq<char>, Seq<char>), NotationError>((t, tail)),
{
    let body = in_stream(escaped(t, '"'), raw) + seq!['"'] + tail;
    let text = seq!['"'] + in_stream(escaped(t, '"'), raw) + seq!['"'] + tail;
    assert(text =~= seq!['"'] + body);
    assert(text[0] == '"');
    assert(text.skip(1) =~= body);
    lemma_quoted_in_stream(t, '"', tail, raw);
}

/// A URI is read back.
#[verifier::rlimit(50)]
proof fn lemma_uri_round_trip(s: Seq<char>, tail: Seq<char>, raw: bool)
    requires
        reads_back(Value::Uri(s)),
    ensures
        scan_value(in_stream(encoding(Value::Uri(s))->Ok_0, raw) + tail, raw) == Ok::<
            (Value, Seq<char>),
            NotationError,
        >((Value::Uri(s), tail)),
{
    let t = percent_encoded(s);
    lemma_quoted_written(seq!['l'], t, '"', raw);
    let body = seq!['"'] + in_stream(escaped(t, '"'), raw) + seq!['"'] + tail;
    let text = in_stream(encoding(Value::Uri(s))->Ok_0, raw) + tail;
    assert(text =~= seq!['l'] + body);
    assert(text[0] == 'l');
    assert(text.skip(1) =~= body);
    lemma_after_quote(t, tail, raw);
}

/// A date is read back.
#[verifier::rlimit(50)]
proof fn lemma_date_round_trip(d: i64, tail: Seq<char>, raw: bool)
    requires
        reads_back(Value::Date(d)),
        in_four_digit_years(d),
        encoding(Value::Date(d)) is Ok,
    ensures
        scan_value(in_stream(encoding(Value::Date(d))->Ok_0, raw) + tail, raw) == Ok::<
            (Value, Seq<char>),
            NotationError,
        >((Value::Date(d), tail)),
{
    let t = rfc3339_text(d)->0;
    lemma_quoted_written(seq!['d'], t, '"', raw);
    let body = seq!['"'] + in_stream(escaped(t, '"'), raw) + seq!['"'] + tail;
    let text = in_stream(encoding(Value::Date(d))->Ok_0, raw) + tail;
    assert(text =~= seq!['d'] + body);
    assert(text[0] == 'd');
    assert(text.skip(1) =~= body);
    lemma_after_quote(t, tail, raw);
}

/// An integer is read back.
#[verifier::rlimit(50)]
proof fn lemma_integer_round_trip(i: i32, tail: Seq<char>, raw: bool)
    requires
        closes(tail),
    ensures
        scan_value(in_stream(encoding(Value::Integer(i))->Ok_0, raw) + tail, raw) == Ok::<
            (Value, Seq<char>),
            NotationError,
        >((Value::Integer(i), tail)),
{
    let t = text_of_int(i as int);
    lemma_int_text_chars(i as int);
    let written = encoding(Value::Integer(i))->Ok_0;
    assert(is_ascii_chars(written)) by {
        assert forall|k: int| 0 <= k < written.len() implies '\0' <= #[trigger] written[k]
            <= '\u{7f}' by {
            if k > 0 {
                assert(written[k] == t[k - 1]);
                assert(is_integer_char(t[k - 1]));
            }
        }
    }
    lemma_in_stream_ascii(written, raw);
    let text = written + tail;
    assert(text =~= seq!['i'] + (t + tail));
    assert(text[0] == 'i');
    assert(text.skip(1) =~= t + tail);
    lemma_integer_run(t, tail);
    lemma_int_text_round_trip(i);
    assert((t + tail).take(t.len() as int) =~= t);
    assert((t + tail).skip(t.len() as int) =~= tail);
}

/// A numeral is read back.
#[verifier::rlimit(50)]
proof fn lemma_real_round_trip(t: Seq<char>, tail: Seq<char>, raw: bool)
    requires
        encoding(Value::Real(Real::Decimal(t))) is Ok,
        closes(tail),
    ensures
        scan_value(in_stream(encoding(Value::Real(Real::Decimal(t)))->Ok_0, raw) + tail, raw)
            == Ok::<(Value, Seq<char>), NotationError>((Value::Real(Real::Decimal(t)), tail)),
{
    let written = encoding(Value::Real(Real::Decimal(t)))->Ok_0;
    assert(is_ascii_chars(written)) by {
        assert forall|k: int| 0 <= k < written.len() implies '\0' <= #[trigger] written[k]
            <= '\u{7f}' by {
            if k > 0 {
                assert(written[k] == t[k - 1]);
                assert(is_real_char(t[k - 1]));
            }
        }
    }
    lemma_in_stream_ascii(written, raw);
    let text = written + tail;
    assert(text =~= seq!['r'] + (t + tail));
    assert(text[0] == 'r');
    assert(text.skip(1) =~= t + tail);
    lemma_real_run(t, tail);
    assert((t + tail).take(t.len() as int) =~= t);
    assert((t + tail).skip(t.len() as int) =~= tail);
}

/// A UUID is read back.
#[verifier::rlimit(50)]
proof fn lemma_uuid_round_trip(u: Seq<u8>, tail: Seq<char>, raw: bool)
    requires
        u.len() == 16,
        reads_back(Value::Uuid(u)),
    ensures
        scan_value(in_stream(encoding(Value::Uuid(u))->Ok_0, raw) + tail, raw) == Ok::<
            (Value, Seq<char>),
            NotationError,
        >((Value::Uuid(u), tail)),
{
    let t = hyphenated(u);
    lemma_hyphenated_len(u);
    let written = encoding(Value::Uuid(u))->Ok_0;
    assert(is_ascii_chars(written)) by {
        assert forall|k: int| 0 <= k < written.len() implies '\0' <= #[trigger] written[k]
            <= '\u{7f}' by {
            if k > 0 {
                assert(written[k] == t[k - 1]);
            }
        }
    }
    lemma_in_stream_ascii(written, raw);
    let text = written + tail;
    assert(text =~= seq!['u'] + (t + tail));
    assert(text[0] == 'u');
    assert(text.skip(1) =~= t + tail);
    assert((t + tail).take(36) =~= t);
    assert((t + tail).skip(36) =~= tail);
}

/// The two characters in front of a quoted base64 text are read, and the
/// text after them.
#[verifier::rlimit(50)]
proof fn lemma_encoded_is_read_back(t: Seq<char>, tail: Seq<char>, raw: bool)
    requires
        forall|i: int| 0 <= i < t.len() ==> is_base64_char(#[trigger] t[i]),
    ensures
        take_encoded(
            seq!['6', '4', '"'] + in_stream(escaped(t, '"'), raw) + seq!['"'] + tail,
            '6',
            '4',
            raw,
        ) == Ok::<(Seq<char>, Seq<char>), NotationError>((t, tail)),
{
    let inner = in_stream(escaped(t, '"'), raw) + seq!['"'] + tail;
    let s = seq!['6', '4', '"'] + in_stream(escaped(t, '"'), raw) + seq!['"'] + tail;
    let s1 = seq!['4', '"'] + inner;
    let s2 = seq!['"'] + inner;
    assert(s =~= seq!['6'] + s1);
    assert(s[0] == '6');
    assert(skip_blanks(s) == s);
    assert(s.skip(1) =~= s1);
    assert(s1[0] == '4');
    assert(skip_blanks(s1) == s1);
    assert(s1.skip(1) =~= s2);
    assert(s2[0] == '"');
    assert(skip_blanks(s2) == s2);
    assert(s2.skip(1) =~= inner);
    lemma_quoted_in_stream(t, '"', tail, raw);
    lemma_base64_text_is_plain(t);
}

/// A binary value is read back.
#[verifier::rlimit(50)]
proof fn lemma_binary_round_trip(b: Seq<u8>, tail: Seq<char>, raw: bool)
    requires
        reads_back(Value::Binary(b)),
    ensures
        scan_value(in_stream(encoding(Value::Binary(b))->Ok_0, raw) + tail, raw) == Ok::<
            (Value, Seq<char>),
            NotationError,
        >((Value::Binary(b), tail)),
{
    let t = base64_text(b);
    lemma_quoted_written(seq!['b', '6', '4'], t, '"', raw);
    let body = seq!['6', '4', '"'] + in_stream(escaped(t, '"'), raw) + seq!['"'] + tail;
    let text = in_stream(encoding(Value::Binary(b))->Ok_0, raw) + tail;
    assert(text =~= seq!['b'] + body);
    assert(text[0] == 'b');
    assert(text.skip(1) =~= body);
    assert(body[0] == '6');
    lemma_encoded_is_read_back(t, tail, raw);
}

/// With a separator in front, the text of items is the separator and their
/// text without one.
proof fn lemma_items_separator(items: Seq<Value>)
    requires
        items.len() > 0,
        items_text(items, false) is Ok,
    ensures
        items_text(items, true) is Ok,
        items_text(items, false)->Ok_0 == separator() + items_text(items, true)->Ok_0,
{
    let head = encoding(items[0])->Ok_0;
    let tail = items_text(items.skip(1), false)->Ok_0;
    assert(separator() + head + tail =~= separator() + (Seq::<char>::empty() + head + tail));
}

/// With a separator in front, the text of entries is the separator and
/// their text without one.
proof fn lemma_entries_separator(entries: Entries)
    requires
        entries.len() > 0,
        entries_text(entries, false) is Ok,
    ensures
        entries_text(entries, true) is Ok,
        entries_text(entries, false)->Ok_0 == separator() + entries_text(entries, true)->Ok_0,
{
    let head = entry_text(entries[0].0, entries[0].1)->Ok_0;
    let tail = entries_text(entries.skip(1), false)->Ok_0;
    assert(separator() + head + tail =~= separator() + (Seq::<char>::empty() + head + tail));
}

/// What follows the first of several items or entries, as it stands in a
/// stream: nothing where it was the last, else the separator and the
/// others.
proof fn lemma_following(more: Seq<char>, others: Seq<char>, last: bool, raw: bool)
    requires
        last ==> more.len() == 0,
        !last ==> more == separator() + others,
    ensures
        last ==> in_stream(more, raw) == Seq::<char>::empty(),
        !last ==> in_stream(more, raw) == seq![',', '\n'] + in_stream(others, raw),
{
    if last {
        assert(more =~= Seq::<char>::empty());
        lemma_in_stream_ascii(more, raw);
    } else {
        lemma_in_stream_concat(separator(), others, raw);
        lemma_in_stream_ascii(separator(), raw);
        assert(separator() =~= seq![',', '\n']);
    }
}

/// The items of an array, written with their separators and the closing
/// bracket, are read back in order.
#[verifier::rlimit(80)]
proof fn lemma_items_round_trip(items: Seq<Value>, done: Seq<Value>, tail: Seq<char>, raw: bool)
    requires
        forall|i: int| 0 <= i < items.len() ==> well_formed(#[trigger] items[i]),
        forall|i: int| 0 <= i < items.len() ==> representable(#[trigger] items[i]),
        forall|i: int| 0 <= i < items.len() ==> reads_back(#[trigger] items[i]),
        items_text(items, true) is Ok,
    ensures
        scan_array(in_stream(items_text(items, true)->Ok_0, raw) + seq![']'] + tail, done, raw)
            == Ok::<(Value, Seq<char>), NotationError>((Value::Array(done + items), tail)),
    decreases items, 1nat,
{
    let s = in_stream(items_text(items, true)->Ok_0, raw) + seq![']'] + tail;
    if items.len() == 0 {
        lemma_in_stream_ascii(Seq::<char>::empty(), raw);
        assert(items_text(items, true)->Ok_0 =~= Seq::<char>::empty());
        assert(s =~= seq![']'] + tail);
        assert(s[0] == ']');
        assert(s.skip(1) =~= tail);
        assert(done + items =~= done);
    } else {
        let first = items[0];
        let others = items.skip(1);
        let head = encoding(first)->Ok_0;
        let more = items_text(others, false)->Ok_0;
        assert(items_text(items, true)->Ok_0 =~= head + more);
        lemma_in_stream_concat(head, more, raw);
        let after = in_stream(more, raw) + seq![']'] + tail;
        assert(s =~= in_stream(head, raw) + after);
        lemma_encoding_head(first, raw);
        assert(s[0] == in_stream(head, raw)[0]);
        assert forall|i: int| 0 <= i < others.len() implies well_formed(#[trigger] others[i])
            && representable(others[i]) && reads_back(others[i]) by {
            assert(others[i] == items[i + 1]);
        }
        let next = done.push(first);
        assert(next + others =~= done + items);
        if others.len() == 0 {
            lemma_following(more, Seq::empty(), true, raw);
            assert(after =~= seq![']'] + tail);
            assert(after[0] == ']');
            assert(after.skip(1) =~= tail);
            lemma_round_trip(first, after, raw);
            assert(next =~= done + items);
        } else {
            lemma_items_separator(others);
            let rest = items_text(others, true)->Ok_0;
            lemma_following(more, rest, false, raw);
            let body = in_stream(rest, raw) + seq![']'] + tail;
            assert(after =~= seq![',', '\n'] + body);
            assert(after[0] == ',');
            lemma_round_trip(first, after, raw);
            assert(after.skip(1) =~= seq!['\n'] + body);
            assert(after.skip(1)[0] == '\n');
            assert(after.skip(1).skip(1) =~= body);
            lemma_items_round_trip(others, next, tail, raw);
            assert(array_separator(after, next, raw) == scan_array(after.skip(1), next, raw));
            assert(scan_array(after.skip(1), next, raw) == scan_array(body, next, raw));
        }
    }
}

/// One entry of a map, in front of what follows it, is read as its key and
/// its value, and then what separates it from the next is read.
#[verifier::rlimit(80)]
proof fn lemma_entry_round_trip(
    key: Seq<char>,
    value: Value,
    after: Seq<char>,
    done: Entries,
    raw: bool,
)
    requires
        entry_text(key, value) is Ok,
        scan_value(in_stream(encoding(value)->Ok_0, raw) + after, raw) == Ok::<
            (Value, Seq<char>),
            NotationError,
        >((value, after)),
    ensures
        scan_map(in_stream(entry_text(key, value)->Ok_0, raw) + after, done, raw)
            == map_separator(after, insert_entry(done, key, value), raw),
{
    let v = encoding(value)->Ok_0;
    let none = Seq::<char>::empty();
    let k = quoted(key, '\'');
    assert(entry_text(key, value)->Ok_0 =~= k + (seq![':'] + v));
    lemma_in_stream_concat(k, seq![':'] + v, raw);
    lemma_in_stream_concat(seq![':'], v, raw);
    lemma_in_stream_ascii(seq![':'], raw);
    lemma_quoted_written(none, key, '\'', raw);
    assert(none + k =~= k);
    let inner = in_stream(escaped(key, '\''), raw);
    let colon = seq![':'] + (in_stream(v, raw) + after);
    let s = in_stream(entry_text(key, value)->Ok_0, raw) + after;
    assert(s =~= seq!['\''] + (inner + seq!['\''] + colon));
    assert(s[0] == '\'');
    assert(s.skip(1) =~= inner + seq!['\''] + colon);
    lemma_quoted_in_stream(key, '\'', colon, raw);
    assert(colon[0] == ':');
    assert(skip_blanks(colon) == colon);
    assert(colon.skip(1) =~= in_stream(v, raw) + after);
    lemma_encoding_head(value, raw);
}

/// The entries of a map with distinct keys, written with their separators
/// and the closing bracket, are read back in order.
#[verifier::rlimit(80)]
proof fn lemma_entries_round_trip(entries: Entries, done: Entries, tail: Seq<char>, raw: bool)
    requires
        forall|i: int| 0 <= i < entries.len() ==> well_formed(#[trigger] entries[i].1),
        forall|i: int| 0 <= i < entries.len() ==> representable(#[trigger] entries[i].1),
        forall|i: int| 0 <= i < entries.len() ==> reads_back(#[trigger] entries[i].1),
        distinct_keys(done + entries),
        entries_text(entries, true) is Ok,
    ensures
        scan_map(in_stream(entries_text(entries, true)->Ok_0, raw) + seq!['}'] + tail, done, raw)
            == Ok::<(Value, Seq<char>), NotationError>((Value::Mapping(done + entries), tail)),
    decreases entries, 1nat,
{
    let s = in_stream(entries_text(entries, true)->Ok_0, raw) + seq!['}'] + tail;
    if entries.len() == 0 {
        lemma_in_stream_ascii(Seq::<char>::empty(), raw);
        assert(entries_text(entries, true)->Ok_0 =~= Seq::<char>::empty());
        assert(s =~= seq!['}'] + tail);
        assert(s[0] == '}');
        assert(s.skip(1) =~= tail);
        assert(done + entries =~= done);
    } else {
        let key = entries[0].0;
        let value = entries[0].1;
        let others = entries.skip(1);
        let head = entry_text(key, value)->Ok_0;
        let more = entries_text(others, false)->Ok_0;
        assert(entry_text(key, value) is Ok);
        assert(entries_text(entries, true)->Ok_0 =~= head + more);
        lemma_in_stream_concat(head, more, raw);
        let after = in_stream(more, raw) + seq!['}'] + tail;
        assert(s =~= in_stream(head, raw) + after);
        assert forall|i: int| 0 <= i < others.len() implies well_formed(#[trigger] others[i].1)
            && representable(others[i].1) && reads_back(others[i].1) by {
            assert(others[i] == entries[i + 1]);
        }
        lemma_fresh_key(done, entries);
        let next = done.push(entries[0]);
        if others.len() == 0 {
            lemma_following(more, Seq::empty(), true, raw);
            assert(after =~= seq!['}'] + tail);
            assert(after[0] == '}');
            assert(after.skip(1) =~= tail);
            lemma_round_trip(value, after, raw);
            lemma_entry_round_trip(key, value, after, done, raw);
            assert(next =~= done + entries);
        } else {
            lemma_entries_separator(others);
            let rest = entries_text(others, true)->Ok_0;
            lemma_following(more, rest, false, raw);
            let body = in_stream(rest, raw) + seq!['}'] + tail;
            assert(after =~= seq![',', '\n'] + body);
            assert(after[0] == ',');
            lemma_round_trip(value, after, raw);
            lemma_entry_round_trip(key, value, after, done, raw);
            assert(after.skip(1) =~= seq!['\n'] + body);
            assert(after.skip(1)[0] == '\n');
            assert(after.skip(1).skip(1) =~= body);
            lemma_entries_round_trip(others, next, tail, raw);
            assert(map_separator(after, next, raw) == scan_map(after.skip(1), next, raw));
            assert(scan_map(after.skip(1), next, raw) == scan_map(body, next, raw));
        }
    }
}

/// A text between brackets, as it stands in a stream.
proof fn lemma_bracketed(open: char, body: Seq<char>, close: char, raw: bool)
    requires
        '\0' <= open <= '\u{7f}',
        '\0' <= close <= '\u{7f}',
    ensures
        in_stream(seq![open] + body + seq![close], raw) == seq![open] + in_stream(body, raw)
            + seq![close],
{
    assert(is_ascii_chars(seq![open]));
    assert(is_ascii_chars(seq![close]));
    lemma_in_stream_concat(seq![open] + body, seq![close], raw);
    lemma_in_stream_concat(seq![open], body, raw);
    lemma_in_stream_ascii(seq![open], raw);
    lemma_in_stream_ascii(seq![close], raw);
}

/// An array is read back.
#[verifier::rlimit(50)]
proof fn lemma_array_round_trip(items: Seq<Value>, tail: Seq<char>, raw: bool)
    requires
        well_formed(Value::Array(items)),
        representable(Value::Array(items)),
        reads_back(Value::Array(items)),
        encoding(Value::Array(items)) is Ok,
    ensures
        scan_value(in_stream(encoding(Value::Array(items))->Ok_0, raw) + tail, raw) == Ok::<
            (Value, Seq<char>),
            NotationError,
        >((Value::Array(items), tail)),
    decreases items, 2nat,
{
    let inner = items_text(items, true)->Ok_0;
    lemma_bracketed('[', inner, ']', raw);
    let body = in_stream(inner, raw) + seq![']'] + tail;
    let text = in_stream(encoding(Value::Array(items))->Ok_0, raw) + tail;
    assert(text =~= seq!['['] + body);
    assert(text[0] == '[');
    assert(text.skip(1) =~= body);
    lemma_items_round_trip(items, Seq::empty(), tail, raw);
    assert(Seq::<Value>::empty() + items =~= items);
}

/// A map is read back.
#[verifier::rlimit(50)]
proof fn lemma_map_round_trip(entries: Entries, tail: Seq<char>, raw: bool)
    requires
        well_formed(Value::Mapping(entries)),
        representable(Value::Mapping(entries)),
        reads_back(Value::Mapping(entries)),
        encoding(Value::Mapping(entries)) is Ok,
    ensures
        scan_value(in_stream(encoding(Value::Mapping(entries))->Ok_0, raw) + tail, raw) == Ok::<
            (Value, Seq<char>),
            NotationError,
        >((Value::Mapping(entries), tail)),
    decreases entries, 2nat,
{
    let inner = entries_text(entries, true)->Ok_0;
    lemma_bracketed('{', inner, '}', raw);
    let body = in_stream(inner, raw) + seq!['}'] + tail;
    let text = in_stream(encoding(Value::Mapping(entries))->Ok_0, raw) + tail;
    assert(text =~= seq!['{'] + body);
    assert(text[0] == '{');
    assert(text.skip(1) =~= body);
    assert(Entries::empty() + entries =~= entries);
    lemma_entries_round_trip(entries, Entries::empty(), tail, raw);
}

/// Decoding inverts encoding, in a stream of characters and in a stream of
/// bytes alike: a well-formed tree that notation can carry, written into
/// the stream and followed by nothing or by what closes a value, is read
/// back, and what followed it is left over.
///
/// `reads_back` is what is taken on trust of the crates that write the
/// texts of the tree; the encoder establishes it for every tree that it
/// writes.
pub proof fn lemma_round_trip(v: Value, tail: Seq<char>, raw: bool)
    requires
        well_formed(v),
        representable(v),
        reads_back(v),
        encoding(v) is Ok,
        closes(tail),
    ensures
        scan_value(in_stream(encoding(v)->Ok_0, raw) + tail, raw) == Ok::<
            (Value, Seq<char>),
            NotationError,
        >((v, tail)),
    decreases v, 0nat,
{
    match v {
        Value::Undefined | Value::Boolean(_) => {
            lemma_plain_round_trip(v, tail, raw);
        },
        Value::String(s) => {
            lemma_string_round_trip(s, tail, raw);
        },
        Value::Uri(s) => {
            lemma_uri_round_trip(s, tail, raw);
        },
        Value::Integer(i) => {
            lemma_integer_round_trip(i, tail, raw);
        },
        Value::Real(x) => {
            lemma_real_round_trip(x->Decimal_0, tail, raw);
        },
        Value::Uuid(u) => {
            lemma_uuid_round_trip(u, tail, raw);
        },
        Value::Binary(b) => {
            lemma_binary_round_trip(b, tail, raw);
        },
        Value::Date(d) => {
            lemma_date_round_trip(d, tail, raw);
        },
        Value::Mapping(entries) => {
            lemma_map_round_trip(entries, tail, raw);
        },
        Value::Array(items) => {
            lemma_array_round_trip(items, tail, raw);
        },
    }
}

/// Decoding what was written gives the tree that was written, whether the
/// text is read as characters or as bytes.
pub proof fn lemma_decoded_round_trip(v: Value, raw: bool)
    requires
        well_formed(v),
        representable(v),
        reads_back(v),
        encoding(v) is Ok,
    ensures
        decoded(in_stream(encoding(v)->Ok_0, raw), raw) == Ok::<Value, NotationError>(v),
{
    lemma_round_trip(v, Seq::empty(), raw);
    let text = in_stream(encoding(v)->Ok_0, raw);
    assert(text + Seq::<char>::empty() =~= text);
}

/// Encoding a tree and decoding the text as characters and as bytes gives
/// identical trees: the tree that was written.
pub proof fn lemma_cross_mode(v: Value)
    requires
        well_formed(v),
        representable(v),
        reads_back(v),
        encoding(v) is Ok,
    ensures
        decoded(encoding(v)->Ok_0, false) == Ok::<Value, NotationError>(v),
        decoded(chars_of_bytes(encode_utf8(encoding(v)->Ok_0)), true) == Ok::<
            Value,
            NotationError,
        >(v),
{
    lemma_decoded_round_trip(v, false);
    lemma_decoded_round_trip(v, true);
}

/// The detecting decoder takes a stream that was written for notation, and
/// gives the tree that was written.
pub proof fn lemma_stream_is_detected(v: Value)
    requires
        well_formed(v),
        representable(v),
        reads_back(v),
        stream(v) is Ok,
    ensures
        crate::de::detected_str(stream(v)->Ok_0) == Ok::<Value, crate::error::Failure>(v),
{
    let text = encoding(v)->Ok_0;
    let mark = crate::de::as_chars(crate::de::NOTATION_MARK@);
    let whole = stream(v)->Ok_0;
    assert(mark =~= sentinel());
    assert(whole[0] == '<');
    assert(crate::de::trimmed_text(whole) == whole);
    assert(whole.take(19) =~= mark);
    let rest = seq!['\n'] + text;
    assert(whole.skip(19) =~= rest);
    assert(rest[0] == '\n');
    assert(rest.skip(1) =~= text);
    lemma_decoded_round_trip(v, false);
}

/// The sentinel and its newline, in bytes.
proof fn lemma_sentinel_bytes()
    ensures
        encode_utf8(sentinel() + seq!['\n']) == crate::de::NOTATION_MARK@ + seq![0x0au8],
{
    let lead = sentinel() + seq!['\n'];
    let want = crate::de::NOTATION_MARK@ + seq![0x0au8];
    assert(is_ascii_chars(lead));
    is_ascii_chars_encode_utf8(lead);
    let front = encode_utf8(lead);
    assert(front.len() == want.len());
    assert forall|i: int| 0 <= i < 20 implies front[i] == want[i] by {
        assert(front[i] == lead[i] as u8);
    }
    assert(front =~= want);
}

/// The detecting decoder takes the bytes of a stream that was written for
/// notation, and gives the tree that was written.
#[verifier::rlimit(50)]
pub proof fn lemma_stream_is_detected_in_bytes(v: Value)
    requires
        well_formed(v),
        representable(v),
        reads_back(v),
        stream(v) is Ok,
    ensures
        crate::de::detected_bytes(encode_utf8(stream(v)->Ok_0)) == Ok::<
            Value,
            crate::error::Failure,
        >(v),
{
    let text = encoding(v)->Ok_0;
    let whole = stream(v)->Ok_0;
    let lead = sentinel() + seq!['\n'];
    let mark = crate::de::NOTATION_MARK@;
    assert(whole =~= lead + text);
    lemma_encode_concat(lead, text);
    lemma_sentinel_bytes();
    let bytes = encode_utf8(whole);
    let rest = seq![0x0au8] + encode_utf8(text);
    assert(bytes =~= mark + rest);
    lemma_marked_bytes(rest);
    assert(rest[0] == 0x0a);
    let back = chars_of_bytes(rest);
    assert(back[0] == '\n');
    assert(back.skip(1) =~= chars_of_bytes(encode_utf8(text)));
    lemma_decoded_round_trip(v, true);
}

/// Bytes behind the sentinel of notation are taken for notation.
proof fn lemma_marked_bytes(rest: Seq<u8>)
    ensures
        crate::de::detected_bytes(crate::de::NOTATION_MARK@ + rest) == crate::de::of_notation(
            crate::de::notation::decoded(chars_of_bytes(rest), true),
        ),
{
    let mark = crate::de::NOTATION_MARK@;
    let bytes = mark + rest;
    assert(bytes[0] == mark[0]);
    assert(mark[0] == 0x3c);
    assert(crate::de::trimmed_start(bytes) == bytes);
    assert(!crate::de::begins(bytes, crate::de::binary::sentinel())) by {
        if crate::de::begins(bytes, crate::de::binary::sentinel()) {
            assert(bytes.take(18)[3] == crate::de::binary::sentinel()[3]);
            assert(crate::de::binary::sentinel()[3] == 0x4c);
            assert(bytes[3] == mark[3]);
            assert(mark[3] == 0x6c);
        }
    }
    assert(bytes.take(19) =~= mark);
    assert(bytes.skip(19) =~= rest);
}

} // verus!
