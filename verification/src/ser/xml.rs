//! The XML encoding, written.
use vstd::prelude::*;
use crate::error::EncodeError;
use crate::outside::{
    base64_encode, base64_text, format_rfc3339, hyphenated, rfc3339_text, uuid_format,
};
use crate::ser::notation::{is_nan, is_nan_bits};
use crate::text::{
    chars_of, is_real, is_real_literal, push_char, push_int, str_eq, text_of_int,
};
use crate::value::{items_view, Entries, LLSDMap, LLSDReal, LLSDValue, Real, Value};

verus! {

/// The preamble of an XML document: the declaration and the opening `llsd`.
pub const LLSDXMLPREFIX: &'static str = "<?xml version=\"1.0\" encoding=\"UTF-8\"?>\n<llsd>\n";

/// The sentinel that identifies an XML document: it must begin with this.
pub const LLSDXMLSENTINEL: &'static str = "<?xml";

/// How many spaces each level of nesting is indented by, where indentation
/// is asked for.
pub const INDENT: usize = 4;

/// What writing a value gives: its text, or the reason it cannot be
/// written.
pub type Written = Result<Seq<char>, EncodeError>;

/// What stands for a character in XML text: an entity for each of
/// `< > & ' "`, the character itself otherwise.
pub open spec fn escaped_char(c: char) -> Seq<char> {
    if c == '<' {
        "&lt;"@
    } else if c == '>' {
        "&gt;"@
    } else if c == '\'' {
        "&apos;"@
    } else if c == '&' {
        "&amp;"@
    } else if c == '"' {
        "&quot;"@
    } else {
        seq![c]
    }
}

/// A text with the five standard entities in place of `< > & ' "`.
pub open spec fn xml_escaped(s: Seq<char>) -> Seq<char>
    decreases s.len(),
{
    if s.len() == 0 {
        Seq::empty()
    } else {
        escaped_char(s[0]) + xml_escaped(s.skip(1))
    }
}

/// A run of spaces.
pub open spec fn spaces(n: nat) -> Seq<char> {
    Seq::new(n, |i: int| ' ')
}

/// An opening or a closing tag on a line of its own.
pub open spec fn tag_line(name: Seq<char>, close: bool, indent: nat) -> Seq<char> {
    spaces(indent) + (if close {
        "</"@
    } else {
        "<"@
    }) + name + ">\n"@
}

/// An element with text on a line of its own. An element without text is
/// written as an empty element.
pub open spec fn leaf(name: Seq<char>, text: Seq<char>, indent: nat) -> Seq<char> {
    spaces(indent) + (if text.len() == 0 {
        "<"@ + name + " />\n"@
    } else {
        "<"@ + name + ">"@ + xml_escaped(text) + "</"@ + name + ">\n"@
    })
}

/// The text of a real number: `nan` for a NaN, else its numeral, which has
/// to denote a number.
pub open spec fn real_text(x: Real) -> Written {
    match x {
        Real::Decimal(t) => if !is_real_literal(t) {
            Err(EncodeError::BadNumeral)
        } else if t == "NaN"@ {
            Ok("nan"@)
        } else {
            Ok(t)
        },
        Real::Bits(bits) => if is_nan_bits(bits) {
            Ok("nan"@)
        } else {
            Err(EncodeError::RealWithoutNumeral)
        },
    }
}

/// The lines of a value. Each level of nesting is indented by `step` more
/// spaces than the `indent` of the level above.
pub open spec fn encoding(v: Value, step: nat, indent: nat) -> Written
    decreases v, 0nat,
{
    match v {
        Value::Undefined => Ok(leaf("undef"@, Seq::empty(), indent)),
        Value::Boolean(b) => Ok(
            leaf(
                "boolean"@,
                if b {
                    "true"@
                } else {
                    "false"@
                },
                indent,
            ),
        ),
        Value::String(s) => Ok(leaf("string"@, s, indent)),
        Value::Uri(s) => Ok(leaf("uri"@, s, indent)),
        Value::Integer(i) => Ok(leaf("integer"@, text_of_int(i as int), indent)),
        Value::Real(x) => match real_text(x) {
            Ok(t) => Ok(leaf("real"@, t, indent)),
            Err(e) => Err(e),
        },
        Value::Uuid(u) => Ok(leaf("uuid"@, hyphenated(u), indent)),
        Value::Binary(b) => Ok(leaf("binary"@, base64_text(b), indent)),
        Value::Date(d) => match rfc3339_text(d) {
            Some(t) => Ok(leaf("date"@, t, indent)),
            None => Err(EncodeError::DateOutOfRange),
        },
        Value::Mapping(entries) => if indent + step > usize::MAX {
            Err(EncodeError::TooLong)
        } else {
            match entries_text(entries, step, indent + step) {
                Err(e) => Err(e),
                Ok(body) => Ok(
                    tag_line("map"@, false, indent) + body + tag_line("map"@, true, indent),
                ),
            }
        },
        Value::Array(items) => if indent + step > usize::MAX {
            Err(EncodeError::TooLong)
        } else {
            match items_text(items, step, indent + step) {
                Err(e) => Err(e),
                Ok(body) => Ok(
                    tag_line("array"@, false, indent) + body + tag_line("array"@, true, indent),
                ),
            }
        },
    }
}

/// The lines of a sequence of values.
pub open spec fn items_text(items: Seq<Value>, step: nat, indent: nat) -> Written
    decreases items, 1nat,
{
    if items.len() == 0 {
        Ok(Seq::empty())
    } else {
        match encoding(items[0], step, indent) {
            Err(e) => Err(e),
            Ok(head) => match items_text(items.skip(1), step, indent) {
                Err(e) => Err(e),
                Ok(tail) => Ok(head + tail),
            },
        }
    }
}

/// The lines of a map's entries: for each a `key` element, then the value.
pub open spec fn entries_text(entries: Entries, step: nat, indent: nat) -> Written
    decreases entries, 2nat,
{
    if entries.len() == 0 {
        Ok(Seq::empty())
    } else {
        match encoding(entries[0].1, step, indent) {
            Err(e) => Err(e),
            Ok(v) => match entries_text(entries.skip(1), step, indent) {
                Err(e) => Err(e),
                Ok(tail) => Ok(leaf("key"@, entries[0].0, indent) + v + tail),
            },
        }
    }
}

/// A whole document: the preamble, the value, the closing `llsd`.
pub open spec fn document(v: Value, do_indent: bool) -> Written {
    match encoding(
        v,
        if do_indent {
            INDENT as nat
        } else {
            0
        },
        0,
    ) {
        Err(e) => Err(e),
        Ok(t) => Ok(LLSDXMLPREFIX@ + t + "</llsd>"@),
    }
}

/// How an executable result stands for a text in the model: on success the
/// text was appended to the writer.
pub open spec fn appended(
    r: Result<(), EncodeError>,
    before: Seq<char>,
    after: Seq<char>,
    want: Written,
) -> bool {
    match want {
        Ok(t) => r is Ok && after == before + t,
        Err(e) => r == Err::<(), EncodeError>(e),
    }
}

/// Appends XML text with the standard character escapes.
fn push_escaped(writer: &mut String, unescaped: &str)
    ensures
        final(writer)@ == old(writer)@ + xml_escaped(unescaped@),
{
    let chars = chars_of(unescaped);
    let mut i: usize = 0;
    assert(chars@.skip(0) =~= chars@);
    assert(old(writer)@ + Seq::<char>::empty() =~= old(writer)@);
    while i < chars.len()
        invariant
            i <= chars@.len(),
            chars@ == unescaped@,
            old(writer)@ + xml_escaped(unescaped@) == writer@ + xml_escaped(
                chars@.skip(i as int),
            ),
        decreases chars@.len() - i,
    {
        let ch = chars[i];
        let ghost here = chars@.skip(i as int);
        let ghost before = writer@;
        assert(here.skip(1) =~= chars@.skip(i + 1));
        if ch == '<' {
            writer.append("&lt;");
        } else if ch == '>' {
            writer.append("&gt;");
        } else if ch == '\'' {
            writer.append("&apos;");
        } else if ch == '&' {
            writer.append("&amp;");
        } else if ch == '"' {
            writer.append("&quot;");
        } else {
            push_char(writer, ch);
        }
        assert(writer@ =~= before + escaped_char(ch));
        assert(writer@ + xml_escaped(here.skip(1)) =~= before + (escaped_char(ch) + xml_escaped(
            here.skip(1),
        )));
        i = i + 1;
    }
    assert(chars@.skip(i as int) =~= Seq::<char>::empty());
    assert(writer@ + Seq::<char>::empty() =~= writer@);
}

/// XML standard character escapes.
pub fn xml_escape(unescaped: &str) -> (s: String)
    ensures
        s@ == xml_escaped(unescaped@),
{
    let mut s = String::new();
    push_escaped(&mut s, unescaped);
    assert(Seq::<char>::empty() + xml_escaped(unescaped@) =~= xml_escaped(unescaped@));
    s
}

/// Appends a run of spaces.
fn push_spaces(writer: &mut String, n: usize)
    ensures
        final(writer)@ == old(writer)@ + spaces(n as nat),
{
    let mut i: usize = 0;
    assert(old(writer)@ + spaces(0) =~= old(writer)@);
    while i < n
        invariant
            i <= n,
            writer@ == old(writer)@ + spaces(i as nat),
        decreases n - i,
    {
        push_char(writer, ' ');
        i = i + 1;
        assert(writer@ =~= old(writer)@ + spaces(i as nat));
    }
}

/// Outputs a single tag on a line of its own.
fn tag(writer: &mut String, name: &str, close: bool, indent: usize)
    ensures
        final(writer)@ == old(writer)@ + tag_line(name@, close, indent as nat),
{
    push_spaces(writer, indent);
    if close {
        writer.append("</");
    } else {
        writer.append("<");
    }
    writer.append(name);
    writer.append(">\n");
    assert(writer@ =~= old(writer)@ + tag_line(name@, close, indent as nat));
}

/// Writes out one tag with a value, on a line of its own.
fn tag_value(writer: &mut String, name: &str, text: &str, indent: usize)
    ensures
        final(writer)@ == old(writer)@ + leaf(name@, text@, indent as nat),
{
    push_spaces(writer, indent);
    if text.is_empty() {
        writer.append("<");
        writer.append(name);
        writer.append(" />\n");
        assert(writer@ =~= old(writer)@ + leaf(name@, text@, indent as nat));
    } else {
        writer.append("<");
        writer.append(name);
        writer.append(">");
        push_escaped(writer, text);
        writer.append("</");
        writer.append(name);
        writer.append(">\n");
        assert(writer@ =~= old(writer)@ + leaf(name@, text@, indent as nat));
    }
}

/// Appends the entries of a map.
fn generate_entries(writer: &mut String, map: &LLSDMap, spaces: usize, indent: usize) -> (r: Result<
    (),
    EncodeError,
>)
    ensures
        appended(
            r,
            old(writer)@,
            final(writer)@,
            entries_text(map@, spaces as nat, indent as nat),
        ),
    decreases map, 1nat,
{
    let mut i: usize = 0;
    assert(map@.skip(0) =~= map@);
    while i < map.len()
        invariant
            i <= map@.len(),
            match entries_text(map@.skip(i as int), spaces as nat, indent as nat) {
                Ok(rest) => entries_text(map@, spaces as nat, indent as nat) is Ok && old(
                    writer,
                )@ + entries_text(map@, spaces as nat, indent as nat)->Ok_0 == writer@ + rest,
                Err(e) => entries_text(map@, spaces as nat, indent as nat) == Err::<
                    Seq<char>,
                    EncodeError,
                >(e),
            },
        decreases map@.len() - i,
    {
        let ghost here = map@.skip(i as int);
        let ghost before = writer@;
        assert(here.skip(1) =~= map@.skip(i + 1));
        assert(here[0] == map@[i as int]);
        tag_value(writer, "key", map.key_at(i).as_str(), indent);
        match generate_value(writer, map.value_at(i), spaces, indent) {
            Err(e) => {
                return Err(e);
            },
            Ok(()) => {},
        }
        proof {
            let key = leaf("key"@, here[0].0, indent as nat);
            let v = encoding(here[0].1, spaces as nat, indent as nat)->Ok_0;
            let rest = entries_text(here.skip(1), spaces as nat, indent as nat)->Ok_0;
            assert(writer@ + rest =~= before + (key + v + rest));
        }
        i = i + 1;
    }
    proof {
        assert(map@.skip(i as int) =~= Entries::empty());
        assert(writer@ + Seq::<char>::empty() =~= writer@);
    }
    Ok(())
}

/// Appends the items of an array.
fn generate_items(
    writer: &mut String,
    items: &Vec<LLSDValue>,
    spaces: usize,
    indent: usize,
) -> (r: Result<(), EncodeError>)
    ensures
        appended(
            r,
            old(writer)@,
            final(writer)@,
            items_text(items_view(items@), spaces as nat, indent as nat),
        ),
    decreases items, 1nat,
{
    let ghost all = items_view(items@);
    let mut i: usize = 0;
    assert(all.skip(0) =~= all);
    while i < items.len()
        invariant
            i <= items@.len(),
            all == items_view(items@),
            match items_text(all.skip(i as int), spaces as nat, indent as nat) {
                Ok(rest) => items_text(all, spaces as nat, indent as nat) is Ok && old(writer)@
                    + items_text(all, spaces as nat, indent as nat)->Ok_0 == writer@ + rest,
                Err(e) => items_text(all, spaces as nat, indent as nat) == Err::<
                    Seq<char>,
                    EncodeError,
                >(e),
            },
        decreases items@.len() - i,
    {
        let ghost here = all.skip(i as int);
        let ghost before = writer@;
        assert(here.skip(1) =~= all.skip(i + 1));
        assert(here[0] == items@[i as int]@);
        assert(decreases_to!(items => items[i as int]));
        match generate_value(writer, &items[i], spaces, indent) {
            Err(e) => {
                return Err(e);
            },
            Ok(()) => {},
        }
        proof {
            let head = encoding(here[0], spaces as nat, indent as nat)->Ok_0;
            let rest = items_text(here.skip(1), spaces as nat, indent as nat)->Ok_0;
            assert(writer@ + rest =~= before + (head + rest));
        }
        i = i + 1;
    }
    proof {
        assert(all.skip(i as int) =~= Seq::<Value>::empty());
        assert(writer@ + Seq::<char>::empty() =~= writer@);
    }
    Ok(())
}

/// Appends the text of a real number.
fn generate_real(writer: &mut String, x: &LLSDReal, indent: usize) -> (r: Result<(), EncodeError>)
    ensures
        appended(
            r,
            old(writer)@,
            final(writer)@,
            match real_text(x@) {
                Ok(t) => Ok(leaf("real"@, t, indent as nat)),
                Err(e) => Err(e),
            },
        ),
{
    match x {
        LLSDReal::Decimal(t) => {
            let chars = chars_of(t.as_str());
            if !is_real(&chars) {
                return Err(EncodeError::BadNumeral);
            }
            if str_eq(t.as_str(), "NaN") {
                tag_value(writer, "real", "nan", indent);
            } else {
                tag_value(writer, "real", t.as_str(), indent);
            }
            Ok(())
        },
        LLSDReal::Bits(bits) => {
            if is_nan(*bits) {
                tag_value(writer, "real", "nan", indent);
                Ok(())
            } else {
                Err(EncodeError::RealWithoutNumeral)
            }
        },
    }
}

/// Generate one <TYPE> VALUE </TYPE> output. VALUE is recursive.
pub fn generate_value(writer: &mut String, val: &LLSDValue, spaces: usize, indent: usize) -> (r:
    Result<(), EncodeError>)
    ensures
        appended(r, old(writer)@, final(writer)@, encoding(val@, spaces as nat, indent as nat)),
    decreases val, 0nat,
{
    match val {
        LLSDValue::Undefined => {
            tag_value(writer, "undef", "", indent);
            proof {
                reveal_strlit("");
                assert(""@ =~= Seq::<char>::empty());
            }
            Ok(())
        },
        LLSDValue::Boolean(v) => {
            tag_value(
                writer,
                "boolean",
                if *v {
                    "true"
                } else {
                    "false"
                },
                indent,
            );
            Ok(())
        },
        LLSDValue::String(v) => {
            tag_value(writer, "string", v.as_str(), indent);
            Ok(())
        },
        LLSDValue::URI(v) => {
            tag_value(writer, "uri", v.as_str(), indent);
            Ok(())
        },
        LLSDValue::Integer(v) => {
            let mut text = String::new();
            push_int(&mut text, *v as i64);
            assert(text@ =~= text_of_int(*v as int));
            tag_value(writer, "integer", text.as_str(), indent);
            Ok(())
        },
        LLSDValue::Real(v) => generate_real(writer, v, indent),
        LLSDValue::UUID(v) => {
            let text = uuid_format(v);
            tag_value(writer, "uuid", text.as_str(), indent);
            Ok(())
        },
        LLSDValue::Binary(v) => {
            let text = base64_encode(v.as_slice());
            tag_value(writer, "binary", text.as_str(), indent);
            Ok(())
        },
        LLSDValue::Date(v) => {
            match format_rfc3339(*v) {
                Some(text) => {
                    tag_value(writer, "date", text.as_str(), indent);
                    Ok(())
                },
                None => Err(EncodeError::DateOutOfRange),
            }
        },
        LLSDValue::Mapping(v) => {
            if indent > usize::MAX - spaces {
                return Err(EncodeError::TooLong);
            }
            tag(writer, "map", false, indent);
            match generate_entries(writer, v, spaces, indent + spaces) {
                Err(e) => {
                    return Err(e);
                },
                Ok(()) => {},
            }
            tag(writer, "map", true, indent);
            proof {
                let body = entries_text(v@, spaces as nat, (indent + spaces) as nat)->Ok_0;
                assert(writer@ =~= old(writer)@ + (tag_line("map"@, false, indent as nat) + body
                    + tag_line("map"@, true, indent as nat)));
            }
            Ok(())
        },
        LLSDValue::Array(v) => {
            if indent > usize::MAX - spaces {
                return Err(EncodeError::TooLong);
            }
            tag(writer, "array", false, indent);
            match generate_items(writer, v, spaces, indent + spaces) {
                Err(e) => {
                    return Err(e);
                },
                Ok(()) => {},
            }
            tag(writer, "array", true, indent);
            proof {
                let body = items_text(
                    items_view(v@),
                    spaces as nat,
                    (indent + spaces) as nat,
                )->Ok_0;
                assert(writer@ =~= old(writer)@ + (tag_line("array"@, false, indent as nat) + body
                    + tag_line("array"@, true, indent as nat)));
            }
            Ok(())
        },
    }
}

/// LLSDValue to String. Pretty prints out the value as XML. Indents by 4
/// spaces if requested.
pub fn to_string(val: &LLSDValue, do_indent: bool) -> (r: Result<String, EncodeError>)
    ensures
        match document(val@, do_indent) {
            Ok(t) => r is Ok && r->Ok_0@ == t,
            Err(e) => r == Err::<String, EncodeError>(e),
        },
{
    let mut s = String::new();
    s.append(LLSDXMLPREFIX);
    assert(s@ =~= LLSDXMLPREFIX@);
    match generate_value(
        &mut s,
        val,
        if do_indent {
            INDENT
        } else {
            0
        },
        0,
    ) {
        Err(e) => Err(e),
        Ok(()) => {
            s.append("</llsd>");
            Ok(s)
        },
    }
}

} // verus!
