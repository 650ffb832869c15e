use serde_llsd::de::notation::{LLSDStreamBytes, LLSDStreamChars};
use serde_llsd::ser::notation::{escape_quotes, escape_url, to_string};
use serde_llsd::text::is_real;
use serde_llsd::{
    notation_from_bytes, notation_from_str, EncodeError, LLSDMap, LLSDReal, LLSDValue,
    NotationError,
};

fn decimal(t: &str) -> LLSDValue {
    LLSDValue::Real(LLSDReal::Decimal(t.to_string()))
}

const UUID_TEXT: &str = "3c115e51-04f4-523c-9fa6-98aff1034730";
const UUID_BYTES: [u8; 16] = [
    0x3c, 0x11, 0x5e, 0x51, 0x04, 0xf4, 0x52, 0x3c, 0x9f, 0xa6, 0x98, 0xaf, 0xf1, 0x03, 0x47, 0x30,
];

#[test]
/// Unit tests
fn notationparse1() {
    let s1 = "\"ABC☺DEF\"".to_string(); // string, including quotes, with emoji.
    let mut stream1 = LLSDStreamChars::new(&s1);
    stream1.consume_char('"').unwrap(); // leading quote
    let v1 = stream1.parse_quoted_string('"').unwrap();
    assert_eq!(v1, "ABC☺DEF");
}

#[test]
fn notationparse2() {
    //  Linden Lab documented test data from wiki. Compatibility test use only.
    const TESTNOTATION2: &str = r#"
[
  {'destination':l"http://secondlife.com"}, 
  {'version':i1}, 
  {
    'agent_id':u3c115e51-04f4-523c-9fa6-98aff1034730, 
    'session_id':u2c585cec-038c-40b0-b42e-a25ebab4d132, 
    'circuit_code':i1075, 
    'first_name':'Phoenix', 
    'last_name':'Linden',
    'position':[r70.9247,r254.378,r38.7304], 
    'look_at':[r-0.043753,r-0.999042,r0], 
    'granters':[ua2e76fcd-9360-4f6d-a924-000000000003],
    'attachment_data':
    [
      {
        'attachment_point':i2,
        'item_id':ud6852c11-a74e-309a-0462-50533f1ef9b3,
        'asset_id':uc69b29b1-8944-58ae-a7c5-2ca7b23e22fb
      },
      {
        'attachment_point':i10, 
        'item_id':uff852c22-a74e-309a-0462-50533f1ef900,
        'asset_id':u5868dd20-c25a-47bd-8b4c-dedc99ef9479
      }
    ]
  }
]
"#;
    let parsed_s = LLSDStreamChars::parse(TESTNOTATION2);
    println!("Parse of string form {}: \n{:#?}", TESTNOTATION2, parsed_s);
    let parsed_b = LLSDStreamBytes::parse(TESTNOTATION2.as_bytes());
    println!("Parse of byte form: {:#?}", parsed_b);
    assert_eq!(parsed_s.unwrap(), parsed_b.unwrap());
}

const TESTNOTATION3: &str = r#"
[
  {
    'creation-date':d"2007-03-15T18:30:18Z", 
    'creator-id':u3c115e51-04f4-523c-9fa6-98aff1034730
  },
  s(10)"0123456789",
  "Where's the beef?",
  'Over here.',  
  b(158)"default
{
    state_entry()
    {
        llSay(0, "Hello, Avatar!");
    }

    touch_start(integer total_number)
    {
        llSay(0, "Touched.");
    }
}",
  b64"AABAAAAAAAAAAAIAAAA//wAAP/8AAADgAAAA5wAAAAAAAAAAAAAAAAAAAAAAAAAAAAAAAAAAAAAA
AABkAAAAZAAAAAAAAAAAAAAAZAAAAAAAAAABAAAAAAAAAAAAAAAAAAAABQAAAAEAAAAQAAAAAAAA
AAUAAAAFAAAAABAAAAAAAAAAPgAAAAQAAAAFAGNbXgAAAABgSGVsbG8sIEF2YXRhciEAZgAAAABc
XgAAAAhwEQjRABeVAAAABQBjW14AAAAAYFRvdWNoZWQuAGYAAAAAXF4AAAAIcBEI0QAXAZUAAEAA
AAAAAAAAAAAAAAAAAAAAAAAAAAAAAAAAAAAAAAAAAAAAAAAAAAAAAAAAAAAAAAAAAAAAAAAAAAAA" 
]
"#;

#[test]
fn notationparse3() {
    //  Linden Lab documented test data from wiki. Compatibility test use only.
    let parsed_b = LLSDStreamBytes::parse(TESTNOTATION3.as_bytes());
    println!("Parse of byte form: {:#?}", parsed_b);
}

#[test]
fn notationparse3_values() {
    let parsed = LLSDStreamBytes::parse(TESTNOTATION3.as_bytes()).unwrap();
    let items = parsed.as_array().unwrap();
    assert_eq!(items.len(), 6);
    let first = items[0].as_map().unwrap();
    assert_eq!(first.get("creation-date"), Some(&LLSDValue::Date(1173983418)));
    assert_eq!(first.get("creator-id"), Some(&LLSDValue::UUID(UUID_BYTES)));
    assert_eq!(items[1], LLSDValue::String("0123456789".to_string()));
    assert_eq!(items[2], LLSDValue::String("Where's the beef?".to_string()));
    assert_eq!(items[3], LLSDValue::String("Over here.".to_string()));
    let script = items[4].as_binary().unwrap();
    assert_eq!(script.len(), 158);
    assert!(script.starts_with(b"default\n{\n    state_entry()"));
    let compiled = items[5].as_binary().unwrap();
    assert_eq!(compiled.len(), 285);
    assert_eq!(&compiled[..4], &[0, 0, 0x40, 0]);
    // the same text, read as characters, has no byte-counted forms
    assert_eq!(
        LLSDStreamChars::parse(TESTNOTATION3),
        Err(NotationError::Unsupported)
    );
}

#[test]
fn notationparse4() {
    //  This is a "material override".
    const TESTNOTATION4: &str = r#"
        {'gltf_json':['{\"asset\":{\"version\":\"2.0\"},\"images\":[{\"uri\":\"5748decc-f629-461c-9a36-a35a221fe21f\"},
            {\"uri\":\"5748decc-f629-461c-9a36-a35a221fe21f\"}],\"materials\":[{\"occlusionTexture\":{\"index\":1},\"pbrMetallicRoughness\":{\"metallicRoughnessTexture\":{\"index\":0},\"roughnessFactor\":0.20000000298023224}}],\"textures\":[{\"source\":0},
            {\"source\":1}]}\\n'],'local_id':i8893800,'object_id':u6ac43d70-80eb-e526-ec91-110b4116293e,'region_handle_x':i342016,'region_handle_y':i343552,'sides':[i0]}"
"#;
    let parsed_b = LLSDStreamBytes::parse(TESTNOTATION4.as_bytes());
    println!("Parse of byte form: {:#?}", parsed_b);
    let local_id = *parsed_b
        .unwrap()
        .as_map()
        .unwrap()
        .get("local_id")
        .unwrap()
        .as_integer()
        .unwrap();
    assert_eq!(local_id, 8893800); // validate local ID
}

#[test]
fn notationgentest1() {
    const TESTXMLNAN: &str = r#"
<?xml version="1.0" encoding="UTF-8"?>
<llsd>
<array>
<real>nan</real>
<real>0</real>
<undef />
</array>
</llsd>
"#;

    const TESTXML1: &str = r#"
<?xml version="1.0" encoding="UTF-8"?>
<llsd>
<map>
  <key>region_id</key>
    <uuid>67153d5b-3659-afb4-8510-adda2c034649</uuid>
  <key>scale</key>
    <string>one minute</string>
  <key>simulator statistics</key>
  <map>
    <key>time dilation</key><real>0.9878624</real>
    <key>sim fps</key><real>44.38898</real>
    <key>pysics fps</key><real>44.38906</real>
    <key>lsl instructions per second</key><real>0</real>
    <key>total task count</key><real>4</real>
    <key>active task count</key><real>0</real>
    <key>active script count</key><real>4</real>
    <key>main agent count</key><real>0</real>
    <key>child agent count</key><real>0</real>
    <key>inbound packets per second</key><real>1.228283</real>
    <key>outbound packets per second</key><real>1.277508</real>
    <key>pending downloads</key><real>0</real>
    <key>pending uploads</key><real>0.0001096525</real>
    <key>frame ms</key><real>0.7757886</real>
    <key>net ms</key><real>0.3152919</real>
    <key>sim other ms</key><real>0.1826937</real>
    <key>sim physics ms</key><real>0.04323055</real>
    <key>agent ms</key><real>0.01599029</real>
    <key>image ms</key><real>0.01865955</real>
    <key>script ms</key><real>0.1338836</real>
    <!-- Comment - some additional test values -->
    <key>hex number</key><binary encoding="base16">0fa1</binary>
    <key>base64 number</key><binary>SGVsbG8gd29ybGQ=</binary>
    <key>date</key><date>2006-02-01T14:29:53Z</date>
    <key>array</key>
        <array>
            <boolean>false</boolean>
            <integer>42</integer>
            <undef/>
            <uuid/>
            <boolean>1</boolean>
        </array>
  </map>
</map>
</llsd>
"#;

    fn trytestcase(teststr: &str) {
        //  Internal utility function.
        //  Parse canned XML test case into internal format.
        let parsed1 = serde_llsd::de::xml::from_str(teststr).unwrap();
        println!("Parse of {}: \n{:#?}", teststr, parsed1);
        //  Generate Notation back from parsed version.
        let generated = to_string(&parsed1).unwrap();
        println!("Generated Notation format:\n{}", generated);
    }
    trytestcase(TESTXML1);
    //  Test NAN case
    {
        let parsed1 = serde_llsd::de::xml::from_str(TESTXMLNAN).unwrap();
        println!("Parse of {}: \n{:#?}", TESTXMLNAN, parsed1);
        //  Generate XML back from parsed version.
        let generated = to_string(&parsed1).unwrap();
        println!("Generated Notation format:\n{}", generated);
    }
}

#[test]
fn notation_example_map() {
    let text = "{'a':i1,'b':[r2.5,u3c115e51-04f4-523c-9fa6-98aff1034730]}";
    let mut expected = LLSDMap::new();
    expected.insert("a".to_string(), LLSDValue::Integer(1));
    expected.insert(
        "b".to_string(),
        LLSDValue::Array(vec![decimal("2.5"), LLSDValue::UUID(UUID_BYTES)]),
    );
    let expected = LLSDValue::Mapping(expected);
    assert_eq!(notation_from_str(text).unwrap(), expected);
    assert_eq!(notation_from_bytes(text.as_bytes()).unwrap(), expected);
    // the numeral denotes 2.5
    let parsed = notation_from_str(text).unwrap();
    let b = parsed.as_map().unwrap().get("b").unwrap().as_array().unwrap();
    match b[0].as_real().unwrap() {
        LLSDReal::Decimal(t) => assert_eq!(t.parse::<f64>().unwrap(), 2.5),
        other => panic!("unexpected {:?}", other),
    }
}

#[test]
fn notation_reads_each_kind() {
    let p = |t: &str| notation_from_str(t);
    assert_eq!(p("!"), Ok(LLSDValue::Undefined));
    assert_eq!(p("0"), Ok(LLSDValue::Boolean(false)));
    assert_eq!(p("1"), Ok(LLSDValue::Boolean(true)));
    for t in ["t", "T", "true", "TRUE"] {
        assert_eq!(p(t), Ok(LLSDValue::Boolean(true)));
    }
    for f in ["f", "F", "false", "FALSE"] {
        assert_eq!(p(f), Ok(LLSDValue::Boolean(false)));
    }
    for bad in ["True", "tRUE", "fals", "truely", "tt", "Ff", "t\u{e9}", "true\u{e9}", "F\u{3b1}"] {
        assert_eq!(p(bad), Err(NotationError::BadBoolean));
    }
    // a character that is not alphabetic ends the word
    assert_eq!(p("t\u{d7}"), Ok(LLSDValue::Boolean(true)));
    assert_eq!(p("false\u{2028}"), Ok(LLSDValue::Boolean(false)));
    assert_eq!(p("t1"), Ok(LLSDValue::Boolean(true)));
    assert_eq!(notation_from_bytes(b"t\xe9"), Err(NotationError::BadBoolean));
    assert_eq!(notation_from_bytes(b"t\xd7"), Ok(LLSDValue::Boolean(true)));
    assert_eq!(p("i42"), Ok(LLSDValue::Integer(42)));
    assert_eq!(p("i-42"), Ok(LLSDValue::Integer(-42)));
    assert_eq!(p("i+42"), Ok(LLSDValue::Integer(42)));
    assert_eq!(p("i2147483647"), Ok(LLSDValue::Integer(i32::MAX)));
    assert_eq!(p("i-2147483648"), Ok(LLSDValue::Integer(i32::MIN)));
    assert_eq!(p("i000000000000000000012"), Ok(LLSDValue::Integer(12)));
    for bad in ["i", "i2147483648", "i-2147483649", "i1-2", "i--1", "i+", "ix", "i99999999999999999999999"] {
        assert_eq!(p(bad), Err(NotationError::BadInteger));
    }
    assert_eq!(p("r2.5"), Ok(decimal("2.5")));
    assert_eq!(p("r-0.043753"), Ok(decimal("-0.043753")));
    assert_eq!(p("r0"), Ok(decimal("0")));
    assert_eq!(p("r.5"), Ok(decimal(".5")));
    assert_eq!(p("r5."), Ok(decimal("5.")));
    assert_eq!(p("r1e5"), Ok(decimal("1"))); // no exponent form: the numeral ends at `e`
    for bad in ["r", "r.", "r1.2.3", "r+-1", "r-", "rNaN", "r1-"] {
        assert_eq!(p(bad), Err(NotationError::BadReal));
    }
    assert_eq!(
        p("d\"2006-02-01T14:29:53Z\""),
        Ok(LLSDValue::Date(1138804193))
    );
    assert_eq!(
        p("d'1969-12-31T23:59:59+00:00'"),
        Ok(LLSDValue::Date(-1))
    );
    assert_eq!(p("d\"yesterday\""), Err(NotationError::BadDate));
    assert_eq!(p("d2006"), Err(NotationError::MissingQuote('2')));
    assert_eq!(p("d"), Err(NotationError::UnexpectedEnd));
    assert_eq!(
        p(&format!("u{}", UUID_TEXT)),
        Ok(LLSDValue::UUID(UUID_BYTES))
    );
    assert_eq!(p("u3c115e51"), Err(NotationError::UnexpectedEnd));
    assert_eq!(
        p("u3c115e51-04f4-523c-9fa6-98aff103473z"),
        Err(NotationError::BadUuid)
    );
    assert_eq!(
        p("l\"http%3A%2F%2Fexample.com%2Fa%20b\""),
        Ok(LLSDValue::URI("http://example.com/a b".to_string()))
    );
    assert_eq!(
        p("l'http://secondlife.com'"),
        Ok(LLSDValue::URI("http://secondlife.com".to_string()))
    );
    assert_eq!(p("l\"%ff\""), Err(NotationError::BadUri));
    assert_eq!(p("lx"), Err(NotationError::MissingQuote('x')));
    assert_eq!(
        p("b64\"SGVsbG8gd29ybGQ=\""),
        Ok(LLSDValue::Binary(b"Hello world".to_vec()))
    );
    assert_eq!(
        p("b64\"SGVs bG8g\nd29y\tbGQ=\""),
        Ok(LLSDValue::Binary(b"Hello world".to_vec()))
    );
    assert_eq!(p("b64\"SGVsbG8gd29ybGQ\""), Err(NotationError::BadBase64));
    assert_eq!(
        p("b16\"0fA1 ff\""),
        Ok(LLSDValue::Binary(vec![0x0f, 0xa1, 0xff]))
    );
    assert_eq!(p("b16\"0fa\""), Err(NotationError::BadHex));
    assert_eq!(p("b16\"0g\""), Err(NotationError::BadHex));
    assert_eq!(p("b16\"\""), Ok(LLSDValue::Binary(vec![])));
    assert_eq!(p("b32\"\""), Err(NotationError::BadBinary('3')));
    assert_eq!(p("b17\"\""), Err(NotationError::Expected('6', '7')));
    assert_eq!(p("b"), Err(NotationError::UnexpectedEnd));
    assert_eq!(p("\"a\\\"b\\\\c\\nd\""), Ok(LLSDValue::String("a\"b\\cnd".to_string())));
    assert_eq!(p("'it''s'"), Ok(LLSDValue::String("it".to_string())));
    assert_eq!(p("\"  lead\""), Ok(LLSDValue::String("  lead".to_string())));
    assert_eq!(p("\"open"), Err(NotationError::UnexpectedEnd));
    assert_eq!(p("\"open\\"), Err(NotationError::UnexpectedEnd));
    assert_eq!(p(""), Err(NotationError::UnexpectedEnd));
    assert_eq!(p("  \n "), Err(NotationError::UnexpectedEnd));
    assert_eq!(p("\ti1"), Err(NotationError::UnexpectedChar('\t')));
    assert_eq!(p("?"), Err(NotationError::UnexpectedChar('?')));
    assert_eq!(p(" \n i7 trailing"), Ok(LLSDValue::Integer(7)));
}

#[test]
fn notation_maps_and_arrays() {
    let p = |t: &str| notation_from_str(t);
    assert_eq!(p("[]"), Ok(LLSDValue::Array(vec![])));
    assert_eq!(p("[ \n ]"), Ok(LLSDValue::Array(vec![])));
    assert_eq!(p("{}"), Ok(LLSDValue::Mapping(LLSDMap::new())));
    assert_eq!(p("{ }"), Ok(LLSDValue::Mapping(LLSDMap::new())));
    let one_two = LLSDValue::Array(vec![LLSDValue::Integer(1), LLSDValue::Integer(2)]);
    assert_eq!(p("[i1,i2]"), Ok(one_two.duplicate()));
    assert_eq!(p("[ i1 , i2 , ]"), Ok(one_two.duplicate()));
    assert_eq!(p("[i1,\ni2,]"), Ok(one_two.duplicate()));
    assert_eq!(p("[[i1,i2]]"), Ok(LLSDValue::Array(vec![one_two.duplicate()])));
    assert_eq!(p("[i1 i2]"), Err(NotationError::BadSeparator('i')));
    assert_eq!(p("[i1,,i2]"), Err(NotationError::UnexpectedChar(',')));
    assert_eq!(p("[,]"), Err(NotationError::UnexpectedChar(',')));
    assert_eq!(p("[i1"), Err(NotationError::UnexpectedEnd));
    assert_eq!(p("[i1,"), Err(NotationError::UnexpectedEnd));
    assert_eq!(p("[i1}"), Err(NotationError::BadSeparator('}')));
    let mut m = LLSDMap::new();
    m.insert("a".to_string(), LLSDValue::Integer(1));
    m.insert("b c".to_string(), LLSDValue::Undefined);
    let m = LLSDValue::Mapping(m);
    assert_eq!(p("{'a':i1,\"b c\":!}"), Ok(m.duplicate()));
    assert_eq!(p("{ 'a' : i1 , 'b c' : ! , }"), Ok(m.duplicate()));
    assert_eq!(p("[{'a':i1,'b c':!}]"), Ok(LLSDValue::Array(vec![m.duplicate()])));
    assert_eq!(p("{'a':i1 'b':i2}"), Err(NotationError::BadSeparator('\'')));
    assert_eq!(p("{a:i1}"), Err(NotationError::BadKey('a')));
    assert_eq!(p("{,}"), Err(NotationError::BadKey(',')));
    assert_eq!(p("{'a'i1}"), Err(NotationError::Expected(':', 'i')));
    assert_eq!(p("{'a':"), Err(NotationError::UnexpectedEnd));
    assert_eq!(p("{'a':i1"), Err(NotationError::UnexpectedEnd));
    assert_eq!(p("{'a"), Err(NotationError::UnexpectedEnd));
    assert_eq!(p("{'a':i1]"), Err(NotationError::BadSeparator(']')));
}

#[test]
fn notation_duplicate_key_keeps_the_last_value() {
    let value = notation_from_str("{'k':i1,'other':i5,'k':i2}").unwrap();
    let map = value.as_map().unwrap();
    assert_eq!(map.len(), 2);
    assert_eq!(map.get("k"), Some(&LLSDValue::Integer(2)));
    assert_eq!(map.get("other"), Some(&LLSDValue::Integer(5)));
}

#[test]
fn notation_byte_counted_forms() {
    let b = |t: &[u8]| notation_from_bytes(t);
    assert_eq!(b(b"s(3)\"abc\""), Ok(LLSDValue::String("abc".to_string())));
    assert_eq!(b(b"s(0)\"\""), Ok(LLSDValue::String(String::new())));
    assert_eq!(
        b(b"s(5)\"a\"b\\c\""),
        Ok(LLSDValue::String("a\"b\\c".to_string()))
    );
    assert_eq!(
        b("s(2)\"é\"".as_bytes()),
        Ok(LLSDValue::String("é".to_string()))
    );
    assert_eq!(b(b"b(3)\"\x00\xff\"\""), Ok(LLSDValue::Binary(vec![0, 0xff, b'"'])));
    assert_eq!(b(b"s(1)\"\xff\""), Err(NotationError::InvalidUtf8));
    assert_eq!(b(b"s(4)\"abc\""), Err(NotationError::UnexpectedEnd));
    assert_eq!(b(b"s(2)\"abc\""), Err(NotationError::Expected('"', 'c')));
    assert_eq!(b(b"s(-1)\"\""), Err(NotationError::BadLength));
    assert_eq!(b(b"s(x)\"\""), Err(NotationError::BadInteger));
    assert_eq!(b(b"s3)\"abc\""), Err(NotationError::Expected('(', '3')));
    assert_eq!(b(b"s(3\"abc\""), Err(NotationError::Expected(')', '"')));
    assert_eq!(b(b"b(1)x"), Err(NotationError::Expected('"', 'x')));
    assert_eq!(
        notation_from_str("s(3)\"abc\""),
        Err(NotationError::Unsupported)
    );
    assert_eq!(
        notation_from_str("b(3)\"abc\""),
        Err(NotationError::Unsupported)
    );
    // the forms without a count are shared by both kinds of stream
    assert_eq!(
        notation_from_str("b16\"00ff\""),
        Ok(LLSDValue::Binary(vec![0, 255]))
    );
    let mut stream = LLSDStreamBytes::new(b"( 12 )");
    assert_eq!(
        stream.parse_number_in_parentheses(),
        Err(NotationError::BadInteger)
    );
    let mut stream = LLSDStreamBytes::new(b" (12)abcdef");
    assert_eq!(stream.parse_number_in_parentheses(), Ok(12));
    assert_eq!(stream.next_chunk(3), Ok(b"abc".to_vec()));
    assert_eq!(stream.next_chunk(4), Err(NotationError::UnexpectedEnd));
}

#[test]
fn notation_bytes_between_quotes_are_utf8() {
    assert_eq!(
        notation_from_bytes("\"ABC☺DEF é\"".as_bytes()),
        Ok(LLSDValue::String("ABC☺DEF é".to_string()))
    );
    assert_eq!(
        notation_from_bytes("{'clé':l\"http://example.com/%C3%A9\"}".as_bytes()),
        notation_from_str("{'clé':l\"http://example.com/%C3%A9\"}")
    );
    assert_eq!(
        notation_from_bytes("'a\\☺b'".as_bytes()),
        Ok(LLSDValue::String("a☺b".to_string()))
    );
    assert_eq!(notation_from_bytes(b"\"\xe9\""), Err(NotationError::InvalidUtf8));
    assert_eq!(notation_from_bytes(b"{'\xff':!}"), Err(NotationError::InvalidUtf8));
    assert_eq!(notation_from_bytes(b"d\"\xff\""), Err(NotationError::InvalidUtf8));
    assert_eq!(notation_from_bytes(b"b16\"\xff\""), Err(NotationError::InvalidUtf8));
    // outside quotes a byte is a character of its own
    assert_eq!(
        notation_from_bytes(b"\xe9"),
        Err(NotationError::UnexpectedChar('\u{e9}'))
    );
}

fn sample_tree() -> LLSDValue {
    let mut inner = LLSDMap::new();
    inner.insert("quote's".to_string(), LLSDValue::Integer(-5));
    inner.insert("clé \u{10348}".to_string(), LLSDValue::String("☺".to_string()));
    inner.insert("back\\slash".to_string(), LLSDValue::Array(vec![]));
    inner.insert("empty".to_string(), LLSDValue::Mapping(LLSDMap::new()));
    LLSDValue::Array(vec![
        LLSDValue::Undefined,
        LLSDValue::Boolean(true),
        LLSDValue::Boolean(false),
        decimal("-0.043753"),
        decimal("70"),
        LLSDValue::Integer(i32::MIN),
        LLSDValue::Integer(i32::MAX),
        LLSDValue::UUID(UUID_BYTES),
        LLSDValue::String("say \"hi\" \\ 'there'".to_string()),
        LLSDValue::String("ABC☺DEF \u{e9}\u{7ff}\u{800}\u{ffff}\u{10000}\u{10ffff}".to_string()),
        LLSDValue::String(String::new()),
        LLSDValue::Date(1138804193),
        LLSDValue::Date(0),
        LLSDValue::Date(-62167219200),
        LLSDValue::Date(253402300799),
        LLSDValue::URI("http://secondlife.com/a b?c=\"d\"&é=☺".to_string()),
        LLSDValue::Binary(b"Hello world".to_vec()),
        LLSDValue::Binary(vec![]),
        LLSDValue::Mapping(inner),
    ])
}

#[test]
fn notation_round_trips_in_both_modes() {
    let tree = sample_tree();
    let text = to_string(&tree).unwrap();
    assert!(text.starts_with("<? llsd/notation ?>\n"));
    let body = &text["<? llsd/notation ?>\n".len()..];
    assert_eq!(notation_from_str(body).unwrap(), tree);
    assert_eq!(notation_from_bytes(body.as_bytes()).unwrap(), tree);
    assert_eq!(serde_llsd::auto_from_str(&text).unwrap(), tree);
    assert_eq!(serde_llsd::auto_from_bytes(text.as_bytes()).unwrap(), tree);
}

#[test]
fn notation_text_of_each_kind() {
    let body = |v: &LLSDValue| to_string(v).unwrap()["<? llsd/notation ?>\n".len()..].to_string();
    assert_eq!(body(&LLSDValue::Undefined), "!");
    assert_eq!(body(&LLSDValue::Boolean(true)), "T");
    assert_eq!(body(&LLSDValue::Boolean(false)), "F");
    assert_eq!(body(&LLSDValue::Integer(-17)), "i-17");
    assert_eq!(body(&LLSDValue::Integer(0)), "i0");
    assert_eq!(body(&LLSDValue::Integer(i32::MIN)), "i-2147483648");
    assert_eq!(body(&decimal("2.5")), "r2.5");
    assert_eq!(
        body(&LLSDValue::Real(LLSDReal::Bits(f64::NAN.to_bits()))),
        "rNaN"
    );
    assert_eq!(body(&LLSDValue::UUID(UUID_BYTES)), format!("u{}", UUID_TEXT));
    assert_eq!(body(&LLSDValue::String("a\"b\\c'd".to_string())), "\"a\\\"b\\\\c'd\"");
    assert_eq!(
        body(&LLSDValue::URI("http://a.b/c d".to_string())),
        "l\"http%3A%2F%2Fa.b%2Fc%20d\""
    );
    assert_eq!(
        body(&LLSDValue::Binary(b"Hello world".to_vec())),
        "b64\"SGVsbG8gd29ybGQ=\""
    );
    assert_eq!(body(&LLSDValue::Date(1138804193)), "d\"2006-02-01T14:29:53Z\"");
    assert_eq!(body(&LLSDValue::Date(-1)), "d\"1969-12-31T23:59:59Z\"");
    assert_eq!(
        body(&LLSDValue::Array(vec![LLSDValue::Integer(1), LLSDValue::Integer(2)])),
        "[i1,\ni2]"
    );
    let mut m = LLSDMap::new();
    m.insert("it's".to_string(), LLSDValue::Integer(1));
    m.insert("b".to_string(), LLSDValue::Array(vec![]));
    assert_eq!(body(&LLSDValue::Mapping(m)), "{'it\\'s':i1,\n'b':[]}");
    assert_eq!(body(&LLSDValue::Mapping(LLSDMap::new())), "{}");
}

#[test]
fn notation_writes_numerals_only() {
    for good in ["0", "-0.5", "+7", "5.", ".5", "0012.50"] {
        let v = decimal(good);
        let text = to_string(&v).unwrap();
        assert_eq!(text, format!("<? llsd/notation ?>\nr{}", good));
        assert_eq!(serde_llsd::auto_from_str(&text).unwrap(), v);
    }
    for bad in ["", "abc", "1e5", "inf", "NaN", "1 ", " 1", "1.2.3", "+-1", ".", "-", "1,s(3)\"abc\""] {
        assert_eq!(to_string(&decimal(bad)), Err(EncodeError::BadNumeral), "on {:?}", bad);
        assert_eq!(
            to_string(&LLSDValue::Array(vec![LLSDValue::Integer(1), decimal(bad)])),
            Err(EncodeError::BadNumeral)
        );
    }
}

#[test]
fn notation_cannot_write_bits_or_far_dates() {
    assert_eq!(
        to_string(&LLSDValue::Real(LLSDReal::Bits(2.5f64.to_bits()))),
        Err(EncodeError::RealWithoutNumeral)
    );
    assert_eq!(
        to_string(&LLSDValue::Real(LLSDReal::Bits(f64::INFINITY.to_bits()))),
        Err(EncodeError::RealWithoutNumeral)
    );
    assert_eq!(
        to_string(&LLSDValue::Date(i64::MAX)),
        Err(EncodeError::DateOutOfRange)
    );
    assert_eq!(
        to_string(&LLSDValue::Array(vec![LLSDValue::Date(i64::MIN)])),
        Err(EncodeError::DateOutOfRange)
    );
}

#[test]
fn escapes() {
    assert_eq!(escape_quotes("plain"), "plain");
    assert_eq!(escape_quotes("a\"b"), "a\\\"b");
    assert_eq!(escape_quotes("a\\b"), "a\\\\b");
    assert_eq!(escape_quotes("'"), "'");
    assert_eq!(escape_url("a-b_c.d~e"), "a-b_c.d~e");
    assert_eq!(escape_url("a b/é"), "a%20b%2F%C3%A9");
}

#[test]
fn real_numerals_are_those_that_parse_as_floats() {
    let samples = [
        "", "+", "-", ".", "0", "-0", "+0", "1.", ".5", "1.5", "-1.5e10", "1e5", "1E5", "1e+5",
        "1e-5", "1e", "1e+", "e5", ".e5", "1.e5", "1.2.3", "inf", "-inf", "+INF", "Infinity",
        "-infinity", "infinit", "nan", "NaN", "-nan", "+NaN", "nano", " 1", "1 ", "1_000",
        "0x10", "१", "1.5f", "--1", "+-1", "1e5.5", "00012", "1e0005",
        "123456789012345678901234567890.5",
    ];
    for s in samples {
        let chars: Vec<char> = s.chars().collect();
        assert_eq!(is_real(&chars), s.parse::<f64>().is_ok(), "on {:?}", s);
    }
}
