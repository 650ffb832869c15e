use base64::Engine;
use serde_llsd::de::xml::{
    decode_events, read_events, parse_binary, parse_boolean, parse_date, parse_integer, trim,
    XmlEvent, XmlEventKind,
};
use serde_llsd::ser::xml::{to_string, xml_escape};
use serde_llsd::{
    from_str, EncodeError, LLSDMap, LLSDReal, LLSDValue, XmlError, XmlErrorKind,
};

fn decimal(t: &str) -> LLSDValue {
    LLSDValue::Real(LLSDReal::Decimal(t.to_string()))
}

fn doc(body: &str) -> String {
    format!("<?xml version=\"1.0\" encoding=\"UTF-8\"?>\n<llsd>{}</llsd>", body)
}

fn kind_of(body: &str) -> XmlErrorKind {
    from_str(&doc(body)).unwrap_err().kind
}

#[test]
fn xmlparsetest1() {
    const TESTXMLZERO: &str = r#"
<?xml version="1.0" encoding="UTF-8"?>
<llsd>
<array>
<integer>0</integer>
<integer>100</integer>
<integer />
</array>
</llsd>
"#;

    const TESTXMLZEROARRAY: [i32; 3] = [0, 100, 0]; // expected values

    const TESTXMLNAN: &str = r#"
<?xml version="1.0" encoding="UTF-8"?>
<llsd>
<array>
<real>nan</real>
<real>0</real>
<undef />
</array>
</llsd>
"#;

    const TESTXML1: &str = r#"
<?xml version="1.0" encoding="UTF-8"?>
<llsd>
<map>
  <key>region_id</key>
    <uuid>67153d5b-3659-afb4-8510-adda2c034649</uuid>
  <key>scale</key>
    <string>one minute</string>
  <key>simulator statistics</key>
  <map>
    <key>time dilation</key><real>0.9878624</real>
    <key>sim fps</key><real>44.38898</real>
    <key>pysics fps</key><real>44.38906</real>
    <key>lsl instructions per second</key><real>0</real>
    <key>total task count</key><real>4</real>
    <key>active task count</key><real>0</real>
    <key>active script count</key><real>4</real>
    <key>main agent count</key><real>0</real>
    <key>child agent count</key><real>0</real>
    <key>inbound packets per second</key><real>1.228283</real>
    <key>outbound packets per second</key><real>1.277508</real>
    <key>pending downloads</key><real>0</real>
    <key>pending uploads</key><real>0.0001096525</real>
    <key>frame ms</key><real>0.7757886</real>
    <key>net ms</key><real>0.3152919</real>
    <key>sim other ms</key><real>0.1826937</real>
    <key>sim physics ms</key><real>0.04323055</real>
    <key>agent ms</key><real>0.01599029</real>
    <key>image ms</key><real>0.01865955</real>
    <key>script ms</key><real>0.1338836</real>
    <!-- Comment - some additional test values -->
    <key>hex number</key><binary encoding="base16">0fa1</binary>
    <key>base64 number</key><binary>SGVsbG8gd29ybGQ=</binary>
    <key>date</key><date>2006-02-01T14:29:53Z</date>
    <key>array</key>
        <array>
            <boolean>false</boolean>
            <integer>42</integer>
            <undef/>
            <uuid/>
            <boolean>1</boolean>
        </array>
  </map>
</map>
</llsd>
"#;

    fn trytestcase(teststr: &str) {
        //  Internal utility function.
        //  Parse canned XML test case into internal format.
        let parsed1 = from_str(teststr).unwrap();
        println!("Parse of {}: \n{:#?}", teststr, parsed1);
        //  Generate XML back from parsed version.
        let generated = to_string(&parsed1, true).unwrap();
        //  Parse that.
        let parsed2 = from_str(&generated).unwrap();
        //  Check that parses match.
        assert_eq!(parsed1, parsed2);
    }
    trytestcase(TESTXML1);
    //  Special test cases.
    //  Test zero case, where an empty <integer /> is 0, per spec.
    {
        let parsed0 = from_str(TESTXMLZERO).unwrap();
        println!("Parse of {}: \n{:#?}", TESTXMLZERO, parsed0);
        let arr = parsed0.as_array().unwrap(); // yields array of LLSD values
        assert_eq!(arr.len(), TESTXMLZEROARRAY.len()); // lengths must match
        for (item, n) in arr.iter().zip(TESTXMLZEROARRAY) {
            assert_eq!(n, *(item.as_integer().unwrap())); // must match
        }
    }
    //  Test NAN case
    {
        let parsed1 = from_str(TESTXMLNAN).unwrap();
        println!("Parse of {}: \n{:#?}", TESTXMLNAN, parsed1);
        //  Generate XML back from parsed version.
        let generated = to_string(&parsed1, true).unwrap();
        //  Remove all white space for comparison
        let s1 = TESTXMLNAN.replace(" ", "").replace("\n", "");
        let s2 = generated.replace(" ", "").replace("\n", "");
        assert_eq!(s1, s2);
    }
}

#[test]
fn xml_nan_token() {
    for token in ["nan", "NaN", "NAN", "nAn"] {
        let v = from_str(&doc(&format!("<real>{}</real>", token))).unwrap();
        match v {
            LLSDValue::Real(LLSDReal::Bits(bits)) => {
                assert!(f64::from_bits(bits).is_nan());
                assert_eq!(bits, f64::NAN.to_bits());
            }
            other => panic!("unexpected {:?}", other),
        }
        let text = to_string(&v, false).unwrap();
        assert_eq!(text, doc("\n<real>nan</real>\n"));
    }
    // a numeral that says NaN is written as the token too
    assert_eq!(
        to_string(&decimal("NaN"), false).unwrap(),
        doc("\n<real>nan</real>\n")
    );
}

#[test]
fn xml_boundary_cases() {
    assert_eq!(from_str(&doc("<integer/>")).unwrap(), LLSDValue::Integer(0));
    assert_eq!(from_str(&doc("<integer />")).unwrap(), LLSDValue::Integer(0));
    assert_eq!(from_str(&doc("<integer></integer>")).unwrap(), LLSDValue::Integer(0));
    assert_eq!(from_str(&doc("<uuid/>")).unwrap(), LLSDValue::UUID([0; 16]));
    assert_eq!(from_str(&doc("<uuid></uuid>")).unwrap(), LLSDValue::UUID([0; 16]));
    assert_eq!(from_str(&doc("<map/>")).unwrap(), LLSDValue::Mapping(LLSDMap::new()));
    assert_eq!(from_str(&doc("<array/>")).unwrap(), LLSDValue::Array(vec![]));
    assert_eq!(from_str(&doc("<string/>")).unwrap(), LLSDValue::String(String::new()));
    assert_eq!(from_str(&doc("<binary/>")).unwrap(), LLSDValue::Binary(vec![]));
    assert_eq!(from_str(&doc("<undef/>")).unwrap(), LLSDValue::Undefined);
    // the two accommodations are for integer and uuid alone
    assert_eq!(kind_of("<boolean/>"), XmlErrorKind::BadBoolean);
    assert_eq!(kind_of("<real/>"), XmlErrorKind::BadReal);
    assert_eq!(kind_of("<date/>"), XmlErrorKind::BadDate);
    for empty in [LLSDValue::Mapping(LLSDMap::new()), LLSDValue::Array(vec![])] {
        for indent in [true, false] {
            let text = to_string(&empty, indent).unwrap();
            assert_eq!(from_str(&text).unwrap(), empty);
        }
    }
}

#[test]
fn xml_reads_each_kind() {
    let p = |body: &str| from_str(&doc(body)).unwrap();
    assert_eq!(p("<boolean>true</boolean>"), LLSDValue::Boolean(true));
    assert_eq!(p("<boolean>1</boolean>"), LLSDValue::Boolean(true));
    assert_eq!(p("<boolean>1.0</boolean>"), LLSDValue::Boolean(true));
    assert_eq!(p("<boolean>false</boolean>"), LLSDValue::Boolean(false));
    assert_eq!(p("<boolean>0</boolean>"), LLSDValue::Boolean(false));
    assert_eq!(p("<boolean>0.0</boolean>"), LLSDValue::Boolean(false));
    assert_eq!(p("<integer> -12 </integer>"), LLSDValue::Integer(-12));
    assert_eq!(p("<integer>+2147483647</integer>"), LLSDValue::Integer(i32::MAX));
    assert_eq!(p("<real>0.9878624</real>"), decimal("0.9878624"));
    assert_eq!(p("<real>1e-5</real>"), decimal("1e-5"));
    assert_eq!(p("<real>-Infinity</real>"), decimal("-Infinity"));
    assert_eq!(p("<string> one  minute </string>"), LLSDValue::String("one  minute".to_string()));
    assert_eq!(
        p("<string>a &lt; b &amp;&amp; c &gt; &quot;d&quot; &apos;e&apos; &#x263a;</string>"),
        LLSDValue::String("a < b && c > \"d\" 'e' ☺".to_string())
    );
    assert_eq!(
        p("<string>one<!-- split -->two</string>"),
        LLSDValue::String("one two".to_string())
    );
    assert_eq!(
        p("<uri>http://secondlife.com</uri>"),
        LLSDValue::URI("http://secondlife.com".to_string())
    );
    assert_eq!(
        p("<uuid>67153d5b-3659-afb4-8510-adda2c034649</uuid>"),
        LLSDValue::UUID([
            0x67, 0x15, 0x3d, 0x5b, 0x36, 0x59, 0xaf, 0xb4, 0x85, 0x10, 0xad, 0xda, 0x2c, 0x03,
            0x46, 0x49
        ])
    );
    assert_eq!(p("<date>2006-02-01T14:29:53Z</date>"), LLSDValue::Date(1138804193));
    assert_eq!(
        p("<date>2006-02-01T14:29:53.43+01:00</date>"),
        LLSDValue::Date(1138804193 - 3600)
    );
    assert_eq!(
        p("<binary>SGVsbG8gd29ybGQ=</binary>"),
        LLSDValue::Binary(b"Hello world".to_vec())
    );
    assert_eq!(
        p("<binary encoding=\"base64\">SGVsbG8gd29ybGQ=</binary>"),
        LLSDValue::Binary(b"Hello world".to_vec())
    );
    assert_eq!(
        p("<binary encoding='base16'>0fA1</binary>"),
        LLSDValue::Binary(vec![0x0f, 0xa1])
    );
    assert_eq!(
        p("<binary other=\"x\" encoding=\"base&#49;6\">ff</binary>"),
        LLSDValue::Binary(vec![0xff])
    );
    assert_eq!(
        p("<binary encoding=\"base85\">&lt;~9jqo^F*2M7/c~&gt;</binary>"),
        LLSDValue::Binary(b"Man sure.".to_vec())
    );
    assert_eq!(
        p("<binary encoding=\"base85\">9jqo^ F*2M7\n/c</binary>"),
        LLSDValue::Binary(b"Man sure.".to_vec())
    );
    assert_eq!(
        p("<binary encoding=\"base85\">/cuuu</binary>"),
        LLSDValue::Binary(vec![46, 3, 25, 180])
    );
    assert_eq!(
        p("<binary encoding=\"base85\">s8W-!</binary>"),
        LLSDValue::Binary(vec![255, 255, 255, 255])
    );
    assert_eq!(p("<binary encoding=\"base85\"></binary>"), LLSDValue::Binary(vec![]));
    let mut m = LLSDMap::new();
    m.insert("a b".to_string(), LLSDValue::Integer(1));
    m.insert("c".to_string(), LLSDValue::Array(vec![LLSDValue::Undefined, decimal("2")]));
    assert_eq!(
        p("<map> <key> a b </key><integer>1</integer><!-- c --><key>c</key><array><undef/><real>2</real></array></map>"),
        LLSDValue::Mapping(m)
    );
}

#[test]
fn xml_duplicate_key_keeps_the_last_value() {
    let value = from_str(&doc(
        "<map><key>k</key><integer>1</integer><key>k</key><integer>2</integer></map>",
    ))
    .unwrap();
    let map = value.as_map().unwrap();
    assert_eq!(map.len(), 1);
    assert_eq!(map.get("k"), Some(&LLSDValue::Integer(2)));
}

#[test]
fn xml_rejects_malformed_documents() {
    assert_eq!(kind_of(""), XmlErrorKind::ExpectedValue);
    assert_eq!(kind_of("text"), XmlErrorKind::ExpectedValue);
    assert_eq!(kind_of("<!-- c --><integer>1</integer>"), XmlErrorKind::ExpectedValue);
    assert_eq!(
        kind_of("<integer>1</integer><integer>2</integer>"),
        XmlErrorKind::ExpectedLlsd
    );
    assert_eq!(kind_of("<float>1</float>"), XmlErrorKind::UnknownType);
    assert_eq!(kind_of("<llsd><integer>1</integer></llsd>"), XmlErrorKind::UnknownType);
    assert_eq!(kind_of("<key>1</key>"), XmlErrorKind::UnknownType);
    assert_eq!(kind_of("<integer>1</real>"), XmlErrorKind::Syntax);
    assert_eq!(kind_of("<integer>1<x/></integer>"), XmlErrorKind::UnexpectedEvent);
    assert_eq!(kind_of("<integer><![CDATA[1]]></integer>"), XmlErrorKind::UnexpectedEvent);
    assert_eq!(kind_of("<integer>one</integer>"), XmlErrorKind::BadInteger);
    assert_eq!(kind_of("<integer>2147483648</integer>"), XmlErrorKind::BadInteger);
    assert_eq!(kind_of("<integer>1.0</integer>"), XmlErrorKind::BadInteger);
    assert_eq!(kind_of("<real>one</real>"), XmlErrorKind::BadReal);
    assert_eq!(kind_of("<real>1,5</real>"), XmlErrorKind::BadReal);
    assert_eq!(kind_of("<boolean>TRUE</boolean>"), XmlErrorKind::BadBoolean);
    assert_eq!(kind_of("<boolean>yes</boolean>"), XmlErrorKind::BadBoolean);
    assert_eq!(kind_of("<uuid>67153d5b</uuid>"), XmlErrorKind::BadUuid);
    assert_eq!(kind_of("<date>2006-02-01</date>"), XmlErrorKind::BadDate);
    assert_eq!(kind_of("<binary>@@@</binary>"), XmlErrorKind::BadBinary);
    assert_eq!(kind_of("<binary>SGVs bG8=</binary>"), XmlErrorKind::BadBinary);
    assert_eq!(kind_of("<binary encoding=\"base16\">0f1</binary>"), XmlErrorKind::BadBinary);
    assert_eq!(kind_of("<binary encoding=\"base85\">vvvvv</binary>"), XmlErrorKind::BadBinary);
    assert_eq!(kind_of("<binary encoding=\"base85\">uuuuu</binary>"), XmlErrorKind::BadBinary);
    assert_eq!(kind_of("<binary encoding=\"base85\">s8W-\"</binary>"), XmlErrorKind::BadBinary);
    assert_eq!(kind_of("<binary encoding=\"base85\">zzzzz</binary>"), XmlErrorKind::BadBinary);
    assert_eq!(kind_of("<binary encoding=\"base32\">aa</binary>"), XmlErrorKind::UnknownEncoding);
    assert_eq!(kind_of("<binary encoding=base16>aa</binary>"), XmlErrorKind::BadAttribute);
    assert_eq!(kind_of("<binary encoding=\"&bogus;\">aa</binary>"), XmlErrorKind::BadAttribute);
    assert_eq!(kind_of("<string>&bogus;</string>"), XmlErrorKind::BadText);
    assert_eq!(kind_of("<map><integer>1</integer></map>"), XmlErrorKind::ExpectedKey);
    assert_eq!(kind_of("<map><key><b/></key><integer>1</integer></map>"), XmlErrorKind::ExpectedKey);
    assert_eq!(kind_of("<map><key>k</key></map>"), XmlErrorKind::UnexpectedEvent);
    assert_eq!(kind_of("<map><key>k</key>text<integer>1</integer></map>"), XmlErrorKind::UnexpectedEvent);
    assert_eq!(kind_of("<map><![CDATA[1]]></map>"), XmlErrorKind::UnexpectedEvent);
    assert_eq!(kind_of("<array><float/></array>"), XmlErrorKind::UnknownType);
    assert_eq!(kind_of("<array>&bogus;</array>"), XmlErrorKind::BadText);
    let whole = |text: &str| from_str(text).unwrap_err().kind;
    assert_eq!(whole(""), XmlErrorKind::NoLlsd);
    assert_eq!(whole("<?xml version=\"1.0\"?>"), XmlErrorKind::NoLlsd);
    assert_eq!(whole("<data><integer>1</integer></data>"), XmlErrorKind::ExpectedLlsd);
    assert_eq!(whole("<llsd>"), XmlErrorKind::ExpectedValue);
    assert_eq!(whole("<llsd><integer>1"), XmlErrorKind::UnexpectedEnd);
    assert_eq!(whole("<llsd><map><key>k"), XmlErrorKind::UnexpectedEnd);
    assert_eq!(whole("<llsd><map><key>k</key>"), XmlErrorKind::UnexpectedEvent);
    assert_eq!(whole("<llsd><array><integer>1</integer>"), XmlErrorKind::UnexpectedEnd);
    assert_eq!(whole("<llsd><map>"), XmlErrorKind::UnexpectedEnd);
    assert_eq!(
        whole("<llsd><undef/></llsd><llsd><undef/></llsd>"),
        XmlErrorKind::DuplicateLlsd
    );
    assert_eq!(whole("<llsd><undef/></llsd><!bogus>"), XmlErrorKind::Syntax);
}

#[test]
fn xml_errors_carry_an_offset() {
    assert_eq!(
        from_str("<llsd><integer>x</integer></llsd>"),
        Err(XmlError { kind: XmlErrorKind::BadInteger, offset: 26 })
    );
    assert_eq!(
        from_str("<llsd><integer>1"),
        Err(XmlError { kind: XmlErrorKind::UnexpectedEnd, offset: 16 })
    );
    assert_eq!(
        from_str("<b>"),
        Err(XmlError { kind: XmlErrorKind::ExpectedLlsd, offset: 3 })
    );
}

#[test]
fn xml_events_are_read_in_order() {
    let events = read_events(b"<llsd><binary encoding=\"base16\">0f</binary><undef/><!-- c --></llsd>");
    let kinds: Vec<XmlEventKind> = events.iter().map(|e| e.kind).collect();
    assert_eq!(
        kinds,
        vec![
            XmlEventKind::Start,
            XmlEventKind::Start,
            XmlEventKind::Text,
            XmlEventKind::End,
            XmlEventKind::Start,
            XmlEventKind::End,
            XmlEventKind::Comment,
            XmlEventKind::End,
        ]
    );
    assert_eq!(events[0].content, b"llsd".to_vec());
    assert_eq!(events[0].offset, 6);
    assert_eq!(events[1].content, b"binary encoding=\"base16\"".to_vec());
    assert_eq!(events[2].content, b"0f".to_vec());
    assert_eq!(events[3].content, b"binary".to_vec());
    assert_eq!(events[4].content, b"undef".to_vec());
    assert_eq!(events[5].content, b"undef".to_vec());
    let broken = read_events(b"<a></b>");
    assert_eq!(broken.len(), 2);
    assert_eq!(broken[1].kind, XmlEventKind::Error);
}

#[test]
fn xml_events_decode_without_a_reader() {
    let event = |kind: XmlEventKind, content: &str, offset: usize| XmlEvent {
        kind,
        content: content.as_bytes().to_vec(),
        offset,
    };
    let events = vec![
        event(XmlEventKind::Other, "", 5),
        event(XmlEventKind::Start, "llsd", 10),
        event(XmlEventKind::Start, "array", 20),
        event(XmlEventKind::Start, "integer", 30),
        event(XmlEventKind::Text, "7", 31),
        event(XmlEventKind::End, "integer", 40),
        event(XmlEventKind::Start, "string\tx=\"1\"", 50),
        event(XmlEventKind::Text, "a&amp;b", 57),
        event(XmlEventKind::Comment, "", 60),
        event(XmlEventKind::Text, "c", 61),
        event(XmlEventKind::End, "string", 70),
        event(XmlEventKind::End, "array", 80),
        event(XmlEventKind::End, "llsd", 90),
    ];
    assert_eq!(
        decode_events(&events, 90),
        Ok(LLSDValue::Array(vec![
            LLSDValue::Integer(7),
            LLSDValue::String("a&b c".to_string())
        ]))
    );
    assert_eq!(
        decode_events(&events[..11].iter().map(|e| XmlEvent {
            kind: e.kind,
            content: e.content.clone(),
            offset: e.offset
        }).collect(), 77),
        Err(XmlError { kind: XmlErrorKind::UnexpectedEnd, offset: 77 })
    );
    let unmatched = vec![
        event(XmlEventKind::Start, "llsd", 10),
        event(XmlEventKind::Start, "integer", 30),
        event(XmlEventKind::End, "real", 40),
    ];
    assert_eq!(
        decode_events(&unmatched, 40),
        Err(XmlError { kind: XmlErrorKind::UnmatchedTag, offset: 40 })
    );
    let bad_name = vec![
        event(XmlEventKind::Start, "llsd", 10),
        XmlEvent { kind: XmlEventKind::Start, content: vec![0xff], offset: 13 },
    ];
    assert_eq!(
        decode_events(&bad_name, 13),
        Err(XmlError { kind: XmlErrorKind::BadName, offset: 13 })
    );
}

fn sample_tree() -> LLSDValue {
    let mut inner = LLSDMap::new();
    inner.insert("a < b".to_string(), LLSDValue::Integer(-5));
    inner.insert("nested".to_string(), LLSDValue::Array(vec![LLSDValue::Mapping(LLSDMap::new())]));
    LLSDValue::Array(vec![
        LLSDValue::Undefined,
        LLSDValue::Boolean(true),
        LLSDValue::Boolean(false),
        decimal("-0.043753"),
        decimal("1e-7"),
        decimal("inf"),
        LLSDValue::Integer(i32::MIN),
        LLSDValue::Integer(i32::MAX),
        LLSDValue::UUID([0x5a; 16]),
        LLSDValue::String("say \"hi\" & <wave> 'now'".to_string()),
        LLSDValue::String(String::new()),
        LLSDValue::Date(1138804193),
        LLSDValue::Date(-1),
        LLSDValue::URI("http://secondlife.com/?a=1&b=2".to_string()),
        LLSDValue::Binary(b"Hello world".to_vec()),
        LLSDValue::Binary(vec![]),
        LLSDValue::Mapping(inner),
    ])
}

#[test]
fn xml_round_trips() {
    let tree = sample_tree();
    for indent in [true, false] {
        let text = to_string(&tree, indent).unwrap();
        assert_eq!(from_str(&text).unwrap(), tree);
        assert_eq!(serde_llsd::auto_from_str(&text).unwrap(), tree);
        assert_eq!(serde_llsd::auto_from_bytes(text.as_bytes()).unwrap(), tree);
    }
}

#[test]
fn xml_text_is_exact() {
    let mut m = LLSDMap::new();
    m.insert("k<".to_string(), LLSDValue::Array(vec![LLSDValue::Integer(1), LLSDValue::Undefined]));
    let tree = LLSDValue::Mapping(m);
    assert_eq!(
        to_string(&tree, true).unwrap(),
        "<?xml version=\"1.0\" encoding=\"UTF-8\"?>\n<llsd>\n<map>\n    <key>k&lt;</key>\n    <array>\n        <integer>1</integer>\n        <undef />\n    </array>\n</map>\n</llsd>"
    );
    assert_eq!(
        to_string(&tree, false).unwrap(),
        "<?xml version=\"1.0\" encoding=\"UTF-8\"?>\n<llsd>\n<map>\n<key>k&lt;</key>\n<array>\n<integer>1</integer>\n<undef />\n</array>\n</map>\n</llsd>"
    );
    let line = |v: &LLSDValue| {
        let text = to_string(v, false).unwrap();
        text["<?xml version=\"1.0\" encoding=\"UTF-8\"?>\n<llsd>\n".len()..text.len() - "</llsd>".len()]
            .to_string()
    };
    assert_eq!(line(&LLSDValue::Boolean(true)), "<boolean>true</boolean>\n");
    assert_eq!(line(&LLSDValue::Boolean(false)), "<boolean>false</boolean>\n");
    assert_eq!(line(&LLSDValue::String(String::new())), "<string />\n");
    assert_eq!(line(&LLSDValue::URI("a&b".to_string())), "<uri>a&amp;b</uri>\n");
    assert_eq!(line(&LLSDValue::Integer(-7)), "<integer>-7</integer>\n");
    assert_eq!(line(&decimal("2.5")), "<real>2.5</real>\n");
    assert_eq!(
        line(&LLSDValue::UUID([0; 16])),
        "<uuid>00000000-0000-0000-0000-000000000000</uuid>\n"
    );
    assert_eq!(
        line(&LLSDValue::Binary(b"Hello world".to_vec())),
        "<binary>SGVsbG8gd29ybGQ=</binary>\n"
    );
    assert_eq!(line(&LLSDValue::Binary(vec![])), "<binary />\n");
    assert_eq!(
        line(&LLSDValue::Date(1138804193)),
        "<date>2006-02-01T14:29:53Z</date>\n"
    );
}

#[test]
fn xml_writes_numerals_only() {
    for good in ["0", "-0.5", "1e5", "inf", "-Infinity", "5.", ".5"] {
        let v = decimal(good);
        let text = to_string(&v, false).unwrap();
        assert_eq!(text, doc(&format!("\n<real>{}</real>\n", good)));
        assert_eq!(from_str(&text).unwrap(), v);
    }
    for bad in ["", "abc", " 1", "1 ", "1,5", "1.2.3", "<real>"] {
        assert_eq!(to_string(&decimal(bad), true), Err(EncodeError::BadNumeral), "on {:?}", bad);
    }
}

#[test]
fn xml_cannot_write_bits_or_far_dates() {
    assert_eq!(
        to_string(&LLSDValue::Real(LLSDReal::Bits(2.5f64.to_bits())), true),
        Err(EncodeError::RealWithoutNumeral)
    );
    assert_eq!(
        to_string(&LLSDValue::Array(vec![LLSDValue::Date(i64::MIN)]), true),
        Err(EncodeError::DateOutOfRange)
    );
}

#[test]
fn xml_helpers() {
    assert_eq!(xml_escape("<a href='x'>&\"</a>"), "&lt;a href=&apos;x&apos;&gt;&amp;&quot;&lt;/a&gt;");
    assert_eq!(xml_escape("plain ☺"), "plain ☺");
    assert_eq!(parse_integer(""), Ok(0));
    assert_eq!(parse_integer("   "), Ok(0));
    assert_eq!(parse_integer(" 42\n"), Ok(42));
    assert_eq!(parse_integer("-2147483648"), Ok(i32::MIN));
    assert_eq!(parse_integer("4 2"), Err(XmlErrorKind::BadInteger));
    assert_eq!(parse_boolean("1.0"), Ok(true));
    assert_eq!(parse_boolean("0.0"), Ok(false));
    assert_eq!(parse_boolean(""), Err(XmlErrorKind::BadBoolean));
    assert_eq!(parse_boolean("True"), Err(XmlErrorKind::BadBoolean));
    assert_eq!(parse_date("1970-01-01T00:00:00Z"), Ok(0));
    assert_eq!(parse_date("1970-01-01T00:00:00"), Err(XmlErrorKind::BadDate));
    assert_eq!(parse_binary("AAEC", b""), Ok(vec![0, 1, 2]));
    assert_eq!(parse_binary("0001", b" encoding=\"base16\""), Ok(vec![0, 1]));
    assert_eq!(trim(" \u{a0}\u{3000}a b\t\r\n"), "a b");
    assert_eq!(trim(" \n"), "");
    for s in [" a ", "\u{85}x\u{2028}", "\u{1680}y\u{205f}", "\u{200b}z", "\u{feff}w"] {
        assert_eq!(trim(s), s.trim());
    }
}

fn expect_leaf(out: &mut Vec<(XmlEventKind, Vec<u8>)>, name: &str, text: &str) {
    if text.is_empty() {
        out.push((XmlEventKind::Start, format!("{} ", name).into_bytes()));
    } else {
        out.push((XmlEventKind::Start, name.as_bytes().to_vec()));
        out.push((XmlEventKind::Text, xml_escape(text).into_bytes()));
    }
    out.push((XmlEventKind::End, name.as_bytes().to_vec()));
}

fn expect_events(out: &mut Vec<(XmlEventKind, Vec<u8>)>, v: &LLSDValue) {
    match v {
        LLSDValue::Undefined => expect_leaf(out, "undef", ""),
        LLSDValue::Boolean(b) => expect_leaf(out, "boolean", if *b { "true" } else { "false" }),
        LLSDValue::Real(LLSDReal::Decimal(t)) => expect_leaf(out, "real", t),
        LLSDValue::Real(LLSDReal::Bits(_)) => expect_leaf(out, "real", "nan"),
        LLSDValue::Integer(i) => expect_leaf(out, "integer", &i.to_string()),
        LLSDValue::UUID(u) => expect_leaf(out, "uuid", &uuid::Uuid::from_bytes(*u).to_string()),
        LLSDValue::String(s) => expect_leaf(out, "string", s),
        LLSDValue::Date(d) => {
            let text = chrono::DateTime::from_timestamp(*d, 0)
                .unwrap()
                .to_rfc3339_opts(chrono::SecondsFormat::Secs, true);
            expect_leaf(out, "date", &text)
        }
        LLSDValue::URI(s) => expect_leaf(out, "uri", s),
        LLSDValue::Binary(b) => {
            expect_leaf(out, "binary", &base64::engine::general_purpose::STANDARD.encode(b))
        }
        LLSDValue::Mapping(m) => {
            out.push((XmlEventKind::Start, b"map".to_vec()));
            for i in 0..m.len() {
                expect_leaf(out, "key", m.key_at(i));
                expect_events(out, m.value_at(i));
            }
            out.push((XmlEventKind::End, b"map".to_vec()));
        }
        LLSDValue::Array(a) => {
            out.push((XmlEventKind::Start, b"array".to_vec()));
            for item in a {
                expect_events(out, item);
            }
            out.push((XmlEventKind::End, b"array".to_vec()));
        }
    }
}

#[test]
fn xml_written_documents_are_split_into_the_events_of_the_tree() {
    let mut inner = LLSDMap::new();
    inner.insert(String::new(), LLSDValue::Binary(vec![]));
    inner.insert("a < b".to_string(), LLSDValue::Mapping(LLSDMap::new()));
    let mut trees = vec![
        sample_tree(),
        LLSDValue::Mapping(inner),
        LLSDValue::Array(vec![]),
        LLSDValue::Real(LLSDReal::Bits(f64::NAN.to_bits())),
        LLSDValue::URI(String::new()),
    ];
    if let LLSDValue::Array(items) = sample_tree() {
        trees.extend(items);
    }
    for tree in &trees {
        for indent in [true, false] {
            let text = to_string(tree, indent).unwrap();
            let found: Vec<(XmlEventKind, Vec<u8>)> = read_events(text.as_bytes())
                .into_iter()
                .map(|e| (e.kind, e.content))
                .collect();
            let mut expected = vec![
                (XmlEventKind::Other, Vec::new()),
                (XmlEventKind::Start, b"llsd".to_vec()),
            ];
            expect_events(&mut expected, tree);
            expected.push((XmlEventKind::End, b"llsd".to_vec()));
            assert_eq!(found, expected, "on {:?}", tree);
            assert_eq!(&from_str(&text).unwrap(), tree);
        }
    }
}
