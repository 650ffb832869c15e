use base64::Engine;
use serde_llsd::ser::xml::to_string;
use serde_llsd::{
    auto_from_bytes, auto_from_str, BinaryError, LLSDError, LLSDMap, LLSDValue, NotationError,
    XmlErrorKind,
};

// A sample PBR material item, in base64.
const TESTPBRMATLLLSD: &str =
    "PD8gTExTRC9CaW5hcnkgPz4KewAAAANrAAAABGRhdGFzAAABc3siYXNzZXQiOnsidmVyc2lvbiI6
        IjIuMCJ9LCJpbWFnZXMiOlt7InVyaSI6ImQxZjkxYmI3LWY3ZDYtZDI2Zi1lMGQ3LTU2OGYwZmY3
        NDI3OSJ9LHsidXJpIjoiZDFmOTFiYjctZjdkNi1kMjZmLWUwZDctNTY4ZjBmZjc0Mjc5In0seyJ1
        cmkiOiI4YTQ1Yzk5YS1jZjg0LTc3YzUtOWQ5ZC01Yzk4NzUyMTNmZTkifV0sIm1hdGVyaWFscyI6
        W3sibm9ybWFsVGV4dHVyZSI6eyJpbmRleCI6Mn0sInBick1ldGFsbGljUm91Z2huZXNzIjp7ImJh
        c2VDb2xvclRleHR1cmUiOnsiaW5kZXgiOjB9LCJtZXRhbGxpY1JvdWdobmVzc1RleHR1cmUiOnsi
        aW5kZXgiOjF9fX1dLCJ0ZXh0dXJlcyI6W3sic291cmNlIjowfSx7InNvdXJjZSI6MX0seyJzb3Vy
        Y2UiOjJ9XX0KawAAAAR0eXBlcwAAAAhHTFRGIDIuMGsAAAAHdmVyc2lvbnMAAAADMS4wfQA=";

#[test]
fn mod_testpbrmaterialdecode() {
    let mut clean_base64 = TESTPBRMATLLLSD.to_string();
    clean_base64.retain(|c| !char::is_whitespace(c)); // without whitespace
    println!("Base 64: {}", clean_base64);
    let bytes = base64::engine::general_purpose::STANDARD
        .decode(clean_base64)
        .expect("PBR example failed base64 decode"); // as bytes
    let llsd = auto_from_bytes(&bytes).expect("LLSD decode failed");
    println!("PBR asset: {:?}", llsd);
    //  Display as XML
    println!(
        "As XML: \n{}",
        to_string(&llsd, true).expect("Conversion to XML failed")
    );
}

#[test]
fn tests_testpbrmaterialdecode() {
    let mut clean_base64 = TESTPBRMATLLLSD.to_string();
    clean_base64.retain(|c| !char::is_whitespace(c)); // without whitespace
    println!("Base 64: {}", clean_base64);
    let bytes = base64::engine::general_purpose::STANDARD
        .decode(clean_base64)
        .expect("PBR example failed base64 decode"); // as bytes
    let llsd = auto_from_bytes(&bytes).expect("LLSD decode failed");
    println!("PBR asset: {:?}", llsd);
    let llsd_xml = to_string(&llsd, true).expect("Conversion to XML failed");
    //  Display as XML
    println!("As XML: \n{}", llsd_xml);
    let map = llsd.as_map().unwrap();
    assert_eq!(map.len(), 3);
    assert_eq!(
        map.get("type"),
        Some(&LLSDValue::String("GLTF 2.0".to_string()))
    );
    assert_eq!(
        map.get("version"),
        Some(&LLSDValue::String("1.0".to_string()))
    );
    assert_eq!(map.get("data").unwrap().as_string().unwrap().len(), 0x173);
}

#[test]
fn testnotationdetect1() {
    //  Test recognzier with trailing newline
    const TESTNOTATION1A: &str = r#"<? llsd/notation ?>\n
[
  {'destination':l"http://secondlife.com"}, 
]
"#;
    //  No trailing newline
    const TESTNOTATION1B: &str = r#"<? llsd/notation ?>
[
  {'destination':l"http://secondlife.com"}, 
]
"#;
    //  The first text goes on with a backslash after the sentinel, which selects no value.
    let refused = Err(LLSDError::Notation(NotationError::UnexpectedChar('\\')));
    let parsed_sa = auto_from_str(TESTNOTATION1A);
    let parsed_sb = auto_from_str(TESTNOTATION1B).unwrap();
    assert_eq!(parsed_sa, refused);
    assert_eq!(parsed_sb, destination());
    let parsed_ba = auto_from_bytes(TESTNOTATION1A.as_bytes());
    let parsed_bb = auto_from_bytes(TESTNOTATION1B.as_bytes()).unwrap();
    assert_eq!(parsed_ba, refused);
    assert_eq!(parsed_bb, destination());
}

fn destination() -> LLSDValue {
    let mut map = LLSDMap::new();
    map.insert(
        "destination".to_string(),
        LLSDValue::URI("http://secondlife.com".to_string()),
    );
    LLSDValue::Array(vec![LLSDValue::Mapping(map)])
}

#[test]
fn notation_sentinel_with_and_without_newline() {
    let body = "[{'destination':l\"http://secondlife.com\"}]";
    let with = format!("<? llsd/notation ?>\n{}", body);
    let without = format!("<? llsd/notation ?>{}", body);
    let spelled = format!("<? llsd/notation ?>\\n{}", body);
    let refused = Err(LLSDError::Notation(NotationError::UnexpectedChar('\\')));
    let expected = destination();
    assert_eq!(auto_from_str(&with).unwrap(), expected);
    assert_eq!(auto_from_str(&without).unwrap(), expected);
    assert_eq!(auto_from_str(&spelled), refused);
    assert_eq!(auto_from_bytes(with.as_bytes()).unwrap(), expected);
    assert_eq!(auto_from_bytes(without.as_bytes()).unwrap(), expected);
    assert_eq!(auto_from_bytes(spelled.as_bytes()), refused);
}

#[test]
fn leading_whitespace_before_a_text_sentinel() {
    let notation = "<? llsd/notation ?>\ni7";
    let xml = "<?xml version=\"1.0\" encoding=\"UTF-8\"?>\n<llsd><integer>7</integer></llsd>";
    let seven = LLSDValue::Integer(7);
    for lead in ["", " ", "\n\n", " \t\r\n\x0c "] {
        let n = format!("{}{}", lead, notation);
        let x = format!("{}{}", lead, xml);
        assert_eq!(auto_from_str(&n).unwrap(), seven);
        assert_eq!(auto_from_bytes(n.as_bytes()).unwrap(), seven);
        assert_eq!(auto_from_str(&x).unwrap(), seven);
        assert_eq!(auto_from_bytes(x.as_bytes()).unwrap(), seven);
    }
}

#[test]
fn binary_sentinel_takes_no_leading_whitespace() {
    let bytes = b" <? LLSD/Binary ?>\n!";
    assert_eq!(
        auto_from_bytes(bytes),
        Err(LLSDError::Unrecognized(" <? LLSD/Binary ?>\n!".to_string()))
    );
}

#[test]
fn binary_fallback_without_sentinel() {
    assert_eq!(
        auto_from_bytes(b"[\x00\x00\x00\x01i\x00\x00\x00\x07]").unwrap(),
        LLSDValue::Array(vec![LLSDValue::Integer(7)])
    );
    assert_eq!(
        auto_from_bytes(b"{\x00\x00\x00\x00}").unwrap(),
        LLSDValue::Mapping(LLSDMap::new())
    );
    // invalid UTF-8 in the payload does not stop the fallback
    assert_eq!(
        auto_from_bytes(b"[\x00\x00\x00\x01b\x00\x00\x00\x02\xff\xfe]").unwrap(),
        LLSDValue::Array(vec![LLSDValue::Binary(vec![0xff, 0xfe])])
    );
    // the fallback is a binary decoder: notation without sentinel fails as binary
    assert_eq!(
        auto_from_bytes(b"[i1]"),
        Err(LLSDError::Binary(BinaryError::UnexpectedEnd))
    );
    assert_eq!(
        auto_from_bytes(b"{\x00\x00\x00\x00?"),
        Err(LLSDError::Binary(BinaryError::UnclosedMap))
    );
    // no leading white space for the fallback
    assert_eq!(
        auto_from_bytes(b" [\x00\x00\x00\x00]"),
        Err(LLSDError::Unrecognized(" [\u{0}\u{0}\u{0}\u{0}]".to_string()))
    );
}

#[test]
fn unrecognized_input_is_rejected_with_a_snippet() {
    assert_eq!(
        auto_from_bytes(b"hello"),
        Err(LLSDError::Unrecognized("hello".to_string()))
    );
    assert_eq!(
        auto_from_str("  hello"),
        Err(LLSDError::Unrecognized("hello".to_string()))
    );
    assert_eq!(auto_from_bytes(b""), Err(LLSDError::Unrecognized(String::new())));
    assert_eq!(auto_from_bytes(b"{"), Err(LLSDError::Binary(BinaryError::UnexpectedEnd)));
    assert_eq!(auto_from_bytes(b"["), Err(LLSDError::Binary(BinaryError::UnexpectedEnd)));
    assert_eq!(auto_from_bytes(b"}"), Err(LLSDError::Unrecognized("}".to_string())));
    assert_eq!(auto_from_str("[i1]"), Err(LLSDError::Unrecognized("[i1]".to_string())));
    let long: String = "x".repeat(100);
    assert_eq!(
        auto_from_str(&long),
        Err(LLSDError::Unrecognized("x".repeat(60)))
    );
    assert_eq!(
        auto_from_bytes(long.as_bytes()),
        Err(LLSDError::Unrecognized("x".repeat(60)))
    );
    let exact: String = "é".repeat(60);
    assert_eq!(
        auto_from_str(&exact),
        Err(LLSDError::Unrecognized(exact.clone()))
    );
    // bytes that are not UTF-8 are replaced in the snippet
    assert_eq!(
        auto_from_bytes(b"a\xffb"),
        Err(LLSDError::Unrecognized("a\u{fffd}b".to_string()))
    );
}

#[test]
fn detected_codec_reports_its_own_error() {
    assert_eq!(
        auto_from_str("<? llsd/notation ?>\n?"),
        Err(LLSDError::Notation(NotationError::UnexpectedChar('?')))
    );
    assert_eq!(
        auto_from_bytes(b"<? llsd/notation ?>"),
        Err(LLSDError::Notation(NotationError::UnexpectedEnd))
    );
    match auto_from_str("<?xml version=\"1.0\"?><llsd></llsd>") {
        Err(LLSDError::Xml(e)) => assert_eq!(e.kind, XmlErrorKind::ExpectedValue),
        other => panic!("unexpected result {:?}", other),
    }
    assert_eq!(
        auto_from_bytes(b"<?xml \xff"),
        Err(LLSDError::InvalidUtf8)
    );
}

#[test]
fn byte_counted_forms_need_the_byte_decoder() {
    let text = "<? llsd/notation ?>\ns(3)\"abc\"";
    assert_eq!(
        auto_from_bytes(text.as_bytes()).unwrap(),
        LLSDValue::String("abc".to_string())
    );
    assert_eq!(
        auto_from_str(text),
        Err(LLSDError::Notation(NotationError::Unsupported))
    );
}
