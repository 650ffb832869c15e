use serde_llsd::de::xml::{from_bytes, parse_binary, read_events};
use serde_llsd::{auto_from_bytes, binary_from_bytes, notation_from_bytes, notation_from_str};

fn each_input(alphabet: &[u8], longest: usize, check: &mut dyn FnMut(&[u8])) {
    let mut input: Vec<u8> = Vec::new();
    let mut index: Vec<usize> = Vec::new();
    check(&input);
    loop {
        if input.len() < longest {
            input.push(alphabet[0]);
            index.push(0);
        } else {
            loop {
                match index.pop() {
                    None => return,
                    Some(i) => {
                        input.pop();
                        if i + 1 < alphabet.len() {
                            input.push(alphabet[i + 1]);
                            index.push(i + 1);
                            break;
                        }
                    }
                }
            }
        }
        check(&input);
    }
}

#[test]
fn xml_decoder_answers_every_short_input() {
    let mut count = 0usize;
    each_input(b"<>/!?-[]&;=\"' a\xff", 5, &mut |input| {
        let _ = from_bytes(input);
        count += 1;
    });
    assert_eq!(count, 1 + 16 + 16 * 16 + 16 * 16 * 16 + 16 * 16 * 16 * 16 + 16 * 16 * 16 * 16 * 16);
}

#[test]
fn xml_decoder_answers_inputs_inside_a_document() {
    each_input(b"<>/!?-[]&;=\"' ab#x0", 4, &mut |input| {
        let mut text = b"<llsd><binary a".to_vec();
        text.extend_from_slice(input);
        text.extend_from_slice(b">AA==</binary></llsd>");
        let _ = from_bytes(&text);
        let mut text = b"<llsd><string>".to_vec();
        text.extend_from_slice(input);
        text.extend_from_slice(b"</string></llsd>");
        let _ = from_bytes(&text);
    });
}

#[test]
fn xml_events_end() {
    for input in [&b"<a><b/>text<!-- c --><?p?><![CDATA[x]]></a>"[..], b"<a", b"<!--", b"<![CDATA[", b"<!DOCTYPE <", b"</a>"] {
        let events = read_events(input);
        assert!(events.len() <= input.len() + 1);
    }
}

#[test]
fn base85_answers_every_short_input() {
    let attrs = b" encoding=\"base85\"";
    each_input(b"!s8W-uvz~<> \n\t\x7f", 5, &mut |input| {
        if let Ok(text) = std::str::from_utf8(input) {
            let _ = parse_binary(text, attrs);
        }
    });
    // the largest group, and the first beyond it
    assert_eq!(parse_binary("s8W-!", attrs), Ok(vec![255, 255, 255, 255]));
    assert!(parse_binary("s8W-\"", attrs).is_err());
    assert!(parse_binary("s8W-", attrs).is_err());
    assert!(parse_binary("s8W", attrs).is_err());
    assert_eq!(parse_binary("s8V", attrs), Ok(vec![255, 255]));
    assert_eq!(parse_binary("<~<~!!~>~>", attrs), Ok(vec![0]));
    assert_eq!(parse_binary("!", attrs), Ok(vec![]));
}

#[test]
fn notation_decoder_answers_every_short_input() {
    each_input(b"!01tTfF{}[]irdul bs\"'\\(),:6.-\n\xe9", 4, &mut |input| {
        let _ = notation_from_bytes(input);
        if let Ok(text) = std::str::from_utf8(input) {
            let _ = notation_from_str(text);
        }
    });
}

#[test]
fn binary_decoder_answers_every_short_input() {
    each_input(b"!01slirubd{[k}]\x00\x01\xff", 5, &mut |input| {
        let _ = binary_from_bytes(input);
        let _ = auto_from_bytes(input);
    });
}

#[test]
fn binary_decoder_does_not_trust_a_length() {
    // a length of four gigabytes with nothing behind it
    assert!(binary_from_bytes(b"s\xff\xff\xff\xff").is_err());
    assert!(binary_from_bytes(b"b\xff\xff\xff\xffabc").is_err());
    assert!(binary_from_bytes(b"[\xff\xff\xff\xff").is_err());
    assert!(binary_from_bytes(b"{\xff\xff\xff\xff").is_err());
    assert!(notation_from_bytes(b"s(2147483647)\"abc\"").is_err());
    assert!(notation_from_bytes(b"b(2147483647)\"abc\"").is_err());
}

#[test]
fn numerals_agree_with_the_float_parser_on_every_short_text() {
    let mut count = 0usize;
    each_input(b"+-.019eEinfatyN ", 5, &mut |input| {
        let text = std::str::from_utf8(input).unwrap();
        let chars: Vec<char> = text.chars().collect();
        assert_eq!(
            serde_llsd::text::is_real(&chars),
            text.parse::<f64>().is_ok(),
            "on {:?}",
            text
        );
        count += 1;
    });
    assert!(count > 1_000_000);
    for text in ["infinity", "-Infinity", "+INFINITY", "infinit", "infinityy", "1e400", "1e-400"] {
        let chars: Vec<char> = text.chars().collect();
        assert_eq!(serde_llsd::text::is_real(&chars), text.parse::<f64>().is_ok());
    }
}

#[test]
fn integers_agree_with_the_integer_parser() {
    each_input(b"+-0129 a", 6, &mut |input| {
        let text = std::str::from_utf8(input).unwrap();
        let chars: Vec<char> = text.chars().collect();
        assert_eq!(
            serde_llsd::text::parse_i32(&chars),
            text.parse::<i32>().ok(),
            "on {:?}",
            text
        );
    });
    for n in [
        i64::from(i32::MIN) - 1,
        i64::from(i32::MIN),
        i64::from(i32::MIN) + 1,
        -1,
        0,
        1,
        i64::from(i32::MAX) - 1,
        i64::from(i32::MAX),
        i64::from(i32::MAX) + 1,
        21474836470,
        -21474836480,
        i64::MAX,
        i64::MIN,
    ] {
        for text in [n.to_string(), format!("+{}", n), format!("000{}", n), format!("0000000000000000000000{}", n.unsigned_abs())] {
            let chars: Vec<char> = text.chars().collect();
            assert_eq!(
                serde_llsd::text::parse_i32(&chars),
                text.parse::<i32>().ok(),
                "on {:?}",
                text
            );
        }
    }
}

#[test]
fn trimming_agrees_with_the_standard_library() {
    let alphabet = [
        ' ', '\t', '\n', '\u{b}', '\u{c}', '\r', '\u{85}', '\u{a0}', '\u{1680}', '\u{2000}',
        '\u{200a}', '\u{200b}', '\u{2028}', '\u{2029}', '\u{202f}', '\u{205f}', '\u{3000}',
        '\u{feff}', 'a', '\u{1c}', '\u{1f}', '\u{180e}',
    ];
    for a in alphabet {
        for b in alphabet {
            for c in alphabet {
                let text: String = [a, b, c].iter().collect();
                assert_eq!(serde_llsd::de::xml::trim(&text), text.trim(), "on {:?}", text);
            }
        }
    }
    for code in 0..0x3100u32 {
        if let Some(c) = char::from_u32(code) {
            assert_eq!(serde_llsd::text::is_whitespace(c), c.is_whitespace(), "on {:?}", c);
        }
    }
}

#[test]
fn integer_text_agrees_with_the_standard_library() {
    for n in [0, 1, -1, 9, 10, -10, 99, 100, 12345, -12345, i32::MAX, i32::MIN] {
        let text = serde_llsd::notation_to_string(&serde_llsd::LLSDValue::Integer(n)).unwrap();
        assert_eq!(text, format!("<? llsd/notation ?>\ni{}", n));
    }
}
