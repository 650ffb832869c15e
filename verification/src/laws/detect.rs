//! Laws of the detection of the encoding.
use vstd::prelude::*;
use crate::de::binary;
use crate::de::notation;
use crate::de::xml;
use crate::de::{
    as_chars, begins, detected_bytes, detected_str, is_ascii_space, of_binary, snippet,
    trimmed_start, trimmed_text, NOTATION_MARK, XML_MARK,
};
use crate::error::Failure;
use crate::outside::lossy_text;
use crate::value::Value;

verus! {

/// Trimming takes off white space put in front.
pub proof fn lemma_trim_text(lead: Seq<char>, s: Seq<char>)
    requires
        forall|i: int| 0 <= i < lead.len() ==> xml::is_ascii_space(#[trigger] lead[i]),
    ensures
        trimmed_text(lead + s) == trimmed_text(s),
    decreases lead.len(),
{
    if lead.len() == 0 {
        assert(lead + s =~= s);
    } else {
        assert((lead + s)[0] == lead[0]);
        assert((lead + s).skip(1) =~= lead.skip(1) + s);
        assert forall|i: int| 0 <= i < lead.skip(1).len() implies xml::is_ascii_space(
            #[trigger] lead.skip(1)[i],
        ) by {
            assert(lead.skip(1)[i] == lead[i + 1]);
        }
        lemma_trim_text(lead.skip(1), s);
    }
}

/// Trimming takes off white space put in front.
pub proof fn lemma_trim_bytes(lead: Seq<u8>, msg: Seq<u8>)
    requires
        forall|i: int| 0 <= i < lead.len() ==> is_ascii_space(#[trigger] lead[i]),
    ensures
        trimmed_start(lead + msg) == trimmed_start(msg),
    decreases lead.len(),
{
    if lead.len() == 0 {
        assert(lead + msg =~= msg);
    } else {
        assert((lead + msg)[0] == lead[0]);
        assert((lead + msg).skip(1) =~= lead.skip(1) + msg);
        assert forall|i: int| 0 <= i < lead.skip(1).len() implies is_ascii_space(
            #[trigger] lead.skip(1)[i],
        ) by {
            assert(lead.skip(1)[i] == lead[i + 1]);
        }
        lemma_trim_bytes(lead.skip(1), msg);
    }
}

/// Leading white space does not change what text is decoded to.
pub proof fn lemma_leading_space_in_text(lead: Seq<char>, s: Seq<char>)
    requires
        forall|i: int| 0 <= i < lead.len() ==> xml::is_ascii_space(#[trigger] lead[i]),
    ensures
        detected_str(lead + s) == detected_str(s),
{
    lemma_trim_text(lead, s);
}

/// Leading white space in front of the sentinel of notation or of XML does
/// not change what bytes are decoded to.
pub proof fn lemma_leading_space_in_bytes(lead: Seq<u8>, msg: Seq<u8>)
    requires
        forall|i: int| 0 <= i < lead.len() ==> is_ascii_space(#[trigger] lead[i]),
        begins(msg, NOTATION_MARK@) || begins(msg, XML_MARK@),
    ensures
        detected_bytes(lead + msg) == detected_bytes(msg),
{
    lemma_trim_bytes(lead, msg);
    let mark = binary::sentinel();
    assert(mark[0] == 0x3c && mark[2] == 0x20);
    assert(NOTATION_MARK@[0] == 0x3c && NOTATION_MARK@[2] == 0x20);
    assert(XML_MARK@[0] == 0x3c && XML_MARK@[2] == 0x78);
    assert(msg[0] == 0x3c) by {
        if begins(msg, NOTATION_MARK@) {
            assert(msg.take(19)[0] == NOTATION_MARK@[0]);
        } else {
            assert(msg.take(5)[0] == XML_MARK@[0]);
        }
    }
    assert(trimmed_start(msg) == msg);
    // neither input begins with the sentinel of binary
    assert(!begins(msg, mark)) by {
        if begins(msg, mark) {
            assert(msg.take(18)[3] == mark[3]);
            assert(mark[3] == 0x4c);
            if begins(msg, NOTATION_MARK@) {
                assert(msg.take(19)[3] == NOTATION_MARK@[3]);
                assert(NOTATION_MARK@[3] == 0x6c);
            } else {
                assert(msg.take(5)[2] == XML_MARK@[2]);
                assert(msg.take(18)[2] == mark[2]);
            }
        }
    }
    if lead.len() == 0 {
        assert(lead + msg =~= msg);
    } else {
        assert(!begins(lead + msg, mark)) by {
            if begins(lead + msg, mark) {
                assert((lead + msg).take(18)[0] == mark[0]);
                assert((lead + msg)[0] == lead[0]);
            }
        }
    }
}

/// The newline of the sentinel of notation may be missing: text decodes
/// identically with it and without it.
pub proof fn lemma_sentinel_newline_in_text(body: Seq<char>)
    ensures
        detected_str(as_chars(NOTATION_MARK@) + seq!['\n'] + body) == detected_str(
            as_chars(NOTATION_MARK@) + body,
        ),
{
    let mark = as_chars(NOTATION_MARK@);
    let with = mark + seq!['\n'] + body;
    let without = mark + body;
    assert(mark[0] == '<');
    assert(with[0] == mark[0]);
    assert(without[0] == mark[0]);
    assert(trimmed_text(with) == with);
    assert(trimmed_text(without) == without);
    assert(with.take(19) =~= mark);
    assert(without.take(19) =~= mark);
    assert(with.skip(19) =~= seq!['\n'] + body);
    assert(without.skip(19) =~= body);
    let rest = seq!['\n'] + body;
    assert(rest[0] == '\n');
    assert(rest.skip(1) =~= body);
    assert(notation::scan_value(rest, false) == notation::scan_value(body, false));
}

/// The newline of the sentinel of notation may be missing: bytes decode
/// identically with it and without it.
pub proof fn lemma_sentinel_newline_in_bytes(body: Seq<u8>)
    ensures
        detected_bytes(NOTATION_MARK@ + seq![0x0au8] + body) == detected_bytes(
            NOTATION_MARK@ + body,
        ),
{
    let mark = NOTATION_MARK@;
    let with = mark + seq![0x0au8] + body;
    let without = mark + body;
    assert(mark[0] == 0x3c && mark[3] == 0x6c);
    assert(with[0] == mark[0] && with[3] == mark[3]);
    assert(without[0] == mark[0] && without[3] == mark[3]);
    assert(trimmed_start(with) == with);
    assert(trimmed_start(without) == without);
    assert(binary::sentinel()[3] == 0x4c);
    assert(!begins(with, binary::sentinel())) by {
        if begins(with, binary::sentinel()) {
            assert(with.take(18)[3] == binary::sentinel()[3]);
        }
    }
    assert(!begins(without, binary::sentinel())) by {
        if begins(without, binary::sentinel()) {
            assert(without.take(18)[3] == binary::sentinel()[3]);
        }
    }
    assert(with.take(19) =~= mark);
    assert(without.take(19) =~= mark);
    assert(with.skip(19) =~= seq![0x0au8] + body);
    assert(without.skip(19) =~= body);
    let rest = seq![0x0au8] + body;
    assert(rest[0] == 0x0a);
    let text = notation::chars_of_bytes(rest);
    assert(text[0] == '\n');
    assert(text.skip(1) =~= notation::chars_of_bytes(body));
    assert(notation::scan_value(text, true) == notation::scan_value(
        notation::chars_of_bytes(body),
        true,
    ));
}

/// Bytes without any sentinel are binary where they begin with `{` or `[`;
/// any other bytes without a sentinel are rejected as not recognized.
pub proof fn lemma_binary_fallback(msg: Seq<u8>)
    requires
        !begins(msg, binary::sentinel()),
        !begins(trimmed_start(msg), NOTATION_MARK@),
        !begins(trimmed_start(msg), XML_MARK@),
    ensures
        msg.len() > 0 && (msg[0] == 0x7b || msg[0] == 0x5b) ==> detected_bytes(msg) == of_binary(
            binary::decoded(msg),
        ),
        !(msg.len() > 0 && (msg[0] == 0x7b || msg[0] == 0x5b)) ==> detected_bytes(msg) == Err::<
            Value,
            Failure,
        >(Failure::Unrecognized(snippet(lossy_text(msg)))),
{
}

/// Text without a sentinel is rejected as not recognized.
pub proof fn lemma_text_without_sentinel(s: Seq<char>)
    requires
        !begins(trimmed_text(s), as_chars(NOTATION_MARK@)),
        !begins(trimmed_text(s), as_chars(XML_MARK@)),
    ensures
        detected_str(s) == Err::<Value, Failure>(Failure::Unrecognized(snippet(trimmed_text(s)))),
{
}

} // verus!
