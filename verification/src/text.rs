//! Characters and strings: the small operations that the codecs share.
use vstd::prelude::*;
use vstd::utf8::{decode_utf8, encode_utf8_decode_utf8, valid_utf8};
use vstd::string::StringSliceAdditionalSpecFns;

verus! {

/// Appends one character to a string (`String::push`): the string's
/// characters afterwards are those before, followed by `c`.
#[verifier::external_body]
pub(crate) fn push_char(s: &mut String, c: char)
    ensures
        final(s)@ == old(s)@.push(c),
{
    s.push(c)
}

/// Turns bytes into a string (`String::from_utf8`): `Some` exactly when the
/// bytes are valid UTF-8, and then the string holds the characters that they
/// encode.
#[verifier::external_body]
pub(crate) fn utf8_to_string(bytes: Vec<u8>) -> (r: Option<String>)
    ensures
        match r {
            Some(s) => valid_utf8(bytes@) && s@ == decode_utf8(bytes@),
            None => !valid_utf8(bytes@),
        },
{
    String::from_utf8(bytes).ok()
}

/// The characters of a string, in order.
pub fn chars_of(s: &str) -> (v: Vec<char>)
    ensures
        v@ == s@,
{
    let mut v: Vec<char> = Vec::new();
    for c in it: s.chars()
        invariant
            it.seq() == s@,
            v@ == s@.take(it.index() as int),
    {
        v.push(c);
    }
    assert(s@.take(s@.len() as int) =~= s@);
    v
}

/// The string made of the characters `chars[from..to]`.
pub fn string_of(chars: &Vec<char>, from: usize, to: usize) -> (s: String)
    requires
        from <= to <= chars@.len(),
    ensures
        s@ == chars@.subrange(from as int, to as int),
{
    let mut s = String::new();
    let mut i: usize = from;
    while i < to
        invariant
            from <= i <= to <= chars@.len(),
            s@ == chars@.subrange(from as int, i as int),
        decreases to - i,
    {
        push_char(&mut s, chars[i]);
        i = i + 1;
        assert(s@ =~= chars@.subrange(from as int, i as int));
    }
    s
}

/// A decimal digit.
pub open spec fn is_digit(c: char) -> bool {
    '0' <= c <= '9'
}

/// The number that a digit stands for.
pub open spec fn digit_value(c: char) -> nat {
    (c as int - 48) as nat
}

/// Every character is a decimal digit.
pub open spec fn all_digits(t: Seq<char>) -> bool {
    forall|i: int| 0 <= i < t.len() ==> is_digit(#[trigger] t[i])
}

/// The number that a run of digits spells, in base ten.
pub open spec fn digits_value(t: Seq<char>) -> nat
    decreases t.len(),
{
    if t.len() == 0 {
        0
    } else {
        digits_value(t.drop_last()) * 10 + digit_value(t.last())
    }
}

/// The 32-bit integer that a text spells: an optional `+` or `-`, then at
/// least one digit and nothing else, and a value that fits. `None` for every
/// other text.
pub open spec fn int_of_text(t: Seq<char>) -> Option<i32> {
    let signed = t.len() > 0 && (t[0] == '-' || t[0] == '+');
    let digits = if signed {
        t.skip(1)
    } else {
        t
    };
    if digits.len() == 0 || !all_digits(digits) {
        None
    } else {
        let magnitude = digits_value(digits) as int;
        let value = if signed && t[0] == '-' {
            -magnitude
        } else {
            magnitude
        };
        if i32::MIN <= value <= i32::MAX {
            Some(value as i32)
        } else {
            None
        }
    }
}

/// The digit for a number below ten.
pub open spec fn digit_char(d: nat) -> char {
    (48 + d) as char
}

/// The digits of a number in base ten, without leading zeros.
pub open spec fn digits_of(n: nat) -> Seq<char>
    decreases n,
{
    if n < 10 {
        seq![digit_char(n)]
    } else {
        digits_of(n / 10).push(digit_char(n % 10))
    }
}

/// The text of an integer in base ten: a `-` for a negative number, then
/// its digits.
pub open spec fn text_of_int(i: int) -> Seq<char> {
    if i < 0 {
        seq!['-'] + digits_of((-i) as nat)
    } else {
        digits_of(i as nat)
    }
}

/// The digits of a number are digits, and spell the number.
pub proof fn lemma_digits_of(n: nat)
    ensures
        digits_of(n).len() >= 1,
        all_digits(digits_of(n)),
        digits_value(digits_of(n)) == n,
    decreases n,
{
    if n < 10 {
        let t = digits_of(n);
        assert(t.drop_last() =~= Seq::<char>::empty());
        assert(digits_value(t.drop_last()) == 0);
    } else {
        lemma_digits_of(n / 10);
        let t = digits_of(n);
        assert(t.drop_last() =~= digits_of(n / 10));
        assert(t.last() == digit_char(n % 10));
    }
}

/// Reading the text of a 32-bit integer gives the integer back.
pub proof fn lemma_int_text_round_trip(i: i32)
    ensures
        int_of_text(text_of_int(i as int)) == Some(i),
{
    let t = text_of_int(i as int);
    if i < 0 {
        let d = digits_of((-i) as nat);
        lemma_digits_of((-i) as nat);
        assert(t.skip(1) =~= d);
        assert(t[0] == '-');
    } else {
        lemma_digits_of(i as nat);
        assert(is_digit(t[0]));
    }
}

/// Reads a 32-bit integer in base ten.
pub fn parse_i32(t: &Vec<char>) -> (r: Option<i32>)
    ensures
        r == int_of_text(t@),
{
    let n = t.len();
    let mut negative = false;
    let mut start: usize = 0;
    if n > 0 && (t[0] == '-' || t[0] == '+') {
        negative = t[0] == '-';
        start = 1;
    }
    if start == n {
        assert(t@.skip(start as int).len() == 0);
        return None;
    }
    let ghost d = t@.skip(start as int);
    let mut i: usize = start;
    let mut acc: i64 = 0;
    let mut over = false;
    assert(d.take(0) =~= Seq::<char>::empty());
    while i < n
        invariant
            start <= i <= n,
            n == t@.len(),
            start <= 1,
            (start == 1) == (t@.len() > 0 && (t@[0] == '-' || t@[0] == '+')),
            negative == (start == 1 && t@[0] == '-'),
            d == t@.skip(start as int),
            forall|j: int| 0 <= j < i - start ==> is_digit(#[trigger] d[j]),
            !over ==> acc == digits_value(d.take(i - start)) && 0 <= acc <= 2147483648,
            over ==> digits_value(d.take(i - start)) > 2147483648,
        decreases n - i,
    {
        let c = t[i];
        assert(d[i - start] == c);
        if !(c >= '0' && c <= '9') {
            return None;
        }
        let value: i64 = (c as u32 - 48) as i64;
        proof {
            let next = d.take(i + 1 - start);
            assert(next.drop_last() =~= d.take(i - start));
            assert(next.last() == c);
        }
        if !over {
            acc = acc * 10 + value;
            if acc > 2147483648 {
                over = true;
            }
        }
        i = i + 1;
    }
    assert(d.take(d.len() as int) =~= d);
    assert(all_digits(d));
    assert(t@.skip(0) =~= t@);
    assert(d.len() > 0);
    if over {
        None
    } else if negative {
        Some((-acc) as i32)
    } else if acc > 2147483647 {
        None
    } else {
        Some(acc as i32)
    }
}

/// Appends the digits of a number.
pub fn push_digits(s: &mut String, n: u64)
    ensures
        final(s)@ == old(s)@ + digits_of(n as nat),
    decreases n,
{
    if n >= 10 {
        push_digits(s, n / 10);
    }
    let d: u8 = (n % 10) as u8 + 48;
    push_char(s, d as char);
    assert(s@ =~= old(s)@ + digits_of(n as nat));
}

/// Appends the text of an integer in base ten.
pub fn push_int(s: &mut String, i: i64)
    ensures
        final(s)@ == old(s)@ + text_of_int(i as int),
{
    if i < 0 {
        push_char(s, '-');
        let m: u64 = ((-(i + 1)) as u64) + 1;
        push_digits(s, m);
        assert(s@ =~= old(s)@ + text_of_int(i as int));
    } else {
        push_digits(s, i as u64);
    }
}

/// White space, as Unicode defines it (the property `White_Space`).
pub open spec fn is_space(c: char) -> bool {
    let u = c as u32;
    (0x09 <= u <= 0x0d) || u == 0x20 || u == 0x85 || u == 0xa0 || u == 0x1680 || (0x2000 <= u
        <= 0x200a) || u == 0x2028 || u == 0x2029 || u == 0x202f || u == 0x205f || u == 0x3000
}

/// Whether a character is white space.
pub fn is_whitespace(c: char) -> (r: bool)
    ensures
        r == is_space(c),
{
    let u = c as u32;
    (0x09 <= u && u <= 0x0d) || u == 0x20 || u == 0x85 || u == 0xa0 || u == 0x1680 || (0x2000
        <= u && u <= 0x200a) || u == 0x2028 || u == 0x2029 || u == 0x202f || u == 0x205f || u
        == 0x3000
}

/// Where the run of digits that starts at `from` ends.
pub open spec fn digits_end(t: Seq<char>, from: int) -> int
    decreases t.len() - from,
{
    if 0 <= from < t.len() && is_digit(t[from]) {
        digits_end(t, from + 1)
    } else {
        from
    }
}

/// The position after a sign at `from`, if there is one.
pub open spec fn sign_end(t: Seq<char>, from: int) -> int {
    if 0 <= from < t.len() && (t[from] == '+' || t[from] == '-') {
        from + 1
    } else {
        from
    }
}

/// An ASCII letter in lower case; any other character as it is.
pub open spec fn lower(c: char) -> char {
    if 'A' <= c <= 'Z' {
        ((c as u8) + 32) as char
    } else {
        c
    }
}

/// The text from `from` on is `word`, letter for letter, whatever the case.
/// `word` is in lower case.
pub open spec fn spells(t: Seq<char>, from: int, word: Seq<char>) -> bool {
    &&& t.len() - from == word.len()
    &&& forall|i: int| 0 <= i < word.len() ==> lower(#[trigger] t[from + i]) == word[i]
}

/// An exponent: `e` or `E`, an optional sign, at least one digit, up to the
/// end of the text.
pub open spec fn is_exponent(t: Seq<char>, from: int) -> bool {
    &&& 0 <= from < t.len()
    &&& (t[from] == 'e' || t[from] == 'E')
    &&& digits_end(t, sign_end(t, from + 1)) > sign_end(t, from + 1)
    &&& digits_end(t, sign_end(t, from + 1)) == t.len()
}

/// A decimal number from `from` on: digits with at most one point among
/// them, at least one digit in all, and an optional exponent.
pub open spec fn is_number(t: Seq<char>, from: int) -> bool {
    let whole = digits_end(t, from);
    let point = 0 <= whole < t.len() && t[whole] == '.';
    let end = if point {
        digits_end(t, whole + 1)
    } else {
        whole
    };
    let count = if point {
        end - from - 1
    } else {
        end - from
    };
    count > 0 && (end == t.len() || is_exponent(t, end))
}

/// The texts that denote a 64-bit float: an optional sign, then `inf`,
/// `infinity` or `nan` in any case, or a decimal number.
pub open spec fn is_real_literal(t: Seq<char>) -> bool {
    let from = sign_end(t, 0);
    spells(t, from, seq!['i', 'n', 'f']) || spells(
        t,
        from,
        seq!['i', 'n', 'f', 'i', 'n', 'i', 't', 'y'],
    ) || spells(t, from, seq!['n', 'a', 'n']) || is_number(t, from)
}

/// Finds where the run of digits that starts at `from` ends.
pub fn scan_digits(t: &Vec<char>, from: usize) -> (end: usize)
    requires
        from <= t@.len(),
    ensures
        end == digits_end(t@, from as int),
        from <= end <= t@.len(),
{
    let mut i: usize = from;
    while i < t.len() && t[i] >= '0' && t[i] <= '9'
        invariant
            from <= i <= t@.len(),
            digits_end(t@, from as int) == digits_end(t@, i as int),
        decreases t@.len() - i,
    {
        i = i + 1;
    }
    i
}

/// Skips a sign at `from`.
pub fn scan_sign(t: &Vec<char>, from: usize) -> (end: usize)
    requires
        from <= t@.len(),
    ensures
        end == sign_end(t@, from as int),
        from <= end <= t@.len(),
{
    if from < t.len() && (t[from] == '+' || t[from] == '-') {
        from + 1
    } else {
        from
    }
}

/// An ASCII letter in lower case; any other character as it is.
pub fn to_lower(c: char) -> (r: char)
    ensures
        r == lower(c),
{
    if c >= 'A' && c <= 'Z' {
        ((c as u8) + 32) as char
    } else {
        c
    }
}

/// Whether the text from `from` on is `word`, whatever the case.
pub fn matches_word(t: &Vec<char>, from: usize, word: &[char]) -> (r: bool)
    requires
        from <= t@.len(),
    ensures
        r == spells(t@, from as int, word@),
{
    let n = t.len();
    if n - from != word.len() {
        return false;
    }
    let mut i: usize = 0;
    while i < word.len()
        invariant
            n == t@.len(),
            from <= t@.len(),
            t@.len() - from == word@.len(),
            i <= word@.len(),
            forall|j: int| 0 <= j < i ==> lower(#[trigger] t@[from + j]) == word@[j],
        decreases word@.len() - i,
    {
        if to_lower(t[from + i]) != word[i] {
            return false;
        }
        i = i + 1;
    }
    true
}

/// Whether a text denotes a 64-bit float.
pub fn is_real(t: &Vec<char>) -> (r: bool)
    ensures
        r == is_real_literal(t@),
{
    let from = scan_sign(t, 0);
    let inf: [char; 3] = ['i', 'n', 'f'];
    let infinity: [char; 8] = ['i', 'n', 'f', 'i', 'n', 'i', 't', 'y'];
    let nan: [char; 3] = ['n', 'a', 'n'];
    assert(inf@ =~= seq!['i', 'n', 'f']);
    assert(infinity@ =~= seq!['i', 'n', 'f', 'i', 'n', 'i', 't', 'y']);
    assert(nan@ =~= seq!['n', 'a', 'n']);
    if matches_word(t, from, inf.as_slice()) || matches_word(t, from, infinity.as_slice())
        || matches_word(t, from, nan.as_slice()) {
        return true;
    }
    let whole = scan_digits(t, from);
    let point = whole < t.len() && t[whole] == '.';
    let end = if point {
        scan_digits(t, whole + 1)
    } else {
        whole
    };
    let count = if point {
        end - from - 1
    } else {
        end - from
    };
    if count == 0 {
        return false;
    }
    if end == t.len() {
        return true;
    }
    if !(t[end] == 'e' || t[end] == 'E') {
        return false;
    }
    let digits = scan_sign(t, end + 1);
    let last = scan_digits(t, digits);
    last > digits && last == t.len()
}

/// Whether two byte slices hold the same bytes.
pub fn bytes_eq(a: &[u8], b: &[u8]) -> (r: bool)
    ensures
        r == (a@ == b@),
{
    if a.len() != b.len() {
        return false;
    }
    let mut i: usize = 0;
    while i < a.len()
        invariant
            a@.len() == b@.len(),
            i <= a@.len(),
            forall|j: int| 0 <= j < i ==> a@[j] == b@[j],
        decreases a@.len() - i,
    {
        if a[i] != b[i] {
            return false;
        }
        i = i + 1;
    }
    assert(a@ =~= b@);
    true
}

/// Whether two strings hold the same characters.
pub fn str_eq(a: &str, b: &str) -> (r: bool)
    ensures
        r == (a@ == b@),
{
    let r = bytes_eq(a.as_bytes(), b.as_bytes());
    proof {
        encode_utf8_decode_utf8(a@);
        encode_utf8_decode_utf8(b@);
    }
    r
}

} // verus!
