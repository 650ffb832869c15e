//! What can go wrong in a codec.
use vstd::prelude::*;

verus! {

/// Why a binary stream was rejected.
#[derive(Debug, Clone, Copy, PartialEq, Eq)]
pub enum BinaryError {
    /// The input ended inside a value.
    UnexpectedEnd,
    /// A value began with a byte that is no type tag.
    UnknownTag(u8),
    /// A map entry began with this byte in place of `k`.
    BadKeyTag(u8),
    /// A map's entries were not followed by `}`.
    UnclosedMap,
    /// An array's items were not followed by `]`.
    UnclosedArray,
    /// A string, a URI or a key was not valid UTF-8.
    InvalidUtf8,
}

/// Why a notation text was rejected.
#[derive(Debug, Clone, Copy, PartialEq, Eq)]
pub enum NotationError {
    /// The input ended inside a value.
    UnexpectedEnd,
    /// A value began with a character that selects no kind of value.
    UnexpectedChar(char),
    /// The first character was wanted and the second was found.
    Expected(char, char),
    /// A word after `t`, `T`, `f` or `F` that is no spelling of a boolean.
    BadBoolean,
    /// Signs and digits that are no 32-bit integer.
    BadInteger,
    /// Signs, digits and points that are no decimal number.
    BadReal,
    /// A quoted text that is no RFC 3339 date.
    BadDate,
    /// Thirty-six characters that are no UUID.
    BadUuid,
    /// A quoted text whose percent-decoding is not UTF-8.
    BadUri,
    /// A binary value in base 16 that is not hexadecimal.
    BadHex,
    /// A binary value in base 64 that is not base64.
    BadBase64,
    /// A binary value that continues with this character in place of `(`,
    /// `16` or `64`.
    BadBinary(char),
    /// A date or a URI that continues with this character in place of a
    /// quote.
    MissingQuote(char),
    /// A map key that begins with this character in place of a quote.
    BadKey(char),
    /// After an item of a map or an array, this character in place of a
    /// comma or the closing bracket.
    BadSeparator(char),
    /// A negative count between parentheses.
    BadLength,
    /// The bytes of a length-counted string are not UTF-8.
    InvalidUtf8,
    /// A length-counted string or binary value in a stream of characters:
    /// counting bytes is unsupported in this mode.
    Unsupported,
}

/// What is wrong with an XML document.
#[derive(Debug, Clone, Copy, PartialEq, Eq)]
pub enum XmlErrorKind {
    /// The XML itself is malformed.
    Syntax,
    /// The document ended inside an element.
    UnexpectedEnd,
    /// The document has no `llsd` element.
    NoLlsd,
    /// The document has a second `llsd` element.
    DuplicateLlsd,
    /// An element at the root that is not `llsd`, as a second value in
    /// `llsd` is.
    ExpectedLlsd,
    /// `llsd` is not followed at once by the element of a value.
    ExpectedValue,
    /// An element whose name is none of the eleven types.
    UnknownType,
    /// An end tag that does not match the start tag.
    UnmatchedTag,
    /// Markup where none belongs: an element inside a primitive value, or
    /// anything but an element after a key.
    UnexpectedEvent,
    /// In a map, an element other than `key` where a key belongs, or an
    /// element inside a key.
    ExpectedKey,
    /// A tag name that is not UTF-8.
    BadName,
    /// Text with a malformed entity, or not UTF-8.
    BadText,
    /// A malformed attribute list on `binary`.
    BadAttribute,
    /// An `encoding` on `binary` other than `base64`, `base16`, `base85`.
    UnknownEncoding,
    /// The text of `boolean` is none of `0`, `0.0`, `false`, `1`, `1.0`,
    /// `true`.
    BadBoolean,
    /// The text of `integer` is no 32-bit integer.
    BadInteger,
    /// The text of `real` is no number.
    BadReal,
    /// The text of `uuid` is no UUID.
    BadUuid,
    /// The text of `date` is no RFC 3339 date.
    BadDate,
    /// The text of `binary` does not decode in its encoding.
    BadBinary,
}

/// Why an XML document was rejected, and the byte offset at which: the
/// offset just after the markup that was rejected, or the length of the
/// document where it ended too early.
#[derive(Debug, Clone, Copy, PartialEq, Eq)]
pub struct XmlError {
    pub kind: XmlErrorKind,
    pub offset: usize,
}

/// Why input of an undeclared encoding was rejected.
#[derive(Debug, PartialEq, Eq)]
pub enum LLSDError {
    /// The input was taken for binary, and rejected as that.
    Binary(BinaryError),
    /// The input was taken for notation, and rejected as that.
    Notation(NotationError),
    /// The input was taken for XML, and rejected as that.
    Xml(XmlError),
    /// The input begins as an XML document and is not UTF-8.
    InvalidUtf8,
    /// No encoding was recognized. The text is the beginning of the input,
    /// sixty characters at most.
    Unrecognized(String),
}

/// The model of an [`LLSDError`].
pub ghost enum Failure {
    Binary(BinaryError),
    Notation(NotationError),
    Xml(XmlError),
    InvalidUtf8,
    Unrecognized(Seq<char>),
}

impl View for LLSDError {
    type V = Failure;

    open spec fn view(&self) -> Failure {
        match self {
            LLSDError::Binary(e) => Failure::Binary(*e),
            LLSDError::Notation(e) => Failure::Notation(*e),
            LLSDError::Xml(e) => Failure::Xml(*e),
            LLSDError::InvalidUtf8 => Failure::InvalidUtf8,
            LLSDError::Unrecognized(s) => Failure::Unrecognized(s@),
        }
    }
}

/// Why a value tree could not be written.
#[derive(Debug, Clone, Copy, PartialEq, Eq)]
pub enum EncodeError {
    /// A length or a count does not fit the four bytes the encoding gives it.
    TooLong,
    /// A real number is held as a decimal numeral, and the binary encoding
    /// needs its bits.
    RealWithoutBits,
    /// A real number is held as bits, and a text encoding needs its numeral.
    RealWithoutNumeral,
    /// A real number is held as a numeral that the encoding cannot carry:
    /// for XML a text that denotes no number, for notation one that is not
    /// made of an optional sign, digits and at most one point.
    BadNumeral,
    /// A date lies outside the years that RFC 3339 can write.
    DateOutOfRange,
}

} // verus!
