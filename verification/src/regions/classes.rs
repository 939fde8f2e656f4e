use vstd::prelude::*;

verus! {

/// `<`, the byte that every tag starts with
pub const MARKER: u8 = 0x3c;

/// `>`, the byte that ends a tag
pub const TAG_END: u8 = 0x3e;

/// `/`, which directly before the end of a tag makes it self-closing
pub const SLASH: u8 = 0x2f;

/// What a byte means to the scanner while it reads a tag
#[derive(Copy, Clone, Debug, PartialEq, Eq, Structural)]
pub enum ByteClass {
    /// `>`
    TagEnd,
    /// space, tab, line feed, form feed, carriage return
    Whitespace,
    /// `'`
    SingleQuote,
    /// `"`
    DoubleQuote,
    /// `{`
    CurlyOpen,
    /// Everything else
    Other,
}

/// The three ways an attribute value is delimited
#[derive(Copy, Clone, Debug, PartialEq, Eq, Structural)]
pub enum Quote {
    /// `'...'`
    Single,
    /// `"..."`
    Double,
    /// `{...}`
    Curly,
}

pub open spec fn is_whitespace(b: u8) -> bool {
    b == 0x09 || b == 0x0a || b == 0x0c || b == 0x0d || b == 0x20
}

/// The class of each byte value.
pub open spec fn class_of(b: u8) -> ByteClass {
    if b == TAG_END {
        ByteClass::TagEnd
    } else if is_whitespace(b) {
        ByteClass::Whitespace
    } else if b == 0x27 {
        ByteClass::SingleQuote
    } else if b == 0x22 {
        ByteClass::DoubleQuote
    } else if b == 0x7b {
        ByteClass::CurlyOpen
    } else {
        ByteClass::Other
    }
}

/// The delimiter that a byte opens, if it opens one.
pub open spec fn opened_by(b: u8) -> Option<Quote> {
    match class_of(b) {
        ByteClass::SingleQuote => Some(Quote::Single),
        ByteClass::DoubleQuote => Some(Quote::Double),
        ByteClass::CurlyOpen => Some(Quote::Curly),
        _ => None,
    }
}

/// The byte that ends a value opened with the given delimiter.
pub open spec fn closer_of(quote: Quote) -> u8 {
    match quote {
        Quote::Single => 0x27,
        Quote::Double => 0x22,
        Quote::Curly => 0x7d,
    }
}

const O: ByteClass = ByteClass::Other;

const W: ByteClass = ByteClass::Whitespace;

const E: ByteClass = ByteClass::TagEnd;

const S: ByteClass = ByteClass::SingleQuote;

const D: ByteClass = ByteClass::DoubleQuote;

const C: ByteClass = ByteClass::CurlyOpen;

/// One entry per byte value, sixteen to a row.
const CLASSES: [ByteClass; 256] = [
    O, O, O, O, O, O, O, O, O, W, W, O, W, W, O, O,
    O, O, O, O, O, O, O, O, O, O, O, O, O, O, O, O,
    W, O, D, O, O, O, O, S, O, O, O, O, O, O, O, O,
    O, O, O, O, O, O, O, O, O, O, O, O, O, O, E, O,
    O, O, O, O, O, O, O, O, O, O, O, O, O, O, O, O,
    O, O, O, O, O, O, O, O, O, O, O, O, O, O, O, O,
    O, O, O, O, O, O, O, O, O, O, O, O, O, O, O, O,
    O, O, O, O, O, O, O, O, O, O, O, C, O, O, O, O,
    O, O, O, O, O, O, O, O, O, O, O, O, O, O, O, O,
    O, O, O, O, O, O, O, O, O, O, O, O, O, O, O, O,
    O, O, O, O, O, O, O, O, O, O, O, O, O, O, O, O,
    O, O, O, O, O, O, O, O, O, O, O, O, O, O, O, O,
    O, O, O, O, O, O, O, O, O, O, O, O, O, O, O, O,
    O, O, O, O, O, O, O, O, O, O, O, O, O, O, O, O,
    O, O, O, O, O, O, O, O, O, O, O, O, O, O, O, O,
    O, O, O, O, O, O, O, O, O, O, O, O, O, O, O, O,
];

/// Looks a byte up in the class table.
pub fn classify(b: u8) -> (class: ByteClass)
    ensures
        class == class_of(b),
{
    CLASSES[b as usize]
}

pub fn closer(quote: Quote) -> (b: u8)
    ensures
        b == closer_of(quote),
{
    match quote {
        Quote::Single => 0x27,
        Quote::Double => 0x22,
        Quote::Curly => 0x7d,
    }
}

} // verus!
