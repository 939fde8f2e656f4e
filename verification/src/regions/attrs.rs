use vstd::prelude::*;
use super::classes::{ByteClass, Quote, classify, closer, closer_of, opened_by};
use super::span::Span;

verus! {

/// The value of an attribute, by the way it is delimited. Each variant
/// carries the range of the value's bytes, delimiters excluded, as offsets
/// into the attribute bytes that were scanned.
#[derive(Copy, Clone, Debug, PartialEq, Eq, Structural)]
pub enum AttributeValue {
    /// `'value'`
    SingleQuoted(Span),
    /// `"value"`
    DoubleQuoted(Span),
    /// `{value}`
    CurlyInterpolated(Span),
}

/// The attributes that name the language of an embedded block
#[derive(Copy, Clone, Debug, PartialEq, Eq, Structural)]
pub enum AttributeName {
    /// `lang=`
    Lang,
    /// `type=`
    Type,
}

/// An attribute value as its delimiter and the offsets of its bytes.
pub struct ValueModel {
    pub quote: Quote,
    pub start: int,
    pub end: int,
}

impl AttributeValue {
    /// The delimiter that the value was written with.
    pub open spec fn quote(self) -> Quote {
        match self {
            AttributeValue::SingleQuoted(_) => Quote::Single,
            AttributeValue::DoubleQuoted(_) => Quote::Double,
            AttributeValue::CurlyInterpolated(_) => Quote::Curly,
        }
    }

    /// The range of the value's bytes.
    pub open spec fn inner(self) -> Span {
        match self {
            AttributeValue::SingleQuoted(span) => span,
            AttributeValue::DoubleQuoted(span) => span,
            AttributeValue::CurlyInterpolated(span) => span,
        }
    }

    /// The range of the value's bytes, delimiters excluded.
    pub fn span(&self) -> (span: Span)
        ensures
            span == self.inner(),
    {
        match self {
            AttributeValue::SingleQuoted(span) => *span,
            AttributeValue::DoubleQuoted(span) => *span,
            AttributeValue::CurlyInterpolated(span) => *span,
        }
    }

    fn delimited(quote: Quote, start: usize, end: usize) -> (value: Self)
        requires
            start <= end,
        ensures
            value@ == (ValueModel { quote, start: start as int, end: end as int }),
    {
        let span = Span::new(start, end);
        match quote {
            Quote::Single => AttributeValue::SingleQuoted(span),
            Quote::Double => AttributeValue::DoubleQuoted(span),
            Quote::Curly => AttributeValue::CurlyInterpolated(span),
        }
    }
}

impl View for AttributeValue {
    type V = ValueModel;

    open spec fn view(&self) -> ValueModel {
        ValueModel {
            quote: self.quote(),
            start: self.inner().start as int,
            end: self.inner().end as int,
        }
    }
}

/// The literal bytes that introduce an attribute's value: `lang=` or `type=`.
pub open spec fn key_of(name: AttributeName) -> Seq<u8> {
    match name {
        AttributeName::Lang => seq![0x6cu8, 0x61u8, 0x6eu8, 0x67u8, 0x3du8],
        AttributeName::Type => seq![0x74u8, 0x79u8, 0x70u8, 0x65u8, 0x3du8],
    }
}

/// Whether the bytes of `pat` stand in `s` at offset `at`.
pub open spec fn has_at(s: Seq<u8>, at: int, pat: Seq<u8>) -> bool {
    &&& 0 <= at
    &&& at + pat.len() <= s.len()
    &&& forall|k: int| 0 <= k < pat.len() ==> s[at + k] == #[trigger] pat[k]
}

/// The offset of the first byte at or after `from` that closes a value
/// opened with `quote`, if there is one.
pub open spec fn value_end(s: Seq<u8>, from: int, quote: Quote) -> Option<int>
    decreases s.len() - from,
{
    if from < 0 || from >= s.len() {
        None
    } else if s[from] == closer_of(quote) {
        Some(from)
    } else {
        value_end(s, from + 1, quote)
    }
}

/// The value that starts at `at`: the byte there selects the delimiter, and
/// the value runs to the first matching closer. Without a delimiter at `at`,
/// or without a closer after it, there is no value.
pub open spec fn value_at(s: Seq<u8>, at: int) -> Option<ValueModel> {
    if 0 <= at < s.len() {
        match opened_by(s[at]) {
            Some(quote) => match value_end(s, at + 1, quote) {
                Some(end) => Some(ValueModel { quote, start: at + 1, end }),
                None => None,
            },
            None => None,
        }
    } else {
        None
    }
}

/// Scans attribute bytes from `from`, where `open` says inside which kind
/// of value the scan stands, for the first place outside every value where
/// `key` occurs; the value that follows the key there is the result.
pub open spec fn attribute_from(s: Seq<u8>, from: int, open: Option<Quote>, key: Seq<u8>) -> Option<
    ValueModel,
>
    decreases s.len() - from,
{
    if from < 0 || from >= s.len() {
        None
    } else {
        match open {
            Some(quote) => if s[from] == closer_of(quote) {
                attribute_from(s, from + 1, None, key)
            } else {
                attribute_from(s, from + 1, open, key)
            },
            None => if has_at(s, from, key) {
                value_at(s, from + key.len())
            } else {
                attribute_from(s, from + 1, opened_by(s[from]), key)
            },
        }
    }
}

/// The value of the named attribute in a tag's raw attribute bytes.
pub open spec fn attribute_of(attrs: Seq<u8>, name: AttributeName) -> Option<ValueModel> {
    attribute_from(attrs, 0, None, key_of(name))
}

/// The literal bytes that introduce the named attribute's value.
pub fn key_bytes(name: AttributeName) -> (key: &'static [u8])
    ensures
        key@ == key_of(name),
{
    match name {
        AttributeName::Lang => {
            let key = "lang=".as_bytes();
            proof {
                reveal_strlit("lang=");
                vstd::string::is_ascii_spec_bytes("lang=");
                assert(key@ =~= key_of(name));
            }
            key
        },
        AttributeName::Type => {
            let key = "type=".as_bytes();
            proof {
                reveal_strlit("type=");
                vstd::string::is_ascii_spec_bytes("type=");
                assert(key@ =~= key_of(name));
            }
            key
        },
    }
}

/// Compares the bytes at `at` with `pat`, without reading past the buffer.
pub fn starts_with(input: &[u8], at: usize, pat: &[u8]) -> (found: bool)
    ensures
        found == has_at(input@, at as int, pat@),
{
    let n: usize = pat.len();
    if at > input.len() || input.len() - at < n {
        return false;
    }
    let mut k: usize = 0;
    while k < n
        invariant
            k <= n,
            n == pat@.len(),
            at + n <= input.len(),
            forall|j: int| 0 <= j < k ==> input@[at + j] == #[trigger] pat@[j],
        decreases n - k,
    {
        if input[at + k] != pat[k] {
            assert(input@[at + k] != pat@[k as int]);
            return false;
        }
        k += 1;
    }
    true
}

/// Looks for the byte that closes a value opened with `quote`.
pub fn find_value_end(input: &[u8], from: usize, quote: Quote) -> (end: Option<usize>)
    ensures
        match end {
            Some(e) => {
                &&& value_end(input@, from as int, quote) == Some(e as int)
                &&& from <= e < input@.len()
                &&& input@[e as int] == closer_of(quote)
                &&& forall|k: int| from <= k < e ==> input@[k] != closer_of(quote)
            },
            None => {
                &&& value_end(input@, from as int, quote) is None
                &&& forall|k: int| from <= k < input@.len() ==> input@[k] != closer_of(quote)
            },
        },
{
    let stop: u8 = closer(quote);
    let mut i: usize = from;
    while i < input.len()
        invariant
            from <= i,
            stop == closer_of(quote),
            value_end(input@, from as int, quote) == value_end(input@, i as int, quote),
        decreases input@.len() - i,
    {
        if input[i] == stop {
            proof {
                lemma_value_end_bounds(input@, from as int, quote);
            }
            return Some(i);
        }
        i += 1;
    }
    proof {
        lemma_value_end_bounds(input@, from as int, quote);
    }
    None
}

/// Reads the value that starts at `at`, if one starts there and is closed.
pub fn read_value(input: &[u8], at: usize) -> (value: Option<AttributeValue>)
    ensures
        match value {
            Some(v) => value_at(input@, at as int) == Some(v@),
            None => value_at(input@, at as int) is None,
        },
{
    if at >= input.len() {
        return None;
    }
    let quote = match classify(input[at]) {
        ByteClass::SingleQuote => Quote::Single,
        ByteClass::DoubleQuote => Quote::Double,
        ByteClass::CurlyOpen => Quote::Curly,
        _ => {
            return None;
        },
    };
    match find_value_end(input, at + 1, quote) {
        Some(end) => {
            proof {
                lemma_value_end_bounds(input@, at + 1, quote);
            }
            Some(AttributeValue::delimited(quote, at + 1, end))
        },
        None => None,
    }
}

/// A closer that was found lies at or after the place where the search began,
/// inside the buffer, and no closer lies before it.
pub proof fn lemma_value_end_bounds(s: Seq<u8>, from: int, quote: Quote)
    ensures
        match value_end(s, from, quote) {
            Some(e) => {
                &&& 0 <= from <= e < s.len()
                &&& s[e] == closer_of(quote)
                &&& forall|k: int| from <= k < e ==> s[k] != closer_of(quote)
            },
            None => forall|k: int| 0 <= from <= k < s.len() ==> s[k] != closer_of(quote),
        },
    decreases s.len() - from,
{
    if 0 <= from < s.len() && s[from] != closer_of(quote) {
        lemma_value_end_bounds(s, from + 1, quote);
    }
}

/// A value that was found lies inside the bytes that were scanned.
pub proof fn lemma_attribute_from_bounds(s: Seq<u8>, from: int, open: Option<Quote>, key: Seq<u8>)
    ensures
        match attribute_from(s, from, open, key) {
            Some(value) => 0 <= from <= value.start <= value.end < s.len(),
            None => true,
        },
    decreases s.len() - from,
{
    if 0 <= from < s.len() {
        match open {
            Some(quote) => if s[from] == closer_of(quote) {
                lemma_attribute_from_bounds(s, from + 1, None, key);
            } else {
                lemma_attribute_from_bounds(s, from + 1, open, key);
            },
            None => if has_at(s, from, key) {
                let at = from + key.len();
                if at < s.len() {
                    match opened_by(s[at]) {
                        Some(quote) => {
                            lemma_value_end_bounds(s, at + 1, quote);
                        },
                        None => {},
                    }
                }
            } else {
                lemma_attribute_from_bounds(s, from + 1, opened_by(s[from]), key);
            },
        }
    }
}

/// The value of an attribute lies inside the attribute bytes.
pub proof fn lemma_attribute_bounds(attrs: Seq<u8>, name: AttributeName)
    ensures
        match attribute_of(attrs, name) {
            Some(value) => 0 <= value.start <= value.end < attrs.len(),
            None => true,
        },
{
    lemma_attribute_from_bounds(attrs, 0, None, key_of(name));
}

/// Locates the named attribute in a tag's raw attribute bytes and extracts
/// its value. The name is matched literally and only outside the values of
/// other attributes. A value that is not delimited, or never closed, is
/// absent.
pub fn find_attribute(attrs: &[u8], name: AttributeName) -> (value: Option<AttributeValue>)
    ensures
        match value {
            Some(v) => attribute_of(attrs@, name) == Some(v@),
            None => attribute_of(attrs@, name) is None,
        },
{
    let key = key_bytes(name);
    let mut open: Option<Quote> = None;
    let mut i: usize = 0;
    while i < attrs.len()
        invariant
            key@ == key_of(name),
            attribute_of(attrs@, name) == attribute_from(attrs@, i as int, open, key@),
        decreases attrs@.len() - i,
    {
        let b: u8 = attrs[i];
        match open {
            Some(quote) => {
                if b == closer(quote) {
                    open = None;
                }
            },
            None => {
                if starts_with(attrs, i, key) {
                    assert(key@.len() == 5);
                    return read_value(attrs, i + 5);
                }
                open = match classify(b) {
                    ByteClass::SingleQuote => Some(Quote::Single),
                    ByteClass::DoubleQuote => Some(Quote::Double),
                    ByteClass::CurlyOpen => Some(Quote::Curly),
                    _ => None,
                };
            },
        }
        i += 1;
    }
    None
}

} // verus!
