use vstd::prelude::*;
use super::attrs::{AttributeName, find_attribute, starts_with, lemma_attribute_bounds};
use super::classes::{ByteClass, MARKER, SLASH, classify};
use super::find::{TagBounds, ends_name, name_end, lemma_name_end_is};
use super::lang::{LanguageRegion, default_language};
use super::model::{
    TagKind, closing, keyword, language_of, opening_at, opens, self_closing, syntax_of,
};
use super::span::Span;

verus! {

/// A piece of a tag, as the bytes that it covers
#[derive(Copy, Clone, Debug, PartialEq, Eq)]
pub enum Event<'a> {
    /// A starting tag
    TagStart(&'a [u8]),
    /// An attribute name
    AttrName(&'a [u8]),
    /// An attribute value
    AttrValue(&'a [u8]),
    /// An end or closing tag
    TagEnd(&'a [u8]),
}

/// The name of the tag that opens a block of the given kind.
pub fn keyword_bytes(kind: TagKind) -> (name: &'static [u8])
    ensures
        name@ == keyword(kind),
{
    match kind {
        TagKind::Script => {
            let name = "script".as_bytes();
            proof {
                reveal_strlit("script");
                vstd::string::is_ascii_spec_bytes("script");
                assert(name@ =~= keyword(kind));
            }
            name
        },
        TagKind::Style => {
            let name = "style".as_bytes();
            proof {
                reveal_strlit("style");
                vstd::string::is_ascii_spec_bytes("style");
                assert(name@ =~= keyword(kind));
            }
            name
        },
    }
}

/// The literal bytes that close a block of the given kind.
pub fn closing_bytes(kind: TagKind) -> (pat: &'static [u8])
    ensures
        pat@ == closing(kind),
{
    match kind {
        TagKind::Script => {
            let pat = "</script>".as_bytes();
            proof {
                reveal_strlit("</script>");
                vstd::string::is_ascii_spec_bytes("</script>");
                assert(pat@ =~= closing(kind));
            }
            pat
        },
        TagKind::Style => {
            let pat = "</style>".as_bytes();
            proof {
                reveal_strlit("</style>");
                vstd::string::is_ascii_spec_bytes("</style>");
                assert(pat@ =~= closing(kind));
            }
            pat
        },
    }
}

/// An empty region of the block that a tag of the given kind opens, under
/// the default language of that kind.
pub(crate) fn block_region(kind: TagKind, span: Span) -> (region: LanguageRegion<'static>)
    ensures
        region.syntax == syntax_of(kind),
        region.language@ == default_language(syntax_of(kind)),
        region.span == span,
{
    match kind {
        TagKind::Script => LanguageRegion::js(span),
        TagKind::Style => LanguageRegion::css(span),
    }
}

/// Whether the marker at `p` begins a tag of the given kind.
fn opens_block(input: &[u8], p: usize, kind: TagKind) -> (found: bool)
    ensures
        found == opens(input@, p as int, kind),
{
    if p >= input.len() || input[p] != MARKER {
        return false;
    }
    let name = keyword_bytes(kind);
    if !starts_with(input, p + 1, name) {
        return false;
    }
    let k: usize = p + 1 + name.len();
    if k >= input.len() {
        return false;
    }
    match classify(input[k]) {
        ByteClass::TagEnd => true,
        ByteClass::Whitespace => true,
        _ => false,
    }
}

/// The kind of block that the tag at `p` opens, if it is a recognized tag.
pub fn recognize(input: &[u8], p: usize) -> (kind: Option<TagKind>)
    ensures
        kind == opening_at(input@, p as int),
{
    if opens_block(input, p, TagKind::Script) {
        Some(TagKind::Script)
    } else if opens_block(input, p, TagKind::Style) {
        Some(TagKind::Style)
    } else {
        None
    }
}

/// The name of a recognized tag ends right after its keyword.
pub proof fn lemma_opening_name(s: Seq<u8>, p: int, kind: TagKind)
    requires
        opens(s, p, kind),
    ensures
        name_end(s, p + 1) == Some(p + 1 + keyword(kind).len()),
{
    let word = keyword(kind);
    assert forall|i: int| p + 1 <= i < p + 1 + word.len() implies !ends_name(s[i]) by {
        let k = i - (p + 1);
        assert(s[p + 1 + k] == word[k]);
    }
    lemma_name_end_is(s, p + 1, p + 1 + word.len());
}

/// The language of the block that a tag with the given attribute bytes
/// opens: the value of its `lang` attribute, else the default of its kind.
pub(crate) fn block_language<'a>(input: &'a [u8], kind: TagKind, lo: usize, hi: usize) -> (language: &'a [u8])
    requires
        lo <= hi <= input@.len(),
    ensures
        language@ == language_of(input@, kind, Some((lo as int, hi as int))),
{
    let attrs = vstd::slice::slice_subrange(input, lo, hi);
    match find_attribute(attrs, AttributeName::Lang) {
        Some(value) => {
            proof {
                lemma_attribute_bounds(attrs@, AttributeName::Lang);
            }
            let inner = value.span();
            vstd::slice::slice_subrange(attrs, inner.start, inner.end)
        },
        None => block_region(kind, Span::new(0, 0)).language,
    }
}

/// Whether `/` stands directly before the `>` of a tag.
pub(crate) fn closes_itself(input: &[u8], tag: &TagBounds) -> (closed: bool)
    requires
        tag.attrs matches Some(span) ==> span.within(input@.len() as int),
    ensures
        closed == self_closing(input@, tag@.attrs),
{
    match tag.attrs {
        Some(span) => span.start < span.end && input[span.end - 1] == SLASH,
        None => false,
    }
}

/// The language of the block that an extracted tag opens.
pub(crate) fn tag_language<'a>(input: &'a [u8], kind: TagKind, tag: &TagBounds) -> (language: &'a [u8])
    requires
        tag.attrs matches Some(span) ==> span.within(input@.len() as int),
    ensures
        language@ == language_of(input@, kind, tag@.attrs),
{
    match tag.attrs {
        Some(span) => block_language(input, kind, span.start, span.end),
        None => block_region(kind, Span::new(0, 0)).language,
    }
}

} // verus!
