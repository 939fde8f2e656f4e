use vstd::prelude::*;
use super::span::Span;

verus! {

/// A high-level description of the syntax a language uses
#[derive(Copy, Clone, Debug, PartialEq, Eq, Structural)]
pub enum LanguageSyntax {
    /// An HTML-like language (HTML, Angular, Vue, Svelte)
    Html,
    /// A CSS-like language (CSS, SCSS, Less, Sass, Stylus)
    Css,
    /// A JavaScript-like language (JavaScript / JSX, TypeScript / TSX)
    Js,
    /// Unknown or otherwise unspecified language syntax
    Other,
}

/// The identifier a region carries when the document names no language of
/// its own: `html`, `css` or `js`; the empty identifier for `Other`.
pub open spec fn default_language(syntax: LanguageSyntax) -> Seq<u8> {
    match syntax {
        // "html"
        LanguageSyntax::Html => seq![0x68u8, 0x74u8, 0x6du8, 0x6cu8],
        // "css"
        LanguageSyntax::Css => seq![0x63u8, 0x73u8, 0x73u8],
        // "js"
        LanguageSyntax::Js => seq![0x6au8, 0x73u8],
        LanguageSyntax::Other => Seq::empty(),
    }
}

/// What a region says, with the identifier as a sequence of bytes and the
/// span as mathematical integers.
pub struct RegionModel {
    pub syntax: LanguageSyntax,
    pub language: Seq<u8>,
    pub start: int,
    pub end: int,
}

/// Represents a region of a document that is written in a specific language
#[derive(Copy, Clone, Debug, PartialEq, Eq)]
pub struct LanguageRegion<'a> {
    /// The syntax that the language uses
    pub syntax: LanguageSyntax,
    /// The language that the region is written in: an editor's language
    /// identifier, or one found inside the document itself, such as the
    /// `lang` attribute of a `<script>` or `<style>` tag.
    pub language: &'a [u8],
    /// The region of the document that is written in this language
    pub span: Span,
}

impl<'a> View for LanguageRegion<'a> {
    type V = RegionModel;

    open spec fn view(&self) -> RegionModel {
        RegionModel {
            syntax: self.syntax,
            language: self.language@,
            start: self.span.start as int,
            end: self.span.end as int,
        }
    }
}

impl<'a> LanguageRegion<'a> {
    /// Creates a new language region
    pub fn new(syntax: LanguageSyntax, language: &'a [u8], span: Span) -> (region: Self)
        ensures
            region.syntax == syntax,
            region.language@ == language@,
            region.span == span,
    {
        Self { syntax, language, span }
    }

    pub fn html(span: Span) -> (region: Self)
        ensures
            region.syntax == LanguageSyntax::Html,
            region.language@ == default_language(LanguageSyntax::Html),
            region.span == span,
    {
        let name = "html".as_bytes();
        proof {
            reveal_strlit("html");
            vstd::string::is_ascii_spec_bytes("html");
            assert(name@ =~= default_language(LanguageSyntax::Html));
        }
        Self::new(LanguageSyntax::Html, name, span)
    }

    pub fn css(span: Span) -> (region: Self)
        ensures
            region.syntax == LanguageSyntax::Css,
            region.language@ == default_language(LanguageSyntax::Css),
            region.span == span,
    {
        let name = "css".as_bytes();
        proof {
            reveal_strlit("css");
            vstd::string::is_ascii_spec_bytes("css");
            assert(name@ =~= default_language(LanguageSyntax::Css));
        }
        Self::new(LanguageSyntax::Css, name, span)
    }

    pub fn js(span: Span) -> (region: Self)
        ensures
            region.syntax == LanguageSyntax::Js,
            region.language@ == default_language(LanguageSyntax::Js),
            region.span == span,
    {
        let name = "js".as_bytes();
        proof {
            reveal_strlit("js");
            vstd::string::is_ascii_spec_bytes("js");
            assert(name@ =~= default_language(LanguageSyntax::Js));
        }
        Self::new(LanguageSyntax::Js, name, span)
    }
}

} // verus!
