use vstd::prelude::*;
use super::poi::{PointsOfInterest, markers_of};
use super::span::Span;

verus! {

/// Represents a piece of information about a tag in an HTML document
#[derive(Copy, Clone, Debug, PartialEq, Eq, Structural)]
pub enum Event {
    /// The start of a comment: the `<!--` of `<!-- comment -->`
    CommentStart(Span),
    /// The end of a comment: the `-->` of `<!-- comment -->`
    CommentEnd(Span),
    /// The start of a tag: the `<script` of `<script lang="jsx">`, the
    /// `</script` of `</script>`
    ElementStart(Span),
    /// The end of an element definition: the `>` of `<script lang="jsx">`
    /// and of `</script>`
    ElementEnd(Span),
    /// An attribute name: the `lang` of `<script lang="jsx">`
    AttrName(Span),
    /// An attribute value: the `"jsx"` of `<script lang="jsx">`
    AttrValue(Span),
}

/// A stream of events over an HTML document. It holds the document and the
/// search for its markers, and emits no event: `next` returns `None` on
/// every document.
pub struct HtmlStream<'a> {
    input: &'a [u8],
    points: PointsOfInterest<'a>,
}

impl<'a> HtmlStream<'a> {
    #[verifier::type_invariant]
    spec fn inv(self) -> bool {
        self.points.bytes() == self.input@
    }

    /// The document that the stream runs over.
    pub closed spec fn bytes(&self) -> Seq<u8> {
        self.input@
    }

    /// The markers that the stream has not looked at.
    pub closed spec fn markers(&self) -> Seq<int> {
        self.points@
    }

    pub fn new(input: &'a [u8]) -> (stream: Self)
        ensures
            stream.bytes() == input@,
            stream.markers() == markers_of(input@),
    {
        Self { input, points: PointsOfInterest::new(input) }
    }

    /// Yields no event, and leaves the stream as it was.
    pub fn next(&mut self) -> (event: Option<Event>)
        ensures
            event is None,
            final(self).bytes() == old(self).bytes(),
            final(self).markers() == old(self).markers(),
    {
        None
    }
}

} // verus!
