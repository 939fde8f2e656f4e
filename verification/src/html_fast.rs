use vstd::prelude::*;
use crate::regions::classes::MARKER;
use crate::regions::lang::{LanguageRegion, LanguageSyntax, RegionModel, default_language};
use crate::regions::model::{
    partitions, regions_of, lemma_regions_from_partition, lemma_regions_syntax,
};
use crate::regions::poi::{
    is_next_marker, markers_from, markers_of, no_marker_in, lemma_markers_next, lemma_markers_none,
};
use crate::regions::scanner::{RegionScanner, region_views};

verus! {

/// The syntax family of a scope
#[derive(Copy, Clone, Debug, PartialEq, Eq, Structural)]
pub enum ContextKind {
    Html,
    Css,
    Js,
}

impl ContextKind {
    /// The syntax that a scope of this kind is written in.
    pub open spec fn syntax(self) -> LanguageSyntax {
        match self {
            ContextKind::Html => LanguageSyntax::Html,
            ContextKind::Css => LanguageSyntax::Css,
            ContextKind::Js => LanguageSyntax::Js,
        }
    }
}

/// The names that go with a scope: that of its syntax family, and that of
/// the language it is written in
#[derive(Copy, Clone, Debug, PartialEq, Eq)]
pub struct ContextMeta<'a> {
    pub kind: &'static [u8],
    pub lang: &'a [u8],
}

/// A region of a document, as its kind, the two ends of its span and its
/// names
#[derive(Copy, Clone, Debug, PartialEq, Eq)]
pub struct ScopeContext<'a> {
    pub kind: ContextKind,
    pub span: [usize; 2],
    pub meta: ContextMeta<'a>,
}

impl<'a> View for ScopeContext<'a> {
    type V = RegionModel;

    open spec fn view(&self) -> RegionModel {
        RegionModel {
            syntax: self.kind.syntax(),
            language: self.meta.lang@,
            start: self.span[0] as int,
            end: self.span[1] as int,
        }
    }
}

/// What each scope of a list says.
pub open spec fn scope_views<'a>(scopes: Seq<ScopeContext<'a>>) -> Seq<RegionModel> {
    scopes.map_values(|scope: ScopeContext<'a>| scope@)
}

impl<'a> ScopeContext<'a> {
    /// Whether the scope carries the name of its own syntax family.
    pub open spec fn wf(self) -> bool {
        self.meta.kind@ == default_language(self.kind.syntax())
    }

    /// An empty scope of markup at `start`.
    pub fn new(start: usize) -> (scope: Self)
        ensures
            scope.wf(),
            scope.kind == ContextKind::Html,
            scope@.language == default_language(LanguageSyntax::Html),
            scope@.start == start,
            scope@.end == start,
    {
        let name = family_name(ContextKind::Html);
        Self { kind: ContextKind::Html, span: [start, start], meta: ContextMeta { kind: name, lang: name } }
    }

    /// The scope that says what a region says. A region of a syntax that no
    /// scope has becomes a scope of markup.
    pub fn of_region(region: &LanguageRegion<'a>) -> (scope: Self)
        ensures
            scope.wf(),
            region.syntax != LanguageSyntax::Other ==> scope@ == region@,
    {
        let kind = match region.syntax {
            LanguageSyntax::Css => ContextKind::Css,
            LanguageSyntax::Js => ContextKind::Js,
            _ => ContextKind::Html,
        };
        Self {
            kind,
            span: [region.span.start, region.span.end],
            meta: ContextMeta { kind: family_name(kind), lang: region.language },
        }
    }
}

/// The name of a syntax family: `html`, `css` or `js`.
fn family_name(kind: ContextKind) -> (name: &'static [u8])
    ensures
        name@ == default_language(kind.syntax()),
{
    let span = crate::regions::span::Span::new(0, 0);
    match kind {
        ContextKind::Html => LanguageRegion::html(span).language,
        ContextKind::Css => LanguageRegion::css(span).language,
        ContextKind::Js => LanguageRegion::js(span).language,
    }
}

/// Looks for markers one byte at a time: the plain counterpart of the
/// chunked search, which yields the same offsets in the same order.
pub struct HtmlMarkers<'a> {
    input: &'a [u8],
    pos: usize,
}

impl<'a> View for HtmlMarkers<'a> {
    type V = Seq<int>;

    /// The offsets still to come, in the order in which they come.
    open spec fn view(&self) -> Seq<int> {
        markers_from(self.bytes(), self.cursor())
    }
}

impl<'a> HtmlMarkers<'a> {
    #[verifier::type_invariant]
    spec fn inv(self) -> bool {
        self.pos <= self.input@.len()
    }

    /// The buffer that is searched.
    pub closed spec fn bytes(&self) -> Seq<u8> {
        self.input@
    }

    /// The offset at which the search stands.
    pub closed spec fn cursor(&self) -> int {
        self.pos as int
    }

    pub fn new(input: &'a [u8]) -> (markers: Self)
        ensures
            markers.bytes() == input@,
            markers.cursor() == 0,
            markers@ == markers_of(input@),
    {
        Self { input, pos: 0 }
    }

    /// Moves to the first marker at or after the place where the search
    /// stands. Where no marker is left, the search stays where it is.
    pub fn advance(&mut self)
        ensures
            final(self).bytes() == old(self).bytes(),
            0 <= old(self).cursor() <= final(self).cursor() <= old(self).bytes().len(),
            !no_marker_in(
                old(self).bytes(),
                old(self).cursor(),
                old(self).bytes().len() as int,
            ) ==> is_next_marker(old(self).bytes(), old(self).cursor(), final(self).cursor()),
            no_marker_in(old(self).bytes(), old(self).cursor(), old(self).bytes().len() as int)
                ==> final(self).cursor() == old(self).cursor(),
    {
        proof {
            use_type_invariant(&*self);
        }
        let input = self.input;
        let mut i: usize = self.pos;
        while i < input.len() && input[i] != MARKER
            invariant
                input@ == old(self).bytes(),
                old(self).cursor() <= i <= input@.len(),
                no_marker_in(input@, old(self).cursor(), i as int),
            decreases input@.len() - i,
        {
            i += 1;
        }
        if i < input.len() {
            assert(input@[i as int] == MARKER);
            *self = HtmlMarkers { input, pos: i };
        }
    }

    /// The input from the place where the search stands.
    pub fn get(&self) -> (rest: &'a [u8])
        ensures
            rest@ == self.bytes().subrange(self.cursor(), self.bytes().len() as int),
    {
        proof {
            use_type_invariant(self);
        }
        vstd::slice::slice_subrange(self.input, self.pos, self.input.len())
    }

    /// Whether more than one byte is left from the place where the search
    /// stands: a marker on the last byte of the input begins no tag.
    pub fn has_more(&self) -> (more: bool)
        ensures
            more == (self.cursor() + 1 < self.bytes().len()),
    {
        proof {
            use_type_invariant(self);
        }
        self.input.len() - self.pos > 1
    }

    /// Yields the offset of the next marker, or `None` once the rest of the
    /// input holds no marker.
    pub fn next(&mut self) -> (point: Option<usize>)
        ensures
            final(self).bytes() == old(self).bytes(),
            0 <= old(self).cursor() <= final(self).cursor() <= old(self).bytes().len(),
            match point {
                Some(p) => {
                    &&& is_next_marker(old(self).bytes(), old(self).cursor(), p as int)
                    &&& final(self).cursor() == p + 1
                    &&& old(self)@ == seq![p as int] + final(self)@
                },
                None => {
                    &&& no_marker_in(
                        old(self).bytes(),
                        old(self).cursor(),
                        old(self).bytes().len() as int,
                    )
                    &&& final(self).cursor() == old(self).bytes().len()
                    &&& old(self)@ == Seq::<int>::empty()
                    &&& final(self)@ == Seq::<int>::empty()
                },
            },
    {
        self.advance();
        proof {
            use_type_invariant(&*self);
        }
        let input = self.input;
        let p: usize = self.pos;
        if p < input.len() && input[p] == MARKER {
            *self = HtmlMarkers { input, pos: p + 1 };
            proof {
                let s = old(self).bytes();
                if no_marker_in(s, old(self).cursor(), s.len() as int) {
                    assert(s[p as int] != MARKER);
                }
                lemma_markers_next(s, old(self).cursor(), p as int);
            }
            Some(p)
        } else {
            *self = HtmlMarkers { input, pos: input.len() };
            proof {
                lemma_markers_none(old(self).bytes(), old(self).cursor());
                lemma_markers_none(self.bytes(), self.cursor());
            }
            None
        }
    }
}

/// Scans a document and returns its regions as a list of scopes: the regions
/// that `scan_html` finds, with the markers searched for one byte at a time.
pub fn parse_html<'a>(input: &'a [u8]) -> (scopes: Vec<ScopeContext<'a>>)
    ensures
        scope_views(scopes@) == regions_of(input@),
        partitions(scope_views(scopes@), 0, input@.len() as int),
        forall|i: int| 0 <= i < scopes@.len() ==> (#[trigger] scopes@[i]).wf(),
{
    let ghost s = input@;
    let mut regions: Vec<LanguageRegion<'a>> = Vec::new();
    let mut markers = HtmlMarkers::new(input);
    let mut scanner = RegionScanner::new(input);
    assert(region_views(regions@) =~= Seq::<RegionModel>::empty());
    assert(region_views(regions@) + regions_of(s) =~= regions_of(s));
    loop
        invariant_except_break
            markers.bytes() == s,
            scanner.bytes() == s,
            0 <= markers.cursor() <= scanner.resume() <= s.len(),
            region_views(regions@) + scanner.pending() == regions_of(s),
        ensures
            markers.bytes() == s,
            scanner.bytes() == s,
            region_views(regions@) + scanner.pending() == regions_of(s),
            no_marker_in(s, scanner.resume(), s.len() as int),
        decreases s.len() - markers.cursor(),
    {
        match markers.next() {
            Some(p) => {
                scanner.visit(p, &mut regions);
            },
            None => {
                break ;
            },
        }
    }
    scanner.finish(&mut regions);
    proof {
        lemma_regions_from_partition(s, 0, 0);
        lemma_regions_syntax(s, 0, 0);
        assert(region_views(regions@) == regions_of(s));
        assert forall|k: int| 0 <= k < regions@.len() implies (#[trigger] regions@[k]).syntax
            != LanguageSyntax::Other by {
            assert(regions@[k]@ == region_views(regions@)[k]);
        }
    }
    let mut scopes: Vec<ScopeContext<'a>> = Vec::new();
    let mut i: usize = 0;
    while i < regions.len()
        invariant
            i <= regions@.len(),
            scopes@.len() == i,
            forall|k: int| 0 <= k < regions@.len() ==> (#[trigger] regions@[k]).syntax
                != LanguageSyntax::Other,
            forall|k: int| 0 <= k < i ==> (#[trigger] scopes@[k]).wf(),
            forall|k: int| 0 <= k < i ==> (#[trigger] scopes@[k])@ == regions@[k]@,
        decreases regions@.len() - i,
    {
        scopes.push(ScopeContext::of_region(&regions[i]));
        i += 1;
    }
    assert(scope_views(scopes@) =~= region_views(regions@));
    scopes
}

} // verus!
