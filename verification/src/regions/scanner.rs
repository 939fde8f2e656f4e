use vstd::prelude::*;
use super::attrs::starts_with;
use super::classes::MARKER;
use super::find::{extract_tag, lemma_tag_at_bounds};
use super::lang::{LanguageRegion, RegionModel};
use super::model::{
    TagKind, after_tag, block_from, closing, embedded, find_literal, markup, regions_from,
    regions_of, lemma_find_literal_skip, lemma_regions_skip,
};
use super::poi::no_marker_in;
use super::span::Span;
use super::tags::{block_region, closes_itself, closing_bytes, recognize, tag_language};

verus! {

/// What each region of a list says.
pub open spec fn region_views<'a>(regions: Seq<LanguageRegion<'a>>) -> Seq<RegionModel> {
    regions.map_values(|region: LanguageRegion<'a>| region@)
}

/// Appending a region to the list appends what it says to what the list says.
pub proof fn lemma_push_view<'a>(
    list: Seq<LanguageRegion<'a>>,
    region: LanguageRegion<'a>,
    rest: Seq<RegionModel>,
)
    ensures
        region_views(list.push(region)) + rest == region_views(list) + (seq![region@] + rest),
{
    assert(region_views(list.push(region)) =~= region_views(list) + seq![region@]);
    assert((region_views(list) + seq![region@]) + rest =~= region_views(list) + (seq![region@]
        + rest));
}

/// The regions still to come when the bytes before `at` have been dealt
/// with: inside the block of the given kind, or in markup where there is
/// none.
pub open spec fn waiting(
    s: Seq<u8>,
    block: Option<TagKind>,
    start: int,
    language: Seq<u8>,
    at: int,
) -> Seq<RegionModel> {
    match block {
        Some(kind) => block_from(s, kind, language, start, at),
        None => regions_from(s, start, at),
    }
}

/// The state machine that turns the markers of a document into its regions.
/// It is handed the offset of each marker in turn and appends a region to
/// the caller's list whenever one closes; the bytes between markers it never
/// looks at.
pub struct RegionScanner<'a> {
    input: &'a [u8],
    /// The kind of the block that is open, if one is
    current_tag: Option<TagKind>,
    /// The language of the block that is open
    language: &'a [u8],
    /// The offset at which the open region starts
    start: usize,
    /// The offset before which markers no longer matter
    pos: usize,
    /// Set where a recognized tag never ends: the rest is markup
    closed: bool,
}

impl<'a> RegionScanner<'a> {
    #[verifier::type_invariant]
    spec fn inv(self) -> bool {
        &&& self.start <= self.pos <= self.input@.len()
        &&& self.closed ==> self.pos == self.input@.len()
    }

    /// The buffer that is scanned.
    pub closed spec fn bytes(&self) -> Seq<u8> {
        self.input@
    }

    /// The offset before which markers no longer matter to the scanner.
    pub closed spec fn resume(&self) -> int {
        self.pos as int
    }

    /// The regions that the scanner has yet to append.
    pub closed spec fn pending(&self) -> Seq<RegionModel> {
        if self.closed {
            seq![markup(self.start as int, self.input@.len() as int)]
        } else {
            waiting(
                self.input@,
                self.current_tag,
                self.start as int,
                self.language@,
                self.pos as int,
            )
        }
    }

    pub fn new(input: &'a [u8]) -> (scanner: Self)
        ensures
            scanner.bytes() == input@,
            scanner.resume() == 0,
            scanner.pending() == regions_of(input@),
    {
        RegionScanner {
            input,
            current_tag: None,
            language: block_region(TagKind::Script, Span::new(0, 0)).language,
            start: 0,
            pos: 0,
            closed: false,
        }
    }

    /// The region that is open, closed at `end`.
    fn open_region(&self, end: usize) -> (region: LanguageRegion<'a>)
        requires
            self.start <= end,
        ensures
            region@ == match self.current_tag {
                Some(kind) => embedded(kind, self.language@, self.start as int, end as int),
                None => markup(self.start as int, end as int),
            },
    {
        match self.current_tag {
            Some(kind) => LanguageRegion::new(
                block_region(kind, Span::new(0, 0)).syntax,
                self.language,
                Span::new(self.start, end),
            ),
            None => LanguageRegion::html(Span::new(self.start, end)),
        }
    }

    /// Deals with the marker at offset `p`, the first one at or after the
    /// offset where the scanner resumes; a marker before that offset lies
    /// inside a tag that was dealt with and changes nothing.
    ///
    /// In markup the marker is tested for a recognized tag, which is then
    /// extracted with its attributes. Inside a block it is tested for the
    /// literal closing tag of the block's kind.
    pub fn visit(&mut self, p: usize, regions: &mut Vec<LanguageRegion<'a>>)
        requires
            p < old(self).bytes().len(),
            old(self).bytes()[p as int] == MARKER,
            no_marker_in(old(self).bytes(), old(self).resume(), p as int),
        ensures
            final(self).bytes() == old(self).bytes(),
            old(self).resume() <= final(self).resume() <= old(self).bytes().len(),
            p < final(self).resume(),
            region_views(final(regions)@) + final(self).pending() == region_views(old(regions)@)
                + old(self).pending(),
    {
        proof {
            use_type_invariant(&*self);
        }
        let input = self.input;
        let ghost s = input@;
        let ghost rest = self.pending();
        let start: usize = self.start;
        let n: usize = input.len();
        if self.closed || p < self.pos {
            return ;
        }
        match self.current_tag {
            Some(kind) => {
                proof {
                    lemma_find_literal_skip(s, self.pos as int, p as int, closing(kind));
                }
                if starts_with(input, p, closing_bytes(kind)) {
                    let region = self.open_region(p);
                    proof {
                        assert(find_literal(s, p as int, closing(kind)) == Some(p as int));
                        lemma_push_view(regions@, region, regions_from(s, p as int, p + 1));
                    }
                    regions.push(region);
                    *self = RegionScanner {
                        input,
                        current_tag: None,
                        language: self.language,
                        start: p,
                        pos: p + 1,
                        closed: false,
                    };
                } else {
                    *self = RegionScanner {
                        input,
                        current_tag: self.current_tag,
                        language: self.language,
                        start,
                        pos: p + 1,
                        closed: false,
                    };
                }
            },
            None => {
                proof {
                    lemma_regions_skip(s, start as int, self.pos as int, p as int);
                    assert(rest == regions_from(s, start as int, p as int));
                }
                match recognize(input, p) {
                    None => {
                        assert(rest == regions_from(s, start as int, p + 1));
                        *self = RegionScanner {
                            input,
                            current_tag: None,
                            language: self.language,
                            start,
                            pos: p + 1,
                            closed: false,
                        };
                    },
                    Some(kind) => match extract_tag(input, p) {
                        None => {
                            *self = RegionScanner {
                                input,
                                current_tag: None,
                                language: self.language,
                                start,
                                pos: n,
                                closed: true,
                            };
                        },
                        Some(tag) => {
                            proof {
                                lemma_tag_at_bounds(s, p as int);
                                assert(rest == after_tag(
                                    s,
                                    start as int,
                                    kind,
                                    tag@.attrs,
                                    tag.end as int,
                                ));
                            }
                            if closes_itself(input, &tag) {
                                *self = RegionScanner {
                                    input,
                                    current_tag: None,
                                    language: self.language,
                                    start,
                                    pos: tag.end,
                                    closed: false,
                                };
                            } else {
                                let language = tag_language(input, kind, &tag);
                                let region = LanguageRegion::html(Span::new(start, tag.end));
                                proof {
                                    lemma_push_view(
                                        regions@,
                                        region,
                                        block_from(
                                            s,
                                            kind,
                                            language@,
                                            tag.end as int,
                                            tag.end as int,
                                        ),
                                    );
                                }
                                regions.push(region);
                                *self = RegionScanner {
                                    input,
                                    current_tag: Some(kind),
                                    language,
                                    start: tag.end,
                                    pos: tag.end,
                                    closed: false,
                                };
                            }
                        },
                    },
                }
            },
        }
    }

    /// Closes the region that is open at the end of the input and appends
    /// it, once no marker is left.
    pub fn finish(self, regions: &mut Vec<LanguageRegion<'a>>)
        requires
            no_marker_in(self.bytes(), self.resume(), self.bytes().len() as int),
        ensures
            region_views(final(regions)@) == region_views(old(regions)@) + self.pending(),
    {
        proof {
            use_type_invariant(&self);
        }
        let ghost s = self.input@;
        let n: usize = self.input.len();
        let last = if self.closed {
            LanguageRegion::html(Span::new(self.start, n))
        } else {
            self.open_region(n)
        };
        proof {
            if !self.closed {
                match self.current_tag {
                    Some(kind) => {
                        lemma_find_literal_skip(s, self.pos as int, n as int, closing(kind));
                        assert(find_literal(s, n as int, closing(kind)) is None);
                    },
                    None => {
                        lemma_regions_skip(s, self.start as int, self.pos as int, n as int);
                    },
                }
            }
            assert(self.pending() == seq![last@]);
            assert(region_views(regions@.push(last)) =~= region_views(regions@) + seq![last@]);
        }
        regions.push(last);
    }
}

} // verus!
