use vstd::prelude::*;
use super::attrs::starts_with;
use super::classes::{ByteClass, Quote, MARKER, SLASH, TAG_END, classify, closer, opened_by};
use super::find::tag_end;
use super::lang::{LanguageRegion, RegionModel};
use super::model::{
    TagKind, after_tag, block_from, closing, embedded, find_literal, markup, opening_at,
    partitions, regions_from, regions_of, lemma_regions_from_partition,
};
use super::poi::PointsOfInterest;
use super::scanner::{RegionScanner, region_views, lemma_push_view};
use super::span::Span;
use super::tags::{
    block_language, block_region, closing_bytes, keyword_bytes, recognize, lemma_opening_name,
};

verus! {

/// Where the byte-by-byte scanner stands
#[derive(Copy, Clone, Debug, PartialEq, Eq)]
enum State {
    /// In markup, outside any tag
    Idle,
    /// Just past a `<`
    TagStart,
    /// Among the attributes of a recognized tag, which begin at the offset
    TagAttrs(TagKind, usize),
    /// Inside an attribute value of a recognized tag
    AttrValue(TagKind, usize, Quote),
    /// Inside the block that a recognized tag opened
    BlockOpen(TagKind),
}

/// The regions still to come when the byte-by-byte scanner stands at `at`
/// in the given state, with a region open since `start`.
spec fn pending(s: Seq<u8>, state: State, start: int, language: Seq<u8>, at: int) -> Seq<
    RegionModel,
> {
    match state {
        State::Idle => regions_from(s, start, at),
        State::TagStart => regions_from(s, start, at - 1),
        State::TagAttrs(kind, lo) => after_attrs(s, start, kind, lo as int, at, None),
        State::AttrValue(kind, lo, quote) => after_attrs(
            s,
            start,
            kind,
            lo as int,
            at,
            Some(quote),
        ),
        State::BlockOpen(kind) => block_from(s, kind, language, start, at),
    }
}

/// The regions still to come from among the attributes of a recognized tag.
spec fn after_attrs(
    s: Seq<u8>,
    start: int,
    kind: TagKind,
    lo: int,
    at: int,
    open: Option<Quote>,
) -> Seq<RegionModel> {
    match tag_end(s, at, open) {
        None => seq![markup(start, s.len() as int)],
        Some(hi) => after_tag(s, start, kind, Some((lo, hi)), hi + 1),
    }
}

/// What the state demands of the offsets it goes with.
spec fn consistent(s: Seq<u8>, state: State, start: int, at: int) -> bool {
    &&& 0 <= start <= at <= s.len()
    &&& match state {
        State::Idle => true,
        State::TagStart => start < at && s[at - 1] == MARKER,
        State::TagAttrs(_, lo) => start < lo <= at,
        State::AttrValue(_, lo, _) => start < lo <= at,
        State::BlockOpen(_) => true,
    }
}

/// Reads a document one byte at a time and appends its regions to the list.
///
/// The scanner rests in markup until a `<script` or `<style` tag, followed
/// by whitespace or `>`, begins. Among the tag's attributes a `'`, `"` or
/// `{` opens a value, inside which `>` is content. The `>` that ends the
/// tag closes the markup region just past it and opens a block of the
/// tag's kind, unless `/` stands directly before it. The block runs to the
/// literal closing tag of its kind, at whose `<` markup resumes. Whatever is
/// open at the end of the document is closed there.
pub fn scan_html<'a>(input: &'a [u8], regions: &mut Vec<LanguageRegion<'a>>)
    ensures
        region_views(final(regions)@) == region_views(old(regions)@) + regions_of(input@),
        partitions(regions_of(input@), 0, input@.len() as int),
{
    let ghost s = input@;
    let ghost target = region_views(regions@) + regions_of(s);
    let n: usize = input.len();
    let mut state = State::Idle;
    let mut start: usize = 0;
    let mut language: &'a [u8] = block_region(TagKind::Script, Span::new(0, 0)).language;
    let mut i: usize = 0;
    proof {
        lemma_regions_from_partition(s, 0, 0);
    }
    while i < n
        invariant
            s == input@,
            n == s.len(),
            consistent(s, state, start as int, i as int),
            region_views(regions@) + pending(s, state, start as int, language@, i as int)
                == target,
        decreases n - i,
    {
        let b: u8 = input[i];
        let ghost rest = pending(s, state, start as int, language@, i as int);
        match state {
            State::Idle => {
                if b == MARKER {
                    state = State::TagStart;
                }
                i += 1;
            },
            State::TagStart => {
                match recognize(input, i - 1) {
                    Some(kind) => {
                        proof {
                            lemma_opening_name(s, i - 1, kind);
                        }
                        let k: usize = i + keyword_bytes(kind).len();
                        if input[k] == TAG_END {
                            let region = LanguageRegion::html(Span::new(start, k + 1));
                            language = block_region(kind, Span::new(0, 0)).language;
                            proof {
                                assert(rest == after_tag(s, start as int, kind, None, k + 1));
                                lemma_push_view(
                                    regions@,
                                    region,
                                    block_from(s, kind, language@, k + 1, k + 1),
                                );
                            }
                            regions.push(region);
                            start = k + 1;
                            state = State::BlockOpen(kind);
                        } else {
                            state = State::TagAttrs(kind, k + 1);
                        }
                        i = k + 1;
                    },
                    None => {
                        assert(rest == regions_from(s, start as int, i as int));
                        state = if b == MARKER {
                            State::TagStart
                        } else {
                            State::Idle
                        };
                        i += 1;
                    },
                }
            },
            State::TagAttrs(kind, lo) => {
                if b == TAG_END {
                    assert(tag_end(s, i as int, None) == Some(i as int));
                    if i > lo && input[i - 1] == SLASH {
                        state = State::Idle;
                    } else {
                        language = block_language(input, kind, lo, i);
                        let region = LanguageRegion::html(Span::new(start, i + 1));
                        proof {
                            lemma_push_view(
                                regions@,
                                region,
                                block_from(s, kind, language@, i + 1, i + 1),
                            );
                        }
                        regions.push(region);
                        start = i + 1;
                        state = State::BlockOpen(kind);
                    }
                } else {
                    assert(tag_end(s, i as int, None) == tag_end(s, i + 1, opened_by(b)));
                    match classify(b) {
                        ByteClass::SingleQuote => {
                            state = State::AttrValue(kind, lo, Quote::Single);
                        },
                        ByteClass::DoubleQuote => {
                            state = State::AttrValue(kind, lo, Quote::Double);
                        },
                        ByteClass::CurlyOpen => {
                            state = State::AttrValue(kind, lo, Quote::Curly);
                        },
                        _ => {},
                    }
                }
                i += 1;
            },
            State::AttrValue(kind, lo, quote) => {
                if b == closer(quote) {
                    state = State::TagAttrs(kind, lo);
                }
                i += 1;
            },
            State::BlockOpen(kind) => {
                if starts_with(input, i, closing_bytes(kind)) {
                    let region = LanguageRegion::new(
                        block_region(kind, Span::new(0, 0)).syntax,
                        language,
                        Span::new(start, i),
                    );
                    proof {
                        assert(region@ == embedded(kind, language@, start as int, i as int));
                        lemma_push_view(regions@, region, regions_from(s, i as int, i + 1));
                    }
                    regions.push(region);
                    start = i;
                    state = State::Idle;
                }
                i += 1;
            },
        }
    }
    let last = match state {
        State::BlockOpen(kind) => LanguageRegion::new(
            block_region(kind, Span::new(0, 0)).syntax,
            language,
            Span::new(start, n),
        ),
        _ => LanguageRegion::html(Span::new(start, n)),
    };
    proof {
        let rest = pending(s, state, start as int, language@, n as int);
        assert(rest == seq![last@]) by {
            match state {
                State::Idle => {
                    assert(last@ == markup(start as int, n as int));
                },
                State::TagStart => {
                    assert(opening_at(s, n - 1) is None);
                    assert(rest == regions_from(s, start as int, n as int));
                    assert(last@ == markup(start as int, n as int));
                },
                State::TagAttrs(kind, lo) => {
                    assert(tag_end(s, n as int, None) is None);
                    assert(last@ == markup(start as int, n as int));
                },
                State::AttrValue(kind, lo, quote) => {
                    assert(tag_end(s, n as int, Some(quote)) is None);
                    assert(last@ == markup(start as int, n as int));
                },
                State::BlockOpen(kind) => {
                    assert(find_literal(s, n as int, closing(kind)) is None);
                    assert(last@ == embedded(kind, language@, start as int, n as int));
                },
            }
        }
        assert(region_views(regions@.push(last)) =~= region_views(regions@) + seq![last@]);
    }
    regions.push(last);
}

/// Goes from marker to marker and appends the regions of a document to the
/// list: the same regions that `scan_html` finds byte by byte. The markers
/// come from the chunked search, and the bytes between them are never
/// looked at.
pub fn scan_html_fast<'a>(input: &'a [u8], regions: &mut Vec<LanguageRegion<'a>>)
    ensures
        region_views(final(regions)@) == region_views(old(regions)@) + regions_of(input@),
        partitions(regions_of(input@), 0, input@.len() as int),
{
    let ghost s = input@;
    let mut points = PointsOfInterest::new(input);
    let mut scanner = RegionScanner::new(input);
    proof {
        lemma_regions_from_partition(s, 0, 0);
    }
    loop
        invariant
            s == input@,
            points.bytes() == s,
            scanner.bytes() == s,
            partitions(regions_of(s), 0, s.len() as int),
            0 <= points.cursor() <= scanner.resume() <= s.len(),
            region_views(regions@) + scanner.pending() == region_views(old(regions)@) + regions_of(
                s,
            ),
        decreases s.len() - points.cursor(),
    {
        match points.next() {
            Some(p) => {
                scanner.visit(p, regions);
            },
            None => {
                scanner.finish(regions);
                return ;
            },
        }
    }
}

} // verus!
