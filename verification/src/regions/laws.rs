use vstd::prelude::*;
use crate::html_fast::{HtmlMarkers, ScopeContext, scope_views};
use super::attrs::has_at;
use super::classes::MARKER;
use super::find::{name_end, lemma_name_end_bounds};
use super::lang::LanguageRegion;
use super::model::{TagKind, keyword, opens, partitions, regions_of, lemma_regions_from_partition};
use super::poi::{PointsOfInterest, markers_from};
use super::scanner::region_views;
use super::tags::lemma_opening_name;

verus! {

/// Coverage: the regions of a document, in order, cover it from its first
/// byte to its last, without a gap and without an overlap.
pub proof fn regions_cover_input(input: Seq<u8>)
    ensures
        partitions(regions_of(input), 0, input.len() as int),
{
    lemma_regions_from_partition(input, 0, 0);
}

/// Idempotence: two scans of the same buffer, each appending to a list that
/// said the same before, leave lists that say the same.
pub proof fn scan_is_repeatable<'a>(
    input: Seq<u8>,
    before_first: Seq<LanguageRegion<'a>>,
    after_first: Seq<LanguageRegion<'a>>,
    before_second: Seq<LanguageRegion<'a>>,
    after_second: Seq<LanguageRegion<'a>>,
)
    requires
        region_views(before_first) == region_views(before_second),
        region_views(after_first) == region_views(before_first) + regions_of(input),
        region_views(after_second) == region_views(before_second) + regions_of(input),
    ensures
        region_views(after_first) == region_views(after_second),
{
}

/// What a scan appends is found again at the end of the list, whatever the
/// list held before: a scan keeps nothing from one run to the next.
pub proof fn scan_appends_regions<'a>(
    input: Seq<u8>,
    before: Seq<LanguageRegion<'a>>,
    after: Seq<LanguageRegion<'a>>,
)
    requires
        region_views(after) == region_views(before) + regions_of(input),
    ensures
        after.len() == before.len() + regions_of(input).len(),
        region_views(after.subrange(before.len() as int, after.len() as int)) == regions_of(input),
        region_views(after.subrange(0, before.len() as int)) == region_views(before),
{
    let appended = regions_of(input);
    assert(region_views(after).len() == after.len());
    assert(region_views(before).len() == before.len());
    assert((region_views(before) + appended).len() == before.len() + appended.len());
    let tail = after.subrange(before.len() as int, after.len() as int);
    assert forall|i: int| 0 <= i < tail.len() implies region_views(tail)[i] == appended[i] by {
        assert(region_views(after)[before.len() + i] == after[before.len() + i]@);
        assert((region_views(before) + appended)[before.len() + i] == appended[i]);
    }
    assert(region_views(tail) =~= appended);
    let head = after.subrange(0, before.len() as int);
    assert forall|i: int| 0 <= i < head.len() implies region_views(head)[i] == region_views(
        before,
    )[i] by {
        assert(region_views(after)[i] == after[i]@);
        assert((region_views(before) + appended)[i] == region_views(before)[i]);
    }
    assert(region_views(head) =~= region_views(before));
}

/// Strategy equivalence: the scan that reads byte by byte and the scan that
/// goes from marker to marker, each appending to a list that said the same
/// before, leave lists that say the same.
pub proof fn strategies_agree<'a>(
    input: Seq<u8>,
    before_plain: Seq<LanguageRegion<'a>>,
    after_plain: Seq<LanguageRegion<'a>>,
    before_fast: Seq<LanguageRegion<'a>>,
    after_fast: Seq<LanguageRegion<'a>>,
)
    requires
        region_views(before_plain) == region_views(before_fast),
        // what `scan_html` ensures
        region_views(after_plain) == region_views(before_plain) + regions_of(input),
        // what `scan_html_fast` ensures
        region_views(after_fast) == region_views(before_fast) + regions_of(input),
    ensures
        region_views(after_plain) == region_views(after_fast),
{
}

/// The list of scopes that `parse_html` returns says what a scan appends to
/// an empty list.
pub proof fn scopes_agree_with_regions<'a>(
    input: Seq<u8>,
    scopes: Seq<ScopeContext<'a>>,
    regions: Seq<LanguageRegion<'a>>,
)
    requires
        scope_views(scopes) == regions_of(input),
        region_views(regions) == region_views(Seq::<LanguageRegion<'a>>::empty()) + regions_of(
            input,
        ),
    ensures
        scope_views(scopes) == region_views(regions),
{
    assert(region_views(Seq::<LanguageRegion<'a>>::empty()) + regions_of(input) =~= regions_of(
        input,
    ));
}

/// The search by chunks and the search byte by byte, on the same buffer
/// and from the same offset, have the same offsets still to come.
pub proof fn marker_searches_agree<'a>(chunked: PointsOfInterest<'a>, plain: HtmlMarkers<'a>)
    requires
        chunked.bytes() == plain.bytes(),
        chunked.cursor() == plain.cursor(),
    ensures
        chunked@ == plain@,
{
}

/// A marker begins a recognized tag exactly where the name that follows it,
/// as the tag extractor splits it off, is the keyword of the tag's kind.
pub proof fn recognized_tags_are_named_by_keyword(s: Seq<u8>, p: int, kind: TagKind)
    requires
        0 <= p < s.len(),
        s[p] == MARKER,
    ensures
        opens(s, p, kind) <==> (name_end(s, p + 1) matches Some(k) && s.subrange(p + 1, k)
            == keyword(kind)),
{
    let word = keyword(kind);
    lemma_name_end_bounds(s, p + 1);
    if opens(s, p, kind) {
        lemma_opening_name(s, p, kind);
        assert(s.subrange(p + 1, p + 1 + word.len()) =~= word);
    }
    if let Some(k) = name_end(s, p + 1) {
        if s.subrange(p + 1, k) == word {
            assert(k == p + 1 + word.len());
            assert forall|i: int| 0 <= i < word.len() implies s[p + 1 + i] == #[trigger] word[i] by {
                assert(s.subrange(p + 1, k)[i] == s[p + 1 + i]);
            }
            assert(has_at(s, p + 1, word));
        }
    }
}

/// The markers of a buffer are the offsets of its marker bytes, each of
/// them once, in strictly ascending order.
pub proof fn markers_are_exact(s: Seq<u8>, from: int)
    requires
        0 <= from,
    ensures
        forall|i: int|
            0 <= i < markers_from(s, from).len() ==> from <= (#[trigger] markers_from(s, from)[i])
                < s.len() && s[markers_from(s, from)[i]] == MARKER,
        forall|i: int, j: int|
            0 <= i < j < markers_from(s, from).len() ==> (#[trigger] markers_from(s, from)[i]) < (
            #[trigger] markers_from(s, from)[j]),
        forall|p: int|
            from <= p < s.len() && #[trigger] s[p] == MARKER ==> markers_from(s, from).contains(p),
    decreases s.len() - from,
{
    let all = markers_from(s, from);
    if from < s.len() {
        markers_are_exact(s, from + 1);
        let rest = markers_from(s, from + 1);
        if s[from] == MARKER {
            assert(all == seq![from] + rest);
            assert forall|i: int| 0 <= i < all.len() implies from <= (#[trigger] all[i]) < s.len()
                && s[all[i]] == MARKER by {
                if i > 0 {
                    assert(all[i] == rest[i - 1]);
                }
            }
            assert forall|i: int, j: int| 0 <= i < j < all.len() implies (#[trigger] all[i]) < (
            #[trigger] all[j]) by {
                assert(all[j] == rest[j - 1]);
                if i > 0 {
                    assert(all[i] == rest[i - 1]);
                }
            }
            assert forall|p: int| from <= p < s.len() && #[trigger] s[p] == MARKER implies all.contains(
                p,
            ) by {
                if p == from {
                    assert(all[0] == p);
                } else {
                    assert(rest.contains(p));
                    let k = choose|k: int| 0 <= k < rest.len() && rest[k] == p;
                    assert(all[k + 1] == p);
                }
            }
        } else {
            assert(all == rest);
        }
    }
}

} // verus!
