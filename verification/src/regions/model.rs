use vstd::prelude::*;
use super::attrs::{AttributeName, attribute_of, has_at};
use super::classes::{MARKER, SLASH};
use super::find::{ends_name, tag_at, lemma_tag_at_bounds};
use super::poi::no_marker_in;
use super::lang::{LanguageSyntax, RegionModel, default_language};

verus! {

/// The tags that open a block written in another language
#[derive(Copy, Clone, Debug, PartialEq, Eq, Structural)]
pub enum TagKind {
    /// `<script>`
    Script,
    /// `<style>`
    Style,
}

/// The name of the tag that opens a block: `script` or `style`.
pub open spec fn keyword(kind: TagKind) -> Seq<u8> {
    match kind {
        TagKind::Script => seq![0x73u8, 0x63u8, 0x72u8, 0x69u8, 0x70u8, 0x74u8],
        TagKind::Style => seq![0x73u8, 0x74u8, 0x79u8, 0x6cu8, 0x65u8],
    }
}

/// The literal bytes that close a block: `</script>` or `</style>`.
pub open spec fn closing(kind: TagKind) -> Seq<u8> {
    match kind {
        TagKind::Script => seq![
            0x3cu8, 0x2fu8, 0x73u8, 0x63u8, 0x72u8, 0x69u8, 0x70u8, 0x74u8, 0x3eu8,
        ],
        TagKind::Style => seq![0x3cu8, 0x2fu8, 0x73u8, 0x74u8, 0x79u8, 0x6cu8, 0x65u8, 0x3eu8],
    }
}

/// The syntax family of the block that a tag opens.
pub open spec fn syntax_of(kind: TagKind) -> LanguageSyntax {
    match kind {
        TagKind::Script => LanguageSyntax::Js,
        TagKind::Style => LanguageSyntax::Css,
    }
}

/// Whether the marker at offset `p` is followed by the keyword of `kind`
/// and then by whitespace or `>`.
pub open spec fn opens(s: Seq<u8>, p: int, kind: TagKind) -> bool {
    let k = p + 1 + keyword(kind).len();
    &&& 0 <= p < s.len()
    &&& s[p] == MARKER
    &&& has_at(s, p + 1, keyword(kind))
    &&& k < s.len()
    &&& ends_name(s[k])
}

/// The kind of block that the tag at offset `p` opens, if it is one of the
/// recognized tags.
pub open spec fn opening_at(s: Seq<u8>, p: int) -> Option<TagKind> {
    if opens(s, p, TagKind::Script) {
        Some(TagKind::Script)
    } else if opens(s, p, TagKind::Style) {
        Some(TagKind::Style)
    } else {
        None
    }
}

/// A tag is self-closing where `/` stands in its attribute bytes directly
/// before the closing `>`.
pub open spec fn self_closing(s: Seq<u8>, attrs: Option<(int, int)>) -> bool {
    match attrs {
        Some((lo, hi)) => lo < hi && s[hi - 1] == SLASH,
        None => false,
    }
}

/// The language identifier of the block that a tag opens: the value of the
/// `lang` attribute among its attribute bytes where it has one, else the
/// default of its kind.
pub open spec fn language_of(s: Seq<u8>, kind: TagKind, attrs: Option<(int, int)>) -> Seq<u8> {
    match attrs {
        Some((lo, hi)) => {
            let bytes = s.subrange(lo, hi);
            match attribute_of(bytes, AttributeName::Lang) {
                Some(value) => bytes.subrange(value.start, value.end),
                None => default_language(syntax_of(kind)),
            }
        },
        None => default_language(syntax_of(kind)),
    }
}

/// The offset of the first occurrence of `pat` at or after `from`.
pub open spec fn find_literal(s: Seq<u8>, from: int, pat: Seq<u8>) -> Option<int>
    decreases s.len() - from,
{
    if from < 0 || from >= s.len() {
        None
    } else if has_at(s, from, pat) {
        Some(from)
    } else {
        find_literal(s, from + 1, pat)
    }
}

/// An occurrence that was found lies at or after the place where the search
/// began and inside the buffer.
pub proof fn lemma_find_literal_bounds(s: Seq<u8>, from: int, pat: Seq<u8>)
    ensures
        match find_literal(s, from, pat) {
            Some(c) => {
                &&& 0 <= from <= c < s.len()
                &&& has_at(s, c, pat)
                &&& forall|i: int| from <= i < c ==> !has_at(s, i, pat)
            },
            None => forall|i: int| 0 <= from <= i < s.len() ==> !has_at(s, i, pat),
        },
    decreases s.len() - from,
{
    if 0 <= from < s.len() && !has_at(s, from, pat) {
        lemma_find_literal_bounds(s, from + 1, pat);
    }
}

/// A region of markup from `start` to `end`.
pub open spec fn markup(start: int, end: int) -> RegionModel {
    RegionModel {
        syntax: LanguageSyntax::Html,
        language: default_language(LanguageSyntax::Html),
        start,
        end,
    }
}

/// A region of an embedded block from `start` to `end`.
pub open spec fn embedded(kind: TagKind, language: Seq<u8>, start: int, end: int) -> RegionModel {
    RegionModel { syntax: syntax_of(kind), language, start, end }
}

/// The regions that remain when the scanner rests in markup: a markup
/// region is open since `start`, and the bytes before `at` have been seen.
///
/// A marker that begins no recognized tag is passed over. A recognized tag
/// whose `>` never comes leaves the rest of the buffer as markup.
pub open spec fn regions_from(s: Seq<u8>, start: int, at: int) -> Seq<RegionModel>
    decreases s.len() - at, 0nat,
{
    if at < 0 || at >= s.len() {
        seq![markup(start, s.len() as int)]
    } else {
        match opening_at(s, at) {
            None => regions_from(s, start, at + 1),
            Some(kind) => match tag_at(s, at) {
                None => seq![markup(start, s.len() as int)],
                Some(tag) => {
                    proof {
                        lemma_tag_at_bounds(s, at);
                    }
                    after_tag(s, start, kind, tag.attrs, tag.end)
                },
            },
        }
    }
}

/// The regions that remain once a recognized tag has ended just before
/// `end`. A self-closing tag opens nothing, and markup goes on. Any other
/// closes the markup region at `end` and opens a block there.
pub open spec fn after_tag(
    s: Seq<u8>,
    start: int,
    kind: TagKind,
    attrs: Option<(int, int)>,
    end: int,
) -> Seq<RegionModel>
    decreases s.len() - end, 2nat,
{
    if self_closing(s, attrs) {
        regions_from(s, start, end)
    } else {
        seq![markup(start, end)] + block_from(s, kind, language_of(s, kind, attrs), end, end)
    }
}

/// The regions that remain inside a block that began at `start`, where the
/// bytes before `at` hold no closing sequence. The block runs to the first
/// closing sequence of its kind, where markup resumes, or to the end of the
/// buffer.
pub open spec fn block_from(
    s: Seq<u8>,
    kind: TagKind,
    language: Seq<u8>,
    start: int,
    at: int,
) -> Seq<RegionModel>
    decreases s.len() - at, 1nat,
{
    match find_literal(s, at, closing(kind)) {
        None => seq![embedded(kind, language, start, s.len() as int)],
        Some(c) => {
            proof {
                lemma_find_literal_bounds(s, at, closing(kind));
            }
            seq![embedded(kind, language, start, c)] + regions_from(s, c, c + 1)
        },
    }
}

/// The regions of a document.
pub open spec fn regions_of(s: Seq<u8>) -> Seq<RegionModel> {
    regions_from(s, 0, 0)
}

/// Bytes that hold no marker change nothing for a scanner that rests in
/// markup.
pub proof fn lemma_regions_skip(s: Seq<u8>, start: int, from: int, to: int)
    requires
        0 <= from <= to <= s.len(),
        no_marker_in(s, from, to),
    ensures
        regions_from(s, start, from) == regions_from(s, start, to),
    decreases to - from,
{
    if from < to {
        assert(opening_at(s, from) is None);
        lemma_regions_skip(s, start, from + 1, to);
    }
}

/// A pattern that starts with a marker occurs only where a marker stands.
pub proof fn lemma_find_literal_skip(s: Seq<u8>, from: int, to: int, pat: Seq<u8>)
    requires
        0 <= from <= to <= s.len(),
        no_marker_in(s, from, to),
        pat.len() > 0,
        pat[0] == MARKER,
    ensures
        find_literal(s, from, pat) == find_literal(s, to, pat),
    decreases to - from,
{
    if from < to {
        assert(!has_at(s, from, pat)) by {
            if has_at(s, from, pat) {
                assert(s[from + 0] == pat[0]);
            }
        }
        lemma_find_literal_skip(s, from + 1, to, pat);
    }
}

/// Whether the regions, in order, cover `[lo, hi)` exactly: the first
/// starts at `lo`, each ends where the next starts, and the last ends at
/// `hi`.
pub open spec fn partitions(regions: Seq<RegionModel>, lo: int, hi: int) -> bool {
    &&& regions.len() > 0
    &&& regions.first().start == lo
    &&& regions.last().end == hi
    &&& forall|i: int| 0 <= i < regions.len() ==> (#[trigger] regions[i]).start <= regions[i].end
    &&& forall|i: int, j: int|
        0 <= i && j == i + 1 && j < regions.len() ==> (#[trigger] regions[i]).end == (
        #[trigger] regions[j]).start
}

/// One region in front of regions that cover what follows it covers both.
pub proof fn lemma_partitions_cons(head: RegionModel, rest: Seq<RegionModel>, hi: int)
    requires
        head.start <= head.end,
        partitions(rest, head.end, hi),
    ensures
        partitions(seq![head] + rest, head.start, hi),
{
    let all = seq![head] + rest;
    assert(all.first() == head);
    assert(all.last() == rest.last());
    assert forall|i: int| 0 <= i < all.len() implies (#[trigger] all[i]).start <= all[i].end by {
        if i > 0 {
            assert(all[i] == rest[i - 1]);
        }
    }
    assert forall|i: int, j: int| 0 <= i && j == i + 1 && j < all.len() implies (
    #[trigger] all[i]).end == (#[trigger] all[j]).start by {
        assert(all[j] == rest[i]);
        if i > 0 {
            assert(all[i] == rest[i - 1]);
        }
    }
}

/// The regions that remain in markup cover the buffer from `start` on.
pub proof fn lemma_regions_from_partition(s: Seq<u8>, start: int, at: int)
    requires
        0 <= start <= at <= s.len(),
    ensures
        partitions(regions_from(s, start, at), start, s.len() as int),
    decreases s.len() - at, 0nat,
{
    if at < s.len() {
        match opening_at(s, at) {
            None => {
                lemma_regions_from_partition(s, start, at + 1);
            },
            Some(kind) => match tag_at(s, at) {
                None => {},
                Some(tag) => {
                    lemma_tag_at_bounds(s, at);
                    lemma_after_tag_partition(s, start, kind, tag.attrs, tag.end);
                },
            },
        }
    }
}

/// The regions that remain after a tag cover the buffer from `start` on.
pub proof fn lemma_after_tag_partition(
    s: Seq<u8>,
    start: int,
    kind: TagKind,
    attrs: Option<(int, int)>,
    end: int,
)
    requires
        0 <= start <= end <= s.len(),
    ensures
        partitions(after_tag(s, start, kind, attrs, end), start, s.len() as int),
    decreases s.len() - end, 2nat,
{
    if self_closing(s, attrs) {
        lemma_regions_from_partition(s, start, end);
    } else {
        let language = language_of(s, kind, attrs);
        lemma_block_from_partition(s, kind, language, end, end);
        lemma_partitions_cons(
            markup(start, end),
            block_from(s, kind, language, end, end),
            s.len() as int,
        );
    }
}

/// The regions that remain inside a block cover the buffer from `start` on.
pub proof fn lemma_block_from_partition(
    s: Seq<u8>,
    kind: TagKind,
    language: Seq<u8>,
    start: int,
    at: int,
)
    requires
        0 <= start <= at <= s.len(),
    ensures
        partitions(block_from(s, kind, language, start, at), start, s.len() as int),
    decreases s.len() - at, 1nat,
{
    match find_literal(s, at, closing(kind)) {
        None => {},
        Some(c) => {
            lemma_find_literal_bounds(s, at, closing(kind));
            lemma_regions_from_partition(s, c, c + 1);
            lemma_partitions_cons(
                embedded(kind, language, start, c),
                regions_from(s, c, c + 1),
                s.len() as int,
            );
        },
    }
}

/// Whether every region is written in one of the syntaxes that a document
/// can hold.
pub open spec fn known_syntax(regions: Seq<RegionModel>) -> bool {
    forall|i: int| 0 <= i < regions.len() ==> (#[trigger] regions[i]).syntax != LanguageSyntax::Other
}

/// One region of a known syntax in front of others of known syntax.
pub proof fn lemma_known_syntax_cons(head: RegionModel, rest: Seq<RegionModel>)
    requires
        head.syntax != LanguageSyntax::Other,
        known_syntax(rest),
    ensures
        known_syntax(seq![head] + rest),
{
    let all = seq![head] + rest;
    assert forall|i: int| 0 <= i < all.len() implies (#[trigger] all[i]).syntax
        != LanguageSyntax::Other by {
        if i > 0 {
            assert(all[i] == rest[i - 1]);
        }
    }
}

/// The regions that remain in markup are markup, script or style.
pub proof fn lemma_regions_syntax(s: Seq<u8>, start: int, at: int)
    ensures
        known_syntax(regions_from(s, start, at)),
    decreases s.len() - at, 0nat,
{
    if 0 <= at < s.len() {
        match opening_at(s, at) {
            None => {
                lemma_regions_syntax(s, start, at + 1);
            },
            Some(kind) => match tag_at(s, at) {
                None => {},
                Some(tag) => {
                    lemma_tag_at_bounds(s, at);
                    let language = language_of(s, kind, tag.attrs);
                    assert(regions_from(s, start, at) == after_tag(
                        s,
                        start,
                        kind,
                        tag.attrs,
                        tag.end,
                    ));
                    if self_closing(s, tag.attrs) {
                        lemma_regions_syntax(s, start, tag.end);
                    } else {
                        lemma_block_syntax(s, kind, language, tag.end, tag.end);
                        lemma_known_syntax_cons(
                            markup(start, tag.end),
                            block_from(s, kind, language, tag.end, tag.end),
                        );
                    }
                },
            },
        }
    }
}

/// The regions that remain inside a block are markup, script or style.
pub proof fn lemma_block_syntax(s: Seq<u8>, kind: TagKind, language: Seq<u8>, start: int, at: int)
    ensures
        known_syntax(block_from(s, kind, language, start, at)),
    decreases s.len() - at, 1nat,
{
    match find_literal(s, at, closing(kind)) {
        None => {},
        Some(c) => {
            lemma_find_literal_bounds(s, at, closing(kind));
            lemma_regions_syntax(s, c, c + 1);
            lemma_known_syntax_cons(embedded(kind, language, start, c), regions_from(s, c, c + 1));
        },
    }
}

} // verus!
