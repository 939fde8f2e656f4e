use parser::regions::find::{extract_tag, find_name_end, find_tag_end, FindTags, Tag, TagBounds};
use parser::regions::poi::PointsOfInterest;
use parser::regions::span::Span;

fn page() -> Vec<u8> {
    let mut doc: Vec<u8> = Vec::new();
    doc.extend_from_slice(b"<html><head><style>body { margin: 0 }</style>");
    doc.extend_from_slice(b"<script lang=\"ts\">let a = 1;</script></head><body>");
    for _ in 0..115 {
        doc.extend_from_slice(b"<p>text</p>");
    }
    doc.extend_from_slice(b"<br></body></html>");
    doc
}

#[test]
fn find_test_find_tags() {
    let input = b"I have none";

    let points = PointsOfInterest::new(input).count();
    assert_eq!(points, 0);

    let mut tags = FindTags::new(input);
    assert_eq!(tags.next(), None);

    let input = b"Hello<World";

    let points = PointsOfInterest::new(input).count();
    assert_eq!(points, 1);

    let mut tags = FindTags::new(input);
    assert_eq!(tags.next(), None);

    let input = b"<div><span>Hello</span></div>";

    let points = PointsOfInterest::new(input).count();
    assert_eq!(points, 4);

    let mut tags = FindTags::new(input);
    assert_eq!(tags.next(), Some(Tag { name: &input[1..4], attrs: None }));
    assert_eq!(tags.next(), Some(Tag { name: &input[6..10], attrs: None }));
    assert_eq!(tags.next(), Some(Tag { name: &input[17..22], attrs: None }));
    assert_eq!(tags.next(), Some(Tag { name: &input[24..28], attrs: None }));
    assert_eq!(tags.next(), None);

    let input = b"<div><script lang=\"jsx\">Hello</script></div>";
    let mut tags = FindTags::new(input);
    assert_eq!(tags.next(), Some(Tag { name: &input[1..4], attrs: None }));
    assert_eq!(tags.next(), Some(Tag { name: &input[6..12], attrs: Some(&input[13..23]) }));
    assert_eq!(tags.next(), Some(Tag { name: &input[30..37], attrs: None }));
    assert_eq!(tags.next(), Some(Tag { name: &input[39..43], attrs: None }));
    assert_eq!(tags.next(), None);

    let input = page();

    let points = PointsOfInterest::new(&input).count();
    assert_eq!(points, 241);

    let tags = FindTags::new(&input).count();
    assert_eq!(tags, 241);
}

#[test]
fn find_bench_find_tags() {
    let input = b"<div><script lang=\"jsx\">Hello</script></div>";

    for _ in 0..100_000 {
        let mut tags = FindTags::new(input);
        let mut seen = 0;
        while let Some(tag) = tags.next() {
            assert!(!tag.name.is_empty());
            seen += 1;
        }
        assert_eq!(seen, 4);
    }
}

#[test]
fn tags_test_find_tags() {
    let input = b"I have none";
    let mut tags = FindTags::new(input);
    assert_eq!(tags.next(), None);

    let input = b"Hello<World";
    let mut tags = FindTags::new(input);
    assert_eq!(tags.next(), None);

    let input = b"<div><span>Hello</span></div>";
    let mut tags = FindTags::new(input);
    assert_eq!(tags.next(), Some(Tag { name: &input[1..4], attrs: None }));
    assert_eq!(tags.next(), Some(Tag { name: &input[6..10], attrs: None }));
    assert_eq!(tags.next(), Some(Tag { name: &input[17..22], attrs: None }));
    assert_eq!(tags.next(), Some(Tag { name: &input[24..28], attrs: None }));
    assert_eq!(tags.next(), None);

    let input = b"<div><script lang=\"jsx\">Hello</script></div>";
    let mut tags = FindTags::new(input);
    assert_eq!(tags.next(), Some(Tag { name: &input[1..4], attrs: None }));
    assert_eq!(tags.next(), Some(Tag { name: &input[6..12], attrs: Some(&input[13..23]) }));
    assert_eq!(tags.next(), Some(Tag { name: &input[30..37], attrs: None }));
    assert_eq!(tags.next(), Some(Tag { name: &input[39..43], attrs: None }));
    assert_eq!(tags.next(), None);

    let input = page();
    let tags = FindTags::new(&input).count();
    assert_eq!(tags, 241);
}

#[test]
fn tags_bench_find_tags() {
    let input = b"<div><span>Hello</span></div>";

    for _ in 0..100_000 {
        let count = FindTags::new(input).count();
        assert_eq!(count, 4);
    }
}

#[test]
fn tags_lie_at_their_literal_offsets() {
    let input = b"<div><span>Hello</span></div>";
    let mut tags = FindTags::new(input);
    assert_eq!(
        tags.next_bounds(),
        Some(TagBounds { name: Span { start: 1, end: 4 }, attrs: None, end: 5 })
    );
    assert_eq!(
        tags.next_bounds(),
        Some(TagBounds { name: Span { start: 6, end: 10 }, attrs: None, end: 11 })
    );
    assert_eq!(
        tags.next_bounds(),
        Some(TagBounds { name: Span { start: 17, end: 22 }, attrs: None, end: 23 })
    );
    assert_eq!(
        tags.next_bounds(),
        Some(TagBounds { name: Span { start: 24, end: 28 }, attrs: None, end: 29 })
    );
    assert_eq!(tags.next_bounds(), None);
    assert_eq!(&input[1..4], b"div");
    assert_eq!(&input[6..10], b"span");
    assert_eq!(&input[17..22], b"/span");
    assert_eq!(&input[24..28], b"/div");
}

#[test]
fn extract_tag_splits_name_and_attributes() {
    let input = b"<script lang=\"jsx\">";
    assert_eq!(
        extract_tag(input, 0),
        Some(TagBounds {
            name: Span { start: 1, end: 7 },
            attrs: Some(Span { start: 8, end: 18 }),
            end: 19,
        })
    );
    assert_eq!(extract_tag(b"<a >", 0), Some(TagBounds {
        name: Span { start: 1, end: 2 },
        attrs: Some(Span { start: 3, end: 3 }),
        end: 4,
    }));
    assert_eq!(extract_tag(b"<a\t\n>", 0), Some(TagBounds {
        name: Span { start: 1, end: 2 },
        attrs: Some(Span { start: 3, end: 4 }),
        end: 5,
    }));
    assert_eq!(extract_tag(b"<a", 0), None);
    assert_eq!(extract_tag(b"<a b", 0), None);
    assert_eq!(extract_tag(b"<", 0), None);
    assert_eq!(extract_tag(b"<a>", 7), None);
}

#[test]
fn tag_end_inside_a_value_is_content() {
    let input = b"<a title=\"x > y\" id='>' on={a>b}>rest>";
    assert_eq!(
        extract_tag(input, 0),
        Some(TagBounds {
            name: Span { start: 1, end: 2 },
            attrs: Some(Span { start: 3, end: 32 }),
            end: 33,
        })
    );
    assert_eq!(find_tag_end(input, 3), Some(32));
    assert_eq!(find_tag_end(b"a='>' >", 0), Some(6));
    assert_eq!(find_tag_end(b"a=\"'>\" '\">' >", 0), Some(12));
    assert_eq!(find_tag_end(b"{}>}", 0), Some(2));
    assert_eq!(find_tag_end(b"a='>", 0), None);
    assert_eq!(find_tag_end(b"", 0), None);
    assert_eq!(find_tag_end(b">", 1), None);
    assert_eq!(find_tag_end(b">", 5), None);
}

#[test]
fn name_ends_at_whitespace_or_tag_end() {
    assert_eq!(find_name_end(b"div>", 0), Some(3));
    assert_eq!(find_name_end(b"div id>", 0), Some(3));
    assert_eq!(find_name_end(b"div\tid>", 0), Some(3));
    assert_eq!(find_name_end(b"div\nid>", 0), Some(3));
    assert_eq!(find_name_end(b"div\x0cid>", 0), Some(3));
    assert_eq!(find_name_end(b"div\rid>", 0), Some(3));
    assert_eq!(find_name_end(b"a\"'{>", 0), Some(4));
    assert_eq!(find_name_end(b"div", 0), None);
    assert_eq!(find_name_end(b"div>", 4), None);
    assert_eq!(find_name_end(b"div>", 9), None);
}

#[test]
fn marker_without_a_name_is_no_tag() {
    let input = b"a < b <> <i>c</i>";
    let mut tags = FindTags::new(input);
    assert_eq!(tags.next(), Some(Tag { name: b"i", attrs: None }));
    assert_eq!(tags.next(), Some(Tag { name: b"/i", attrs: None }));
    assert_eq!(tags.next(), None);
    assert_eq!(FindTags::new(input).count(), 2);
    assert_eq!(PointsOfInterest::new(input).count(), 4);
}

#[test]
fn extraction_ends_with_the_first_unterminated_tag() {
    let input = b"<a><b title='> <c>";
    let mut tags = FindTags::new(input);
    assert_eq!(tags.next(), Some(Tag { name: b"a", attrs: None }));
    assert_eq!(tags.next(), None);
    assert_eq!(tags.next(), None);
    assert_eq!(tags.next_bounds(), None);
    assert_eq!(FindTags::new(input).count(), 1);
}

#[test]
fn every_marker_is_a_candidate() {
    let input = b"<a title=\"<b>\">";
    let mut tags = FindTags::new(input);
    assert_eq!(tags.next(), Some(Tag { name: b"a", attrs: Some(b"title=\"<b>\"") }));
    assert_eq!(tags.next(), Some(Tag { name: b"b", attrs: None }));
    assert_eq!(tags.next(), None);
}
