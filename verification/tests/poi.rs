use parser::html_fast::HtmlMarkers;
use parser::regions::poi::PointsOfInterest;

fn document() -> Vec<u8> {
    let mut doc: Vec<u8> = Vec::new();
    doc.extend_from_slice(b"<html><head><style>body { margin: 0 }</style>");
    doc.extend_from_slice(b"<script lang=\"ts\">let a = 1;</script></head><body>");
    for _ in 0..115 {
        doc.extend_from_slice(b"<p>text</p>");
    }
    doc.extend_from_slice(b"<br></body></html>");
    doc
}

fn collect_chunked(input: &[u8]) -> Vec<usize> {
    let mut points = PointsOfInterest::new(input);
    let mut found = Vec::new();
    while let Some(p) = points.next() {
        found.push(p);
    }
    found
}

fn collect_scalar(input: &[u8]) -> Vec<usize> {
    let mut markers = HtmlMarkers::new(input);
    let mut found = Vec::new();
    while let Some(p) = markers.next() {
        found.push(p);
    }
    found
}

fn filled(len: usize, markers: &[usize]) -> Vec<u8> {
    let mut input = vec![b'a'; len];
    for &m in markers {
        input[m] = b'<';
    }
    input
}

#[test]
fn test_points_of_interest() {
    let input = b"I have none";

    let points = PointsOfInterest::new(input).count();
    assert_eq!(points, 0);

    let input = b"Hello<World";

    let points = PointsOfInterest::new(input).count();
    assert_eq!(points, 1);

    let input = b"<div><span>Hello</span></div>";

    let points = PointsOfInterest::new(input).count();
    assert_eq!(points, 4);

    let input = b"<div><script lang=\"jsx\">Hello</script></div>";

    let points = PointsOfInterest::new(input).count();
    assert_eq!(points, 4);

    let input = document();

    let points = PointsOfInterest::new(&input).count();
    assert_eq!(points, 241);
}

#[test]
fn bench_points_of_interest() {
    let input = b"<div><script lang=\"jsx\">Hello</script></div>";
    let expected = collect_chunked(input);

    for _ in 0..450_000 {
        let mut points = PointsOfInterest::new(input);
        let mut seen = 0;
        while let Some(pos) = points.next() {
            assert_eq!(pos, expected[seen]);
            seen += 1;
        }
        assert_eq!(seen, expected.len());
    }
}

#[test]
fn points_are_marker_offsets() {
    assert_eq!(collect_chunked(b"Hello<World"), vec![5]);
    assert_eq!(collect_chunked(b"<div><span>Hello</span></div>"), vec![0, 5, 16, 23]);
    assert_eq!(collect_chunked(b"<<<"), vec![0, 1, 2]);
    assert_eq!(collect_chunked(b""), Vec::<usize>::new());
    assert_eq!(collect_chunked(b"<"), vec![0]);
    assert_eq!(collect_chunked(b">"), Vec::<usize>::new());
}

#[test]
fn next_stays_empty_once_exhausted() {
    let mut points = PointsOfInterest::new(b"a<b");
    assert_eq!(points.next(), Some(1));
    assert_eq!(points.next(), None);
    assert_eq!(points.next(), None);
}

#[test]
fn marker_at_chunk_boundary_is_found() {
    for at in [63usize, 64, 65] {
        for len in [at + 1, at + 2, 128, 129, 200] {
            let input = filled(len, &[at]);
            assert_eq!(collect_chunked(&input), vec![at]);
            assert_eq!(PointsOfInterest::new(&input).count(), 1);
        }
    }
    let input = filled(130, &[0, 63, 64, 65, 127, 128, 129]);
    assert_eq!(collect_chunked(&input), vec![0, 63, 64, 65, 127, 128, 129]);
}

#[test]
fn padding_of_last_chunk_holds_no_marker() {
    for len in [0usize, 1, 2, 62, 63, 64, 65, 66, 127, 128, 129] {
        let input = filled(len, &[]);
        assert_eq!(collect_chunked(&input), Vec::<usize>::new());
        assert_eq!(PointsOfInterest::new(&input).count(), 0);
    }
}

#[test]
fn every_byte_a_marker() {
    for len in [1usize, 63, 64, 65, 128, 200] {
        let input = vec![b'<'; len];
        let expected: Vec<usize> = (0..len).collect();
        assert_eq!(collect_chunked(&input), expected);
        assert_eq!(collect_scalar(&input), expected);
    }
}

#[test]
fn scalar_and_chunked_search_agree() {
    let mut inputs: Vec<Vec<u8>> = vec![
        b"".to_vec(),
        b"<".to_vec(),
        b"a".to_vec(),
        b"I have none".to_vec(),
        b"<div><span>Hello</span></div>".to_vec(),
        document(),
    ];
    for len in [63usize, 64, 65] {
        inputs.push(filled(len, &[]));
        inputs.push(filled(len, &[len - 1]));
        inputs.push(filled(len, &[0, len - 1]));
    }
    inputs.push(filled(200, &[63, 64, 65, 127, 128, 199]));
    for input in &inputs {
        assert_eq!(collect_scalar(input), collect_chunked(input));
    }
}

#[test]
fn scalar_markers_step_by_step() {
    let input = b"ab<cd<";
    let mut markers = HtmlMarkers::new(input);
    assert!(markers.has_more());
    markers.advance();
    assert_eq!(markers.get(), b"<cd<");
    assert!(markers.has_more());
    markers.advance();
    assert_eq!(markers.get(), b"<cd<");
    assert_eq!(markers.next(), Some(2));
    assert_eq!(markers.get(), b"cd<");
    markers.advance();
    assert_eq!(markers.get(), b"<");
    assert!(!markers.has_more());
    assert_eq!(markers.next(), Some(5));
    assert!(!markers.has_more());
    assert_eq!(markers.get(), b"");
    assert_eq!(markers.next(), None);
    assert_eq!(markers.get(), b"");
}

#[test]
fn scalar_search_stays_where_no_marker_is_left() {
    let mut none = HtmlMarkers::new(b"abc");
    none.advance();
    assert_eq!(none.get(), b"abc");
    assert!(none.has_more());
    none.advance();
    assert_eq!(none.get(), b"abc");
    assert_eq!(none.next(), None);
    assert_eq!(none.get(), b"");
    assert!(!none.has_more());

    let mut one = HtmlMarkers::new(b"a");
    one.advance();
    assert_eq!(one.get(), b"a");

    let mut after = HtmlMarkers::new(b"<ab");
    assert_eq!(after.next(), Some(0));
    after.advance();
    assert_eq!(after.get(), b"ab");
}

#[test]
fn scalar_search_has_more_than_one_byte_left() {
    assert!(!HtmlMarkers::new(b"").has_more());
    assert!(!HtmlMarkers::new(b"a").has_more());
    assert!(!HtmlMarkers::new(b"<").has_more());
    assert!(HtmlMarkers::new(b"ab").has_more());
    assert!(HtmlMarkers::new(b"<a").has_more());

    let mut markers = HtmlMarkers::new(b"ab<");
    assert!(markers.has_more());
    markers.advance();
    assert_eq!(markers.get(), b"<");
    assert!(!markers.has_more());
}

#[test]
fn searches_agree_on_generated_buffers() {
    let mut seed: u64 = 0x9e37_79b9_7f4a_7c15;
    for len in 0..260usize {
        let mut input = vec![b'a'; len];
        for byte in input.iter_mut() {
            seed = seed.wrapping_mul(6364136223846793005).wrapping_add(1442695040888963407);
            if (seed >> 33) % 5 == 0 {
                *byte = b'<';
            }
        }
        let expected: Vec<usize> =
            input.iter().enumerate().filter(|(_, b)| **b == b'<').map(|(i, _)| i).collect();
        assert_eq!(collect_chunked(&input), expected);
        assert_eq!(collect_scalar(&input), expected);
        assert_eq!(PointsOfInterest::new(&input).count(), expected.len());
    }
}
