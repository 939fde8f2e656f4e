use parser::html_fast::{parse_html, ContextKind, ContextMeta, ScopeContext};
use parser::regions::html::{scan_html, scan_html_fast};
use parser::regions::lang::{LanguageRegion, LanguageSyntax};
use parser::regions::span::Span;

fn sample() -> Vec<u8> {
    let mut doc: Vec<u8> = Vec::new();
    doc.extend_from_slice(b"<html><head><style>body { margin: 0 }</style>");
    doc.extend_from_slice(b"<script lang=\"ts\">let a = 1;</script></head><body>");
    for _ in 0..115 {
        doc.extend_from_slice(b"<p>text</p>");
    }
    doc.extend_from_slice(b"<br></body></html>");
    doc
}

fn html(start: usize, end: usize) -> LanguageRegion<'static> {
    LanguageRegion { syntax: LanguageSyntax::Html, language: b"html", span: Span { start, end } }
}

fn js<'a>(language: &'a [u8], start: usize, end: usize) -> LanguageRegion<'a> {
    LanguageRegion { syntax: LanguageSyntax::Js, language, span: Span { start, end } }
}

fn css<'a>(language: &'a [u8], start: usize, end: usize) -> LanguageRegion<'a> {
    LanguageRegion { syntax: LanguageSyntax::Css, language, span: Span { start, end } }
}

fn baseline(input: &[u8]) -> Vec<LanguageRegion<'_>> {
    let mut regions = Vec::new();
    scan_html(input, &mut regions);
    regions
}

fn fast(input: &[u8]) -> Vec<LanguageRegion<'_>> {
    let mut regions = Vec::new();
    scan_html_fast(input, &mut regions);
    regions
}

/// Scans with every strategy, holds the results against each other and
/// against the rule that the regions cover the input, and hands one back.
fn scan(input: &[u8]) -> Vec<LanguageRegion<'_>> {
    let regions = baseline(input);
    assert_eq!(fast(input), regions);
    let scopes = parse_html(input);
    assert_eq!(scopes.len(), regions.len());
    for (scope, region) in scopes.iter().zip(regions.iter()) {
        assert_eq!(scope.span, [region.span.start, region.span.end]);
        assert_eq!(scope.meta.lang, region.language);
        match region.syntax {
            LanguageSyntax::Html => {
                assert_eq!(scope.kind, ContextKind::Html);
                assert_eq!(scope.meta.kind, b"html");
            }
            LanguageSyntax::Css => {
                assert_eq!(scope.kind, ContextKind::Css);
                assert_eq!(scope.meta.kind, b"css");
            }
            LanguageSyntax::Js => {
                assert_eq!(scope.kind, ContextKind::Js);
                assert_eq!(scope.meta.kind, b"js");
            }
            LanguageSyntax::Other => panic!("a region of no syntax"),
        }
    }
    assert!(!regions.is_empty());
    assert_eq!(regions[0].span.start, 0);
    assert_eq!(regions[regions.len() - 1].span.end, input.len());
    for region in &regions {
        assert!(region.span.start <= region.span.end);
    }
    for pair in regions.windows(2) {
        assert_eq!(pair[0].span.end, pair[1].span.start);
    }
    regions
}

#[test]
fn html_test_scan_html() {
    let input = sample();
    let mut regions = Vec::new();
    scan_html(&input, &mut regions);
    assert_eq!(regions.len(), 5);
}

#[test]
fn html_test_throughput() {
    let input = b"<div><script lang=\"jsx\">Hello</script></div>";
    let expected = vec![html(0, 24), js(b"jsx", 24, 29), html(29, 44)];

    for _ in 0..100_000 {
        let mut regions = Vec::new();
        scan_html(input, &mut regions);
        assert_eq!(regions, expected);
    }
}

#[test]
fn test_throughput_fast() {
    let input = b"<div><script lang=\"jsx\">Hello</script></div>";
    let expected = vec![html(0, 24), js(b"jsx", 24, 29), html(29, 44)];

    for _ in 0..100_000 {
        let mut regions = Vec::new();
        scan_html_fast(input, &mut regions);
        assert_eq!(regions, expected);
    }
}

#[test]
fn html_fast_test_scan_html() {
    let input = r#"<div class="foo" id='bar' style=`color: red;`></div>"#;
    let mut regions = Vec::new();
    scan_html(input.as_bytes(), &mut regions);

    assert_eq!(regions.len(), 1);
}

#[test]
fn html_fast_test_throughput() {
    let input = b"<div><style>a { b: c }</style></div>";

    for _ in 0..100_000 {
        let scopes = parse_html(input);
        assert_eq!(scopes.len(), 3);
    }
}

#[test]
fn sample_document_has_five_regions() {
    let input = sample();
    let regions = scan(&input);
    assert_eq!(regions.len(), 5);
    assert_eq!(regions[0], html(0, 19));
    assert_eq!(regions[1], css(b"css", 19, 37));
    assert_eq!(regions[2], html(37, 63));
    assert_eq!(regions[3], js(b"ts", 63, 73));
    assert_eq!(regions[4], html(73, input.len()));
}

#[test]
fn no_markers_one_markup_region() {
    let input = b"I have none";
    assert_eq!(scan(input), vec![html(0, 11)]);
}

#[test]
fn empty_input_one_empty_region() {
    assert_eq!(scan(b""), vec![html(0, 0)]);
}

#[test]
fn plain_tags_one_markup_region() {
    let input = b"<div><span>Hello</span></div>";
    assert_eq!(scan(input), vec![html(0, 29)]);
}

#[test]
fn script_with_language() {
    let input = b"<div><script lang=\"jsx\">Hello</script></div>";
    let regions = scan(input);
    assert_eq!(regions, vec![html(0, 24), js(b"jsx", 24, 29), html(29, 44)]);
    assert_eq!(&input[24..29], b"Hello");
    assert_eq!(&input[29..], b"</script></div>");
}

#[test]
fn self_closing_script_opens_nothing() {
    let input = b"<script src=\"x.js\" />";
    assert_eq!(scan(input), vec![html(0, 21)]);
    let input = b"<p><script src=\"x.js\" /><script>a</script>";
    assert_eq!(scan(input), vec![html(0, 32), js(b"js", 32, 33), html(33, 42)]);
    assert_eq!(scan(b"<style />b</style>"), vec![html(0, 18)]);
}

#[test]
fn slash_only_counts_directly_before_the_end() {
    assert_eq!(scan(b"<script / >a"), vec![html(0, 11), js(b"js", 11, 12)]);
    assert_eq!(scan(b"<script a='/'>b"), vec![html(0, 14), js(b"js", 14, 15)]);
    assert_eq!(scan(b"<script/>a</script>"), vec![html(0, 19)]);
}

#[test]
fn unterminated_block_runs_to_the_end() {
    let input = b"<script>let a = 1;";
    assert_eq!(scan(input), vec![html(0, 8), js(b"js", 8, 18)]);
    assert_eq!(scan(b"<script>"), vec![html(0, 8), js(b"js", 8, 8)]);
    assert_eq!(scan(b"<style>a</styl"), vec![html(0, 7), css(b"css", 7, 14)]);
    assert_eq!(scan(b"<style>a</script>"), vec![html(0, 7), css(b"css", 7, 17)]);
}

#[test]
fn unterminated_tag_stays_markup() {
    assert_eq!(scan(b"<script"), vec![html(0, 7)]);
    assert_eq!(scan(b"<script "), vec![html(0, 8)]);
    assert_eq!(scan(b"<script lang=\"jsx\""), vec![html(0, 18)]);
    assert_eq!(scan(b"<script lang=\"jsx>a</script>"), vec![html(0, 28)]);
    assert_eq!(scan(b"<script a='<script>b</script>"), vec![html(0, 29)]);
    assert_eq!(scan(b"<"), vec![html(0, 1)]);
}

#[test]
fn style_block() {
    let input = b"<style>a { b: c }</style>";
    assert_eq!(scan(input), vec![html(0, 7), css(b"css", 7, 17), html(17, 25)]);
    let input = b"<style lang='scss'>a { b: c }</style>";
    assert_eq!(scan(input), vec![html(0, 19), css(b"scss", 19, 29), html(29, 37)]);
}

#[test]
fn empty_block() {
    assert_eq!(scan(b"<script></script>"), vec![html(0, 8), js(b"js", 8, 8), html(8, 17)]);
}

#[test]
fn language_from_each_kind_of_value() {
    assert_eq!(scan(b"<script lang='ts'>a")[1], js(b"ts", 18, 19));
    assert_eq!(scan(b"<script lang=\"ts\">a")[1], js(b"ts", 18, 19));
    assert_eq!(scan(b"<script lang={ts}>a")[1], js(b"ts", 18, 19));
    assert_eq!(scan(b"<script lang=''>a")[1], js(b"", 16, 17));
    assert_eq!(scan(b"<script setup lang=\"tsx\" defer>a")[1], js(b"tsx", 31, 32));
}

#[test]
fn language_falls_back_to_the_default() {
    assert_eq!(scan(b"<script lang=ts>a")[1], js(b"js", 16, 17));
    assert_eq!(scan(b"<script type=\"module\">a")[1], js(b"js", 22, 23));
    assert_eq!(scan(b"<script LANG=\"ts\">a")[1], js(b"js", 18, 19));
    assert_eq!(scan(b"<style lang= 'scss'>a")[1], css(b"css", 20, 21));
    assert_eq!(scan(b"<script title=\"lang='ts'\">a")[1], js(b"js", 26, 27));
    assert_eq!(scan(b"<script title=\"lang='ts'\" lang='tsx'>a")[1], js(b"tsx", 37, 38));
}

#[test]
fn tag_end_inside_a_value_does_not_end_the_tag() {
    let input = b"<script lang=\"a>b\">c</script>";
    assert_eq!(scan(input), vec![html(0, 19), js(b"a>b", 19, 20), html(20, 29)]);
    let input = b"<script data-x='>' lang={t>s}>c";
    assert_eq!(scan(input), vec![html(0, 30), js(b"t>s", 30, 31)]);
}

#[test]
fn unrecognized_tags_open_nothing() {
    assert_eq!(scan(b"<scripts>a</scripts>"), vec![html(0, 20)]);
    assert_eq!(scan(b"<Script>a</Script>"), vec![html(0, 18)]);
    assert_eq!(scan(b"< script>a"), vec![html(0, 10)]);
    assert_eq!(scan(b"<template>a</template>"), vec![html(0, 22)]);
    assert_eq!(scan(b"</script>a"), vec![html(0, 10)]);
    assert_eq!(scan(b"<styl"), vec![html(0, 5)]);
}

#[test]
fn marker_before_a_recognized_tag() {
    assert_eq!(scan(b"<<script>a"), vec![html(0, 9), js(b"js", 9, 10)]);
    assert_eq!(scan(b"<a <style\n>b"), vec![html(0, 11), css(b"css", 11, 12)]);
    assert_eq!(scan(b"<p title=\"<script>\">a"), vec![html(0, 18), js(b"js", 18, 21)]);
}

#[test]
fn markers_inside_a_block() {
    let input = b"<script>if (a < b && c <d) {}</script><b>";
    assert_eq!(scan(input), vec![html(0, 8), js(b"js", 8, 29), html(29, 41)]);
    let input = b"<script>'</style>' <script> </scrip </script >x</script>";
    assert_eq!(scan(input), vec![html(0, 8), js(b"js", 8, 47), html(47, 56)]);
}

#[test]
fn markers_inside_a_tag_are_passed_over() {
    let input = b"<script a=\"<style>\" b='</script>'>x</script><style>y";
    assert_eq!(
        scan(input),
        vec![html(0, 34), js(b"js", 34, 35), html(35, 51), css(b"css", 51, 52)]
    );
}

#[test]
fn block_after_block() {
    let input = b"<style>a</style><script>b</script>";
    assert_eq!(
        scan(input),
        vec![html(0, 7), css(b"css", 7, 8), html(8, 24), js(b"js", 24, 25), html(25, 34)]
    );
}

#[test]
fn regions_are_appended_to_the_list() {
    let input = b"<script>a";
    let mut regions = vec![html(0, 3)];
    scan_html(input, &mut regions);
    assert_eq!(regions, vec![html(0, 3), html(0, 8), js(b"js", 8, 9)]);
    scan_html_fast(input, &mut regions);
    assert_eq!(
        regions,
        vec![html(0, 3), html(0, 8), js(b"js", 8, 9), html(0, 8), js(b"js", 8, 9)]
    );
}

#[test]
fn scanning_twice_gives_the_same_regions() {
    let input = sample();
    assert_eq!(baseline(&input), baseline(&input));
    assert_eq!(fast(&input), fast(&input));
    assert_eq!(parse_html(&input), parse_html(&input));
}

#[test]
fn strategies_agree_at_adversarial_lengths() {
    let tag = b"<script>";
    for len in [0usize, 1, 63, 64, 65, 127, 128, 129] {
        let plain = vec![b'a'; len];
        assert_eq!(scan(&plain), vec![html(0, len)]);
        if len >= 1 {
            let mut input = vec![b'a'; len];
            input[len - 1] = b'<';
            assert_eq!(scan(&input), vec![html(0, len)]);
        }
        if len >= tag.len() {
            let at = len - tag.len();
            let mut input = vec![b'a'; len];
            input[at..].copy_from_slice(tag);
            assert_eq!(scan(&input), vec![html(0, len), js(b"js", len, len)]);
        }
    }
}

#[test]
fn tag_across_a_chunk_boundary() {
    for at in [56usize, 57, 60, 62, 63, 64, 65] {
        let mut input = vec![b' '; at];
        input.extend_from_slice(b"<script lang='ts'>x</script>y");
        let open = at + 18;
        assert_eq!(
            scan(&input),
            vec![html(0, open), js(b"ts", open, open + 1), html(open + 1, at + 29)]
        );
    }
}

#[test]
fn closing_tag_at_a_chunk_boundary() {
    for at in [63usize, 64, 65, 128] {
        let mut input = b"<style>".to_vec();
        input.resize(at, b'a');
        input.extend_from_slice(b"</style>");
        assert_eq!(scan(&input), vec![html(0, 7), css(b"css", 7, at), html(at, at + 8)]);
    }
}

#[test]
fn scope_of_a_region() {
    let scope = ScopeContext::new(7);
    assert_eq!(
        scope,
        ScopeContext {
            kind: ContextKind::Html,
            span: [7, 7],
            meta: ContextMeta { kind: b"html", lang: b"html" },
        }
    );
    let region = css(b"scss", 3, 9);
    assert_eq!(
        ScopeContext::of_region(&region),
        ScopeContext {
            kind: ContextKind::Css,
            span: [3, 9],
            meta: ContextMeta { kind: b"css", lang: b"scss" },
        }
    );
    let region = js(b"tsx", 1, 2);
    assert_eq!(
        ScopeContext::of_region(&region),
        ScopeContext {
            kind: ContextKind::Js,
            span: [1, 2],
            meta: ContextMeta { kind: b"js", lang: b"tsx" },
        }
    );
}

#[test]
fn scopes_of_a_document() {
    let input = b"<div><script lang=\"jsx\">Hello</script></div>";
    assert_eq!(
        parse_html(input),
        vec![
            ScopeContext {
                kind: ContextKind::Html,
                span: [0, 24],
                meta: ContextMeta { kind: b"html", lang: b"html" },
            },
            ScopeContext {
                kind: ContextKind::Js,
                span: [24, 29],
                meta: ContextMeta { kind: b"js", lang: b"jsx" },
            },
            ScopeContext {
                kind: ContextKind::Html,
                span: [29, 44],
                meta: ContextMeta { kind: b"html", lang: b"html" },
            },
        ]
    );
}

#[test]
fn region_constructors() {
    let span = Span::new(2, 5);
    assert_eq!(span, Span { start: 2, end: 5 });
    assert_eq!(span.slice(b"abcdefg"), b"cde");
    assert_eq!(LanguageRegion::html(span), html(2, 5));
    assert_eq!(LanguageRegion::css(span), css(b"css", 2, 5));
    assert_eq!(LanguageRegion::js(span), js(b"js", 2, 5));
    assert_eq!(
        LanguageRegion::new(LanguageSyntax::Other, b"md", span),
        LanguageRegion { syntax: LanguageSyntax::Other, language: b"md", span }
    );
}

#[test]
fn strategies_agree_on_generated_documents() {
    let pieces: [&[u8]; 24] = [
        b"<script", b"<style", b"</script>", b"</style>", b">", b"<", b"/", b"/>", b" ",
        b"\n", b"'", b"\"", b"{", b"}", b"lang=", b"type=", b"ts", b"=", b"a", b"<p>",
        b"</p>", b" lang='scss'", b" lang=\"tsx\"", b"<script>",
    ];
    let mut seed: u64 = 0x2545_f491_4f6c_dd1d;
    for round in 0..3000 {
        let mut doc: Vec<u8> = Vec::new();
        let count = round % 40;
        for _ in 0..count {
            seed = seed.wrapping_mul(6364136223846793005).wrapping_add(1442695040888963407);
            let pick = (seed >> 33) as usize % pieces.len();
            doc.extend_from_slice(pieces[pick]);
        }
        scan(&doc);
    }
}
