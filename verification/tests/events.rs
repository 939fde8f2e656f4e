use parser::regions::events::{Event, HtmlStream};
use parser::regions::span::Span;
use parser::regions::tags;

#[test]
fn stream_emits_no_event() {
    let inputs: [&[u8]; 4] = [
        b"",
        b"I have none",
        b"<div><script lang=\"jsx\">Hello</script></div>",
        b"<!-- comment -->",
    ];
    for input in inputs {
        let mut stream = HtmlStream::new(input);
        assert_eq!(stream.next(), None);
        assert_eq!(stream.next(), None);
    }
}

#[test]
fn events_carry_their_spans() {
    let span = Span::new(8, 12);
    assert_eq!(Event::AttrName(span), Event::AttrName(Span { start: 8, end: 12 }));
    assert_ne!(Event::AttrName(span), Event::AttrValue(span));
    assert_ne!(Event::ElementStart(span), Event::ElementEnd(span));
    assert_ne!(Event::CommentStart(span), Event::CommentEnd(span));
    assert_eq!(format!("{:?}", Event::ElementEnd(Span::new(18, 19))), "ElementEnd(Span { start: 18, end: 19 })");
}

#[test]
fn events_carry_their_bytes() {
    let input = b"<script lang=\"jsx\">";
    assert_eq!(tags::Event::TagStart(&input[1..7]), tags::Event::TagStart(b"script"));
    assert_eq!(tags::Event::AttrName(&input[8..12]), tags::Event::AttrName(b"lang"));
    assert_eq!(tags::Event::AttrValue(&input[14..17]), tags::Event::AttrValue(b"jsx"));
    assert_ne!(tags::Event::TagStart(b"script"), tags::Event::TagEnd(b"script"));
}
