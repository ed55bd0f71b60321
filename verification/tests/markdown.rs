use mdv::markdown::{parse, MdEvent, MdTag, MdTagEnd};

#[test]
fn parse_keeps_every_event_in_order() {
    let ev = parse("# a\n\nb *c*\n");
    assert_eq!(ev.len(), 9);
    assert!(matches!(ev[0], MdEvent::Start(MdTag::Heading(1))));
    assert!(matches!(&ev[1], MdEvent::Text(s) if s == "a"));
    assert!(matches!(ev[2], MdEvent::End(MdTagEnd::Heading(1))));
    assert!(matches!(ev[3], MdEvent::Start(MdTag::Paragraph)));
    assert!(matches!(&ev[4], MdEvent::Text(s) if s == "b "));
    assert!(matches!(ev[5], MdEvent::Start(MdTag::Emphasis)));
    assert!(matches!(ev[7], MdEvent::End(MdTagEnd::Emphasis)));
    assert!(matches!(ev[8], MdEvent::End(MdTagEnd::Paragraph)));
}

#[test]
fn parse_converts_tags_with_their_payloads() {
    let ev = parse("3. x\n\n| a |\n|--:|\n| 1 |\n\n[l](u \"t\")\n");
    assert!(matches!(ev[0], MdEvent::Start(MdTag::List(Some(3)))));
    assert!(ev.iter().any(|e| matches!(e, MdEvent::Start(MdTag::Table(a)) if a.len() == 1)));
    assert!(ev.iter().any(|e| matches!(e, MdEvent::Start(MdTag::Link(_, u)) if u == "u")));
}
