use station::communication::{ChatFormat, ChatMessage};

fn bold() -> ChatFormat {
    ChatFormat { bold: true, ..ChatFormat::default() }
}

fn ranges(sections: &[station::communication::ChatSection]) -> Vec<(usize, usize, ChatFormat)> {
    sections.iter().map(|s| (s.range.start, s.range.end, s.format)).collect()
}

#[test]
fn speech_message_layout() {
    let m = ChatMessage::speech("Bob", "hi");
    assert_eq!(m.text, "Bob says, \"hi\"");
    assert_eq!(
        ranges(&m.sections),
        vec![(0, 3, bold()), (3, 14, ChatFormat::default())]
    );
    assert_eq!(m.spoken_range, Some(11..13));
}

#[test]
fn spoken_part_of_speech() {
    let m = ChatMessage::speech("Zoë", "grüß dich");
    let (spoken, sections) = m.spoken_part(0).unwrap();
    assert_eq!(spoken, "grüß dich");
    assert_eq!(ranges(&sections), vec![(0, "grüß dich".len(), ChatFormat::default())]);

    let (_, shifted) = m.spoken_part(100).unwrap();
    assert_eq!(ranges(&shifted), vec![(100, 100 + "grüß dich".len(), ChatFormat::default())]);
}

#[test]
fn spoken_part_spans_sections() {
    let mut m = ChatMessage::new();
    m.section("a", ChatFormat::default());
    m.append_speech("bc");
    m.section("de", bold());
    // make the spoken range reach into the bold section
    m.spoken_range = Some(1..4);
    let (spoken, sections) = m.spoken_part(0).unwrap();
    assert_eq!(spoken, "bcd");
    assert_eq!(
        ranges(&sections),
        vec![(0, 2, ChatFormat::default()), (2, 3, bold())]
    );
}

#[test]
fn message_without_speech_has_no_spoken_part() {
    let mut m = ChatMessage::new();
    m.append("plain");
    assert_eq!(ranges(&m.sections), vec![(0, 5, ChatFormat::default())]);
    assert!(m.spoken_part(0).is_none());
}

#[test]
fn layout_sections_are_shifted() {
    let m = ChatMessage::speech("Al", "yo");
    assert_eq!(
        ranges(&m.layout_sections(7)),
        vec![(7, 9, bold()), (9, 20, ChatFormat::default())]
    );
}

#[test]
fn append_grows_last_section() {
    let mut m = ChatMessage::new();
    m.section("x", bold());
    m.append("yz");
    assert_eq!(m.text, "xyz");
    assert_eq!(ranges(&m.sections), vec![(0, 3, bold())]);
}
