use chat_timeline::media::{ResourceDirectory, ResourceFile};
use chat_timeline::model::{Media, MediaKind, MessageContent};
use chat_timeline::parser::{parse, ParseError};

fn text(s: &str) -> MessageContent {
    MessageContent::Text(s.to_string())
}

#[test]
fn bracketed_continuation_joins_the_previous_text() {
    let source = "[1/2/23, 10:00:00 AM] Alice: hello\nworld";
    let outcome = parse(source, &None, "chat", &Vec::new()).unwrap();
    assert!(outcome.warnings.is_empty());
    let messages = &outcome.chat.messages;
    assert_eq!(messages.len(), 1);
    assert_eq!(messages[0].sender, Some("Alice".to_string()));
    assert_eq!(messages[0].content, text("hello\nworld"));
    assert_eq!(messages[0].timestamp, 1_672_653_600);
    assert!(!messages[0].starred);
    assert_eq!(messages[0].position, 0);
    assert_eq!(outcome.chat.name, "chat");
    assert!(outcome.chat.resource_directories.is_empty());
}

#[test]
fn dashed_records_are_read_with_minute_precision() {
    let source = "1/2/23, 10:00 PM - Alice: hi\n1/2/23, 10:01 PM - Bob: there\n";
    let outcome = parse(source, &None, "c", &Vec::new()).unwrap();
    let messages = &outcome.chat.messages;
    assert_eq!(messages.len(), 2);
    assert_eq!(messages[0].timestamp, 1_672_696_800);
    assert_eq!(messages[1].timestamp, 1_672_696_860);
    assert_eq!(messages[1].sender, Some("Bob".to_string()));
    assert_eq!(messages[1].content, text("there"));
    assert_eq!(messages[1].position, 1);
}

#[test]
fn unreadable_time_stamp_is_fatal_and_names_the_text() {
    let source = "[13/45/23, 10:00:00 AM] Alice: hello";
    let error = parse(source, &None, "c", &Vec::new()).unwrap_err();
    assert_eq!(error, ParseError::BadTimestamp { text: "13/45/23, 10:00:00 AM".to_string() });
    assert_eq!(error.message(), "Failed to parse time: 13/45/23, 10:00:00 AM");
}

#[test]
fn attachment_is_classified_and_resolved() {
    let source = "[1/2/23, 10:00:00 AM] Alice: <attached: IMG-1.JPG>\n[1/2/23, 10:00:05 AM] Alice: <attached: clip.mp4>";
    let resources = Some(ResourceDirectory {
        directory: "/x".to_string(),
        files: vec![ResourceFile { name: "img-1.jpg".to_string(), path: "/x/img-1.jpg".to_string() }],
    });
    let outcome = parse(source, &resources, "c", &Vec::new()).unwrap();
    let messages = &outcome.chat.messages;
    assert_eq!(
        messages[0].content,
        MessageContent::Media(Media {
            kind: MediaKind::Photo,
            resolved_path: Some("/x/img-1.jpg".to_string()),
            caption: None,
        })
    );
    assert_eq!(
        messages[1].content,
        MessageContent::Media(Media { kind: MediaKind::Video, resolved_path: None, caption: None })
    );
    assert_eq!(outcome.chat.resource_directories, vec!["/x".to_string()]);
}

#[test]
fn system_events_get_their_sender_from_the_vocabulary() {
    let source = "1/2/23, 9:00 AM - Carol created group \"Trip\"\n\
                  1/2/23, 9:01 AM - Alice: hi\n\
                  1/2/23, 9:02 AM - Carol: hello\n\
                  1/2/23, 9:03 AM - Alice left\n\
                  1/2/23, 9:04 AM - Someone changed the subject";
    let outcome = parse(source, &None, "c", &Vec::new()).unwrap();
    let messages = &outcome.chat.messages;
    assert_eq!(messages.len(), 5);
    assert_eq!(messages[0].content, MessageContent::System("Carol created group \"Trip\"".to_string()));
    assert_eq!(messages[0].sender, Some("Carol".to_string()));
    assert_eq!(messages[3].sender, Some("Alice".to_string()));
    assert_eq!(messages[3].content, MessageContent::System("Alice left".to_string()));
    assert_eq!(messages[4].sender, None);
}

#[test]
fn first_seen_sender_wins_when_two_names_fit() {
    let source = "1/2/23, 9:00 AM - Al: a\n\
                  1/2/23, 9:01 AM - Alice: b\n\
                  1/2/23, 9:02 AM - Alice left";
    let outcome = parse(source, &None, "c", &Vec::new()).unwrap();
    assert_eq!(outcome.chat.messages[2].sender, Some("Al".to_string()));
}

#[test]
fn boilerplate_is_not_stored() {
    let source = "[1/2/23, 10:00:00 AM] Trip: Messages and calls are end-to-end encrypted. No one outside of this chat can read them.\n\
                  [1/2/23, 10:00:01 AM] Alice changed this group's icon\n\
                  [1/2/23, 10:00:02 AM] Alice: null\n\
                  [1/2/23, 10:00:03 AM] Alice: kept";
    let outcome = parse(source, &None, "c", &Vec::new()).unwrap();
    let messages = &outcome.chat.messages;
    assert_eq!(messages.len(), 1);
    assert_eq!(messages[0].content, text("kept"));
    assert_eq!(messages[0].position, 0);
}

#[test]
fn omitted_and_suffixed_attachments() {
    let source = "1/2/23, 9:00 AM - Alice: <Media omitted>\n\
                  1/2/23, 9:01 AM - Alice: VID-7.MP4 (file attached)\n\
                  look at this\n\
                  second line\n\
                  1/2/23, 9:02 AM - Alice: notes.pdf (file attached)\n\
                  1/2/23, 9:03 AM - Alice: voice.opus (file attached)";
    let resources = Some(ResourceDirectory {
        directory: "/r".to_string(),
        files: vec![
            ResourceFile { name: "other.txt".to_string(), path: "/r/other.txt".to_string() },
            ResourceFile { name: "VID-7.mp4".to_string(), path: "/r/VID-7.mp4".to_string() },
        ],
    });
    let outcome = parse(source, &resources, "c", &Vec::new()).unwrap();
    let messages = &outcome.chat.messages;
    assert_eq!(messages.len(), 4);
    assert_eq!(
        messages[0].content,
        MessageContent::Media(Media { kind: MediaKind::Other, resolved_path: None, caption: None })
    );
    assert_eq!(
        messages[1].content,
        MessageContent::Media(Media {
            kind: MediaKind::Video,
            resolved_path: Some("/r/VID-7.mp4".to_string()),
            caption: Some("look at this\nsecond line".to_string()),
        })
    );
    assert_eq!(
        messages[2].content,
        MessageContent::Media(Media { kind: MediaKind::Other, resolved_path: None, caption: None })
    );
    assert_eq!(
        messages[3].content,
        MessageContent::Media(Media { kind: MediaKind::Audio, resolved_path: None, caption: None })
    );
}

#[test]
fn continuation_of_a_system_event_or_of_nothing_is_dropped() {
    let source = "stray line\n1/2/23, 9:00 AM - Alice left\nmore\n";
    let outcome = parse(source, &None, "c", &Vec::new()).unwrap();
    let messages = &outcome.chat.messages;
    assert_eq!(messages.len(), 1);
    assert_eq!(messages[0].content, MessageContent::System("Alice left".to_string()));
}

#[test]
fn dashed_delimiter_far_into_the_line_is_text() {
    let source = "1/2/23, 9:00 AM - Alice: first\nthis line is quite long and then has M - Bob: inside";
    let outcome = parse(source, &None, "c", &Vec::new()).unwrap();
    let messages = &outcome.chat.messages;
    assert_eq!(messages.len(), 1);
    assert_eq!(
        messages[0].content,
        text("first\nthis line is quite long and then has M - Bob: inside")
    );
}

#[test]
fn marks_blank_lines_and_white_space_are_ignored() {
    let source = "\n   \n\u{200e}[1/2/23, 10:00:00 AM] Alice: \u{200e}hello  \r\n\t\n  world \n";
    let outcome = parse(source, &None, "c", &Vec::new()).unwrap();
    let messages = &outcome.chat.messages;
    assert_eq!(messages.len(), 1);
    assert_eq!(messages[0].content, text("hello\nworld"));
}

#[test]
fn stars_are_applied_and_missing_positions_warned_of() {
    let source = "1/2/23, 9:00 AM - Alice: a\n1/2/23, 9:01 AM - Alice: b\n1/2/23, 9:02 AM - Alice: c";
    let outcome = parse(source, &None, "c", &vec![2, 7, 0, 3]).unwrap();
    let stars: Vec<bool> = outcome.chat.messages.iter().map(|m| m.starred).collect();
    assert_eq!(stars, vec![true, false, true]);
    assert_eq!(
        outcome.warnings,
        vec![
            "Some starred indices not found; these messages have not been stared.".to_string(),
            "Some starred indices not found; these messages have not been stared.".to_string(),
        ]
    );
}

#[test]
fn messages_are_put_in_chronological_order() {
    let source = "1/2/23, 9:05 AM - Alice: late\n\
                  1/2/23, 9:00 AM - Alice: early\n\
                  1/2/23, 9:05 AM - Bob: also late\n\
                  1/2/23, 9:00 AM - Bob: also early";
    let outcome = parse(source, &None, "c", &Vec::new()).unwrap();
    let order: Vec<(String, usize)> = outcome
        .chat
        .messages
        .iter()
        .map(|m| match &m.content {
            MessageContent::Text(t) => (t.clone(), m.position),
            _ => unreachable!(),
        })
        .collect();
    assert_eq!(
        order,
        vec![
            ("early".to_string(), 0),
            ("also early".to_string(), 1),
            ("late".to_string(), 2),
            ("also late".to_string(), 3),
        ]
    );
}

#[test]
fn bracket_that_never_closes_is_fatal() {
    let source = "[1/2/23, 10:00:00 AM] Alice: ok\n[not a time stamp";
    let error = parse(source, &None, "c", &Vec::new()).unwrap_err();
    assert_eq!(error, ParseError::UnterminatedTimestamp { line: "[not a time stamp".to_string() });
    assert_eq!(error.message(), "Failed to find time end: [not a time stamp");
}

#[test]
fn variant_is_fixed_by_the_first_line() {
    let source = "1/2/23, 9:00 AM - Alice: a\n[1/2/23, 10:00:00 AM] Bob: b";
    let outcome = parse(source, &None, "c", &Vec::new()).unwrap();
    assert_eq!(outcome.chat.messages.len(), 1);
    assert_eq!(outcome.chat.messages[0].content, text("a\n[1/2/23, 10:00:00 AM] Bob: b"));
}

#[test]
fn empty_transcript_gives_an_empty_chat() {
    let outcome = parse("", &None, "nothing", &vec![0]).unwrap();
    assert!(outcome.chat.messages.is_empty());
    assert_eq!(outcome.chat.name, "nothing");
    assert_eq!(outcome.warnings.len(), 1);
}

#[test]
fn afternoon_and_midnight_are_read_on_a_twelve_hour_clock() {
    let source = "[12/31/22, 12:00:00 AM] A: midnight\n[12/31/22, 12:00:01 PM] A: noon\n[12/31/22, 11:59:59 PM] A: end";
    let outcome = parse(source, &None, "c", &Vec::new()).unwrap();
    let times: Vec<i64> = outcome.chat.messages.iter().map(|m| m.timestamp).collect();
    assert_eq!(times, vec![1_672_444_800, 1_672_488_001, 1_672_531_199]);
}
