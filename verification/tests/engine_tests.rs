use chat_timeline::anchor::measure_run;
use chat_timeline::grammar::{
    boilerplate_text, detect_variant, guess_sender, locate, locate_sender, read_content,
    suppressed_event, FormatVariant, LineParts,
};
use chat_timeline::merge::{merge_with_report, take_source};
use chat_timeline::model::{remember, Media, MediaKind, Message, MessageContent, ParsedChat};
use chat_timeline::order::{earliest, latest, renumber, sort_by_time};
use chat_timeline::parser::{apply_stars, Parser};
use chat_timeline::reconcile::{emit, push_range, Move};

fn chars(s: &str) -> Vec<char> {
    s.chars().collect()
}

fn note(timestamp: i64, body: &str) -> Message {
    Message {
        timestamp,
        sender: Some("Alice".to_string()),
        content: MessageContent::Text(body.to_string()),
        starred: false,
        position: 0,
    }
}

fn photo(timestamp: i64) -> Message {
    Message {
        timestamp,
        sender: Some("Alice".to_string()),
        content: MessageContent::Media(Media {
            kind: MediaKind::Photo,
            resolved_path: None,
            caption: None,
        }),
        starred: false,
        position: 0,
    }
}

fn bodies(messages: &[Message]) -> Vec<String> {
    messages
        .iter()
        .map(|m| match &m.content {
            MessageContent::Text(t) => t.clone(),
            MessageContent::System(t) => t.clone(),
            MessageContent::Media(_) => "media".to_string(),
        })
        .collect()
}

#[test]
fn variant_is_told_by_the_first_character() {
    assert_eq!(detect_variant(&chars("[1/2/23, 10:00:00 AM] A: b")), FormatVariant::Bracketed);
    assert_eq!(detect_variant(&chars("1/2/23, 10:00 AM - A: b")), FormatVariant::Dashed);
    assert_eq!(detect_variant(&chars("")), FormatVariant::Dashed);
}

#[test]
fn bracketed_line_is_located() {
    let line = chars("[1/2/23, 10:00:00 AM] Alice: hello");
    assert_eq!(
        locate(FormatVariant::Bracketed, &line),
        LineParts::Record { stamp_from: 1, stamp_to: 20, rest_from: 22 }
    );
    assert_eq!(locate(FormatVariant::Bracketed, &chars("hello [x] y")), LineParts::Continuation);
    assert_eq!(locate(FormatVariant::Bracketed, &chars("[no end")), LineParts::Unterminated);
}

#[test]
fn dashed_line_is_located() {
    let line = chars("12/31/22, 10:00 PM - Alice: hello");
    assert_eq!(
        locate(FormatVariant::Dashed, &line),
        LineParts::Record { stamp_from: 0, stamp_to: 18, rest_from: 21 }
    );
    let at_limit = chars("0123456789012345678M - x");
    assert_eq!(
        locate(FormatVariant::Dashed, &at_limit),
        LineParts::Record { stamp_from: 0, stamp_to: 20, rest_from: 23 }
    );
    let past_limit = chars("0123456789012345678 M - x");
    assert_eq!(locate(FormatVariant::Dashed, &past_limit), LineParts::Continuation);
    assert_eq!(locate(FormatVariant::Dashed, &chars("plain text")), LineParts::Continuation);
}

#[test]
fn sender_ends_at_the_first_delimiter() {
    assert_eq!(locate_sender(&chars("Alice: a: b")), Some((5, 7)));
    assert_eq!(locate_sender(&chars("Alice left")), None);
    assert_eq!(locate_sender(&chars("Alice:")), None);
}

#[test]
fn content_is_read_by_its_markers() {
    let none = Vec::new();
    assert_eq!(
        read_content(&chars("see <attached: a.mov>"), false, &none),
        Some(MessageContent::Media(Media {
            kind: MediaKind::Video,
            resolved_path: None,
            caption: None
        }))
    );
    assert_eq!(
        read_content(&chars("<attached: a.ogg"), false, &none),
        Some(MessageContent::Media(Media {
            kind: MediaKind::Audio,
            resolved_path: None,
            caption: None
        }))
    );
    assert_eq!(read_content(&chars(" null "), false, &none), None);
    assert_eq!(
        read_content(&chars("nullify"), false, &none),
        Some(MessageContent::Text("nullify".to_string()))
    );
    assert!(boilerplate_text(&chars("Messages and calls are end-to-end encrypted. Tap.")));
    assert!(!boilerplate_text(&chars("The messages and calls are end-to-end encrypted")));
    assert!(suppressed_event(&chars("Bob changed the group icon")));
    assert!(!suppressed_event(&chars("Bob changed the icon.")));
}

#[test]
fn sender_is_guessed_from_the_front_of_the_event() {
    let senders = vec!["Bob".to_string(), "Alice".to_string()];
    assert_eq!(guess_sender(&chars("Alice left"), &senders), Some("Alice".to_string()));
    assert_eq!(guess_sender(&chars("Then Bob left"), &senders), None);
    assert_eq!(guess_sender(&chars("Bo"), &senders), None);
}

#[test]
fn names_are_remembered_once() {
    let mut names = vec!["a".to_string()];
    remember(&mut names, &"b".to_string());
    remember(&mut names, &"a".to_string());
    remember(&mut names, &"b".to_string());
    assert_eq!(names, vec!["a".to_string(), "b".to_string()]);
}

#[test]
fn parser_takes_lines_one_by_one() {
    let none = Vec::new();
    let mut parser = Parser::new();
    assert_eq!(parser.feed_line(&chars("   "), false, &none), Ok(()));
    assert_eq!(parser.variant, None);
    assert_eq!(parser.feed_line(&chars("1/2/23, 9:00 AM - Alice: one"), false, &none), Ok(()));
    assert_eq!(parser.variant, Some(FormatVariant::Dashed));
    assert_eq!(parser.feed_line(&chars("two"), false, &none), Ok(()));
    parser.accept_record(77, &chars("Bob: three"), false, &none);
    parser.accept_record(5, &chars("Bob joined"), false, &none);
    assert_eq!(parser.senders, vec!["Alice".to_string(), "Bob".to_string()]);
    assert_eq!(parser.messages.len(), 3);
    assert_eq!(parser.messages[2].position, 2);
    let outcome = parser.finish("n", &Some("/d".to_string()), &vec![1]);
    assert_eq!(bodies(&outcome.chat.messages), vec!["Bob joined", "three", "one\ntwo"]);
    assert_eq!(outcome.chat.messages[0].sender, Some("Bob".to_string()));
    let stars: Vec<bool> = outcome.chat.messages.iter().map(|m| m.starred).collect();
    assert_eq!(stars, vec![false, true, false]);
    assert_eq!(outcome.chat.resource_directories, vec!["/d".to_string()]);
    assert!(outcome.warnings.is_empty());
}

#[test]
fn stars_go_to_the_positions_given() {
    let mut messages = vec![note(0, "a"), note(1, "b")];
    let warnings = apply_stars(&mut messages, &vec![1, 1, 2]);
    assert!(!messages[0].starred);
    assert!(messages[1].starred);
    assert_eq!(warnings.len(), 1);
}

#[test]
fn sorting_is_stable() {
    let sorted = sort_by_time(vec![note(5, "a"), note(3, "b"), note(5, "c"), note(3, "d"), note(4, "e")]);
    assert_eq!(bodies(&sorted), vec!["b", "d", "e", "a", "c"]);
    let mut sorted = sorted;
    renumber(&mut sorted);
    let positions: Vec<usize> = sorted.iter().map(|m| m.position).collect();
    assert_eq!(positions, vec![0, 1, 2, 3, 4]);
    assert_eq!(earliest(&sorted), 3);
    assert_eq!(latest(&sorted), 5);
}

#[test]
fn runs_are_measured_to_their_end() {
    let source = vec![photo(0), photo(1), note(2, "x"), note(3, "y")];
    let combined = vec![note(9, "z"), photo(0), photo(1), note(2, "x"), note(3, "other")];
    assert_eq!(measure_run(&source, &combined, 0, 1), (3, true));
    assert_eq!(measure_run(&source, &combined, 0, 2), (1, false));
    assert_eq!(measure_run(&source, &combined, 0, 0), (0, false));
    assert_eq!(measure_run(&source, &combined, 4, 0), (0, false));
}

#[test]
fn steps_leave_what_they_say() {
    let source = vec![note(0, "s0"), note(1, "s1"), note(2, "s2")];
    let combined = vec![note(0, "c0"), note(1, "c1"), note(2, "c2")];
    let mut out = vec![note(0, "before")];
    emit(&source, &combined, 0, 0, &Move::Cover { count: 2 }, &mut out);
    assert_eq!(bodies(&out), vec!["before", "c0", "c1", "c2"]);
    let mut out = Vec::new();
    emit(&source, &combined, 1, 0, &Move::Splice { count: 1 }, &mut out);
    assert_eq!(bodies(&out), vec!["s1", "c0"]);
    let mut out = Vec::new();
    emit(&source, &combined, 0, 1, &Move::Reorder { order: vec![1, 0] }, &mut out);
    assert_eq!(bodies(&out), vec!["c1", "c2"]);
    let mut out = Vec::new();
    emit(&source, &combined, 0, 0, &Move::Stop, &mut out);
    assert!(out.is_empty());
    push_range(&mut out, &source, 1, 3);
    assert_eq!(bodies(&out), vec!["s1", "s2"]);
}

#[test]
fn passed_over_sources_are_reported() {
    let chat = |name: &str, messages: Vec<Message>| ParsedChat {
        messages,
        resource_directories: Vec::new(),
        name: name.to_string(),
    };
    let sources = vec![
        chat("a", vec![note(0, "a0"), note(100, "a1")]),
        chat("b", vec![note(50, "b0")]),
        chat("c", vec![note(200, "c0")]),
        chat("d", vec![note(150, "d0")]),
        chat("e", Vec::new()),
    ];
    let outcome = merge_with_report(&sources);
    assert_eq!(outcome.passed_over, vec![1, 3]);
    assert_eq!(bodies(&outcome.chat.messages), vec!["a0", "a1", "c0"]);
    let (kept, dropped) = take_source(vec![note(0, "x"), note(9, "y")], &vec![note(5, "z")]);
    assert!(dropped);
    assert_eq!(bodies(&kept), vec!["x", "y"]);
    let (grown, dropped) = take_source(vec![note(0, "x")], &vec![note(5, "z")]);
    assert!(!dropped);
    assert_eq!(bodies(&grown), vec!["x", "z"]);
}

#[test]
fn chats_can_be_copied() {
    let chat = ParsedChat {
        messages: vec![note(0, "a"), photo(1)],
        resource_directories: vec!["/d".to_string()],
        name: "n".to_string(),
    };
    assert_eq!(chat.clone(), chat);
}
