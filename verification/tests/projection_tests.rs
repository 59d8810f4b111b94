use chat_timeline::model::{Media, MediaKind, Message, MessageContent, ParsedChat};
use chat_timeline::projection::{
    first_repeated, initial_theme, search, star_message, starred_messages,
    starred_positions, summarize, StarError, Theme,
};
use chat_timeline::statistics::{
    categorize, count_by_sender, Category, MediaTypeCount, MessageTypeCount, SenderCount,
};

fn message(position: usize, timestamp: i64, sender: Option<&str>, content: MessageContent) -> Message {
    Message { timestamp, sender: sender.map(|s| s.to_string()), content, starred: false, position }
}

fn text(s: &str) -> MessageContent {
    MessageContent::Text(s.to_string())
}

fn media(kind: MediaKind, caption: Option<&str>) -> MessageContent {
    MessageContent::Media(Media { kind, resolved_path: None, caption: caption.map(|c| c.to_string()) })
}

fn sample() -> ParsedChat {
    ParsedChat {
        messages: vec![
            message(0, 500, Some("Alice"), text("Hello World")),
            message(1, 400, Some("Bob"), media(MediaKind::Photo, Some("the WORLD from above"))),
            message(2, 900, None, MessageContent::System("World group created".to_string())),
            message(3, 700, Some("Alice"), media(MediaKind::Video, None)),
            message(4, 800, Some("Alice"), text("ÉCOLE")),
            message(5, 600, Some("Bob"), MessageContent::System("Bob left".to_string())),
            message(6, 650, Some("Alice"), media(MediaKind::Audio, None)),
            message(7, 660, Some("Alice"), media(MediaKind::Other, None)),
            message(8, 670, Some("Alice"), text("bye")),
        ],
        resource_directories: Vec::new(),
        name: "sample".to_string(),
    }
}

#[test]
fn search_ignores_letter_case() {
    let chat = sample();
    assert_eq!(search(&chat, "world"), vec![0, 1, 2]);
    assert_eq!(search(&chat, "WORLD"), vec![0, 1, 2]);
    assert_eq!(search(&chat, "école"), vec![4]);
    assert_eq!(search(&chat, "nothing"), Vec::<usize>::new());
    assert_eq!(search(&chat, "").len(), 6);
}

#[test]
fn search_gives_positions_not_indices() {
    let mut chat = sample();
    chat.messages[0].position = 40;
    assert_eq!(search(&chat, "hello"), vec![40]);
}

#[test]
fn stars_are_toggled_by_index() {
    let mut chat = sample();
    assert_eq!(star_message(&mut chat, 3), Ok(()));
    assert_eq!(star_message(&mut chat, 0), Ok(()));
    assert_eq!(starred_positions(&chat), vec![0, 3]);
    let starred = starred_messages(&chat);
    assert_eq!(starred.len(), 2);
    assert_eq!(starred[0].content, text("Hello World"));
    assert_eq!(starred[1].position, 3);
    assert_eq!(star_message(&mut chat, 3), Ok(()));
    assert_eq!(starred_positions(&chat), vec![0]);
    assert_eq!(star_message(&mut chat, 9), Err(StarError::NoSuchMessage));
    assert_eq!(StarError::NoSuchMessage.message(), "No message exists at that index");
    assert_eq!(starred_positions(&chat), vec![0]);
}

#[test]
fn messages_are_counted_by_sender_and_kind() {
    let counts = count_by_sender(&sample());
    assert_eq!(
        counts,
        vec![
            SenderCount {
                sender: "Alice".to_string(),
                count: MessageTypeCount {
                    text: 3,
                    media: MediaTypeCount { photo: 0, video: 1, audio: 1, other: 1 },
                    system: 0,
                },
            },
            SenderCount {
                sender: "Bob".to_string(),
                count: MessageTypeCount {
                    text: 0,
                    media: MediaTypeCount { photo: 1, video: 0, audio: 0, other: 0 },
                    system: 1,
                },
            },
        ]
    );
    let empty = ParsedChat { messages: Vec::new(), resource_directories: Vec::new(), name: String::new() };
    assert!(count_by_sender(&empty).is_empty());
}

#[test]
fn categories_follow_content() {
    assert_eq!(categorize(&message(0, 0, None, text("x"))), Category::Text);
    assert_eq!(categorize(&message(0, 0, None, media(MediaKind::Audio, None))), Category::Audio);
    assert_eq!(
        categorize(&message(0, 0, None, MessageContent::System("x".to_string()))),
        Category::System
    );
}

#[test]
fn summary_spans_the_chat() {
    let mut chat = sample();
    chat.messages[4].starred = true;
    let summary = summarize(&chat);
    assert_eq!(summary.name, "sample");
    assert_eq!(summary.first_sent, Some(400));
    assert_eq!(summary.last_sent, Some(900));
    assert_eq!(summary.number_of_messages, 9);
    assert_eq!(summary.last_message.unwrap().content, text("bye"));
    assert_eq!(summary.starred.len(), 1);
    assert_eq!(summary.starred[0].position, 4);
    let empty = ParsedChat { messages: Vec::new(), resource_directories: Vec::new(), name: "e".to_string() };
    let summary = summarize(&empty);
    assert_eq!(summary.first_sent, None);
    assert_eq!(summary.last_sent, None);
    assert_eq!(summary.last_message, None);
    assert_eq!(summary.number_of_messages, 0);
}

#[test]
fn repeated_names_are_found() {
    let names: Vec<String> = ["a", "b", "c", "b", "a"].iter().map(|s| s.to_string()).collect();
    assert_eq!(first_repeated(&names), Some(3));
    let distinct: Vec<String> = ["a", "b", "c"].iter().map(|s| s.to_string()).collect();
    assert_eq!(first_repeated(&distinct), None);
    assert_eq!(first_repeated(&Vec::new()), None);
}

#[test]
fn saved_theme_wins_over_the_wanted_one() {
    assert_eq!(initial_theme(Theme::Unspecified, Theme::Dark), Theme::Dark);
    assert_eq!(initial_theme(Theme::Light, Theme::Dark), Theme::Light);
    assert_eq!(initial_theme(Theme::Dark, Theme::Unspecified), Theme::Dark);
}
