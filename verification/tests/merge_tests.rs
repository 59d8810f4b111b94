use chat_timeline::anchor::find_anchor;
use chat_timeline::merge::{lies_before, merge, take_source};
use chat_timeline::model::{Media, MediaKind, Message, MessageContent, ParsedChat};
use chat_timeline::reconcile::{
    align, backfill, find_reordering, find_same, find_skip, goes_with, location_message,
    next_step, Move,
};

const HOUR: i64 = 3_600;
const DAY: i64 = 86_400;

fn text_at(timestamp: i64, sender: &str, body: &str) -> Message {
    Message {
        timestamp,
        sender: Some(sender.to_string()),
        content: MessageContent::Text(body.to_string()),
        starred: false,
        position: 0,
    }
}

fn system_at(timestamp: i64, body: &str) -> Message {
    Message {
        timestamp,
        sender: None,
        content: MessageContent::System(body.to_string()),
        starred: false,
        position: 0,
    }
}

fn media_at(timestamp: i64, kind: MediaKind, path: Option<&str>, caption: Option<&str>) -> Message {
    Message {
        timestamp,
        sender: Some("Alice".to_string()),
        content: MessageContent::Media(Media {
            kind,
            resolved_path: path.map(|p| p.to_string()),
            caption: caption.map(|c| c.to_string()),
        }),
        starred: false,
        position: 0,
    }
}

/// `count` text messages, one a minute from `start` on, called `m0`, `m1`, ...
fn run(start: i64, count: usize) -> Vec<Message> {
    (0..count).map(|k| text_at(start + 60 * k as i64, "Alice", &format!("m{}", k))).collect()
}

fn chat(name: &str, messages: Vec<Message>, directories: &[&str]) -> ParsedChat {
    ParsedChat {
        messages,
        resource_directories: directories.iter().map(|d| d.to_string()).collect(),
        name: name.to_string(),
    }
}

fn bodies(messages: &[Message]) -> Vec<String> {
    messages
        .iter()
        .map(|m| match &m.content {
            MessageContent::Text(t) => t.clone(),
            MessageContent::System(t) => format!("system:{}", t),
            MessageContent::Media(_) => "media".to_string(),
        })
        .collect()
}

fn numbered(mut messages: Vec<Message>) -> Vec<Message> {
    for (k, m) in messages.iter_mut().enumerate() {
        m.position = k;
    }
    messages
}

#[test]
fn merging_one_source_gives_it_back() {
    let mut messages = numbered(run(1_000, 7));
    messages[3].starred = true;
    let source = chat("family", messages, &["/a"]);
    let merged = merge(&vec![chat("family", numbered(run(1_000, 7)), &["/a"])]);
    assert_eq!(merged.name, "family");
    assert_eq!(merged.resource_directories, vec!["/a".to_string()]);
    assert_eq!(merged.messages.len(), 7);
    let again = merge(&vec![source]);
    assert!(again.messages[3].starred);
    assert_eq!(bodies(&again.messages), bodies(&merged.messages));
    for (k, m) in again.messages.iter().enumerate() {
        assert_eq!(m.position, k);
    }
}

#[test]
fn merging_a_source_with_itself_changes_nothing() {
    let first = chat("c", numbered(run(1_000, 8)), &["/a"]);
    let second = chat("c", numbered(run(1_000, 8)), &["/a"]);
    let merged = merge(&vec![first, second]);
    assert_eq!(merged.messages, numbered(run(1_000, 8)));
    assert_eq!(merged.resource_directories, vec!["/a".to_string()]);
}

#[test]
fn positions_are_renumbered_by_final_order() {
    let mut messages = run(1_000, 3);
    messages[0].position = 9;
    messages[2].position = 4;
    let merged = merge(&vec![chat("c", messages, &[])]);
    let positions: Vec<usize> = merged.messages.iter().map(|m| m.position).collect();
    assert_eq!(positions, vec![0, 1, 2]);
}

#[test]
fn equality_window_is_twelve_hours() {
    let a = text_at(100_000, "Alice", "hi");
    assert!(a.matches(&text_at(100_000 + 12 * HOUR - 1, "Alice", "hi")));
    assert!(a.matches(&text_at(100_000 + 12 * HOUR, "Alice", "hi")));
    assert!(!a.matches(&text_at(100_000 + 12 * HOUR + 1, "Alice", "hi")));
    assert!(a.matches(&text_at(100_000 - 12 * HOUR + 1, "Alice", "hi")));
    assert!(!a.matches(&text_at(100_000 - 12 * HOUR - 1, "Alice", "hi")));
}

#[test]
fn equality_needs_sender_and_content() {
    let a = text_at(0, "Alice", "hi");
    assert!(!a.matches(&text_at(0, "Bob", "hi")));
    assert!(!a.matches(&text_at(0, "Alice", "ho")));
    assert!(!a.matches(&system_at(0, "hi")));
    let mut starred = text_at(0, "Alice", "hi");
    starred.starred = true;
    starred.position = 12;
    assert!(a.matches(&starred));
}

#[test]
fn media_equality_tolerates_missing_paths() {
    let photo = media_at(0, MediaKind::Photo, Some("/a/x.jpg"), None);
    let video = media_at(0, MediaKind::Video, Some("/b/x.mp4"), None);
    let unknown = media_at(0, MediaKind::Other, None, None);
    assert!(!photo.matches(&video));
    assert!(photo.matches(&unknown));
    assert!(unknown.matches(&video));
    let captioned = media_at(0, MediaKind::Photo, None, Some("one"));
    let other_caption = media_at(0, MediaKind::Photo, None, Some("two"));
    assert!(!captioned.matches(&other_caption));
    assert!(captioned.matches(&unknown));
}

#[test]
fn run_of_four_is_no_anchor() {
    let combined = run(1_000, 4);
    let source = run(1_000, 4);
    assert_eq!(find_anchor(&source, &combined), None);
}

#[test]
fn run_of_five_with_text_is_an_anchor() {
    let mut combined = vec![text_at(0, "Bob", "before")];
    combined.extend(run(1_000, 4));
    combined.push(media_at(1_240, MediaKind::Photo, None, None));
    let mut source = vec![text_at(10, "Bob", "x"), text_at(20, "Bob", "y")];
    source.extend(run(1_000, 4));
    source.push(media_at(1_240, MediaKind::Photo, None, None));
    assert_eq!(find_anchor(&source, &combined), Some((2, 1)));
}

#[test]
fn run_of_media_only_is_no_anchor() {
    let combined: Vec<Message> =
        (0..6).map(|k| media_at(60 * k, MediaKind::Photo, None, None)).collect();
    let source: Vec<Message> =
        (0..6).map(|k| media_at(60 * k, MediaKind::Photo, None, None)).collect();
    assert_eq!(find_anchor(&source, &combined), None);
}

#[test]
fn anchor_is_the_first_in_search_order() {
    let source = run(1_000, 5);
    let mut combined = run(1_000, 5);
    combined.extend(run(1_000, 5));
    assert_eq!(find_anchor(&source, &combined), Some((0, 0)));
    let mut late = vec![text_at(0, "Bob", "zzz")];
    late.extend(run(1_000, 5));
    assert_eq!(find_anchor(&late, &combined), Some((1, 0)));
}

#[test]
fn matched_media_is_backfilled() {
    let mut first = run(1_000, 5);
    first.push(media_at(2_000, MediaKind::Photo, None, None));
    let mut second = run(1_000, 5);
    second.push(media_at(2_000, MediaKind::Photo, Some("/x/y.jpg"), Some("hi")));
    let merged = merge(&vec![chat("a", first, &[]), chat("b", second, &["/x"])]);
    assert_eq!(merged.messages.len(), 6);
    assert_eq!(
        merged.messages[5].content,
        MessageContent::Media(Media {
            kind: MediaKind::Photo,
            resolved_path: Some("/x/y.jpg".to_string()),
            caption: Some("hi".to_string()),
        })
    );
    assert_eq!(merged.name, "a");
    assert_eq!(merged.resource_directories, vec!["/x".to_string()]);
}

#[test]
fn backfill_never_overwrites() {
    let kept = media_at(5, MediaKind::Photo, Some("/a/y.jpg"), None);
    let other = media_at(9, MediaKind::Video, Some("/b/y.jpg"), Some("cap"));
    let filled = backfill(&kept, &other);
    assert_eq!(filled.timestamp, 5);
    assert_eq!(
        filled.content,
        MessageContent::Media(Media {
            kind: MediaKind::Photo,
            resolved_path: Some("/a/y.jpg".to_string()),
            caption: Some("cap".to_string()),
        })
    );
    let plain = text_at(1, "Alice", "t");
    assert_eq!(backfill(&plain, &other), plain);
}

#[test]
fn unmatched_source_message_is_kept_by_a_skip() {
    let a = text_at(0, "Alice", "A");
    let b = text_at(60, "Alice", "B");
    let c = text_at(120, "Alice", "C");
    let x = text_at(30, "Bob", "X");
    let combined = vec![a.clone(), b.clone(), c.clone()];
    let source = vec![a.clone(), x.clone(), b.clone(), c.clone()];
    let mut out = Vec::new();
    align(&source, &combined, 0, 0, &mut out);
    assert_eq!(bodies(&out), vec!["A", "X", "B", "C"]);
    assert_eq!(find_skip(&source, &combined, 1, 1), Move::Splice { count: 1 });
}

#[test]
fn skip_is_taken_after_an_anchor() {
    let mut combined = run(1_000, 5);
    combined.push(text_at(2_000, "Alice", "B"));
    combined.push(text_at(2_060, "Alice", "C"));
    let mut source = run(1_000, 5);
    source.push(text_at(1_990, "Bob", "X"));
    source.push(text_at(2_000, "Alice", "B"));
    source.push(text_at(2_060, "Alice", "C"));
    let merged = merge(&vec![chat("c", combined, &[]), chat("c", source, &[])]);
    assert_eq!(bodies(&merged.messages), vec!["m0", "m1", "m2", "m3", "m4", "X", "B", "C"]);
}

#[test]
fn unmatched_combined_message_is_covered_by_a_skip() {
    let mut combined = run(1_000, 5);
    combined.push(text_at(1_990, "Bob", "only here"));
    combined.push(text_at(2_000, "Alice", "B"));
    let mut source = run(1_000, 5);
    source.push(text_at(2_000, "Alice", "B"));
    source.push(text_at(2_100, "Alice", "tail"));
    assert_eq!(find_skip(&source, &combined, 5, 5), Move::Cover { count: 1 });
    let out = take_source(combined, &source).0;
    assert_eq!(bodies(&out), vec!["m0", "m1", "m2", "m3", "m4", "only here", "B", "tail"]);
}

#[test]
fn skip_is_bounded() {
    let combined = vec![text_at(0, "Alice", "A"), text_at(500, "Alice", "Z")];
    let mut source = vec![text_at(0, "Alice", "A")];
    for k in 0..4 {
        source.push(text_at(100 + k, "Bob", &format!("x{}", k)));
    }
    source.push(text_at(500, "Alice", "Z"));
    assert_eq!(find_skip(&source, &combined, 1, 1), Move::Stop);
    assert_eq!(next_step(&source, &combined, 1, 1), Move::Stop);
    let mut out = Vec::new();
    align(&source, &combined, 0, 0, &mut out);
    assert_eq!(bodies(&out), vec!["A", "Z"]);
}

#[test]
fn later_source_is_appended_in_order() {
    let combined = run(1_000, 3);
    let source = vec![
        text_at(50_000, "Bob", "n0"),
        text_at(50_001, "Bob", "n1"),
        text_at(50_002, "Bob", "n2"),
    ];
    let merged = merge(&vec![chat("c", combined, &["/a"]), chat("d", source, &["/b", "/a"])]);
    assert_eq!(bodies(&merged.messages), vec!["m0", "m1", "m2", "n0", "n1", "n2"]);
    assert_eq!(merged.resource_directories, vec!["/a".to_string(), "/b".to_string()]);
    let positions: Vec<usize> = merged.messages.iter().map(|m| m.position).collect();
    assert_eq!(positions, vec![0, 1, 2, 3, 4, 5]);
}

#[test]
fn earlier_source_is_prepended() {
    let combined = run(100_000, 2);
    let source = vec![text_at(5, "Bob", "n0"), text_at(6, "Bob", "n1")];
    let out = take_source(combined, &source).0;
    assert_eq!(bodies(&out), vec!["n0", "n1", "m0", "m1"]);
}

#[test]
fn interleaved_source_without_anchor_is_dropped() {
    let combined = vec![text_at(0, "Alice", "a"), text_at(100, "Alice", "b")];
    let source = vec![text_at(50, "Bob", "x")];
    assert!(!lies_before(&source, &combined));
    assert!(!lies_before(&combined, &source));
    let out = take_source(combined, &source).0;
    assert_eq!(bodies(&out), vec!["a", "b"]);
}

#[test]
fn source_before_the_anchor_goes_to_the_front() {
    let combined = run(1_000, 5);
    let mut source = vec![text_at(10, "Bob", "early")];
    source.extend(run(1_000, 5));
    source.push(text_at(9_000, "Bob", "late"));
    let out = take_source(combined, &source).0;
    assert_eq!(bodies(&out), vec!["early", "m0", "m1", "m2", "m3", "m4", "late"]);
}

#[test]
fn reordered_messages_are_paired() {
    let x = text_at(2_000, "Alice", "X");
    let y = text_at(2_001, "Bob", "Y");
    let mut combined = run(1_000, 5);
    combined.push(x.clone());
    combined.push(y.clone());
    let mut source = run(1_000, 5);
    source.push(y.clone());
    source.push(x.clone());
    assert_eq!(find_reordering(&source, &combined, 5, 5), Some(vec![1, 0]));
    assert_eq!(next_step(&source, &combined, 5, 5), Move::Reorder { order: vec![1, 0] });
    let out = take_source(combined, &source).0;
    assert_eq!(bodies(&out), vec!["m0", "m1", "m2", "m3", "m4", "X", "Y"]);
}

#[test]
fn reordering_takes_the_smallest_window() {
    let names = ["p", "q", "r"];
    let combined: Vec<Message> =
        names.iter().enumerate().map(|(k, n)| text_at(k as i64, "Alice", n)).collect();
    let source = vec![
        text_at(0, "Alice", "r"),
        text_at(1, "Alice", "p"),
        text_at(2, "Alice", "q"),
    ];
    assert_eq!(find_reordering(&source, &combined, 0, 0), Some(vec![1, 2, 0]));
    let fewer = vec![text_at(0, "Alice", "r"), text_at(1, "Alice", "p")];
    assert_eq!(find_reordering(&fewer, &combined, 0, 0), None);
}

#[test]
fn newer_source_message_is_looked_for_ahead() {
    let mut combined = run(1_000, 5);
    for k in 0..5 {
        combined.push(text_at(2_000 + k, "Bob", &format!("old{}", k)));
    }
    combined.push(text_at(3 * DAY, "Alice", "far"));
    let mut source = run(1_000, 5);
    source.push(text_at(3 * DAY, "Alice", "far"));
    assert_eq!(find_same(&combined, &source[5], 6), Some(10));
    assert_eq!(next_step(&source, &combined, 5, 5), Move::Cover { count: 5 });
    let out = take_source(combined, &source).0;
    assert_eq!(
        bodies(&out),
        vec!["m0", "m1", "m2", "m3", "m4", "old0", "old1", "old2", "old3", "old4", "far"]
    );
}

#[test]
fn older_source_messages_are_spliced_in() {
    let mut combined = run(1_000, 5);
    combined.push(text_at(3 * DAY, "Alice", "far"));
    let mut source = run(1_000, 5);
    for k in 0..5 {
        source.push(text_at(2_000 + k, "Bob", &format!("new{}", k)));
    }
    source.push(text_at(3 * DAY, "Alice", "far"));
    assert_eq!(next_step(&source, &combined, 5, 5), Move::Splice { count: 5 });
    let out = take_source(combined, &source).0;
    assert_eq!(
        bodies(&out),
        vec!["m0", "m1", "m2", "m3", "m4", "new0", "new1", "new2", "new3", "new4", "far"]
    );
}

#[test]
fn unresolved_divergence_ends_the_walk() {
    let mut combined = run(1_000, 5);
    combined.push(text_at(2_000, "Alice", "mine"));
    let mut source = run(1_000, 5);
    source.push(text_at(2_000, "Bob", "theirs"));
    source.push(text_at(2_010, "Bob", "more"));
    let out = take_source(combined, &source).0;
    assert_eq!(bodies(&out), vec!["m0", "m1", "m2", "m3", "m4", "mine"]);
}

#[test]
fn rest_of_the_source_is_appended_when_the_combined_side_ends() {
    let combined = run(1_000, 5);
    let mut source = run(1_000, 5);
    source.push(text_at(2_000, "Bob", "n0"));
    source.push(text_at(2_010, "Bob", "n1"));
    let out = take_source(combined, &source).0;
    assert_eq!(bodies(&out), vec!["m0", "m1", "m2", "m3", "m4", "n0", "n1"]);
}

#[test]
fn system_events_and_locations_always_go_together() {
    assert!(goes_with(&system_at(0, "Alice joined"), &system_at(10 * DAY, "Bob left")));
    let here = text_at(0, "Alice", "  Location: https://maps.example/1");
    let there = text_at(5 * DAY, "Bob", "location: https://maps.example/2");
    assert!(location_message(&here));
    assert!(goes_with(&here, &there));
    assert!(!location_message(&text_at(0, "Alice", "my location: x")));
    assert!(!goes_with(&here, &text_at(0, "Alice", "hello")));
    assert!(!goes_with(&system_at(0, "x"), &text_at(0, "Alice", "x")));
}

#[test]
fn higher_priority_message_and_its_star_stay() {
    let mut first = run(1_000, 5);
    first[2].starred = true;
    let mut second = run(1_030, 5);
    second[4].starred = true;
    let merged = merge(&vec![chat("one", first, &[]), chat("two", second, &[])]);
    assert_eq!(merged.messages.len(), 5);
    assert_eq!(merged.messages[2].timestamp, 1_120);
    assert!(merged.messages[2].starred);
    assert!(!merged.messages[4].starred);
    assert_eq!(merged.name, "one");
}

#[test]
fn toggling_a_star_changes_nothing_else() {
    let mut m = text_at(7, "Alice", "hi");
    m.position = 3;
    m.toggle_star();
    assert!(m.starred);
    assert_eq!(m.position, 3);
    assert_eq!(m.content, MessageContent::Text("hi".to_string()));
    m.toggle_star();
    assert!(!m.starred);
}
