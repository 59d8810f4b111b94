use chat_timeline::media::{classify, full_file_path, ResourceFile};
use chat_timeline::model::MediaKind;
use chat_timeline::text::{chars_of, find_first, normalize, string_of, to_lower, trim};

fn chars(s: &str) -> Vec<char> {
    s.chars().collect()
}

fn listing() -> Vec<ResourceFile> {
    vec![
        ResourceFile { name: "IMG-1.jpg".to_string(), path: "/r/IMG-1.jpg".to_string() },
        ResourceFile { name: "img-1.JPG".to_string(), path: "/r/second".to_string() },
        ResourceFile { name: "doc.pdf".to_string(), path: "/r/doc.pdf".to_string() },
    ]
}

#[test]
fn file_is_found_whatever_the_letter_case() {
    let dir = Some("/r".to_string());
    assert_eq!(full_file_path("img-1.jpg", &dir, &listing()), Some("/r/IMG-1.jpg".to_string()));
    assert_eq!(full_file_path("DOC.PDF", &dir, &listing()), Some("/r/doc.pdf".to_string()));
    assert_eq!(full_file_path("missing.png", &dir, &listing()), None);
    assert_eq!(full_file_path("IMG-1.jp", &dir, &listing()), None);
}

#[test]
fn nothing_is_found_without_a_directory() {
    assert_eq!(full_file_path("doc.pdf", &None, &listing()), None);
    assert_eq!(full_file_path("doc.pdf", &Some("/r".to_string()), &Vec::new()), None);
}

#[test]
fn kinds_follow_the_extension_tables() {
    assert_eq!(classify(&chars("a.png")), MediaKind::Photo);
    assert_eq!(classify(&chars("a.TIFF")), MediaKind::Photo);
    assert_eq!(classify(&chars("clip.WebM")), MediaKind::Video);
    assert_eq!(classify(&chars("voice.opus")), MediaKind::Audio);
    assert_eq!(classify(&chars("song.mp3")), MediaKind::Audio);
    assert_eq!(classify(&chars("paper.pdf")), MediaKind::Other);
    assert_eq!(classify(&chars("")), MediaKind::Other);
    assert_eq!(classify(&chars("mp4")), MediaKind::Video);
}

#[test]
fn text_helpers_agree_with_their_names() {
    assert_eq!(chars_of("héllo"), chars("héllo"));
    assert_eq!(string_of(&chars("héllo")), "héllo");
    assert_eq!(trim(&chars(" \t a b\u{a0}\n")), chars("a b"));
    assert_eq!(trim(&chars("   ")), chars(""));
    assert_eq!(normalize(&chars(" \u{200e} x\u{200e}y ")), chars("xy"));
    assert_eq!(to_lower(&chars("AbC-É")), chars("abc-É"));
    assert_eq!(find_first(&chars("a: b: c"), &chars(": ")), Some(1));
    assert_eq!(find_first(&chars("abc"), &chars("cd")), None);
    assert_eq!(find_first(&chars("abc"), &chars("")), Some(0));
}
