//! The data of a chat timeline, and the mathematical model of each type.
//!
//! Contracts throughout the crate speak of the models: a string is read as
//! its sequence of characters, a time stamp as an integer number of seconds.

use vstd::prelude::*;

verus! {

/// What kind of attachment a media message carries, by file extension.
#[derive(Clone, Copy, Debug, PartialEq, Eq, Structural)]
pub enum MediaKind {
    Photo,
    Video,
    Audio,
    Other,
}

/// An attachment: its kind, where the file was found, and its caption.
#[derive(Debug, PartialEq, Eq)]
pub struct Media {
    pub kind: MediaKind,
    /// Set only when a resource directory was given and holds the file.
    pub resolved_path: Option<String>,
    pub caption: Option<String>,
}

/// What a message says.
#[derive(Debug, PartialEq, Eq)]
pub enum MessageContent {
    Text(String),
    Media(Media),
    /// An event without a sender delimiter, such as a membership change.
    System(String),
}

/// One message of a timeline.
#[derive(Debug, PartialEq, Eq)]
pub struct Message {
    /// Seconds since 1970-01-01 00:00:00, read as naive local time.
    pub timestamp: i64,
    pub sender: Option<String>,
    pub content: MessageContent,
    pub starred: bool,
    /// Index of the message in the timeline that holds it.
    pub position: usize,
}

/// A parsed or merged chat.
#[derive(Debug, PartialEq, Eq)]
pub struct ParsedChat {
    pub messages: Vec<Message>,
    pub resource_directories: Vec<String>,
    pub name: String,
}

/// The model of a `Media`.
pub struct MediaModel {
    pub kind: MediaKind,
    pub resolved_path: Option<Seq<char>>,
    pub caption: Option<Seq<char>>,
}

/// The model of a `MessageContent`.
pub enum ContentModel {
    Text(Seq<char>),
    Media(MediaModel),
    System(Seq<char>),
}

/// The model of a `Message`.
pub struct MessageModel {
    pub timestamp: int,
    pub sender: Option<Seq<char>>,
    pub content: ContentModel,
    pub starred: bool,
    pub position: int,
}

/// The model of a `ParsedChat`.
pub struct ChatModel {
    pub messages: Seq<MessageModel>,
    pub resource_directories: Seq<Seq<char>>,
    pub name: Seq<char>,
}

/// The model of an optional string.
pub open spec fn opt_chars(s: Option<String>) -> Option<Seq<char>> {
    match s {
        Some(t) => Some(t@),
        None => None,
    }
}

/// The models of a sequence of strings.
pub open spec fn names_of(s: Seq<String>) -> Seq<Seq<char>> {
    s.map_values(|t: String| t@)
}

/// The models of a sequence of messages.
pub open spec fn models_of(s: Seq<Message>) -> Seq<MessageModel> {
    s.map_values(|m: Message| m@)
}

impl View for Media {
    type V = MediaModel;

    open spec fn view(&self) -> MediaModel {
        MediaModel {
            kind: self.kind,
            resolved_path: opt_chars(self.resolved_path),
            caption: opt_chars(self.caption),
        }
    }
}

impl View for MessageContent {
    type V = ContentModel;

    open spec fn view(&self) -> ContentModel {
        match self {
            MessageContent::Text(t) => ContentModel::Text(t@),
            MessageContent::Media(m) => ContentModel::Media(m@),
            MessageContent::System(t) => ContentModel::System(t@),
        }
    }
}

impl View for Message {
    type V = MessageModel;

    open spec fn view(&self) -> MessageModel {
        MessageModel {
            timestamp: self.timestamp as int,
            sender: opt_chars(self.sender),
            content: self.content@,
            starred: self.starred,
            position: self.position as int,
        }
    }
}

impl View for ParsedChat {
    type V = ChatModel;

    open spec fn view(&self) -> ChatModel {
        ChatModel {
            messages: models_of(self.messages@),
            resource_directories: names_of(self.resource_directories@),
            name: self.name@,
        }
    }
}

impl ContentModel {
    /// Whether the content is an attachment.
    pub open spec fn is_media(self) -> bool {
        self is Media
    }
}

impl ChatModel {
    /// What holds of every chat that the library makes: each message
    /// stands at the position that it records, and no resource directory
    /// is named twice.
    pub open spec fn well_formed(self) -> bool {
        positions_in_order(self.messages) && self.resource_directories.no_duplicates()
    }
}

impl MessageModel {
    /// The same message at another position.
    pub open spec fn at_position(self, position: int) -> MessageModel {
        MessageModel { position, ..self }
    }

    /// The same message with its star set to `starred`.
    pub open spec fn with_star(self, starred: bool) -> MessageModel {
        MessageModel { starred, ..self }
    }
}

/// Whether every message stands at the position that it records.
pub open spec fn positions_in_order(s: Seq<MessageModel>) -> bool {
    forall|i: int| 0 <= i < s.len() ==> (#[trigger] s[i]).position == i
}

/// Whether the time stamps never go down.
pub open spec fn chronological(s: Seq<MessageModel>) -> bool {
    forall|i: int, j: int| 0 <= i <= j < s.len() ==> s[i].timestamp <= s[j].timestamp
}

/// `s` with each message's position set to its index.
pub open spec fn renumbered(s: Seq<MessageModel>) -> Seq<MessageModel> {
    Seq::new(s.len(), |i: int| s[i].at_position(i))
}

/// A copy of an optional string.
pub fn copy_opt(s: &Option<String>) -> (r: Option<String>)
    ensures
        opt_chars(r) == opt_chars(*s),
{
    match s {
        Some(t) => Some(t.clone()),
        None => None,
    }
}

impl Clone for Media {
    fn clone(&self) -> (r: Media)
        ensures
            r@ == self@,
    {
        Media {
            kind: self.kind,
            resolved_path: copy_opt(&self.resolved_path),
            caption: copy_opt(&self.caption),
        }
    }
}

impl Clone for MessageContent {
    fn clone(&self) -> (r: MessageContent)
        ensures
            r@ == self@,
    {
        match self {
            MessageContent::Text(t) => MessageContent::Text(t.clone()),
            MessageContent::Media(m) => MessageContent::Media(m.clone()),
            MessageContent::System(t) => MessageContent::System(t.clone()),
        }
    }
}

impl Clone for Message {
    fn clone(&self) -> (r: Message)
        ensures
            r@ == self@,
    {
        Message {
            timestamp: self.timestamp,
            sender: copy_opt(&self.sender),
            content: self.content.clone(),
            starred: self.starred,
            position: self.position,
        }
    }
}

impl Clone for ParsedChat {
    fn clone(&self) -> (r: ParsedChat)
        ensures
            r@ == self@,
    {
        let mut messages: Vec<Message> = Vec::new();
        let mut i: usize = 0;
        while i < self.messages.len()
            invariant
                i <= self.messages.len(),
                models_of(messages@) =~= models_of(self.messages@).take(i as int),
            decreases self.messages.len() - i,
        {
            let copy = self.messages[i].clone();
            let ghost so_far = models_of(messages@);
            messages.push(copy);
            assert(models_of(messages@) =~= so_far.push(copy@));
            assert(models_of(self.messages@).take(i + 1) =~= so_far.push(copy@));
            i += 1;
        }
        let mut directories: Vec<String> = Vec::new();
        let mut k: usize = 0;
        while k < self.resource_directories.len()
            invariant
                k <= self.resource_directories.len(),
                names_of(directories@) =~= names_of(self.resource_directories@).take(k as int),
            decreases self.resource_directories.len() - k,
        {
            let copy = self.resource_directories[k].clone();
            let ghost so_far = names_of(directories@);
            directories.push(copy);
            assert(names_of(directories@) =~= so_far.push(copy@));
            assert(names_of(self.resource_directories@).take(k + 1) =~= so_far.push(copy@));
            k += 1;
        }
        assert(models_of(self.messages@).take(self.messages@.len() as int) =~= models_of(
            self.messages@,
        ));
        assert(names_of(self.resource_directories@).take(self.resource_directories@.len() as int)
            =~= names_of(self.resource_directories@));
        ParsedChat { messages, resource_directories: directories, name: self.name.clone() }
    }
}

impl Message {
    /// Flips the star of the message and leaves the rest as it is.
    pub fn toggle_star(&mut self)
        ensures
            final(self)@ == old(self)@.with_star(!old(self).starred),
    {
        self.starred = !self.starred;
    }

    /// Whether the message is an attachment.
    pub fn is_media(&self) -> (r: bool)
        ensures
            r == self@.content.is_media(),
    {
        match &self.content {
            MessageContent::Media(_) => true,
            _ => false,
        }
    }
}

/// The list of names with `name` in it: added at the end if it is new.
pub open spec fn remembered(names: Seq<Seq<char>>, name: Seq<char>) -> Seq<Seq<char>> {
    if names.contains(name) {
        names
    } else {
        names.push(name)
    }
}

/// A list that took a name in holds that name and what it held, and
/// nothing else; if its names were all different, they still are.
pub proof fn lemma_remembered(names: Seq<Seq<char>>, name: Seq<char>)
    ensures
        forall|other: Seq<char>|
            #[trigger] remembered(names, name).contains(other) <==> names.contains(other) || other
                == name,
        names.no_duplicates() ==> remembered(names, name).no_duplicates(),
{
    let out = remembered(names, name);
    assert forall|other: Seq<char>| #[trigger] out.contains(other) <==> names.contains(other)
        || other == name by {
        if names.contains(other) && !names.contains(name) {
            let w = choose|w: int| 0 <= w < names.len() && names[w] == other;
            assert(out[w] == other);
        }
        if other == name && !names.contains(name) {
            assert(out[names.len() as int] == name);
        }
        if out.contains(other) && !names.contains(name) {
            let w = choose|w: int| 0 <= w < out.len() && out[w] == other;
            if w < names.len() {
                assert(names[w] == other);
            }
        }
    }
}

/// Puts `name` at the end of the list unless it is there.
pub fn remember(senders: &mut Vec<String>, name: &String)
    ensures
        names_of(final(senders)@) == remembered(names_of(old(senders)@), name@),
{
    let ghost before = names_of(senders@);
    let mut i: usize = 0;
    while i < senders.len()
        invariant
            i <= senders.len(),
            before == names_of(senders@),
            forall|k: int| 0 <= k < i ==> before[k] != name@,
        decreases senders.len() - i,
    {
        assert(before[i as int] == senders@[i as int]@);
        if senders[i] == *name {
            assert(before.contains(name@));
            return ;
        }
        i += 1;
    }
    assert(!before.contains(name@));
    senders.push(name.clone());
    assert(names_of(senders@) =~= before.push(name@));
}

} // verus!
