//! Read-only views of a chat for a viewer: search, stars, statistics and
//! summaries.

use vstd::prelude::*;
use crate::model::{
    models_of, ChatModel, ContentModel, Message, MessageContent, MessageModel, ParsedChat,
};
use crate::order::{earliest, latest};
use crate::text::{chars_of, find, find_first, lowercase_of, to_lowercase};

verus! {

/// The text of a message that a search looks through: its text, its
/// caption if it is an attachment with one, or the text of the event.
pub open spec fn searchable(content: ContentModel) -> Option<Seq<char>> {
    match content {
        ContentModel::Text(t) => Some(t),
        ContentModel::Media(m) => m.caption,
        ContentModel::System(t) => Some(t),
    }
}

/// Whether the message holds `needle`, which is in lower case, once its
/// own text is put in lower case.
pub open spec fn is_hit(m: MessageModel, needle: Seq<char>) -> bool {
    match searchable(m.content) {
        Some(t) => find(lowercase_of(t), needle) is Some,
        None => false,
    }
}

/// The positions of the messages that hold `needle`, in their order.
pub open spec fn hits(messages: Seq<MessageModel>, needle: Seq<char>) -> Seq<usize> {
    messages.filter(|m: MessageModel| is_hit(m, needle)).map_values(
        |m: MessageModel| m.position as usize,
    )
}

/// The starred messages, in their order.
pub open spec fn starred_of(messages: Seq<MessageModel>) -> Seq<MessageModel> {
    messages.filter(|m: MessageModel| m.starred)
}

/// The indices below `n` of the starred messages, in rising order.
pub open spec fn starred_indices(messages: Seq<MessageModel>, n: int) -> Seq<usize>
    decreases n,
{
    if n <= 0 {
        Seq::empty()
    } else if messages[n - 1].starred {
        starred_indices(messages, n - 1).push((n - 1) as usize)
    } else {
        starred_indices(messages, n - 1)
    }
}

fn holds_needle(text: &String, needle: &Vec<char>) -> (r: bool)
    ensures
        r == (find(lowercase_of(text@), needle@) is Some),
{
    let lower = to_lowercase(text.as_str());
    let hay = chars_of(lower.as_str());
    find_first(hay.as_slice(), needle.as_slice()).is_some()
}

/// Whether the message holds `needle` once its own text is put in lower
/// case.
pub fn message_holds(m: &Message, needle: &Vec<char>) -> (r: bool)
    ensures
        r == is_hit(m@, needle@),
{
    match &m.content {
        MessageContent::Text(t) => holds_needle(t, needle),
        MessageContent::Media(media) => match &media.caption {
            Some(caption) => holds_needle(caption, needle),
            None => false,
        },
        MessageContent::System(t) => holds_needle(t, needle),
    }
}

/// Searches the messages of `chat` for `query`, letter case aside, and
/// gives the positions of those that hold it.
pub fn search(chat: &ParsedChat, query: &str) -> (r: Vec<usize>)
    ensures
        r@ == hits(chat@.messages, lowercase_of(query@)),
{
    let lower = to_lowercase(query);
    let needle = chars_of(lower.as_str());
    let ghost all = chat@.messages;
    let ghost wanted = |m: MessageModel| is_hit(m, needle@);
    let ghost place = |m: MessageModel| m.position as usize;
    let mut out: Vec<usize> = Vec::new();
    let mut i: usize = 0;
    assert(all.take(0).filter(wanted) =~= Seq::empty());
    while i < chat.messages.len()
        invariant
            i <= chat.messages.len(),
            all == models_of(chat.messages@),
            wanted == |m: MessageModel| is_hit(m, needle@),
            place == |m: MessageModel| m.position as usize,
            out@ =~= all.take(i as int).filter(wanted).map_values(place),
        decreases chat.messages.len() - i,
    {
        proof {
            let next = all.take(i + 1);
            assert(next.drop_last() =~= all.take(i as int));
            assert(next.last() == chat.messages@[i as int]@);
            reveal_with_fuel(Seq::filter, 2);
        }
        if message_holds(&chat.messages[i], &needle) {
            out.push(chat.messages[i].position);
        }
        i += 1;
    }
    assert(all.take(all.len() as int) =~= all);
    out
}

/// Copies of the starred messages of `chat`, in their order.
pub fn starred_messages(chat: &ParsedChat) -> (r: Vec<Message>)
    ensures
        models_of(r@) == starred_of(chat@.messages),
{
    let ghost all = chat@.messages;
    let ghost wanted = |m: MessageModel| m.starred;
    let mut out: Vec<Message> = Vec::new();
    let mut i: usize = 0;
    assert(all.take(0).filter(wanted) =~= Seq::empty());
    while i < chat.messages.len()
        invariant
            i <= chat.messages.len(),
            all == models_of(chat.messages@),
            wanted == |m: MessageModel| m.starred,
            models_of(out@) =~= all.take(i as int).filter(wanted),
        decreases chat.messages.len() - i,
    {
        proof {
            let next = all.take(i + 1);
            assert(next.drop_last() =~= all.take(i as int));
            assert(next.last() == chat.messages@[i as int]@);
            reveal_with_fuel(Seq::filter, 2);
        }
        if chat.messages[i].starred {
            out.push(chat.messages[i].clone());
        }
        i += 1;
    }
    assert(all.take(all.len() as int) =~= all);
    out
}

/// The indices of the starred messages of `chat`, in rising order.
pub fn starred_positions(chat: &ParsedChat) -> (r: Vec<usize>)
    ensures
        r@ == starred_indices(chat@.messages, chat@.messages.len() as int),
{
    let ghost all = chat@.messages;
    let mut out: Vec<usize> = Vec::new();
    let mut i: usize = 0;
    while i < chat.messages.len()
        invariant
            i <= chat.messages.len(),
            all == models_of(chat.messages@),
            out@ =~= starred_indices(all, i as int),
        decreases chat.messages.len() - i,
    {
        if chat.messages[i].starred {
            out.push(i);
        }
        i += 1;
    }
    out
}

/// Why a star could not be toggled.
#[derive(Clone, Copy, Debug, PartialEq, Eq, Structural)]
pub enum StarError {
    /// The chat has no message at that index.
    NoSuchMessage,
}

impl StarError {
    /// The error in words.
    pub fn message(&self) -> (r: String)
        ensures
            r@ == "No message exists at that index"@,
    {
        String::from_str("No message exists at that index")
    }
}

/// Stars the message at `index` if it has no star, and takes the star
/// away if it has one. Nothing else changes.
pub fn star_message(chat: &mut ParsedChat, index: usize) -> (r: Result<(), StarError>)
    ensures
        match r {
            Ok(()) => index < old(chat)@.messages.len() && final(chat)@ == (ChatModel {
                messages: old(chat)@.messages.update(
                    index as int,
                    old(chat)@.messages[index as int].with_star(
                        !old(chat)@.messages[index as int].starred,
                    ),
                ),
                ..old(chat)@
            }),
            Err(e) => index >= old(chat)@.messages.len() && final(chat)@ == old(chat)@,
        },
{
    if index >= chat.messages.len() {
        return Err(StarError::NoSuchMessage);
    }
    let ghost before = chat@.messages;
    chat.messages[index].toggle_star();
    assert(chat@.messages =~= before.update(
        index as int,
        before[index as int].with_star(!before[index as int].starred),
    ));
    Ok(())
}

/// What a viewer shows of a chat before it is opened.
#[derive(Debug, PartialEq, Eq)]
pub struct ChatSummary {
    pub name: String,
    /// When the earliest message was sent; `None` only for an empty chat.
    pub first_sent: Option<i64>,
    /// When the latest message was sent; `None` only for an empty chat.
    pub last_sent: Option<i64>,
    /// The message at the end of the chat; `None` only for an empty chat.
    pub last_message: Option<Message>,
    pub number_of_messages: usize,
    pub starred: Vec<Message>,
}

/// Whether `t` is the least time stamp of `messages`, where there is a
/// message, and `None` where there is none.
pub open spec fn is_earliest(messages: Seq<MessageModel>, t: Option<i64>) -> bool {
    match t {
        Some(v) => {
            &&& exists|k: int| 0 <= k < messages.len() && (#[trigger] messages[k]).timestamp == v
            &&& forall|k: int| 0 <= k < messages.len() ==> (#[trigger] messages[k]).timestamp >= v
        },
        None => messages.len() == 0,
    }
}

/// Whether `t` is the greatest time stamp of `messages`, where there is a
/// message, and `None` where there is none.
pub open spec fn is_latest(messages: Seq<MessageModel>, t: Option<i64>) -> bool {
    match t {
        Some(v) => {
            &&& exists|k: int| 0 <= k < messages.len() && (#[trigger] messages[k]).timestamp == v
            &&& forall|k: int| 0 <= k < messages.len() ==> (#[trigger] messages[k]).timestamp <= v
        },
        None => messages.len() == 0,
    }
}

/// The last message, where there is one.
pub open spec fn last_of(messages: Seq<MessageModel>) -> Option<MessageModel> {
    if messages.len() > 0 {
        Some(messages.last())
    } else {
        None
    }
}

/// The model of an optional message.
pub open spec fn opt_model(m: Option<Message>) -> Option<MessageModel> {
    match m {
        Some(x) => Some(x@),
        None => None,
    }
}

/// Sums a chat up: its name, the span of time that it covers, its last
/// message, its size and its starred messages.
pub fn summarize(chat: &ParsedChat) -> (r: ChatSummary)
    ensures
        r.name@ == chat@.name,
        is_earliest(chat@.messages, r.first_sent),
        is_latest(chat@.messages, r.last_sent),
        opt_model(r.last_message) == last_of(chat@.messages),
        r.number_of_messages == chat@.messages.len(),
        models_of(r.starred@) == starred_of(chat@.messages),
{
    let count: usize = chat.messages.len();
    let ghost all = chat@.messages;
    if count == 0 {
        return ChatSummary {
            name: chat.name.clone(),
            first_sent: None,
            last_sent: None,
            last_message: None,
            number_of_messages: 0,
            starred: starred_messages(chat),
        };
    }
    let first = earliest(&chat.messages);
    let last = latest(&chat.messages);
    proof {
        let x = choose|k: int|
            0 <= k < chat.messages.len() && (#[trigger] chat.messages@[k]).timestamp == first;
        assert(all[x].timestamp == first);
        let y = choose|k: int|
            0 <= k < chat.messages.len() && (#[trigger] chat.messages@[k]).timestamp == last;
        assert(all[y].timestamp == last);
        assert forall|k: int| 0 <= k < all.len() implies (#[trigger] all[k]).timestamp >= first by {
            assert(chat.messages@[k].timestamp >= first);
        }
        assert forall|k: int| 0 <= k < all.len() implies (#[trigger] all[k]).timestamp <= last by {
            assert(chat.messages@[k].timestamp <= last);
        }
    }
    ChatSummary {
        name: chat.name.clone(),
        first_sent: Some(first),
        last_sent: Some(last),
        last_message: Some(chat.messages[count - 1].clone()),
        number_of_messages: count,
        starred: starred_messages(chat),
    }
}

/// The index of the first name that stands in the list before as well.
/// Chats are told apart by their names, so a list of chats to load must
/// give `None` here.
pub fn first_repeated(names: &Vec<String>) -> (r: Option<usize>)
    ensures
        match r {
            Some(k) => {
                &&& k < names.len()
                &&& exists|u: int| 0 <= u < k && #[trigger] names@[u]@ == names@[k as int]@
                &&& forall|a: int, b: int|
                    0 <= a < b < k ==> #[trigger] names@[a]@ != #[trigger] names@[b]@
            },
            None => forall|a: int, b: int|
                0 <= a < b < names.len() ==> #[trigger] names@[a]@ != #[trigger] names@[b]@,
        },
{
    let mut k: usize = 0;
    while k < names.len()
        invariant
            k <= names.len(),
            forall|a: int, b: int| 0 <= a < b < k ==> #[trigger] names@[a]@ != #[trigger] names@[b]@,
        decreases names.len() - k,
    {
        let mut u: usize = 0;
        while u < k
            invariant
                u <= k < names.len(),
                forall|a: int, b: int|
                    0 <= a < b < k ==> #[trigger] names@[a]@ != #[trigger] names@[b]@,
                forall|a: int| 0 <= a < u ==> #[trigger] names@[a]@ != names@[k as int]@,
            decreases k - u,
        {
            if names[u] == names[k] {
                return Some(k);
            }
            u += 1;
        }
        k += 1;
    }
    None
}

/// The colours of the viewer.
#[derive(Clone, Copy, Debug, PartialEq, Eq, Structural)]
pub enum Theme {
    Light,
    Dark,
    Unspecified,
}

/// The theme to start with: the saved one, or `wanted` where none was
/// saved.
pub fn initial_theme(saved: Theme, wanted: Theme) -> (r: Theme)
    ensures
        r == if saved == Theme::Unspecified {
            wanted
        } else {
            saved
        },
{
    match saved {
        Theme::Unspecified => wanted,
        _ => saved,
    }
}

} // verus!
