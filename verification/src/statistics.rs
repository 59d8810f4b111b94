//! How many messages of each kind each sender has sent.

use vstd::prelude::*;
use crate::model::{
    lemma_remembered, models_of, remembered, ContentModel, MediaKind, Message, MessageContent,
    MessageModel, ParsedChat,
};

verus! {

/// The kinds of message that are counted apart.
#[derive(Clone, Copy, Debug, PartialEq, Eq, Structural)]
pub enum Category {
    Text,
    System,
    Photo,
    Video,
    Audio,
    Other,
}

/// How many attachments of each kind.
#[derive(Clone, Copy, Debug, PartialEq, Eq, Structural)]
pub struct MediaTypeCount {
    pub photo: u64,
    pub video: u64,
    pub audio: u64,
    pub other: u64,
}

/// How many messages of each kind.
#[derive(Clone, Copy, Debug, PartialEq, Eq, Structural)]
pub struct MessageTypeCount {
    pub text: u64,
    pub media: MediaTypeCount,
    pub system: u64,
}

/// The counts of one sender.
#[derive(Debug, PartialEq, Eq)]
pub struct SenderCount {
    pub sender: String,
    pub count: MessageTypeCount,
}

/// The category of a content.
pub open spec fn category_of(content: ContentModel) -> Category {
    match content {
        ContentModel::Text(_) => Category::Text,
        ContentModel::System(_) => Category::System,
        ContentModel::Media(m) => match m.kind {
            MediaKind::Photo => Category::Photo,
            MediaKind::Video => Category::Video,
            MediaKind::Audio => Category::Audio,
            MediaKind::Other => Category::Other,
        },
    }
}

/// Whether `m` is a message of `sender` in `category`.
pub open spec fn counts_for(m: MessageModel, sender: Seq<char>, category: Category) -> bool {
    m.sender == Some(sender) && category_of(m.content) == category
}

/// The number of messages of `sender` in `category`.
pub open spec fn count_of(messages: Seq<MessageModel>, sender: Seq<char>, category: Category) -> nat
    decreases messages.len(),
{
    if messages.len() == 0 {
        0
    } else {
        count_of(messages.drop_last(), sender, category) + if counts_for(
            messages.last(),
            sender,
            category,
        ) {
            1nat
        } else {
            0nat
        }
    }
}

/// The senders of `messages`, each once, in the order in which they first
/// send.
pub open spec fn speakers(messages: Seq<MessageModel>) -> Seq<Seq<char>>
    decreases messages.len(),
{
    if messages.len() == 0 {
        Seq::empty()
    } else {
        match messages.last().sender {
            Some(s) => remembered(speakers(messages.drop_last()), s),
            None => speakers(messages.drop_last()),
        }
    }
}

impl MessageTypeCount {
    /// The count of one category.
    pub open spec fn of(self, category: Category) -> nat {
        match category {
            Category::Text => self.text as nat,
            Category::System => self.system as nat,
            Category::Photo => self.media.photo as nat,
            Category::Video => self.media.video as nat,
            Category::Audio => self.media.audio as nat,
            Category::Other => self.media.other as nat,
        }
    }

    /// Whether these are the counts of `sender` in `messages`.
    pub open spec fn tallies(self, messages: Seq<MessageModel>, sender: Seq<char>) -> bool {
        forall|category: Category| self.of(category) == #[trigger] count_of(messages, sender, category)
    }

    /// No message of any kind.
    pub fn zero() -> (r: MessageTypeCount)
        ensures
            forall|category: Category| r.of(category) == 0,
    {
        MessageTypeCount {
            text: 0,
            media: MediaTypeCount { photo: 0, video: 0, audio: 0, other: 0 },
            system: 0,
        }
    }

    /// One more message of `category`.
    pub fn bump(&mut self, category: Category)
        requires
            old(self).of(category) < u64::MAX,
        ensures
            final(self).of(category) == old(self).of(category) + 1,
            forall|other: Category| other != category ==> final(self).of(other) == old(self).of(other),
    {
        match category {
            Category::Text => {
                self.text = self.text + 1;
            },
            Category::System => {
                self.system = self.system + 1;
            },
            Category::Photo => {
                self.media.photo = self.media.photo + 1;
            },
            Category::Video => {
                self.media.video = self.media.video + 1;
            },
            Category::Audio => {
                self.media.audio = self.media.audio + 1;
            },
            Category::Other => {
                self.media.other = self.media.other + 1;
            },
        }
    }
}

/// The category of a message.
pub fn categorize(m: &Message) -> (r: Category)
    ensures
        r == category_of(m@.content),
{
    match &m.content {
        MessageContent::Text(_) => Category::Text,
        MessageContent::System(_) => Category::System,
        MessageContent::Media(media) => match media.kind {
            MediaKind::Photo => Category::Photo,
            MediaKind::Video => Category::Video,
            MediaKind::Audio => Category::Audio,
            MediaKind::Other => Category::Other,
        },
    }
}

/// The senders of a list of counts.
pub open spec fn counted_senders(counts: Seq<SenderCount>) -> Seq<Seq<char>> {
    counts.map_values(|c: SenderCount| c.sender@)
}

/// Whether `counts` is the statistics of `messages`: one entry for each
/// sender, in the order in which they first send, with the number of that
/// sender's messages in each category.
pub open spec fn is_statistics(counts: Seq<SenderCount>, messages: Seq<MessageModel>) -> bool {
    &&& counted_senders(counts) == speakers(messages)
    &&& forall|k: int|
        0 <= k < counts.len() ==> (#[trigger] counts[k]).count.tallies(messages, counts[k].sender@)
}

/// No count is larger than the number of messages.
pub proof fn lemma_count_bounded(messages: Seq<MessageModel>, sender: Seq<char>, category: Category)
    ensures
        count_of(messages, sender, category) <= messages.len(),
    decreases messages.len(),
{
    if messages.len() > 0 {
        lemma_count_bounded(messages.drop_last(), sender, category);
    }
}

/// A sender who is not among the speakers has sent nothing.
pub proof fn lemma_silent(messages: Seq<MessageModel>, sender: Seq<char>, category: Category)
    requires
        !speakers(messages).contains(sender),
    ensures
        count_of(messages, sender, category) == 0,
    decreases messages.len(),
{
    if messages.len() > 0 {
        let before = speakers(messages.drop_last());
        match messages.last().sender {
            Some(s) => {
                lemma_remembered(before, s);
                if before.contains(sender) {
                    let w = choose|w: int| 0 <= w < before.len() && before[w] == sender;
                    assert(remembered(before, s)[w] == sender);
                }
            },
            None => {},
        }
        lemma_silent(messages.drop_last(), sender, category);
    }
}

/// The speakers are all different.
pub proof fn lemma_speakers_distinct(messages: Seq<MessageModel>)
    ensures
        speakers(messages).no_duplicates(),
    decreases messages.len(),
{
    if messages.len() > 0 {
        lemma_speakers_distinct(messages.drop_last());
        if let Some(s) = messages.last().sender {
            lemma_remembered(speakers(messages.drop_last()), s);
        }
    }
}

/// The index of the entry of `sender` in `counts`.
fn entry_of(counts: &Vec<SenderCount>, sender: &String) -> (r: Option<usize>)
    ensures
        match r {
            Some(k) => k < counts.len() && counts@[k as int].sender@ == sender@,
            None => !counted_senders(counts@).contains(sender@),
        },
{
    let mut k: usize = 0;
    while k < counts.len()
        invariant
            k <= counts.len(),
            forall|u: int| 0 <= u < k ==> counted_senders(counts@)[u] != sender@,
        decreases counts.len() - k,
    {
        if counts[k].sender == *sender {
            return Some(k);
        }
        k += 1;
    }
    None
}

/// Counts the messages of `chat` by sender and kind. Messages without a
/// sender are not counted.
pub fn count_by_sender(chat: &ParsedChat) -> (r: Vec<SenderCount>)
    ensures
        is_statistics(r@, chat@.messages),
        counted_senders(r@).no_duplicates(),
{
    let ghost all = chat@.messages;
    let mut out: Vec<SenderCount> = Vec::new();
    let mut i: usize = 0;
    assert(counted_senders(out@) =~= speakers(all.take(0)));
    while i < chat.messages.len()
        invariant
            i <= chat.messages.len(),
            all == models_of(chat.messages@),
            is_statistics(out@, all.take(i as int)),
        decreases chat.messages.len() - i,
    {
        let m = &chat.messages[i];
        let ghost seen = all.take(i as int);
        let ghost next = all.take(i + 1);
        let ghost before = out@;
        proof {
            assert(next.drop_last() =~= seen);
            assert(next.last() == m@);
        }
        match &m.sender {
            None => {
                assert forall|k: int| 0 <= k < out@.len() implies (#[trigger] out@[k]).count.tallies(
                    next,
                    out@[k].sender@,
                ) by {
                    assert(out@[k].count.tallies(seen, out@[k].sender@));
                    assert forall|category: Category|
                        out@[k].count.of(category) == #[trigger] count_of(
                            next,
                            out@[k].sender@,
                            category,
                        ) by {
                        assert(count_of(next, out@[k].sender@, category) == count_of(
                            seen,
                            out@[k].sender@,
                            category,
                        ));
                    }
                }
            },
            Some(sender) => {
                let category = categorize(m);
                let at: usize = match entry_of(&out, sender) {
                    Some(k) => {
                        proof {
                            assert(counted_senders(before)[k as int] == sender@);
                            assert(speakers(seen).contains(sender@));
                        }
                        k
                    },
                    None => {
                        proof {
                            assert forall|c: Category| #[trigger] count_of(seen, sender@, c) == 0 by {
                                lemma_silent(seen, sender@, c);
                            }
                        }
                        out.push(
                            SenderCount { sender: sender.clone(), count: MessageTypeCount::zero() },
                        );
                        assert(counted_senders(out@) =~= counted_senders(before).push(sender@));
                        out.len() - 1
                    },
                };
                let ghost middle = out@;
                proof {
                    lemma_count_bounded(seen, sender@, category);
                    assert(counted_senders(middle) == speakers(next));
                    assert(middle[at as int].sender@ == sender@);
                    assert(middle[at as int].count.tallies(seen, sender@));
                    assert(middle[at as int].count.of(category) == count_of(seen, sender@, category));
                    lemma_speakers_distinct(next);
                }
                out[at].count.bump(category);
                proof {
                    assert(counted_senders(out@) =~= counted_senders(middle));
                    assert forall|k: int| 0 <= k < out@.len() implies (
                    #[trigger] out@[k]).count.tallies(next, out@[k].sender@) by {
                        let who = out@[k].sender@;
                        if k == at {
                            assert forall|c: Category|
                                out@[k].count.of(c) == #[trigger] count_of(next, who, c) by {
                                assert(count_of(seen, who, c) == middle[k].count.of(c));
                            }
                        } else {
                            assert(out@[k] == middle[k]);
                            assert(counted_senders(middle)[k] == who);
                            assert(counted_senders(middle)[at as int] == sender@);
                            assert(who != sender@);
                            if k < before.len() {
                                assert(middle[k] == before[k]);
                            }
                            assert(middle[k].count.tallies(seen, who));
                            assert forall|c: Category|
                                out@[k].count.of(c) == #[trigger] count_of(next, who, c) by {
                                assert(count_of(seen, who, c) == middle[k].count.of(c));
                            }
                        }
                    }
                }
            },
        }
        i += 1;
    }
    proof {
        assert(all.take(all.len() as int) =~= all);
        lemma_speakers_distinct(all);
    }
    out
}

} // verus!
