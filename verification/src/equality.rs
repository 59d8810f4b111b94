//! When two messages count as the same real-world message.
//!
//! The relation is deliberately loose: two exports of one conversation may
//! disagree on the clock and on which attachments they carry. It is
//! symmetric and reflexive, but not transitive.

use vstd::prelude::*;
use crate::model::{
    opt_chars, ContentModel, Media, MediaModel, Message, MessageContent, MessageModel,
};

verus! {

/// Two time stamps further apart than this many seconds are never the same
/// message: twelve hours.
pub const EQUALITY_WINDOW: i64 = 43_200;

/// The distance between two points in time.
pub open spec fn time_distance(a: int, b: int) -> int {
    if a >= b {
        a - b
    } else {
        b - a
    }
}

/// Two attachments may be one: captions agree where both have one, and kinds
/// agree where both files were found.
pub open spec fn media_matches(a: MediaModel, b: MediaModel) -> bool {
    &&& (a.caption is Some && b.caption is Some ==> a.caption == b.caption)
    &&& (a.resolved_path is Some && b.resolved_path is Some ==> a.kind == b.kind)
}

/// Contents of the same variant that agree: text and system events exactly,
/// attachments as `media_matches` says.
pub open spec fn content_matches(a: ContentModel, b: ContentModel) -> bool {
    match (a, b) {
        (ContentModel::Text(x), ContentModel::Text(y)) => x == y,
        (ContentModel::Media(x), ContentModel::Media(y)) => media_matches(x, y),
        (ContentModel::System(x), ContentModel::System(y)) => x == y,
        _ => false,
    }
}

/// The equality that deduplication and alignment use: same sender, matching
/// content, and time stamps at most `EQUALITY_WINDOW` apart.
pub open spec fn same_message(a: MessageModel, b: MessageModel) -> bool {
    &&& a.sender == b.sender
    &&& content_matches(a.content, b.content)
    &&& time_distance(a.timestamp, b.timestamp) <= EQUALITY_WINDOW
}

/// The distance between two time stamps is at most `limit`.
pub fn within(a: i64, b: i64, limit: i64) -> (r: bool)
    ensures
        r == (time_distance(a as int, b as int) <= limit),
{
    let d: i128 = if a >= b {
        a as i128 - b as i128
    } else {
        b as i128 - a as i128
    };
    d <= limit as i128
}

/// Whether two strings hold the same text.
pub fn same_text(a: &String, b: &String) -> (r: bool)
    ensures
        r == (a@ == b@),
{
    *a == *b
}

/// Whether two optional strings are both absent or hold the same text.
pub fn same_opt(a: &Option<String>, b: &Option<String>) -> (r: bool)
    ensures
        r == (opt_chars(*a) == opt_chars(*b)),
{
    match (a, b) {
        (Some(x), Some(y)) => same_text(x, y),
        (None, None) => true,
        _ => false,
    }
}

impl Media {
    /// Whether two attachments may be one and the same.
    pub fn matches(&self, other: &Media) -> (r: bool)
        ensures
            r == media_matches(self@, other@),
    {
        if self.caption.is_some() && other.caption.is_some() {
            if !same_opt(&self.caption, &other.caption) {
                return false;
            }
        }
        if self.resolved_path.is_none() || other.resolved_path.is_none() {
            return true;
        }
        self.kind == other.kind
    }
}

impl MessageContent {
    /// Whether two contents are of the same variant and agree.
    pub fn matches(&self, other: &MessageContent) -> (r: bool)
        ensures
            r == content_matches(self@, other@),
    {
        match (self, other) {
            (MessageContent::Text(x), MessageContent::Text(y)) => same_text(x, y),
            (MessageContent::Media(x), MessageContent::Media(y)) => x.matches(y),
            (MessageContent::System(x), MessageContent::System(y)) => same_text(x, y),
            _ => false,
        }
    }
}

impl Message {
    /// Whether `self` and `other` count as the same message.
    pub fn matches(&self, other: &Message) -> (r: bool)
        ensures
            r == same_message(self@, other@),
    {
        if !within(self.timestamp, other.timestamp, EQUALITY_WINDOW) {
            return false;
        }
        same_opt(&self.sender, &other.sender) && self.content.matches(&other.content)
    }
}

/// A message is the same as itself.
pub proof fn same_message_reflexive(a: MessageModel)
    ensures
        same_message(a, a),
{
}

/// If `a` is the same as `b`, then `b` is the same as `a`.
pub proof fn same_message_symmetric(a: MessageModel, b: MessageModel)
    ensures
        same_message(a, b) == same_message(b, a),
{
}

/// Two messages that differ in nothing but the time are the same exactly
/// when the times are at most twelve hours apart: 43 199 seconds is inside
/// the window, 43 201 seconds is outside.
pub proof fn equality_window(a: MessageModel, b: MessageModel)
    requires
        a.sender == b.sender,
        a.content == b.content,
    ensures
        same_message(a, b) <==> time_distance(a.timestamp, b.timestamp) <= 43_200,
        time_distance(a.timestamp, b.timestamp) == 43_199 ==> same_message(a, b),
        time_distance(a.timestamp, b.timestamp) == 43_201 ==> !same_message(a, b),
{
}

/// Messages that are the same have content of the same variant.
pub proof fn same_message_same_variant(a: MessageModel, b: MessageModel)
    requires
        same_message(a, b),
    ensures
        a.content.is_media() == b.content.is_media(),
{
}

} // verus!
