//! A deduplicated, chronologically ordered message timeline built from
//! plain-text chat export transcripts.
//!
//! The library has two parts. The parser (`parser`, over the line grammar
//! in `grammar`) turns the text of one export into typed messages. The
//! merge engine (`merge`, over `anchor` and `reconcile`) folds several
//! exports of one conversation into a single sequence in which no message
//! stands twice; `retention` states what it never loses. Both rest on the
//! equality of messages in `equality`. `projection` and `statistics` hold
//! read-only views of a chat for a viewer.
//!
//! Every function is specified over the models in `model`: strings as
//! sequences of characters, time stamps as integers, messages as plain
//! values.

pub mod anchor;
pub mod equality;
pub mod grammar;
pub mod media;
pub mod merge;
pub mod model;
pub mod order;
pub mod parser;
pub mod projection;
pub mod reconcile;
pub mod retention;
pub mod statistics;
pub mod text;
pub mod timestamp;

pub use crate::media::{ResourceDirectory, ResourceFile};
pub use crate::merge::{merge, merge_with_report, MergeOutcome};
pub use crate::model::{Media, MediaKind, Message, MessageContent, ParsedChat};
pub use crate::parser::{parse, ParseError, ParseOutcome};
