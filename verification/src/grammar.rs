//! The line grammar of an export, in its two variants.
//!
//! Both variants share their structure: a record starts with a time stamp,
//! then comes either `sender: content` or a system event. They differ in how
//! the time stamp is written and delimited.

use vstd::prelude::*;
use crate::media::{classify, kind_of, resolve, resolved, files_of, ResourceFile, ResourceFileModel};
use crate::model::{ContentModel, Media, MediaKind, MediaModel, MessageContent};
use crate::text::{
    chars_of, ends_with, find, find_first, has_prefix, has_suffix, same_chars, slice_of,
    starts_with, string_of, trim, trimmed,
};
use crate::timestamp::{BRACKETED_FORMAT, DASHED_FORMAT};

verus! {

/// Which of the two grammars a transcript is written in.
#[derive(Clone, Copy, Debug, PartialEq, Eq, Structural)]
pub enum FormatVariant {
    /// `[time stamp] sender: content`, seconds precision.
    Bracketed,
    /// `time stamp - sender: content`, minute precision.
    Dashed,
}

/// In the dashed grammar, the delimiter after the time stamp starts no later
/// than this index.
pub const DASH_LIMIT: usize = 19;

/// The variant of a transcript, by its first line that is not blank.
pub open spec fn detect(line: Seq<char>) -> FormatVariant {
    if line.len() > 0 && line[0] == '[' {
        FormatVariant::Bracketed
    } else {
        FormatVariant::Dashed
    }
}

/// The time-stamp format of a variant.
pub open spec fn format_of(variant: FormatVariant) -> Seq<char> {
    match variant {
        FormatVariant::Bracketed => BRACKETED_FORMAT@,
        FormatVariant::Dashed => DASHED_FORMAT@,
    }
}

/// What a line is, before its time stamp is read.
pub enum LineShape {
    /// The line carries on the record before it.
    Continuation,
    /// The line opens a bracketed time stamp that never closes.
    Unterminated,
    /// The line starts a record: the text of its time stamp, and what comes
    /// after the delimiter.
    Record { stamp: Seq<char>, rest: Seq<char> },
}

/// The shape of a line that is not blank.
pub open spec fn shape_of(variant: FormatVariant, line: Seq<char>) -> LineShape {
    match variant {
        FormatVariant::Bracketed => {
            if !(line.len() > 0 && line[0] == '[') {
                LineShape::Continuation
            } else {
                match find(line, "] "@) {
                    None => LineShape::Unterminated,
                    Some(end) => LineShape::Record {
                        stamp: line.subrange(1, end),
                        rest: line.subrange(end + "] "@.len(), line.len() as int),
                    },
                }
            }
        },
        FormatVariant::Dashed => {
            match find(line, "M - "@) {
                Some(dash) if dash <= DASH_LIMIT => LineShape::Record {
                    stamp: line.subrange(0, dash + 1),
                    rest: line.subrange(dash + "M - "@.len(), line.len() as int),
                },
                _ => LineShape::Continuation,
            }
        },
    }
}

/// The sender and the content of the remainder of a record, where it holds
/// the delimiter `": "`.
pub open spec fn split_sender(rest: Seq<char>) -> Option<(Seq<char>, Seq<char>)> {
    match find(rest, ": "@) {
        Some(colon) => Some(
            (rest.subrange(0, colon), rest.subrange(colon + ": "@.len(), rest.len() as int)),
        ),
        None => None,
    }
}

/// The file name inside an `<attached: name>` marker that starts at index
/// `at` of `body`: what follows the marker, without the closing `>`.
pub open spec fn attached_name(body: Seq<char>, at: int) -> Seq<char> {
    let from = at + "<attached: "@.len();
    if body.len() > from && body.last() == '>' {
        body.subrange(from, body.len() - 1)
    } else {
        body.subrange(from, body.len() as int)
    }
}

/// The file name before a trailing `(file attached)`.
pub open spec fn suffixed_name(body: Seq<char>) -> Seq<char> {
    trimmed(body.subrange(0, body.len() - "(file attached)"@.len()))
}

/// Text that exporters add on their own and that is not stored.
pub open spec fn is_boilerplate_text(body: Seq<char>) -> bool {
    ||| trimmed(body) == "null"@
    ||| starts_with(body, "Messages and calls are end-to-end encrypted"@)
}

/// System events that are not stored: changes of a chat's icon.
pub open spec fn is_suppressed_event(rest: Seq<char>) -> bool {
    ends_with(rest, "icon"@)
}

/// An attachment found by its file name.
pub open spec fn attachment(
    name: Seq<char>,
    has_directory: bool,
    files: Seq<ResourceFileModel>,
) -> ContentModel {
    ContentModel::Media(
        MediaModel {
            kind: kind_of(name),
            resolved_path: resolved(name, has_directory, files),
            caption: None,
        },
    )
}

/// The content that the part after `sender: ` stands for, or `None` where
/// it is boilerplate. Attachment markers are tried first, in this order:
/// `<attached: name>`, `<Media omitted`, a trailing `(file attached)`.
pub open spec fn content_of(
    body: Seq<char>,
    has_directory: bool,
    files: Seq<ResourceFileModel>,
) -> Option<
    ContentModel,
> {
    if let Some(at) = find(body, "<attached: "@) {
        Some(attachment(attached_name(body, at), has_directory, files))
    } else if find(body, "<Media omitted"@) is Some {
        Some(
            ContentModel::Media(
                MediaModel { kind: MediaKind::Other, resolved_path: None, caption: None },
            ),
        )
    } else if ends_with(body, "(file attached)"@) {
        Some(attachment(suffixed_name(body), has_directory, files))
    } else if is_boilerplate_text(body) {
        None
    } else {
        Some(ContentModel::Text(body))
    }
}

/// The first sender at or after index `from` of the vocabulary whose name
/// the text starts with.
pub open spec fn infer_sender_from(text: Seq<char>, senders: Seq<Seq<char>>, from: int) -> Option<
    Seq<char>,
>
    decreases senders.len() - from,
{
    if from < 0 || from >= senders.len() {
        None
    } else if starts_with(text, senders[from]) {
        Some(senders[from])
    } else {
        infer_sender_from(text, senders, from + 1)
    }
}

/// The sender of a system event: the first name of the vocabulary, in the
/// order in which the names were first seen, that the event starts with.
pub open spec fn infer_sender(text: Seq<char>, senders: Seq<Seq<char>>) -> Option<Seq<char>> {
    infer_sender_from(text, senders, 0)
}

/// The sender that is inferred is the first name of the vocabulary, from
/// `from` on, that the text starts with; none is inferred exactly where
/// the text starts with none of them.
pub proof fn inferred_sender_is_first(text: Seq<char>, senders: Seq<Seq<char>>, from: int)
    requires
        0 <= from,
    ensures
        match infer_sender_from(text, senders, from) {
            Some(name) => exists|k: int|
                {
                    &&& from <= k < senders.len()
                    &&& #[trigger] senders[k] == name
                    &&& starts_with(text, name)
                    &&& forall|u: int| from <= u < k ==> !starts_with(text, #[trigger] senders[u])
                },
            None => forall|u: int|
                from <= u < senders.len() ==> !starts_with(text, #[trigger] senders[u]),
        },
    decreases senders.len() - from,
{
    if from < senders.len() {
        if starts_with(text, senders[from]) {
            assert(senders[from] == infer_sender_from(text, senders, from)->0);
        } else {
            inferred_sender_is_first(text, senders, from + 1);
        }
    }
}

/// What `locate` found in a line, as indices into it.
#[derive(Clone, Copy, Debug, PartialEq, Eq)]
pub enum LineParts {
    Continuation,
    Unterminated,
    Record { stamp_from: usize, stamp_to: usize, rest_from: usize },
}

impl LineParts {
    /// The shape that these indices describe in `line`.
    pub open spec fn shape_in(self, line: Seq<char>) -> LineShape {
        match self {
            LineParts::Continuation => LineShape::Continuation,
            LineParts::Unterminated => LineShape::Unterminated,
            LineParts::Record { stamp_from, stamp_to, rest_from } => LineShape::Record {
                stamp: line.subrange(stamp_from as int, stamp_to as int),
                rest: line.subrange(rest_from as int, line.len() as int),
            },
        }
    }

    /// Whether the indices lie inside `line`, in rising order.
    pub open spec fn fits(self, line: Seq<char>) -> bool {
        match self {
            LineParts::Record { stamp_from, stamp_to, rest_from } => stamp_from <= stamp_to
                <= rest_from <= line.len(),
            _ => true,
        }
    }
}

/// The variant that a transcript starting with `line` is written in.
pub fn detect_variant(line: &[char]) -> (r: FormatVariant)
    ensures
        r == detect(line@),
{
    if line.len() > 0 && line[0] == '[' {
        FormatVariant::Bracketed
    } else {
        FormatVariant::Dashed
    }
}

/// Finds the time stamp and the remainder of a line.
pub fn locate(variant: FormatVariant, line: &[char]) -> (r: LineParts)
    ensures
        r.fits(line@),
        r.shape_in(line@) == shape_of(variant, line@),
{
    match variant {
        FormatVariant::Bracketed => {
            if !(line.len() > 0 && line[0] == '[') {
                return LineParts::Continuation;
            }
            let close = chars_of("] ");
            match find_first(line, close.as_slice()) {
                None => LineParts::Unterminated,
                Some(end) => {
                    proof {
                        reveal_strlit("] ");
                        if end == 0 {
                            assert(line@.subrange(0, 2)[0] == ']');
                        }
                    }
                    LineParts::Record {
                        stamp_from: 1,
                        stamp_to: end,
                        rest_from: end + close.len(),
                    }
                },
            }
        },
        FormatVariant::Dashed => {
            let dash_mark = chars_of("M - ");
            match find_first(line, dash_mark.as_slice()) {
                Some(dash) => {
                    if dash <= DASH_LIMIT {
                        proof {
                            reveal_strlit("M - ");
                        }
                        LineParts::Record {
                            stamp_from: 0,
                            stamp_to: dash + 1,
                            rest_from: dash + dash_mark.len(),
                        }
                    } else {
                        LineParts::Continuation
                    }
                },
                None => LineParts::Continuation,
            }
        },
    }
}

/// Where the sender ends and the content starts in the remainder of a
/// record, where it holds the delimiter `": "`.
pub fn locate_sender(rest: &[char]) -> (r: Option<(usize, usize)>)
    ensures
        match r {
            Some((sender_to, body_from)) => sender_to <= body_from <= rest.len() && split_sender(
                rest@,
            ) == Some(
                (
                    rest@.subrange(0, sender_to as int),
                    rest@.subrange(body_from as int, rest.len() as int),
                ),
            ),
            None => split_sender(rest@) is None,
        },
{
    let delimiter = chars_of(": ");
    match find_first(rest, delimiter.as_slice()) {
        Some(colon) => {
            Some((colon, colon + delimiter.len()))
        },
        None => None,
    }
}

/// An attachment found by its file name.
pub fn attachment_named(name: &[char], has_directory: bool, files: &Vec<ResourceFile>) -> (r:
    MessageContent)
    ensures
        r@ == attachment(name@, has_directory, files_of(files@)),
{
    MessageContent::Media(
        Media {
            kind: classify(name),
            resolved_path: resolve(name, has_directory, files),
            caption: None,
        },
    )
}

/// Whether the text is one that exporters add on their own.
pub fn boilerplate_text(body: &[char]) -> (r: bool)
    ensures
        r == is_boilerplate_text(body@),
{
    let cut = trim(body);
    let null = chars_of("null");
    let notice = chars_of("Messages and calls are end-to-end encrypted");
    same_chars(cut.as_slice(), null.as_slice()) || has_prefix(body, notice.as_slice())
}

/// Whether the system event is one that is not stored.
pub fn suppressed_event(rest: &[char]) -> (r: bool)
    ensures
        r == is_suppressed_event(rest@),
{
    let icon = chars_of("icon");
    has_suffix(rest, icon.as_slice())
}

/// The content that the part after `sender: ` stands for, or `None` where
/// it is boilerplate.
pub fn read_content(body: &[char], has_directory: bool, files: &Vec<ResourceFile>) -> (r: Option<
    MessageContent,
>)
    ensures
        match r {
            Some(c) => content_of(body@, has_directory, files_of(files@)) == Some(c@),
            None => content_of(body@, has_directory, files_of(files@)) is None,
        },
{
    let attached = chars_of("<attached: ");
    let omitted = chars_of("<Media omitted");
    let file_attached = chars_of("(file attached)");
    if let Some(at) = find_first(body, attached.as_slice()) {
        let from: usize = at + attached.len();
        let to: usize = if body.len() > from && body[body.len() - 1] == '>' {
            body.len() - 1
        } else {
            body.len()
        };
        let name = slice_of(body, from, to);
        Some(attachment_named(name.as_slice(), has_directory, files))
    } else if find_first(body, omitted.as_slice()).is_some() {
        Some(
            MessageContent::Media(
                Media { kind: MediaKind::Other, resolved_path: None, caption: None },
            ),
        )
    } else if has_suffix(body, file_attached.as_slice()) {
        let stem = slice_of(body, 0, body.len() - file_attached.len());
        let name = trim(stem.as_slice());
        Some(attachment_named(name.as_slice(), has_directory, files))
    } else if boilerplate_text(body) {
        None
    } else {
        Some(MessageContent::Text(string_of(body)))
    }
}

/// The sender of a system event, by the vocabulary seen so far.
pub fn guess_sender(text: &[char], senders: &Vec<String>) -> (r: Option<String>)
    ensures
        crate::model::opt_chars(r) == infer_sender(text@, crate::model::names_of(senders@)),
{
    let ghost names = crate::model::names_of(senders@);
    let mut i: usize = 0;
    while i < senders.len()
        invariant
            i <= senders.len(),
            names == crate::model::names_of(senders@),
            infer_sender_from(text@, names, i as int) == infer_sender_from(text@, names, 0),
        decreases senders.len() - i,
    {
        let candidate = &senders[i];
        let name = chars_of(candidate.as_str());
        assert(names[i as int] == candidate@);
        if has_prefix(text, name.as_slice()) {
            return Some(candidate.clone());
        }
        i += 1;
    }
    None
}

} // verus!
