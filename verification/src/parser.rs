//! The export parser: a state machine that takes a transcript line by line
//! and ends in a chronological, numbered sequence of messages.

use vstd::prelude::*;
use crate::grammar::{
    content_of, detect, detect_variant, format_of, guess_sender, infer_sender, is_suppressed_event,
    locate, locate_sender, read_content, shape_of, split_sender, suppressed_event, FormatVariant,
    LineParts, LineShape,
};
use crate::media::{files_of, ResourceDirectory, ResourceFile, ResourceFileModel};
use crate::model::{
    chronological, models_of, names_of, opt_chars, remember, remembered, renumbered, ChatModel,
    ContentModel, Media, MediaModel, Message, MessageContent, MessageModel, ParsedChat,
};
use crate::order::{missing_positions, renumber, sort_by_time, sorted_by_time, starred_at};
use crate::text::{chars_of, normalize, normalized, push_chars, slice_of, string_of};
use crate::timestamp::{naive_seconds, parse_naive_seconds, BRACKETED_FORMAT, DASHED_FORMAT};

verus! {

/// The warning given for each starred position that the parsed chat does not
/// have.
pub const MISSING_STAR_WARNING: &'static str =
    "Some starred indices not found; these messages have not been stared.";

/// Why a transcript could not be parsed.
#[derive(Debug, PartialEq, Eq)]
pub enum ParseError {
    /// A bracketed time stamp is opened and never closed; holds the line.
    UnterminatedTimestamp { line: String },
    /// The time stamp of a record cannot be read; holds its text.
    BadTimestamp { text: String },
}

/// The model of a `ParseError`.
pub enum ParseErrorModel {
    UnterminatedTimestamp { line: Seq<char> },
    BadTimestamp { text: Seq<char> },
}

impl View for ParseError {
    type V = ParseErrorModel;

    open spec fn view(&self) -> ParseErrorModel {
        match self {
            ParseError::UnterminatedTimestamp { line } => ParseErrorModel::UnterminatedTimestamp {
                line: line@,
            },
            ParseError::BadTimestamp { text } => ParseErrorModel::BadTimestamp { text: text@ },
        }
    }
}

impl ParseError {
    /// The error in words, with the text that could not be read.
    pub fn message(&self) -> (r: String)
        ensures
            r@ == match self@ {
                ParseErrorModel::UnterminatedTimestamp { line } => "Failed to find time end: "@
                    + line,
                ParseErrorModel::BadTimestamp { text } => "Failed to parse time: "@ + text,
            },
    {
        match self {
            ParseError::UnterminatedTimestamp { line } => String::from_str(
                "Failed to find time end: ",
            ).concat(line.as_str()),
            ParseError::BadTimestamp { text } => String::from_str("Failed to parse time: ").concat(
                text.as_str(),
            ),
        }
    }
}

/// The state of a parse between two lines.
#[derive(Debug)]
pub struct Parser {
    /// The grammar, once the first line that is not blank was seen.
    pub variant: Option<FormatVariant>,
    /// The messages so far, in the order of their records.
    pub messages: Vec<Message>,
    /// The senders so far, each once, in the order in which they were first
    /// seen.
    pub senders: Vec<String>,
}

/// The model of a `Parser`.
pub struct ParserModel {
    pub variant: Option<FormatVariant>,
    pub messages: Seq<MessageModel>,
    pub senders: Seq<Seq<char>>,
}

impl View for Parser {
    type V = ParserModel;

    open spec fn view(&self) -> ParserModel {
        ParserModel {
            variant: self.variant,
            messages: models_of(self.messages@),
            senders: names_of(self.senders@),
        }
    }
}

/// What a parse gives: the chat, and a warning for each thing that was
/// passed over.
#[derive(Debug, PartialEq, Eq)]
pub struct ParseOutcome {
    pub chat: ParsedChat,
    pub warnings: Vec<String>,
}

/// The model of a `ParseOutcome`.
pub struct OutcomeModel {
    pub chat: ChatModel,
    pub warnings: Seq<Seq<char>>,
}

impl View for ParseOutcome {
    type V = OutcomeModel;

    open spec fn view(&self) -> OutcomeModel {
        OutcomeModel { chat: self.chat@, warnings: names_of(self.warnings@) }
    }
}

/// The state before the first line.
pub open spec fn initial() -> ParserModel {
    ParserModel { variant: None, messages: Seq::empty(), senders: Seq::empty() }
}

/// `text`, a line break, and `line`.
pub open spec fn extended(text: Seq<char>, line: Seq<char>) -> Seq<char> {
    text.push('\n') + line
}

/// The content of a record after a continuation line: text grows by the
/// line, an attachment's caption grows by it or starts with it, a system
/// event stays as it is.
pub open spec fn continued_content(content: ContentModel, line: Seq<char>) -> ContentModel {
    match content {
        ContentModel::Text(t) => ContentModel::Text(extended(t, line)),
        ContentModel::Media(m) => ContentModel::Media(
            MediaModel {
                caption: Some(
                    match m.caption {
                        Some(c) => extended(c, line),
                        None => line,
                    },
                ),
                ..m
            },
        ),
        ContentModel::System(t) => ContentModel::System(t),
    }
}

/// The messages after a continuation line: the last one takes the line;
/// with no message yet the line is dropped.
pub open spec fn continued(messages: Seq<MessageModel>, line: Seq<char>) -> Seq<MessageModel> {
    if messages.len() == 0 {
        messages
    } else {
        let last = messages.last();
        messages.drop_last().push(
            MessageModel { content: continued_content(last.content, line), ..last },
        )
    }
}

/// A message as the parser first makes it: without a star, at the position
/// of its record.
pub open spec fn fresh(
    timestamp: int,
    sender: Option<Seq<char>>,
    content: ContentModel,
    position: int,
) -> MessageModel {
    MessageModel { timestamp, sender, content, starred: false, position }
}

/// The state after a record with time stamp `timestamp` whose remainder is
/// `rest`.
pub open spec fn recorded(
    state: ParserModel,
    timestamp: int,
    rest: Seq<char>,
    has_directory: bool,
    files: Seq<ResourceFileModel>,
) -> ParserModel {
    match split_sender(rest) {
        Some((sender, body)) => {
            let senders = remembered(state.senders, sender);
            match content_of(body, has_directory, files) {
                Some(content) => ParserModel {
                    senders,
                    messages: state.messages.push(
                        fresh(timestamp, Some(sender), content, state.messages.len() as int),
                    ),
                    ..state
                },
                None => ParserModel { senders, ..state },
            }
        },
        None => {
            if is_suppressed_event(rest) {
                state
            } else {
                ParserModel {
                    messages: state.messages.push(
                        fresh(
                            timestamp,
                            infer_sender(rest, state.senders),
                            ContentModel::System(rest),
                            state.messages.len() as int,
                        ),
                    ),
                    ..state
                }
            }
        },
    }
}

/// The state after one raw line, or the error that the line gives.
pub open spec fn fed(
    state: ParserModel,
    raw: Seq<char>,
    has_directory: bool,
    files: Seq<ResourceFileModel>,
) -> Result<ParserModel, ParseErrorModel> {
    let line = normalized(raw);
    if line.len() == 0 {
        Ok(state)
    } else {
        let variant = match state.variant {
            Some(v) => v,
            None => detect(line),
        };
        let started = ParserModel { variant: Some(variant), ..state };
        match shape_of(variant, line) {
            LineShape::Continuation => Ok(
                ParserModel { messages: continued(state.messages, line), ..started },
            ),
            LineShape::Unterminated => Err(ParseErrorModel::UnterminatedTimestamp { line }),
            LineShape::Record { stamp, rest } => match naive_seconds(stamp, format_of(variant)) {
                Some(t) => Ok(recorded(started, t as int, rest, has_directory, files)),
                None => Err(ParseErrorModel::BadTimestamp { text: stamp }),
            },
        }
    }
}

/// The number of characters from index `from` to the next line break or the
/// end of the text.
pub open spec fn line_len(text: Seq<char>, from: int) -> nat
    decreases text.len() - from,
{
    if 0 <= from < text.len() && text[from] != '\n' {
        1 + line_len(text, from + 1)
    } else {
        0
    }
}

/// The state after the lines of `text` from index `from` on, or the first
/// error among them.
pub open spec fn fed_text(
    state: ParserModel,
    text: Seq<char>,
    from: int,
    has_directory: bool,
    files: Seq<ResourceFileModel>,
) -> Result<ParserModel, ParseErrorModel>
    decreases text.len() - from,
{
    if from < 0 || from >= text.len() {
        Ok(state)
    } else {
        let end = from + line_len(text, from);
        match fed(state, text.subrange(from, end), has_directory, files) {
            Ok(next) => if end < text.len() {
                fed_text(next, text, end + 1, has_directory, files)
            } else {
                Ok(next)
            },
            Err(e) => Err(e),
        }
    }
}

/// A system event without a sender gets the one that the vocabulary gives
/// it; every other message stays as it is.
pub open spec fn with_sender(m: MessageModel, senders: Seq<Seq<char>>) -> MessageModel {
    match m.content {
        ContentModel::System(text) if m.sender is None => MessageModel {
            sender: infer_sender(text, senders),
            ..m
        },
        _ => m,
    }
}

/// `with_sender` on every message.
pub open spec fn with_senders(messages: Seq<MessageModel>, senders: Seq<Seq<char>>) -> Seq<
    MessageModel,
> {
    messages.map_values(|m: MessageModel| with_sender(m, senders))
}

/// The messages at the end of a parse, before stars are applied: senders
/// filled in, in chronological order, numbered.
pub open spec fn settled(state: ParserModel) -> Seq<MessageModel> {
    renumbered(sorted_by_time(with_senders(state.messages, state.senders)))
}

/// The resource directories of a parsed chat: the one given, if any.
pub open spec fn directories_of(directory: Option<Seq<char>>) -> Seq<Seq<char>> {
    match directory {
        Some(d) => seq![d],
        None => Seq::empty(),
    }
}

/// The outcome of a parse that ended in `state`.
pub open spec fn finished(
    state: ParserModel,
    name: Seq<char>,
    directory: Option<Seq<char>>,
    stars: Seq<usize>,
) -> OutcomeModel {
    let messages = settled(state);
    OutcomeModel {
        chat: ChatModel {
            messages: starred_at(messages, stars),
            resource_directories: directories_of(directory),
            name,
        },
        warnings: Seq::new(
            missing_positions(stars, messages.len() as int).len(),
            |i: int| MISSING_STAR_WARNING@,
        ),
    }
}

/// What parsing `text` gives.
pub open spec fn parsed(
    text: Seq<char>,
    directory: Option<Seq<char>>,
    files: Seq<ResourceFileModel>,
    name: Seq<char>,
    stars: Seq<usize>,
) -> Result<OutcomeModel, ParseErrorModel> {
    match fed_text(initial(), text, 0, directory is Some, files) {
        Ok(state) => Ok(finished(state, name, directory, stars)),
        Err(e) => Err(e),
    }
}

/// Adds `line` to `text` after a line break.
fn extend_text(text: &mut String, line: &[char])
    ensures
        final(text)@ == extended(old(text)@, line@),
{
    text.push('\n');
    push_chars(text, line);
}

/// Lets the last message take a continuation line.
fn continue_last(messages: &mut Vec<Message>, line: &[char])
    ensures
        models_of(final(messages)@) == continued(models_of(old(messages)@), line@),
{
    let ghost before = models_of(messages@);
    match messages.pop() {
        None => {
            assert(models_of(messages@) =~= before);
        },
        Some(last) => {
            let Message { timestamp, sender, content, starred, position } = last;
            let content = match content {
                MessageContent::Text(t) => {
                    let mut t = t;
                    extend_text(&mut t, line);
                    MessageContent::Text(t)
                },
                MessageContent::Media(m) => {
                    let Media { kind, resolved_path, caption } = m;
                    let caption = match caption {
                        Some(c) => {
                            let mut c = c;
                            extend_text(&mut c, line);
                            c
                        },
                        None => string_of(line),
                    };
                    MessageContent::Media(Media { kind, resolved_path, caption: Some(caption) })
                },
                MessageContent::System(t) => MessageContent::System(t),
            };
            messages.push(Message { timestamp, sender, content, starred, position });
            assert(models_of(messages@) =~= continued(before, line@));
        },
    }
}

impl Parser {
    /// A parser that has seen no line.
    pub fn new() -> (r: Parser)
        ensures
            r@ == initial(),
    {
        let r = Parser { variant: None, messages: Vec::new(), senders: Vec::new() };
        assert(r@.messages =~= Seq::empty());
        assert(r@.senders =~= Seq::empty());
        r
    }

    /// Takes a record whose time stamp was read as `timestamp` and whose
    /// remainder is `rest`.
    pub fn accept_record(
        &mut self,
        timestamp: i64,
        rest: &[char],
        has_directory: bool,
        files: &Vec<ResourceFile>,
    )
        ensures
            final(self)@ == recorded(
                old(self)@,
                timestamp as int,
                rest@,
                has_directory,
                files_of(files@),
            ),
    {
        let ghost before = self@;
        match locate_sender(rest) {
            Some((sender_to, body_from)) => {
                let sender = string_of(slice_of(rest, 0, sender_to).as_slice());
                let body = slice_of(rest, body_from, rest.len());
                remember(&mut self.senders, &sender);
                match read_content(body.as_slice(), has_directory, files) {
                    Some(content) => {
                        let position: usize = self.messages.len();
                        self.messages.push(
                            Message {
                                timestamp,
                                sender: Some(sender),
                                content,
                                starred: false,
                                position,
                            },
                        );
                        assert(self@.messages =~= before.messages.push(
                            fresh(
                                timestamp as int,
                                Some(sender@),
                                content@,
                                before.messages.len() as int,
                            ),
                        ));
                    },
                    None => {},
                }
            },
            None => {
                if !suppressed_event(rest) {
                    let sender = guess_sender(rest, &self.senders);
                    let position: usize = self.messages.len();
                    self.messages.push(
                        Message {
                            timestamp,
                            sender,
                            content: MessageContent::System(string_of(rest)),
                            starred: false,
                            position,
                        },
                    );
                    assert(self@.messages =~= before.messages.push(
                        fresh(
                            timestamp as int,
                            infer_sender(rest@, before.senders),
                            ContentModel::System(rest@),
                            before.messages.len() as int,
                        ),
                    ));
                }
            },
        }
    }

    /// Takes one raw line of the transcript. A line that cannot be read
    /// gives an error and leaves the state as it was.
    pub fn feed_line(&mut self, raw: &[char], has_directory: bool, files: &Vec<ResourceFile>) -> (r:
        Result<(), ParseError>)
        ensures
            match r {
                Ok(()) => fed(old(self)@, raw@, has_directory, files_of(files@)) == Ok::<
                    ParserModel,
                    ParseErrorModel,
                >(final(self)@),
                Err(e) => fed(old(self)@, raw@, has_directory, files_of(files@)) == Err::<
                    ParserModel,
                    ParseErrorModel,
                >(e@) && final(self)@ == old(self)@,
            },
    {
        let line = normalize(raw);
        if line.len() == 0 {
            return Ok(());
        }
        let variant = match self.variant {
            Some(v) => v,
            None => detect_variant(line.as_slice()),
        };
        match locate(variant, line.as_slice()) {
            LineParts::Continuation => {
                self.variant = Some(variant);
                continue_last(&mut self.messages, line.as_slice());
                Ok(())
            },
            LineParts::Unterminated => Err(
                ParseError::UnterminatedTimestamp { line: string_of(line.as_slice()) },
            ),
            LineParts::Record { stamp_from, stamp_to, rest_from } => {
                let stamp = string_of(slice_of(line.as_slice(), stamp_from, stamp_to).as_slice());
                let format = match variant {
                    FormatVariant::Bracketed => BRACKETED_FORMAT,
                    FormatVariant::Dashed => DASHED_FORMAT,
                };
                match parse_naive_seconds(stamp.as_str(), format) {
                    Some(timestamp) => {
                        let rest = slice_of(line.as_slice(), rest_from, line.len());
                        self.variant = Some(variant);
                        self.accept_record(timestamp, rest.as_slice(), has_directory, files);
                        Ok(())
                    },
                    None => Err(ParseError::BadTimestamp { text: stamp }),
                }
            },
        }
    }
}

/// The listing of the resource directory, empty where there is none.
pub open spec fn listing_of(resources: Option<ResourceDirectory>) -> Seq<ResourceFileModel> {
    match resources {
        Some(r) => files_of(r.files@),
        None => Seq::empty(),
    }
}

/// The path of the resource directory, where there is one.
pub open spec fn directory_of(resources: Option<ResourceDirectory>) -> Option<Seq<char>> {
    match resources {
        Some(r) => Some(r.directory@),
        None => None,
    }
}

/// The messages of a finished parse are in chronological order and stand at
/// the positions that they record.
pub proof fn lemma_finished_in_order(
    state: ParserModel,
    name: Seq<char>,
    directory: Option<Seq<char>>,
    stars: Seq<usize>,
)
    ensures
        chronological(finished(state, name, directory, stars).chat.messages),
        finished(state, name, directory, stars).chat.well_formed(),
        finished(state, name, directory, stars).chat.messages.len() == state.messages.len(),
{
    let filled = with_senders(state.messages, state.senders);
    crate::order::lemma_sorted_by_time(filled);
    let sorted = sorted_by_time(filled);
    let last = finished(state, name, directory, stars).chat.messages;
    assert forall|i: int, j: int| 0 <= i <= j < last.len() implies last[i].timestamp
        <= last[j].timestamp by {
        assert(last[i].timestamp == sorted[i].timestamp);
        assert(last[j].timestamp == sorted[j].timestamp);
    }
}

/// Whether no message has a star.
pub open spec fn unstarred(messages: Seq<MessageModel>) -> bool {
    forall|i: int| 0 <= i < messages.len() ==> !(#[trigger] messages[i]).starred
}

/// A line gives no message a star.
pub proof fn lemma_fed_unstarred(
    state: ParserModel,
    raw: Seq<char>,
    has_directory: bool,
    files: Seq<ResourceFileModel>,
)
    requires
        unstarred(state.messages),
    ensures
        match fed(state, raw, has_directory, files) {
            Ok(next) => unstarred(next.messages),
            Err(_) => true,
        },
{
}

/// No line of a text gives a message a star.
pub proof fn lemma_fed_text_unstarred(
    state: ParserModel,
    text: Seq<char>,
    from: int,
    has_directory: bool,
    files: Seq<ResourceFileModel>,
)
    requires
        unstarred(state.messages),
    ensures
        match fed_text(state, text, from, has_directory, files) {
            Ok(next) => unstarred(next.messages),
            Err(_) => true,
        },
    decreases text.len() - from,
{
    if 0 <= from < text.len() {
        let end = from + line_len(text, from);
        lemma_fed_unstarred(state, text.subrange(from, end), has_directory, files);
        match fed(state, text.subrange(from, end), has_directory, files) {
            Ok(next) => {
                if end < text.len() {
                    lemma_fed_text_unstarred(next, text, end + 1, has_directory, files);
                }
            },
            Err(_) => {},
        }
    }
}

/// Filling in senders, ordering and numbering give no message a star.
pub proof fn lemma_settled_unstarred(state: ParserModel)
    requires
        unstarred(state.messages),
    ensures
        unstarred(settled(state)),
{
    broadcast use vstd::seq_lib::group_to_multiset_ensures;

    let filled = with_senders(state.messages, state.senders);
    let sorted = sorted_by_time(filled);
    crate::order::lemma_sorted_by_time(filled);
    assert forall|i: int| 0 <= i < sorted.len() implies !(#[trigger] sorted[i]).starred by {
        assert(sorted.contains(sorted[i]));
        assert(filled.to_multiset().count(sorted[i]) > 0);
        assert(filled.contains(sorted[i]));
        let k = choose|k: int| 0 <= k < filled.len() && filled[k] == sorted[i];
        assert(!state.messages[k].starred);
    }
}

/// A parsed chat has stars at the positions that were given, and nowhere
/// else.
pub proof fn stars_are_the_ones_given(
    text: Seq<char>,
    directory: Option<Seq<char>>,
    files: Seq<ResourceFileModel>,
    name: Seq<char>,
    stars: Seq<usize>,
)
    ensures
        match parsed(text, directory, files, name, stars) {
            Ok(outcome) => forall|i: int|
                0 <= i < outcome.chat.messages.len() ==> (#[trigger] outcome.chat.messages[i]).starred
                    == stars.contains(i as usize),
            Err(_) => true,
        },
{
    lemma_fed_text_unstarred(initial(), text, 0, directory is Some, files);
    match fed_text(initial(), text, 0, directory is Some, files) {
        Ok(state) => {
            lemma_settled_unstarred(state);
        },
        Err(_) => {},
    }
}

/// Gives the stars at the positions in `stars`, and one warning for each
/// position that does not exist.
pub fn apply_stars(messages: &mut Vec<Message>, stars: &Vec<usize>) -> (warnings: Vec<String>)
    ensures
        models_of(final(messages)@) == starred_at(models_of(old(messages)@), stars@),
        names_of(warnings@) == Seq::new(
            missing_positions(stars@, old(messages)@.len() as int).len(),
            |i: int| MISSING_STAR_WARNING@,
        ),
{
    let ghost base = models_of(messages@);
    let mut warnings: Vec<String> = Vec::new();
    let mut k: usize = 0;
    assert(models_of(messages@) =~= starred_at(base, stars@.take(0)));
    assert(missing_positions(stars@.take(0), base.len() as int) =~= Seq::empty());
    while k < stars.len()
        invariant
            k <= stars.len(),
            messages.len() == base.len(),
            models_of(messages@) == starred_at(base, stars@.take(k as int)),
            names_of(warnings@) =~= Seq::new(
                missing_positions(stars@.take(k as int), base.len() as int).len(),
                |i: int| MISSING_STAR_WARNING@,
            ),
        decreases stars.len() - k,
    {
        let at: usize = stars[k];
        let ghost seen = stars@.take(k as int);
        let ghost next = stars@.take(k + 1);
        let ghost current = models_of(messages@);
        proof {
            assert(next.drop_last() =~= seen);
            assert(next.last() == at);
            assert(next =~= seen.push(at));
            reveal_with_fuel(Seq::filter, 2);
            assert(missing_positions(next, base.len() as int) == if at >= base.len() {
                missing_positions(seen, base.len() as int).push(at)
            } else {
                missing_positions(seen, base.len() as int)
            });
            assert forall|i: usize| next.contains(i) <==> (seen.contains(i) || i == at) by {
                if seen.contains(i) {
                    let w = choose|w: int| 0 <= w < seen.len() && seen[w] == i;
                    assert(next[w] == i);
                }
                if i == at {
                    assert(next[k as int] == i);
                }
            }
        }
        let ghost given = names_of(warnings@);
        if at < messages.len() {
            messages[at].starred = true;
        } else {
            warnings.push(String::from_str(MISSING_STAR_WARNING));
            assert(names_of(warnings@) =~= given.push(MISSING_STAR_WARNING@));
        }
        proof {
            let after = models_of(messages@);
            let goal = starred_at(base, next);
            assert forall|i: int| 0 <= i < after.len() implies after[i] == goal[i] by {
                assert(current[i] == starred_at(base, seen)[i]);
                assert(next.contains(i as usize) <==> (seen.contains(i as usize) || i as usize
                    == at));
                if i == at {
                    assert(after[i] == current[i].with_star(true));
                } else {
                    assert(after[i] == current[i]);
                }
            }
            assert(after =~= goal);
        }
        k += 1;
    }
    assert(stars@.take(stars@.len() as int) =~= stars@);
    warnings
}

/// Gives every system event without a sender the one that the vocabulary
/// gives it.
fn fill_senders(messages: &mut Vec<Message>, senders: &Vec<String>)
    ensures
        models_of(final(messages)@) == with_senders(models_of(old(messages)@), names_of(senders@)),
{
    let ghost base = models_of(messages@);
    let ghost names = names_of(senders@);
    let mut i: usize = 0;
    while i < messages.len()
        invariant
            i <= messages.len(),
            messages.len() == base.len(),
            names == names_of(senders@),
            forall|k: int| 0 <= k < i ==> (#[trigger] messages@[k])@ == with_sender(base[k], names),
            forall|k: int| i <= k < messages.len() ==> (#[trigger] messages@[k])@ == base[k],
        decreases messages.len() - i,
    {
        let guess: Option<Option<String>> = match &messages[i].content {
            MessageContent::System(text) => {
                if messages[i].sender.is_none() {
                    let event = chars_of(text.as_str());
                    Some(guess_sender(event.as_slice(), senders))
                } else {
                    None
                }
            },
            _ => None,
        };
        match guess {
            Some(sender) => {
                messages[i].sender = sender;
            },
            None => {},
        }
        i += 1;
    }
    assert(models_of(messages@) =~= with_senders(base, names));
}

impl Parser {
    /// Ends the parse: fills in senders, orders and numbers the messages,
    /// and applies the stars.
    pub fn finish(self, name: &str, directory: &Option<String>, starred: &Vec<usize>) -> (r:
        ParseOutcome)
        ensures
            r@ == finished(self@, name@, opt_chars(*directory), starred@),
            chronological(r@.chat.messages),
            r@.chat.well_formed(),
    {
        let Parser { variant, messages, senders } = self;
        let mut messages = messages;
        fill_senders(&mut messages, &senders);
        let mut messages = sort_by_time(messages);
        renumber(&mut messages);
        let warnings = apply_stars(&mut messages, starred);
        let resource_directories: Vec<String> = match directory {
            Some(d) => {
                let v = vec![d.clone()];
                assert(names_of(v@) =~= seq![d@]);
                v
            },
            None => {
                let v: Vec<String> = Vec::new();
                assert(names_of(v@) =~= Seq::empty());
                v
            },
        };
        proof {
            lemma_finished_in_order(self@, name@, opt_chars(*directory), starred@);
        }
        ParseOutcome {
            chat: ParsedChat { messages, resource_directories, name: String::from_str(name) },
            warnings,
        }
    }
}

/// Parses the text of one export.
///
/// `resources` is the resource directory that came with the export, if any,
/// with the files found in it; `starred` holds the positions that were
/// starred when the chat was last open. The first record whose time stamp
/// cannot be read ends the parse with an error; a starred position that the
/// chat does not have only gives a warning.
pub fn parse(
    source_text: &str,
    resources: &Option<ResourceDirectory>,
    chat_name: &str,
    starred: &Vec<usize>,
) -> (r: Result<ParseOutcome, ParseError>)
    ensures
        match r {
            Ok(outcome) => parsed(
                source_text@,
                directory_of(*resources),
                listing_of(*resources),
                chat_name@,
                starred@,
            ) == Ok::<OutcomeModel, ParseErrorModel>(outcome@) && chronological(
                outcome@.chat.messages,
            ) && outcome@.chat.well_formed(),
            Err(e) => parsed(
                source_text@,
                directory_of(*resources),
                listing_of(*resources),
                chat_name@,
                starred@,
            ) == Err::<OutcomeModel, ParseErrorModel>(e@),
        },
{
    let text = chars_of(source_text);
    let no_files: Vec<ResourceFile> = Vec::new();
    let directory: Option<String> = match resources {
        Some(r) => Some(r.directory.clone()),
        None => None,
    };
    let files: &Vec<ResourceFile> = match resources {
        Some(r) => &r.files,
        None => &no_files,
    };
    assert(files_of(files@) =~= listing_of(*resources));
    let has_directory = directory.is_some();
    let ghost listing = listing_of(*resources);
    let mut parser = Parser::new();
    let mut from: usize = 0;
    while from < text.len()
        invariant
            text@ == source_text@,
            files_of(files@) == listing,
            listing == listing_of(*resources),
            has_directory == (directory_of(*resources) is Some),
            fed_text(parser@, text@, from as int, has_directory, listing) == fed_text(
                initial(),
                text@,
                0,
                has_directory,
                listing,
            ),
        decreases text.len() - from,
    {
        let mut end: usize = from;
        while end < text.len() && text[end] != '\n'
            invariant
                from <= end <= text.len(),
                end + line_len(text@, end as int) == from + line_len(text@, from as int),
            decreases text.len() - end,
        {
            end += 1;
        }
        let raw = slice_of(text.as_slice(), from, end);
        let ghost before = parser@;
        proof {
            assert(line_len(text@, end as int) == 0);
            assert(end == from + line_len(text@, from as int));
            assert(fed_text(before, text@, from as int, has_directory, listing) == match fed(
                before,
                raw@,
                has_directory,
                listing,
            ) {
                Ok(next) => if end < text@.len() {
                    fed_text(next, text@, end + 1, has_directory, listing)
                } else {
                    Ok(next)
                },
                Err(e) => Err(e),
            });
        }
        match parser.feed_line(raw.as_slice(), has_directory, files) {
            Ok(()) => {},
            Err(e) => {
                return Err(e);
            },
        }
        if end == text.len() {
            from = end;
        } else {
            from = end + 1;
        }
    }
    Ok(parser.finish(chat_name, &directory, starred))
}

} // verus!
