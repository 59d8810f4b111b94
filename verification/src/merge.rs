//! The merge engine: folds the exports of one conversation, in order of
//! priority, into one sequence, matching up the messages that they share.

use vstd::prelude::*;
use crate::anchor::{
    anchor_needs_full_run, anchor_of, earlier, find_anchor, is_anchor, lemma_anchor_from, plain_at,
    run_of, same_at, NUMBER_TO_ALIGN,
};
use crate::equality::EQUALITY_WINDOW;
use crate::model::{
    lemma_remembered, models_of, names_of, positions_in_order, remember, remembered, renumbered,
    ChatModel, Message, MessageModel, ParsedChat,
};
use crate::order::{earliest, latest, renumber};
use crate::reconcile::{align, push_range, walk, walk_along_itself};

verus! {

/// Whether every message of `first` was sent before every message of
/// `second`.
pub open spec fn all_before(first: Seq<MessageModel>, second: Seq<MessageModel>) -> bool {
    forall|a: int, b: int|
        0 <= a < first.len() && 0 <= b < second.len() ==> (#[trigger] first[a]).timestamp < (
        #[trigger] second[b]).timestamp
}

/// The combined sequence after one more source.
///
/// With an anchor, what the source has before it goes to the front, and
/// the walk decides from the anchor on. Without one, a source that lies
/// wholly before or wholly after the combined sequence is put in front of
/// it or behind it, and any other source is passed over.
pub open spec fn round(
    combined: Seq<MessageModel>,
    source: Seq<MessageModel>,
) -> Seq<MessageModel> {
    match anchor_of(source, combined) {
        Some((i, j)) => source.take(i) + combined.take(j) + walk(source, combined, i, j),
        None => {
            if all_before(source, combined) {
                source + combined
            } else if all_before(combined, source) {
                combined + source
            } else {
                combined
            }
        },
    }
}

/// Whether a round passes the source over: it has no anchor and lies
/// neither wholly before nor wholly after the combined sequence.
pub open spec fn passed_over(combined: Seq<MessageModel>, source: Seq<MessageModel>) -> bool {
    &&& anchor_of(source, combined) is None
    &&& !all_before(source, combined)
    &&& !all_before(combined, source)
}

/// The combined sequence after the first `n` sources.
pub open spec fn combined_after(sources: Seq<ChatModel>, n: int) -> Seq<MessageModel>
    decreases n,
{
    if n <= 0 {
        Seq::empty()
    } else {
        round(combined_after(sources, n - 1), sources[n - 1].messages)
    }
}

/// `names` with the first `k` entries of `more` added, each unless it is
/// there.
pub open spec fn joined(names: Seq<Seq<char>>, more: Seq<Seq<char>>, k: int) -> Seq<Seq<char>>
    decreases k,
{
    if k <= 0 {
        names
    } else {
        remembered(joined(names, more, k - 1), more[k - 1])
    }
}

/// The resource directories of the first `n` sources, each once, in the
/// order in which they are first seen.
pub open spec fn directories_after(sources: Seq<ChatModel>, n: int) -> Seq<Seq<char>>
    decreases n,
{
    if n <= 0 {
        Seq::empty()
    } else {
        let more = sources[n - 1].resource_directories;
        joined(directories_after(sources, n - 1), more, more.len() as int)
    }
}

/// The indices, among the first `n` sources, of those that were passed
/// over, in rising order.
pub open spec fn passed_over_among(sources: Seq<ChatModel>, n: int) -> Seq<usize>
    decreases n,
{
    if n <= 0 {
        Seq::empty()
    } else if passed_over(combined_after(sources, n - 1), sources[n - 1].messages) {
        passed_over_among(sources, n - 1).push((n - 1) as usize)
    } else {
        passed_over_among(sources, n - 1)
    }
}

/// The merge of `sources`, the first of which has the highest priority.
pub open spec fn merged(sources: Seq<ChatModel>) -> ChatModel {
    ChatModel {
        messages: renumbered(combined_after(sources, sources.len() as int)),
        resource_directories: directories_after(sources, sources.len() as int),
        name: sources[0].name,
    }
}

/// The models of a sequence of chats.
pub open spec fn chats_of(s: Seq<ParsedChat>) -> Seq<ChatModel> {
    s.map_values(|c: ParsedChat| c@)
}

/// The first source becomes the combined sequence as it is.
pub proof fn first_source_is_kept(source: Seq<MessageModel>)
    ensures
        round(Seq::empty(), source) == source,
{
    anchor_needs_full_run(source, Seq::empty());
    assert(source + Seq::<MessageModel>::empty() =~= source);
}

/// Merging a single source gives that source: its messages in their order,
/// each at the position of its index, under its name, with its resource
/// directories. A well-formed chat comes out unchanged.
pub proof fn merge_of_one_source(chat: ChatModel)
    ensures
        merged(seq![chat]).messages == renumbered(chat.messages),
        merged(seq![chat]).name == chat.name,
        chat.resource_directories.no_duplicates() ==> merged(seq![chat]).resource_directories
            == chat.resource_directories,
        chat.well_formed() ==> merged(seq![chat]) == chat,
{
    let sources = seq![chat];
    first_source_is_kept(chat.messages);
    assert(combined_after(sources, 0) =~= Seq::empty());
    assert(combined_after(sources, 1) == round(combined_after(sources, 0), sources[0].messages));
    assert(directories_after(sources, 0) =~= Seq::empty());
    if chat.resource_directories.no_duplicates() {
        lemma_joined_distinct(chat.resource_directories, chat.resource_directories.len() as int);
        assert(chat.resource_directories.take(chat.resource_directories.len() as int)
            =~= chat.resource_directories);
    }
    if positions_in_order(chat.messages) {
        assert(renumbered(chat.messages) =~= chat.messages);
    }
}

/// Gathering names that are all different into an empty list gives them
/// back in their order.
pub proof fn lemma_joined_distinct(more: Seq<Seq<char>>, k: int)
    requires
        more.no_duplicates(),
        0 <= k <= more.len(),
    ensures
        joined(Seq::empty(), more, k) == more.take(k),
    decreases k,
{
    if k > 0 {
        lemma_joined_distinct(more, k - 1);
        let before = more.take(k - 1);
        assert(!before.contains(more[k - 1])) by {
            if before.contains(more[k - 1]) {
                let w = choose|w: int| 0 <= w < before.len() && before[w] == more[k - 1];
                assert(more[w] == more[k - 1]);
            }
        }
        assert(before.push(more[k - 1]) =~= more.take(k));
    } else {
        assert(more.take(0) =~= Seq::empty());
    }
}

/// Gathering names into a list that holds them all changes nothing.
pub proof fn lemma_joined_known(names: Seq<Seq<char>>, more: Seq<Seq<char>>, k: int)
    requires
        0 <= k <= more.len(),
        forall|t: int| 0 <= t < k ==> names.contains(#[trigger] more[t]),
    ensures
        joined(names, more, k) == names,
    decreases k,
{
    if k > 0 {
        lemma_joined_known(names, more, k - 1);
    }
}

/// A list that took names in holds them and what it held, and nothing
/// else; if its names were all different, they still are.
pub proof fn lemma_joined(names: Seq<Seq<char>>, more: Seq<Seq<char>>, k: int)
    requires
        0 <= k <= more.len(),
    ensures
        forall|d: Seq<char>|
            #[trigger] joined(names, more, k).contains(d) <==> names.contains(d) || more.take(
                k,
            ).contains(d),
        names.no_duplicates() ==> joined(names, more, k).no_duplicates(),
    decreases k,
{
    if k > 0 {
        let before = joined(names, more, k - 1);
        lemma_joined(names, more, k - 1);
        lemma_remembered(before, more[k - 1]);
        assert forall|d: Seq<char>| #[trigger] joined(names, more, k).contains(d)
            <==> names.contains(d) || more.take(k).contains(d) by {
            let shorter = more.take(k - 1);
            let longer = more.take(k);
            if shorter.contains(d) {
                let w = choose|w: int| 0 <= w < shorter.len() && shorter[w] == d;
                assert(longer[w] == d);
            }
            if d == more[k - 1] {
                assert(longer[k - 1] == d);
            }
            if longer.contains(d) {
                let w = choose|w: int| 0 <= w < longer.len() && longer[w] == d;
                if w < k - 1 {
                    assert(shorter[w] == d);
                }
            }
        }
    } else {
        assert(more.take(0) =~= Seq::empty());
    }
}

/// The resource directories of a merge are those of the sources, each
/// once: no directory stands twice, and a directory is among them exactly
/// if one of the sources has it.
pub proof fn directories_are_the_union(sources: Seq<ChatModel>, n: int)
    requires
        0 <= n <= sources.len(),
    ensures
        directories_after(sources, n).no_duplicates(),
        forall|d: Seq<char>|
            #[trigger] directories_after(sources, n).contains(d) <==> exists|s: int|
                0 <= s < n && (#[trigger] sources[s]).resource_directories.contains(d),
    decreases n,
{
    if n > 0 {
        let before = directories_after(sources, n - 1);
        let more = sources[n - 1].resource_directories;
        directories_are_the_union(sources, n - 1);
        lemma_joined(before, more, more.len() as int);
        assert(more.take(more.len() as int) =~= more);
        assert forall|d: Seq<char>| #[trigger] directories_after(sources, n).contains(d)
            <==> exists|s: int|
            0 <= s < n && (#[trigger] sources[s]).resource_directories.contains(d) by {
            if before.contains(d) {
                let s = choose|s: int|
                    0 <= s < n - 1 && (#[trigger] sources[s]).resource_directories.contains(d);
                assert(sources[s].resource_directories.contains(d));
            }
            if more.contains(d) {
                assert(sources[n - 1].resource_directories.contains(d));
            }
            if exists|s: int|
                0 <= s < n && (#[trigger] sources[s]).resource_directories.contains(d) {
                let s = choose|s: int|
                    0 <= s < n && (#[trigger] sources[s]).resource_directories.contains(d);
                if s < n - 1 {
                    assert(before.contains(d));
                }
            }
        }
    } else {
        assert(directories_after(sources, 0) =~= Seq::empty());
    }
}

/// Taking a sequence into itself as a further source leaves it as it is.
pub proof fn round_with_itself(combined: Seq<MessageModel>)
    ensures
        round(combined, combined) == combined,
{
    let c = combined;
    lemma_anchor_from(c, c, 0, 0);
    match anchor_of(c, c) {
        Some((i, j)) => {
            if i != 0 || j != 0 {
                let (len, k) = choose|len: int, k: int|
                    NUMBER_TO_ALIGN <= len && #[trigger] run_of(c, c, i, j, len) && 0 <= k < len
                        && #[trigger] plain_at(c, i, k);
                assert forall|t: int| 0 <= t < c.len() implies #[trigger] same_at(c, c, 0, 0, t) by {
                    crate::equality::same_message_reflexive(c[t]);
                }
                assert(run_of(c, c, 0, 0, c.len() as int));
                assert(plain_at(c, 0, i + k));
                assert(is_anchor(c, c, 0, 0));
                assert(earlier(0, 0, i, j));
            }
            walk_along_itself(c, 0);
            assert(c.take(0) + c.take(0) + c.skip(0) =~= c);
        },
        None => {
            if c.len() > 0 {
                assert(!(c[0].timestamp < c[0].timestamp));
                assert(!all_before(c, c));
            } else {
                assert(c + c =~= c);
            }
        },
    }
}

/// Merging a source with itself gives what merging it alone gives: no
/// message is doubled, none is lost.
pub proof fn merge_with_itself(chat: ChatModel)
    ensures
        merged(seq![chat, chat]).messages == merged(seq![chat]).messages,
        merged(seq![chat, chat]).messages == renumbered(chat.messages),
        merged(seq![chat, chat]).name == chat.name,
        chat.resource_directories.no_duplicates() ==> merged(seq![chat, chat]).resource_directories
            == chat.resource_directories,
{
    let twice = seq![chat, chat];
    merge_of_one_source(chat);
    first_source_is_kept(chat.messages);
    round_with_itself(chat.messages);
    assert(combined_after(twice, 0) =~= Seq::empty());
    assert(combined_after(twice, 1) == round(combined_after(twice, 0), twice[0].messages));
    assert(combined_after(twice, 2) == round(combined_after(twice, 1), twice[1].messages));
    let d = chat.resource_directories;
    if d.no_duplicates() {
        lemma_joined_distinct(d, d.len() as int);
        assert(d.take(d.len() as int) =~= d);
        assert(directories_after(twice, 0) =~= Seq::empty());
        assert(directories_after(twice, 1) == d);
        assert forall|t: int| 0 <= t < d.len() implies d.contains(#[trigger] d[t]) by {}
        lemma_joined_known(d, d, d.len() as int);
        assert(directories_after(twice, 2) == joined(directories_after(twice, 1), d, d.len() as int));
    }
}

/// A source without an anchor whose every message is later than every
/// combined message is put behind the combined sequence as it is.
pub proof fn disjoint_extension(combined: Seq<MessageModel>, source: Seq<MessageModel>)
    requires
        anchor_of(source, combined) is None,
        all_before(combined, source),
    ensures
        round(combined, source) == combined + source,
{
    if all_before(source, combined) {
        if source.len() > 0 && combined.len() > 0 {
            assert(source[0].timestamp < combined[0].timestamp);
            assert(combined[0].timestamp < source[0].timestamp);
        }
        assert(source + combined =~= combined + source);
    }
}

/// A source whose every message is later than every combined message by
/// more than the equality window has no anchor, and is put behind the
/// combined sequence as it is.
pub proof fn later_source_is_appended(combined: Seq<MessageModel>, source: Seq<MessageModel>)
    requires
        forall|a: int, b: int|
            0 <= a < combined.len() && 0 <= b < source.len() ==> (#[trigger] source[b]).timestamp - (
            #[trigger] combined[a]).timestamp > EQUALITY_WINDOW,
    ensures
        anchor_of(source, combined) is None,
        round(combined, source) == combined + source,
{
    anchor_needs_full_run(source, combined);
    match anchor_of(source, combined) {
        Some((i, j)) => {
            lemma_anchor_from(source, combined, 0, 0);
            assert(same_at(source, combined, i, j, 0));
            assert(source[i].timestamp - combined[j].timestamp > EQUALITY_WINDOW);
        },
        None => {},
    }
    assert(all_before(combined, source)) by {
        assert forall|a: int, b: int| 0 <= a < combined.len() && 0 <= b < source.len() implies (
        #[trigger] combined[a]).timestamp < (#[trigger] source[b]).timestamp by {
            assert(source[b].timestamp - combined[a].timestamp > EQUALITY_WINDOW);
        }
    }
    disjoint_extension(combined, source);
}

/// Whether every message of `first` was sent before every message of
/// `second`.
pub fn lies_before(first: &Vec<Message>, second: &Vec<Message>) -> (r: bool)
    ensures
        r == all_before(models_of(first@), models_of(second@)),
{
    if first.len() == 0 || second.len() == 0 {
        return true;
    }
    let high = latest(first);
    let low = earliest(second);
    let ghost a = models_of(first@);
    let ghost b = models_of(second@);
    proof {
        let x = choose|k: int| 0 <= k < first.len() && (#[trigger] first@[k]).timestamp == high;
        let y = choose|k: int| 0 <= k < second.len() && (#[trigger] second@[k]).timestamp == low;
        assert(a[x].timestamp == high && b[y].timestamp == low);
        if high < low {
            assert forall|u: int, v: int| 0 <= u < a.len() && 0 <= v < b.len() implies (
            #[trigger] a[u]).timestamp < (#[trigger] b[v]).timestamp by {
                assert(first@[u].timestamp <= high);
                assert(second@[v].timestamp >= low);
            }
        }
    }
    high < low
}

/// Takes one more source into the combined sequence, and says whether the
/// source was passed over.
pub fn take_source(combined: Vec<Message>, source: &Vec<Message>) -> (r: (Vec<Message>, bool))
    ensures
        models_of(r.0@) == round(models_of(combined@), models_of(source@)),
        r.1 == passed_over(models_of(combined@), models_of(source@)),
{
    let ghost c = models_of(combined@);
    let ghost s = models_of(source@);
    match find_anchor(source, &combined) {
        Some((i, j)) => {
            let mut out: Vec<Message> = Vec::new();
            assert(models_of(out@) =~= Seq::empty());
            push_range(&mut out, source, 0, i);
            push_range(&mut out, &combined, 0, j);
            align(source, &combined, i, j, &mut out);
            assert(models_of(out@) =~= s.take(i as int) + c.take(j as int) + walk(
                s,
                c,
                i as int,
                j as int,
            ));
            (out, false)
        },
        None => {
            if lies_before(source, &combined) {
                let mut out: Vec<Message> = Vec::new();
                assert(models_of(out@) =~= Seq::empty());
                push_range(&mut out, source, 0, source.len());
                push_range(&mut out, &combined, 0, combined.len());
                assert(models_of(out@) =~= s + c);
                (out, false)
            } else if lies_before(&combined, source) {
                let mut out = combined;
                push_range(&mut out, source, 0, source.len());
                assert(models_of(out@) =~= c + s);
                (out, false)
            } else {
                (combined, true)
            }
        },
    }
}

/// Adds the entries of `more` to `names`, each unless it is there.
fn join(names: &mut Vec<String>, more: &Vec<String>)
    ensures
        names_of(final(names)@) == joined(
            names_of(old(names)@),
            names_of(more@),
            more@.len() as int,
        ),
{
    let ghost before = names_of(names@);
    let mut k: usize = 0;
    while k < more.len()
        invariant
            k <= more.len(),
            names_of(names@) == joined(before, names_of(more@), k as int),
        decreases more.len() - k,
    {
        remember(names, &more[k]);
        k += 1;
    }
}

/// A merged chat, and the indices of the sources that could not be placed
/// and were passed over.
#[derive(Debug, PartialEq, Eq)]
pub struct MergeOutcome {
    pub chat: ParsedChat,
    pub passed_over: Vec<usize>,
}

/// Merges the exports of one conversation and reports the sources that
/// were passed over. Earlier sources take precedence: their messages are
/// the ones that stay where two sources hold the same message. The result
/// has the name of the first source and the resource directories of all,
/// each once; its messages stand at the positions of their indices.
pub fn merge_with_report(sources: &Vec<ParsedChat>) -> (r: MergeOutcome)
    requires
        sources@.len() > 0,
    ensures
        r.chat@ == merged(chats_of(sources@)),
        r.passed_over@ == passed_over_among(chats_of(sources@), sources@.len() as int),
        r.chat@.well_formed(),
{
    let ghost all = chats_of(sources@);
    let mut combined: Vec<Message> = Vec::new();
    let mut directories: Vec<String> = Vec::new();
    let mut passed: Vec<usize> = Vec::new();
    assert(models_of(combined@) =~= Seq::empty());
    assert(names_of(directories@) =~= Seq::empty());
    let mut n: usize = 0;
    while n < sources.len()
        invariant
            n <= sources.len(),
            all == chats_of(sources@),
            models_of(combined@) == combined_after(all, n as int),
            names_of(directories@) == directories_after(all, n as int),
            passed@ =~= passed_over_among(all, n as int),
        decreases sources.len() - n,
    {
        assert(all[n as int] == sources@[n as int]@);
        let (next, dropped) = take_source(combined, &sources[n].messages);
        combined = next;
        if dropped {
            passed.push(n);
        }
        join(&mut directories, &sources[n].resource_directories);
        n += 1;
    }
    renumber(&mut combined);
    proof {
        assert(all[0] == sources@[0]@);
        directories_are_the_union(all, all.len() as int);
    }
    MergeOutcome {
        chat: ParsedChat {
            messages: combined,
            resource_directories: directories,
            name: sources[0].name.clone(),
        },
        passed_over: passed,
    }
}

/// Merges the exports of one conversation: `merge_with_report` without
/// the report.
pub fn merge(sources: &Vec<ParsedChat>) -> (r: ParsedChat)
    requires
        sources@.len() > 0,
    ensures
        r@ == merged(chats_of(sources@)),
        r@.well_formed(),
{
    merge_with_report(sources).chat
}

} // verus!
