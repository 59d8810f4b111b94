//! What a merge never loses and never invents: every message that the
//! combined sequence holds stays in it, in its order, through every later
//! source, and every message of the result comes from one of the sources.

use vstd::prelude::*;
use crate::merge::{combined_after, merged, round};
use crate::model::{renumbered, ChatModel, ContentModel, MediaModel, MessageModel};
use crate::reconcile::{backfilled, emitted, filled, paired, step_at, walk, Step};

verus! {

/// Whether `kept` is the message `m` as a merge may leave it: at some
/// position, and if it is an attachment, with a path or a caption filled
/// in where `m` had none.
pub open spec fn retains(kept: MessageModel, m: MessageModel) -> bool {
    exists|other: MessageModel| kept.at_position(m.position) == #[trigger] backfilled(m, other)
}

/// Whether the messages of `inner` are all found in `outer`, in their
/// order, each as `retains` says.
pub open spec fn embeds(outer: Seq<MessageModel>, inner: Seq<MessageModel>) -> bool
    decreases outer.len(),
{
    if inner.len() == 0 {
        true
    } else if outer.len() == 0 {
        false
    } else {
        (retains(outer[0], inner[0]) && embeds(outer.skip(1), inner.skip(1))) || embeds(
            outer.skip(1),
            inner,
        )
    }
}

/// A message retains itself, and so does what a backfill makes of it.
pub proof fn lemma_retains_backfilled(m: MessageModel, other: MessageModel)
    ensures
        retains(m, m),
        retains(backfilled(m, other), m),
{
    assert(m.at_position(m.position) == backfilled(m, m));
    assert(backfilled(m, other).at_position(m.position) == backfilled(m, other));
}

/// What retains a message that retains `m` retains `m`.
pub proof fn lemma_retains_transitive(last: MessageModel, kept: MessageModel, m: MessageModel)
    requires
        retains(last, kept),
        retains(kept, m),
    ensures
        retains(last, m),
{
    let first = choose|other: MessageModel| kept.at_position(m.position) == #[trigger] backfilled(
        m,
        other,
    );
    let second = choose|other: MessageModel|
        last.at_position(kept.position) == #[trigger] backfilled(kept, other);
    match (m.content, first.content, second.content) {
        (ContentModel::Media(a), ContentModel::Media(b), ContentModel::Media(c)) => {
            let both = MessageModel {
                content: ContentModel::Media(
                    MediaModel {
                        kind: b.kind,
                        resolved_path: filled(b.resolved_path, c.resolved_path),
                        caption: filled(b.caption, c.caption),
                    },
                ),
                ..first
            };
            assert(last.at_position(m.position) == backfilled(m, both));
        },
        (ContentModel::Media(a), ContentModel::Media(b), _) => {
            assert(last.at_position(m.position) == backfilled(m, first));
        },
        (ContentModel::Media(a), _, _) => {
            assert(last.at_position(m.position) == backfilled(m, second));
        },
        _ => {
            assert(last.at_position(m.position) == backfilled(m, m));
        },
    }
}

/// Every sequence embeds the empty one.
pub proof fn lemma_embeds_nothing(outer: Seq<MessageModel>)
    ensures
        embeds(outer, Seq::empty()),
{
}

/// Messages put in front do no harm.
pub proof fn lemma_embeds_after(front: Seq<MessageModel>, outer: Seq<MessageModel>, inner: Seq<
    MessageModel,
>)
    requires
        embeds(outer, inner),
    ensures
        embeds(front + outer, inner),
    decreases front.len(),
{
    if front.len() == 0 {
        assert(front + outer =~= outer);
    } else if inner.len() > 0 {
        lemma_embeds_after(front.skip(1), outer, inner);
        assert((front + outer).skip(1) =~= front.skip(1) + outer);
    }
}

/// Two embeddings, one after the other, make one.
pub proof fn lemma_embeds_concat(
    a: Seq<MessageModel>,
    b: Seq<MessageModel>,
    c: Seq<MessageModel>,
    d: Seq<MessageModel>,
)
    requires
        embeds(a, b),
        embeds(c, d),
    ensures
        embeds(a + c, b + d),
    decreases a.len(),
{
    if b.len() == 0 {
        assert(b + d =~= d);
        lemma_embeds_after(a, c, d);
    } else {
        assert((a + c).skip(1) =~= a.skip(1) + c);
        if retains(a[0], b[0]) && embeds(a.skip(1), b.skip(1)) {
            lemma_embeds_concat(a.skip(1), b.skip(1), c, d);
            assert((b + d).skip(1) =~= b.skip(1) + d);
        } else {
            lemma_embeds_concat(a.skip(1), b, c, d);
        }
    }
}

/// A sequence of the same length that retains message by message embeds.
pub proof fn lemma_embeds_each(outer: Seq<MessageModel>, inner: Seq<MessageModel>)
    requires
        outer.len() == inner.len(),
        forall|k: int| 0 <= k < inner.len() ==> retains(#[trigger] outer[k], inner[k]),
    ensures
        embeds(outer, inner),
    decreases outer.len(),
{
    if inner.len() > 0 {
        assert forall|k: int| 0 <= k < inner.skip(1).len() implies retains(
            #[trigger] outer.skip(1)[k],
            inner.skip(1)[k],
        ) by {
            assert(outer.skip(1)[k] == outer[k + 1]);
        }
        lemma_embeds_each(outer.skip(1), inner.skip(1));
    }
}

/// A sequence embeds itself.
pub proof fn lemma_embeds_itself(s: Seq<MessageModel>)
    ensures
        embeds(s, s),
{
    assert forall|k: int| 0 <= k < s.len() implies retains(#[trigger] s[k], s[k]) by {
        lemma_retains_backfilled(s[k], s[k]);
    }
    lemma_embeds_each(s, s);
}

/// Embedding goes through a sequence in the middle.
pub proof fn lemma_embeds_transitive(
    outer: Seq<MessageModel>,
    middle: Seq<MessageModel>,
    inner: Seq<MessageModel>,
)
    requires
        embeds(outer, middle),
        embeds(middle, inner),
    ensures
        embeds(outer, inner),
    decreases outer.len(), middle.len(),
{
    if inner.len() == 0 {
    } else if middle.len() == 0 {
    } else if outer.len() == 0 {
    } else {
        if retains(outer[0], middle[0]) && embeds(outer.skip(1), middle.skip(1)) {
            if retains(middle[0], inner[0]) && embeds(middle.skip(1), inner.skip(1)) {
                lemma_retains_transitive(outer[0], middle[0], inner[0]);
                lemma_embeds_transitive(outer.skip(1), middle.skip(1), inner.skip(1));
            } else {
                lemma_embeds_transitive(outer.skip(1), middle.skip(1), inner);
            }
        } else {
            lemma_embeds_transitive(outer.skip(1), middle, inner);
        }
    }
}

/// Changing positions does no harm.
pub proof fn lemma_embeds_renumbered(outer: Seq<MessageModel>, other: Seq<MessageModel>, inner: Seq<
    MessageModel,
>)
    requires
        embeds(outer, inner),
        other.len() == outer.len(),
        forall|k: int|
            0 <= k < outer.len() ==> (#[trigger] other[k]).at_position(0) == outer[k].at_position(0),
    ensures
        embeds(other, inner),
    decreases outer.len(),
{
    if inner.len() > 0 && outer.len() > 0 {
        assert forall|k: int| 0 <= k < outer.skip(1).len() implies (#[trigger] other.skip(
            1,
        )[k]).at_position(0) == outer.skip(1)[k].at_position(0) by {
            assert(other.skip(1)[k] == other[k + 1]);
            assert(outer.skip(1)[k] == outer[k + 1]);
        }
        if retains(outer[0], inner[0]) && embeds(outer.skip(1), inner.skip(1)) {
            let m = inner[0];
            let filler = choose|x: MessageModel|
                outer[0].at_position(m.position) == #[trigger] backfilled(m, x);
            assert(other[0].at_position(0) == outer[0].at_position(0));
            assert(other[0].at_position(m.position) == backfilled(m, filler));
            lemma_embeds_renumbered(outer.skip(1), other.skip(1), inner.skip(1));
        } else {
            lemma_embeds_renumbered(outer.skip(1), other.skip(1), inner);
        }
    }
}

/// What a step leaves holds every combined message that the step uses up.
pub proof fn lemma_step_retains(
    source: Seq<MessageModel>,
    combined: Seq<MessageModel>,
    i: int,
    j: int,
    step: Step,
)
    requires
        0 <= i < source.len(),
        0 <= j < combined.len(),
        step.fits(source.len() as int, combined.len() as int, i, j),
    ensures
        embeds(
            emitted(source, combined, i, j, step),
            combined.subrange(j, j + step.combined_used()),
        ),
{
    match step {
        Step::Cover { count } => {
            let plain = combined.subrange(j, j + count);
            let last = seq![backfilled(combined[j + count], source[i])];
            lemma_embeds_itself(plain);
            lemma_retains_backfilled(combined[j + count], source[i]);
            lemma_embeds_each(last, seq![combined[j + count]]);
            lemma_embeds_concat(plain, plain, last, seq![combined[j + count]]);
            assert(plain + last =~= emitted(source, combined, i, j, step));
            assert(plain + seq![combined[j + count]] =~= combined.subrange(j, j + count + 1));
        },
        Step::Splice { count } => {
            let front = source.subrange(i, i + count);
            let last = seq![backfilled(combined[j], source[i + count])];
            lemma_retains_backfilled(combined[j], source[i + count]);
            lemma_embeds_each(last, seq![combined[j]]);
            lemma_embeds_after(front, last, seq![combined[j]]);
            assert(front + last =~= emitted(source, combined, i, j, step));
            assert(seq![combined[j]] =~= combined.subrange(j, j + 1));
        },
        Step::Reorder { order } => {
            let out = paired(source, combined, i, j, order);
            let inner = combined.subrange(j, j + order.len());
            assert forall|t: int| 0 <= t < inner.len() implies retains(#[trigger] out[t], inner[t]) by {
                lemma_retains_backfilled(combined[j + t], source[i + order[t]]);
            }
            lemma_embeds_each(out, inner);
        },
        Step::Stop => {
            assert(combined.subrange(j, j) =~= Seq::empty());
        },
    }
}

/// What the walk leaves holds every combined message from `j` on, in
/// order.
pub proof fn walk_keeps_combined(
    source: Seq<MessageModel>,
    combined: Seq<MessageModel>,
    i: int,
    j: int,
)
    requires
        0 <= i <= source.len(),
        0 <= j <= combined.len(),
    ensures
        embeds(walk(source, combined, i, j), combined.skip(j)),
    decreases source.len() - i + combined.len() - j,
{
    let rest = combined.skip(j);
    if i >= source.len() {
        lemma_embeds_itself(rest);
    } else if j >= combined.len() {
    } else if crate::reconcile::aligned(source[i], combined[j]) {
        let head = seq![backfilled(combined[j], source[i])];
        walk_keeps_combined(source, combined, i + 1, j + 1);
        lemma_retains_backfilled(combined[j], source[i]);
        lemma_embeds_each(head, seq![combined[j]]);
        lemma_embeds_concat(
            head,
            seq![combined[j]],
            walk(source, combined, i + 1, j + 1),
            combined.skip(j + 1),
        );
        assert(seq![combined[j]] + combined.skip(j + 1) =~= rest);
    } else {
        let step = step_at(source, combined, i, j);
        if step is Stop || !step.fits(source.len() as int, combined.len() as int, i, j) {
            lemma_embeds_itself(rest);
        } else {
            let used = step.combined_used();
            walk_keeps_combined(source, combined, i + step.source_used(), j + used);
            lemma_step_retains(source, combined, i, j, step);
            lemma_embeds_concat(
                emitted(source, combined, i, j, step),
                combined.subrange(j, j + used),
                walk(source, combined, i + step.source_used(), j + used),
                combined.skip(j + used),
            );
            assert(combined.subrange(j, j + used) + combined.skip(j + used) =~= rest);
        }
    }
}

/// A round keeps every message of the combined sequence, in order.
pub proof fn round_keeps_combined(combined: Seq<MessageModel>, source: Seq<MessageModel>)
    ensures
        embeds(round(combined, source), combined),
{
    crate::anchor::anchor_is_first(source, combined);
    lemma_embeds_itself(combined);
    match crate::anchor::anchor_of(source, combined) {
        Some((i, j)) => {
            walk_keeps_combined(source, combined, i, j);
            lemma_embeds_itself(combined.take(j));
            lemma_embeds_concat(
                combined.take(j),
                combined.take(j),
                walk(source, combined, i, j),
                combined.skip(j),
            );
            assert(combined.take(j) + combined.skip(j) =~= combined);
            lemma_embeds_after(
                source.take(i),
                combined.take(j) + walk(source, combined, i, j),
                combined,
            );
            assert(source.take(i) + (combined.take(j) + walk(source, combined, i, j)) =~= round(
                combined,
                source,
            ));
        },
        None => {
            lemma_embeds_after(source, combined, combined);
            lemma_embeds_nothing(source);
            lemma_embeds_concat(combined, combined, source, Seq::empty());
            assert(combined + Seq::<MessageModel>::empty() =~= combined);
        },
    }
}

/// Every message of a source that was taken in as the `k`-th stays through
/// all later rounds: what the combined sequence holds after `k` sources is
/// found, in order, in what it holds after `n`.
pub proof fn rounds_keep_combined(sources: Seq<ChatModel>, k: int, n: int)
    requires
        0 <= k <= n,
    ensures
        embeds(combined_after(sources, n), combined_after(sources, k)),
    decreases n - k,
{
    if k == n {
        lemma_embeds_itself(combined_after(sources, n));
    } else {
        rounds_keep_combined(sources, k, n - 1);
        round_keeps_combined(combined_after(sources, n - 1), sources[n - 1].messages);
        lemma_embeds_transitive(
            combined_after(sources, n),
            combined_after(sources, n - 1),
            combined_after(sources, k),
        );
    }
}

/// The source of highest priority is never cut: the merged chat holds
/// every one of its messages, in order, with its star, and with nothing
/// changed but the position and, for an attachment, a path or a caption
/// that it lacked.
pub proof fn merge_keeps_first_source(sources: Seq<ChatModel>)
    requires
        sources.len() > 0,
    ensures
        embeds(merged(sources).messages, sources[0].messages),
{
    let n = sources.len() as int;
    rounds_keep_combined(sources, 1, n);
    crate::merge::first_source_is_kept(sources[0].messages);
    assert(combined_after(sources, 0) =~= Seq::empty());
    assert(combined_after(sources, 1) == sources[0].messages);
    let all = combined_after(sources, n);
    lemma_embeds_renumbered(all, renumbered(all), sources[0].messages);
}

/// Whether `m` is a message of `source` as it is, or a message of
/// `combined` as a merge may leave it.
pub open spec fn comes_from(
    m: MessageModel,
    source: Seq<MessageModel>,
    combined: Seq<MessageModel>,
) -> bool {
    ||| exists|a: int| 0 <= a < source.len() && #[trigger] source[a] == m
    ||| exists|b: int| 0 <= b < combined.len() && retains(m, #[trigger] combined[b])
}

/// Whether every message of `out` comes from `source` or `combined`.
pub open spec fn all_come_from(
    out: Seq<MessageModel>,
    source: Seq<MessageModel>,
    combined: Seq<MessageModel>,
) -> bool {
    forall|k: int| 0 <= k < out.len() ==> comes_from(#[trigger] out[k], source, combined)
}

/// A message of the source comes from it.
pub proof fn lemma_from_source(source: Seq<MessageModel>, combined: Seq<MessageModel>, a: int)
    requires
        0 <= a < source.len(),
    ensures
        comes_from(source[a], source, combined),
{
}

/// A message of the combined sequence, backfilled or not, comes from it.
pub proof fn lemma_from_combined(
    source: Seq<MessageModel>,
    combined: Seq<MessageModel>,
    b: int,
    other: MessageModel,
)
    requires
        0 <= b < combined.len(),
    ensures
        comes_from(combined[b], source, combined),
        comes_from(backfilled(combined[b], other), source, combined),
{
    lemma_retains_backfilled(combined[b], other);
}

/// What a step leaves comes from the two sides.
pub proof fn lemma_step_invents_nothing(
    source: Seq<MessageModel>,
    combined: Seq<MessageModel>,
    i: int,
    j: int,
    step: Step,
)
    requires
        0 <= i < source.len(),
        0 <= j < combined.len(),
        step.fits(source.len() as int, combined.len() as int, i, j),
    ensures
        all_come_from(emitted(source, combined, i, j, step), source, combined),
{
    let out = emitted(source, combined, i, j, step);
    assert forall|k: int| 0 <= k < out.len() implies comes_from(#[trigger] out[k], source, combined) by {
        match step {
            Step::Cover { count } => {
                if k < count {
                    lemma_from_combined(source, combined, j + k, source[i]);
                } else {
                    lemma_from_combined(source, combined, j + count, source[i]);
                }
            },
            Step::Splice { count } => {
                if k < count {
                    lemma_from_source(source, combined, i + k);
                } else {
                    lemma_from_combined(source, combined, j, source[i + count]);
                }
            },
            Step::Reorder { order } => {
                lemma_from_combined(source, combined, j + k, source[i + order[k]]);
            },
            Step::Stop => {},
        }
    }
}

/// What the walk leaves comes from the two sides: each message is a
/// message of the source, or a combined message as a merge may leave it.
pub proof fn walk_invents_nothing(
    source: Seq<MessageModel>,
    combined: Seq<MessageModel>,
    i: int,
    j: int,
)
    requires
        0 <= i <= source.len(),
        0 <= j <= combined.len(),
    ensures
        all_come_from(walk(source, combined, i, j), source, combined),
    decreases source.len() - i + combined.len() - j,
{
    let out = walk(source, combined, i, j);
    if i >= source.len() {
        assert forall|k: int| 0 <= k < out.len() implies comes_from(
            #[trigger] out[k],
            source,
            combined,
        ) by {
            lemma_from_combined(source, combined, j + k, combined[j + k]);
        }
    } else if j >= combined.len() {
        assert forall|k: int| 0 <= k < out.len() implies comes_from(
            #[trigger] out[k],
            source,
            combined,
        ) by {
            lemma_from_source(source, combined, i + k);
        }
    } else if crate::reconcile::aligned(source[i], combined[j]) {
        walk_invents_nothing(source, combined, i + 1, j + 1);
        let tail = walk(source, combined, i + 1, j + 1);
        assert forall|k: int| 0 <= k < out.len() implies comes_from(
            #[trigger] out[k],
            source,
            combined,
        ) by {
            if k == 0 {
                lemma_from_combined(source, combined, j, source[i]);
            } else {
                assert(out[k] == tail[k - 1]);
            }
        }
    } else {
        let step = step_at(source, combined, i, j);
        if step is Stop || !step.fits(source.len() as int, combined.len() as int, i, j) {
            assert forall|k: int| 0 <= k < out.len() implies comes_from(
                #[trigger] out[k],
                source,
                combined,
            ) by {
                lemma_from_combined(source, combined, j + k, combined[j + k]);
            }
        } else {
            let head = emitted(source, combined, i, j, step);
            let tail = walk(source, combined, i + step.source_used(), j + step.combined_used());
            walk_invents_nothing(
                source,
                combined,
                i + step.source_used(),
                j + step.combined_used(),
            );
            lemma_step_invents_nothing(source, combined, i, j, step);
            assert forall|k: int| 0 <= k < out.len() implies comes_from(
                #[trigger] out[k],
                source,
                combined,
            ) by {
                if k < head.len() {
                    assert(out[k] == head[k]);
                } else {
                    assert(out[k] == tail[k - head.len()]);
                }
            }
        }
    }
}

/// What a round leaves comes from the source and the combined sequence.
pub proof fn round_invents_nothing(combined: Seq<MessageModel>, source: Seq<MessageModel>)
    ensures
        all_come_from(round(combined, source), source, combined),
{
    crate::anchor::anchor_is_first(source, combined);
    let out = round(combined, source);
    match crate::anchor::anchor_of(source, combined) {
        Some((i, j)) => {
            walk_invents_nothing(source, combined, i, j);
            let tail = walk(source, combined, i, j);
            assert forall|k: int| 0 <= k < out.len() implies comes_from(
                #[trigger] out[k],
                source,
                combined,
            ) by {
                if k < i {
                    lemma_from_source(source, combined, k);
                } else if k < i + j {
                    lemma_from_combined(source, combined, k - i, combined[k - i]);
                } else {
                    assert(out[k] == tail[k - i - j]);
                }
            }
        },
        None => {
            assert forall|k: int| 0 <= k < out.len() implies comes_from(
                #[trigger] out[k],
                source,
                combined,
            ) by {
                if crate::merge::all_before(source, combined) {
                    if k < source.len() {
                        lemma_from_source(source, combined, k);
                    } else {
                        let b = k - source.len();
                        lemma_from_combined(source, combined, b, combined[b]);
                    }
                } else if k < combined.len() {
                    lemma_from_combined(source, combined, k, combined[k]);
                } else {
                    lemma_from_source(source, combined, k - combined.len());
                }
            }
        },
    }
}

/// Whether `m` is a message of one of the first `n` sources as a merge may
/// leave it.
pub open spec fn is_of_a_source(m: MessageModel, sources: Seq<ChatModel>, n: int) -> bool {
    exists|s: int, a: int|
        0 <= s < n && s < sources.len() && 0 <= a < sources[s].messages.len() && retains(
            m,
            #[trigger] sources[s].messages[a],
        )
}

/// Every message of the combined sequence after `n` sources is a message
/// of one of them.
pub proof fn rounds_invent_nothing(sources: Seq<ChatModel>, n: int)
    requires
        0 <= n <= sources.len(),
    ensures
        forall|k: int|
            0 <= k < combined_after(sources, n).len() ==> is_of_a_source(
                #[trigger] combined_after(sources, n)[k],
                sources,
                n,
            ),
    decreases n,
{
    if n > 0 {
        let before = combined_after(sources, n - 1);
        let source = sources[n - 1].messages;
        let out = combined_after(sources, n);
        rounds_invent_nothing(sources, n - 1);
        round_invents_nothing(before, source);
        assert forall|k: int| 0 <= k < out.len() implies is_of_a_source(
            #[trigger] out[k],
            sources,
            n,
        ) by {
            assert(comes_from(out[k], source, before));
            if exists|a: int| 0 <= a < source.len() && #[trigger] source[a] == out[k] {
                let a = choose|a: int| 0 <= a < source.len() && #[trigger] source[a] == out[k];
                lemma_retains_backfilled(source[a], source[a]);
                assert(retains(out[k], sources[n - 1].messages[a]));
            } else {
                let b = choose|b: int| 0 <= b < before.len() && retains(out[k], #[trigger] before[b]);
                assert(is_of_a_source(before[b], sources, n - 1));
                let (s, a) = choose|s: int, a: int|
                    0 <= s < n - 1 && s < sources.len() && 0 <= a < sources[s].messages.len()
                        && retains(before[b], #[trigger] sources[s].messages[a]);
                lemma_retains_transitive(out[k], before[b], sources[s].messages[a]);
            }
        }
    }
}

/// A merge invents nothing: every message of the merged chat is a message
/// of one of the sources, with nothing changed but the position and, for
/// an attachment, a path or a caption that it lacked.
pub proof fn merge_invents_nothing(sources: Seq<ChatModel>)
    ensures
        forall|k: int|
            0 <= k < merged(sources).messages.len() ==> is_of_a_source(
                #[trigger] merged(sources).messages[k],
                sources,
                sources.len() as int,
            ),
{
    let n = sources.len() as int;
    let all = combined_after(sources, n);
    rounds_invent_nothing(sources, n);
    assert forall|k: int| 0 <= k < merged(sources).messages.len() implies is_of_a_source(
        #[trigger] merged(sources).messages[k],
        sources,
        n,
    ) by {
        let m = merged(sources).messages[k];
        assert(m == all[k].at_position(k));
        assert(is_of_a_source(all[k], sources, n));
        let (s, a) = choose|s: int, a: int|
            0 <= s < n && s < sources.len() && 0 <= a < sources[s].messages.len() && retains(
                all[k],
                #[trigger] sources[s].messages[a],
            );
        let origin = sources[s].messages[a];
        let filler = choose|x: MessageModel|
            all[k].at_position(origin.position) == #[trigger] backfilled(origin, x);
        assert(m.at_position(origin.position) == backfilled(origin, filler));
    }
}

} // verus!
