//! Walking the overlap of a new source and the combined sequence from an
//! anchor on, and reconciling the places where the two disagree.

use vstd::prelude::*;
use crate::equality::{same_message, within};
use crate::model::{
    copy_opt, models_of, opt_chars, ContentModel, Media, MediaModel, Message, MessageContent,
    MessageModel,
};
use crate::text::{chars_of, has_prefix, lowered, starts_with, to_lower, trim, trimmed};

verus! {

/// The most messages on each side that may have changed places.
pub const MAX_OUT_OF_ORDER: usize = 10;

/// The most messages that may be missing on one side.
pub const MAX_SKIPPABLE: usize = 3;

/// Messages further apart than this many seconds are looked for further
/// on instead of being compared in place: one day.
pub const RECONCILE_GAP: i64 = 86_400;

/// The value that is kept: the one present, else the other.
pub open spec fn filled(kept: Option<Seq<char>>, other: Option<Seq<char>>) -> Option<Seq<char>> {
    if kept is Some {
        kept
    } else {
        other
    }
}

/// The message that stays when `kept` is matched with `other`: `kept`, and
/// if both are attachments, with the path and the caption of `other` where
/// `kept` has none.
pub open spec fn backfilled(kept: MessageModel, other: MessageModel) -> MessageModel {
    match (kept.content, other.content) {
        (ContentModel::Media(a), ContentModel::Media(b)) => MessageModel {
            content: ContentModel::Media(
                MediaModel {
                    kind: a.kind,
                    resolved_path: filled(a.resolved_path, b.resolved_path),
                    caption: filled(a.caption, b.caption),
                },
            ),
            ..kept
        },
        _ => kept,
    }
}

/// Whether the message is a shared location: text that, trimmed and in
/// lower case, starts with `location:`.
pub open spec fn is_location(m: MessageModel) -> bool {
    match m.content {
        ContentModel::Text(t) => starts_with(lowered(trimmed(t)), "location:"@),
        _ => false,
    }
}

/// Whether two messages at the same place of the walk go together: they
/// are the same, or both are system events, or both are locations.
pub open spec fn aligned(a: MessageModel, b: MessageModel) -> bool {
    ||| same_message(a, b)
    ||| (a.content is System && b.content is System)
    ||| (is_location(a) && is_location(b))
}

/// The first index at or after `from` at which `s` holds a message that is
/// the same as `m`.
pub open spec fn first_same(s: Seq<MessageModel>, m: MessageModel, from: int) -> Option<int>
    decreases s.len() - from,
{
    if from < 0 || from >= s.len() {
        None
    } else if same_message(s[from], m) {
        Some(from)
    } else {
        first_same(s, m, from + 1)
    }
}

/// The first way, in the order in which candidates are tried, to give each
/// of the places `chosen.len()..w` of the combined side one of the `w`
/// messages of the source side that is the same as it and not yet taken.
/// `chosen[t]` is the offset on the source side that place `t` got;
/// candidates below `candidate` are no longer tried for the next place.
pub open spec fn completed(
    source: Seq<MessageModel>,
    combined: Seq<MessageModel>,
    i: int,
    j: int,
    w: int,
    chosen: Seq<int>,
    candidate: int,
) -> Option<Seq<int>>
    decreases w - chosen.len(), w - candidate,
{
    if chosen.len() >= w {
        Some(chosen)
    } else if candidate < 0 || candidate >= w {
        None
    } else if !chosen.contains(candidate) && same_message(
        source[i + candidate],
        combined[j + chosen.len()],
    ) {
        match completed(source, combined, i, j, w, chosen.push(candidate), 0) {
            Some(order) => Some(order),
            None => completed(source, combined, i, j, w, chosen, candidate + 1),
        }
    } else {
        completed(source, combined, i, j, w, chosen, candidate + 1)
    }
}

/// The first reordering that pairs the next `w` messages of both sides,
/// for the least `w` from `w` on that has one.
pub open spec fn reordered(
    source: Seq<MessageModel>,
    combined: Seq<MessageModel>,
    i: int,
    j: int,
    w: int,
) -> Option<Seq<int>>
    decreases MAX_OUT_OF_ORDER + 1 - w,
{
    if w < 2 || w > MAX_OUT_OF_ORDER || i + w > source.len() || j + w > combined.len() {
        None
    } else {
        match completed(source, combined, i, j, w, Seq::empty(), 0) {
            Some(order) => Some(order),
            None => reordered(source, combined, i, j, w + 1),
        }
    }
}

/// How the walk gets past a pair that does not go together.
pub enum Step {
    /// The next `count` messages of the combined side have no partner; the
    /// one after them is matched with the current source message.
    Cover { count: int },
    /// The next `count` messages of the source have no partner and are put
    /// in; the one after them is matched with the current combined message.
    Splice { count: int },
    /// The next `order.len()` messages of both sides are the same up to
    /// their order: the combined message at offset `t` is matched with the
    /// source message at offset `order[t]`.
    Reorder { order: Seq<int> },
    /// Nothing helps; the walk ends here.
    Stop,
}

/// The first skip of `n` to `MAX_SKIPPABLE` messages, on the source side
/// before the combined side, after which the messages are the same.
pub open spec fn skipped(
    source: Seq<MessageModel>,
    combined: Seq<MessageModel>,
    i: int,
    j: int,
    n: int,
) -> Step
    decreases MAX_SKIPPABLE + 1 - n,
{
    if n < 1 || n > MAX_SKIPPABLE {
        Step::Stop
    } else if i + n < source.len() && same_message(source[i + n], combined[j]) {
        Step::Splice { count: n }
    } else if j + n < combined.len() && same_message(combined[j + n], source[i]) {
        Step::Cover { count: n }
    } else {
        skipped(source, combined, i, j, n + 1)
    }
}

/// Where the source message is more than a day newer than the combined
/// one: the first later combined message that is the same as it.
pub open spec fn found_ahead(
    source: Seq<MessageModel>,
    combined: Seq<MessageModel>,
    i: int,
    j: int,
) -> Option<
    int,
> {
    if source[i].timestamp - combined[j].timestamp > RECONCILE_GAP {
        first_same(combined, source[i], j + 1)
    } else {
        None
    }
}

/// Where the source message is more than a day older than the combined
/// one: the first later source message that is the same as the combined
/// one.
pub open spec fn found_behind(
    source: Seq<MessageModel>,
    combined: Seq<MessageModel>,
    i: int,
    j: int,
) -> Option<
    int,
> {
    if combined[j].timestamp - source[i].timestamp > RECONCILE_GAP {
        first_same(source, combined[j], i + 1)
    } else {
        None
    }
}

/// The step taken at a pair that does not go together. The remedies are
/// tried in this order: look ahead in the combined side, look ahead in the
/// source, reorder, skip.
pub open spec fn step_at(
    source: Seq<MessageModel>,
    combined: Seq<MessageModel>,
    i: int,
    j: int,
) -> Step {
    if let Some(k) = found_ahead(source, combined, i, j) {
        Step::Cover { count: k - j }
    } else if let Some(k) = found_behind(source, combined, i, j) {
        Step::Splice { count: k - i }
    } else if let Some(order) = reordered(source, combined, i, j, 2) {
        Step::Reorder { order }
    } else {
        skipped(source, combined, i, j, 1)
    }
}

/// The combined messages of a reordered window, each with what its partner
/// adds.
pub open spec fn paired(
    source: Seq<MessageModel>,
    combined: Seq<MessageModel>,
    i: int,
    j: int,
    order: Seq<int>,
) -> Seq<MessageModel> {
    Seq::new(order.len(), |t: int| backfilled(combined[j + t], source[i + order[t]]))
}

impl Step {
    /// Whether the step stays inside both sequences when taken at `(i, j)`
    /// with `n` source messages and `m` combined ones.
    pub open spec fn fits(self, n: int, m: int, i: int, j: int) -> bool {
        match self {
            Step::Cover { count } => 0 < count && j + count < m,
            Step::Splice { count } => 0 < count && i + count < n,
            Step::Reorder { order } => {
                &&& 0 < order.len()
                &&& i + order.len() <= n
                &&& j + order.len() <= m
                &&& forall|t: int| 0 <= t < order.len() ==> 0 <= #[trigger] order[t] < order.len()
            },
            Step::Stop => true,
        }
    }

    /// How many source messages the step uses up.
    pub open spec fn source_used(self) -> int {
        match self {
            Step::Cover { count } => 1,
            Step::Splice { count } => count + 1,
            Step::Reorder { order } => order.len() as int,
            Step::Stop => 0,
        }
    }

    /// How many combined messages the step uses up.
    pub open spec fn combined_used(self) -> int {
        match self {
            Step::Cover { count } => count + 1,
            Step::Splice { count } => 1,
            Step::Reorder { order } => order.len() as int,
            Step::Stop => 0,
        }
    }
}

/// What a step taken at `(i, j)` leaves of the messages that it uses up.
pub open spec fn emitted(
    source: Seq<MessageModel>,
    combined: Seq<MessageModel>,
    i: int,
    j: int,
    step: Step,
) -> Seq<MessageModel> {
    match step {
        Step::Cover { count } => combined.subrange(j, j + count).push(
            backfilled(combined[j + count], source[i]),
        ),
        Step::Splice { count } => source.subrange(i, i + count).push(
            backfilled(combined[j], source[i + count]),
        ),
        Step::Reorder { order } => paired(source, combined, i, j, order),
        Step::Stop => Seq::empty(),
    }
}

/// What the walk from `(i, j)` leaves of both sides, from there to the
/// end.
///
/// A side that has ended leaves the rest of the other. A pair that goes
/// together leaves the combined message, backfilled. Otherwise the step
/// decides; where nothing helps, the rest of the combined side stays and
/// the rest of the source is passed over.
pub open spec fn walk(
    source: Seq<MessageModel>,
    combined: Seq<MessageModel>,
    i: int,
    j: int,
) -> Seq<
    MessageModel,
>
    decreases source.len() - i + combined.len() - j,
{
    if i < 0 || j < 0 || j > combined.len() {
        Seq::empty()
    } else if i >= source.len() {
        combined.skip(j)
    } else if j >= combined.len() {
        source.skip(i)
    } else if aligned(source[i], combined[j]) {
        seq![backfilled(combined[j], source[i])] + walk(source, combined, i + 1, j + 1)
    } else {
        let step = step_at(source, combined, i, j);
        if step is Stop || !step.fits(source.len() as int, combined.len() as int, i, j) {
            combined.skip(j)
        } else {
            emitted(source, combined, i, j, step) + walk(
                source,
                combined,
                i + step.source_used(),
                j + step.combined_used(),
            )
        }
    }
}

/// Whether `chosen` gives the first `chosen.len()` places of a window of
/// `w` messages at `(i, j)` each a partner of its own: offsets inside the
/// window, none twice, each the same message as the one at its place.
pub open spec fn is_partial_pairing(
    source: Seq<MessageModel>,
    combined: Seq<MessageModel>,
    i: int,
    j: int,
    w: int,
    chosen: Seq<int>,
) -> bool {
    &&& chosen.len() <= w
    &&& chosen.no_duplicates()
    &&& forall|t: int| 0 <= t < chosen.len() ==> 0 <= #[trigger] chosen[t] < w
    &&& forall|t: int|
        0 <= t < chosen.len() ==> same_message(source[i + #[trigger] chosen[t]], combined[j + t])
}

/// Whether `order` pairs the `w` messages at `source[i..]` with the `w`
/// messages at `combined[j..]`, one to one, the same with the same.
pub open spec fn is_pairing(
    source: Seq<MessageModel>,
    combined: Seq<MessageModel>,
    i: int,
    j: int,
    w: int,
    order: Seq<int>,
) -> bool {
    order.len() == w && is_partial_pairing(source, combined, i, j, w, order)
}

/// What `completed` finds is a pairing of the whole window that starts
/// with what was chosen already.
pub proof fn lemma_completed_is_pairing(
    source: Seq<MessageModel>,
    combined: Seq<MessageModel>,
    i: int,
    j: int,
    w: int,
    chosen: Seq<int>,
    candidate: int,
)
    requires
        is_partial_pairing(source, combined, i, j, w, chosen),
    ensures
        match completed(source, combined, i, j, w, chosen, candidate) {
            Some(order) => is_pairing(source, combined, i, j, w, order) && order.take(
                chosen.len() as int,
            ) == chosen,
            None => true,
        },
    decreases w - chosen.len(), w - candidate,
{
    if chosen.len() >= w {
        assert(chosen.take(chosen.len() as int) =~= chosen);
    } else if candidate < 0 || candidate >= w {
    } else if !chosen.contains(candidate) && same_message(
        source[i + candidate],
        combined[j + chosen.len()],
    ) {
        let next = chosen.push(candidate);
        assert(is_partial_pairing(source, combined, i, j, w, next)) by {
            assert forall|t: int, u: int| 0 <= t < next.len() && 0 <= u < next.len() && t
                != u implies next[t] != next[u] by {
                if t < chosen.len() && u < chosen.len() {
                    assert(chosen[t] != chosen[u]);
                } else if t < chosen.len() {
                    assert(chosen.contains(chosen[t]));
                } else if u < chosen.len() {
                    assert(chosen.contains(chosen[u]));
                }
            }
        }
        lemma_completed_is_pairing(source, combined, i, j, w, next, 0);
        match completed(source, combined, i, j, w, next, 0) {
            Some(order) => {
                assert(order.take(chosen.len() as int) =~= order.take(next.len() as int).take(
                    chosen.len() as int,
                ));
                assert(next.take(chosen.len() as int) =~= chosen);
            },
            None => {
                lemma_completed_is_pairing(source, combined, i, j, w, chosen, candidate + 1);
            },
        }
    } else {
        lemma_completed_is_pairing(source, combined, i, j, w, chosen, candidate + 1);
    }
}

/// Where the window has a pairing that starts with what was chosen and
/// goes on with a candidate that is still to be tried, `completed` finds
/// one.
pub proof fn lemma_completed_finds_pairing(
    source: Seq<MessageModel>,
    combined: Seq<MessageModel>,
    i: int,
    j: int,
    w: int,
    chosen: Seq<int>,
    candidate: int,
    pairing: Seq<int>,
)
    requires
        is_pairing(source, combined, i, j, w, pairing),
        chosen.len() <= w,
        pairing.take(chosen.len() as int) == chosen,
        0 <= candidate,
        chosen.len() < w ==> candidate <= pairing[chosen.len() as int],
    ensures
        completed(source, combined, i, j, w, chosen, candidate) is Some,
    decreases w - chosen.len(), w - candidate,
{
    if chosen.len() >= w {
    } else {
        let place = chosen.len() as int;
        let partner = pairing[place];
        assert(0 <= partner < w);
        assert(!chosen.contains(partner)) by {
            if chosen.contains(partner) {
                let t = choose|t: int| 0 <= t < chosen.len() && chosen[t] == partner;
                assert(pairing.take(place)[t] == pairing[t]);
                assert(pairing[t] == pairing[place]);
            }
        }
        assert(same_message(source[i + partner], combined[j + place]));
        if candidate == partner {
            assert(pairing.take(place + 1) =~= chosen.push(partner));
            lemma_completed_finds_pairing(
                source,
                combined,
                i,
                j,
                w,
                chosen.push(partner),
                0,
                pairing,
            );
        } else {
            lemma_completed_finds_pairing(source, combined, i, j, w, chosen, candidate + 1, pairing);
        }
    }
}

/// Whether `p` comes no later than `q` when pairings are listed by their
/// first offset, then their second, and so on.
pub open spec fn no_later(p: Seq<int>, q: Seq<int>) -> bool {
    p == q || exists|k: int|
        0 <= k < p.len() && k < q.len() && #[trigger] p.take(k) == q.take(k) && p[k] < q[k]
}

/// What `completed` finds comes no later than any pairing of the window
/// that starts with what was chosen and goes on with a candidate that is
/// still to be tried.
pub proof fn lemma_completed_is_first(
    source: Seq<MessageModel>,
    combined: Seq<MessageModel>,
    i: int,
    j: int,
    w: int,
    chosen: Seq<int>,
    candidate: int,
    pairing: Seq<int>,
)
    requires
        is_partial_pairing(source, combined, i, j, w, chosen),
        is_pairing(source, combined, i, j, w, pairing),
        pairing.take(chosen.len() as int) == chosen,
        0 <= candidate,
        chosen.len() < w ==> candidate <= pairing[chosen.len() as int],
    ensures
        match completed(source, combined, i, j, w, chosen, candidate) {
            Some(order) => no_later(order, pairing),
            None => false,
        },
    decreases w - chosen.len(), w - candidate,
{
    lemma_completed_finds_pairing(source, combined, i, j, w, chosen, candidate, pairing);
    if chosen.len() >= w {
        assert(pairing.take(w) =~= pairing);
    } else {
        let place = chosen.len() as int;
        let partner = pairing[place];
        if candidate == partner {
            assert(!chosen.contains(partner)) by {
                if chosen.contains(partner) {
                    let t = choose|t: int| 0 <= t < chosen.len() && chosen[t] == partner;
                    assert(pairing.take(place)[t] == pairing[t]);
                }
            }
            let next = chosen.push(partner);
            assert(pairing.take(place + 1) =~= next);
            assert(is_partial_pairing(source, combined, i, j, w, next)) by {
                assert forall|t: int| 0 <= t < next.len() implies next[t] == pairing[t] by {
                    assert(pairing.take(place + 1)[t] == pairing[t]);
                }
            }
            lemma_completed_finds_pairing(source, combined, i, j, w, next, 0, pairing);
            lemma_completed_is_first(source, combined, i, j, w, next, 0, pairing);
        } else if !chosen.contains(candidate) && same_message(
            source[i + candidate],
            combined[j + place],
        ) {
            let next = chosen.push(candidate);
            match completed(source, combined, i, j, w, next, 0) {
                Some(order) => {
                    assert(is_partial_pairing(source, combined, i, j, w, next)) by {
                        assert forall|t: int, u: int|
                            0 <= t < next.len() && 0 <= u < next.len() && t != u implies next[t]
                            != next[u] by {
                            if t < chosen.len() && u < chosen.len() {
                                assert(chosen[t] != chosen[u]);
                            } else if t < chosen.len() {
                                assert(chosen.contains(chosen[t]));
                            } else if u < chosen.len() {
                                assert(chosen.contains(chosen[u]));
                            }
                        }
                    }
                    lemma_completed_is_pairing(source, combined, i, j, w, next, 0);
                    assert(order.take(place) =~= order.take(place + 1).take(place));
                    assert(next.take(place) =~= chosen);
                    assert(order[place] == order.take(place + 1)[place]);
                    assert(order.take(place) == pairing.take(place) && order[place] < pairing[place]);
                },
                None => {
                    lemma_completed_is_first(
                        source,
                        combined,
                        i,
                        j,
                        w,
                        chosen,
                        candidate + 1,
                        pairing,
                    );
                },
            }
        } else {
            lemma_completed_is_first(source, combined, i, j, w, chosen, candidate + 1, pairing);
        }
    }
}

/// The reordering that is found is the first pairing of its window: no
/// other pairing of that window comes before it.
pub proof fn reordering_is_first(
    source: Seq<MessageModel>,
    combined: Seq<MessageModel>,
    i: int,
    j: int,
    pairing: Seq<int>,
)
    requires
        reordered(source, combined, i, j, 2) is Some,
        is_pairing(
            source,
            combined,
            i,
            j,
            reordered(source, combined, i, j, 2)->0.len() as int,
            pairing,
        ),
    ensures
        no_later(reordered(source, combined, i, j, 2)->0, pairing),
{
    lemma_reordered_is_first(source, combined, i, j, 2, pairing);
}

/// `reordering_is_first` for the windows from `w` on.
pub proof fn lemma_reordered_is_first(
    source: Seq<MessageModel>,
    combined: Seq<MessageModel>,
    i: int,
    j: int,
    w: int,
    pairing: Seq<int>,
)
    requires
        2 <= w,
        reordered(source, combined, i, j, w) is Some,
        is_pairing(
            source,
            combined,
            i,
            j,
            reordered(source, combined, i, j, w)->0.len() as int,
            pairing,
        ),
    ensures
        no_later(reordered(source, combined, i, j, w)->0, pairing),
    decreases MAX_OUT_OF_ORDER + 1 - w,
{
    let none = Seq::<int>::empty();
    lemma_completed_is_pairing(source, combined, i, j, w, none, 0);
    match completed(source, combined, i, j, w, none, 0) {
        Some(order) => {
            assert(pairing.take(0) =~= none);
            lemma_completed_is_first(source, combined, i, j, w, none, 0, pairing);
        },
        None => {
            lemma_reordered_is_first(source, combined, i, j, w + 1, pairing);
        },
    }
}

/// The reordering that is found pairs a window of two to
/// `MAX_OUT_OF_ORDER` messages at `(i, j)`, one to one, the same with the
/// same, and no smaller window there has a pairing; where none is found,
/// no window of such a size there has a pairing.
pub proof fn reordering_is_a_pairing(
    source: Seq<MessageModel>,
    combined: Seq<MessageModel>,
    i: int,
    j: int,
)
    ensures
        match reordered(source, combined, i, j, 2) {
            Some(order) => {
                &&& 2 <= order.len() <= MAX_OUT_OF_ORDER
                &&& i + order.len() <= source.len()
                &&& j + order.len() <= combined.len()
                &&& is_pairing(source, combined, i, j, order.len() as int, order)
                &&& forall|w: int, pairing: Seq<int>|
                    2 <= w < order.len() ==> !#[trigger] is_pairing(
                        source,
                        combined,
                        i,
                        j,
                        w,
                        pairing,
                    )
            },
            None => forall|w: int, pairing: Seq<int>|
                2 <= w <= MAX_OUT_OF_ORDER && i + w <= source.len() && j + w <= combined.len()
                    ==> !#[trigger] is_pairing(source, combined, i, j, w, pairing),
        },
{
    lemma_reordered(source, combined, i, j, 2);
}

/// `reordering_is_a_pairing` for the windows from `w` on.
pub proof fn lemma_reordered(
    source: Seq<MessageModel>,
    combined: Seq<MessageModel>,
    i: int,
    j: int,
    w: int,
)
    requires
        2 <= w,
    ensures
        match reordered(source, combined, i, j, w) {
            Some(order) => {
                &&& w <= order.len() <= MAX_OUT_OF_ORDER
                &&& i + order.len() <= source.len()
                &&& j + order.len() <= combined.len()
                &&& is_pairing(source, combined, i, j, order.len() as int, order)
                &&& forall|v: int, pairing: Seq<int>|
                    w <= v < order.len() ==> !#[trigger] is_pairing(
                        source,
                        combined,
                        i,
                        j,
                        v,
                        pairing,
                    )
            },
            None => forall|v: int, pairing: Seq<int>|
                w <= v <= MAX_OUT_OF_ORDER && i + v <= source.len() && j + v <= combined.len()
                    ==> !#[trigger] is_pairing(source, combined, i, j, v, pairing),
        },
    decreases MAX_OUT_OF_ORDER + 1 - w,
{
    if w > MAX_OUT_OF_ORDER || i + w > source.len() || j + w > combined.len() {
    } else {
        let none = Seq::<int>::empty();
        lemma_completed_is_pairing(source, combined, i, j, w, none, 0);
        match completed(source, combined, i, j, w, none, 0) {
            Some(order) => {},
            None => {
                lemma_reordered(source, combined, i, j, w + 1);
                assert forall|pairing: Seq<int>| !#[trigger] is_pairing(
                    source,
                    combined,
                    i,
                    j,
                    w,
                    pairing,
                ) by {
                    if is_pairing(source, combined, i, j, w, pairing) {
                        assert(pairing.take(0) =~= none);
                        lemma_completed_finds_pairing(source, combined, i, j, w, none, 0, pairing);
                    }
                }
            },
        }
    }
}

/// `first_same` gives the least index from `from` on at which `s` holds a
/// message that is the same as `m`, and `None` exactly where there is none.
pub proof fn first_same_is_first(s: Seq<MessageModel>, m: MessageModel, from: int)
    requires
        0 <= from,
    ensures
        match first_same(s, m, from) {
            Some(k) => from <= k < s.len() && same_message(s[k], m) && forall|u: int|
                from <= u < k ==> !same_message(#[trigger] s[u], m),
            None => forall|u: int| from <= u < s.len() ==> !same_message(#[trigger] s[u], m),
        },
    decreases s.len() - from,
{
    if from < s.len() && !same_message(s[from], m) {
        first_same_is_first(s, m, from + 1);
    }
}

/// Backfilling takes nothing away: what the kept message has, it keeps,
/// and only the path and the caption of an attachment can come from the
/// other message.
pub proof fn backfill_keeps_what_is_there(kept: MessageModel, other: MessageModel)
    ensures
        backfilled(kept, other).timestamp == kept.timestamp,
        backfilled(kept, other).sender == kept.sender,
        backfilled(kept, other).starred == kept.starred,
        backfilled(kept, other).position == kept.position,
        !(kept.content is Media && other.content is Media) ==> backfilled(kept, other) == kept,
        match (kept.content, other.content, backfilled(kept, other).content) {
            (ContentModel::Media(a), ContentModel::Media(b), ContentModel::Media(c)) => {
                &&& c.kind == a.kind
                &&& (a.resolved_path is Some ==> c.resolved_path == a.resolved_path)
                &&& (a.resolved_path is None ==> c.resolved_path == b.resolved_path)
                &&& (a.caption is Some ==> c.caption == a.caption)
                &&& (a.caption is None ==> c.caption == b.caption)
            },
            (ContentModel::Media(a), ContentModel::Media(b), _) => false,
            _ => true,
        },
        backfilled(kept, kept) == kept,
{
}

/// Walking a sequence along itself leaves it as it is.
pub proof fn walk_along_itself(s: Seq<MessageModel>, k: int)
    requires
        0 <= k <= s.len(),
    ensures
        walk(s, s, k, k) == s.skip(k),
    decreases s.len() - k,
{
    if k < s.len() {
        walk_along_itself(s, k + 1);
        backfill_keeps_what_is_there(s[k], s[k]);
        assert(seq![s[k]] + s.skip(k + 1) =~= s.skip(k));
    }
}

/// A step as the walk computes it, with offsets as machine integers.
#[derive(Debug, PartialEq, Eq)]
pub enum Move {
    Cover { count: usize },
    Splice { count: usize },
    Reorder { order: Vec<usize> },
    Stop,
}

/// A sequence of offsets as integers.
pub open spec fn offsets_of(v: Seq<usize>) -> Seq<int> {
    v.map_values(|x: usize| x as int)
}

impl View for Move {
    type V = Step;

    open spec fn view(&self) -> Step {
        match self {
            Move::Cover { count } => Step::Cover { count: *count as int },
            Move::Splice { count } => Step::Splice { count: *count as int },
            Move::Reorder { order } => Step::Reorder { order: offsets_of(order@) },
            Move::Stop => Step::Stop,
        }
    }
}

fn fill(kept: &Option<String>, other: &Option<String>) -> (r: Option<String>)
    ensures
        opt_chars(r) == filled(opt_chars(*kept), opt_chars(*other)),
{
    if kept.is_some() {
        copy_opt(kept)
    } else {
        copy_opt(other)
    }
}

/// The message that stays when `kept` is matched with `other`.
pub fn backfill(kept: &Message, other: &Message) -> (r: Message)
    ensures
        r@ == backfilled(kept@, other@),
{
    match (&kept.content, &other.content) {
        (MessageContent::Media(a), MessageContent::Media(b)) => Message {
            timestamp: kept.timestamp,
            sender: copy_opt(&kept.sender),
            content: MessageContent::Media(
                Media {
                    kind: a.kind,
                    resolved_path: fill(&a.resolved_path, &b.resolved_path),
                    caption: fill(&a.caption, &b.caption),
                },
            ),
            starred: kept.starred,
            position: kept.position,
        },
        _ => kept.clone(),
    }
}

/// Whether the message is a shared location.
pub fn location_message(m: &Message) -> (r: bool)
    ensures
        r == is_location(m@),
{
    match &m.content {
        MessageContent::Text(t) => {
            let text = chars_of(t.as_str());
            let cut = trim(text.as_slice());
            let lower = to_lower(cut.as_slice());
            let mark = chars_of("location:");
            has_prefix(lower.as_slice(), mark.as_slice())
        },
        _ => false,
    }
}

fn system_message(m: &Message) -> (r: bool)
    ensures
        r == (m@.content is System),
{
    match &m.content {
        MessageContent::System(_) => true,
        _ => false,
    }
}

/// Whether two messages at the same place of the walk go together.
pub fn goes_with(a: &Message, b: &Message) -> (r: bool)
    ensures
        r == aligned(a@, b@),
{
    a.matches(b) || (system_message(a) && system_message(b)) || (location_message(a)
        && location_message(b))
}

/// The first index at or after `from` at which `s` holds a message that is
/// the same as `m`.
pub fn find_same(s: &Vec<Message>, m: &Message, from: usize) -> (r: Option<usize>)
    ensures
        match r {
            Some(k) => first_same(models_of(s@), m@, from as int) == Some(k as int) && from <= k
                < s.len(),
            None => first_same(models_of(s@), m@, from as int) is None,
        },
{
    let ghost all = models_of(s@);
    let mut k: usize = from;
    while k < s.len()
        invariant
            from <= k,
            all == models_of(s@),
            first_same(all, m@, k as int) == first_same(all, m@, from as int),
        decreases s.len() - k,
    {
        if s[k].matches(m) {
            return Some(k);
        }
        k += 1;
    }
    None
}

fn holds(v: &Vec<usize>, x: usize) -> (r: bool)
    ensures
        r == offsets_of(v@).contains(x as int),
{
    let mut t: usize = 0;
    while t < v.len()
        invariant
            t <= v.len(),
            forall|u: int| 0 <= u < t ==> offsets_of(v@)[u] != x as int,
        decreases v.len() - t,
    {
        if v[t] == x {
            assert(offsets_of(v@)[t as int] == x as int);
            return true;
        }
        t += 1;
    }
    false
}

/// Extends `chosen` to the first full pairing of the window of `w` messages
/// at `(i, j)`, trying the candidates from `candidate` on for the next
/// place. Leaves `chosen` as it was where there is none.
fn complete_order(
    source: &Vec<Message>,
    combined: &Vec<Message>,
    i: usize,
    j: usize,
    w: usize,
    chosen: &mut Vec<usize>,
    candidate: usize,
) -> (r: bool)
    requires
        i + w <= source.len(),
        j + w <= combined.len(),
        old(chosen)@.len() <= w,
        forall|t: int| 0 <= t < old(chosen)@.len() ==> #[trigger] old(chosen)@[t] < w,
    ensures
        r ==> completed(
            models_of(source@),
            models_of(combined@),
            i as int,
            j as int,
            w as int,
            offsets_of(old(chosen)@),
            candidate as int,
        ) == Some(offsets_of(final(chosen)@)),
        r ==> final(chosen)@.len() == w,
        r ==> forall|t: int| 0 <= t < final(chosen)@.len() ==> #[trigger] final(chosen)@[t] < w,
        !r ==> completed(
            models_of(source@),
            models_of(combined@),
            i as int,
            j as int,
            w as int,
            offsets_of(old(chosen)@),
            candidate as int,
        ) is None,
        !r ==> final(chosen)@ == old(chosen)@,
    decreases w - old(chosen)@.len(), w - candidate,
{
    let ghost a = models_of(source@);
    let ghost b = models_of(combined@);
    let ghost start = chosen@;
    if chosen.len() >= w {
        return true;
    }
    let place: usize = chosen.len();
    let mut next: usize = candidate;
    while next < w
        invariant
            i + w <= source.len(),
            j + w <= combined.len(),
            a == models_of(source@),
            b == models_of(combined@),
            chosen@ == start,
            start == old(chosen)@,
            place == start.len(),
            place < w,
            candidate <= next,
            forall|t: int| 0 <= t < start.len() ==> #[trigger] start[t] < w,
            completed(a, b, i as int, j as int, w as int, offsets_of(start), next as int)
                == completed(a, b, i as int, j as int, w as int, offsets_of(start), candidate as int),
        decreases w - next,
    {
        if !holds(chosen, next) && source[i + next].matches(&combined[j + place]) {
            chosen.push(next);
            assert(offsets_of(chosen@) =~= offsets_of(start).push(next as int));
            if complete_order(source, combined, i, j, w, chosen, 0) {
                return true;
            }
            chosen.pop();
            assert(chosen@ =~= start);
        }
        next += 1;
    }
    false
}

/// The first reordering that pairs the next messages of both sides, for
/// the smallest window that has one.
pub fn find_reordering(source: &Vec<Message>, combined: &Vec<Message>, i: usize, j: usize) -> (r:
    Option<Vec<usize>>)
    requires
        i <= source.len(),
        j <= combined.len(),
    ensures
        match r {
            Some(order) => reordered(
                models_of(source@),
                models_of(combined@),
                i as int,
                j as int,
                2,
            ) == Some(offsets_of(order@)) && Step::Reorder { order: offsets_of(order@) }.fits(
                source.len() as int,
                combined.len() as int,
                i as int,
                j as int,
            ),
            None => reordered(models_of(source@), models_of(combined@), i as int, j as int, 2)
                is None,
        },
{
    let ghost a = models_of(source@);
    let ghost b = models_of(combined@);
    let mut w: usize = 2;
    while w <= MAX_OUT_OF_ORDER && w <= source.len() - i && w <= combined.len() - j
        invariant
            i <= source.len(),
            j <= combined.len(),
            2 <= w <= MAX_OUT_OF_ORDER + 1,
            a == models_of(source@),
            b == models_of(combined@),
            reordered(a, b, i as int, j as int, w as int) == reordered(a, b, i as int, j as int, 2),
        decreases MAX_OUT_OF_ORDER + 1 - w,
    {
        let mut chosen: Vec<usize> = Vec::new();
        assert(offsets_of(chosen@) =~= Seq::empty());
        if complete_order(source, combined, i, j, w, &mut chosen, 0) {
            return Some(chosen);
        }
        w += 1;
    }
    None
}

/// The first skip of up to `MAX_SKIPPABLE` messages after which the
/// messages are the same.
pub fn find_skip(source: &Vec<Message>, combined: &Vec<Message>, i: usize, j: usize) -> (r: Move)
    requires
        i < source.len(),
        j < combined.len(),
    ensures
        r@ == skipped(models_of(source@), models_of(combined@), i as int, j as int, 1),
        r@.fits(source.len() as int, combined.len() as int, i as int, j as int),
{
    let ghost a = models_of(source@);
    let ghost b = models_of(combined@);
    let mut n: usize = 1;
    while n <= MAX_SKIPPABLE
        invariant
            i < source.len(),
            j < combined.len(),
            1 <= n <= MAX_SKIPPABLE + 1,
            a == models_of(source@),
            b == models_of(combined@),
            skipped(a, b, i as int, j as int, n as int) == skipped(a, b, i as int, j as int, 1),
        decreases MAX_SKIPPABLE + 1 - n,
    {
        if n < source.len() - i && source[i + n].matches(&combined[j]) {
            return Move::Splice { count: n };
        }
        if n < combined.len() - j && combined[j + n].matches(&source[i]) {
            return Move::Cover { count: n };
        }
        n += 1;
    }
    Move::Stop
}

/// The step to take at a pair that does not go together.
pub fn next_step(source: &Vec<Message>, combined: &Vec<Message>, i: usize, j: usize) -> (r: Move)
    requires
        i < source.len(),
        j < combined.len(),
    ensures
        r@ == step_at(models_of(source@), models_of(combined@), i as int, j as int),
        r@.fits(source.len() as int, combined.len() as int, i as int, j as int),
{
    let newer: i64 = source[i].timestamp;
    let older: i64 = combined[j].timestamp;
    if newer > older && !within(newer, older, RECONCILE_GAP) {
        if let Some(k) = find_same(combined, &source[i], j + 1) {
            return Move::Cover { count: k - j };
        }
    }
    if older > newer && !within(newer, older, RECONCILE_GAP) {
        if let Some(k) = find_same(source, &combined[j], i + 1) {
            return Move::Splice { count: k - i };
        }
    }
    if let Some(order) = find_reordering(source, combined, i, j) {
        return Move::Reorder { order };
    }
    find_skip(source, combined, i, j)
}

/// Appends copies of `from[start..end]` to `out`.
pub fn push_range(out: &mut Vec<Message>, from: &Vec<Message>, start: usize, end: usize)
    requires
        start <= end <= from.len(),
    ensures
        models_of(final(out)@) == models_of(old(out)@) + models_of(from@).subrange(
            start as int,
            end as int,
        ),
{
    let ghost before = models_of(out@);
    let mut k: usize = start;
    while k < end
        invariant
            start <= k <= end <= from.len(),
            models_of(out@) =~= before + models_of(from@).subrange(start as int, k as int),
        decreases end - k,
    {
        let ghost so_far = models_of(out@);
        let copy = from[k].clone();
        out.push(copy);
        assert(models_of(out@) =~= so_far.push(copy@));
        assert(models_of(from@).subrange(start as int, k + 1) =~= models_of(from@).subrange(
            start as int,
            k as int,
        ).push(copy@));
        k += 1;
    }
}

/// Appends to `out` what the step `step`, taken at `(i, j)`, leaves of the
/// messages that it uses up.
pub fn emit(
    source: &Vec<Message>,
    combined: &Vec<Message>,
    i: usize,
    j: usize,
    step: &Move,
    out: &mut Vec<Message>,
)
    requires
        i < source.len(),
        j < combined.len(),
        step@.fits(source.len() as int, combined.len() as int, i as int, j as int),
    ensures
        models_of(final(out)@) == models_of(old(out)@) + emitted(
            models_of(source@),
            models_of(combined@),
            i as int,
            j as int,
            step@,
        ),
{
    let ghost a = models_of(source@);
    let ghost b = models_of(combined@);
    let ghost done = models_of(out@);
    match step {
        Move::Cover { count } => {
            push_range(out, combined, j, j + *count);
            let kept = backfill(&combined[j + *count], &source[i]);
            let ghost so_far = models_of(out@);
            out.push(kept);
            assert(models_of(out@) =~= so_far.push(kept@));
            assert(models_of(out@) =~= done + emitted(a, b, i as int, j as int, step@));
        },
        Move::Splice { count } => {
            push_range(out, source, i, i + *count);
            let kept = backfill(&combined[j], &source[i + *count]);
            let ghost so_far = models_of(out@);
            out.push(kept);
            assert(models_of(out@) =~= so_far.push(kept@));
            assert(models_of(out@) =~= done + emitted(a, b, i as int, j as int, step@));
        },
        Move::Reorder { order } => {
            let ghost offsets = offsets_of(order@);
            let ghost head = paired(a, b, i as int, j as int, offsets);
            let mut t: usize = 0;
            assert(models_of(out@) =~= done + head.take(0));
            while t < order.len()
                invariant
                    t <= order.len(),
                    a == models_of(source@),
                    b == models_of(combined@),
                    offsets == offsets_of(order@),
                    head == paired(a, b, i as int, j as int, offsets),
                    i + order.len() <= source.len(),
                    j + order.len() <= combined.len(),
                    forall|u: int|
                        0 <= u < order@.len() ==> 0 <= #[trigger] offsets[u] < order@.len(),
                    models_of(out@) == done + head.take(t as int),
                decreases order.len() - t,
            {
                assert(offsets[t as int] == order@[t as int]);
                let ghost so_far = models_of(out@);
                let kept = backfill(&combined[j + t], &source[i + order[t]]);
                out.push(kept);
                assert(models_of(out@) =~= so_far.push(kept@));
                assert(head.take(t + 1) =~= head.take(t as int).push(kept@));
                assert(so_far.push(kept@) =~= done + head.take(t + 1));
                t += 1;
            }
            assert(head.take(order@.len() as int) =~= head);
        },
        Move::Stop => {
            assert(done + Seq::<MessageModel>::empty() =~= done);
        },
    }
}

/// Walks the overlap of `source` and `combined` from `(i, j)` on and
/// appends to `out` what the walk leaves of both.
pub fn align(
    source: &Vec<Message>,
    combined: &Vec<Message>,
    i: usize,
    j: usize,
    out: &mut Vec<Message>,
)
    requires
        i <= source.len(),
        j <= combined.len(),
    ensures
        models_of(final(out)@) == models_of(old(out)@) + walk(
            models_of(source@),
            models_of(combined@),
            i as int,
            j as int,
        ),
{
    let ghost a = models_of(source@);
    let ghost b = models_of(combined@);
    let ghost before = models_of(out@);
    let ghost whole = walk(a, b, i as int, j as int);
    let mut p: usize = i;
    let mut q: usize = j;
    loop
        invariant
            p <= source.len(),
            q <= combined.len(),
            a == models_of(source@),
            b == models_of(combined@),
            before == models_of(old(out)@),
            whole == walk(a, b, i as int, j as int),
            models_of(out@) + walk(a, b, p as int, q as int) == before + whole,
        decreases source.len() - p + combined.len() - q,
    {
        let ghost done = models_of(out@);
        let ghost rest = walk(a, b, p as int, q as int);
        if p >= source.len() {
            push_range(out, combined, q, combined.len());
            assert(b.subrange(q as int, b.len() as int) =~= b.skip(q as int));
            assert(rest == b.skip(q as int));
            return ;
        }
        if q >= combined.len() {
            push_range(out, source, p, source.len());
            assert(a.subrange(p as int, a.len() as int) =~= a.skip(p as int));
            assert(rest == a.skip(p as int));
            return ;
        }
        if goes_with(&source[p], &combined[q]) {
            let kept = backfill(&combined[q], &source[p]);
            out.push(kept);
            proof {
                let head = seq![kept@];
                let tail = walk(a, b, p + 1, q + 1);
                assert(rest == head + tail);
                assert(models_of(out@) =~= done + head);
                assert((done + head) + tail =~= done + (head + tail));
            }
            p += 1;
            q += 1;
        } else {
            let step = next_step(source, combined, p, q);
            if let Move::Stop = step {
                push_range(out, combined, q, combined.len());
                assert(b.subrange(q as int, b.len() as int) =~= b.skip(q as int));
                assert(rest == b.skip(q as int));
                return ;
            }
            emit(source, combined, p, q, &step, out);
            proof {
                let head = emitted(a, b, p as int, q as int, step@);
                let tail = walk(a, b, p + step@.source_used(), q + step@.combined_used());
                assert(rest == head + tail);
                assert((done + head) + tail =~= done + (head + tail));
            }
            match step {
                Move::Cover { count } => {
                    p += 1;
                    q += count + 1;
                },
                Move::Splice { count } => {
                    p += count + 1;
                    q += 1;
                },
                Move::Reorder { order } => {
                    p += order.len();
                    q += order.len();
                },
                Move::Stop => {},
            }
        }
    }
}

} // verus!
