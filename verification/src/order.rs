//! Putting a sequence of messages in chronological order, numbering it, and
//! starring by position.

use vstd::prelude::*;
use crate::model::{chronological, models_of, renumbered, Message, MessageModel};

verus! {

/// Where a message sent at `t` goes into a sequence: after every message
/// that is not later than `t`, so that messages of one instant keep the
/// order in which they came.
pub open spec fn insertion_point(s: Seq<MessageModel>, t: int) -> int
    decreases s.len(),
{
    if s.len() > 0 && s.last().timestamp > t {
        insertion_point(s.drop_last(), t)
    } else {
        s.len() as int
    }
}

/// `s` with `m` put in at its insertion point.
pub open spec fn inserted_by_time(s: Seq<MessageModel>, m: MessageModel) -> Seq<MessageModel> {
    s.insert(insertion_point(s, m.timestamp), m)
}

/// The messages of `s` in chronological order; messages with the same time
/// stamp stay in the order that they have in `s`.
pub open spec fn sorted_by_time(s: Seq<MessageModel>) -> Seq<MessageModel>
    decreases s.len(),
{
    if s.len() == 0 {
        s
    } else {
        inserted_by_time(sorted_by_time(s.drop_last()), s.last())
    }
}

/// `s` with a star on each message whose index is in `stars`.
pub open spec fn starred_at(s: Seq<MessageModel>, stars: Seq<usize>) -> Seq<MessageModel> {
    Seq::new(
        s.len(),
        |i: int| if stars.contains(i as usize) {
            s[i].with_star(true)
        } else {
            s[i]
        },
    )
}

/// The positions in `stars` that `len` messages do not have.
pub open spec fn missing_positions(stars: Seq<usize>, len: int) -> Seq<usize> {
    stars.filter(|p: usize| p >= len)
}

/// The insertion point splits the sequence: everything from it on is later
/// than `t`, and the message just before it is not.
pub proof fn lemma_insertion_point(s: Seq<MessageModel>, t: int)
    ensures
        0 <= insertion_point(s, t) <= s.len(),
        forall|k: int| insertion_point(s, t) <= k < s.len() ==> (#[trigger] s[k]).timestamp > t,
        insertion_point(s, t) > 0 ==> s[insertion_point(s, t) - 1].timestamp <= t,
    decreases s.len(),
{
    if s.len() > 0 && s.last().timestamp > t {
        let front = s.drop_last();
        lemma_insertion_point(front, t);
        assert forall|k: int| insertion_point(s, t) <= k < s.len() implies (#[trigger] s[k]).timestamp
            > t by {
            if k < front.len() {
                assert(s[k] == front[k]);
            }
        }
        if insertion_point(s, t) > 0 {
            assert(s[insertion_point(s, t) - 1] == front[insertion_point(s, t) - 1]);
        }
    }
}

/// Sorting keeps every message, as often as it occurs, and the result is
/// in chronological order.
pub proof fn lemma_sorted_by_time(s: Seq<MessageModel>)
    ensures
        sorted_by_time(s).len() == s.len(),
        sorted_by_time(s).to_multiset() == s.to_multiset(),
        chronological(sorted_by_time(s)),
    decreases s.len(),
{
    broadcast use vstd::seq_lib::group_to_multiset_ensures;

    if s.len() > 0 {
        let before = sorted_by_time(s.drop_last());
        let m = s.last();
        let p = insertion_point(before, m.timestamp);
        lemma_sorted_by_time(s.drop_last());
        lemma_insertion_point(before, m.timestamp);
        let after = before.insert(p, m);
        vstd::seq_lib::to_multiset_insert(before, p, m);
        assert(s.drop_last().push(m) =~= s);
        assert(after.to_multiset() =~= s.to_multiset());
        assert forall|i: int, j: int| 0 <= i <= j < after.len() implies after[i].timestamp
            <= after[j].timestamp by {
            if i < p && j > p {
                assert(after[i] == before[i]);
                assert(after[j] == before[j - 1]);
            } else if i < p && j == p {
                assert(after[i] == before[i]);
                assert(before[i].timestamp <= before[p - 1].timestamp);
            } else if i < p {
                assert(after[i] == before[i]);
                assert(after[j] == before[j]);
            } else if i == p && j > p {
                assert(after[j] == before[j - 1]);
            } else if i > p {
                assert(after[i] == before[i - 1]);
                assert(after[j] == before[j - 1]);
            }
        }
    }
}

/// A filter finds nothing in a sequence in which nothing passes it.
pub proof fn lemma_filter_none(s: Seq<MessageModel>, pred: spec_fn(MessageModel) -> bool)
    requires
        forall|k: int| 0 <= k < s.len() ==> !pred(#[trigger] s[k]),
    ensures
        s.filter(pred) == Seq::<MessageModel>::empty(),
    decreases s.len(),
{
    reveal_with_fuel(Seq::filter, 2);
    if s.len() > 0 {
        assert forall|k: int| 0 <= k < s.drop_last().len() implies !pred(
            #[trigger] s.drop_last()[k],
        ) by {
            assert(s.drop_last()[k] == s[k]);
        }
        lemma_filter_none(s.drop_last(), pred);
        assert(!pred(s[s.len() - 1]));
    }
}

/// Sorting is stable: the messages sent at one instant stand in the sorted
/// sequence in the order that they have in `s`.
pub proof fn sorting_is_stable(s: Seq<MessageModel>, t: int)
    ensures
        sorted_by_time(s).filter(|m: MessageModel| m.timestamp == t) == s.filter(
            |m: MessageModel| m.timestamp == t,
        ),
    decreases s.len(),
{
    let at = |m: MessageModel| m.timestamp == t;
    reveal_with_fuel(Seq::filter, 2);
    if s.len() > 0 {
        let front = s.drop_last();
        let m = s.last();
        let before = sorted_by_time(front);
        let p = insertion_point(before, m.timestamp);
        sorting_is_stable(front, t);
        lemma_insertion_point(before, m.timestamp);
        let left = before.take(p);
        let right = before.skip(p);
        assert(before =~= left + right);
        assert(before.insert(p, m) =~= left + seq![m] + right);
        Seq::filter_distributes_over_add(left, right, at);
        Seq::filter_distributes_over_add(left + seq![m], right, at);
        Seq::filter_distributes_over_add(left, seq![m], at);
        assert(seq![m].drop_last() =~= Seq::<MessageModel>::empty());
        assert(seq![m].last() == m);
        if m.timestamp == t {
            assert forall|k: int| 0 <= k < right.len() implies !at(#[trigger] right[k]) by {
                assert(right[k] == before[p + k]);
            }
            lemma_filter_none(right, at);
            assert(seq![m].filter(at) =~= seq![m]);
            assert(left.filter(at) + right.filter(at) =~= left.filter(at));
            assert(sorted_by_time(s).filter(at) =~= front.filter(at).push(m));
        } else {
            assert(seq![m].filter(at) =~= Seq::<MessageModel>::empty());
            assert(left.filter(at) + seq![m].filter(at) =~= left.filter(at));
        }
    }
}

/// A sequence that is already in chronological order is left as it is.
pub proof fn sorted_stays_as_it_is(s: Seq<MessageModel>)
    requires
        chronological(s),
    ensures
        sorted_by_time(s) == s,
    decreases s.len(),
{
    if s.len() > 0 {
        let front = s.drop_last();
        assert(chronological(front)) by {
            assert forall|i: int, j: int| 0 <= i <= j < front.len() implies front[i].timestamp
                <= front[j].timestamp by {
                assert(front[i] == s[i] && front[j] == s[j]);
            }
        }
        sorted_stays_as_it_is(front);
        if front.len() > 0 {
            assert(front.last() == s[s.len() - 2]);
        }
        assert(insertion_point(front, s.last().timestamp) == front.len());
        assert(front.insert(front.len() as int, s.last()) =~= s);
    }
}

/// Sorts by time stamp, keeping the order of messages sent at one instant.
pub fn sort_by_time(messages: Vec<Message>) -> (r: Vec<Message>)
    ensures
        models_of(r@) == sorted_by_time(models_of(messages@)),
        chronological(models_of(r@)),
        models_of(r@).to_multiset() == models_of(messages@).to_multiset(),
{
    let ghost input = models_of(messages@);
    let mut out: Vec<Message> = Vec::new();
    let mut i: usize = 0;
    while i < messages.len()
        invariant
            i <= messages.len(),
            input == models_of(messages@),
            models_of(out@) == sorted_by_time(input.take(i as int)),
        decreases messages.len() - i,
    {
        let m = messages[i].clone();
        let ghost before = models_of(out@);
        let mut p: usize = out.len();
        assert(before.take(p as int) =~= before);
        while p > 0 && out[p - 1].timestamp > m.timestamp
            invariant
                p <= out.len(),
                before == models_of(out@),
                insertion_point(before.take(p as int), m@.timestamp) == insertion_point(
                    before,
                    m@.timestamp,
                ),
            decreases p,
        {
            proof {
                assert(before.take(p as int).drop_last() =~= before.take(p - 1));
                assert(before.take(p as int).last() == out@[p - 1]@);
            }
            p -= 1;
        }
        proof {
            assert(before.take(before.len() as int) =~= before);
            if p > 0 {
                assert(before.take(p as int).last() == out@[p - 1]@);
            }
            assert(insertion_point(before, m@.timestamp) == p);
            assert(input.take(i + 1).drop_last() =~= input.take(i as int));
            assert(input.take(i + 1).last() == m@);
        }
        out.insert(p, m);
        assert(models_of(out@) =~= before.insert(p as int, m@));
        i += 1;
    }
    proof {
        assert(input.take(input.len() as int) =~= input);
        lemma_sorted_by_time(input);
    }
    out
}

/// Sets each message's position to its index.
pub fn renumber(messages: &mut Vec<Message>)
    ensures
        models_of(final(messages)@) == renumbered(models_of(old(messages)@)),
{
    let ghost input = models_of(messages@);
    let mut i: usize = 0;
    while i < messages.len()
        invariant
            i <= messages.len(),
            messages.len() == input.len(),
            forall|k: int| 0 <= k < i ==> (#[trigger] messages@[k])@ == input[k].at_position(k),
            forall|k: int| i <= k < messages.len() ==> (#[trigger] messages@[k])@ == input[k],
        decreases messages.len() - i,
    {
        messages[i].position = i;
        i += 1;
    }
    assert(models_of(messages@) =~= renumbered(input));
}

/// The latest time stamp among `messages`.
pub fn latest(messages: &Vec<Message>) -> (r: i64)
    requires
        messages.len() > 0,
    ensures
        forall|k: int| 0 <= k < messages.len() ==> (#[trigger] messages@[k]).timestamp <= r,
        exists|k: int| 0 <= k < messages.len() && (#[trigger] messages@[k]).timestamp == r,
{
    let mut best: i64 = messages[0].timestamp;
    let mut k: usize = 1;
    while k < messages.len()
        invariant
            1 <= k <= messages.len(),
            forall|u: int| 0 <= u < k ==> (#[trigger] messages@[u]).timestamp <= best,
            exists|u: int| 0 <= u < k && (#[trigger] messages@[u]).timestamp == best,
        decreases messages.len() - k,
    {
        if messages[k].timestamp > best {
            best = messages[k].timestamp;
        }
        k += 1;
    }
    best
}

/// The earliest time stamp among `messages`.
pub fn earliest(messages: &Vec<Message>) -> (r: i64)
    requires
        messages.len() > 0,
    ensures
        forall|k: int| 0 <= k < messages.len() ==> (#[trigger] messages@[k]).timestamp >= r,
        exists|k: int| 0 <= k < messages.len() && (#[trigger] messages@[k]).timestamp == r,
{
    let mut best: i64 = messages[0].timestamp;
    let mut k: usize = 1;
    while k < messages.len()
        invariant
            1 <= k <= messages.len(),
            forall|u: int| 0 <= u < k ==> (#[trigger] messages@[u]).timestamp >= best,
            exists|u: int| 0 <= u < k && (#[trigger] messages@[u]).timestamp == best,
        decreases messages.len() - k,
    {
        if messages[k].timestamp < best {
            best = messages[k].timestamp;
        }
        k += 1;
    }
    best
}

} // verus!
