//! Finding where a source source first lines up with the combined sequence.
//!
//! An anchor is a pair of start positions from which enough consecutive
//! messages are the same on both sides. Attachments alone do not make an
//! anchor: their equality is too weak to be trusted.

use vstd::prelude::*;
use crate::equality::same_message;
use crate::model::{models_of, Message, MessageModel};

verus! {

/// The least number of consecutive equal messages that make an anchor.
pub const NUMBER_TO_ALIGN: usize = 5;

/// Whether the messages at `source[i + k]` and `combined[j + k]` are the same.
pub open spec fn same_at(
    source: Seq<MessageModel>,
    combined: Seq<MessageModel>,
    i: int,
    j: int,
    k: int,
) -> bool {
    same_message(source[i + k], combined[j + k])
}

/// Whether the message at `source[i + k]` is something other than an
/// attachment.
pub open spec fn plain_at(source: Seq<MessageModel>, i: int, k: int) -> bool {
    !source[i + k].content.is_media()
}

/// Whether `len` consecutive messages from `source[i]` and `combined[j]` on are
/// pairwise the same.
pub open spec fn run_of(
    source: Seq<MessageModel>,
    combined: Seq<MessageModel>,
    i: int,
    j: int,
    len: int,
) -> bool {
    &&& 0 <= i
    &&& 0 <= j
    &&& 0 <= len
    &&& i + len <= source.len()
    &&& j + len <= combined.len()
    &&& forall|k: int| 0 <= k < len ==> #[trigger] same_at(source, combined, i, j, k)
}

/// Whether `(i, j)` starts a run of at least `NUMBER_TO_ALIGN` equal
/// messages, one of which is not an attachment.
pub open spec fn is_anchor(
    source: Seq<MessageModel>,
    combined: Seq<MessageModel>,
    i: int,
    j: int,
) -> bool {
    exists|len: int, k: int|
        NUMBER_TO_ALIGN <= len && #[trigger] run_of(source, combined, i, j, len) && 0 <= k < len
            && #[trigger] plain_at(source, i, k)
}

/// The number of consecutive equal messages from `source[i]` and `combined[j]` on.
pub open spec fn run_length(
    source: Seq<MessageModel>,
    combined: Seq<MessageModel>,
    i: int,
    j: int,
) -> nat
    decreases source.len() - i,
{
    if 0 <= i < source.len() && 0 <= j < combined.len() && same_message(source[i], combined[j]) {
        1 + run_length(source, combined, i + 1, j + 1)
    } else {
        0
    }
}

/// Whether the run of equal messages from `source[i]` and `combined[j]` on holds a
/// message that is not an attachment.
pub open spec fn run_has_plain(
    source: Seq<MessageModel>,
    combined: Seq<MessageModel>,
    i: int,
    j: int,
) -> bool
    decreases source.len() - i,
{
    if 0 <= i < source.len() && 0 <= j < combined.len() && same_message(source[i], combined[j]) {
        !source[i].content.is_media() || run_has_plain(source, combined, i + 1, j + 1)
    } else {
        false
    }
}

/// Whether the run that starts at `(i, j)` is long and trustworthy enough.
pub open spec fn qualifies(
    source: Seq<MessageModel>,
    combined: Seq<MessageModel>,
    i: int,
    j: int,
) -> bool {
    run_length(source, combined, i, j) >= NUMBER_TO_ALIGN && run_has_plain(source, combined, i, j)
}

/// The first anchor at or after `(i, j)`, going through the start positions
/// row by row: all of `combined` for one position of `source`, then the next.
pub open spec fn anchor_from(
    source: Seq<MessageModel>,
    combined: Seq<MessageModel>,
    i: int,
    j: int,
) -> Option<
    (int, int),
>
    decreases source.len() - i, combined.len() - j,
{
    if i < 0 || j < 0 || i >= source.len() {
        None
    } else if j >= combined.len() {
        anchor_from(source, combined, i + 1, 0)
    } else if qualifies(source, combined, i, j) {
        Some((i, j))
    } else {
        anchor_from(source, combined, i, j + 1)
    }
}

/// The first anchor of `source` in `combined`.
pub open spec fn anchor_of(
    source: Seq<MessageModel>,
    combined: Seq<MessageModel>,
) -> Option<(int, int)> {
    anchor_from(source, combined, 0, 0)
}

/// Whether `(a, b)` comes before `(i, j)` in the order of the search.
pub open spec fn earlier(a: int, b: int, i: int, j: int) -> bool {
    a < i || (a == i && b < j)
}

/// The run from `(i, j)` is a run of equal messages of its full length, and
/// it ends where the next pair differs or a side ends.
pub proof fn lemma_run_length(
    source: Seq<MessageModel>,
    combined: Seq<MessageModel>,
    i: int,
    j: int,
)
    requires
        0 <= i <= source.len(),
        0 <= j <= combined.len(),
    ensures
        run_of(source, combined, i, j, run_length(source, combined, i, j) as int),
        forall|len: int| #[trigger]
            run_of(source, combined, i, j, len) ==> len <= run_length(source, combined, i, j),
        run_has_plain(source, combined, i, j) <==> exists|k: int|
            0 <= k < run_length(source, combined, i, j) && #[trigger] plain_at(source, i, k),
    decreases source.len() - i,
{
    if 0 <= i < source.len() && 0 <= j < combined.len() && same_message(source[i], combined[j]) {
        lemma_run_length(source, combined, i + 1, j + 1);
        let n = run_length(source, combined, i, j) as int;
        assert forall|k: int| 0 <= k < n implies #[trigger] same_at(source, combined, i, j, k) by {
            if k > 0 {
                assert(same_at(source, combined, i + 1, j + 1, k - 1));
            }
        }
        assert forall|len: int| #[trigger] run_of(source, combined, i, j, len) implies len <= n by {
            if len > 0 {
                assert forall|k: int| 0 <= k < len - 1 implies #[trigger] same_at(
                    source,
                    combined,
                    i + 1,
                    j + 1,
                    k,
                ) by {
                    assert(same_at(source, combined, i, j, k + 1));
                }
                assert(run_of(source, combined, i + 1, j + 1, len - 1));
            }
        }
        if run_has_plain(source, combined, i, j) {
            if !source[i].content.is_media() {
                assert(plain_at(source, i, 0));
            } else {
                let k = choose|k: int|
                    0 <= k < run_length(source, combined, i + 1, j + 1) && #[trigger] plain_at(
                        source,
                        i + 1,
                        k,
                    );
                assert(plain_at(source, i, k + 1));
            }
        }
        if exists|k: int| 0 <= k < n && #[trigger] plain_at(source, i, k) {
            let k = choose|k: int| 0 <= k < n && #[trigger] plain_at(source, i, k);
            if k > 0 {
                assert(plain_at(source, i + 1, k - 1));
            }
        }
    } else {
        assert forall|len: int| #[trigger] run_of(source, combined, i, j, len) implies len <= 0 by {
            if len > 0 {
                assert(same_at(source, combined, i, j, 0));
            }
        }
    }
}

/// A start position qualifies exactly when it is an anchor.
pub proof fn lemma_qualifies(source: Seq<MessageModel>, combined: Seq<MessageModel>, i: int, j: int)
    requires
        0 <= i <= source.len(),
        0 <= j <= combined.len(),
    ensures
        qualifies(source, combined, i, j) <==> is_anchor(source, combined, i, j),
{
    lemma_run_length(source, combined, i, j);
    let n = run_length(source, combined, i, j) as int;
    if qualifies(source, combined, i, j) {
        let k = choose|k: int| 0 <= k < n && #[trigger] plain_at(source, i, k);
        assert(run_of(source, combined, i, j, n) && plain_at(source, i, k));
    }
    if is_anchor(source, combined, i, j) {
        let (len, k) = choose|len: int, k: int|
            NUMBER_TO_ALIGN <= len && #[trigger] run_of(source, combined, i, j, len) && 0 <= k < len
                && #[trigger] plain_at(source, i, k);
        assert(len <= n);
        assert(plain_at(source, i, k));
    }
}

/// What the search finds is an anchor, and no start position before it is
/// one; where it finds nothing, there is no anchor from `(i, j)` on.
pub proof fn lemma_anchor_from(
    source: Seq<MessageModel>,
    combined: Seq<MessageModel>,
    i: int,
    j: int,
)
    requires
        0 <= i,
        0 <= j,
    ensures
        match anchor_from(source, combined, i, j) {
            Some((a, b)) => {
                &&& 0 <= a < source.len()
                &&& 0 <= b < combined.len()
                &&& !earlier(a, b, i, j)
                &&& is_anchor(source, combined, a, b)
                &&& forall|x: int, y: int|
                    0 <= y && !earlier(x, y, i, j) && earlier(x, y, a, b) ==> !#[trigger] is_anchor(
                        source,
                        combined,
                        x,
                        y,
                    )
            },
            None => forall|x: int, y: int|
                0 <= y && !earlier(x, y, i, j) ==> !#[trigger] is_anchor(source, combined, x, y),
        },
    decreases source.len() - i, combined.len() - j,
{
    if i >= source.len() {
        assert forall|x: int, y: int| 0 <= y && !earlier(x, y, i, j) implies !#[trigger] is_anchor(
            source,
            combined,
            x,
            y,
        ) by {
            lemma_too_short(source, combined, x, y);
        }
    } else if j >= combined.len() {
        lemma_anchor_from(source, combined, i + 1, 0);
        assert forall|x: int, y: int| 0 <= y && x == i && y >= j implies !#[trigger] is_anchor(
            source,
            combined,
            x,
            y,
        ) by {
            lemma_too_short(source, combined, x, y);
        }
    } else if qualifies(source, combined, i, j) {
        lemma_qualifies(source, combined, i, j);
    } else {
        lemma_qualifies(source, combined, i, j);
        lemma_anchor_from(source, combined, i, j + 1);
    }
}

/// The anchor that is found is the first one: it starts a run of at least
/// `NUMBER_TO_ALIGN` equal messages with one that is not an attachment,
/// and no start position before it, in the order of the search, does.
/// Where none is found, no start position does.
pub proof fn anchor_is_first(source: Seq<MessageModel>, combined: Seq<MessageModel>)
    ensures
        match anchor_of(source, combined) {
            Some((i, j)) => {
                &&& 0 <= i < source.len()
                &&& 0 <= j < combined.len()
                &&& is_anchor(source, combined, i, j)
                &&& forall|x: int, y: int|
                    0 <= x && 0 <= y && earlier(x, y, i, j) ==> !#[trigger] is_anchor(
                        source,
                        combined,
                        x,
                        y,
                    )
            },
            None => forall|x: int, y: int|
                0 <= x && 0 <= y ==> !#[trigger] is_anchor(source, combined, x, y),
        },
{
    lemma_anchor_from(source, combined, 0, 0);
}

/// A start position that leaves fewer than `NUMBER_TO_ALIGN` messages on
/// either side is no anchor.
pub proof fn lemma_too_short(source: Seq<MessageModel>, combined: Seq<MessageModel>, i: int, j: int)
    requires
        i + NUMBER_TO_ALIGN > source.len() || j + NUMBER_TO_ALIGN > combined.len(),
    ensures
        !is_anchor(source, combined, i, j),
{
}

/// The anchor that is found starts a run of `NUMBER_TO_ALIGN` equal
/// messages; a run of fewer is never accepted, so sides with fewer than
/// `NUMBER_TO_ALIGN` messages have no anchor.
pub proof fn anchor_needs_full_run(source: Seq<MessageModel>, combined: Seq<MessageModel>)
    ensures
        match anchor_of(source, combined) {
            Some((i, j)) => run_of(source, combined, i, j, NUMBER_TO_ALIGN as int) && run_length(
                source,
                combined,
                i,
                j,
            ) >= NUMBER_TO_ALIGN,
            None => true,
        },
        source.len() < NUMBER_TO_ALIGN || combined.len() < NUMBER_TO_ALIGN ==> anchor_of(
            source,
            combined,
        ) is None,
{
    lemma_anchor_from(source, combined, 0, 0);
    match anchor_of(source, combined) {
        Some((i, j)) => {
            lemma_qualifies(source, combined, i, j);
            lemma_run_length(source, combined, i, j);
        },
        None => {},
    }
}

/// A run of `NUMBER_TO_ALIGN` equal messages with one that is not an
/// attachment is accepted: the search finds an anchor, at that start
/// position or before it.
pub proof fn full_run_is_accepted(
    source: Seq<MessageModel>,
    combined: Seq<MessageModel>,
    i: int,
    j: int,
    k: int,
)
    requires
        run_of(source, combined, i, j, NUMBER_TO_ALIGN as int),
        0 <= k < NUMBER_TO_ALIGN,
        !source[i + k].content.is_media(),
    ensures
        match anchor_of(source, combined) {
            Some((a, b)) => !earlier(i, j, a, b),
            None => false,
        },
{
    lemma_anchor_from(source, combined, 0, 0);
    assert(plain_at(source, i, k));
    assert(is_anchor(source, combined, i, j));
}

/// Runs of attachments are no anchors: a source that holds nothing but
/// attachments has no anchor in any sequence, however many of its messages
/// are matched.
pub proof fn media_only_run_is_rejected(source: Seq<MessageModel>, combined: Seq<MessageModel>)
    requires
        forall|k: int| 0 <= k < source.len() ==> (#[trigger] source[k]).content.is_media(),
    ensures
        anchor_of(source, combined) is None,
{
    lemma_anchor_from(source, combined, 0, 0);
    match anchor_of(source, combined) {
        Some((i, j)) => {
            let (len, k) = choose|len: int, k: int|
                NUMBER_TO_ALIGN <= len && #[trigger] run_of(source, combined, i, j, len) && 0 <= k < len
                    && #[trigger] plain_at(source, i, k);
            assert(source[i + k].content.is_media());
        },
        None => {},
    }
}

/// A start position from which the equal messages are all attachments is
/// no anchor, however long the run.
pub proof fn media_run_is_no_anchor(
    source: Seq<MessageModel>,
    combined: Seq<MessageModel>,
    i: int,
    j: int,
)
    requires
        0 <= i <= source.len(),
        0 <= j <= combined.len(),
        forall|k: int|
            0 <= k < run_length(source, combined, i, j) ==> !#[trigger] plain_at(source, i, k),
    ensures
        !is_anchor(source, combined, i, j),
        anchor_of(source, combined) != Some((i, j)),
{
    lemma_run_length(source, combined, i, j);
    lemma_qualifies(source, combined, i, j);
    lemma_anchor_from(source, combined, 0, 0);
}

/// Measures the run of equal messages from `(i, j)` on: its length, and
/// whether it holds a message that is not an attachment.
pub fn measure_run(
    source: &Vec<Message>,
    combined: &Vec<Message>,
    i: usize,
    j: usize,
) -> (r: (usize, bool))
    ensures
        r.0 == run_length(models_of(source@), models_of(combined@), i as int, j as int),
        r.1 == run_has_plain(models_of(source@), models_of(combined@), i as int, j as int),
{
    let ghost a = models_of(source@);
    let ghost b = models_of(combined@);
    let mut n: usize = 0;
    let mut plain = false;
    while i <= source.len() && j <= combined.len() && i < source.len() - n && j < combined.len() - n
        && source[i + n].matches(&combined[j + n])
        invariant
            n <= source.len(),
            n <= combined.len(),
            a == models_of(source@),
            b == models_of(combined@),
            run_length(a, b, i as int, j as int) == n + run_length(a, b, i + n, j + n),
            run_has_plain(a, b, i as int, j as int) == (plain || run_has_plain(a, b, i + n, j + n)),
        decreases source.len() - n,
    {
        if !source[i + n].is_media() {
            plain = true;
        }
        n += 1;
    }
    (n, plain)
}

/// Finds the first pair of start positions from which `source` and `combined` run
/// alike for at least `NUMBER_TO_ALIGN` messages, one of them not an
/// attachment.
pub fn find_anchor(source: &Vec<Message>, combined: &Vec<Message>) -> (r: Option<(usize, usize)>)
    ensures
        match r {
            Some((i, j)) => anchor_of(models_of(source@), models_of(combined@)) == Some(
                (i as int, j as int),
            )
                && i < source.len() && j < combined.len(),
            None => anchor_of(models_of(source@), models_of(combined@)) is None,
        },
{
    let ghost a = models_of(source@);
    let ghost b = models_of(combined@);
    let mut i: usize = 0;
    while i < source.len()
        invariant
            i <= source.len(),
            a == models_of(source@),
            b == models_of(combined@),
            anchor_from(a, b, i as int, 0) == anchor_of(a, b),
        decreases source.len() - i,
    {
        let mut j: usize = 0;
        while j < combined.len()
            invariant
                i < source.len(),
                j <= combined.len(),
                a == models_of(source@),
                b == models_of(combined@),
                anchor_from(a, b, i as int, j as int) == anchor_of(a, b),
            decreases combined.len() - j,
        {
            let (n, plain) = measure_run(source, combined, i, j);
            if n >= NUMBER_TO_ALIGN && plain {
                return Some((i, j));
            }
            j += 1;
        }
        i += 1;
    }
    None
}

} // verus!
