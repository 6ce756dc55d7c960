//! The mathematical model of the dispatcher: what each user's record holds,
//! the order in which users are visited, and where each task that a
//! dispatch pass releases lands in the returned batch.
use vstd::prelude::*;

use crate::task::Task;

verus! {

/// One user's record as the contracts see it.
pub ghost struct QueueView {
    pub id: Seq<char>,
    pub waiting: nat,
    pub pending: Seq<Task>,
}

/// The number of task slots open in a cycle: capacity minus usage, and
/// zero when usage has reached or passed capacity.
pub open spec fn cycle_budget(capacity: nat, usage: nat) -> nat {
    if capacity > usage {
        (capacity - usage) as nat
    } else {
        0
    }
}

/// The aging step: one more cycle waited, held at the counter's ceiling.
pub open spec fn aged(w: nat) -> nat {
    if w >= usize::MAX {
        w
    } else {
        w + 1
    }
}

pub open spec fn has_work(qs: Seq<QueueView>, i: int) -> bool {
    qs[i].pending.len() > 0
}

/// Lexical order on user ids: `a` is a proper prefix of `b`, or the first
/// character where they differ is smaller in `a`.
pub open spec fn id_less(a: Seq<char>, b: Seq<char>) -> bool
    decreases a.len(),
{
    if a.len() == 0 {
        b.len() > 0
    } else if b.len() == 0 {
        false
    } else if a[0] != b[0] {
        a[0] < b[0]
    } else {
        id_less(a.drop_first(), b.drop_first())
    }
}

/// User `i` is visited ahead of user `j`: it has waited longer, or as long
/// and its id comes first in lexical order.
pub open spec fn goes_before(qs: Seq<QueueView>, i: usize, j: usize) -> bool {
    qs[i as int].waiting > qs[j as int].waiting || (qs[i as int].waiting == qs[j as int].waiting
        && id_less(qs[i as int].id, qs[j as int].id))
}

/// No two records share an id.
pub open spec fn ids_unique(qs: Seq<QueueView>) -> bool {
    forall|i: int, j: int|
        0 <= i < qs.len() && 0 <= j < qs.len() && i != j ==> #[trigger] qs[i].id != #[trigger] qs[j].id
}

/// `o` lists every user with pending work exactly once, longest-waiting
/// first, ties in lexical order of their ids.
pub open spec fn is_service_order(qs: Seq<QueueView>, o: Seq<usize>) -> bool {
    &&& forall|p: int| 0 <= p < o.len() ==> #[trigger] o[p] < qs.len() && has_work(qs, o[p] as int)
    &&& forall|i: usize| i < qs.len() && #[trigger] has_work(qs, i as int) ==> o.contains(i)
    &&& forall|p: int, q: int|
        0 <= p < q < o.len() ==> goes_before(qs, #[trigger] o[p], #[trigger] o[q])
}

/// The order in which a dispatch pass visits the users with work.
pub open spec fn service_order(qs: Seq<QueueView>) -> Seq<usize> {
    choose|o: Seq<usize>| is_service_order(qs, o)
}

/// Backlog length of the user at each position of `o`.
pub open spec fn backlog_lens(qs: Seq<QueueView>, o: Seq<usize>) -> Seq<nat> {
    Seq::new(o.len(), |p: int| qs[o[p] as int].pending.len())
}

pub open spec fn min_nat(a: nat, b: nat) -> nat {
    if a < b {
        a
    } else {
        b
    }
}

/// Sum of the first `p` lengths.
pub open spec fn sum_lens(lens: Seq<nat>, p: int) -> nat
    decreases p,
{
    if p <= 0 {
        0
    } else {
        sum_lens(lens, p - 1) + lens[p - 1]
    }
}

/// How many of the first `p` positions still have a task in round `r`.
pub open spec fn row_count(lens: Seq<nat>, r: nat, p: int) -> nat
    decreases p,
{
    if p <= 0 {
        0
    } else {
        row_count(lens, r, p - 1) + if lens[p - 1] > r {
            1nat
        } else {
            0nat
        }
    }
}

/// How many tasks rounds `0 .. r` take from the first `p` positions.
pub open spec fn rounds_prefix(lens: Seq<nat>, r: nat, p: int) -> nat
    decreases p,
{
    if p <= 0 {
        0
    } else {
        rounds_prefix(lens, r, p - 1) + min_nat(lens[p - 1], r)
    }
}

/// How many tasks rounds `0 .. r` take in all.
pub open spec fn slots_before_round(lens: Seq<nat>, r: nat) -> nat {
    rounds_prefix(lens, r, lens.len() as int)
}

/// Where, in an unbounded pass, the task that round `r` takes from position
/// `p` would stand: after all earlier rounds and the earlier positions of
/// this round.
pub open spec fn slot_index(lens: Seq<nat>, r: nat, p: int) -> nat {
    slots_before_round(lens, r) + row_count(lens, r, p)
}

/// How many of the rounds `0 .. r` take a task from position `p` within a
/// budget of `b`.
pub open spec fn count_taken(lens: Seq<nat>, p: int, b: nat, r: nat) -> nat
    decreases r,
{
    if r == 0 {
        0
    } else {
        count_taken(lens, p, b, (r - 1) as nat) + if slot_index(lens, (r - 1) as nat, p) < b {
            1nat
        } else {
            0nat
        }
    }
}

/// How many tasks a pass with budget `b` takes from position `p`.
pub open spec fn taken(lens: Seq<nat>, p: int, b: nat) -> nat {
    count_taken(lens, p, b, lens[p])
}

/// `batch` is what a pass with budget `b > 0` releases from `qs`: round by
/// round, in service order within each round, one task per user with work
/// left per round, until the budget or the work runs out.
pub open spec fn is_dispatch_batch(qs: Seq<QueueView>, b: nat, batch: Seq<Task>) -> bool {
    let o = service_order(qs);
    let lens = backlog_lens(qs, o);
    &&& batch.len() == min_nat(b, sum_lens(lens, lens.len() as int))
    &&& forall|p: int, r: nat|
        0 <= p < lens.len() && r < lens[p] && slot_index(lens, r, p) < b ==> batch[#[trigger] slot_index(
            lens,
            r,
            p,
        ) as int] == qs[o[p] as int].pending[r as int]
}

/// `qs2` is the state of the records after a pass with budget `b > 0`:
/// users without work are untouched; the user at position `p` of the
/// service order loses the front tasks that were taken, and its counter is
/// reset if it was served and aged by one if it was not.
pub open spec fn is_dispatch_result(qs: Seq<QueueView>, b: nat, qs2: Seq<QueueView>) -> bool {
    let o = service_order(qs);
    let lens = backlog_lens(qs, o);
    &&& qs2.len() == qs.len()
    &&& forall|i: int| 0 <= i < qs.len() && !has_work(qs, i) ==> #[trigger] qs2[i] == qs[i]
    &&& forall|p: int|
        0 <= p < o.len() ==> #[trigger] qs2[o[p] as int] == (QueueView {
            id: qs[o[p] as int].id,
            waiting: if p < b {
                0
            } else {
                aged(qs[o[p] as int].waiting)
            },
            pending: qs[o[p] as int].pending.skip(taken(lens, p, b) as int),
        })
}

/// Total number of tasks pending over all records.
pub open spec fn total_pending(qs: Seq<QueueView>) -> nat
    decreases qs.len(),
{
    if qs.len() == 0 {
        0
    } else {
        total_pending(qs.drop_last()) + qs.last().pending.len()
    }
}

} // verus!
