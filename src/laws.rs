//! Properties of the dispatcher that relate several calls or hold of whole
//! classes of inputs, stated over the model and proved.
use vstd::prelude::*;

use crate::model::{
    QueueView, aged, backlog_lens, count_taken, goes_before, has_work, ids_unique, is_dispatch_batch, is_dispatch_result,
    is_service_order, min_nat, rounds_prefix, row_count, service_order, slot_index, slots_before_round, sum_lens,
    taken, total_pending,
};
use crate::scheduler::{SchedulerView, is_submission, well_formed};
use crate::slot_lemmas::{
    lemma_count_taken_all, lemma_count_taken_mono, lemma_count_taken_none,
    lemma_count_taken_prefix, lemma_slot_before_next_round, lemma_slot_increasing,
    lemma_count_taken_stable, lemma_first_round_positions, lemma_service_order_exists, lemma_order_covers_all, lemma_goes_before_strict,
    lemma_rounds_step, lemma_rounds_sum,
    lemma_rounds_zero, lemma_row_count_all, lemma_service_order_unique,
};
use crate::task::Task;

verus! {

/// Conservation: in every state reachable through `new`, `add_task` and
/// `run_cycle`, the pending count equals the tasks submitted minus the
/// tasks handed out, and equals the tasks held in the queues.
pub proof fn lemma_conservation(v: SchedulerView)
    requires
        well_formed(v),
    ensures
        v.pending == v.submitted - v.dispatched,
        v.pending == total_pending(v.queues),
{
}

/// Fairness under uniform load: when every user has work and the budget
/// `b` is smaller than the number of users, a pass hands out exactly `b`
/// tasks, the queue heads of the first `b` users of the service order (the
/// longest-waiting, ties by id), one each. Every other user keeps all its
/// tasks and waits one cycle more.
pub proof fn lemma_uniform_load(qs: Seq<QueueView>, b: nat, batch: Seq<Task>, qs2: Seq<QueueView>)
    requires
        qs.len() <= usize::MAX,
        ids_unique(qs),
        forall|i: int| 0 <= i < qs.len() ==> has_work(qs, i),
        0 < b < qs.len(),
        is_dispatch_batch(qs, b, batch),
        is_dispatch_result(qs, b, qs2),
    ensures
        service_order(qs).len() == qs.len(),
        batch.len() == b,
        forall|p: int| 0 <= p < b ==> #[trigger] batch[p] == qs[service_order(qs)[p] as int].pending[0],
        forall|p: int|
            0 <= p < qs.len() ==> #[trigger] qs2[service_order(qs)[p] as int] == (QueueView {
                id: qs[service_order(qs)[p] as int].id,
                waiting: if p < b {
                    0
                } else {
                    aged(qs[service_order(qs)[p] as int].waiting)
                },
                pending: qs[service_order(qs)[p] as int].pending.skip(
                    if p < b {
                        1
                    } else {
                        0
                    },
                ),
            }),
{
    lemma_service_order_exists(qs);
    let o = service_order(qs);
    lemma_order_covers_all(qs, o);
    let k = qs.len() as int;
    let lens = backlog_lens(qs, o);
    assert forall|q: int| 0 <= q < lens.len() implies lens[q] > 0 by {
        assert(has_work(qs, o[q] as int));
    }
    lemma_rounds_step(lens, 0, k);
    lemma_rounds_zero(lens, k);
    lemma_row_count_all(lens, 0, k);
    lemma_rounds_sum(lens, 1, k);
    assert(slots_before_round(lens, 1) == k);
    assert forall|p: int| 0 <= p < b implies #[trigger] batch[p] == qs[o[p] as int].pending[0] by {
        lemma_first_round_positions(lens, p);
        assert(slot_index(lens, 0, p) == p);
    }
    assert forall|p: int| 0 <= p < qs.len() implies taken(lens, p, b) == if p < b {
        1nat
    } else {
        0nat
    } by {
        lemma_first_round_positions(lens, p);
        lemma_count_taken_stable(lens, p, b, 1, lens[p]);
        assert(count_taken(lens, p, b, 0) == 0);
    }
    assert forall|p: int| 0 <= p < qs.len() && p >= b implies qs[o[p] as int].pending.skip(0)
        == qs[o[p] as int].pending by {
        assert(qs[o[p] as int].pending.skip(0) =~= qs[o[p] as int].pending);
    }
}

/// `qs2` holds the records of `qs` in another order: record `i` of `qs2` is
/// record `perm[i]` of `qs`, and `inv` undoes `perm`.
pub open spec fn is_reordering(
    qs: Seq<QueueView>,
    qs2: Seq<QueueView>,
    perm: Seq<usize>,
    inv: Seq<usize>,
) -> bool {
    &&& qs2.len() == qs.len()
    &&& perm.len() == qs.len()
    &&& inv.len() == qs.len()
    &&& forall|i: int| 0 <= i < qs.len() ==> #[trigger] perm[i] < qs.len() && inv[perm[i] as int] == i
    &&& forall|j: int| 0 <= j < qs.len() ==> #[trigger] inv[j] < qs.len() && perm[inv[j] as int] == j
    &&& forall|i: int| 0 <= i < qs.len() ==> #[trigger] qs2[i] == qs[perm[i] as int]
}

/// The order in which records were created does not matter: when `qs2`
/// holds the same records as `qs` in another order, a pass hands out the
/// same batch from both, and leaves the same records, in the same other
/// order.
pub proof fn lemma_record_order_irrelevant(
    qs: Seq<QueueView>,
    qs2: Seq<QueueView>,
    perm: Seq<usize>,
    inv: Seq<usize>,
    b: nat,
    batch: Seq<Task>,
    after: Seq<QueueView>,
    after2: Seq<QueueView>,
)
    requires
        qs.len() <= usize::MAX,
        ids_unique(qs),
        is_reordering(qs, qs2, perm, inv),
        is_dispatch_result(qs, b, after),
        is_dispatch_result(qs2, b, after2),
    ensures
        is_dispatch_batch(qs, b, batch) <==> is_dispatch_batch(qs2, b, batch),
        is_reordering(after, after2, perm, inv),
{
    lemma_service_order_exists(qs);
    lemma_goes_before_strict(qs);
    let o = service_order(qs);
    let o2 = Seq::new(o.len(), |p: int| inv[o[p] as int]);
    assert forall|p: int| 0 <= p < o2.len() implies #[trigger] o2[p] < qs2.len() && has_work(
        qs2,
        o2[p] as int,
    ) by {
        assert(has_work(qs, o[p] as int));
        assert(qs2[o2[p] as int] == qs[o[p] as int]);
    }
    assert forall|i: usize| i < qs2.len() && #[trigger] has_work(qs2, i as int) implies o2.contains(
        i,
    ) by {
        assert(qs2[i as int] == qs[perm[i as int] as int]);
        assert(has_work(qs, perm[i as int] as int));
        assert(o.contains(perm[i as int]));
        let p = choose|p: int| 0 <= p < o.len() && o[p] == perm[i as int];
        assert(o2[p] == i);
    }
    assert forall|p: int, q: int| 0 <= p < q < o2.len() implies goes_before(
        qs2,
        #[trigger] o2[p],
        #[trigger] o2[q],
    ) by {
        assert(goes_before(qs, o[p], o[q]));
        assert(qs2[o2[p] as int] == qs[o[p] as int]);
        assert(qs2[o2[q] as int] == qs[o[q] as int]);
    }
    assert(is_service_order(qs2, o2));
    lemma_service_order_unique(qs2, o2);
    let lens = backlog_lens(qs, o);
    assert forall|p: int| 0 <= p < o.len() implies #[trigger] qs2[o2[p] as int] == qs[o[p] as int] by {
        assert(has_work(qs, o[p] as int));
    }
    assert(backlog_lens(qs2, o2) =~= lens);
    assert forall|i: int| 0 <= i < qs.len() implies #[trigger] after2[i] == after[perm[i] as int] by {
        if has_work(qs2, i) {
            assert(o2.contains(i as usize));
            let p = choose|p: int| 0 <= p < o2.len() && o2[p] == i as usize;
            assert(o[p] == perm[i]);
            assert(after2[o2[p] as int] == after[o[p] as int]);
        } else {
            assert(qs2[i] == qs[perm[i] as int]);
            assert(after[perm[i] as int] == qs[perm[i] as int]);
        }
    }
}

/// FIFO per user: in any pass with a positive budget, the tasks a user
/// receives are the first `k` of its queue, standing in the batch in
/// submission order, and its queue keeps the rest in order.
pub proof fn lemma_fifo_per_user(
    qs: Seq<QueueView>,
    b: nat,
    batch: Seq<Task>,
    after: Seq<QueueView>,
    i: int,
)
    requires
        qs.len() <= usize::MAX,
        ids_unique(qs),
        0 <= i < qs.len(),
        b > 0,
        is_dispatch_batch(qs, b, batch),
        is_dispatch_result(qs, b, after),
    ensures
        exists|k: nat, places: Seq<int>|
            #![trigger qs[i].pending.skip(k as int), places.len()]
            {
                &&& k <= qs[i].pending.len()
                &&& after[i].pending == qs[i].pending.skip(k as int)
                &&& places.len() == k
                &&& forall|r: int| 0 <= r < k ==> 0 <= #[trigger] places[r] < batch.len()
                &&& forall|r1: int, r2: int| 0 <= r1 < r2 < k ==> #[trigger] places[r1] < #[trigger] places[r2]
                &&& forall|r: int| 0 <= r < k ==> batch[#[trigger] places[r]] == qs[i].pending[r]
            },
{
    lemma_service_order_exists(qs);
    let o = service_order(qs);
    let lens = backlog_lens(qs, o);
    if !has_work(qs, i) {
        assert(qs[i].pending.skip(0) =~= qs[i].pending);
        let places = Seq::<int>::empty();
        assert(after[i].pending == qs[i].pending.skip(0nat as int) && places.len() == 0nat);
    } else {
        assert(o.contains(i as usize));
        let p = choose|p: int| 0 <= p < o.len() && o[p] == i as usize;
        let k = taken(lens, p, b);
        lemma_count_taken_mono(lens, p, b, lens[p], lens[p]);
        let places = Seq::new(k, |r: int| slot_index(lens, r as nat, p) as int);
        assert(after[o[p] as int] == after[i]);
        assert forall|r: int| 0 <= r < k implies 0 <= #[trigger] places[r] < batch.len()
            && batch[places[r]] == qs[i].pending[r] by {
            lemma_count_taken_prefix(lens, p, b, lens[p], r as nat);
            lemma_slot_before_next_round(lens, r as nat, p);
            lemma_rounds_sum(lens, (r + 1) as nat, lens.len() as int);
        }
        assert forall|r1: int, r2: int| 0 <= r1 < r2 < k implies #[trigger] places[r1]
            < #[trigger] places[r2] by {
            lemma_slot_increasing(lens, p, r1 as nat, r2 as nat);
        }
        assert(forall|r: int| 0 <= r < k ==> batch[#[trigger] places[r]] == qs[i].pending[r]);
        assert(after[i].pending == qs[i].pending.skip(k as int) && places.len() == k);
    }
}

/// Users with work that a pass over `qs` visits ahead of user `u`.
pub open spec fn ahead_of(qs: Seq<QueueView>, u: int) -> Set<int> {
    Set::new(
        |j: int|
            0 <= j < qs.len() && j != u && has_work(qs, j) && goes_before(qs, j as usize, u as usize),
    )
}

proof fn lemma_ahead_finite(qs: Seq<QueueView>, u: int)
    ensures
        ahead_of(qs, u).finite(),
        ahead_of(qs, u).len() <= qs.len(),
{
    vstd::set_lib::lemma_int_range(0, qs.len() as int);
    vstd::set_lib::lemma_len_subset(ahead_of(qs, u), vstd::set_lib::set_int_range(0, qs.len() as int));
}

/// No starvation, the dispatch half: in a pass with a positive budget, a
/// user with work that nobody is ahead of is served, and a user with work
/// that is not served waits one cycle more, keeps its queue, and sees the
/// set of users ahead of it strictly shrink: everyone still ahead was ahead
/// before, and the first user visited is ahead no more.
pub proof fn lemma_unserved_user_advances(
    qs: Seq<QueueView>,
    b: nat,
    qs2: Seq<QueueView>,
    u: int,
)
    requires
        0 <= u < qs.len() <= usize::MAX,
        ids_unique(qs),
        has_work(qs, u),
        forall|i: int| 0 <= i < qs.len() ==> #[trigger] qs[i].waiting < usize::MAX,
        b > 0,
        is_dispatch_result(qs, b, qs2),
    ensures
        ahead_of(qs, u) == Set::<int>::empty() ==> qs2[u].waiting == 0 && qs2[u].pending.len()
            < qs[u].pending.len(),
        qs2[u].waiting != 0 ==> {
            &&& qs2[u].waiting == qs[u].waiting + 1
            &&& qs2[u].pending == qs[u].pending
            &&& ahead_of(qs2, u).subset_of(ahead_of(qs, u))
            &&& ahead_of(qs2, u) != ahead_of(qs, u)
            &&& ahead_of(qs2, u).len() < ahead_of(qs, u).len()
        },
{
    lemma_service_order_exists(qs);
    lemma_goes_before_strict(qs);
    let o = service_order(qs);
    let lens = backlog_lens(qs, o);
    assert(o.contains(u as usize));
    let pu = choose|p: int| 0 <= p < o.len() && o[p] == u as usize;
    assert forall|q: int| 0 <= q < lens.len() implies lens[q] > 0 by {
        assert(has_work(qs, o[q] as int));
    }
    assert forall|q: int| 0 <= q < o.len() && q != pu implies o[q] != o[pu] by {
        if q < pu {
            assert(goes_before(qs, o[q], o[pu]));
        } else {
            assert(goes_before(qs, o[pu], o[q]));
        }
    }
    assert(qs2[o[pu] as int] == qs2[u]);
    if pu > 0 {
        assert(goes_before(qs, o[0], o[pu]));
        assert(has_work(qs, o[0] as int));
        assert(ahead_of(qs, u).contains(o[0] as int));
    }
    if ahead_of(qs, u) == Set::<int>::empty() {
        assert(pu == 0);
        lemma_first_round_positions(lens, 0);
        lemma_count_taken_all(lens, 0, b, 1);
        lemma_count_taken_mono(lens, 0, b, 1, lens[0]);
    }
    if qs2[u].waiting != 0 {
        lemma_first_round_positions(lens, pu);
        lemma_count_taken_none(lens, pu, b, lens[pu]);
        assert(qs[u].pending.skip(0) =~= qs[u].pending);
        assert forall|j: int| ahead_of(qs2, u).contains(j) implies ahead_of(qs, u).contains(j) by {
            if !has_work(qs, j) {
                assert(qs2[j] == qs[j]);
            } else {
                assert(o.contains(j as usize));
                let pj = choose|p: int| 0 <= p < o.len() && o[p] == j as usize;
                assert(qs2[o[pj] as int] == qs2[j]);
            }
        }
        assert(qs2[o[0] as int].waiting == 0);
        assert(!ahead_of(qs2, u).contains(o[0] as int));
        let x = o[0] as int;
        lemma_ahead_finite(qs, u);
        assert(ahead_of(qs2, u).subset_of(ahead_of(qs, u).remove(x)));
        vstd::set_lib::lemma_len_subset(ahead_of(qs2, u), ahead_of(qs, u).remove(x));
    }
}

/// What a run of passes over states `before[t]` (with results `after[t]`
/// and budgets `bs[t]`) looks like to user `u` during its first `k` passes:
/// every pass has a positive budget and skips `u`, and between two passes
/// `u` keeps its work and nobody new gets ahead of it.
pub open spec fn skipped_run(
    before: Seq<Seq<QueueView>>,
    after: Seq<Seq<QueueView>>,
    bs: Seq<nat>,
    u: int,
    k: int,
) -> bool {
    &&& k <= before.len()
    &&& k <= after.len()
    &&& k <= bs.len()
    &&& has_work(before[0], u)
    &&& forall|t: int|
        0 <= t < k ==> {
            &&& 0 <= u < (#[trigger] before[t]).len() <= usize::MAX
            &&& ids_unique(before[t])
            &&& forall|i: int| 0 <= i < before[t].len() ==> #[trigger] before[t][i].waiting < usize::MAX
            &&& bs[t] > 0
            &&& is_dispatch_result(before[t], bs[t], after[t])
            &&& after[t][u].waiting != 0
        }
    &&& forall|t: int|
        0 <= t < k - 1 && has_work(after[t], u) ==> {
            &&& has_work(#[trigger] before[t + 1], u)
            &&& ahead_of(before[t + 1], u).subset_of(ahead_of(after[t], u))
        }
}

proof fn lemma_skipped_chain(
    before: Seq<Seq<QueueView>>,
    after: Seq<Seq<QueueView>>,
    bs: Seq<nat>,
    u: int,
    k: int,
    t: int,
)
    requires
        skipped_run(before, after, bs, u, k),
        0 <= t < k,
    ensures
        has_work(before[t], u),
        ahead_of(after[t], u).len() + t + 1 <= ahead_of(before[0], u).len(),
    decreases t,
{
    assert(0 <= u < before[t].len());
    if t > 0 {
        lemma_skipped_chain(before, after, bs, u, k, t - 1);
        assert(0 <= u < before[t - 1].len());
        lemma_unserved_user_advances(before[t - 1], bs[t - 1], after[t - 1], u);
        assert(has_work(after[t - 1], u));
        let s = t - 1;
        assert(has_work(before[s + 1], u));
        assert(before[s + 1] == before[t]);
        lemma_ahead_finite(after[t - 1], u);
        vstd::set_lib::lemma_len_subset(ahead_of(before[t], u), ahead_of(after[t - 1], u));
    }
    lemma_unserved_user_advances(before[t], bs[t], after[t], u);
}

/// No starvation over many cycles: a user with work is skipped by at most
/// as many consecutive passes with a positive budget as there are users
/// ahead of it at the start, provided that between passes it keeps its
/// work and nobody new gets ahead of it (which submissions guarantee, see
/// `lemma_submission_keeps_place`).
pub proof fn lemma_served_within(
    before: Seq<Seq<QueueView>>,
    after: Seq<Seq<QueueView>>,
    bs: Seq<nat>,
    u: int,
    k: int,
)
    requires
        skipped_run(before, after, bs, u, k),
    ensures
        k <= ahead_of(before[0], u).len(),
{
    if k > 0 {
        lemma_skipped_chain(before, after, bs, u, k, k - 1);
    }
}

/// No starvation, the submission half: a submission never adds to the users
/// ahead of a user with work that has already waited, and leaves that
/// user's counter and work in place. Together with the dispatch half, whose
/// count of users ahead drops by at least one per pass that skips the user,
/// a user with work is served within one more cycle with a positive budget
/// than there are users ahead of it.
pub proof fn lemma_submission_keeps_place(
    qs: Seq<QueueView>,
    user_id: Seq<char>,
    task_id: Seq<char>,
    priority_bits: u32,
    qs2: Seq<QueueView>,
    u: int,
)
    requires
        0 <= u < qs.len() < usize::MAX,
        forall|i: int|
            0 <= i < qs.len() && #[trigger] qs[i].pending.len() == 0 ==> qs[i].waiting == 0,
        is_submission(qs, user_id, task_id, priority_bits, qs2),
        has_work(qs, u),
        qs[u].waiting > 0,
    ensures
        has_work(qs2, u),
        qs2[u].waiting == qs[u].waiting,
        ahead_of(qs2, u).subset_of(ahead_of(qs, u)),
        ahead_of(qs2, u).len() <= ahead_of(qs, u).len(),
{
    if exists|i: int| 0 <= i < qs.len() && qs[i].id == user_id {
        if qs[u].id == user_id {
            assert(qs2[u].id == user_id);
        } else {
            assert(qs2[u] == qs[u]);
        }
        assert forall|j: int| ahead_of(qs2, u).contains(j) implies ahead_of(qs, u).contains(j) by {
            if qs[j].id == user_id {
                assert(qs2[j].id == user_id);
            } else {
                assert(qs2[j] == qs[j]);
            }
        }
    } else {
        assert(qs2[u] == qs2.drop_last()[u]);
        assert forall|j: int| ahead_of(qs2, u).contains(j) implies ahead_of(qs, u).contains(j) by {
            if j < qs.len() {
                assert(qs2[j] == qs2.drop_last()[j]);
            }
        }
    }
    lemma_ahead_finite(qs, u);
    vstd::set_lib::lemma_len_subset(ahead_of(qs2, u), ahead_of(qs, u));
}

proof fn lemma_single_count_taken(lens: Seq<nat>, b: nat, r: nat)
    requires
        lens.len() == 1,
        r <= lens[0],
    ensures
        count_taken(lens, 0, b, r) == min_nat(r, b),
        slot_index(lens, r, 0) == r,
    decreases r,
{
    assert(slot_index(lens, r, 0) == r) by {
        assert(rounds_prefix(lens, r, 0) == 0);
        assert(rounds_prefix(lens, r, 1) == min_nat(lens[0], r));
        assert(row_count(lens, r, 0) == 0);
    }
    if r > 0 {
        lemma_single_count_taken(lens, b, (r - 1) as nat);
    }
}

/// FIFO per user: when a single user has work, a pass hands out the front
/// of that user's queue in submission order and leaves the rest, in order.
pub proof fn lemma_single_user_fifo(
    qs: Seq<QueueView>,
    u: int,
    b: nat,
    batch: Seq<Task>,
    qs2: Seq<QueueView>,
)
    requires
        0 <= u < qs.len() <= usize::MAX,
        has_work(qs, u),
        forall|i: int| 0 <= i < qs.len() && i != u ==> !has_work(qs, i),
        b > 0,
        is_dispatch_batch(qs, b, batch),
        is_dispatch_result(qs, b, qs2),
    ensures
        batch == qs[u].pending.take(min_nat(b, qs[u].pending.len()) as int),
        qs2[u].pending == qs[u].pending.skip(min_nat(b, qs[u].pending.len()) as int),
{
    let o = seq![u as usize];
    assert forall|i: usize| i < qs.len() && #[trigger] has_work(qs, i as int) implies o.contains(i) by {
        assert(o[0] == i);
    }
    assert(is_service_order(qs, o));
    lemma_service_order_unique(qs, o);
    let lens = backlog_lens(qs, o);
    let n = min_nat(b, qs[u].pending.len());
    assert(sum_lens(lens, 0) == 0);
    assert(sum_lens(lens, 1) == lens[0]);
    lemma_single_count_taken(lens, b, lens[0]);
    assert forall|k: int| 0 <= k < n implies #[trigger] batch[k] == qs[u].pending[k] by {
        lemma_single_count_taken(lens, b, k as nat);
    }
    assert(batch =~= qs[u].pending.take(n as int));
    assert(qs2[o[0] as int] == qs2[u]);
}

} // verus!
