//! The dispatcher: per-user FIFO queues, a fixed capacity, and the
//! dispatch pass that releases a bounded slice of the backlog each cycle.
use std::collections::VecDeque;

use vstd::prelude::*;

use crate::model::{
    QueueView, aged, backlog_lens, count_taken, cycle_budget, goes_before, has_work, id_less,
    ids_unique,
    is_dispatch_batch, is_dispatch_result, is_service_order, min_nat, service_order, slot_index, taken,
    total_pending,
};
use crate::slot_lemmas::{
    lemma_count_taken_all, lemma_count_taken_stable, lemma_first_round_positions,
    lemma_goes_before_strict, lemma_goes_before_total, lemma_goes_before_trans,
    lemma_rounds_mono, lemma_rounds_step, lemma_rounds_sum,
    lemma_service_order_unique, lemma_slot_before_next_round, lemma_slot_increasing,
    lemma_total_covers, lemma_total_update, lemma_total_zero, lemma_visited_slot_before,
};
use crate::task::Task;
use vstd::string::StrSliceExecFns;

verus! {

/// One user's record: its identifier, its aging counter and its FIFO queue.
struct User {
    id: String,
    cycles_waiting: usize,
    task_list: VecDeque<Task>,
}

impl View for User {
    type V = QueueView;

    closed spec fn view(&self) -> QueueView {
        QueueView { id: self.id@, waiting: self.cycles_waiting as nat, pending: self.task_list@ }
    }
}

impl User {
    fn new(id: String, cycles_waiting: usize, task_list: VecDeque<Task>) -> (u: User)
        ensures
            u@ == (QueueView { id: id@, waiting: cycles_waiting as nat, pending: task_list@ }),
    {
        User { id, cycles_waiting, task_list }
    }
}

spec fn queues_of(users: Seq<User>) -> Seq<QueueView> {
    users.map_values(|u: User| u@)
}

/// Whether id `a` comes before id `b` in lexical order.
fn id_less_exec(a: &String, b: &String) -> (r: bool)
    ensures
        r == id_less(a@, b@),
{
    let sa = a.as_str();
    let sb = b.as_str();
    let la = sa.unicode_len();
    let lb = sb.unicode_len();
    let mut k: usize = 0;
    proof {
        assert(a@.skip(0) =~= a@);
        assert(b@.skip(0) =~= b@);
    }
    while k < la && k < lb
        invariant
            sa@ == a@,
            sb@ == b@,
            la == a@.len(),
            lb == b@.len(),
            k <= la,
            k <= lb,
            id_less(a@, b@) == id_less(a@.skip(k as int), b@.skip(k as int)),
        decreases la - k,
    {
        let ca = sa.get_char(k);
        let cb = sb.get_char(k);
        if ca != cb {
            return ca < cb;
        }
        proof {
            assert(a@.skip(k as int).drop_first() =~= a@.skip(k + 1));
            assert(b@.skip(k as int).drop_first() =~= b@.skip(k + 1));
        }
        k += 1;
    }
    k < lb && k == la
}

/// The users with pending work, longest-waiting first, ties in lexical
/// order of their ids.
fn service_order_of(users: &Vec<User>) -> (order: Vec<usize>)
    requires
        ids_unique(queues_of(users@)),
    ensures
        is_service_order(queues_of(users@), order@),
{
    let ghost qs = queues_of(users@);
    let mut order: Vec<usize> = Vec::new();
    let mut i: usize = 0;
    while i < users.len()
        invariant
            i <= users@.len(),
            qs == queues_of(users@),
            ids_unique(qs),
            forall|p: int| 0 <= p < order@.len() ==> #[trigger] order@[p] < i && has_work(qs, order@[p] as int),
            forall|j: usize| j < i && #[trigger] has_work(qs, j as int) ==> order@.contains(j),
            forall|p: int, q: int|
                0 <= p < q < order@.len() ==> goes_before(qs, #[trigger] order@[p], #[trigger] order@[q]),
        decreases users@.len() - i,
    {
        if users[i].task_list.len() > 0 {
            let w = users[i].cycles_waiting;
            let mut p: usize = 0;
            while p < order.len() && (users[order[p]].cycles_waiting > w
                || (users[order[p]].cycles_waiting == w && id_less_exec(&users[order[p]].id, &users[i].id)))
                invariant
                    p <= order@.len(),
                    i < users@.len(),
                    qs == queues_of(users@),
                    ids_unique(qs),
                    w == qs[i as int].waiting,
                    forall|k: int| 0 <= k < order@.len() ==> #[trigger] order@[k] < i,
                    forall|k: int| 0 <= k < p ==> goes_before(qs, #[trigger] order@[k], i),
                decreases order@.len() - p,
            {
                p += 1;
            }
            let ghost old_order = order@;
            order.insert(p, i);
            proof {
                assert forall|a: int, b: int| 0 <= a < b < order@.len() implies goes_before(
                    qs,
                    #[trigger] order@[a],
                    #[trigger] order@[b],
                ) by {
                    if b < p {
                        assert(goes_before(qs, old_order[a], old_order[b]));
                    } else if b == p {
                        assert(goes_before(qs, old_order[a], i));
                    } else if a == p {
                        assert(p < old_order.len());
                        assert(!goes_before(qs, old_order[p as int], i));
                        lemma_goes_before_total(qs, old_order[p as int], i);
                        if b - 1 > p {
                            assert(goes_before(qs, old_order[p as int], old_order[b - 1]));
                            lemma_goes_before_trans(qs, i, old_order[p as int], old_order[b - 1]);
                        }
                    } else if a < p {
                        assert(goes_before(qs, old_order[a], old_order[b - 1]));
                    } else {
                        assert(goes_before(qs, old_order[a - 1], old_order[b - 1]));
                    }
                }
                assert forall|j: usize| j < i + 1 && #[trigger] has_work(qs, j as int) implies order@.contains(j) by {
                    if j < i {
                        assert(old_order.contains(j));
                        let k = choose|k: int| 0 <= k < old_order.len() && old_order[k] == j;
                        if k < p {
                            assert(order@[k] == j);
                        } else {
                            assert(order@[k + 1] == j);
                        }
                    } else {
                        assert(order@[p as int] == j);
                    }
                }
            }
        }
        i += 1;
    }
    order
}

/// How many rounds a pass that is at position `pos` of round `round` has
/// visited the user at position `p`.
spec fn visits(round: nat, pos: int, p: int) -> nat {
    if p < pos {
        round + 1
    } else {
        round
    }
}

/// The records part way through a pass with budget `b` over service order `o`.
spec fn pass_state(
    qs0: Seq<QueueView>,
    o: Seq<usize>,
    b: nat,
    round: nat,
    pos: int,
    qs: Seq<QueueView>,
) -> bool {
    let lens = backlog_lens(qs0, o);
    &&& qs.len() == qs0.len()
    &&& forall|i: int| 0 <= i < qs0.len() && !has_work(qs0, i) ==> #[trigger] qs[i] == qs0[i]
    &&& forall|p: int|
        0 <= p < o.len() ==> #[trigger] qs[o[p] as int] == (QueueView {
            id: qs0[o[p] as int].id,
            waiting: if visits(round, pos, p) == 0 {
                qs0[o[p] as int].waiting
            } else if p < b {
                0
            } else {
                aged(qs0[o[p] as int].waiting)
            },
            pending: qs0[o[p] as int].pending.skip(
                count_taken(lens, p, b, min_nat(lens[p], visits(round, pos, p))) as int,
            ),
        })
}

/// The batch part way through the same pass.
spec fn batch_state(
    qs0: Seq<QueueView>,
    o: Seq<usize>,
    b: nat,
    round: nat,
    pos: int,
    batch: Seq<Task>,
) -> bool {
    let lens = backlog_lens(qs0, o);
    &&& batch.len() == min_nat(b, slot_index(lens, round, pos))
    &&& forall|p: int, r: nat|
        0 <= p < o.len() && r < lens[p] && r < visits(round, pos, p) && slot_index(lens, r, p)
            < b ==> batch[#[trigger] slot_index(lens, r, p) as int] == qs0[o[p] as int].pending[r as int]
}

/// The dispatcher as the contracts see it.
pub ghost struct SchedulerView {
    pub capacity: nat,
    pub queues: Seq<QueueView>,
    /// Tasks held across all queues.
    pub pending: nat,
    /// Tasks submitted since construction.
    pub submitted: nat,
    /// Tasks handed out by dispatch passes since construction.
    pub dispatched: nat,
}

/// What holds of the dispatcher between calls.
pub open spec fn well_formed(v: SchedulerView) -> bool {
    &&& v.pending == total_pending(v.queues)
    &&& v.pending + v.dispatched == v.submitted
    &&& ids_unique(v.queues)
    &&& forall|i: int, k: int|
        0 <= i < v.queues.len() && 0 <= k < v.queues[i].pending.len() ==> (
        #[trigger] v.queues[i].pending[k]).user_id@ == v.queues[i].id
    &&& forall|i: int|
        0 <= i < v.queues.len() && #[trigger] v.queues[i].pending.len() == 0 ==> v.queues[i].waiting
            == 0
    &&& forall|i: int| 0 <= i < v.queues.len() ==> #[trigger] v.queues[i].waiting <= usize::MAX
}

/// `t` is the task made from these parts.
pub open spec fn is_task(t: Task, task_id: Seq<char>, user_id: Seq<char>, priority_bits: u32) -> bool {
    t.task_id@ == task_id && t.user_id@ == user_id && t.priority_bits == priority_bits
}

/// `qs2` is `qs` after a task with these parts was appended to the queue of
/// `user_id`, the record being created if there was none.
pub open spec fn is_submission(
    qs: Seq<QueueView>,
    user_id: Seq<char>,
    task_id: Seq<char>,
    priority_bits: u32,
    qs2: Seq<QueueView>,
) -> bool {
    if exists|i: int| 0 <= i < qs.len() && qs[i].id == user_id {
        &&& qs2.len() == qs.len()
        &&& forall|i: int|
            #![trigger qs2[i]]
            0 <= i < qs.len() ==> if qs[i].id == user_id {
                &&& qs2[i].id == user_id
                &&& qs2[i].waiting == qs[i].waiting
                &&& qs2[i].pending.len() == qs[i].pending.len() + 1
                &&& qs2[i].pending.drop_last() == qs[i].pending
                &&& is_task(qs2[i].pending.last(), task_id, user_id, priority_bits)
            } else {
                qs2[i] == qs[i]
            }
    } else {
        &&& qs2.len() == qs.len() + 1
        &&& qs2.drop_last() == qs
        &&& qs2.last().id == user_id
        &&& qs2.last().waiting == 0
        &&& qs2.last().pending.len() == 1
        &&& is_task(qs2.last().pending[0], task_id, user_id, priority_bits)
    }
}

/// A fair-share dispatcher over per-user task queues.
pub struct FairScheduler {
    system_capacity: usize,
    users: Vec<User>,
    current_task_count: usize,
    submitted: Ghost<nat>,
    dispatched: Ghost<nat>,
}

impl View for FairScheduler {
    type V = SchedulerView;

    closed spec fn view(&self) -> SchedulerView {
        SchedulerView {
            capacity: self.system_capacity as nat,
            queues: queues_of(self.users@),
            pending: self.current_task_count as nat,
            submitted: self.submitted@,
            dispatched: self.dispatched@,
        }
    }
}

impl FairScheduler {
    pub open spec fn wf(&self) -> bool {
        well_formed(self@)
    }

    pub fn new(system_capacity: usize) -> (s: FairScheduler)
        ensures
            s.wf(),
            s@.capacity == system_capacity,
            s@.queues == Seq::<QueueView>::empty(),
            s@.pending == 0,
            s@.submitted == 0,
            s@.dispatched == 0,
    {
        let s = FairScheduler {
            system_capacity,
            users: Vec::new(),
            current_task_count: 0,
            submitted: Ghost(0),
            dispatched: Ghost(0),
        };
        assert(s@.queues =~= Seq::<QueueView>::empty());
        s
    }

    /// Total number of queued tasks over all users.
    pub fn get_current_task_count(&self) -> (n: usize)
        ensures
            n == self@.pending,
    {
        self.current_task_count
    }

    fn find_user(&self, user_id: &String) -> (r: Option<usize>)
        ensures
            match r {
                Some(i) => i < self@.queues.len() && self@.queues[i as int].id == user_id@,
                None => forall|i: int| 0 <= i < self@.queues.len() ==> self@.queues[i].id != user_id@,
            },
    {
        let mut i: usize = 0;
        while i < self.users.len()
            invariant
                i <= self.users@.len(),
                forall|j: int| 0 <= j < i ==> self@.queues[j].id != user_id@,
            decreases self.users@.len() - i,
        {
            if self.users[i].id == *user_id {
                return Some(i);
            }
            i += 1;
        }
        None
    }

    /// The queue of `user_id`, or `None` when that user never submitted.
    pub fn get_task_list_for_user(&self, user_id: &str) -> (r: Option<&VecDeque<Task>>)
        ensures
            match r {
                Some(q) => exists|i: int|
                    0 <= i < self@.queues.len() && self@.queues[i].id == user_id@ && q@
                        == self@.queues[i].pending,
                None => forall|i: int|
                    0 <= i < self@.queues.len() ==> self@.queues[i].id != user_id@,
            },
    {
        match self.find_user(&user_id.to_owned()) {
            Some(i) => Some(&self.users[i].task_list),
            None => None,
        }
    }

    /// How many tasks `user_id` has queued; zero for a user without a record.
    pub fn get_pending_for_user(&self, user_id: &str) -> (n: usize)
        requires
            self.wf(),
        ensures
            forall|i: int|
                0 <= i < self@.queues.len() && self@.queues[i].id == user_id@ ==> n
                    == self@.queues[i].pending.len(),
            (forall|i: int| 0 <= i < self@.queues.len() ==> self@.queues[i].id != user_id@) ==> n
                == 0,
    {
        match self.find_user(&user_id.to_owned()) {
            Some(i) => self.users[i].task_list.len(),
            None => 0,
        }
    }

    /// How many cycles `user_id` has waited; zero for a user without a record.
    pub fn get_cycles_waiting_for_user(&self, user_id: &str) -> (n: usize)
        requires
            self.wf(),
        ensures
            forall|i: int|
                0 <= i < self@.queues.len() && self@.queues[i].id == user_id@ ==> n
                    == self@.queues[i].waiting,
            (forall|i: int| 0 <= i < self@.queues.len() ==> self@.queues[i].id != user_id@) ==> n
                == 0,
    {
        match self.find_user(&user_id.to_owned()) {
            Some(i) => self.users[i].cycles_waiting,
            None => 0,
        }
    }

    /// Hands out the front task of user `i` and resets its counter.
    fn serve_front(&mut self, i: usize) -> (t: Task)
        requires
            old(self).wf(),
            i < old(self)@.queues.len(),
            old(self)@.queues[i as int].pending.len() > 0,
        ensures
            final(self).wf(),
            t == old(self)@.queues[i as int].pending[0],
            final(self)@ == (SchedulerView {
                queues: old(self)@.queues.update(
                    i as int,
                    QueueView {
                        waiting: 0,
                        pending: old(self)@.queues[i as int].pending.skip(1),
                        ..old(self)@.queues[i as int]
                    },
                ),
                pending: (old(self)@.pending - 1) as nat,
                dispatched: old(self)@.dispatched + 1,
                ..old(self)@
            }),
    {
        let ghost qs0 = self@.queues;
        proof {
            lemma_total_covers(qs0, i as int);
        }
        let t = self.users[i].task_list.pop_front().unwrap();
        self.users[i].cycles_waiting = 0;
        self.current_task_count = self.current_task_count - 1;
        proof {
            self.dispatched@ = self.dispatched@ + 1;
            let u1 = QueueView { waiting: 0, pending: qs0[i as int].pending.skip(1), ..qs0[i as int] };
            assert(self@.queues =~= qs0.update(i as int, u1));
            lemma_total_update(qs0, i as int, u1);
            assert forall|j: int, k: int|
                0 <= j < self@.queues.len() && 0 <= k < self@.queues[j].pending.len() implies (
                #[trigger] self@.queues[j].pending[k]).user_id@ == self@.queues[j].id by {
                if j == i {
                    assert(self@.queues[j].pending[k] == qs0[j].pending[k + 1]);
                }
            }
        }
        t
    }

    /// Adds one cycle to the counter of user `i`, who has work but was not
    /// reached.
    fn age_user(&mut self, i: usize)
        requires
            old(self).wf(),
            i < old(self)@.queues.len(),
            old(self)@.queues[i as int].pending.len() > 0,
        ensures
            final(self).wf(),
            final(self)@ == (SchedulerView {
                queues: old(self)@.queues.update(
                    i as int,
                    QueueView {
                        waiting: aged(old(self)@.queues[i as int].waiting),
                        ..old(self)@.queues[i as int]
                    },
                ),
                ..old(self)@
            }),
    {
        let ghost qs0 = self@.queues;
        self.users[i].cycles_waiting = self.users[i].cycles_waiting.saturating_add(1);
        proof {
            let u1 = QueueView { waiting: aged(qs0[i as int].waiting), ..qs0[i as int] };
            assert(self@.queues =~= qs0.update(i as int, u1));
            lemma_total_update(qs0, i as int, u1);
        }
    }

    /// Runs one dispatch cycle. The budget is the capacity minus
    /// `current_system_usage`, and zero once usage reaches capacity. Users
    /// with work are visited longest-waiting first (ties in lexical order of
    /// the ids), in rounds that take one task from each user with work
    /// left, until the budget or the work runs out. Users reached in the
    /// first round have their counter reset; users with work that were not
    /// reached wait one cycle more. With no budget nothing changes.
    pub fn run_cycle(&mut self, current_system_usage: usize) -> (batch: Vec<Task>)
        requires
            old(self).wf(),
        ensures
            final(self).wf(),
            final(self)@.capacity == old(self)@.capacity,
            final(self)@.submitted == old(self)@.submitted,
            final(self)@.dispatched == old(self)@.dispatched + batch@.len(),
            final(self)@.pending + batch@.len() == old(self)@.pending,
            batch@.len() <= cycle_budget(old(self)@.capacity, current_system_usage as nat),
            batch@.len() <= old(self)@.pending,
            batch@.len() < cycle_budget(old(self)@.capacity, current_system_usage as nat)
                ==> final(self)@.pending == 0,
            old(self)@.pending == 0 ==> batch@.len() == 0 && final(self)@ == old(self)@,
            cycle_budget(old(self)@.capacity, current_system_usage as nat) == 0 ==> batch@.len()
                == 0 && final(self)@ == old(self)@,
            cycle_budget(old(self)@.capacity, current_system_usage as nat) > 0 ==> {
                &&& is_dispatch_batch(
                    old(self)@.queues,
                    cycle_budget(old(self)@.capacity, current_system_usage as nat),
                    batch@,
                )
                &&& is_dispatch_result(
                    old(self)@.queues,
                    cycle_budget(old(self)@.capacity, current_system_usage as nat),
                    final(self)@.queues,
                )
            },
    {
        let mut budget: usize = if self.system_capacity > current_system_usage {
            self.system_capacity - current_system_usage
        } else {
            0
        };
        if budget == 0 {
            return Vec::new();
        }
        let order = service_order_of(&self.users);
        let ghost s0 = self@;
        let ghost qs0 = self@.queues;
        let ghost o = order@;
        let ghost lens = backlog_lens(qs0, o);
        let ghost b = budget as nat;
        proof {
            lemma_service_order_unique(qs0, o);
            assert(self.users.len() == self.users@.len());
            assert forall|q: int| 0 <= q < lens.len() implies lens[q] > 0 by {
                assert(has_work(qs0, o[q] as int));
            }
            lemma_first_round_positions(lens, 0);
            assert(self@.queues =~= qs0);
            assert forall|p: int| 0 <= p < o.len() implies #[trigger] self@.queues[o[p] as int] == (
            QueueView {
                id: qs0[o[p] as int].id,
                waiting: qs0[o[p] as int].waiting,
                pending: qs0[o[p] as int].pending.skip(
                    count_taken(lens, p, b, min_nat(lens[p], 0)) as int,
                ),
            }) by {
                assert(qs0[o[p] as int].pending.skip(0) =~= qs0[o[p] as int].pending);
            }
        }
        let mut batch: Vec<Task> = Vec::new();
        let mut progressed = true;
        let mut first_round = true;
        let ghost mut round: nat = 0;
        while budget > 0 && progressed
            invariant
                self.wf(),
                self@.capacity == s0.capacity,
                self@.submitted == s0.submitted,
                self@.dispatched == s0.dispatched + batch@.len(),
                self@.pending + batch@.len() == s0.pending,
                s0.queues == qs0,
                qs0.len() <= usize::MAX,
                order@ == o,
                o == service_order(qs0),
                is_service_order(qs0, o),
                lens == backlog_lens(qs0, o),
                forall|q: int| 0 <= q < lens.len() ==> lens[q] > 0,
                budget + batch@.len() == b,
                b > 0,
                first_round <==> round == 0,
                round == 0 ==> progressed,
                !progressed ==> forall|q: int| 0 <= q < lens.len() ==> lens[q] <= round,
                pass_state(qs0, o, b, round, 0, self@.queues),
                batch_state(qs0, o, b, round, 0, batch@),
            decreases budget * 2 + if progressed {
                1int
            } else {
                0int
            },
        {
            progressed = false;
            let ghost budget_at_start = budget;
            let mut p: usize = 0;
            while p < order.len()
                invariant
                    self.wf(),
                    self@.capacity == s0.capacity,
                    self@.submitted == s0.submitted,
                    self@.dispatched == s0.dispatched + batch@.len(),
                    self@.pending + batch@.len() == s0.pending,
                    qs0.len() <= usize::MAX,
                    order@ == o,
                    is_service_order(qs0, o),
                    lens == backlog_lens(qs0, o),
                    forall|q: int| 0 <= q < lens.len() ==> lens[q] > 0,
                    budget + batch@.len() == b,
                    b > 0,
                    first_round <==> round == 0,
                    p <= o.len(),
                    progressed ==> budget < budget_at_start,
                    !progressed ==> budget == budget_at_start && budget > 0,
                    !progressed ==> forall|q: int| 0 <= q < p ==> lens[q] <= round,
                    pass_state(qs0, o, b, round, p as int, self@.queues),
                    batch_state(qs0, o, b, round, p as int, batch@),
                decreases o.len() - p,
            {
                let i = order[p];
                let ghost qs1 = self@.queues;
                let ghost batch1 = batch@;
                let ghost pp = p as int;
                let ghost lp = lens[pp];
                proof {
                    assert(has_work(qs0, i as int));
                    assert(qs1[i as int] == qs1[o[pp] as int]);
                    if round > 0 {
                        lemma_slot_increasing(lens, pp, 0, round);
                    }
                    lemma_first_round_positions(lens, pp);
                    if budget > 0 {
                        if lp > round {
                            if round > 0 {
                                lemma_slot_increasing(lens, pp, (round - 1) as nat, round);
                            }
                            lemma_count_taken_all(lens, pp, b, round);
                        } else {
                            lemma_slot_before_next_round(lens, (lp - 1) as nat, pp);
                            lemma_rounds_mono(lens, lp, round);
                            lemma_count_taken_all(lens, pp, b, lp);
                        }
                    }
                }
                if self.users[i].task_list.len() > 0 {
                    if budget > 0 {
                        let t = self.serve_front(i);
                        batch.push(t);
                        budget = budget - 1;
                        progressed = true;
                        proof {
                            lemma_count_taken_all(lens, pp, b, round + 1);
                            assert(qs0[i as int].pending.skip(round as int).skip(1) =~= qs0[i as int].pending.skip(round + 1 as int));
                        }
                    } else if first_round {
                        self.age_user(i);
                    }
                }
                proof {
                    let qs2 = self@.queues;
                    lemma_goes_before_strict(qs0);
                    assert forall|q: int| 0 <= q < o.len() && q != pp implies o[q] != o[pp] by {
                        if q < pp {
                            assert(goes_before(qs0, o[q], o[pp]));
                        } else {
                            assert(goes_before(qs0, o[pp], o[q]));
                        }
                    }
                    assert forall|q: int| 0 <= q < o.len() implies #[trigger] qs2[o[q] as int] == (QueueView {
                        id: qs0[o[q] as int].id,
                        waiting: if visits(round, pp + 1, q) == 0 {
                            qs0[o[q] as int].waiting
                        } else if q < b {
                            0
                        } else {
                            aged(qs0[o[q] as int].waiting)
                        },
                        pending: qs0[o[q] as int].pending.skip(
                            count_taken(lens, q, b, min_nat(lens[q], visits(round, pp + 1, q))) as int,
                        ),
                    }) by {
                        if q != pp {
                            assert(qs2[o[q] as int] == qs1[o[q] as int]);
                        }
                    }
                    assert forall|i2: int| 0 <= i2 < qs0.len() && !has_work(qs0, i2) implies #[trigger] qs2[i2] == qs0[i2] by {
                        assert(qs2[i2] == qs1[i2]);
                    }
                    assert forall|q: int, r: nat|
                        0 <= q < o.len() && r < lens[q] && r < visits(round, pp + 1, q) && slot_index(lens, r, q)
                            < b implies batch@[#[trigger] slot_index(lens, r, q) as int] == qs0[o[q] as int].pending[r as int] by {
                        if q != pp || r < round {
                            lemma_visited_slot_before(lens, round, pp, r, q);
                        }
                    }
                }
                p += 1;
            }
            first_round = false;
            proof {
                lemma_rounds_step(lens, round, lens.len() as int);
                round = round + 1;
            }
        }
        proof {
            let qs2 = self@.queues;
            lemma_rounds_sum(lens, round, lens.len() as int);
            assert forall|p: int| 0 <= p < o.len() implies count_taken(lens, p, b, min_nat(lens[p], round)) == taken(lens, p, b) by {
                if lens[p] > round {
                    lemma_count_taken_stable(lens, p, b, round, lens[p]);
                }
            }
            assert forall|p: int, r: nat|
                0 <= p < lens.len() && r < lens[p] && slot_index(lens, r, p) < b implies batch@[#[trigger] slot_index(lens, r, p) as int] == qs0[o[p] as int].pending[r as int] by {
                if r >= round {
                    lemma_rounds_mono(lens, round, r);
                }
            }
            if batch@.len() < b {
                assert forall|j: int| 0 <= j < qs2.len() implies #[trigger] qs2[j].pending.len() == 0 by {
                    if has_work(qs0, j) {
                        assert(has_work(qs0, (j as usize) as int));
                        assert(o.contains(j as usize));
                        let p = choose|p: int| 0 <= p < o.len() && o[p] == j as usize;
                        assert(!progressed);
                        assert(lens[p] <= round);
                        lemma_slot_before_next_round(lens, (lens[p] - 1) as nat, p);
                        lemma_rounds_mono(lens, lens[p], round);
                        lemma_count_taken_all(lens, p, b, lens[p]);
                    }
                }
                lemma_total_zero(qs2);
            }
            if s0.pending == 0 {
                assert forall|j: int| 0 <= j < qs0.len() implies !has_work(qs0, j) by {
                    lemma_total_covers(qs0, j);
                }
                if o.len() > 0 {
                    assert(has_work(qs0, o[0] as int));
                }
                assert(qs2 =~= qs0);
            }
        }
        batch
    }

    /// Appends a task to the tail of the user's queue, creating the user's
    /// record on its first submission.
    pub fn add_task(&mut self, user_id: String, task_id: String, priority_bits: u32)
        requires
            old(self).wf(),
            old(self)@.pending < usize::MAX,
        ensures
            final(self).wf(),
            final(self)@.capacity == old(self)@.capacity,
            final(self)@.pending == old(self)@.pending + 1,
            final(self)@.submitted == old(self)@.submitted + 1,
            final(self)@.dispatched == old(self)@.dispatched,
            is_submission(old(self)@.queues, user_id@, task_id@, priority_bits, final(self)@.queues),
    {
        let ghost qs0 = self@.queues;
        let task = Task::new(task_id, user_id.clone(), priority_bits);
        match self.find_user(&user_id) {
            Some(i) => {
                let ghost u0 = qs0[i as int];
                self.users[i].task_list.push_back(task);
                proof {
                    let u1 = QueueView { pending: u0.pending.push(task), ..u0 };
                    assert(self@.queues =~= qs0.update(i as int, u1));
                    lemma_total_update(qs0, i as int, u1);
                    assert(u1.pending.drop_last() =~= u0.pending);
                }
            },
            None => {
                let mut list: VecDeque<Task> = VecDeque::new();
                list.push_back(task);
                let u = User::new(user_id, 0, list);
                self.users.push(u);
                proof {
                    assert(self@.queues =~= qs0.push(u@));
                    assert(self@.queues.drop_last() =~= qs0);
                }
            },
        }
        self.current_task_count = self.current_task_count + 1;
        proof {
            self.submitted@ = self.submitted@ + 1;
        }
    }
}

} // verus!
