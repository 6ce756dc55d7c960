//! Facts about the round/slot arithmetic of the model and about the service
//! order, used by the dispatch pass and by the laws.
use vstd::prelude::*;

use crate::model::{
    QueueView, count_taken, goes_before, has_work, id_less, ids_unique, is_service_order, row_count, rounds_prefix,
    service_order, slot_index, slots_before_round, sum_lens, total_pending,
};

verus! {

/// Lexical order on ids is a strict order.
pub proof fn lemma_id_less_strict(a: Seq<char>, b: Seq<char>)
    ensures
        !id_less(a, a),
        id_less(a, b) ==> !id_less(b, a),
    decreases a.len(),
{
    if a.len() > 0 && b.len() > 0 {
        lemma_id_less_strict(a.drop_first(), b.drop_first());
    }
    if a.len() > 0 {
        lemma_id_less_strict(a.drop_first(), a.drop_first());
    }
}

pub proof fn lemma_id_less_trans(a: Seq<char>, b: Seq<char>, c: Seq<char>)
    requires
        id_less(a, b),
        id_less(b, c),
    ensures
        id_less(a, c),
    decreases a.len(),
{
    if a.len() > 0 && b.len() > 0 && c.len() > 0 && a[0] == b[0] && b[0] == c[0] {
        lemma_id_less_trans(a.drop_first(), b.drop_first(), c.drop_first());
    }
}

/// Two different ids are ordered one way or the other.
pub proof fn lemma_id_less_total(a: Seq<char>, b: Seq<char>)
    requires
        a != b,
    ensures
        id_less(a, b) || id_less(b, a),
    decreases a.len(),
{
    if a.len() > 0 && b.len() > 0 && a[0] == b[0] {
        if a.drop_first() == b.drop_first() {
            assert(a =~= seq![a[0]] + a.drop_first());
            assert(b =~= seq![b[0]] + b.drop_first());
        } else {
            lemma_id_less_total(a.drop_first(), b.drop_first());
        }
    } else if a.len() == 0 && b.len() == 0 {
        assert(a =~= b);
    }
}

/// `goes_before` is a strict order on the records.
pub proof fn lemma_goes_before_strict(qs: Seq<QueueView>)
    ensures
        forall|i: usize, j: usize| #[trigger] goes_before(qs, i, j) ==> !goes_before(qs, j, i),
{
    assert forall|i: usize, j: usize| #[trigger] goes_before(qs, i, j) implies !goes_before(qs, j, i) by {
        lemma_id_less_strict(qs[i as int].id, qs[j as int].id);
    }
}

pub proof fn lemma_goes_before_trans(qs: Seq<QueueView>, i: usize, j: usize, k: usize)
    requires
        goes_before(qs, i, j),
        goes_before(qs, j, k),
    ensures
        goes_before(qs, i, k),
{
    if qs[i as int].waiting == qs[j as int].waiting && qs[j as int].waiting == qs[k as int].waiting {
        lemma_id_less_trans(qs[i as int].id, qs[j as int].id, qs[k as int].id);
    }
}

/// Two different records with distinct ids are ordered one way or the other.
pub proof fn lemma_goes_before_total(qs: Seq<QueueView>, i: usize, j: usize)
    requires
        i < qs.len(),
        j < qs.len(),
        i != j,
        ids_unique(qs),
    ensures
        goes_before(qs, i, j) || goes_before(qs, j, i),
{
    lemma_id_less_total(qs[i as int].id, qs[j as int].id);
}

pub proof fn lemma_row_count_mono(lens: Seq<nat>, r: nat, lo: int, hi: int)
    requires
        0 <= lo <= hi <= lens.len(),
    ensures
        row_count(lens, r, lo) <= row_count(lens, r, hi),
        lo < hi && lens[lo] > r ==> row_count(lens, r, lo) < row_count(lens, r, hi),
    decreases hi,
{
    if lo < hi {
        lemma_row_count_mono(lens, r, lo, hi - 1);
    }
}

/// Round `r` takes one task from each position whose backlog reaches it.
pub proof fn lemma_rounds_step(lens: Seq<nat>, r: nat, p: int)
    requires
        0 <= p <= lens.len(),
    ensures
        rounds_prefix(lens, r + 1, p) == rounds_prefix(lens, r, p) + row_count(lens, r, p),
    decreases p,
{
    if p > 0 {
        lemma_rounds_step(lens, r, p - 1);
    }
}

pub proof fn lemma_rounds_mono(lens: Seq<nat>, r1: nat, r2: nat)
    requires
        r1 <= r2,
    ensures
        slots_before_round(lens, r1) <= slots_before_round(lens, r2),
    decreases r2,
{
    if r1 < r2 {
        lemma_rounds_mono(lens, r1, (r2 - 1) as nat);
        lemma_rounds_step(lens, (r2 - 1) as nat, lens.len() as int);
    }
}

/// Rounds never take more than there is, and take all of it once every
/// backlog is within reach.
pub proof fn lemma_rounds_sum(lens: Seq<nat>, r: nat, p: int)
    requires
        0 <= p <= lens.len(),
    ensures
        rounds_prefix(lens, r, p) <= sum_lens(lens, p),
        (forall|q: int| 0 <= q < p ==> lens[q] <= r) ==> rounds_prefix(lens, r, p) == sum_lens(
            lens,
            p,
        ),
    decreases p,
{
    if p > 0 {
        lemma_rounds_sum(lens, r, p - 1);
    }
}

pub proof fn lemma_slot_before_next_round(lens: Seq<nat>, r: nat, p: int)
    requires
        0 <= p < lens.len(),
        lens[p] > r,
    ensures
        slot_index(lens, r, p) < slots_before_round(lens, r + 1),
{
    lemma_rounds_step(lens, r, lens.len() as int);
    lemma_row_count_mono(lens, r, p, lens.len() as int);
}

/// A user's later rounds stand later in the batch.
pub proof fn lemma_slot_increasing(lens: Seq<nat>, p: int, r1: nat, r2: nat)
    requires
        0 <= p < lens.len(),
        lens[p] > r1,
        r1 < r2,
    ensures
        slot_index(lens, r1, p) < slot_index(lens, r2, p),
{
    lemma_slot_before_next_round(lens, r1, p);
    lemma_rounds_mono(lens, r1 + 1, r2);
}

pub proof fn lemma_count_taken_all(lens: Seq<nat>, p: int, b: nat, r: nat)
    requires
        0 <= p < lens.len(),
        r <= lens[p],
        r == 0 || slot_index(lens, (r - 1) as nat, p) < b,
    ensures
        count_taken(lens, p, b, r) == r,
    decreases r,
{
    if r > 1 {
        lemma_slot_increasing(lens, p, (r - 2) as nat, (r - 1) as nat);
        lemma_count_taken_all(lens, p, b, (r - 1) as nat);
    } else if r == 1 {
        assert(count_taken(lens, p, b, 0) == 0);
    }
}

pub proof fn lemma_count_taken_stable(lens: Seq<nat>, p: int, b: nat, r1: nat, r2: nat)
    requires
        r1 <= r2,
        slots_before_round(lens, r1) >= b,
    ensures
        count_taken(lens, p, b, r2) == count_taken(lens, p, b, r1),
    decreases r2,
{
    if r1 < r2 {
        lemma_count_taken_stable(lens, p, b, r1, (r2 - 1) as nat);
        lemma_rounds_mono(lens, r1, (r2 - 1) as nat);
    }
}

pub proof fn lemma_first_round_positions(lens: Seq<nat>, p: int)
    requires
        0 <= p <= lens.len(),
        forall|q: int| 0 <= q < lens.len() ==> lens[q] > 0,
    ensures
        slot_index(lens, 0, p) == p,
{
    lemma_rounds_zero(lens, lens.len() as int);
    lemma_row_count_all(lens, 0, p);
}

pub proof fn lemma_rounds_zero(lens: Seq<nat>, p: int)
    requires
        0 <= p <= lens.len(),
    ensures
        rounds_prefix(lens, 0, p) == 0,
    decreases p,
{
    if p > 0 {
        lemma_rounds_zero(lens, p - 1);
    }
}

pub proof fn lemma_row_count_all(lens: Seq<nat>, r: nat, p: int)
    requires
        0 <= p <= lens.len(),
        forall|q: int| 0 <= q < p ==> lens[q] > r,
    ensures
        row_count(lens, r, p) == p,
    decreases p,
{
    if p > 0 {
        lemma_row_count_all(lens, r, p - 1);
    }
}

pub proof fn lemma_total_update(qs: Seq<QueueView>, i: int, x: QueueView)
    requires
        0 <= i < qs.len(),
    ensures
        total_pending(qs.update(i, x)) + qs[i].pending.len() == total_pending(qs)
            + x.pending.len(),
    decreases qs.len(),
{
    let qs2 = qs.update(i, x);
    if i < qs.len() - 1 {
        assert(qs2.drop_last() =~= qs.drop_last().update(i, x));
        lemma_total_update(qs.drop_last(), i, x);
    } else {
        assert(qs2.drop_last() =~= qs.drop_last());
    }
}

/// A slot visited earlier in a pass stands earlier in the batch.
pub proof fn lemma_visited_slot_before(lens: Seq<nat>, round: nat, pos: int, r: nat, p: int)
    requires
        0 <= p < lens.len(),
        0 <= pos <= lens.len(),
        r < lens[p],
        r < round || (r == round && p < pos),
    ensures
        slot_index(lens, r, p) < slot_index(lens, round, pos),
{
    if r < round {
        lemma_slot_before_next_round(lens, r, p);
        lemma_rounds_mono(lens, r + 1, round);
    } else {
        lemma_row_count_mono(lens, r, p, pos);
    }
}

pub proof fn lemma_total_covers(qs: Seq<QueueView>, i: int)
    requires
        0 <= i < qs.len(),
    ensures
        qs[i].pending.len() <= total_pending(qs),
{
    let x = QueueView { pending: Seq::empty(), ..qs[i] };
    lemma_total_update(qs, i, x);
}

pub proof fn lemma_total_zero(qs: Seq<QueueView>)
    requires
        forall|i: int| 0 <= i < qs.len() ==> #[trigger] qs[i].pending.len() == 0,
    ensures
        total_pending(qs) == 0,
    decreases qs.len(),
{
    if qs.len() > 0 {
        assert(qs.last().pending.len() == 0);
        lemma_total_zero(qs.drop_last());
    }
}

/// Where user `i` goes in the ordered `o`: after every entry that goes
/// before it, searching from position `k`.
proof fn lemma_insert_position(qs: Seq<QueueView>, o: Seq<usize>, i: usize, k: int) -> (pos: int)
    requires
        0 <= k <= o.len(),
        forall|m: int| 0 <= m < k ==> goes_before(qs, #[trigger] o[m], i),
    ensures
        k <= pos <= o.len(),
        forall|m: int| 0 <= m < pos ==> goes_before(qs, #[trigger] o[m], i),
        pos < o.len() ==> !goes_before(qs, o[pos], i),
    decreases o.len() - k,
{
    if k == o.len() || !goes_before(qs, o[k], i) {
        k
    } else {
        lemma_insert_position(qs, o, i, k + 1)
    }
}

/// An order of the users below `n` that have work, longest-waiting first.
proof fn lemma_order_prefix(qs: Seq<QueueView>, n: int) -> (o: Seq<usize>)
    requires
        0 <= n <= qs.len() <= usize::MAX,
        ids_unique(qs),
    ensures
        forall|p: int| 0 <= p < o.len() ==> #[trigger] o[p] < n && has_work(qs, o[p] as int),
        forall|i: usize| i < n && #[trigger] has_work(qs, i as int) ==> o.contains(i),
        forall|p: int, q: int|
            0 <= p < q < o.len() ==> goes_before(qs, #[trigger] o[p], #[trigger] o[q]),
    decreases n,
{
    if n == 0 {
        Seq::empty()
    } else {
        let prev = lemma_order_prefix(qs, n - 1);
        let i = (n - 1) as usize;
        if !has_work(qs, i as int) {
            assert forall|j: usize| j < n && #[trigger] has_work(qs, j as int) implies prev.contains(j) by {
                assert(j < n - 1);
            }
            prev
        } else {
            let pos = lemma_insert_position(qs, prev, i, 0);
            let o = prev.insert(pos, i);
            if pos < prev.len() {
                lemma_goes_before_total(qs, prev[pos], i);
            }
            assert forall|a: int, b: int| 0 <= a < b < o.len() implies goes_before(
                qs,
                #[trigger] o[a],
                #[trigger] o[b],
            ) by {
                if b < pos {
                    assert(goes_before(qs, prev[a], prev[b]));
                } else if b == pos {
                    assert(goes_before(qs, prev[a], i));
                } else if a == pos {
                    if b - 1 > pos {
                        assert(goes_before(qs, prev[pos], prev[b - 1]));
                        lemma_goes_before_trans(qs, i, prev[pos], prev[b - 1]);
                    }
                } else if a < pos {
                    assert(goes_before(qs, prev[a], prev[b - 1]));
                } else {
                    assert(goes_before(qs, prev[a - 1], prev[b - 1]));
                }
            }
            assert forall|j: usize| j < n && #[trigger] has_work(qs, j as int) implies o.contains(j) by {
                if j < i {
                    assert(prev.contains(j));
                    let k = choose|k: int| 0 <= k < prev.len() && prev[k] == j;
                    if k < pos {
                        assert(o[k] == j);
                    } else {
                        assert(o[k + 1] == j);
                    }
                } else {
                    assert(o[pos] == j);
                }
            }
            o
        }
    }
}

/// Every state of the records with distinct ids has a service order.
pub proof fn lemma_service_order_exists(qs: Seq<QueueView>)
    requires
        qs.len() <= usize::MAX,
        ids_unique(qs),
    ensures
        is_service_order(qs, service_order(qs)),
{
    let o = lemma_order_prefix(qs, qs.len() as int);
    assert(is_service_order(qs, o));
}

pub proof fn lemma_count_taken_mono(lens: Seq<nat>, p: int, b: nat, r1: nat, r2: nat)
    requires
        r1 <= r2,
    ensures
        count_taken(lens, p, b, r1) <= count_taken(lens, p, b, r2),
        count_taken(lens, p, b, r2) <= r2,
    decreases r2,
{
    if r2 > 0 {
        let r0 = if r1 < r2 {
            r1
        } else {
            (r2 - 1) as nat
        };
        lemma_count_taken_mono(lens, p, b, r0, (r2 - 1) as nat);
    }
}

/// A position that the first round does not reach within the budget gets
/// nothing in later rounds either.
pub proof fn lemma_count_taken_none(lens: Seq<nat>, p: int, b: nat, r: nat)
    requires
        0 <= p < lens.len(),
        lens[p] > 0,
        slot_index(lens, 0, p) >= b,
    ensures
        count_taken(lens, p, b, r) == 0,
    decreases r,
{
    if r > 0 {
        lemma_count_taken_none(lens, p, b, (r - 1) as nat);
        if r - 1 > 0 {
            lemma_slot_increasing(lens, p, 0, (r - 1) as nat);
        }
    }
}

/// The rounds that take from position `p` within the budget come first.
pub proof fn lemma_count_taken_prefix(lens: Seq<nat>, p: int, b: nat, big_r: nat, r: nat)
    requires
        0 <= p < lens.len(),
        big_r <= lens[p],
        r < count_taken(lens, p, b, big_r),
    ensures
        slot_index(lens, r, p) < b,
    decreases big_r,
{
    let prev = (big_r - 1) as nat;
    lemma_count_taken_mono(lens, p, b, prev, prev);
    if slot_index(lens, prev, p) < b {
        if r < prev {
            lemma_slot_increasing(lens, p, r, prev);
        }
    } else {
        lemma_count_taken_prefix(lens, p, b, prev, r);
    }
}

/// When every user has work, the service order lists all of them.
pub proof fn lemma_order_covers_all(qs: Seq<QueueView>, o: Seq<usize>)
    requires
        qs.len() <= usize::MAX,
        is_service_order(qs, o),
        forall|i: int| 0 <= i < qs.len() ==> has_work(qs, i),
    ensures
        o.len() == qs.len(),
{
    broadcast use vstd::seq_lib::seq_to_set_is_finite;

    lemma_goes_before_strict(qs);
    let all = Seq::new(qs.len(), |i: int| i as usize);
    assert(all.no_duplicates());
    assert(o.no_duplicates()) by {
        assert forall|a: int, b: int| 0 <= a < o.len() && 0 <= b < o.len() && a != b implies o[a] != o[b] by {
            if a < b {
                assert(goes_before(qs, o[a], o[b]));
            } else {
                assert(goes_before(qs, o[b], o[a]));
            }
        }
    }
    assert(all.to_set().subset_of(o.to_set())) by {
        assert forall|x: usize| all.to_set().contains(x) implies o.to_set().contains(x) by {
            assert(all.contains(x));
            let k = choose|k: int| 0 <= k < all.len() && all[k] == x;
            assert(has_work(qs, x as int));
            assert(o.contains(x));
        }
    }
    assert(o.to_set().subset_of(all.to_set())) by {
        assert forall|x: usize| o.to_set().contains(x) implies all.to_set().contains(x) by {
            assert(o.contains(x));
            let k = choose|k: int| 0 <= k < o.len() && o[k] == x;
            assert(o[k] < qs.len());
            assert(all[x as int] == x);
            assert(all.contains(x));
        }
    }
    all.unique_seq_to_set();
    o.unique_seq_to_set();
    vstd::set_lib::lemma_len_subset(all.to_set(), o.to_set());
    vstd::set_lib::lemma_len_subset(o.to_set(), all.to_set());
}

/// Two sequences that are strictly ordered by `goes_before` and hold the
/// same users are the same sequence.
pub proof fn lemma_ordered_unique(qs: Seq<QueueView>, o1: Seq<usize>, o2: Seq<usize>)
    requires
        forall|p: int, q: int|
            0 <= p < q < o1.len() ==> goes_before(qs, #[trigger] o1[p], #[trigger] o1[q]),
        forall|p: int, q: int|
            0 <= p < q < o2.len() ==> goes_before(qs, #[trigger] o2[p], #[trigger] o2[q]),
        forall|x: usize| o1.contains(x) <==> o2.contains(x),
    ensures
        o1 == o2,
    decreases o1.len(),
{
    lemma_goes_before_strict(qs);
    if o1.len() == 0 {
        if o2.len() > 0 {
            assert(o2.contains(o2[0]));
        }
        assert(o1 =~= o2);
    } else {
        assert(o1.contains(o1[0]));
        assert(o2.contains(o2[0]));
        let q = choose|q: int| 0 <= q < o2.len() && o2[q] == o1[0];
        let p = choose|p: int| 0 <= p < o1.len() && o1[p] == o2[0];
        if o1[0] != o2[0] {
            assert(goes_before(qs, o2[0], o2[q]));
            assert(goes_before(qs, o1[0], o1[p]));
        }
        let t1 = o1.drop_first();
        let t2 = o2.drop_first();
        assert forall|x: usize| t1.contains(x) <==> t2.contains(x) by {
            if t1.contains(x) {
                let k = choose|k: int| 0 <= k < t1.len() && t1[k] == x;
                assert(o1[k + 1] == x);
                assert(goes_before(qs, o1[0], o1[k + 1]));
                assert(o2.contains(x));
                let m = choose|m: int| 0 <= m < o2.len() && o2[m] == x;
                assert(m != 0);
                assert(t2[m - 1] == x);
            }
            if t2.contains(x) {
                let k = choose|k: int| 0 <= k < t2.len() && t2[k] == x;
                assert(o2[k + 1] == x);
                assert(goes_before(qs, o2[0], o2[k + 1]));
                assert(o1.contains(x));
                let m = choose|m: int| 0 <= m < o1.len() && o1[m] == x;
                assert(m != 0);
                assert(t1[m - 1] == x);
            }
        }
        assert forall|a: int, b: int| 0 <= a < b < t1.len() implies goes_before(
            qs,
            #[trigger] t1[a],
            #[trigger] t1[b],
        ) by {
            assert(goes_before(qs, o1[a + 1], o1[b + 1]));
        }
        assert forall|a: int, b: int| 0 <= a < b < t2.len() implies goes_before(
            qs,
            #[trigger] t2[a],
            #[trigger] t2[b],
        ) by {
            assert(goes_before(qs, o2[a + 1], o2[b + 1]));
        }
        lemma_ordered_unique(qs, t1, t2);
        assert(o1 =~= o2) by {
            assert(o1 =~= seq![o1[0]] + t1);
            assert(o2 =~= seq![o2[0]] + t2);
        }
    }
}

/// The service order is determined by the records: any order that meets
/// its definition is the one a pass uses.
pub proof fn lemma_service_order_unique(qs: Seq<QueueView>, o: Seq<usize>)
    requires
        is_service_order(qs, o),
    ensures
        service_order(qs) == o,
{
    let s = service_order(qs);
    assert(is_service_order(qs, s));
    assert forall|x: usize| s.contains(x) <==> o.contains(x) by {
        if s.contains(x) {
            let k = choose|k: int| 0 <= k < s.len() && s[k] == x;
            assert(has_work(qs, s[k] as int));
        }
        if o.contains(x) {
            let k = choose|k: int| 0 <= k < o.len() && o[k] == x;
            assert(has_work(qs, o[k] as int));
        }
    }
    lemma_ordered_unique(qs, s, o);
}

} // verus!
