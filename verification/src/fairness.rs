//! Why the scheduler is fair: however long it runs, the turns it hands out
//! stay in proportion to the priorities.

use vstd::prelude::*;
use crate::manager::{lemma_pick_in_range, lemma_pick_is_least, pick, within_window};
use crate::stride::{
    advanced, distance, lemma_before_in_window, pass_of, stride_before, BIG_STRIDE, HALF_STRIDE,
    MIN_PRIORITY,
};
use crate::task::TaskControlBlock;

verus! {

/// `task` after it was charged for one turn.
pub open spec fn charged(task: TaskControlBlock) -> TaskControlBlock {
    TaskControlBlock { stride: advanced(task.stride, pass_of(task.priority)), ..task }
}

/// The queue after one round: the chosen thread is taken out, charged for
/// its turn, and put at the back.
pub open spec fn round(q: Seq<TaskControlBlock>) -> Seq<TaskControlBlock> {
    if q.len() == 0 {
        q
    } else {
        q.remove(pick(q)).push(charged(q[pick(q)]))
    }
}

/// The turns that each thread of the queue has had, after one more round:
/// the count of the chosen thread moves to the back with it, one higher.
pub open spec fn round_turns(q: Seq<TaskControlBlock>, turns: Seq<nat>) -> Seq<nat> {
    if q.len() == 0 {
        turns
    } else {
        turns.remove(pick(q)).push(turns[pick(q)] + 1)
    }
}

/// The queue after `m` rounds.
pub open spec fn after(q: Seq<TaskControlBlock>, m: nat) -> Seq<TaskControlBlock>
    decreases m,
{
    if m == 0 {
        q
    } else {
        round(after(q, (m - 1) as nat))
    }
}

/// For each thread of the queue after `m` rounds, the turns it has had.
pub open spec fn turns(q: Seq<TaskControlBlock>, m: nat) -> Seq<nat>
    decreases m,
{
    if m == 0 {
        Seq::new(q.len(), |i: int| 0nat)
    } else {
        round_turns(after(q, (m - 1) as nat), turns(q, (m - 1) as nat))
    }
}

/// For each thread of the queue, how far ahead of `base` its stride is.
pub open spec fn leads_of(q: Seq<TaskControlBlock>, base: u64) -> Seq<int> {
    Seq::new(q.len(), |i: int| distance(base, q[i].stride))
}

/// Values kept beside the threads of the queue, after one more round: the
/// value of the chosen thread moves to the back with it.
pub open spec fn carried(q: Seq<TaskControlBlock>, beside: Seq<int>) -> Seq<int> {
    if q.len() == 0 {
        beside
    } else {
        beside.remove(pick(q)).push(beside[pick(q)])
    }
}

/// For each thread of the queue after `m` rounds, how far ahead of `base`
/// its stride was before the first round.
pub open spec fn leads(q: Seq<TaskControlBlock>, base: u64, m: nat) -> Seq<int>
    decreases m,
{
    if m == 0 {
        leads_of(q, base)
    } else {
        carried(after(q, (m - 1) as nat), leads(q, base, (m - 1) as nat))
    }
}

/// The sum of `counts`.
pub open spec fn total(counts: Seq<nat>) -> nat
    decreases counts.len(),
{
    if counts.len() == 0 {
        0
    } else {
        total(counts.drop_last()) + counts.last()
    }
}

/// The stride that a thread has gained in `n` turns.
pub open spec fn gained(task: TaskControlBlock, n: nat) -> int {
    n * pass_of(task.priority)
}

/// The counter that is reached from zero by `steps` steps on the ring.
pub open spec fn wrapped(steps: int) -> u64 {
    (steps % 0x1_0000_0000_0000_0000) as u64
}

/// How far thread `k` of the queue stands ahead of the common base: its
/// lead at the start plus what it has gained since.
spec fn ahead(q: Seq<TaskControlBlock>, c: Seq<nat>, lead: Seq<int>, k: int) -> int {
    lead[k] + gained(q[k], c[k])
}

/// What holds of the queue `q` with the turns `c` and the leads `lead`,
/// `start` being the base of the window in which the threads began: each
/// thread's stride is the base plus its lead plus what it has gained, on the
/// ring, and how far the threads stand ahead lies between `low` and `low`
/// plus half the ring.
spec fn in_step(
    q: Seq<TaskControlBlock>,
    c: Seq<nat>,
    lead: Seq<int>,
    start: int,
    low: int,
) -> bool {
    &&& q.len() == c.len()
    &&& q.len() == lead.len()
    &&& 0 <= low
    &&& forall|k: int|
        0 <= k < q.len() ==> {
            &&& (#[trigger] q[k]).priority >= MIN_PRIORITY
            &&& low <= ahead(q, c, lead, k) <= low + HALF_STRIDE
            &&& q[k].stride == wrapped(start + ahead(q, c, lead, k))
        }
}

/// A pass is never nothing and never more than half the ring.
proof fn lemma_pass_bound(priority: usize)
    requires
        priority >= MIN_PRIORITY,
    ensures
        0 < pass_of(priority) <= HALF_STRIDE,
{
    let p = priority as int;
    assert(0 < 0xFFFF_FFFF_FFFF_FFFFint / p <= 0x7FFF_FFFF_FFFF_FFFF) by (nonlinear_arith)
        requires
            2 <= p <= 0xFFFF_FFFF_FFFF_FFFF,
    ;
}

/// Going `d` steps forward on the ring, with `d` less than the ring, moves
/// the counter `d` steps away.
proof fn lemma_wrapped_distance(from: int, d: int)
    requires
        0 <= from,
        0 <= d < 0x1_0000_0000_0000_0000,
    ensures
        distance(wrapped(from), wrapped(from + d)) == d,
        advanced(wrapped(from), d) == wrapped(from + d),
{
}

/// A count put at the back adds to the sum.
proof fn lemma_total_push(counts: Seq<nat>, x: nat)
    ensures
        total(counts.push(x)) == total(counts) + x,
{
    assert(counts.push(x).drop_last() == counts);
}

/// A count taken out leaves the sum less by itself.
proof fn lemma_total_remove(counts: Seq<nat>, p: int)
    requires
        0 <= p < counts.len(),
    ensures
        total(counts.remove(p)) + counts[p] == total(counts),
    decreases counts.len(),
{
    if p == counts.len() - 1 {
        assert(counts.remove(p) == counts.drop_last());
    } else {
        lemma_total_remove(counts.drop_last(), p);
        assert(counts.remove(p).drop_last() == counts.drop_last().remove(p));
    }
}

/// Counts that are all zero sum to zero.
proof fn lemma_total_zero(n: nat)
    ensures
        total(Seq::new(n, |i: int| 0nat)) == 0,
    decreases n,
{
    if n > 0 {
        assert(Seq::new(n, |i: int| 0nat).drop_last() == Seq::new((n - 1) as nat, |i: int| 0nat));
        lemma_total_zero((n - 1) as nat);
    }
}

/// One round keeps the queue in step; the least that any thread stands
/// ahead does not go down.
proof fn lemma_round_in_step(
    q: Seq<TaskControlBlock>,
    c: Seq<nat>,
    lead: Seq<int>,
    start: int,
    low: int,
) -> (next: int)
    requires
        q.len() > 0,
        0 <= start,
        in_step(q, c, lead, start, low),
    ensures
        in_step(round(q), round_turns(q, c), carried(q, lead), start, next),
        low <= next,
{
    let base = wrapped(start + low);
    assert forall|k: int| 0 <= k < q.len() implies distance(base, #[trigger] q[k].stride)
        == ahead(q, c, lead, k) - low by {
        lemma_wrapped_distance(start + low, ahead(q, c, lead, k) - low);
    }
    assert(within_window(q, base));
    lemma_pick_is_least(q, base);
    let p = pick(q);
    let next = ahead(q, c, lead, p);
    assert forall|k: int| 0 <= k < q.len() implies next <= ahead(q, c, lead, k) by {
        lemma_before_in_window(base, q[k].stride, q[p].stride);
        assert(!stride_before(q[k].stride, q[p].stride));
    }
    let q2 = round(q);
    let c2 = round_turns(q, c);
    let lead2 = carried(q, lead);
    let pass = pass_of(q[p].priority);
    lemma_pass_bound(q[p].priority);
    assert(gained(q[p], c[p] + 1) == gained(q[p], c[p]) + pass) by {
        assert((c[p] + 1) * pass == c[p] * pass + pass) by (nonlinear_arith);
    }
    lemma_wrapped_distance(start + next, pass);
    assert forall|k: int| 0 <= k < q2.len() implies {
        &&& (#[trigger] q2[k]).priority >= MIN_PRIORITY
        &&& next <= ahead(q2, c2, lead2, k) <= next + HALF_STRIDE
        &&& q2[k].stride == wrapped(start + ahead(q2, c2, lead2, k))
    } by {
        if k < q.len() - 1 {
            let k0 = if k < p {
                k
            } else {
                k + 1
            };
            assert(q2[k] == q[k0]);
            assert(c2[k] == c[k0]);
            assert(lead2[k] == lead[k0]);
            assert(next <= ahead(q, c, lead, k0));
        } else {
            assert(q2[k] == charged(q[p]));
            assert(c2[k] == c[p] + 1);
            assert(lead2[k] == lead[p]);
        }
    }
    next
}

/// Any number of rounds keeps the queue in step, and each round is one
/// turn.
proof fn lemma_rounds_in_step(q: Seq<TaskControlBlock>, base: u64, m: nat) -> (low: int)
    requires
        q.len() > 0,
        within_window(q, base),
        forall|k: int| 0 <= k < q.len() ==> (#[trigger] q[k]).priority >= MIN_PRIORITY,
    ensures
        in_step(after(q, m), turns(q, m), leads(q, base, m), base as int, low),
        after(q, m).len() == q.len(),
        total(turns(q, m)) == m,
    decreases m,
{
    let start = base as int;
    if m == 0 {
        assert forall|k: int| 0 <= k < q.len() implies gained(#[trigger] q[k], turns(q, 0)[k])
            == 0 by {
            assert(0 * pass_of(q[k].priority) == 0) by (nonlinear_arith);
        }
        assert forall|k: int| 0 <= k < q.len() implies (#[trigger] q[k]).stride == wrapped(
            start + ahead(q, turns(q, 0), leads(q, base, 0), k),
        ) by {
            assert(distance(base, q[k].stride) <= HALF_STRIDE);
        }
        lemma_total_zero(q.len());
        0
    } else {
        let low = lemma_rounds_in_step(q, base, (m - 1) as nat);
        let before = after(q, (m - 1) as nat);
        let counts = turns(q, (m - 1) as nat);
        let lead = leads(q, base, (m - 1) as nat);
        let next = lemma_round_in_step(before, counts, lead, start, low);
        let p = pick(before);
        lemma_pick_in_range(before);
        assert(counts.len() == before.len());
        assert(after(q, m) == round(before));
        assert(turns(q, m) == round_turns(before, counts));
        assert(leads(q, base, m) == carried(before, lead));
        lemma_total_remove(counts, p);
        lemma_total_push(counts.remove(p), counts[p] + 1);
        next
    }
}

/// The scheduler shares the processor in proportion to priority.
///
/// Take threads with priorities of at least two whose strides lie at most
/// half the ring ahead of `base`, and let the scheduler run `m` rounds, each
/// of which takes the chosen thread out, charges it for its turn and puts it
/// back. Then the `m` turns are shared so that no thread gets ahead of
/// another by more than half the ring, counting for each thread the lead it
/// started with and the stride it has gained, its turns times its pass. Half
/// the ring is the largest pass there is. As the pass is the stride unit
/// divided by the priority, the turns of two threads are to each other as
/// their priorities, up to that bounded lag.
pub proof fn lemma_stride_fairness(q: Seq<TaskControlBlock>, base: u64, m: nat, i: int, j: int)
    requires
        0 <= i < q.len(),
        0 <= j < q.len(),
        within_window(q, base),
        forall|k: int| 0 <= k < q.len() ==> (#[trigger] q[k]).priority >= MIN_PRIORITY,
    ensures
        after(q, m).len() == q.len(),
        turns(q, m).len() == q.len(),
        leads(q, base, m).len() == q.len(),
        total(turns(q, m)) == m,
        (leads(q, base, m)[i] + gained(after(q, m)[i], turns(q, m)[i])) - (leads(q, base, m)[j]
            + gained(after(q, m)[j], turns(q, m)[j])) <= HALF_STRIDE,
{
    let low = lemma_rounds_in_step(q, base, m);
    let qm = after(q, m);
    let cm = turns(q, m);
    let lm = leads(q, base, m);
    assert(qm[i].priority >= MIN_PRIORITY);
    assert(qm[j].priority >= MIN_PRIORITY);
    assert(low <= ahead(qm, cm, lm, i) <= low + HALF_STRIDE);
    assert(low <= ahead(qm, cm, lm, j) <= low + HALF_STRIDE);
}

/// Threads that start with equal strides keep what they have gained, their
/// turns times their pass, within half the ring of each other.
pub proof fn lemma_equal_start_fairness(q: Seq<TaskControlBlock>, m: nat, i: int, j: int)
    requires
        0 <= i < q.len(),
        0 <= j < q.len(),
        forall|k: int| 0 <= k < q.len() ==> (#[trigger] q[k]).priority >= MIN_PRIORITY,
        forall|k: int| 0 <= k < q.len() ==> (#[trigger] q[k]).stride == q[0].stride,
    ensures
        after(q, m).len() == q.len(),
        turns(q, m).len() == q.len(),
        total(turns(q, m)) == m,
        gained(after(q, m)[i], turns(q, m)[i]) - gained(after(q, m)[j], turns(q, m)[j])
            <= HALF_STRIDE,
{
    let base = q[0].stride;
    lemma_stride_fairness(q, base, m, i, j);
    lemma_leads_stay_zero(q, base, m);
}

/// Threads that all start at `base` have no lead, however many rounds pass.
proof fn lemma_leads_stay_zero(q: Seq<TaskControlBlock>, base: u64, m: nat)
    requires
        q.len() > 0,
        forall|k: int| 0 <= k < q.len() ==> (#[trigger] q[k]).stride == base,
    ensures
        leads(q, base, m).len() == q.len(),
        after(q, m).len() == q.len(),
        forall|k: int| 0 <= k < q.len() ==> #[trigger] leads(q, base, m)[k] == 0,
    decreases m,
{
    if m > 0 {
        lemma_leads_stay_zero(q, base, (m - 1) as nat);
        lemma_pick_in_range(after(q, (m - 1) as nat));
    }
}

/// The most turns that a thread of priority `priority` can have while what
/// it has gained stays within half the ring.
pub open spec fn share(priority: usize) -> nat {
    (HALF_STRIDE as int / pass_of(priority)) as nat
}

/// For each thread of the queue, its share.
pub open spec fn shares(q: Seq<TaskControlBlock>) -> Seq<nat> {
    Seq::new(q.len(), |i: int| share(q[i].priority))
}

/// The most rounds that can pass before every thread of the queue has had a
/// turn: the sum of the shares of its threads.
pub open spec fn quota(q: Seq<TaskControlBlock>) -> nat {
    total(shares(q))
}

/// Turns that keep what a thread has gained within half the ring are no more
/// than its share.
proof fn lemma_share_bounds_turns(priority: usize, n: nat)
    requires
        priority >= MIN_PRIORITY,
        n * pass_of(priority) <= HALF_STRIDE,
    ensures
        n <= share(priority),
{
    lemma_pass_bound(priority);
    let pass = pass_of(priority);
    let half = HALF_STRIDE as int;
    assert(n <= half / pass) by (nonlinear_arith)
        requires
            0 < pass,
            0 <= n,
            n * pass <= half,
    ;
}

/// Counts that are each no more than the one beside them sum to no more.
proof fn lemma_total_bounded(a: Seq<nat>, b: Seq<nat>)
    requires
        a.len() == b.len(),
        forall|i: int| 0 <= i < a.len() ==> a[i] <= b[i],
    ensures
        total(a) <= total(b),
    decreases a.len(),
{
    if a.len() > 0 {
        lemma_total_bounded(a.drop_last(), b.drop_last());
    }
}

/// A round moves the threads and keeps their priorities, so the quota stays.
proof fn lemma_quota_stays(q: Seq<TaskControlBlock>, m: nat)
    requires
        q.len() > 0,
    ensures
        after(q, m).len() == q.len(),
        quota(after(q, m)) == quota(q),
    decreases m,
{
    if m > 0 {
        let before = after(q, (m - 1) as nat);
        lemma_quota_stays(q, (m - 1) as nat);
        lemma_pick_in_range(before);
        let p = pick(before);
        let s = shares(before);
        assert(shares(round(before)) =~= s.remove(p).push(s[p]));
        lemma_total_remove(s, p);
        lemma_total_push(s.remove(p), s[p]);
    }
}

/// Rounds move the threads and keep their priorities.
proof fn lemma_priorities_stay(q: Seq<TaskControlBlock>, m: nat)
    requires
        q.len() > 0,
        forall|k: int| 0 <= k < q.len() ==> (#[trigger] q[k]).priority >= MIN_PRIORITY,
        forall|k: int| 0 <= k < q.len() ==> (#[trigger] q[k]).stride == q[0].stride,
    ensures
        after(q, m).len() == q.len(),
        forall|k: int| 0 <= k < q.len() ==> (#[trigger] after(q, m)[k]).priority >= MIN_PRIORITY,
{
    let low = lemma_rounds_in_step(q, q[0].stride, m);
}

/// Every thread gets its turn.
///
/// Take threads that start with equal strides and priorities of at least
/// two. Once more rounds have passed than the quota of the queue, the sum of
/// the shares of its threads, every thread has had at least one turn: no
/// thread is passed over for ever.
pub proof fn lemma_every_thread_gets_a_turn(q: Seq<TaskControlBlock>, m: nat, j: int)
    requires
        0 <= j < q.len(),
        forall|k: int| 0 <= k < q.len() ==> (#[trigger] q[k]).priority >= MIN_PRIORITY,
        forall|k: int| 0 <= k < q.len() ==> (#[trigger] q[k]).stride == q[0].stride,
        m > quota(q),
    ensures
        turns(q, m).len() == q.len(),
        turns(q, m)[j] >= 1,
{
    lemma_equal_start_fairness(q, m, j, j);
    lemma_priorities_stay(q, m);
    let qm = after(q, m);
    let tm = turns(q, m);
    if tm[j] == 0 {
        assert(gained(qm[j], tm[j]) == 0) by {
            assert(0 * pass_of(qm[j].priority) == 0) by (nonlinear_arith);
        }
        assert forall|i: int| 0 <= i < tm.len() implies tm[i] <= shares(qm)[i] by {
            lemma_equal_start_fairness(q, m, i, j);
            assert(qm[i].priority >= MIN_PRIORITY);
            lemma_share_bounds_turns(qm[i].priority, tm[i]);
        }
        lemma_total_bounded(tm, shares(qm));
        lemma_quota_stays(q, m);
    }
}

/// For each thread of the queue, its priority.
pub open spec fn weights(q: Seq<TaskControlBlock>) -> Seq<nat> {
    Seq::new(q.len(), |i: int| q[i].priority as nat)
}

/// The sum of the priorities of the threads of the queue.
pub open spec fn weight(q: Seq<TaskControlBlock>) -> nat {
    total(weights(q))
}

/// A pass times its priority is the stride unit, less what the division
/// dropped, which is less than the priority.
proof fn lemma_pass_times_priority(priority: usize)
    requires
        priority >= MIN_PRIORITY,
    ensures
        BIG_STRIDE - priority + 1 <= pass_of(priority) * priority <= BIG_STRIDE,
{
    let big = BIG_STRIDE as int;
    let p = priority as int;
    vstd::arithmetic::div_mod::lemma_fundamental_div_mod(big, p);
    vstd::arithmetic::div_mod::lemma_mod_bound(big, p);
    assert(p * (big / p) == (big / p) * p) by (nonlinear_arith);
}

/// A count is no more than the sum that it is part of.
proof fn lemma_total_covers(counts: Seq<nat>, i: int)
    requires
        0 <= i < counts.len(),
    ensures
        counts[i] <= total(counts),
    decreases counts.len(),
{
    if i < counts.len() - 1 {
        lemma_total_covers(counts.drop_last(), i);
    }
}

/// An inequality that holds thread by thread holds of the sums.
proof fn lemma_total_scaled(a: int, u: Seq<nat>, b: int, v: Seq<nat>)
    requires
        u.len() == v.len(),
        forall|j: int| 0 <= j < u.len() ==> a * u[j] <= b * v[j],
    ensures
        a * total(u) <= b * total(v),
    decreases u.len(),
{
    if u.len() > 0 {
        lemma_total_scaled(a, u.drop_last(), b, v.drop_last());
        let x = total(u.drop_last()) as int;
        let y = total(v.drop_last()) as int;
        let ul = u.last() as int;
        let vl = v.last() as int;
        assert(a * ul <= b * vl);
        assert(a * (x + ul) == a * x + a * ul) by (nonlinear_arith);
        assert(b * (y + vl) == b * y + b * vl) by (nonlinear_arith);
    } else {
        assert(a * 0 == 0 && b * 0 == 0) by (nonlinear_arith);
    }
}

/// A round moves the threads and keeps their priorities, so the weight
/// stays.
proof fn lemma_weight_stays(q: Seq<TaskControlBlock>, m: nat)
    requires
        q.len() > 0,
    ensures
        after(q, m).len() == q.len(),
        weight(after(q, m)) == weight(q),
    decreases m,
{
    if m > 0 {
        let before = after(q, (m - 1) as nat);
        lemma_weight_stays(q, (m - 1) as nat);
        lemma_pick_in_range(before);
        let p = pick(before);
        let w = weights(before);
        assert(weights(round(before)) =~= w.remove(p).push(w[p]));
        lemma_total_remove(w, p);
        lemma_total_push(w.remove(p), w[p]);
    }
}

/// What the bounded lag between two threads says of their turns and their
/// priorities: with `ti` turns at priority `pi` no further ahead than half
/// the ring of `tj` turns at priority `pj`, and `s` no less than either
/// priority.
proof fn lemma_lag_in_priorities(ti: nat, pi: usize, tj: nat, pj: usize, s: int)
    requires
        pi >= MIN_PRIORITY,
        pj >= MIN_PRIORITY,
        pi <= s,
        pj <= s,
        ti * pass_of(pi) <= tj * pass_of(pj) + HALF_STRIDE,
    ensures
        (ti * (BIG_STRIDE - s + 1) - HALF_STRIDE * pi) * pj <= (pi * BIG_STRIDE) * tj,
{
    let big = BIG_STRIDE as int;
    let half = HALF_STRIDE as int;
    let a = pass_of(pi);
    let b = pass_of(pj);
    let x = pi as int;
    let y = pj as int;
    let n = ti as int;
    let k = tj as int;
    lemma_pass_times_priority(pi);
    lemma_pass_times_priority(pj);
    lemma_pass_bound(pi);
    lemma_pass_bound(pj);
    let slack = big - s + 1;
    if slack <= 0 {
        assert((n * slack - half * x) * y <= 0) by (nonlinear_arith)
            requires
                n >= 0,
                slack <= 0,
                half >= 0,
                x >= 0,
                y >= 0,
        ;
        assert((x * big) * k >= 0) by (nonlinear_arith)
            requires
                x >= 0,
                big >= 0,
                k >= 0,
        ;
    } else {
        // n * slack * y <= n * (a * x) * y, as slack <= a * x
        assert(n * slack * y <= n * (a * x) * y) by (nonlinear_arith)
            requires
                n >= 0,
                y >= 0,
                slack <= a * x,
        ;
        // n * (a * x) * y == (n * a) * (x * y) <= (k * b + half) * (x * y)
        assert(n * (a * x) * y == (n * a) * (x * y)) by (nonlinear_arith);
        assert((n * a) * (x * y) <= (k * b + half) * (x * y)) by (nonlinear_arith)
            requires
                n * a <= k * b + half,
                x >= 0,
                y >= 0,
        ;
        // (k * b + half) * (x * y) == k * (b * y) * x + half * x * y
        assert((k * b + half) * (x * y) == k * (b * y) * x + half * x * y) by (nonlinear_arith);
        assert(k * (b * y) * x <= k * big * x) by (nonlinear_arith)
            requires
                k >= 0,
                x >= 0,
                b * y <= big,
        ;
        assert(k * big * x == (x * big) * k) by (nonlinear_arith);
        assert((n * slack - half * x) * y == n * slack * y - half * x * y) by (nonlinear_arith);
    }
}

/// The turns are shared as the priorities are.
///
/// Take threads that start with equal strides and priorities of at least
/// two, let `m` rounds pass, and let `t` be the turns that a thread of
/// priority `p` has had, `s` the sum of all priorities, `B` the stride unit
/// and `H` half the ring. Then
///
/// - `(t * (B - s + 1) - H * p) * s <= p * B * m`, and
/// - `p * (B - s + 1) * m <= (t * B + H * p) * s`.
///
/// Divided by `B * s * m`, with `s` small beside `B` and `H` half of `B`,
/// this says that the share `t / m` of the thread differs from `p / s`, its
/// part of the priorities, by `p / (2 * m)` at most: a tolerance that
/// shrinks as the rounds go by. The terms with `s - 1` are what the division
/// in the pass drops.
pub proof fn lemma_turns_follow_priorities(q: Seq<TaskControlBlock>, m: nat, i: int)
    requires
        0 <= i < q.len(),
        forall|k: int| 0 <= k < q.len() ==> (#[trigger] q[k]).priority >= MIN_PRIORITY,
        forall|k: int| 0 <= k < q.len() ==> (#[trigger] q[k]).stride == q[0].stride,
    ensures
        after(q, m).len() == q.len(),
        turns(q, m).len() == q.len(),
        after(q, m)[i].priority >= MIN_PRIORITY,
        ({
            let t = turns(q, m)[i] as int;
            let p = after(q, m)[i].priority as int;
            let s = weight(q) as int;
            &&& (t * (BIG_STRIDE - s + 1) - HALF_STRIDE * p) * s <= (p * BIG_STRIDE) * m
            &&& (p * (BIG_STRIDE - s + 1)) * m <= (t * BIG_STRIDE + HALF_STRIDE * p) * s
        }),
{
    lemma_equal_start_fairness(q, m, i, i);
    lemma_weight_stays(q, m);
    let qm = after(q, m);
    let tm = turns(q, m);
    let w = weights(qm);
    let t = tm[i] as int;
    let pi = qm[i].priority;
    let p = pi as int;
    let s = weight(q) as int;
    let big = BIG_STRIDE as int;
    let half = HALF_STRIDE as int;
    lemma_priorities_stay(q, m);
    lemma_total_covers(w, i);
    // Thread i is no further ahead of any thread j than half the ring.
    assert forall|j: int| 0 <= j < w.len() implies (t * (big - s + 1) - half * p) * w[j] <= (p
        * big) * tm[j] by {
        lemma_equal_start_fairness(q, m, i, j);
        lemma_total_covers(w, j);
        lemma_lag_in_priorities(tm[i], pi, tm[j], qm[j].priority, s);
    }
    lemma_total_scaled(t * (big - s + 1) - half * p, w, p * big, tm);
    // No thread j is further ahead of thread i than half the ring.
    assert forall|j: int| 0 <= j < w.len() implies (p * (big - s + 1)) * tm[j] <= (t * big + half
        * p) * w[j] by {
        lemma_equal_start_fairness(q, m, j, i);
        lemma_total_covers(w, j);
        let pj = qm[j].priority;
        lemma_lag_in_priorities(tm[j], pj, tm[i], pi, s);
        let y = pj as int;
        let k = tm[j] as int;
        let c = big - s + 1;
        assert((k * c - half * y) * p <= (y * big) * t);
        assert((k * c - half * y) * p == k * c * p - half * y * p) by (nonlinear_arith);
        assert((y * big) * t == t * big * y) by (nonlinear_arith);
        assert((p * c) * k == k * c * p) by (nonlinear_arith);
        assert((t * big + half * p) * y == t * big * y + half * y * p) by (nonlinear_arith);
    }
    lemma_total_scaled(p * (big - s + 1), tm, t * big + half * p, w);
}

/// One round keeps the strides of the queue within half the ring of each
/// other: if they lie at most half the ring ahead of `base`, then after the
/// round they lie at most half the ring ahead of the stride that was least.
pub proof fn lemma_round_keeps_window(q: Seq<TaskControlBlock>, base: u64)
    requires
        q.len() > 0,
        within_window(q, base),
        forall|k: int| 0 <= k < q.len() ==> (#[trigger] q[k]).priority >= MIN_PRIORITY,
    ensures
        within_window(round(q), q[pick(q)].stride),
{
    lemma_pick_is_least(q, base);
    let p = pick(q);
    let least = q[p].stride;
    let q2 = round(q);
    lemma_pass_bound(q[p].priority);
    assert forall|k: int| 0 <= k < q2.len() implies distance(least, #[trigger] q2[k].stride)
        <= HALF_STRIDE by {
        if k < q.len() - 1 {
            let k0 = if k < p {
                k
            } else {
                k + 1
            };
            assert(q2[k] == q[k0]);
            lemma_before_in_window(base, q[k0].stride, least);
            assert(!stride_before(q[k0].stride, least));
        } else {
            assert(q2[k] == charged(q[p]));
        }
    }
}

} // verus!
