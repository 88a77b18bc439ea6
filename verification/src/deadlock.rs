//! The deadlock detector: is there an order in which every thread of a
//! process can still get what it asks for and finish?

use vstd::prelude::*;
use crate::demand::{Demand, ResourceKind, ResourceTable, ThreadRecord, ThreadView};
use crate::slots::slot_views;

verus! {

/// The demand of each thread slot on the resources of `kind`; an empty slot
/// has none.
pub open spec fn rows_of(tasks: Seq<Option<ThreadView>>, kind: ResourceKind) -> Seq<
    Option<Demand>,
> {
    Seq::new(
        tasks.len(),
        |t: int|
            match tasks[t] {
                Some(thread) => Some(thread.demand(kind)),
                None => None,
            },
    )
}

/// Every thread's tables cover exactly `n` resources.
pub open spec fn rows_cover(rows: Seq<Option<Demand>>, n: nat) -> bool {
    forall|t: int|
        0 <= t < rows.len() && (#[trigger] rows[t]) is Some ==> rows[t]->0.need.len() == n
            && rows[t]->0.held.len() == n
}

/// The slots that count as finished before the search starts: the empty ones.
pub open spec fn absent(rows: Seq<Option<Demand>>) -> Seq<bool> {
    Seq::new(rows.len(), |t: int| rows[t] is None)
}

/// Every request of `need` can be met from `work`.
pub open spec fn fits(need: Seq<nat>, work: Seq<int>) -> bool {
    forall|r: int| 0 <= r < work.len() ==> need[r] <= #[trigger] work[r]
}

/// `work` after a thread that held `held` has given everything back.
pub open spec fn released(work: Seq<int>, held: Seq<nat>) -> Seq<int> {
    Seq::new(work.len(), |r: int| work[r] + held[r])
}

/// Thread `t` has not finished and can get all it asks for from `work`.
pub open spec fn can_finish(
    rows: Seq<Option<Demand>>,
    finish: Seq<bool>,
    work: Seq<int>,
    t: int,
) -> bool {
    &&& 0 <= t < rows.len()
    &&& !finish[t]
    &&& rows[t] is Some
    &&& fits(rows[t]->0.need, work)
}

/// Every slot is finished.
pub open spec fn all_finished(finish: Seq<bool>) -> bool {
    forall|t: int| 0 <= t < finish.len() ==> #[trigger] finish[t]
}

/// Letting the threads finish in the order `order` works out: each one that
/// has not finished yet gets what it asks for from what is available, then
/// gives back what it held; at the end every thread has finished. Entries
/// that name no unfinished thread are passed over.
pub open spec fn admits(
    rows: Seq<Option<Demand>>,
    finish: Seq<bool>,
    work: Seq<int>,
    order: Seq<int>,
) -> bool
    decreases order.len(),
{
    if order.len() == 0 {
        all_finished(finish)
    } else {
        let t = order[0];
        if 0 <= t < finish.len() && !finish[t] {
            can_finish(rows, finish, work, t) && admits(
                rows,
                finish.update(t, true),
                released(work, rows[t]->0.held),
                order.drop_first(),
            )
        } else {
            admits(rows, finish, work, order.drop_first())
        }
    }
}

/// The state is safe: some order lets every thread finish.
pub open spec fn is_safe(rows: Seq<Option<Demand>>, finish: Seq<bool>, work: Seq<int>) -> bool {
    exists|order: Seq<int>| admits(rows, finish, work, order)
}

/// Number of slots that have not finished.
pub open spec fn unfinished(finish: Seq<bool>) -> nat
    decreases finish.len(),
{
    if finish.len() == 0 {
        0
    } else {
        unfinished(finish.drop_last()) + if finish.last() {
            0nat
        } else {
            1nat
        }
    }
}

/// Units of resource `r` that the threads of `rows` hold together.
pub open spec fn total_held(rows: Seq<Option<Demand>>, r: int) -> nat
    decreases rows.len(),
{
    if rows.len() == 0 {
        0
    } else {
        total_held(rows.drop_last(), r) + match rows.last() {
            Some(d) => d.held[r],
            None => 0nat,
        }
    }
}

/// What is left of each resource's capacity when the units that the threads
/// hold are taken off. An entry is negative where more is held than the
/// capacity.
pub open spec fn remaining(capacity: Seq<usize>, rows: Seq<Option<Demand>>) -> Seq<int> {
    Seq::new(capacity.len(), |r: int| capacity[r] - total_held(rows, r))
}

/// The work vector that holds `avail[r]` units of each resource.
pub open spec fn available(avail: Seq<usize>) -> Seq<int> {
    Seq::new(avail.len(), |r: int| avail[r] as int)
}

/// There are no more unfinished slots than slots, and none exactly if every
/// slot is finished.
proof fn lemma_unfinished_bound(finish: Seq<bool>)
    ensures
        unfinished(finish) <= finish.len(),
        unfinished(finish) == 0 <==> all_finished(finish),
    decreases finish.len(),
{
    if finish.len() > 0 {
        let front = finish.drop_last();
        lemma_unfinished_bound(front);
        if unfinished(finish) == 0 {
            assert forall|t: int| 0 <= t < finish.len() implies #[trigger] finish[t] by {
                if t < front.len() {
                    assert(front[t] == finish[t]);
                }
            }
        }
        if all_finished(finish) {
            assert forall|t: int| 0 <= t < front.len() implies #[trigger] front[t] by {
                assert(front[t] == finish[t]);
            }
            assert(finish.last() == finish[finish.len() - 1]);
        }
    }
}

/// Finishing a slot leaves one unfinished slot less.
proof fn lemma_unfinished_mark(finish: Seq<bool>, t: int)
    requires
        0 <= t < finish.len(),
        !finish[t],
    ensures
        unfinished(finish.update(t, true)) == unfinished(finish) - 1,
    decreases finish.len(),
{
    let after = finish.update(t, true);
    if t == finish.len() - 1 {
        assert(after.drop_last() == finish.drop_last());
    } else {
        lemma_unfinished_mark(finish.drop_last(), t);
        assert(after.drop_last() == finish.drop_last().update(t, true));
    }
}

/// Letting a thread finish that can finish does no harm: an order that
/// worked before still works.
proof fn lemma_finish_keeps_order(
    rows: Seq<Option<Demand>>,
    finish: Seq<bool>,
    work: Seq<int>,
    x: int,
    order: Seq<int>,
)
    requires
        finish.len() == rows.len(),
        can_finish(rows, finish, work, x),
        admits(rows, finish, work, order),
    ensures
        admits(rows, finish.update(x, true), released(work, rows[x]->0.held), order),
    decreases order.len(),
{
    let fx = finish.update(x, true);
    let wx = released(work, rows[x]->0.held);
    if order.len() == 0 {
        assert(finish[x]);
    } else {
        let t = order[0];
        let rest = order.drop_first();
        if 0 <= t < finish.len() && !finish[t] {
            if t == x {
            } else {
                let ft = finish.update(t, true);
                let wt = released(work, rows[t]->0.held);
                assert(fits(rows[x]->0.need, wt)) by {
                    assert forall|r: int| 0 <= r < wt.len() implies rows[x]->0.need[r]
                        <= #[trigger] wt[r] by {
                        assert(rows[x]->0.need[r] <= work[r]);
                    }
                }
                lemma_finish_keeps_order(rows, ft, wt, x, rest);
                assert(ft.update(x, true) =~= fx.update(t, true));
                assert(released(wt, rows[x]->0.held) =~= released(wx, rows[t]->0.held));
                assert(fits(rows[t]->0.need, wx)) by {
                    assert forall|r: int| 0 <= r < wx.len() implies rows[t]->0.need[r]
                        <= #[trigger] wx[r] by {
                        assert(rows[t]->0.need[r] <= work[r]);
                    }
                }
                assert(can_finish(rows, fx, wx, t));
            }
        } else {
            lemma_finish_keeps_order(rows, finish, work, x, rest);
        }
    }
}

/// Where an order works and some thread has not finished, some thread can
/// finish right away.
proof fn lemma_some_can_finish(
    rows: Seq<Option<Demand>>,
    finish: Seq<bool>,
    work: Seq<int>,
    order: Seq<int>,
)
    requires
        finish.len() == rows.len(),
        admits(rows, finish, work, order),
        !all_finished(finish),
    ensures
        exists|t: int| can_finish(rows, finish, work, t),
    decreases order.len(),
{
    if order.len() > 0 {
        let t = order[0];
        if 0 <= t < finish.len() && !finish[t] {
            assert(can_finish(rows, finish, work, t));
        } else {
            lemma_some_can_finish(rows, finish, work, order.drop_first());
        }
    }
}

/// Letting a thread finish that can finish changes nothing about safety.
pub proof fn lemma_finish_one(
    rows: Seq<Option<Demand>>,
    finish: Seq<bool>,
    work: Seq<int>,
    t: int,
)
    requires
        finish.len() == rows.len(),
        can_finish(rows, finish, work, t),
    ensures
        is_safe(rows, finish, work) == is_safe(
            rows,
            finish.update(t, true),
            released(work, rows[t]->0.held),
        ),
{
    let ft = finish.update(t, true);
    let wt = released(work, rows[t]->0.held);
    if is_safe(rows, finish, work) {
        let order = choose|order: Seq<int>| admits(rows, finish, work, order);
        lemma_finish_keeps_order(rows, finish, work, t, order);
        assert(admits(rows, ft, wt, order));
    }
    if is_safe(rows, ft, wt) {
        let order = choose|order: Seq<int>| admits(rows, ft, wt, order);
        let longer = seq![t] + order;
        assert(longer.drop_first() =~= order);
        assert(longer[0] == t);
        assert(admits(rows, finish, work, longer));
    }
}

/// A state is safe exactly if every thread has finished or some thread can
/// finish and the state after it has finished is safe.
pub proof fn lemma_safe_unfold(rows: Seq<Option<Demand>>, finish: Seq<bool>, work: Seq<int>)
    requires
        finish.len() == rows.len(),
    ensures
        all_finished(finish) ==> is_safe(rows, finish, work),
        !all_finished(finish) && (forall|t: int| !can_finish(rows, finish, work, t)) ==> !is_safe(
            rows,
            finish,
            work,
        ),
{
    if all_finished(finish) {
        assert(admits(rows, finish, work, Seq::<int>::empty()));
    }
    if !all_finished(finish) && is_safe(rows, finish, work) {
        let order = choose|order: Seq<int>| admits(rows, finish, work, order);
        lemma_some_can_finish(rows, finish, work, order);
    }
}


/// The work vector kept as a pair: what has come in less what is owed.
pub open spec fn balance(plus: Seq<u128>, minus: Seq<u128>) -> Seq<int> {
    Seq::new(plus.len(), |r: int| plus[r] - minus[r])
}

/// Every slot that holds a thread holds a well-formed record.
pub open spec fn records_wf(tasks: Seq<Option<ThreadRecord>>) -> bool {
    forall|t: int| 0 <= t < tasks.len() && (#[trigger] tasks[t]) is Some ==> tasks[t]->0.wf()
}

/// Largest value of a table entry, as a wide integer.
const WORD: u128 = 0xFFFF_FFFF_FFFF_FFFF;

/// Tells whether every request of `table` can be met from `plus - minus`.
fn fits_row(table: &ResourceTable, plus: &Vec<u128>, minus: &Vec<u128>) -> (r: bool)
    requires
        table.wf(),
        table@.need.len() == plus@.len(),
        plus@.len() == minus@.len(),
        forall|j: int| 0 <= j < minus@.len() ==> #[trigger] minus@[j] <= WORD * WORD,
    ensures
        r == fits(table@.need, balance(plus@, minus@)),
{
    let m: usize = plus.len();
    let ghost work = balance(plus@, minus@);
    let mut r: usize = 0;
    while r < m
        invariant
            r <= m,
            m == plus@.len(),
            table.wf(),
            table@.need.len() == plus@.len(),
            plus@.len() == minus@.len(),
            work == balance(plus@, minus@),
            forall|j: int| 0 <= j < minus@.len() ==> #[trigger] minus@[j] <= WORD * WORD,
            forall|j: int| 0 <= j < r ==> table@.need[j] <= #[trigger] work[j],
        decreases m - r,
    {
        let need: usize = table.needed(r);
        assert(minus@[r as int] <= WORD * WORD);
        if need as u128 + minus[r] > plus[r] {
            assert(work[r as int] < table@.need[r as int]);
            return false;
        }
        r = r + 1;
    }
    true
}

/// Adds what `table` holds to `plus`.
fn release_row(table: &ResourceTable, plus: &mut Vec<u128>)
    requires
        table.wf(),
        table@.need.len() == old(plus)@.len(),
        forall|j: int| 0 <= j < old(plus)@.len() ==> #[trigger] old(plus)@[j] + WORD <= u128::MAX,
    ensures
        final(plus)@.len() == old(plus)@.len(),
        forall|j: int|
            0 <= j < old(plus)@.len() ==> #[trigger] final(plus)@[j] == old(plus)@[j]
                + table@.held[j],
{
    let m: usize = plus.len();
    let mut r: usize = 0;
    while r < m
        invariant
            r <= m,
            m == plus@.len(),
            m == old(plus)@.len(),
            table.wf(),
            table@.held.len() == m,
            forall|j: int| 0 <= j < m ==> #[trigger] old(plus)@[j] + WORD <= u128::MAX,
            forall|j: int| 0 <= j < r ==> #[trigger] plus@[j] == old(plus)@[j] + table@.held[j],
            forall|j: int| r <= j < m ==> #[trigger] plus@[j] == old(plus)@[j],
        decreases m - r,
    {
        let held: usize = table.holding(r);
        let before: u128 = plus[r];
        assert(old(plus)@[r as int] + WORD <= u128::MAX);
        plus.set(r, before + held as u128);
        r = r + 1;
    }
}

/// Decides whether the threads of `tasks` can all finish, starting from the
/// work vector `plus - minus`.
fn search(
    tasks: &Vec<Option<ThreadRecord>>,
    kind: ResourceKind,
    plus: Vec<u128>,
    minus: &Vec<u128>,
) -> (safe: bool)
    requires
        records_wf(tasks@),
        rows_cover(rows_of(slot_views(tasks@), kind), plus@.len() as nat),
        plus@.len() == minus@.len(),
        forall|j: int| 0 <= j < plus@.len() ==> #[trigger] plus@[j] <= WORD,
        forall|j: int| 0 <= j < minus@.len() ==> #[trigger] minus@[j] <= WORD * WORD,
    ensures
        safe == is_safe(
            rows_of(slot_views(tasks@), kind),
            absent(rows_of(slot_views(tasks@), kind)),
            balance(plus@, minus@),
        ),
{
    let ghost rows = rows_of(slot_views(tasks@), kind);
    let ghost work0 = balance(plus@, minus@);
    let n: usize = tasks.len();
    let mut plus = plus;
    let mut finish: Vec<bool> = Vec::new();
    let mut left: usize = 0;
    let mut t: usize = 0;
    while t < n
        invariant
            t <= n,
            n == tasks@.len(),
            rows == rows_of(slot_views(tasks@), kind),
            finish@.len() == t,
            finish@ == absent(rows).take(t as int),
            left == unfinished(finish@),
            left <= t,
        decreases n - t,
    {
        let gone: bool = tasks[t].is_none();
        proof {
            let next = finish@.push(gone);
            assert(next.drop_last() == finish@);
            assert(next == absent(rows).take(t + 1));
        }
        finish.push(gone);
        if !gone {
            left = left + 1;
        }
        t = t + 1;
    }
    assert(finish@ == absent(rows)) by {
        assert(absent(rows).take(n as int) == absent(rows));
    }
    let ghost left0 = left;
    let ghost mut done: nat = 0;
    let mut stuck: bool = false;
    while left > 0 && !stuck
        invariant
            n == tasks@.len(),
            rows == rows_of(slot_views(tasks@), kind),
            records_wf(tasks@),
            rows_cover(rows, plus@.len() as nat),
            finish@.len() == n,
            plus@.len() == minus@.len(),
            forall|i: int| 0 <= i < n && !(#[trigger] finish@[i]) ==> tasks@[i] is Some,
            left == unfinished(finish@),
            done + left == left0,
            left0 <= n,
            forall|j: int| 0 <= j < plus@.len() ==> #[trigger] plus@[j] <= WORD * (1 + done),
            forall|j: int| 0 <= j < minus@.len() ==> #[trigger] minus@[j] <= WORD * WORD,
            is_safe(rows, absent(rows), work0) == is_safe(rows, finish@, balance(plus@, minus@)),
            stuck ==> forall|i: int| !can_finish(rows, finish@, balance(plus@, minus@), i),
        decreases left + if stuck { 0int } else { 1int },
    {
        let ghost work = balance(plus@, minus@);
        let mut i: usize = 0;
        let mut found: bool = false;
        while i < n && !found
            invariant
                i <= n,
                n == tasks@.len(),
                rows == rows_of(slot_views(tasks@), kind),
                records_wf(tasks@),
                rows_cover(rows, plus@.len() as nat),
                finish@.len() == n,
                plus@.len() == minus@.len(),
                work == balance(plus@, minus@),
                forall|j: int| 0 <= j < minus@.len() ==> #[trigger] minus@[j] <= WORD * WORD,
                forall|k: int| 0 <= k < n && !(#[trigger] finish@[k]) ==> tasks@[k] is Some,
                !found ==> forall|k: int| 0 <= k < i ==> !can_finish(rows, finish@, work, k),
                found ==> i < n && can_finish(rows, finish@, work, i as int),
            decreases n - i + if found { 0int } else { 1int },
        {
            if !finish[i] {
                assert(tasks@[i as int] is Some);
                match &tasks[i] {
                    Some(record) => {
                        let table = record.table(kind);
                        assert(rows[i as int] == Some(table@));
                        if fits_row(table, &plus, minus) {
                            found = true;
                        }
                    },
                    None => {},
                }
            }
            if !found {
                i = i + 1;
            }
        }
        if found {
            proof {
                lemma_finish_one(rows, finish@, work, i as int);
                lemma_unfinished_mark(finish@, i as int);
            }
            match &tasks[i] {
                Some(record) => {
                    let table = record.table(kind);
                    assert(rows[i as int] == Some(table@));
                    assert forall|j: int| 0 <= j < plus@.len() implies #[trigger] plus@[j] + WORD
                        <= u128::MAX by {
                        assert(plus@[j] <= WORD * (1 + done));
                        assert(WORD * (1 + done) + WORD <= u128::MAX) by (nonlinear_arith)
                            requires
                                done < 0xFFFF_FFFF_FFFF_FFFF,
                                WORD == 0xFFFF_FFFF_FFFF_FFFF,
                        ;
                    }
                    let ghost before = plus@;
                    release_row(table, &mut plus);
                    proof {
                        assert(balance(plus@, minus@) =~= released(work, table@.held));
                        assert forall|j: int| 0 <= j < plus@.len() implies #[trigger] plus@[j]
                            <= WORD * (1 + (done + 1)) by {
                            assert(before[j] <= WORD * (1 + done));
                            assert(table@.need[j] + table@.held[j] <= usize::MAX);
                            assert(WORD * (1 + (done + 1)) == WORD * (1 + done) + WORD)
                                by (nonlinear_arith);
                        }
                    }
                },
                None => {},
            }
            finish.set(i, true);
            left = left - 1;
            proof {
                done = done + 1;
            }
        } else {
            stuck = true;
        }
    }
    proof {
        lemma_unfinished_bound(finish@);
        lemma_safe_unfold(rows, finish@, balance(plus@, minus@));
    }
    left == 0
}

/// What the first `t + 1` threads hold of resource `r` is what the first `t`
/// hold and what thread `t` holds.
proof fn lemma_total_held_step(rows: Seq<Option<Demand>>, t: int, r: int)
    requires
        0 <= t < rows.len(),
    ensures
        total_held(rows.take(t + 1), r) == total_held(rows.take(t), r) + match rows[t] {
            Some(d) => d.held[r],
            None => 0nat,
        },
{
    assert(rows.take(t + 1).drop_last() == rows.take(t));
    assert(rows.take(t + 1).last() == rows[t]);
}

/// The same values as wide integers.
fn widen(values: &Vec<usize>) -> (wide: Vec<u128>)
    ensures
        wide@.len() == values@.len(),
        forall|j: int| 0 <= j < values@.len() ==> #[trigger] wide@[j] == values@[j],
{
    let m: usize = values.len();
    let mut wide: Vec<u128> = Vec::new();
    let mut r: usize = 0;
    while r < m
        invariant
            r <= m,
            m == values@.len(),
            wide@.len() == r,
            forall|j: int| 0 <= j < r ==> #[trigger] wide@[j] == values@[j],
        decreases m - r,
    {
        wide.push(values[r] as u128);
        r = r + 1;
    }
    wide
}

/// `m` wide zeros.
fn zeros(m: usize) -> (wide: Vec<u128>)
    ensures
        wide@.len() == m,
        forall|j: int| 0 <= j < m ==> #[trigger] wide@[j] == 0,
{
    let mut wide: Vec<u128> = Vec::new();
    let mut r: usize = 0;
    while r < m
        invariant
            r <= m,
            wide@.len() == r,
            forall|j: int| 0 <= j < r ==> #[trigger] wide@[j] == 0,
        decreases m - r,
    {
        wide.push(0);
        r = r + 1;
    }
    wide
}

/// Adds up, for each resource, what the threads of `tasks` hold.
fn sum_held(tasks: &Vec<Option<ThreadRecord>>, kind: ResourceKind, m: usize) -> (totals: Vec<u128>)
    requires
        records_wf(tasks@),
        rows_cover(rows_of(slot_views(tasks@), kind), m as nat),
    ensures
        totals@.len() == m,
        forall|j: int|
            0 <= j < m ==> #[trigger] totals@[j] == total_held(
                rows_of(slot_views(tasks@), kind),
                j,
            ),
        forall|j: int| 0 <= j < m ==> #[trigger] totals@[j] <= WORD * WORD,
{
    let ghost rows = rows_of(slot_views(tasks@), kind);
    let n: usize = tasks.len();
    let mut totals: Vec<u128> = zeros(m);
    let mut t: usize = 0;
    assert(rows.take(0) == Seq::<Option<Demand>>::empty());
    while t < n
        invariant
            t <= n,
            n == tasks@.len(),
            rows == rows_of(slot_views(tasks@), kind),
            records_wf(tasks@),
            rows_cover(rows, m as nat),
            totals@.len() == m,
            forall|j: int|
                0 <= j < m ==> #[trigger] totals@[j] == total_held(rows.take(t as int), j),
            forall|j: int| 0 <= j < m ==> #[trigger] totals@[j] <= WORD * t,
        decreases n - t,
    {
        match &tasks[t] {
            Some(record) => {
                let table = record.table(kind);
                assert(rows[t as int] == Some(table@));
                let mut r: usize = 0;
                while r < m
                    invariant
                        r <= m,
                        t < n,
                        n == tasks@.len(),
                        table.wf(),
                        table@.held.len() == m,
                        table@.need.len() == m,
                        rows[t as int] == Some(table@),
                        rows == rows_of(slot_views(tasks@), kind),
                        totals@.len() == m,
                        forall|j: int|
                            0 <= j < r ==> #[trigger] totals@[j] == total_held(
                                rows.take(t + 1),
                                j,
                            ),
                        forall|j: int|
                            r <= j < m ==> #[trigger] totals@[j] == total_held(
                                rows.take(t as int),
                                j,
                            ),
                        forall|j: int| 0 <= j < r ==> #[trigger] totals@[j] <= WORD * (t + 1),
                        forall|j: int| r <= j < m ==> #[trigger] totals@[j] <= WORD * t,
                    decreases m - r,
                {
                    let held: usize = table.holding(r);
                    let sum: u128 = totals[r];
                    proof {
                        lemma_total_held_step(rows, t as int, r as int);
                        assert(table@.need[r as int] + table@.held[r as int] <= usize::MAX);
                        assert(WORD * (t + 1) == WORD * t + WORD) by (nonlinear_arith);
                        assert(WORD * t + WORD <= u128::MAX) by (nonlinear_arith)
                            requires
                                t < 0xFFFF_FFFF_FFFF_FFFF,
                                WORD == 0xFFFF_FFFF_FFFF_FFFF,
                        ;
                    }
                    totals.set(r, sum + held as u128);
                    r = r + 1;
                }
            },
            None => {
                proof {
                    assert forall|j: int| 0 <= j < m implies #[trigger] totals@[j] == total_held(
                        rows.take(t + 1),
                        j,
                    ) && totals@[j] <= WORD * (t + 1) by {
                        lemma_total_held_step(rows, t as int, j);
                        assert(WORD * (t + 1) == WORD * t + WORD) by (nonlinear_arith);
                    }
                }
            },
        }
        t = t + 1;
    }
    proof {
        assert(rows.take(n as int) == rows);
        assert forall|j: int| 0 <= j < m implies #[trigger] totals@[j] <= WORD * WORD by {
            assert(totals@[j] <= WORD * n);
            assert(WORD * n <= WORD * WORD) by (nonlinear_arith)
                requires
                    n <= 0xFFFF_FFFF_FFFF_FFFF,
                    WORD == 0xFFFF_FFFF_FFFF_FFFF,
            ;
        }
    }
    totals
}

/// Tells whether every thread of `tasks` can finish when `avail[r]` units of
/// each resource `r` of `kind` are free now: whether some order exists in
/// which each thread gets all it asks for from what is free and what the
/// threads before it gave back.
pub fn safe_with_available(
    tasks: &Vec<Option<ThreadRecord>>,
    kind: ResourceKind,
    avail: &Vec<usize>,
) -> (safe: bool)
    requires
        records_wf(tasks@),
        rows_cover(rows_of(slot_views(tasks@), kind), avail@.len()),
    ensures
        safe == is_safe(
            rows_of(slot_views(tasks@), kind),
            absent(rows_of(slot_views(tasks@), kind)),
            available(avail@),
        ),
{
    let plus = widen(avail);
    let minus = zeros(avail.len());
    assert(balance(plus@, minus@) =~= available(avail@));
    search(tasks, kind, plus, &minus)
}

/// Tells whether every thread of `tasks` can finish when each resource `r`
/// of `kind` has `capacity[r]` units in all, of which the threads hold some:
/// the search starts from the capacity less what is held.
pub fn safe_with_capacity(
    tasks: &Vec<Option<ThreadRecord>>,
    kind: ResourceKind,
    capacity: &Vec<usize>,
) -> (safe: bool)
    requires
        records_wf(tasks@),
        rows_cover(rows_of(slot_views(tasks@), kind), capacity@.len()),
    ensures
        safe == is_safe(
            rows_of(slot_views(tasks@), kind),
            absent(rows_of(slot_views(tasks@), kind)),
            remaining(capacity@, rows_of(slot_views(tasks@), kind)),
        ),
{
    let plus = widen(capacity);
    let minus = sum_held(tasks, kind, capacity.len());
    assert(balance(plus@, minus@) =~= remaining(capacity@, rows_of(slot_views(tasks@), kind)));
    search(tasks, kind, plus, &minus)
}

} // verus!
