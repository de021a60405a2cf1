//! The plan refresh engine: computes which occurrences of each recurring
//! plan are due between its `last_refreshed_at` (exclusive) and `now`
//! (inclusive), materializes one todo and one history entry per occurrence,
//! and advances `last_refreshed_at` to the latest processed occurrence.

use vstd::prelude::*;
use vstd::arithmetic::div_mod::{
    lemma_fundamental_div_mod, lemma_fundamental_div_mod_converse, lemma_div_is_ordered,
    lemma_div_multiples_vanish,
};

use crate::model::{EventKind, HistoryEntry, PlanView, Schedule, SubjectKind, TodoView};
use crate::history::{hist_appended, hist_wf, HistoryLedger};
use crate::store::{plan_store_wf, todo_store_wf, PlanStore, TodoStore};

verus! {

/// One day, in the millisecond ticks all timestamps use.
pub const DAY_TICKS: u64 = 86400000;

/// Seven days, in ticks.
pub const WEEK_TICKS: u64 = 604800000;

/// The distance between two consecutive occurrences of a schedule, anchored
/// at the plan's `last_refreshed_at`.  Zero — possible only for a degenerate
/// `Interval` — yields no occurrence ever: the rule is malformed.
pub open spec fn spec_step_of(s: Schedule) -> u64 {
    match s {
        Schedule::Daily => DAY_TICKS,
        Schedule::Weekly => WEEK_TICKS,
        Schedule::Interval(n) => n,
    }
}

/// Executable twin of `spec_step_of`.
pub fn step_of(s: Schedule) -> (r: u64)
    ensures
        r == spec_step_of(s),
{
    match s {
        Schedule::Daily => DAY_TICKS,
        Schedule::Weekly => WEEK_TICKS,
        Schedule::Interval(n) => n,
    }
}

/// How many occurrences fall in the window (`last`, `now`] when one is due
/// every `step` ticks starting from `last`.
pub open spec fn due_count(last: u64, now: u64, step: u64) -> nat {
    if step == 0 || now <= last {
        0
    } else {
        ((now - last) as nat) / (step as nat)
    }
}

pub open spec fn plan_due_count(p: PlanView, now: u64) -> nat {
    due_count(p.last_refreshed_at, now, spec_step_of(p.schedule))
}

/// The timestamp of the latest occurrence in the window, or `last` itself
/// when none is due.
pub open spec fn advanced_last(last: u64, now: u64, step: u64) -> u64 {
    (last + due_count(last, now, step) * step) as u64
}

/// A plan after one refresh at `now`: only `last_refreshed_at` moves.
pub open spec fn plan_after_refresh(p: PlanView, now: u64) -> PlanView {
    PlanView { last_refreshed_at: advanced_last(p.last_refreshed_at, now, spec_step_of(p.schedule)), ..p }
}

pub open spec fn plans_after_refresh(items: Seq<PlanView>, now: u64) -> Seq<PlanView> {
    Seq::new(items.len(), |i: int| plan_after_refresh(items[i], now))
}

/// The number of occurrences a refresh at `now` is due to materialize over
/// the whole plan collection.
pub open spec fn total_due(items: Seq<PlanView>, now: u64) -> nat
    decreases items.len(),
{
    if items.len() == 0 {
        0
    } else {
        plan_due_count(items[0], now) + total_due(items.drop_first(), now)
    }
}

/// The todos one plan generates, with identifiers counted up from `base`.
pub open spec fn gen_todos_for(p: PlanView, now: u64, base: u64) -> Seq<TodoView> {
    Seq::new(
        plan_due_count(p, now),
        |k: int| TodoView {
            id: (base + k) as u64,
            title: p.title,
            completed: false,
            created_at: now,
            updated_at: now,
            origin_plan_id: Some(p.id),
        },
    )
}

/// The todos a refresh generates over the whole collection, oldest plan
/// first, with identifiers counted up from `base`.
pub open spec fn gen_todos(items: Seq<PlanView>, now: u64, base: u64) -> Seq<TodoView>
    decreases items.len(),
{
    if items.len() == 0 {
        Seq::<TodoView>::empty()
    } else {
        gen_todos_for(items[0], now, base) + gen_todos(
            items.drop_first(),
            now,
            (base + plan_due_count(items[0], now)) as u64,
        )
    }
}

/// The history entries one plan generates: one `Generated` event per
/// occurrence, stamped with the occurrence's own timestamp.
pub open spec fn gen_events_for(p: PlanView, now: u64, hbase: u64) -> Seq<HistoryEntry> {
    Seq::new(
        plan_due_count(p, now),
        |k: int| HistoryEntry {
            id: (hbase + k) as u64,
            subject_kind: SubjectKind::Plan,
            subject_id: p.id,
            event: EventKind::Generated,
            occurred_at: (p.last_refreshed_at + (k + 1) * spec_step_of(p.schedule)) as u64,
        },
    )
}

pub open spec fn gen_events(items: Seq<PlanView>, now: u64, hbase: u64) -> Seq<HistoryEntry>
    decreases items.len(),
{
    if items.len() == 0 {
        Seq::<HistoryEntry>::empty()
    } else {
        gen_events_for(items[0], now, hbase) + gen_events(
            items.drop_first(),
            now,
            (hbase + plan_due_count(items[0], now)) as u64,
        )
    }
}

/// A ledger after appending each event in turn.
pub open spec fn hist_insert_all(entries: Seq<HistoryEntry>, evs: Seq<HistoryEntry>) -> Seq<
    HistoryEntry,
>
    decreases evs.len(),
{
    if evs.len() == 0 {
        entries
    } else {
        hist_insert_all(hist_appended(entries, evs[0]), evs.drop_first())
    }
}

/// The identifiers of the plans a refresh skips because their rule yields no
/// occurrence ever, in stored order.
pub open spec fn malformed_plan_ids(items: Seq<PlanView>) -> Seq<u64>
    decreases items.len(),
{
    if items.len() == 0 {
        Seq::<u64>::empty()
    } else {
        let rest = malformed_plan_ids(items.drop_first());
        if spec_step_of(items[0].schedule) == 0 {
            seq![items[0].id] + rest
        } else {
            rest
        }
    }
}

/// The window a refresh leaves behind is settled: the latest materialized
/// occurrence lies in (`last`, `now`] whenever one was due, never moves
/// backwards, and no further occurrence is due at the same instant — so a
/// second refresh with no wall-clock advance generates nothing.
pub proof fn lemma_refresh_settles(last: u64, now: u64, step: u64)
    ensures
        last <= advanced_last(last, now, step),
        advanced_last(last, now, step) <= if last <= now {
            now
        } else {
            last
        },
        due_count(advanced_last(last, now, step), now, step) == 0,
{
    if step == 0 || now <= last {
    } else {
        let d = (now - last) as int;
        let q = due_count(last, now, step) as int;
        lemma_fundamental_div_mod(d, step as int);
        let r = d % (step as int);
        assert(d == (step as int) * q + r);
        assert(q * (step as int) == d - r) by (nonlinear_arith)
            requires
                d == (step as int) * q + r,
        ;
        let a = advanced_last(last, now, step);
        assert(a == last + q * step);
        assert(now - a == r);
        if a < now {
            lemma_fundamental_div_mod_converse(r, step as int, 0, r);
        }
    }
}

/// `lemma_refresh_settles` lifted to a plan: refreshing is idempotent per
/// occurrence window.
pub proof fn lemma_plan_refresh_idempotent(p: PlanView, now: u64)
    ensures
        p.last_refreshed_at <= plan_after_refresh(p, now).last_refreshed_at,
        plan_due_count(plan_after_refresh(p, now), now) == 0,
{
    lemma_refresh_settles(p.last_refreshed_at, now, spec_step_of(p.schedule));
}

/// The whole collection is settled after a refresh: a second refresh at the
/// same instant is due zero occurrences.
pub proof fn lemma_refresh_idempotent_total(items: Seq<PlanView>, now: u64)
    ensures
        total_due(plans_after_refresh(items, now), now) == 0,
    decreases items.len(),
{
    let refreshed = plans_after_refresh(items, now);
    if items.len() > 0 {
        lemma_plan_refresh_idempotent(items[0], now);
        lemma_refresh_idempotent_total(items.drop_first(), now);
        assert(refreshed.drop_first() =~= plans_after_refresh(items.drop_first(), now));
    }
}

pub proof fn lemma_total_due_snoc(items: Seq<PlanView>, x: PlanView, now: u64)
    ensures
        total_due(items.push(x), now) == total_due(items, now) + plan_due_count(x, now),
    decreases items.len(),
{
    if items.len() == 0 {
        assert(items.push(x).len() == 1);
        assert(total_due(items.push(x), now) == plan_due_count(items.push(x)[0], now) + total_due(
            items.push(x).drop_first(),
            now,
        ));
        assert(items.push(x)[0] == x);
        assert(items.push(x).drop_first() =~= Seq::<PlanView>::empty());
        assert(total_due(items.push(x).drop_first(), now) == 0);
        assert(total_due(items, now) == 0);
    } else {
        assert(items.push(x)[0] == items[0]);
        assert(items.push(x).drop_first() =~= items.drop_first().push(x));
        lemma_total_due_snoc(items.drop_first(), x, now);
        assert(total_due(items.push(x), now) == plan_due_count(items[0], now) + total_due(
            items.drop_first().push(x),
            now,
        ));
    }
}

/// A prefix of the collection is due no more than the whole.
pub proof fn lemma_total_due_take_le(items: Seq<PlanView>, now: u64, k: int)
    requires
        0 <= k <= items.len(),
    ensures
        total_due(items.take(k), now) <= total_due(items, now),
    decreases items.len() - k,
{
    if k == items.len() {
        assert(items.take(k) =~= items);
    } else {
        assert(items.take(k + 1) =~= items.take(k).push(items[k]));
        lemma_total_due_snoc(items.take(k), items[k], now);
        lemma_total_due_take_le(items, now, k + 1);
    }
}

pub proof fn lemma_gen_todos_snoc(items: Seq<PlanView>, x: PlanView, now: u64, base: u64)
    requires
        base + total_due(items.push(x), now) <= u64::MAX,
    ensures
        gen_todos(items.push(x), now, base) == gen_todos(items, now, base) + gen_todos_for(
            x,
            now,
            (base + total_due(items, now)) as u64,
        ),
    decreases items.len(),
{
    lemma_total_due_snoc(items, x, now);
    if items.len() == 0 {
        assert(items.push(x)[0] == x);
        assert(items.push(x).drop_first() =~= Seq::<PlanView>::empty());
        assert(gen_todos(items.push(x).drop_first(), now, (base + plan_due_count(x, now)) as u64)
            =~= Seq::<TodoView>::empty());
        assert(gen_todos(items, now, base) =~= Seq::<TodoView>::empty());
        assert(total_due(items, now) == 0);
        assert(gen_todos(items.push(x), now, base) =~= gen_todos(items, now, base)
            + gen_todos_for(x, now, (base + total_due(items, now)) as u64));
    } else {
        assert(items.push(x)[0] == items[0]);
        assert(items.push(x).drop_first() =~= items.drop_first().push(x));
        let b1 = (base + plan_due_count(items[0], now)) as u64;
        assert(total_due(items.push(x), now) == plan_due_count(items[0], now) + total_due(
            items.drop_first().push(x),
            now,
        ));
        lemma_total_due_snoc(items.drop_first(), x, now);
        assert(gen_todos(items.push(x), now, base) == gen_todos_for(items[0], now, base)
            + gen_todos(items.drop_first().push(x), now, b1));
        lemma_gen_todos_snoc(items.drop_first(), x, now, b1);
        assert(gen_todos(items, now, base) == gen_todos_for(items[0], now, base) + gen_todos(
            items.drop_first(),
            now,
            b1,
        ));
        assert((b1 + total_due(items.drop_first(), now)) as u64 == (base + total_due(
            items,
            now,
        )) as u64);
        assert(gen_todos(items.push(x), now, base) =~= gen_todos(items, now, base)
            + gen_todos_for(x, now, (base + total_due(items, now)) as u64));
    }
}

pub proof fn lemma_gen_events_snoc(items: Seq<PlanView>, x: PlanView, now: u64, hbase: u64)
    requires
        hbase + total_due(items.push(x), now) <= u64::MAX,
    ensures
        gen_events(items.push(x), now, hbase) == gen_events(items, now, hbase) + gen_events_for(
            x,
            now,
            (hbase + total_due(items, now)) as u64,
        ),
    decreases items.len(),
{
    lemma_total_due_snoc(items, x, now);
    if items.len() == 0 {
        assert(items.push(x)[0] == x);
        assert(items.push(x).drop_first() =~= Seq::<PlanView>::empty());
        assert(gen_events(items.push(x).drop_first(), now, (hbase + plan_due_count(x, now)) as u64)
            =~= Seq::<HistoryEntry>::empty());
        assert(gen_events(items, now, hbase) =~= Seq::<HistoryEntry>::empty());
        assert(total_due(items, now) == 0);
        assert(gen_events(items.push(x), now, hbase) =~= gen_events(items, now, hbase)
            + gen_events_for(x, now, (hbase + total_due(items, now)) as u64));
    } else {
        assert(items.push(x)[0] == items[0]);
        assert(items.push(x).drop_first() =~= items.drop_first().push(x));
        let b1 = (hbase + plan_due_count(items[0], now)) as u64;
        assert(total_due(items.push(x), now) == plan_due_count(items[0], now) + total_due(
            items.drop_first().push(x),
            now,
        ));
        lemma_total_due_snoc(items.drop_first(), x, now);
        assert(gen_events(items.push(x), now, hbase) == gen_events_for(items[0], now, hbase)
            + gen_events(items.drop_first().push(x), now, b1));
        lemma_gen_events_snoc(items.drop_first(), x, now, b1);
        assert(gen_events(items, now, hbase) == gen_events_for(items[0], now, hbase) + gen_events(
            items.drop_first(),
            now,
            b1,
        ));
        assert((b1 + total_due(items.drop_first(), now)) as u64 == (hbase + total_due(
            items,
            now,
        )) as u64);
        assert(gen_events(items.push(x), now, hbase) =~= gen_events(items, now, hbase)
            + gen_events_for(x, now, (hbase + total_due(items, now)) as u64));
    }
}

pub proof fn lemma_hist_insert_all_snoc(entries: Seq<HistoryEntry>, evs: Seq<HistoryEntry>, e: HistoryEntry)
    ensures
        hist_insert_all(entries, evs.push(e)) == hist_appended(hist_insert_all(entries, evs), e),
    decreases evs.len(),
{
    if evs.len() == 0 {
        assert(evs.push(e)[0] == e);
        assert(evs.push(e).drop_first() =~= Seq::<HistoryEntry>::empty());
        assert(hist_insert_all(hist_appended(entries, e), Seq::<HistoryEntry>::empty())
            == hist_appended(entries, e));
        assert(hist_insert_all(entries, evs) == entries);
    } else {
        assert(evs.push(e)[0] == evs[0]);
        assert(evs.push(e).drop_first() =~= evs.drop_first().push(e));
        assert(hist_insert_all(entries, evs.push(e)) == hist_insert_all(
            hist_appended(entries, evs[0]),
            evs.drop_first().push(e),
        ));
        lemma_hist_insert_all_snoc(hist_appended(entries, evs[0]), evs.drop_first(), e);
        assert(hist_insert_all(entries, evs) == hist_insert_all(
            hist_appended(entries, evs[0]),
            evs.drop_first(),
        ));
    }
}

pub proof fn lemma_malformed_snoc(items: Seq<PlanView>, x: PlanView)
    ensures
        malformed_plan_ids(items.push(x)) == if spec_step_of(x.schedule) == 0 {
            malformed_plan_ids(items).push(x.id)
        } else {
            malformed_plan_ids(items)
        },
    decreases items.len(),
{
    if items.len() == 0 {
        assert(items.push(x)[0] == x);
        assert(items.push(x).drop_first() =~= Seq::<PlanView>::empty());
        assert(malformed_plan_ids(items.push(x).drop_first()) =~= Seq::<u64>::empty());
        assert(malformed_plan_ids(items) =~= Seq::<u64>::empty());
        if spec_step_of(x.schedule) == 0 {
            assert(seq![x.id] + Seq::<u64>::empty() =~= malformed_plan_ids(items).push(x.id));
        }
    } else {
        assert(items.push(x)[0] == items[0]);
        assert(items.push(x).drop_first() =~= items.drop_first().push(x));
        assert(malformed_plan_ids(items.push(x).drop_first()) == malformed_plan_ids(
            items.drop_first().push(x),
        ));
        lemma_malformed_snoc(items.drop_first(), x);
        if spec_step_of(x.schedule) == 0 && spec_step_of(items[0].schedule) == 0 {
            assert(seq![items[0].id] + malformed_plan_ids(items.drop_first()).push(x.id)
                =~= malformed_plan_ids(items).push(x.id));
        }
    }
}


/// Appending the events of a concatenation appends the first part's events,
/// then the second's.
pub proof fn lemma_hist_insert_all_concat(
    entries: Seq<HistoryEntry>,
    a: Seq<HistoryEntry>,
    b: Seq<HistoryEntry>,
)
    ensures
        hist_insert_all(entries, a + b) == hist_insert_all(hist_insert_all(entries, a), b),
    decreases a.len(),
{
    if a.len() == 0 {
        assert(a + b =~= b);
        assert(hist_insert_all(entries, a) == entries);
    } else {
        assert((a + b)[0] == a[0]);
        assert((a + b).drop_first() =~= a.drop_first() + b);
        assert(hist_insert_all(entries, a + b) == hist_insert_all(
            hist_appended(entries, a[0]),
            a.drop_first() + b,
        ));
        lemma_hist_insert_all_concat(hist_appended(entries, a[0]), a.drop_first(), b);
        assert(hist_insert_all(entries, a) == hist_insert_all(
            hist_appended(entries, a[0]),
            a.drop_first(),
        ));
    }
}

/// What one refresh reports: how many todos it created, and the identifiers
/// of the plans it had to skip because their rule yields no occurrence ever.
pub struct RefreshReport {
    pub created: u64,
    pub skipped: Vec<u64>,
}

/// Materializes every due occurrence of one plan, oldest first: one todo and
/// one `Generated` history entry per occurrence.  Returns the timestamp of
/// the latest processed occurrence (or `last` when none was due) and the
/// number of occurrences processed.
fn materialize_plan(
    todos: &mut TodoStore,
    history: &mut HistoryLedger,
    pid: u64,
    title: &String,
    last: u64,
    step: u64,
    now: u64,
    Ghost(pv): Ghost<PlanView>,
) -> (r: (u64, u64))
    requires
        todo_store_wf(old(todos)@),
        hist_wf(old(history)@),
        step == spec_step_of(pv.schedule),
        step > 0,
        pid == pv.id,
        title@ == pv.title,
        title@.len() > 0,
        last == pv.last_refreshed_at,
        old(todos)@.next_id + plan_due_count(pv, now) <= u64::MAX,
        old(history)@.next_id + plan_due_count(pv, now) <= u64::MAX,
    ensures
        todo_store_wf(final(todos)@),
        hist_wf(final(history)@),
        final(todos)@.items == old(todos)@.items + gen_todos_for(pv, now, old(todos)@.next_id),
        final(todos)@.next_id == old(todos)@.next_id + plan_due_count(pv, now),
        final(history)@.entries == hist_insert_all(
            old(history)@.entries,
            gen_events_for(pv, now, old(history)@.next_id),
        ),
        final(history)@.next_id == old(history)@.next_id + plan_due_count(pv, now),
        r.0 == advanced_last(last, now, step),
        r.1 == plan_due_count(pv, now),
{
    let ghost tb = old(todos)@.next_id;
    let ghost hb = old(history)@.next_id;
    let ghost due = plan_due_count(pv, now);
    let mut t = last;
    let mut n: u64 = 0;
    let ghost mut j: int = 0;
    while t < now && now - t >= step
        invariant
            step == spec_step_of(pv.schedule),
            step > 0,
            pid == pv.id,
            title@ == pv.title,
            title@.len() > 0,
            last == pv.last_refreshed_at,
            due == plan_due_count(pv, now),
            0 <= j <= due,
            n == j,
            t as int == last + j * step,
            last <= t,
            j > 0 ==> t <= now,
            todo_store_wf(todos@),
            hist_wf(history@),
            todos@.items == old(todos)@.items + gen_todos_for(pv, now, tb).take(j),
            todos@.next_id == tb + j,
            history@.entries == hist_insert_all(
                old(history)@.entries,
                gen_events_for(pv, now, hb).take(j),
            ),
            history@.next_id == hb + j,
            tb + due <= u64::MAX,
            hb + due <= u64::MAX,
        decreases now - t,
    {
        proof {
            // another occurrence is due: j + 1 <= due
            assert((j + 1) * (step as int) <= now - last) by (nonlinear_arith)
                requires
                    t as int == last + j * step,
                    (t as int) + step <= now,
            ;
            lemma_div_is_ordered((j + 1) * (step as int), (now - last) as int, step as int);
            lemma_div_multiples_vanish(j + 1, step as int);
            assert(j + 1 <= due);
        }
        t = t + step;
        proof {
            assert((j + 1) * (step as int) == j * (step as int) + step) by (nonlinear_arith);
            assert(t as int == last + (j + 1) * step);
        }
        let _ = todos.create(title.clone(), now, Some(pid));
        proof {
            let el = gen_todos_for(pv, now, tb)[j];
            assert(el.id == tb + j && el.title == pv.title);
            assert(gen_todos_for(pv, now, tb).take(j + 1) =~= gen_todos_for(pv, now, tb).take(
                j,
            ).push(el));
            assert(todos@.items =~= old(todos)@.items + gen_todos_for(pv, now, tb).take(j + 1));
        }
        history.append(SubjectKind::Plan, pid, EventKind::Generated, t);
        proof {
            let ev = gen_events_for(pv, now, hb)[j];
            assert(ev.id == hb + j);
            assert(ev.occurred_at == (pv.last_refreshed_at + (j + 1) * spec_step_of(
                pv.schedule,
            )) as u64);
            assert(ev.occurred_at == t);
            assert(gen_events_for(pv, now, hb).take(j + 1) =~= gen_events_for(pv, now, hb).take(
                j,
            ).push(ev));
            lemma_hist_insert_all_snoc(
                old(history)@.entries,
                gen_events_for(pv, now, hb).take(j),
                ev,
            );
            j = j + 1;
        }
        n = n + 1;
    }
    proof {
        // the loop has processed exactly the due occurrences
        if last >= now {
            assert(j * step >= 0) by (nonlinear_arith)
                requires
                    j >= 0,
                    step > 0,
            ;
            if j > 0 {
                assert(t <= now && t as int == last + j * step);
                assert(j * (step as int) > 0) by (nonlinear_arith)
                    requires
                        j > 0,
                        step > 0,
                ;
            }
            assert(j == 0);
            assert(due == 0);
        } else {
            let d = (now - last) as int;
            let r = d - j * (step as int);
            assert(t as int == last + j * step);
            if j == 0 {
                assert(t == last);
            }
            assert(t <= now);
            assert(r >= 0);
            assert(r < step);
            lemma_fundamental_div_mod_converse(d, step as int, j, r);
            assert(due == j);
        }
        assert(gen_todos_for(pv, now, tb).take(j) =~= gen_todos_for(pv, now, tb));
        assert(gen_events_for(pv, now, hb).take(j) =~= gen_events_for(pv, now, hb));
        assert(t == advanced_last(last, now, step));
    }
    (t, n)
}

/// The refresh engine: materializes every due occurrence of every plan at
/// time `now`, advances each plan's `last_refreshed_at` to its latest
/// processed occurrence, and reports the count of todos generated and the
/// plans skipped for a malformed rule.  The occurrence window is computed
/// relative to the already-advanced `last_refreshed_at`, so a second refresh
/// at the same instant generates nothing.
pub fn refresh_plans(
    todos: &mut TodoStore,
    plans: &mut PlanStore,
    history: &mut HistoryLedger,
    now: u64,
) -> (r: RefreshReport)
    requires
        todo_store_wf(old(todos)@),
        plan_store_wf(old(plans)@),
        hist_wf(old(history)@),
        old(todos)@.next_id + total_due(old(plans)@.items, now) <= u64::MAX,
        old(history)@.next_id + total_due(old(plans)@.items, now) <= u64::MAX,
    ensures
        todo_store_wf(final(todos)@),
        plan_store_wf(final(plans)@),
        hist_wf(final(history)@),
        final(todos)@.items == old(todos)@.items + gen_todos(
            old(plans)@.items,
            now,
            old(todos)@.next_id,
        ),
        final(todos)@.next_id == old(todos)@.next_id + total_due(old(plans)@.items, now),
        final(plans)@.items == plans_after_refresh(old(plans)@.items, now),
        final(plans)@.next_id == old(plans)@.next_id,
        final(history)@.entries == hist_insert_all(
            old(history)@.entries,
            gen_events(old(plans)@.items, now, old(history)@.next_id),
        ),
        final(history)@.next_id == old(history)@.next_id + total_due(old(plans)@.items, now),
        r.created == total_due(old(plans)@.items, now),
        r.skipped@ == malformed_plan_ids(old(plans)@.items),
        forall|k: int|
            0 <= k < old(plans)@.items.len() ==> final(plans)@.items[k].last_refreshed_at >= old(
                plans,
            )@.items[k].last_refreshed_at,
{
    let ghost p0 = old(plans)@.items;
    let ghost tb0 = old(todos)@.next_id;
    let ghost hb0 = old(history)@.next_id;
    let ghost t0 = old(todos)@.items;
    let ghost h0 = old(history)@.entries;
    let mut created: u64 = 0;
    let mut skipped: Vec<u64> = Vec::new();
    let mut i: usize = 0;
    while i < plans.items.len()
        invariant
            0 <= i <= plans.items.len(),
            plans@.items.len() == p0.len(),
            plan_store_wf(plans@),
            todo_store_wf(todos@),
            hist_wf(history@),
            plans@.next_id == old(plans)@.next_id,
            forall|k: int| i <= k < p0.len() ==> plans@.items[k] == p0[k],
            forall|k: int| 0 <= k < i ==> plans@.items[k] == plan_after_refresh(p0[k], now),
            forall|k: int|
                0 <= k < i ==> plans@.items[k].last_refreshed_at >= p0[k].last_refreshed_at,
            todos@.items == t0 + gen_todos(p0.take(i as int), now, tb0),
            todos@.next_id == tb0 + total_due(p0.take(i as int), now),
            history@.entries == hist_insert_all(h0, gen_events(p0.take(i as int), now, hb0)),
            history@.next_id == hb0 + total_due(p0.take(i as int), now),
            created == total_due(p0.take(i as int), now),
            skipped@ == malformed_plan_ids(p0.take(i as int)),
            tb0 + total_due(p0, now) <= u64::MAX,
            hb0 + total_due(p0, now) <= u64::MAX,
        decreases plans.items.len() - i,
    {
        let ghost pv = p0[i as int];
        proof {
            assert(p0.take(i as int + 1) =~= p0.take(i as int).push(pv));
            lemma_total_due_snoc(p0.take(i as int), pv, now);
            lemma_total_due_take_le(p0, now, i as int + 1);
            lemma_gen_todos_snoc(p0.take(i as int), pv, now, tb0);
            lemma_gen_events_snoc(p0.take(i as int), pv, now, hb0);
            lemma_malformed_snoc(p0.take(i as int), pv);
        }
        let step = step_of(plans.items[i].schedule);
        let pid = plans.items[i].id;
        let last = plans.items[i].last_refreshed_at;
        if step == 0 {
            skipped.push(pid);
            proof {
                assert(plan_due_count(pv, now) == 0);
                assert(gen_todos_for(pv, now, (tb0 + total_due(p0.take(i as int), now)) as u64)
                    =~= Seq::<TodoView>::empty());
                assert(todos@.items =~= t0 + gen_todos(p0.take(i as int + 1), now, tb0));
                let evs = gen_events_for(
                    pv,
                    now,
                    (hb0 + total_due(p0.take(i as int), now)) as u64,
                );
                assert(evs =~= Seq::<HistoryEntry>::empty());
                lemma_hist_insert_all_concat(
                    h0,
                    gen_events(p0.take(i as int), now, hb0),
                    evs,
                );
                assert(gen_events(p0.take(i as int), now, hb0) + evs =~= gen_events(
                    p0.take(i as int),
                    now,
                    hb0,
                ));
                assert(hist_insert_all(history@.entries, evs) == history@.entries);
                lemma_refresh_settles(pv.last_refreshed_at, now, step as u64);
                assert(plan_after_refresh(pv, now) =~= pv);
            }
        } else {
            let ptitle = plans.items[i].title.clone();
            let (t_new, n) = materialize_plan(
                todos,
                history,
                pid,
                &ptitle,
                last,
                step,
                now,
                Ghost(pv),
            );
            created = created + n;
            let ghost psnap = plans@.items;
            let mut pl = plans.items.remove(i);
            proof {
                psnap.remove_ensures(i as int);
                assert(plans@.items =~= psnap.remove(i as int));
            }
            pl.last_refreshed_at = t_new;
            proof {
                lemma_refresh_settles(last, now, step);
            }
            let ghost pmid = plans@.items;
            plans.items.insert(i, pl);
            proof {
                assert(pl@ =~= plan_after_refresh(pv, now));
                pmid.insert_ensures(i as int, pl@);
                assert(plans@.items =~= psnap.update(i as int, pl@));
                assert(todos@.items =~= t0 + gen_todos(p0.take(i as int + 1), now, tb0));
                lemma_hist_insert_all_concat(
                    h0,
                    gen_events(p0.take(i as int), now, hb0),
                    gen_events_for(pv, now, (hb0 + total_due(p0.take(i as int), now)) as u64),
                );
                assert(history@.entries == hist_insert_all(
                    h0,
                    gen_events(p0.take(i as int + 1), now, hb0),
                ));
                assert forall|k: int| 0 <= k < plans@.items.len() implies plans@.items[k].id
                    == psnap[k].id && plans@.items[k].title == psnap[k].title && plans@.items[k].id
                    < plans@.next_id by {
                    if k != i as int {
                        assert(plans@.items[k] == psnap[k]);
                    }
                }
            }
        }
        i = i + 1;
    }
    proof {
        assert(p0.take(p0.len() as int) =~= p0);
        assert(plans@.items =~= plans_after_refresh(p0, now));
    }
    RefreshReport { created, skipped }
}

} // verus!
