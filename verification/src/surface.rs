//! The command surface: one state object holding the two record stores and
//! the history ledger, with one entry point per operation.  Each operation
//! takes the current wall-clock time from the caller; the persistence shell
//! around the library supplies it and flushes the encoded stores after every
//! mutation.

use vstd::prelude::*;

use crate::history::{hist_appended, hist_wf, HistoryLedger};
use crate::model::{
    Error, EventKind, HistoryEntry, Plan, PlanPatch, Schedule, SubjectKind, Todo, TodoPatch,
};
use crate::model::{plan_apply_patch, todo_apply_patch};
use crate::refresh::{
    gen_events, gen_todos, malformed_plan_ids, plan_due_count, plans_after_refresh, refresh_plans,
    step_of, total_due, RefreshReport,
};
use crate::refresh::hist_insert_all;
use crate::store::{
    plan_contains, plan_index_of, plan_lookup, plan_store_wf, todo_contains, todo_index_of,
    todo_lookup, todo_store_wf, PlanStore, TodoStore,
};

verus! {

/// The process-wide application state: both stores and the ledger, built
/// once at startup and passed to every command.
pub struct AppState {
    pub todos: TodoStore,
    pub plans: PlanStore,
    pub history: HistoryLedger,
}

/// Every collection of the state is well-formed.
pub open spec fn app_wf(s: &AppState) -> bool {
    &&& todo_store_wf(s.todos@)
    &&& plan_store_wf(s.plans@)
    &&& hist_wf(s.history@)
}

/// The history entry one completion produces.
pub open spec fn completion_entry(hid: u64, todo_id: u64, now: u64) -> HistoryEntry {
    HistoryEntry {
        id: hid,
        subject_kind: SubjectKind::Todo,
        subject_id: todo_id,
        event: EventKind::Completed,
        occurred_at: now,
    }
}

/// Whether an update of `id` with `patch` is the transition that completes a
/// previously open todo — the one case that appends a `Completed` entry.
pub open spec fn completes(items: Seq<crate::model::TodoView>, id: u64, patch: crate::model::TodoPatchView) -> bool {
    &&& !(patch.title matches Some(t) && t.len() == 0)
    &&& todo_contains(items, id)
    &&& !todo_lookup(items, id).completed
    &&& patch.completed == Some(true)
}

impl AppState {
    /// Fresh state: empty collections, as a first start with no data on disk.
    pub fn new() -> (r: AppState)
        ensures
            app_wf(&r),
            r.todos@.items.len() == 0,
            r.todos@.next_id == 0,
            r.plans@.items.len() == 0,
            r.plans@.next_id == 0,
            r.history@.entries.len() == 0,
            r.history@.next_id == 0,
    {
        AppState { todos: TodoStore::new(), plans: PlanStore::new(), history: HistoryLedger::new() }
    }

    /// State as loaded at startup from previously persisted collections.
    pub fn from_parts(todos: TodoStore, plans: PlanStore, history: HistoryLedger) -> (r: AppState)
        requires
            todo_store_wf(todos@),
            plan_store_wf(plans@),
            hist_wf(history@),
        ensures
            app_wf(&r),
            r.todos@ == todos@,
            r.plans@ == plans@,
            r.history@ == history@,
    {
        AppState { todos, plans, history }
    }

    /// Creates a todo from a title; see `TodoStore::create`.
    pub fn todo_create(&mut self, title: String, now: u64) -> (r: Result<Todo, Error>)
        requires
            app_wf(old(self)),
            old(self).todos@.next_id < u64::MAX,
        ensures
            app_wf(final(self)),
            final(self).plans@ == old(self).plans@,
            final(self).history@ == old(self).history@,
            final(self).todos@.next_id >= old(self).todos@.next_id,
            title@.len() == 0 ==> {
                &&& r matches Err(Error::Validation)
                &&& final(self).todos@ == old(self).todos@
            },
            title@.len() > 0 ==> {
                &&& r matches Ok(t)
                &&& t@ == (crate::model::TodoView {
                    id: old(self).todos@.next_id,
                    title: title@,
                    completed: false,
                    created_at: now,
                    updated_at: now,
                    origin_plan_id: None,
                })
                &&& final(self).todos@.items == old(self).todos@.items.push(t@)
                &&& final(self).todos@.next_id == old(self).todos@.next_id + 1
            },
    {
        self.todos.create(title, now, None)
    }

    /// A snapshot of the todo collection in stored order.
    pub fn todo_list(&self) -> (r: Vec<Todo>)
        ensures
            r@.map_values(|t: Todo| t@) == self.todos@.items,
    {
        self.todos.list()
    }

    /// The todo carrying `id`; `NotFound` exactly when no record does.
    pub fn todo_get(&self, id: u64) -> (r: Result<Todo, Error>)
        requires
            app_wf(self),
        ensures
            todo_contains(self.todos@.items, id) ==> {
                &&& r matches Ok(t)
                &&& t@ == todo_lookup(self.todos@.items, id)
            },
            !todo_contains(self.todos@.items, id) ==> r matches Err(Error::NotFound),
    {
        self.todos.get(id)
    }

    /// Applies the supplied fields to the todo carrying `id`.  When the patch
    /// completes a previously open todo, exactly one `Completed` history
    /// entry is appended in the same operation.
    pub fn todo_update(&mut self, id: u64, patch: &TodoPatch, now: u64) -> (r: Result<Todo, Error>)
        requires
            app_wf(old(self)),
            old(self).history@.next_id < u64::MAX,
        ensures
            app_wf(final(self)),
            final(self).plans@ == old(self).plans@,
            final(self).todos@.next_id == old(self).todos@.next_id,
            (patch@.title matches Some(t) && t.len() == 0) ==> {
                &&& r matches Err(Error::Validation)
                &&& final(self).todos@ == old(self).todos@
            },
            !(patch@.title matches Some(t) && t.len() == 0) && !todo_contains(
                old(self).todos@.items,
                id,
            ) ==> {
                &&& r matches Err(Error::NotFound)
                &&& final(self).todos@ == old(self).todos@
            },
            !(patch@.title matches Some(t) && t.len() == 0) && todo_contains(
                old(self).todos@.items,
                id,
            ) ==> {
                &&& r matches Ok(t)
                &&& t@ == todo_apply_patch(todo_lookup(old(self).todos@.items, id), patch@, now)
                &&& final(self).todos@.items == old(self).todos@.items.update(
                    todo_index_of(old(self).todos@.items, id),
                    t@,
                )
            },
            completes(old(self).todos@.items, id, patch@) ==> {
                &&& final(self).history@.entries == hist_appended(
                    old(self).history@.entries,
                    completion_entry(old(self).history@.next_id, id, now),
                )
                &&& final(self).history@.next_id == old(self).history@.next_id + 1
            },
            !completes(old(self).todos@.items, id, patch@) ==> final(self).history@ == old(
                self,
            ).history@,
    {
        let was_open = match self.todos.get(id) {
            Ok(t) => !t.completed,
            Err(_) => false,
        };
        let res = self.todos.update(id, patch, now);
        let did_complete = was_open && res.is_ok() && match patch.completed {
            Some(c) => c,
            None => false,
        };
        if did_complete {
            self.history.append(SubjectKind::Todo, id, EventKind::Completed, now);
        }
        res
    }

    /// Removes the todo carrying `id`.  History entries that reference it
    /// keep their weak reference.
    pub fn todo_delete(&mut self, id: u64) -> (r: Result<(), Error>)
        requires
            app_wf(old(self)),
        ensures
            app_wf(final(self)),
            final(self).plans@ == old(self).plans@,
            final(self).history@ == old(self).history@,
            final(self).todos@.next_id == old(self).todos@.next_id,
            !todo_contains(old(self).todos@.items, id) ==> {
                &&& r matches Err(Error::NotFound)
                &&& final(self).todos@ == old(self).todos@
            },
            todo_contains(old(self).todos@.items, id) ==> {
                &&& r matches Ok(u)
                &&& final(self).todos@.items == old(self).todos@.items.remove(
                    todo_index_of(old(self).todos@.items, id),
                )
            },
    {
        self.todos.delete(id)
    }

    /// Creates a plan; see `PlanStore::create`.
    pub fn plan_create(
        &mut self,
        title: String,
        description: String,
        schedule: Schedule,
        now: u64,
    ) -> (r: Result<Plan, Error>)
        requires
            app_wf(old(self)),
            old(self).plans@.next_id < u64::MAX,
        ensures
            app_wf(final(self)),
            final(self).todos@ == old(self).todos@,
            final(self).history@ == old(self).history@,
            final(self).plans@.next_id >= old(self).plans@.next_id,
            title@.len() == 0 ==> {
                &&& r matches Err(Error::Validation)
                &&& final(self).plans@ == old(self).plans@
            },
            title@.len() > 0 ==> {
                &&& r matches Ok(p)
                &&& p@ == (crate::model::PlanView {
                    id: old(self).plans@.next_id,
                    title: title@,
                    description: description@,
                    schedule,
                    last_refreshed_at: now,
                    created_at: now,
                    updated_at: now,
                })
                &&& final(self).plans@.items == old(self).plans@.items.push(p@)
                &&& final(self).plans@.next_id == old(self).plans@.next_id + 1
            },
    {
        self.plans.create(title, description, schedule, now)
    }

    /// A snapshot of the plan collection in stored order.
    pub fn plan_list(&self) -> (r: Vec<Plan>)
        ensures
            r@.map_values(|p: Plan| p@) == self.plans@.items,
    {
        self.plans.list()
    }

    /// The plan carrying `id`; `NotFound` exactly when no plan does.
    pub fn plan_get(&self, id: u64) -> (r: Result<Plan, Error>)
        requires
            app_wf(self),
        ensures
            plan_contains(self.plans@.items, id) ==> {
                &&& r matches Ok(p)
                &&& p@ == plan_lookup(self.plans@.items, id)
            },
            !plan_contains(self.plans@.items, id) ==> r matches Err(Error::NotFound),
    {
        self.plans.get(id)
    }

    /// Applies the supplied fields to the plan carrying `id`.
    pub fn plan_update(&mut self, id: u64, patch: &PlanPatch, now: u64) -> (r: Result<Plan, Error>)
        requires
            app_wf(old(self)),
        ensures
            app_wf(final(self)),
            final(self).todos@ == old(self).todos@,
            final(self).history@ == old(self).history@,
            final(self).plans@.next_id == old(self).plans@.next_id,
            (patch@.title matches Some(t) && t.len() == 0) ==> {
                &&& r matches Err(Error::Validation)
                &&& final(self).plans@ == old(self).plans@
            },
            !(patch@.title matches Some(t) && t.len() == 0) && !plan_contains(
                old(self).plans@.items,
                id,
            ) ==> {
                &&& r matches Err(Error::NotFound)
                &&& final(self).plans@ == old(self).plans@
            },
            !(patch@.title matches Some(t) && t.len() == 0) && plan_contains(
                old(self).plans@.items,
                id,
            ) ==> {
                &&& r matches Ok(p)
                &&& p@ == plan_apply_patch(plan_lookup(old(self).plans@.items, id), patch@, now)
                &&& final(self).plans@.items == old(self).plans@.items.update(
                    plan_index_of(old(self).plans@.items, id),
                    p@,
                )
            },
    {
        self.plans.update(id, patch, now)
    }

    /// Removes the plan carrying `id`.  Todos it generated keep their weak
    /// back-reference.
    pub fn plan_delete(&mut self, id: u64) -> (r: Result<(), Error>)
        requires
            app_wf(old(self)),
        ensures
            app_wf(final(self)),
            final(self).todos@ == old(self).todos@,
            final(self).history@ == old(self).history@,
            final(self).plans@.next_id == old(self).plans@.next_id,
            !plan_contains(old(self).plans@.items, id) ==> {
                &&& r matches Err(Error::NotFound)
                &&& final(self).plans@ == old(self).plans@
            },
            plan_contains(old(self).plans@.items, id) ==> {
                &&& r matches Ok(u)
                &&& final(self).plans@.items == old(self).plans@.items.remove(
                    plan_index_of(old(self).plans@.items, id),
                )
            },
    {
        self.plans.delete(id)
    }

    /// How many occurrences a refresh at `now` would materialize, or `None`
    /// when the count does not fit in the counter type.  The caller checks
    /// this against the identifier counters before a refresh.
    pub fn count_due(&self, now: u64) -> (r: Option<u64>)
        ensures
            r matches Some(c) ==> c == total_due(self.plans@.items, now),
            r is None ==> total_due(self.plans@.items, now) > u64::MAX,
    {
        let ghost items = self.plans@.items;
        let mut sum: u64 = 0;
        let mut i: usize = 0;
        while i < self.plans.items.len()
            invariant
                i <= self.plans.items.len(),
                items == self.plans@.items,
                sum == total_due(items.take(i as int), now),
            decreases self.plans.items.len() - i,
        {
            proof {
                assert(items.take(i as int + 1) =~= items.take(i as int).push(items[i as int]));
                crate::refresh::lemma_total_due_snoc(items.take(i as int), items[i as int], now);
            }
            let step = step_of(self.plans.items[i].schedule);
            let last = self.plans.items[i].last_refreshed_at;
            let due: u64 = if step == 0 || now <= last {
                0
            } else {
                (now - last) / step
            };
            proof {
                assert(due == plan_due_count(items[i as int], now));
            }
            sum = match sum.checked_add(due) {
                Some(s) => s,
                None => {
                    proof {
                        crate::refresh::lemma_total_due_take_le(items, now, i as int + 1);
                    }
                    return None;
                },
            };
            i = i + 1;
        }
        proof {
            assert(items.take(self.plans.items@.len() as int) =~= items);
        }
        Some(sum)
    }

    /// Materializes every due occurrence of every plan at `now`; see
    /// `refresh_plans`.  Returns how many todos were generated and which
    /// plans were skipped for a malformed rule.
    pub fn plan_refresh(&mut self, now: u64) -> (r: RefreshReport)
        requires
            app_wf(old(self)),
            old(self).todos@.next_id + total_due(old(self).plans@.items, now) <= u64::MAX,
            old(self).history@.next_id + total_due(old(self).plans@.items, now) <= u64::MAX,
        ensures
            app_wf(final(self)),
            final(self).todos@.items == old(self).todos@.items + gen_todos(
                old(self).plans@.items,
                now,
                old(self).todos@.next_id,
            ),
            final(self).todos@.next_id == old(self).todos@.next_id + total_due(
                old(self).plans@.items,
                now,
            ),
            final(self).plans@.items == plans_after_refresh(old(self).plans@.items, now),
            final(self).plans@.next_id == old(self).plans@.next_id,
            final(self).history@.entries == hist_insert_all(
                old(self).history@.entries,
                gen_events(old(self).plans@.items, now, old(self).history@.next_id),
            ),
            final(self).history@.next_id == old(self).history@.next_id + total_due(
                old(self).plans@.items,
                now,
            ),
            r.created == total_due(old(self).plans@.items, now),
            r.skipped@ == malformed_plan_ids(old(self).plans@.items),
            forall|k: int|
                0 <= k < old(self).plans@.items.len()
                    ==> final(self).plans@.items[k].last_refreshed_at >= old(
                    self,
                ).plans@.items[k].last_refreshed_at,
    {
        refresh_plans(&mut self.todos, &mut self.plans, &mut self.history, now)
    }

    /// A snapshot of the history ledger, ordered by `occurred_at` ascending
    /// with ties in insertion order.
    pub fn history_list(&self) -> (r: Vec<HistoryEntry>)
        ensures
            r@ == self.history@.entries,
    {
        self.history.list()
    }
}

} // verus!

