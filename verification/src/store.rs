//! Record stores: the authoritative in-memory ordered collections, one for
//! todos and one for plans.  Each store assigns identifiers from a counter
//! that never decreases, so an identifier is never reused for the lifetime of
//! the data directory.

use vstd::prelude::*;

use crate::model::{Error, Plan, PlanPatch, PlanView, Todo, TodoPatch, TodoView};
use crate::model::{plan_apply_patch, todo_apply_patch};

verus! {

/// The todo collection together with its identifier counter.
pub struct TodoStore {
    pub next_id: u64,
    pub items: Vec<Todo>,
}

#[verifier::ext_equal]
pub ghost struct TodoStoreView {
    pub next_id: u64,
    pub items: Seq<TodoView>,
}

impl View for TodoStore {
    type V = TodoStoreView;

    open spec fn view(&self) -> TodoStoreView {
        TodoStoreView { next_id: self.next_id, items: self.items@.map_values(|t: Todo| t@) }
    }
}

/// Well-formedness of a todo collection: identifiers are pairwise distinct
/// and below the counter, and every title is non-empty.
pub open spec fn todo_store_wf(s: TodoStoreView) -> bool {
    &&& forall|i: int, j: int| 0 <= i < j < s.items.len() ==> s.items[i].id != s.items[j].id
    &&& forall|i: int| 0 <= i < s.items.len() ==> s.items[i].id < s.next_id
    &&& forall|i: int| 0 <= i < s.items.len() ==> s.items[i].title.len() > 0
}

/// Whether some record of the collection carries `id`.
pub open spec fn todo_contains(items: Seq<TodoView>, id: u64) -> bool {
    exists|i: int| 0 <= i < items.len() && items[i].id == id
}

/// The index of the record carrying `id` (meaningful when present and the
/// identifiers are distinct).
pub open spec fn todo_index_of(items: Seq<TodoView>, id: u64) -> int {
    choose|i: int| 0 <= i < items.len() && items[i].id == id
}

/// The record carrying `id` (meaningful only when present).
pub open spec fn todo_lookup(items: Seq<TodoView>, id: u64) -> TodoView {
    items[todo_index_of(items, id)]
}

/// In a collection with distinct identifiers, a record found at `i` is the
/// record `id` names.
pub proof fn lemma_todo_found_at(items: Seq<TodoView>, id: u64, i: int)
    requires
        forall|a: int, b: int| 0 <= a < b < items.len() ==> items[a].id != items[b].id,
        0 <= i < items.len(),
        items[i].id == id,
    ensures
        todo_contains(items, id),
        todo_index_of(items, id) == i,
{
    assert(todo_contains(items, id));
    let j = todo_index_of(items, id);
    if j < i {
        assert(items[j].id != items[i].id);
    } else if j > i {
        assert(items[i].id != items[j].id);
    }
}

/// A collection in which no record carries `id` does not contain `id`.
pub proof fn lemma_todo_absent(items: Seq<TodoView>, id: u64)
    requires
        forall|k: int| 0 <= k < items.len() ==> items[k].id != id,
    ensures
        !todo_contains(items, id),
{
    if todo_contains(items, id) {
        let j = choose|j: int| 0 <= j < items.len() && items[j].id == id;
        assert(items[j].id != id);
    }
}

/// Identifiers are never reused: in a well-formed store every identifier
/// ever issued lies below the counter, so the identifier the next creation
/// assigns — the counter itself — differs from every identifier any record
/// carries.  The mutating operations never decrease the counter and never
/// alter a stored identifier, so a later creation cannot repeat an earlier
/// one.
pub proof fn lemma_todo_fresh_id_never_reused(s: TodoStoreView)
    requires
        todo_store_wf(s),
    ensures
        !todo_contains(s.items, s.next_id),
        forall|i: int| 0 <= i < s.items.len() ==> s.items[i].id != s.next_id,
{
    lemma_todo_absent(s.items, s.next_id);
}

/// After a delete, a lookup of the same identifier finds nothing: removing
/// the record at the index the identifier occupied leaves a collection in
/// which no record carries that identifier.
pub proof fn lemma_todo_deleted_id_not_found(items: Seq<TodoView>, id: u64)
    requires
        forall|a: int, b: int| 0 <= a < b < items.len() ==> items[a].id != items[b].id,
        todo_contains(items, id),
    ensures
        !todo_contains(items.remove(todo_index_of(items, id)), id),
{
    let at = todo_index_of(items, id);
    assert(0 <= at < items.len() && items[at].id == id);
    let rest = items.remove(at);
    items.remove_ensures(at);
    assert forall|k: int| 0 <= k < rest.len() implies rest[k].id != id by {
        if k < at {
            assert(rest[k] == items[k]);
        } else {
            assert(rest[k] == items[k + 1]);
        }
    }
    lemma_todo_absent(rest, id);
}

impl TodoStore {
    /// The empty store: no records, counter at zero.
    pub fn new() -> (r: TodoStore)
        ensures
            r@ == (TodoStoreView { next_id: 0, items: Seq::<TodoView>::empty() }),
            todo_store_wf(r@),
    {
        let r = TodoStore { next_id: 0, items: Vec::new() };
        proof {
            assert(r@.items =~= Seq::<TodoView>::empty());
        }
        r
    }

    /// Validates the title, assigns the next identifier, stamps both
    /// timestamps with `now`, and appends the record.
    pub fn create(&mut self, title: String, now: u64, origin_plan_id: Option<u64>) -> (r: Result<
        Todo,
        Error,
    >)
        requires
            todo_store_wf(old(self)@),
            old(self)@.next_id < u64::MAX,
        ensures
            todo_store_wf(final(self)@),
            final(self)@.next_id >= old(self)@.next_id,
            title@.len() == 0 ==> {
                &&& r matches Err(Error::Validation)
                &&& final(self)@ == old(self)@
            },
            title@.len() > 0 ==> {
                &&& r matches Ok(t)
                &&& t@ == (TodoView {
                    id: old(self)@.next_id,
                    title: title@,
                    completed: false,
                    created_at: now,
                    updated_at: now,
                    origin_plan_id,
                })
                &&& final(self)@.items == old(self)@.items.push(t@)
                &&& final(self)@.next_id == old(self)@.next_id + 1
            },
    {
        if title.as_str().is_empty() {
            return Err(Error::Validation);
        }
        let t = Todo {
            id: self.next_id,
            title,
            completed: false,
            created_at: now,
            updated_at: now,
            origin_plan_id,
        };
        let out = t.clone();
        self.items.push(t);
        self.next_id = self.next_id + 1;
        proof {
            assert(self@.items =~= old(self)@.items.push(out@));
        }
        Ok(out)
    }

    /// A snapshot of the collection in stored order; no side effect.
    pub fn list(&self) -> (r: Vec<Todo>)
        ensures
            r@.map_values(|t: Todo| t@) == self@.items,
    {
        let mut out: Vec<Todo> = Vec::new();
        let mut i: usize = 0;
        while i < self.items.len()
            invariant
                i <= self.items.len(),
                out@.len() == i,
                forall|k: int| 0 <= k < i ==> out@[k]@ == self@.items[k],
            decreases self.items.len() - i,
        {
            out.push(self.items[i].clone());
            i = i + 1;
        }
        proof {
            assert(out@.map_values(|t: Todo| t@) =~= self@.items);
        }
        out
    }

    /// The record carrying `id`; `NotFound` exactly when no record does.
    pub fn get(&self, id: u64) -> (r: Result<Todo, Error>)
        requires
            todo_store_wf(self@),
        ensures
            todo_contains(self@.items, id) ==> {
                &&& r matches Ok(t)
                &&& t@ == todo_lookup(self@.items, id)
            },
            !todo_contains(self@.items, id) ==> r matches Err(Error::NotFound),
    {
        let mut i: usize = 0;
        while i < self.items.len()
            invariant
                i <= self.items.len(),
                todo_store_wf(self@),
                forall|k: int| 0 <= k < i ==> self@.items[k].id != id,
            decreases self.items.len() - i,
        {
            if self.items[i].id == id {
                proof {
                    lemma_todo_found_at(self@.items, id, i as int);
                }
                return Ok(self.items[i].clone());
            }
            i = i + 1;
        }
        proof {
            lemma_todo_absent(self@.items, id);
        }
        Err(Error::NotFound)
    }

    /// Applies the supplied fields to the record carrying `id` and bumps its
    /// `updated_at`.  An empty title is rejected before anything changes;
    /// the identifier cannot be patched.
    pub fn update(&mut self, id: u64, patch: &TodoPatch, now: u64) -> (r: Result<Todo, Error>)
        requires
            todo_store_wf(old(self)@),
        ensures
            todo_store_wf(final(self)@),
            final(self)@.next_id == old(self)@.next_id,
            (patch@.title matches Some(t) && t.len() == 0) ==> {
                &&& r matches Err(Error::Validation)
                &&& final(self)@ == old(self)@
            },
            !(patch@.title matches Some(t) && t.len() == 0) && !todo_contains(
                old(self)@.items,
                id,
            ) ==> {
                &&& r matches Err(Error::NotFound)
                &&& final(self)@ == old(self)@
            },
            !(patch@.title matches Some(t) && t.len() == 0) && todo_contains(
                old(self)@.items,
                id,
            ) ==> {
                &&& r matches Ok(t)
                &&& t@ == todo_apply_patch(todo_lookup(old(self)@.items, id), patch@, now)
                &&& final(self)@.items == old(self)@.items.update(
                    todo_index_of(old(self)@.items, id),
                    t@,
                )
            },
    {
        match &patch.title {
            Some(t) => {
                if t.as_str().is_empty() {
                    return Err(Error::Validation);
                }
            },
            None => {},
        }
        let mut i: usize = 0;
        while i < self.items.len()
            invariant
                i <= self.items.len(),
                self@ == old(self)@,
                todo_store_wf(old(self)@),
                !(patch@.title matches Some(t) && t.len() == 0),
                forall|k: int| 0 <= k < i ==> self@.items[k].id != id,
            decreases self.items.len() - i,
        {
            if self.items[i].id == id {
                proof {
                    lemma_todo_found_at(self@.items, id, i as int);
                }
                let old_rec = &self.items[i];
                let updated = Todo {
                    id: old_rec.id,
                    title: match &patch.title {
                        Some(t) => t.clone(),
                        None => old_rec.title.clone(),
                    },
                    completed: match patch.completed {
                        Some(c) => c,
                        None => old_rec.completed,
                    },
                    created_at: old_rec.created_at,
                    updated_at: now,
                    origin_plan_id: old_rec.origin_plan_id,
                };
                let out = updated.clone();
                self.items.remove(i);
                self.items.insert(i, updated);
                proof {
                    assert(out@ == todo_apply_patch(
                        todo_lookup(old(self)@.items, id),
                        patch@,
                        now,
                    ));
                    old(self)@.items.remove_ensures(i as int);
                    assert(self@.items =~= old(self)@.items.update(i as int, out@));
                    assert forall|a: int, b: int|
                        0 <= a < b < self@.items.len() implies self@.items[a].id
                        != self@.items[b].id by {
                        assert(self@.items[a].id == old(self)@.items[a].id);
                        assert(self@.items[b].id == old(self)@.items[b].id);
                    }
                }
                return Ok(out);
            }
            i = i + 1;
        }
        proof {
            lemma_todo_absent(self@.items, id);
        }
        Err(Error::NotFound)
    }

    /// Removes the record carrying `id`; `NotFound` exactly when no record
    /// does.  The counter is untouched, so the removed identifier is never
    /// issued again.
    pub fn delete(&mut self, id: u64) -> (r: Result<(), Error>)
        requires
            todo_store_wf(old(self)@),
        ensures
            todo_store_wf(final(self)@),
            final(self)@.next_id == old(self)@.next_id,
            !todo_contains(old(self)@.items, id) ==> {
                &&& r matches Err(Error::NotFound)
                &&& final(self)@ == old(self)@
            },
            todo_contains(old(self)@.items, id) ==> {
                &&& r matches Ok(u)
                &&& final(self)@.items == old(self)@.items.remove(
                    todo_index_of(old(self)@.items, id),
                )
            },
    {
        let mut i: usize = 0;
        while i < self.items.len()
            invariant
                i <= self.items.len(),
                self@ == old(self)@,
                todo_store_wf(old(self)@),
                forall|k: int| 0 <= k < i ==> self@.items[k].id != id,
            decreases self.items.len() - i,
        {
            if self.items[i].id == id {
                proof {
                    lemma_todo_found_at(self@.items, id, i as int);
                }
                self.items.remove(i);
                proof {
                    old(self)@.items.remove_ensures(i as int);
                    assert(self@.items =~= old(self)@.items.remove(i as int));
                    assert forall|a: int, b: int|
                        0 <= a < b < self@.items.len() implies self@.items[a].id
                        != self@.items[b].id by {
                        old(self)@.items.remove_ensures(i as int);
                    }
                }
                return Ok(());
            }
            i = i + 1;
        }
        proof {
            lemma_todo_absent(self@.items, id);
        }
        Err(Error::NotFound)
    }
}

/// The plan collection together with its identifier counter.
pub struct PlanStore {
    pub next_id: u64,
    pub items: Vec<Plan>,
}

#[verifier::ext_equal]
pub ghost struct PlanStoreView {
    pub next_id: u64,
    pub items: Seq<PlanView>,
}

impl View for PlanStore {
    type V = PlanStoreView;

    open spec fn view(&self) -> PlanStoreView {
        PlanStoreView { next_id: self.next_id, items: self.items@.map_values(|p: Plan| p@) }
    }
}

/// Well-formedness of a plan collection: identifiers are pairwise distinct
/// and below the counter, and every title is non-empty.
pub open spec fn plan_store_wf(s: PlanStoreView) -> bool {
    &&& forall|i: int, j: int| 0 <= i < j < s.items.len() ==> s.items[i].id != s.items[j].id
    &&& forall|i: int| 0 <= i < s.items.len() ==> s.items[i].id < s.next_id
    &&& forall|i: int| 0 <= i < s.items.len() ==> s.items[i].title.len() > 0
}

/// Whether some plan of the collection carries `id`.
pub open spec fn plan_contains(items: Seq<PlanView>, id: u64) -> bool {
    exists|i: int| 0 <= i < items.len() && items[i].id == id
}

/// The index of the plan carrying `id` (meaningful when present and the
/// identifiers are distinct).
pub open spec fn plan_index_of(items: Seq<PlanView>, id: u64) -> int {
    choose|i: int| 0 <= i < items.len() && items[i].id == id
}

/// The plan carrying `id` (meaningful only when present).
pub open spec fn plan_lookup(items: Seq<PlanView>, id: u64) -> PlanView {
    items[plan_index_of(items, id)]
}

/// In a collection with distinct identifiers, a plan found at `i` is the
/// plan `id` names.
pub proof fn lemma_plan_found_at(items: Seq<PlanView>, id: u64, i: int)
    requires
        forall|a: int, b: int| 0 <= a < b < items.len() ==> items[a].id != items[b].id,
        0 <= i < items.len(),
        items[i].id == id,
    ensures
        plan_contains(items, id),
        plan_index_of(items, id) == i,
{
    assert(plan_contains(items, id));
    let j = plan_index_of(items, id);
    if j < i {
        assert(items[j].id != items[i].id);
    } else if j > i {
        assert(items[i].id != items[j].id);
    }
}

/// A collection in which no plan carries `id` does not contain `id`.
pub proof fn lemma_plan_absent(items: Seq<PlanView>, id: u64)
    requires
        forall|k: int| 0 <= k < items.len() ==> items[k].id != id,
    ensures
        !plan_contains(items, id),
{
    if plan_contains(items, id) {
        let j = choose|j: int| 0 <= j < items.len() && items[j].id == id;
        assert(items[j].id != id);
    }
}

/// The plan-store counterpart of the freshness law: the identifier the next
/// creation assigns differs from every identifier any plan carries.
pub proof fn lemma_plan_fresh_id_never_reused(s: PlanStoreView)
    requires
        plan_store_wf(s),
    ensures
        !plan_contains(s.items, s.next_id),
        forall|i: int| 0 <= i < s.items.len() ==> s.items[i].id != s.next_id,
{
    lemma_plan_absent(s.items, s.next_id);
}

/// The plan-store counterpart: after a delete, a lookup of the same
/// identifier finds nothing.
pub proof fn lemma_plan_deleted_id_not_found(items: Seq<PlanView>, id: u64)
    requires
        forall|a: int, b: int| 0 <= a < b < items.len() ==> items[a].id != items[b].id,
        plan_contains(items, id),
    ensures
        !plan_contains(items.remove(plan_index_of(items, id)), id),
{
    let at = plan_index_of(items, id);
    assert(0 <= at < items.len() && items[at].id == id);
    let rest = items.remove(at);
    items.remove_ensures(at);
    assert forall|k: int| 0 <= k < rest.len() implies rest[k].id != id by {
        if k < at {
            assert(rest[k] == items[k]);
        } else {
            assert(rest[k] == items[k + 1]);
        }
    }
    lemma_plan_absent(rest, id);
}

impl PlanStore {
    /// The empty store: no plans, counter at zero.
    pub fn new() -> (r: PlanStore)
        ensures
            r@ == (PlanStoreView { next_id: 0, items: Seq::<PlanView>::empty() }),
            plan_store_wf(r@),
    {
        let r = PlanStore { next_id: 0, items: Vec::new() };
        proof {
            assert(r@.items =~= Seq::<PlanView>::empty());
        }
        r
    }

    /// Validates the title, assigns the next identifier, stamps both
    /// timestamps with `now`, and appends the plan.  A new plan has seen no
    /// occurrence yet, so `last_refreshed_at` starts at `now`: occurrences
    /// become due only after creation.
    pub fn create(
        &mut self,
        title: String,
        description: String,
        schedule: crate::model::Schedule,
        now: u64,
    ) -> (r: Result<Plan, Error>)
        requires
            plan_store_wf(old(self)@),
            old(self)@.next_id < u64::MAX,
        ensures
            plan_store_wf(final(self)@),
            final(self)@.next_id >= old(self)@.next_id,
            title@.len() == 0 ==> {
                &&& r matches Err(Error::Validation)
                &&& final(self)@ == old(self)@
            },
            title@.len() > 0 ==> {
                &&& r matches Ok(p)
                &&& p@ == (PlanView {
                    id: old(self)@.next_id,
                    title: title@,
                    description: description@,
                    schedule,
                    last_refreshed_at: now,
                    created_at: now,
                    updated_at: now,
                })
                &&& final(self)@.items == old(self)@.items.push(p@)
                &&& final(self)@.next_id == old(self)@.next_id + 1
            },
    {
        if title.as_str().is_empty() {
            return Err(Error::Validation);
        }
        let p = Plan {
            id: self.next_id,
            title,
            description,
            schedule,
            last_refreshed_at: now,
            created_at: now,
            updated_at: now,
        };
        let out = p.clone();
        self.items.push(p);
        self.next_id = self.next_id + 1;
        proof {
            assert(self@.items =~= old(self)@.items.push(out@));
        }
        Ok(out)
    }

    /// A snapshot of the collection in stored order; no side effect.
    pub fn list(&self) -> (r: Vec<Plan>)
        ensures
            r@.map_values(|p: Plan| p@) == self@.items,
    {
        let mut out: Vec<Plan> = Vec::new();
        let mut i: usize = 0;
        while i < self.items.len()
            invariant
                i <= self.items.len(),
                out@.len() == i,
                forall|k: int| 0 <= k < i ==> out@[k]@ == self@.items[k],
            decreases self.items.len() - i,
        {
            out.push(self.items[i].clone());
            i = i + 1;
        }
        proof {
            assert(out@.map_values(|p: Plan| p@) =~= self@.items);
        }
        out
    }

    /// The plan carrying `id`; `NotFound` exactly when no plan does.
    pub fn get(&self, id: u64) -> (r: Result<Plan, Error>)
        requires
            plan_store_wf(self@),
        ensures
            plan_contains(self@.items, id) ==> {
                &&& r matches Ok(p)
                &&& p@ == plan_lookup(self@.items, id)
            },
            !plan_contains(self@.items, id) ==> r matches Err(Error::NotFound),
    {
        let mut i: usize = 0;
        while i < self.items.len()
            invariant
                i <= self.items.len(),
                plan_store_wf(self@),
                forall|k: int| 0 <= k < i ==> self@.items[k].id != id,
            decreases self.items.len() - i,
        {
            if self.items[i].id == id {
                proof {
                    lemma_plan_found_at(self@.items, id, i as int);
                }
                return Ok(self.items[i].clone());
            }
            i = i + 1;
        }
        proof {
            lemma_plan_absent(self@.items, id);
        }
        Err(Error::NotFound)
    }

    /// Applies the supplied fields to the plan carrying `id` and bumps its
    /// `updated_at`.  An empty title is rejected before anything changes;
    /// neither the identifier nor `last_refreshed_at` can be patched.
    pub fn update(&mut self, id: u64, patch: &PlanPatch, now: u64) -> (r: Result<Plan, Error>)
        requires
            plan_store_wf(old(self)@),
        ensures
            plan_store_wf(final(self)@),
            final(self)@.next_id == old(self)@.next_id,
            (patch@.title matches Some(t) && t.len() == 0) ==> {
                &&& r matches Err(Error::Validation)
                &&& final(self)@ == old(self)@
            },
            !(patch@.title matches Some(t) && t.len() == 0) && !plan_contains(
                old(self)@.items,
                id,
            ) ==> {
                &&& r matches Err(Error::NotFound)
                &&& final(self)@ == old(self)@
            },
            !(patch@.title matches Some(t) && t.len() == 0) && plan_contains(
                old(self)@.items,
                id,
            ) ==> {
                &&& r matches Ok(p)
                &&& p@ == plan_apply_patch(plan_lookup(old(self)@.items, id), patch@, now)
                &&& final(self)@.items == old(self)@.items.update(
                    plan_index_of(old(self)@.items, id),
                    p@,
                )
            },
    {
        match &patch.title {
            Some(t) => {
                if t.as_str().is_empty() {
                    return Err(Error::Validation);
                }
            },
            None => {},
        }
        let mut i: usize = 0;
        while i < self.items.len()
            invariant
                i <= self.items.len(),
                self@ == old(self)@,
                plan_store_wf(old(self)@),
                !(patch@.title matches Some(t) && t.len() == 0),
                forall|k: int| 0 <= k < i ==> self@.items[k].id != id,
            decreases self.items.len() - i,
        {
            if self.items[i].id == id {
                proof {
                    lemma_plan_found_at(self@.items, id, i as int);
                }
                let old_rec = &self.items[i];
                let updated = Plan {
                    id: old_rec.id,
                    title: match &patch.title {
                        Some(t) => t.clone(),
                        None => old_rec.title.clone(),
                    },
                    description: match &patch.description {
                        Some(d) => d.clone(),
                        None => old_rec.description.clone(),
                    },
                    schedule: match patch.schedule {
                        Some(s) => s,
                        None => old_rec.schedule,
                    },
                    last_refreshed_at: old_rec.last_refreshed_at,
                    created_at: old_rec.created_at,
                    updated_at: now,
                };
                let out = updated.clone();
                self.items.remove(i);
                self.items.insert(i, updated);
                proof {
                    assert(out@ == plan_apply_patch(
                        plan_lookup(old(self)@.items, id),
                        patch@,
                        now,
                    ));
                    old(self)@.items.remove_ensures(i as int);
                    assert(self@.items =~= old(self)@.items.update(i as int, out@));
                    assert forall|a: int, b: int|
                        0 <= a < b < self@.items.len() implies self@.items[a].id
                        != self@.items[b].id by {
                        assert(self@.items[a].id == old(self)@.items[a].id);
                        assert(self@.items[b].id == old(self)@.items[b].id);
                    }
                }
                return Ok(out);
            }
            i = i + 1;
        }
        proof {
            lemma_plan_absent(self@.items, id);
        }
        Err(Error::NotFound)
    }

    /// Removes the plan carrying `id`; `NotFound` exactly when no plan does.
    /// The counter is untouched, so the removed identifier is never issued
    /// again.  Todos the plan generated keep their weak back-reference.
    pub fn delete(&mut self, id: u64) -> (r: Result<(), Error>)
        requires
            plan_store_wf(old(self)@),
        ensures
            plan_store_wf(final(self)@),
            final(self)@.next_id == old(self)@.next_id,
            !plan_contains(old(self)@.items, id) ==> {
                &&& r matches Err(Error::NotFound)
                &&& final(self)@ == old(self)@
            },
            plan_contains(old(self)@.items, id) ==> {
                &&& r matches Ok(u)
                &&& final(self)@.items == old(self)@.items.remove(
                    plan_index_of(old(self)@.items, id),
                )
            },
    {
        let mut i: usize = 0;
        while i < self.items.len()
            invariant
                i <= self.items.len(),
                self@ == old(self)@,
                plan_store_wf(old(self)@),
                forall|k: int| 0 <= k < i ==> self@.items[k].id != id,
            decreases self.items.len() - i,
        {
            if self.items[i].id == id {
                proof {
                    lemma_plan_found_at(self@.items, id, i as int);
                }
                self.items.remove(i);
                proof {
                    old(self)@.items.remove_ensures(i as int);
                    assert(self@.items =~= old(self)@.items.remove(i as int));
                    assert forall|a: int, b: int|
                        0 <= a < b < self@.items.len() implies self@.items[a].id
                        != self@.items[b].id by {
                        old(self)@.items.remove_ensures(i as int);
                    }
                }
                return Ok(());
            }
            i = i + 1;
        }
        proof {
            lemma_plan_absent(self@.items, id);
        }
        Err(Error::NotFound)
    }
}

} // verus!
