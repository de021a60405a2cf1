//! Record types of the data layer and their mathematical views.

use vstd::prelude::*;

verus! {

/// Errors reported by the data layer: bad input shape, or a reference to an
/// identifier that no record carries.  Disk failures are the persistence
/// shell's concern and never arise in this layer.
#[derive(Clone, Copy, Debug, PartialEq, Eq, Structural)]
pub enum Error {
    Validation,
    NotFound,
}

/// A single task.  `id` is assigned by the store at creation and never
/// changes; `origin_plan_id` is a non-owning back-reference to the plan that
/// generated this todo, if any.
#[derive(Debug)]
pub struct Todo {
    pub id: u64,
    pub title: String,
    pub completed: bool,
    pub created_at: u64,
    pub updated_at: u64,
    pub origin_plan_id: Option<u64>,
}

/// Mathematical view of a `Todo`: the same fields with the title as a
/// sequence of characters.
#[verifier::ext_equal]
pub ghost struct TodoView {
    pub id: u64,
    pub title: Seq<char>,
    pub completed: bool,
    pub created_at: u64,
    pub updated_at: u64,
    pub origin_plan_id: Option<u64>,
}

impl View for Todo {
    type V = TodoView;

    open spec fn view(&self) -> TodoView {
        TodoView {
            id: self.id,
            title: self.title@,
            completed: self.completed,
            created_at: self.created_at,
            updated_at: self.updated_at,
            origin_plan_id: self.origin_plan_id,
        }
    }
}

impl Clone for Todo {
    fn clone(&self) -> (r: Self)
        ensures
            r@ == self@,
    {
        Todo {
            id: self.id,
            title: self.title.clone(),
            completed: self.completed,
            created_at: self.created_at,
            updated_at: self.updated_at,
            origin_plan_id: self.origin_plan_id,
        }
    }
}

/// The fields of a todo that an update may supply; a `None` field is left
/// unchanged.
pub struct TodoPatch {
    pub title: Option<String>,
    pub completed: Option<bool>,
}

#[verifier::ext_equal]
pub ghost struct TodoPatchView {
    pub title: Option<Seq<char>>,
    pub completed: Option<bool>,
}

impl View for TodoPatch {
    type V = TodoPatchView;

    open spec fn view(&self) -> TodoPatchView {
        TodoPatchView {
            title: match self.title {
                Some(t) => Some(t@),
                None => None,
            },
            completed: self.completed,
        }
    }
}

/// A recurrence rule.  `Interval(n)` is due every `n` ticks; an interval of
/// zero yields no occurrence ever and is treated as malformed.
#[derive(Clone, Copy, Debug, PartialEq, Eq, Structural)]
pub enum Schedule {
    Daily,
    Weekly,
    Interval(u64),
}

/// A recurring plan.  `last_refreshed_at` is the latest occurrence the
/// refresh engine has materialized; it never decreases.
#[derive(Debug)]
pub struct Plan {
    pub id: u64,
    pub title: String,
    pub description: String,
    pub schedule: Schedule,
    pub last_refreshed_at: u64,
    pub created_at: u64,
    pub updated_at: u64,
}

#[verifier::ext_equal]
pub ghost struct PlanView {
    pub id: u64,
    pub title: Seq<char>,
    pub description: Seq<char>,
    pub schedule: Schedule,
    pub last_refreshed_at: u64,
    pub created_at: u64,
    pub updated_at: u64,
}

impl View for Plan {
    type V = PlanView;

    open spec fn view(&self) -> PlanView {
        PlanView {
            id: self.id,
            title: self.title@,
            description: self.description@,
            schedule: self.schedule,
            last_refreshed_at: self.last_refreshed_at,
            created_at: self.created_at,
            updated_at: self.updated_at,
        }
    }
}

impl Clone for Plan {
    fn clone(&self) -> (r: Self)
        ensures
            r@ == self@,
    {
        Plan {
            id: self.id,
            title: self.title.clone(),
            description: self.description.clone(),
            schedule: self.schedule,
            last_refreshed_at: self.last_refreshed_at,
            created_at: self.created_at,
            updated_at: self.updated_at,
        }
    }
}

/// The fields of a plan that an update may supply; a `None` field is left
/// unchanged.  `last_refreshed_at` belongs to the refresh engine and cannot
/// be patched.
pub struct PlanPatch {
    pub title: Option<String>,
    pub description: Option<String>,
    pub schedule: Option<Schedule>,
}

#[verifier::ext_equal]
pub ghost struct PlanPatchView {
    pub title: Option<Seq<char>>,
    pub description: Option<Seq<char>>,
    pub schedule: Option<Schedule>,
}

impl View for PlanPatch {
    type V = PlanPatchView;

    open spec fn view(&self) -> PlanPatchView {
        PlanPatchView {
            title: match self.title {
                Some(t) => Some(t@),
                None => None,
            },
            description: match self.description {
                Some(d) => Some(d@),
                None => None,
            },
            schedule: self.schedule,
        }
    }
}

/// Which collection a history entry refers back to.
#[derive(Clone, Copy, Debug, PartialEq, Eq, Structural)]
pub enum SubjectKind {
    Todo,
    Plan,
}

/// What happened: a todo was completed, or a plan occurrence was realized.
#[derive(Clone, Copy, Debug, PartialEq, Eq, Structural)]
pub enum EventKind {
    Completed,
    Generated,
}

/// One entry of the append-only history ledger.  `subject_id` is a weak
/// reference: the record it names may be deleted later without invalidating
/// the entry.
#[derive(Clone, Copy, Debug, PartialEq, Eq, Structural)]
pub struct HistoryEntry {
    pub id: u64,
    pub subject_kind: SubjectKind,
    pub subject_id: u64,
    pub event: EventKind,
    pub occurred_at: u64,
}

/// The record that results from applying a patch to a todo at time `now`:
/// supplied fields replace the old ones, `updated_at` is bumped, everything
/// else — in particular the identifier — is untouched.
pub open spec fn todo_apply_patch(t: TodoView, p: TodoPatchView, now: u64) -> TodoView {
    TodoView {
        id: t.id,
        title: match p.title {
            Some(s) => s,
            None => t.title,
        },
        completed: match p.completed {
            Some(c) => c,
            None => t.completed,
        },
        created_at: t.created_at,
        updated_at: now,
        origin_plan_id: t.origin_plan_id,
    }
}

/// The record that results from applying a patch to a plan at time `now`.
pub open spec fn plan_apply_patch(t: PlanView, p: PlanPatchView, now: u64) -> PlanView {
    PlanView {
        id: t.id,
        title: match p.title {
            Some(s) => s,
            None => t.title,
        },
        description: match p.description {
            Some(s) => s,
            None => t.description,
        },
        schedule: match p.schedule {
            Some(s) => s,
            None => t.schedule,
        },
        last_refreshed_at: t.last_refreshed_at,
        created_at: t.created_at,
        updated_at: now,
    }
}

/// An empty patch touches `updated_at` and nothing else: applying a patch
/// with no supplied field yields the same record with only `updated_at`
/// replaced by `now`.
pub proof fn lemma_empty_todo_patch_only_bumps_updated_at(t: TodoView, p: TodoPatchView, now: u64)
    requires
        p.title is None,
        p.completed is None,
    ensures
        todo_apply_patch(t, p, now) == (TodoView { updated_at: now, ..t }),
{
}

/// The plan-store counterpart: an empty patch changes `updated_at` alone.
pub proof fn lemma_empty_plan_patch_only_bumps_updated_at(t: PlanView, p: PlanPatchView, now: u64)
    requires
        p.title is None,
        p.description is None,
        p.schedule is None,
    ensures
        plan_apply_patch(t, p, now) == (PlanView { updated_at: now, ..t }),
{
}

} // verus!
