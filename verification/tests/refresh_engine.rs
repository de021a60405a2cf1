use eztodo::model::{EventKind, Schedule, SubjectKind};
use eztodo::refresh::{step_of, DAY_TICKS, WEEK_TICKS};
use eztodo::surface::AppState;

#[test]
fn schedule_steps_are_exact() {
    assert_eq!(step_of(Schedule::Daily), 86400000);
    assert_eq!(step_of(Schedule::Weekly), 604800000);
    assert_eq!(step_of(Schedule::Interval(12345)), 12345);
    assert_eq!(DAY_TICKS * 7, WEEK_TICKS);
}

#[test]
fn daily_plan_two_days_behind_produces_two_occurrences() {
    let n: u64 = 10;
    let mut st = AppState::new();
    let plan = st
        .plan_create(
            String::from("water plants"),
            String::from("daily chore"),
            Schedule::Daily,
            (n - 2) * DAY_TICKS,
        )
        .unwrap();
    let report = st.plan_refresh(n * DAY_TICKS);
    assert_eq!(report.created, 2);
    assert!(report.skipped.is_empty());

    let todos = st.todo_list();
    assert_eq!(todos.len(), 2);
    for t in &todos {
        assert_eq!(t.title, "water plants");
        assert_eq!(t.origin_plan_id, Some(plan.id));
        assert!(!t.completed);
    }
    assert_ne!(todos[0].id, todos[1].id);

    let hist = st.history_list();
    assert_eq!(hist.len(), 2);
    assert_eq!(hist[0].event, EventKind::Generated);
    assert_eq!(hist[0].subject_kind, SubjectKind::Plan);
    assert_eq!(hist[0].subject_id, plan.id);
    assert_eq!(hist[0].occurred_at, (n - 1) * DAY_TICKS);
    assert_eq!(hist[1].occurred_at, n * DAY_TICKS);

    let refreshed = st.plan_get(plan.id).unwrap();
    assert_eq!(refreshed.last_refreshed_at, n * DAY_TICKS);
}

#[test]
fn refresh_twice_without_clock_advance_adds_nothing() {
    let mut st = AppState::new();
    st.plan_create(String::from("p"), String::new(), Schedule::Daily, 2 * DAY_TICKS).unwrap();
    let now = 5 * DAY_TICKS;
    let first = st.plan_refresh(now);
    assert_eq!(first.created, 3);
    let count_after_first = st.todo_list().len();
    let second = st.plan_refresh(now);
    assert_eq!(second.created, 0);
    assert_eq!(st.todo_list().len(), count_after_first);
    assert_eq!(st.history_list().len(), 3);
}

#[test]
fn interval_schedule_counts_whole_steps_only() {
    let mut st = AppState::new();
    st.plan_create(String::from("tick"), String::new(), Schedule::Interval(10), 100).unwrap();
    let report = st.plan_refresh(125);
    assert_eq!(report.created, 2);
    let hist = st.history_list();
    assert_eq!(hist[0].occurred_at, 110);
    assert_eq!(hist[1].occurred_at, 120);
    let p = st.plan_get(0).unwrap();
    assert_eq!(p.last_refreshed_at, 120);
}

#[test]
fn malformed_rule_is_skipped_and_reported() {
    let mut st = AppState::new();
    let good = st.plan_create(String::from("ok"), String::new(), Schedule::Daily, 0).unwrap();
    let bad = st.plan_create(String::from("never"), String::new(), Schedule::Interval(0), 0)
        .unwrap();
    let report = st.plan_refresh(DAY_TICKS);
    assert_eq!(report.created, 1);
    assert_eq!(report.skipped, vec![bad.id]);
    assert_ne!(good.id, bad.id);
    assert_eq!(st.plan_get(bad.id).unwrap().last_refreshed_at, 0);
}

#[test]
fn refresh_before_any_occurrence_is_due_creates_nothing() {
    let mut st = AppState::new();
    st.plan_create(String::from("p"), String::new(), Schedule::Weekly, 1000).unwrap();
    let report = st.plan_refresh(1000 + WEEK_TICKS - 1);
    assert_eq!(report.created, 0);
    assert_eq!(st.todo_list().len(), 0);
}

#[test]
fn count_due_matches_what_refresh_creates() {
    let mut st = AppState::new();
    st.plan_create(String::from("a"), String::new(), Schedule::Daily, 0).unwrap();
    st.plan_create(String::from("b"), String::new(), Schedule::Interval(0), 0).unwrap();
    st.plan_create(String::from("c"), String::new(), Schedule::Interval(DAY_TICKS / 2), 0)
        .unwrap();
    let now = 3 * DAY_TICKS;
    let due = st.count_due(now).unwrap();
    let report = st.plan_refresh(now);
    assert_eq!(report.created, due);
    assert_eq!(due, 3 + 6);
}

#[test]
fn generated_todos_survive_plan_deletion() {
    let mut st = AppState::new();
    let plan = st.plan_create(String::from("p"), String::new(), Schedule::Daily, 0).unwrap();
    st.plan_refresh(DAY_TICKS);
    st.plan_delete(plan.id).unwrap();
    let todos = st.todo_list();
    assert_eq!(todos.len(), 1);
    assert_eq!(todos[0].origin_plan_id, Some(plan.id));
    assert_eq!(st.history_list().len(), 1);
}
