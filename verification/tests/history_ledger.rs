use eztodo::model::{EventKind, Schedule, SubjectKind, TodoPatch};
use eztodo::refresh::DAY_TICKS;
use eztodo::surface::AppState;

#[test]
fn completing_a_todo_appends_exactly_one_entry() {
    let mut st = AppState::new();
    let t = st.todo_create(String::from("do it"), 10).unwrap();
    let patch = TodoPatch { title: None, completed: Some(true) };
    st.todo_update(t.id, &patch, 20).unwrap();
    let hist = st.history_list();
    assert_eq!(hist.len(), 1);
    assert_eq!(hist[0].event, EventKind::Completed);
    assert_eq!(hist[0].subject_kind, SubjectKind::Todo);
    assert_eq!(hist[0].subject_id, t.id);
    assert_eq!(hist[0].occurred_at, 20);
}

#[test]
fn completing_an_already_completed_todo_adds_no_entry() {
    let mut st = AppState::new();
    let t = st.todo_create(String::from("done once"), 10).unwrap();
    let patch = TodoPatch { title: None, completed: Some(true) };
    st.todo_update(t.id, &patch, 20).unwrap();
    st.todo_update(t.id, &patch, 30).unwrap();
    assert_eq!(st.history_list().len(), 1);
}

#[test]
fn reopening_a_todo_adds_no_entry() {
    let mut st = AppState::new();
    let t = st.todo_create(String::from("flip"), 10).unwrap();
    let done = TodoPatch { title: None, completed: Some(true) };
    let open = TodoPatch { title: None, completed: Some(false) };
    st.todo_update(t.id, &done, 20).unwrap();
    st.todo_update(t.id, &open, 30).unwrap();
    assert_eq!(st.history_list().len(), 1);
}

#[test]
fn history_is_ordered_by_occurred_at_even_across_sources() {
    let mut st = AppState::new();
    // A completion late in time, recorded first.
    let t = st.todo_create(String::from("late completion"), 3 * DAY_TICKS).unwrap();
    let patch = TodoPatch { title: None, completed: Some(true) };
    st.todo_update(t.id, &patch, 3 * DAY_TICKS).unwrap();
    // A plan whose occurrences predate it, recorded afterwards.
    st.plan_create(String::from("p"), String::new(), Schedule::Daily, 0).unwrap();
    st.plan_refresh(2 * DAY_TICKS);
    let hist = st.history_list();
    assert_eq!(hist.len(), 3);
    assert_eq!(hist[0].occurred_at, DAY_TICKS);
    assert_eq!(hist[0].event, EventKind::Generated);
    assert_eq!(hist[1].occurred_at, 2 * DAY_TICKS);
    assert_eq!(hist[2].occurred_at, 3 * DAY_TICKS);
    assert_eq!(hist[2].event, EventKind::Completed);
    for i in 1..hist.len() {
        assert!(hist[i - 1].occurred_at <= hist[i].occurred_at);
    }
}

#[test]
fn ties_keep_insertion_order() {
    let mut st = AppState::new();
    let a = st.todo_create(String::from("a"), 5).unwrap();
    let b = st.todo_create(String::from("b"), 5).unwrap();
    let patch = TodoPatch { title: None, completed: Some(true) };
    st.todo_update(a.id, &patch, 50).unwrap();
    st.todo_update(b.id, &patch, 50).unwrap();
    let hist = st.history_list();
    assert_eq!(hist.len(), 2);
    assert_eq!(hist[0].subject_id, a.id);
    assert_eq!(hist[1].subject_id, b.id);
    assert!(hist[0].id < hist[1].id);
}

#[test]
fn history_entry_ids_are_distinct() {
    let mut st = AppState::new();
    st.plan_create(String::from("p"), String::new(), Schedule::Daily, 0).unwrap();
    st.plan_refresh(3 * DAY_TICKS);
    let hist = st.history_list();
    assert_eq!(hist.len(), 3);
    for i in 0..hist.len() {
        for j in (i + 1)..hist.len() {
            assert_ne!(hist[i].id, hist[j].id);
        }
    }
}

#[test]
fn deleting_a_completed_todo_keeps_its_history() {
    let mut st = AppState::new();
    let t = st.todo_create(String::from("ephemeral"), 1).unwrap();
    let patch = TodoPatch { title: None, completed: Some(true) };
    st.todo_update(t.id, &patch, 2).unwrap();
    st.todo_delete(t.id).unwrap();
    let hist = st.history_list();
    assert_eq!(hist.len(), 1);
    assert_eq!(hist[0].subject_id, t.id);
}
