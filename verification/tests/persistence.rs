use eztodo::codec::{plans_from_str, plans_to_string, todos_from_str, todos_to_string};
use eztodo::model::{Error, Schedule, TodoPatch};
use eztodo::surface::AppState;

#[test]
fn todo_round_trip_is_lossless_and_order_preserving() {
    let mut st = AppState::new();
    st.todo_create(String::from("alpha"), 1).unwrap();
    let b = st.todo_create(String::from("beta"), 2).unwrap();
    st.todo_create(String::from("gamma: a task, with punctuation!"), 3).unwrap();
    let patch = TodoPatch { title: None, completed: Some(true) };
    st.todo_update(b.id, &patch, 4).unwrap();
    st.todo_delete(0).unwrap();

    let text = todos_to_string(&st.todos);
    let reloaded = todos_from_str(&text);

    let before = st.todos.list();
    let after = reloaded.list();
    assert_eq!(before.len(), after.len());
    for (x, y) in before.iter().zip(after.iter()) {
        assert_eq!(x.id, y.id);
        assert_eq!(x.title, y.title);
        assert_eq!(x.completed, y.completed);
        assert_eq!(x.created_at, y.created_at);
        assert_eq!(x.updated_at, y.updated_at);
        assert_eq!(x.origin_plan_id, y.origin_plan_id);
    }
    assert_eq!(st.todos.next_id, reloaded.next_id);
}

#[test]
fn plan_round_trip_is_lossless() {
    let mut st = AppState::new();
    st.plan_create(String::from("water plants"), String::from("the green ones"), Schedule::Daily, 7)
        .unwrap();
    st.plan_create(String::from("report"), String::new(), Schedule::Interval(3600000), 8).unwrap();
    st.plan_create(String::from("review"), String::from("weekly sweep"), Schedule::Weekly, 9)
        .unwrap();

    let text = plans_to_string(&st.plans);
    let reloaded = plans_from_str(&text);

    let before = st.plans.list();
    let after = reloaded.list();
    assert_eq!(before.len(), after.len());
    for (x, y) in before.iter().zip(after.iter()) {
        assert_eq!(x.id, y.id);
        assert_eq!(x.title, y.title);
        assert_eq!(x.description, y.description);
        assert_eq!(x.schedule, y.schedule);
        assert_eq!(x.last_refreshed_at, y.last_refreshed_at);
        assert_eq!(x.created_at, y.created_at);
        assert_eq!(x.updated_at, y.updated_at);
    }
    assert_eq!(st.plans.next_id, reloaded.next_id);
}

#[test]
fn identifiers_not_reused_across_reload() {
    let mut st = AppState::new();
    let a = st.todo_create(String::from("a"), 1).unwrap();
    let b = st.todo_create(String::from("b"), 2).unwrap();
    st.todo_delete(b.id).unwrap();
    let text = todos_to_string(&st.todos);
    let mut st2 = AppState::new();
    st2.todos = todos_from_str(&text);
    let c = st2.todo_create(String::from("c"), 3).unwrap();
    assert_ne!(c.id, a.id);
    assert_ne!(c.id, b.id);
}

#[test]
fn corrupt_todo_file_yields_empty_collection() {
    let loaded = todos_from_str("this is not a store file at all");
    assert_eq!(loaded.list().len(), 0);
    assert_eq!(loaded.next_id, 0);
}

#[test]
fn truncated_todo_file_yields_empty_collection() {
    let mut st = AppState::new();
    st.todo_create(String::from("will be cut"), 10).unwrap();
    let text = todos_to_string(&st.todos);
    let cut: String = text.chars().take(text.chars().count() / 2).collect();
    let loaded = todos_from_str(&cut);
    assert_eq!(loaded.list().len(), 0);
    assert_eq!(loaded.next_id, 0);
}

#[test]
fn corrupt_plan_file_yields_empty_collection() {
    let loaded = plans_from_str("\u{0}\u{1}garbage\n\n\n");
    assert_eq!(loaded.list().len(), 0);
    assert_eq!(loaded.next_id, 0);
}

#[test]
fn tampered_file_is_rejected_not_misread() {
    let mut st = AppState::new();
    st.todo_create(String::from("x"), 1).unwrap();
    let text = todos_to_string(&st.todos);
    // flip the record count without touching the rest
    let mut tampered: Vec<char> = text.chars().collect();
    tampered[40] = '9';
    let tampered: String = tampered.into_iter().collect();
    let loaded = todos_from_str(&tampered);
    assert_eq!(loaded.list().len(), 0);
}

#[test]
fn empty_store_encoding_is_exact() {
    let st = AppState::new();
    let text = todos_to_string(&st.todos);
    let zeros = "0".repeat(20);
    assert_eq!(text, format!("{}\n{}\n", zeros, zeros));
}

#[test]
fn single_record_encoding_is_exact() {
    let mut st = AppState::new();
    st.todo_create(String::from("ab"), 5).unwrap();
    let text = todos_to_string(&st.todos);
    let expected = format!(
        "{:020}\n{:020}\n{:020} 0 {:020} {:020} -{:020} {:020}:ab\n",
        1, 1, 0, 5, 5, 0, 2
    );
    assert_eq!(text, expected);
}

#[test]
fn unicode_titles_round_trip() {
    let mut st = AppState::new();
    st.todo_create(String::from("caf\u{e9} \u{1f600} \n newline inside"), 1).unwrap();
    let text = todos_to_string(&st.todos);
    let reloaded = todos_from_str(&text);
    let after = reloaded.list();
    assert_eq!(after.len(), 1);
    assert_eq!(after[0].title, "caf\u{e9} \u{1f600} \n newline inside");
}

#[test]
fn validation_error_reported_distinctly() {
    let mut st = AppState::new();
    assert_eq!(st.todo_create(String::new(), 1).unwrap_err(), Error::Validation);
    assert_eq!(st.todo_get(0).unwrap_err(), Error::NotFound);
}
