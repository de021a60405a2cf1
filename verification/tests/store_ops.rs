use eztodo::model::{Error, TodoPatch};
use eztodo::surface::AppState;

#[test]
fn create_assigns_ids_and_fields() {
    let mut st = AppState::new();
    let t = st.todo_create(String::from("buy milk"), 100).unwrap();
    assert_eq!(t.id, 0);
    assert_eq!(t.title, "buy milk");
    assert!(!t.completed);
    assert_eq!(t.created_at, 100);
    assert_eq!(t.updated_at, 100);
    assert_eq!(t.origin_plan_id, None);
    let all = st.todo_list();
    assert_eq!(all.len(), 1);
    assert_eq!(all[0].id, 0);
}

#[test]
fn create_empty_title_rejected() {
    let mut st = AppState::new();
    let r = st.todo_create(String::new(), 5);
    assert_eq!(r.unwrap_err(), Error::Validation);
    assert_eq!(st.todo_list().len(), 0);
}

#[test]
fn get_missing_not_found() {
    let st = AppState::new();
    assert_eq!(st.todo_get(7).unwrap_err(), Error::NotFound);
}

#[test]
fn update_applies_supplied_fields() {
    let mut st = AppState::new();
    let t = st.todo_create(String::from("a"), 10).unwrap();
    let patch = TodoPatch { title: Some(String::from("b")), completed: Some(true) };
    let u = st.todo_update(t.id, &patch, 20).unwrap();
    assert_eq!(u.title, "b");
    assert!(u.completed);
    assert_eq!(u.created_at, 10);
    assert_eq!(u.updated_at, 20);
    assert_eq!(u.id, t.id);
}

#[test]
fn update_empty_title_rejected() {
    let mut st = AppState::new();
    let t = st.todo_create(String::from("a"), 10).unwrap();
    let patch = TodoPatch { title: Some(String::new()), completed: None };
    assert_eq!(st.todo_update(t.id, &patch, 20).unwrap_err(), Error::Validation);
    let kept = st.todo_get(t.id).unwrap();
    assert_eq!(kept.title, "a");
    assert_eq!(kept.updated_at, 10);
}

#[test]
fn update_missing_not_found() {
    let mut st = AppState::new();
    let patch = TodoPatch { title: None, completed: None };
    assert_eq!(st.todo_update(3, &patch, 20).unwrap_err(), Error::NotFound);
}

#[test]
fn empty_patch_bumps_only_updated_at() {
    let mut st = AppState::new();
    let t = st.todo_create(String::from("stay"), 10).unwrap();
    let patch = TodoPatch { title: None, completed: None };
    let u = st.todo_update(t.id, &patch, 42).unwrap();
    assert_eq!(u.id, t.id);
    assert_eq!(u.title, "stay");
    assert_eq!(u.completed, false);
    assert_eq!(u.created_at, 10);
    assert_eq!(u.origin_plan_id, None);
    assert_eq!(u.updated_at, 42);
}

#[test]
fn delete_then_get_not_found() {
    let mut st = AppState::new();
    let t = st.todo_create(String::from("gone"), 1).unwrap();
    st.todo_delete(t.id).unwrap();
    assert_eq!(st.todo_get(t.id).unwrap_err(), Error::NotFound);
}

#[test]
fn delete_missing_not_found() {
    let mut st = AppState::new();
    assert_eq!(st.todo_delete(9).unwrap_err(), Error::NotFound);
}

#[test]
fn identifiers_never_reused() {
    let mut st = AppState::new();
    let mut issued = Vec::new();
    for i in 0..3 {
        let t = st.todo_create(format!("t{}", i), i).unwrap();
        issued.push(t.id);
    }
    st.todo_delete(issued[0]).unwrap();
    st.todo_delete(issued[2]).unwrap();
    let t = st.todo_create(String::from("late"), 50).unwrap();
    assert!(!issued.contains(&t.id));
    issued.push(t.id);
    let t2 = st.todo_create(String::from("later"), 60).unwrap();
    assert!(!issued.contains(&t2.id));
}

#[test]
fn list_keeps_insertion_order() {
    let mut st = AppState::new();
    st.todo_create(String::from("one"), 1).unwrap();
    st.todo_create(String::from("two"), 2).unwrap();
    st.todo_create(String::from("three"), 3).unwrap();
    st.todo_delete(1).unwrap();
    let titles: Vec<String> = st.todo_list().into_iter().map(|t| t.title).collect();
    assert_eq!(titles, vec![String::from("one"), String::from("three")]);
}
