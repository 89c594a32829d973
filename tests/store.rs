use todo_list::{Task, TaskStore, TodoError};

fn s(x: &str) -> String {
    x.to_string()
}

#[test]
fn new_task_is_pending() {
    let t = Task::new(s("Read"), 2, s("05-06-2025"));
    assert_eq!(t.description, "Read");
    assert_eq!(t.priority, 2);
    assert_eq!(t.deadline, "05-06-2025");
    assert!(!t.completed);
}

#[test]
fn task_complete_sets_flag() {
    let mut t = Task::new(s("Read"), 2, s("05-06-2025"));
    t.complete();
    assert!(t.completed);
    assert_eq!(t.description, "Read");
}

#[test]
fn add_hands_out_increasing_ids() {
    let mut st = TaskStore::new();
    assert_eq!(st.add(s("a"), 1, s("01-01-2025")), Ok(1));
    assert_eq!(st.add(s("b"), 2, s("02-01-2025")), Ok(2));
    assert_eq!(st.len(), 2);
    assert_eq!(st.next_id(), 3);
}

#[test]
fn add_duplicate_description_fails() {
    let mut st = TaskStore::new();
    st.add(s("X"), 1, s("01-01-2025")).unwrap();
    assert_eq!(st.add(s("X"), 5, s("31-12-2030")), Err(TodoError::DuplicateDescription));
    assert_eq!(st.add(s("X"), 1, s("01-01-2025")), Err(TodoError::DuplicateDescription));
    assert_eq!(st.len(), 1);
}

#[test]
fn buy_milk_twice_keeps_first() {
    let mut st = TaskStore::new();
    assert!(st.add(s("Buy milk"), 3, s("01-12-2025")).is_ok());
    assert_eq!(st.add(s("Buy milk"), 2, s("02-12-2025")), Err(TodoError::DuplicateDescription));
    assert_eq!(st.len(), 1);
    let (pending, completed) = st.list();
    assert_eq!(pending.len(), 1);
    assert!(completed.is_empty());
    assert_eq!(pending[0].1.priority, 3);
    assert_eq!(pending[0].1.deadline, "01-12-2025");
}

#[test]
fn complete_on_empty_store_is_not_found() {
    let mut st = TaskStore::new();
    assert_eq!(st.complete(1), Err(TodoError::NotFound));
}

#[test]
fn complete_absent_id_is_not_found() {
    let mut st = TaskStore::new();
    st.add(s("a"), 1, s("01-01-2025")).unwrap();
    assert_eq!(st.complete(2), Err(TodoError::NotFound));
    assert_eq!(st.complete(0), Err(TodoError::NotFound));
}

#[test]
fn complete_twice_is_harmless() {
    let mut st = TaskStore::new();
    let id = st.add(s("a"), 1, s("01-01-2025")).unwrap();
    assert_eq!(st.complete(id), Ok(()));
    assert_eq!(st.complete(id), Ok(()));
    let (pending, completed) = st.list();
    assert!(pending.is_empty());
    assert_eq!(completed.len(), 1);
    assert_eq!(completed[0].0, id);
    assert!(completed[0].1.completed);
}

#[test]
fn list_on_empty_store_is_empty() {
    let st = TaskStore::new();
    let (pending, completed) = st.list();
    assert!(pending.is_empty());
    assert!(completed.is_empty());
}

#[test]
fn list_partitions_by_status() {
    let mut st = TaskStore::new();
    st.add(s("a"), 1, s("01-01-2025")).unwrap();
    st.add(s("b"), 2, s("02-01-2025")).unwrap();
    st.add(s("c"), 3, s("03-01-2025")).unwrap();
    st.complete(2).unwrap();
    let (pending, completed) = st.list();
    let p: Vec<usize> = pending.iter().map(|e| e.0).collect();
    let c: Vec<usize> = completed.iter().map(|e| e.0).collect();
    assert_eq!(p, vec![1, 3]);
    assert_eq!(c, vec![2]);
}

#[test]
fn clear_keeps_counter() {
    let mut st = TaskStore::new();
    st.add(s("a"), 1, s("01-01-2025")).unwrap();
    st.add(s("b"), 1, s("01-01-2025")).unwrap();
    st.clear();
    assert!(st.is_empty());
    assert_eq!(st.add(s("a"), 1, s("01-01-2025")), Ok(3));
}

#[test]
fn replace_keeps_larger_counter() {
    let mut st = TaskStore::new();
    for d in ["a", "b", "c"] {
        st.add(s(d), 1, s("01-01-2025")).unwrap();
    }
    let mut other = TaskStore::new();
    other.add(s("z"), 4, s("01-01-2025")).unwrap();
    st.replace(other);
    assert_eq!(st.len(), 1);
    assert_eq!(st.next_id(), 4);
    assert!(st.contains_description(&s("z")));
    assert!(!st.contains_description(&s("a")));
}

#[test]
fn from_tasks_numbers_from_one() {
    let st = TaskStore::from_tasks(vec![
        Task::new(s("a"), 1, s("x")),
        Task::new(s("b"), 2, s("y")),
    ]);
    let ids: Vec<usize> = st.entries_vec().iter().map(|e| e.0).collect();
    assert_eq!(ids, vec![1, 2]);
    assert_eq!(st.next_id(), 3);
}
