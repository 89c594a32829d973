use todo_list::{
    decimal, generate_task_list_html, is_valid_deadline, parse, parse_deadline, parse_task_data,
    parse_u32, serialize, CalendarDate, Task, TaskStore, TodoError,
};

fn s(x: &str) -> String {
    x.to_string()
}

fn chars(x: &str) -> Vec<char> {
    x.chars().collect()
}

fn two_pending_one_completed() -> TaskStore {
    let mut st = TaskStore::new();
    st.add(s("a"), 1, s("01-01-2025")).unwrap();
    st.add(s("b"), 2, s("02-01-2025")).unwrap();
    st.add(s("c"), 3, s("03-01-2025")).unwrap();
    st.complete(3).unwrap();
    st
}

#[test]
fn serialize_exact_text() {
    let mut st = TaskStore::new();
    st.add(s("Buy milk"), 3, s("01-12-2025")).unwrap();
    st.add(s("Walk"), 1, s("02-12-2025")).unwrap();
    st.complete(2).unwrap();
    let expected = "============= All TASKS ============\n\
Pending Task Count: 1\n\
----------\n\
Task ID: 1\n\
Description: Buy milk\n\
Priority: 3\n\
Deadline: \"01-12-2025\"\n\
Status: Pending\n\
----------\n\
\n\
Completed Task Count: 1\n\
----------\n\
Task ID: 2\n\
Description: Walk\n\
Priority: 1\n\
Deadline: \"02-12-2025\"\n\
Status: Completed\n\
----------\n\
===================================\n";
    assert_eq!(serialize(&st), expected);
}

#[test]
fn serialize_counts_and_blocks() {
    let text = serialize(&two_pending_one_completed());
    let lines: Vec<&str> = text.lines().collect();
    assert!(lines.contains(&"Pending Task Count: 2"));
    assert!(lines.contains(&"Completed Task Count: 1"));
    let blank = lines.iter().position(|l| l.is_empty()).unwrap();
    let before = lines[..blank].iter().filter(|l| l.starts_with("Task ID: ")).count();
    let after = lines[blank..].iter().filter(|l| l.starts_with("Task ID: ")).count();
    assert_eq!(before, 2);
    assert_eq!(after, 1);
    let rules = lines.iter().filter(|l| **l == "----------").count();
    assert_eq!(rules, 6);
}

#[test]
fn serialize_empty_store() {
    let text = serialize(&TaskStore::new());
    assert_eq!(
        text,
        "============= All TASKS ============\nPending Task Count: 0\n\nCompleted Task Count: 0\n===================================\n"
    );
}

#[test]
fn round_trip_pending_tasks() {
    let mut st = TaskStore::new();
    st.add(s("a"), 1, s("01-01-2025")).unwrap();
    st.add(s("b"), 5, s("02-01-2025")).unwrap();
    let back = parse(&serialize(&st)).unwrap();
    let es = back.entries_vec();
    assert_eq!(es.len(), 2);
    assert_eq!(es[0].0, 1);
    assert_eq!(es[0].1.description, "a");
    assert_eq!(es[0].1.priority, 1);
    assert_eq!(es[0].1.deadline, "\"01-01-2025\"");
    assert_eq!(es[1].1.description, "b");
    assert_eq!(es[1].1.priority, 5);
    assert!(es.iter().all(|e| !e.1.completed));
    assert_eq!(back.next_id(), 3);
}

#[test]
fn round_trip_completed_only() {
    let mut st = TaskStore::new();
    st.add(s("a"), 2, s("01-01-2025")).unwrap();
    st.add(s("b"), 4, s("02-01-2025")).unwrap();
    st.complete(1).unwrap();
    st.complete(2).unwrap();
    let back = parse(&serialize(&st)).unwrap();
    let es = back.entries_vec();
    assert_eq!(es.len(), 2);
    assert_eq!(es[0].1.description, "a");
    assert_eq!(es[0].1.priority, 2);
    assert_eq!(es[1].1.description, "b");
    assert!(es.iter().all(|e| !e.1.completed));
}

#[test]
fn round_trip_mixed_merges_boundary() {
    // the first completed block is read into the last pending one
    let back = parse(&serialize(&two_pending_one_completed())).unwrap();
    let es = back.entries_vec();
    let ds: Vec<&str> = es.iter().map(|e| e.1.description.as_str()).collect();
    assert_eq!(ds, vec!["a", "c"]);
    assert_eq!(es[1].1.priority, 3);
}

#[test]
fn parse_bad_priority_fails() {
    let text = "Task ID: 1\nDescription: a\nPriority: abc\nDeadline: x\n";
    assert!(matches!(parse(text), Err(TodoError::MalformedPriority)));
    let text2 = "Task ID: 1\nDescription: a\nPriority: 2\nTask ID: 2\nDescription: b\nPriority: abc\n";
    assert!(matches!(parse(text2), Err(TodoError::MalformedPriority)));
}

#[test]
fn parse_task_data_bad_priority() {
    let data = vec![s("Task ID: 1"), s("Description: a"), s("Priority: abc")];
    assert!(matches!(parse_task_data(&data), Err(TodoError::MalformedPriority)));
}

#[test]
fn parse_task_data_fields() {
    let data = vec![
        s("Task ID: 7"),
        s("Description: Walk dog"),
        s("Priority: 4"),
        s("Deadline: \"03-03-2025\""),
        s("Status: Completed"),
    ];
    let t = parse_task_data(&data).unwrap();
    assert_eq!(t.description, "Walk dog");
    assert_eq!(t.priority, 4);
    assert_eq!(t.deadline, "\"03-03-2025\"");
    assert!(!t.completed);
}

#[test]
fn parse_task_data_defaults_and_last_wins() {
    let t = parse_task_data(&vec![s("Task ID: 1")]).unwrap();
    assert_eq!(t.description, "");
    assert_eq!(t.priority, 1);
    assert_eq!(t.deadline, "");
    let t2 = parse_task_data(&vec![s("Priority: 2"), s("Priority: +5")]).unwrap();
    assert_eq!(t2.priority, 5);
}

#[test]
fn parse_ignores_headers_and_crlf() {
    let text = "=====\r\nPending Task Count: 1\r\n----------\r\nTask ID: 9\r\nDescription: a\r\nPriority: 2\r\nDeadline: d\r\n";
    let st = parse(text).unwrap();
    let es = st.entries_vec();
    assert_eq!(es.len(), 1);
    assert_eq!(es[0].0, 1);
    assert_eq!(es[0].1.description, "a");
    assert_eq!(es[0].1.deadline, "d");
}

#[test]
fn parse_empty_text() {
    let st = parse("").unwrap();
    assert!(st.is_empty());
    assert_eq!(st.next_id(), 1);
}

#[test]
fn decimal_renders() {
    assert_eq!(decimal(0), chars("0"));
    assert_eq!(decimal(907), chars("907"));
    assert_eq!(decimal(u64::MAX), chars("18446744073709551615"));
}

#[test]
fn parse_u32_cases() {
    assert_eq!(parse_u32(&chars("42")), Some(42));
    assert_eq!(parse_u32(&chars("+7")), Some(7));
    assert_eq!(parse_u32(&chars("4294967295")), Some(u32::MAX));
    assert_eq!(parse_u32(&chars("4294967296")), None);
    assert_eq!(parse_u32(&chars("")), None);
    assert_eq!(parse_u32(&chars("+")), None);
    assert_eq!(parse_u32(&chars("-1")), None);
    assert_eq!(parse_u32(&chars("abc")), None);
    assert_eq!(parse_u32(&chars("1 ")), None);
}

#[test]
fn html_has_rows() {
    let html = generate_task_list_html(&two_pending_one_completed());
    assert!(html.starts_with("<!DOCTYPE html>\n<html>\n<head>\n<style>\n"));
    assert!(html.ends_with("</table>\n</body>\n</html>"));
    assert!(html.contains("<tr>\n<td>1</td>\n<td>a</td>\n<td>1</td>\n<td>\"01-01-2025\"</td>\n<td class=\"pending\">&#10008;</td>\n</tr>\n"));
    assert!(html.contains("<td class=\"completed\">&#10004;</td>"));
    assert_eq!(html.matches("<tr>").count(), 4);
}

#[test]
fn display_shows_fields() {
    let mut t = Task::new(s("Walk"), 2, s("01-02-2025"));
    assert_eq!(t.display(), "Description: Walk\nPriority: 2\nDeadline: 01-02-2025\nStatus: Pending");
    t.complete();
    assert!(t.display().ends_with("Status: Completed"));
}

#[test]
fn deadline_checks() {
    assert!(is_valid_deadline("01-12-2025"));
    assert!(is_valid_deadline("29-02-2024"));
    assert!(!is_valid_deadline("29-02-2023"));
    assert!(!is_valid_deadline("31-04-2025"));
    assert!(!is_valid_deadline("2025-12-01"));
    assert!(!is_valid_deadline("tomorrow"));
    assert_eq!(
        parse_deadline("05-11-2024"),
        Some(CalendarDate { year: 2024, month: 11, day: 5 })
    );
}

#[test]
fn debug_quoting_escapes() {
    let mut st = TaskStore::new();
    st.add(s("q"), 1, s("a\"b")).unwrap();
    let text = serialize(&st);
    assert!(text.contains("Deadline: \"a\\\"b\"\n"));
}
