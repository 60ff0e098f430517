use wotwot::board::{add_todo, pop_info, push_info, reorder_todos, rm_info, rm_todo};
use wotwot::items::{InfoItem, Todo};

fn todo(id: &str, text: &str) -> Todo {
    Todo { id: id.to_string(), text: text.to_string() }
}

fn info(id: &str, text: &str) -> InfoItem {
    InfoItem { id: id.to_string(), text: text.to_string() }
}

fn ids(v: &[Todo]) -> Vec<String> {
    v.iter().map(|t| t.id.clone()).collect()
}

fn strings(v: &[&str]) -> Vec<String> {
    v.iter().map(|s| s.to_string()).collect()
}

#[test]
fn add_todo_appends_with_a_fresh_uuid() {
    let mut todos = vec![todo("a", "first")];
    let t = add_todo(&mut todos, "buy milk".to_string());
    assert_eq!(todos.len(), 2);
    assert_eq!(todos[1].id, t.id);
    assert_eq!(todos[1].text, "buy milk");
    assert_eq!(t.id.len(), 36);
    assert_eq!(&t.id[8..9], "-");
    assert_eq!(&t.id[14..15], "4");
    assert!(t.id.chars().all(|c| c == '-' || c.is_ascii_hexdigit() && !c.is_ascii_uppercase()));
    let u = add_todo(&mut todos, "again".to_string());
    assert_ne!(t.id, u.id);
}

#[test]
fn rm_todo_by_one_based_position() {
    let mut todos = vec![todo("a", "1"), todo("b", "2"), todo("c", "3")];
    assert!(rm_todo(&mut todos, "2"));
    assert_eq!(ids(&todos), strings(&["a", "c"]));
    assert!(rm_todo(&mut todos, "+1"));
    assert_eq!(ids(&todos), strings(&["c"]));
}

#[test]
fn rm_todo_position_out_of_range_removes_nothing() {
    let mut todos = vec![todo("a", "1"), todo("7", "2")];
    assert!(!rm_todo(&mut todos, "0"));
    assert!(!rm_todo(&mut todos, "3"));
    // a numeric key is a position, never an id
    assert!(!rm_todo(&mut todos, "7"));
    assert_eq!(ids(&todos), strings(&["a", "7"]));
}

#[test]
fn rm_todo_by_id_removes_every_match() {
    let mut todos = vec![todo("x", "1"), todo("y", "2"), todo("x", "3")];
    assert!(rm_todo(&mut todos, "x"));
    assert_eq!(ids(&todos), strings(&["y"]));
    assert!(!rm_todo(&mut todos, "zzz"));
    assert!(!rm_todo(&mut todos, "-1"));
    assert_eq!(ids(&todos), strings(&["y"]));
}

#[test]
fn remove_by_fresh_id_after_add() {
    let mut todos = vec![todo("a", "1")];
    let t = add_todo(&mut todos, "new".to_string());
    assert!(rm_todo(&mut todos, &t.id));
    assert_eq!(ids(&todos), strings(&["a"]));
}

#[test]
fn reorder_moves_listed_ids_to_front() {
    let mut todos = vec![todo("a", "1"), todo("b", "2"), todo("c", "3"), todo("d", "4")];
    reorder_todos(&mut todos, &strings(&["c", "a"]));
    assert_eq!(ids(&todos), strings(&["c", "a", "b", "d"]));
}

#[test]
fn reorder_skips_unknown_and_repeated_ids() {
    let mut todos = vec![todo("a", "1"), todo("b", "2"), todo("c", "3")];
    reorder_todos(&mut todos, &strings(&["zz", "b", "b", "a"]));
    assert_eq!(ids(&todos), strings(&["b", "a", "c"]));
    reorder_todos(&mut todos, &Vec::new());
    assert_eq!(ids(&todos), strings(&["b", "a", "c"]));
}

#[test]
fn reorder_with_shared_ids_moves_first_match_per_mention() {
    let mut todos = vec![todo("x", "1"), todo("y", "2"), todo("x", "3")];
    reorder_todos(&mut todos, &strings(&["x"]));
    let texts: Vec<String> = todos.iter().map(|t| t.text.clone()).collect();
    assert_eq!(texts, strings(&["1", "2", "3"]));
    reorder_todos(&mut todos, &strings(&["y", "x", "x"]));
    let texts: Vec<String> = todos.iter().map(|t| t.text.clone()).collect();
    assert_eq!(texts, strings(&["2", "1", "3"]));
}

#[test]
fn info_stack_is_last_in_first_out() {
    let mut stack = vec![info("a", "old")];
    let pushed = push_info(&mut stack, "deploy at 3pm".to_string());
    assert_eq!(stack.len(), 2);
    let popped = pop_info(&mut stack).unwrap();
    assert_eq!(popped.id, pushed.id);
    assert_eq!(popped.text, "deploy at 3pm");
    assert_eq!(stack.len(), 1);
    assert_eq!(pop_info(&mut stack).unwrap().id, "a");
    assert!(pop_info(&mut stack).is_none());
}

#[test]
fn rm_info_by_position_and_id() {
    let mut stack = vec![info("a", "1"), info("b", "2"), info("c", "3")];
    assert!(rm_info(&mut stack, "2"));
    assert!(rm_info(&mut stack, "c"));
    assert!(!rm_info(&mut stack, "9"));
    let left: Vec<String> = stack.iter().map(|i| i.id.clone()).collect();
    assert_eq!(left, strings(&["a"]));
}

#[test]
fn reorder_twice_is_reorder_once() {
    let mut todos = vec![todo("a", "1"), todo("b", "2"), todo("c", "3"), todo("d", "4")];
    let req = strings(&["d", "zz", "b", "d"]);
    reorder_todos(&mut todos, &req);
    let once = ids(&todos);
    assert_eq!(once, strings(&["d", "b", "a", "c"]));
    reorder_todos(&mut todos, &req);
    assert_eq!(ids(&todos), once);
}
