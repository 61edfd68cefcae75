use tasklist::add_task;
use tasklist::remove_task;
use tasklist::toggle_task;
use tasklist::Task;

fn titled(s: &str) -> Vec<u8> {
    s.as_bytes().to_vec()
}

#[test]
fn add_assigns_zero_then_successors() {
    let mut tasks: Vec<Task> = Vec::new();
    add_task(&mut tasks, titled("first"));
    add_task(&mut tasks, titled("second"));
    add_task(&mut tasks, titled("third"));
    assert_eq!(tasks.len(), 3);
    assert_eq!(tasks[0].id, 0);
    assert_eq!(tasks[1].id, 1);
    assert_eq!(tasks[2].id, 2);
    assert!(tasks.iter().all(|t| !t.completed));
}

#[test]
fn add_uses_last_id_plus_one() {
    let mut tasks: Vec<Task> = Vec::new();
    add_task(&mut tasks, titled("a"));
    add_task(&mut tasks, titled("b"));
    // Dropping the task with the largest id frees that id for reuse.
    remove_task(&mut tasks, 1);
    add_task(&mut tasks, titled("c"));
    assert_eq!(tasks.len(), 2);
    assert_eq!(tasks[1].id, 1);
    assert_eq!(tasks[1].title, titled("c"));
}

#[test]
fn remove_drops_every_match() {
    let mut tasks: Vec<Task> = Vec::new();
    add_task(&mut tasks, titled("keep me"));
    add_task(&mut tasks, titled("drop me"));
    add_task(&mut tasks, titled("keep me too"));
    remove_task(&mut tasks, 1);
    assert_eq!(tasks.len(), 2);
    assert!(tasks.iter().all(|t| t.id != 1));
    assert_eq!(tasks[0].title, titled("keep me"));
    assert_eq!(tasks[1].title, titled("keep me too"));
}

#[test]
fn remove_absent_id_is_noop() {
    let mut tasks: Vec<Task> = Vec::new();
    add_task(&mut tasks, titled("one"));
    add_task(&mut tasks, titled("two"));
    remove_task(&mut tasks, 99);
    assert_eq!(tasks.len(), 2);
    assert_eq!(tasks[0].id, 0);
    assert_eq!(tasks[0].title, titled("one"));
    assert_eq!(tasks[1].id, 1);
    assert_eq!(tasks[1].title, titled("two"));
}

#[test]
fn toggle_flips_once_and_twice_restores() {
    let mut tasks: Vec<Task> = Vec::new();
    add_task(&mut tasks, titled("flip me"));
    add_task(&mut tasks, titled("leave me"));
    assert!(!tasks[0].completed);
    toggle_task(&mut tasks, 0);
    assert!(tasks[0].completed);
    assert!(!tasks[1].completed);
    toggle_task(&mut tasks, 0);
    assert!(!tasks[0].completed);
    assert!(!tasks[1].completed);
}

#[test]
fn toggle_absent_id_changes_nothing() {
    let mut tasks: Vec<Task> = Vec::new();
    add_task(&mut tasks, titled("stay"));
    toggle_task(&mut tasks, 5);
    assert!(!tasks[0].completed);
    assert_eq!(tasks[0].id, 0);
}

#[test]
fn whole_session_scenario() {
    // Empty store; add "Buy milk"; add "Walk dog"; tick the first; drop the
    // second: only the completed "Buy milk" task remains.
    let mut tasks: Vec<Task> = Vec::new();

    add_task(&mut tasks, titled("Buy milk"));
    assert_eq!(tasks.len(), 1);
    assert_eq!(tasks[0].id, 0);
    assert_eq!(tasks[0].title, titled("Buy milk"));
    assert!(!tasks[0].completed);

    add_task(&mut tasks, titled("Walk dog"));
    assert_eq!(tasks[1].id, 1);

    toggle_task(&mut tasks, 0);
    assert!(tasks[0].completed);

    remove_task(&mut tasks, 1);
    assert_eq!(tasks.len(), 1);
    assert_eq!(tasks[0].id, 0);
    assert_eq!(tasks[0].title, titled("Buy milk"));
    assert!(tasks[0].completed);
}
