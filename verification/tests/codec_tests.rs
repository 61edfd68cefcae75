use tasklist::add_task;
use tasklist::codec::parse_task_line;
use tasklist::codec::render_tasks;
use tasklist::codec::load_tasks;
use tasklist::codec::ParseTaskError;
use tasklist::Task;

fn titled(s: &str) -> Vec<u8> {
    s.as_bytes().to_vec()
}

#[test]
fn render_exact_bytes() {
    let tasks = vec![
        Task { id: 0, title: titled("Buy milk"), completed: false },
        Task { id: -3, title: titled("x"), completed: true },
    ];
    let bytes = render_tasks(&tasks);
    assert_eq!(bytes, b"0,Buy milk,false\n-3,x,true\n".to_vec());
}

#[test]
fn render_empty_store_is_empty_file() {
    let tasks: Vec<Task> = Vec::new();
    assert_eq!(render_tasks(&tasks), Vec::<u8>::new());
}

#[test]
fn parse_well_formed_line() {
    let t = parse_task_line(b"42,answer everything,true").unwrap();
    assert_eq!(t.id, 42);
    assert_eq!(t.title, titled("answer everything"));
    assert!(t.completed);
}

#[test]
fn parse_negative_id_and_empty_title() {
    let t = parse_task_line(b"-7,,false").unwrap();
    assert_eq!(t.id, -7);
    assert_eq!(t.title, Vec::<u8>::new());
    assert!(!t.completed);
}

#[test]
fn parse_extreme_ids() {
    let t = parse_task_line(b"9223372036854775807,max,false").unwrap();
    assert_eq!(t.id, i64::MAX);
    let t = parse_task_line(b"-9223372036854775808,min,false").unwrap();
    assert_eq!(t.id, i64::MIN);
}

#[test]
fn parse_rejects_wrong_field_count() {
    assert_eq!(parse_task_line(b""), Err(ParseTaskError::FieldCount));
    assert_eq!(parse_task_line(b"no commas here"), Err(ParseTaskError::FieldCount));
    assert_eq!(parse_task_line(b"1,only one comma"), Err(ParseTaskError::FieldCount));
    assert_eq!(parse_task_line(b"1,a,true,extra"), Err(ParseTaskError::FieldCount));
}

#[test]
fn parse_rejects_bad_id() {
    assert_eq!(parse_task_line(b"x,title,true"), Err(ParseTaskError::BadId));
    assert_eq!(parse_task_line(b",title,true"), Err(ParseTaskError::BadId));
    assert_eq!(parse_task_line(b"12a,title,true"), Err(ParseTaskError::BadId));
    // One past i64::MAX, and a far larger value.
    assert_eq!(parse_task_line(b"9223372036854775808,t,true"), Err(ParseTaskError::BadId));
    assert_eq!(
        parse_task_line(b"99999999999999999999999999999999,t,true"),
        Err(ParseTaskError::BadId)
    );
    assert_eq!(parse_task_line(b"-9223372036854775809,t,true"), Err(ParseTaskError::BadId));
}

#[test]
fn parse_rejects_bad_completed() {
    assert_eq!(parse_task_line(b"1,title,maybe"), Err(ParseTaskError::BadCompleted));
    assert_eq!(parse_task_line(b"1,title,"), Err(ParseTaskError::BadCompleted));
    assert_eq!(parse_task_line(b"1,title,True"), Err(ParseTaskError::BadCompleted));
    assert_eq!(parse_task_line(b"1,title,truex"), Err(ParseTaskError::BadCompleted));
}

#[test]
fn load_empty_file() {
    assert!(load_tasks(b"").is_empty());
}

#[test]
fn load_skips_malformed_line() {
    // One malformed line between two well-formed ones: exactly the two
    // well-formed tasks load, in file order.
    let data = b"5,write specs,true\nnot a task\n7,rest,false\n";
    let tasks = load_tasks(data);
    assert_eq!(tasks.len(), 2);
    assert_eq!(tasks[0].id, 5);
    assert_eq!(tasks[0].title, titled("write specs"));
    assert!(tasks[0].completed);
    assert_eq!(tasks[1].id, 7);
    assert_eq!(tasks[1].title, titled("rest"));
    assert!(!tasks[1].completed);
}

#[test]
fn load_without_trailing_newline() {
    let tasks = load_tasks(b"1,a,true");
    assert_eq!(tasks.len(), 1);
    assert_eq!(tasks[0].id, 1);
}

#[test]
fn load_handles_crlf_line_endings() {
    let tasks = load_tasks(b"3,c,true\r\n4,d,false\r\n");
    assert_eq!(tasks.len(), 2);
    assert_eq!(tasks[0].id, 3);
    assert!(tasks[0].completed);
    assert_eq!(tasks[1].id, 4);
}

#[test]
fn round_trip_preserves_store() {
    let mut tasks: Vec<Task> = Vec::new();
    add_task(&mut tasks, titled("Buy milk"));
    add_task(&mut tasks, titled("Walk dog"));
    add_task(&mut tasks, titled(""));
    tasks[1].completed = true;

    let reloaded = load_tasks(&render_tasks(&tasks));
    assert_eq!(reloaded.len(), tasks.len());
    for (a, b) in tasks.iter().zip(reloaded.iter()) {
        assert_eq!(a.id, b.id);
        assert_eq!(a.title, b.title);
        assert_eq!(a.completed, b.completed);
    }
}

#[test]
fn round_trip_negative_ids_and_spaces() {
    let tasks = vec![
        Task { id: -1000, title: titled("  padded  "), completed: true },
        Task { id: 0, title: titled("ünïcödé bytes"), completed: false },
    ];
    let reloaded = load_tasks(&render_tasks(&tasks));
    assert_eq!(reloaded.len(), 2);
    assert_eq!(reloaded[0].id, -1000);
    assert_eq!(reloaded[0].title, titled("  padded  "));
    assert!(reloaded[0].completed);
    assert_eq!(reloaded[1].id, 0);
    assert_eq!(reloaded[1].title, titled("ünïcödé bytes"));
    assert!(!reloaded[1].completed);
}

#[test]
fn comma_in_title_does_not_round_trip() {
    // A known limitation: the comma is the field delimiter, so a title
    // holding one makes the line have four fields, which is skipped on load.
    let tasks = vec![Task { id: 0, title: titled("a,b"), completed: false }];
    let reloaded = load_tasks(&render_tasks(&tasks));
    assert!(reloaded.is_empty());
}
