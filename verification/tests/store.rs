use std::collections::HashMap;
use task_manager::{
    create_task, edit_task, get_next_id, read_tasks_to_map, remove_task, write_tasks, Complete,
    Incomplete, Task, TaskError, TaskStatus,
};

fn task(status: TaskStatus, description: &str) -> Task {
    Task { status, description: description.to_string() }
}

#[test]
fn next_id_without_a_file_is_zero() {
    assert_eq!(get_next_id(None), Ok(0));
}

#[test]
fn next_id_of_an_empty_file_is_zero() {
    assert_eq!(get_next_id(Some("")), Ok(0));
}

#[test]
fn next_id_is_one_more_than_the_last_line() {
    assert_eq!(get_next_id(Some("0: Incomplete a\n1: Complete b\n")), Ok(2));
}

#[test]
fn next_id_follows_the_last_line_not_the_largest_id() {
    assert_eq!(get_next_id(Some("41: Complete a\n7: Incomplete b\n3: Incomplete c\n")), Ok(4));
}

#[test]
fn next_id_reads_only_the_last_line() {
    assert_eq!(get_next_id(Some("no task here\n12: Complete fine\n")), Ok(13));
}

#[test]
fn next_id_needs_no_line_feed_at_the_end() {
    assert_eq!(get_next_id(Some("0: Incomplete a\n8: Complete b")), Ok(9));
}

#[test]
fn next_id_fails_on_a_malformed_last_line() {
    assert_eq!(
        get_next_id(Some("0: Incomplete a\nabc: Incomplete b\n")),
        Err(TaskError::ParseError { line: 2 })
    );
}

#[test]
fn next_id_fails_after_the_largest_id() {
    assert_eq!(
        get_next_id(Some("2147483647: Complete last\n")),
        Err(TaskError::ParseError { line: 1 })
    );
    assert_eq!(get_next_id(Some("2147483646: Complete last\n")), Ok(2147483647));
}

#[test]
fn create_writes_an_incomplete_task_under_the_next_id() {
    assert_eq!(
        create_task(Some("4: Complete old\n"), "buy milk"),
        Ok("5: Incomplete buy milk\n".to_string())
    );
}

#[test]
fn create_without_a_file_starts_at_zero() {
    assert_eq!(create_task(None, "Add TUI"), Ok("0: Incomplete Add TUI\n".to_string()));
}

#[test]
fn create_twice_gives_ids_zero_and_one() {
    let mut file = String::new();
    file.push_str(&create_task(Some(&file), "first thing").unwrap());
    assert_eq!(file, "0: Incomplete first thing\n");
    file.push_str(&create_task(Some(&file), "second thing").unwrap());
    assert_eq!(file, "0: Incomplete first thing\n1: Incomplete second thing\n");
    let tasks = read_tasks_to_map(Some(&file)).unwrap();
    assert_eq!(tasks.len(), 2);
    assert_eq!(tasks[&0], task(Incomplete, "first thing"));
    assert_eq!(tasks[&1], task(Incomplete, "second thing"));
}

#[test]
fn create_fails_where_the_next_id_fails() {
    assert_eq!(
        create_task(Some("0: Unknown a\n"), "b"),
        Err(TaskError::ParseError { line: 1 })
    );
}

#[test]
fn load_reads_every_line() {
    let tasks = read_tasks_to_map(Some("0: Incomplete a\n1: Complete b\n")).unwrap();
    assert_eq!(tasks.len(), 2);
    assert_eq!(tasks[&0], task(Incomplete, "a"));
    assert_eq!(tasks[&1], task(Complete, "b"));
}

#[test]
fn load_of_an_empty_file_is_empty() {
    assert_eq!(read_tasks_to_map(Some("")), Ok(HashMap::new()));
}

#[test]
fn load_without_a_file_is_an_io_error() {
    assert_eq!(read_tasks_to_map(None), Err(TaskError::IOError));
}

#[test]
fn load_keeps_spaces_and_digits_in_a_description() {
    let tasks =
        read_tasks_to_map(Some("3: Incomplete call 555 0100  before 9: urgent \n")).unwrap();
    assert_eq!(tasks.len(), 1);
    assert_eq!(tasks[&3], task(Incomplete, "call 555 0100  before 9: urgent "));
}

#[test]
fn load_keeps_letters_beyond_ascii() {
    let tasks = read_tasks_to_map(Some("1: Complete café für Zoë ✓\n")).unwrap();
    assert_eq!(tasks[&1], task(Complete, "café für Zoë ✓"));
}

#[test]
fn load_takes_an_empty_description() {
    let tasks = read_tasks_to_map(Some("0: Incomplete \n")).unwrap();
    assert_eq!(tasks[&0], task(Incomplete, ""));
}

#[test]
fn load_takes_carriage_return_line_endings() {
    let tasks = read_tasks_to_map(Some("0: Incomplete a\r\n1: Complete b\r\n")).unwrap();
    assert_eq!(tasks.len(), 2);
    assert_eq!(tasks[&0], task(Incomplete, "a"));
    assert_eq!(tasks[&1], task(Complete, "b"));
}

#[test]
fn load_takes_the_later_of_two_lines_with_one_id() {
    let tasks = read_tasks_to_map(Some("2: Incomplete old\n2: Complete new\n")).unwrap();
    assert_eq!(tasks.len(), 1);
    assert_eq!(tasks[&2], task(Complete, "new"));
}

#[test]
fn load_takes_leading_zeros_in_an_id() {
    let tasks = read_tasks_to_map(Some("0000000000000007: Complete x\n")).unwrap();
    assert_eq!(tasks[&7], task(Complete, "x"));
}

#[test]
fn load_takes_the_largest_id() {
    let tasks = read_tasks_to_map(Some("2147483647: Complete x\n")).unwrap();
    assert_eq!(tasks[&2147483647], task(Complete, "x"));
}

#[test]
fn load_fails_on_an_id_that_is_too_large() {
    assert_eq!(
        read_tasks_to_map(Some("2147483648: Complete x\n")),
        Err(TaskError::ParseError { line: 1 })
    );
    assert_eq!(
        read_tasks_to_map(Some("99999999999999999999999: Complete x\n")),
        Err(TaskError::ParseError { line: 1 })
    );
}

#[test]
fn load_fails_on_an_id_that_is_no_number() {
    assert_eq!(
        read_tasks_to_map(Some("abc: Incomplete buy milk")),
        Err(TaskError::ParseError { line: 1 })
    );
}

#[test]
fn load_fails_on_an_unknown_status() {
    assert_eq!(
        read_tasks_to_map(Some("0: Incomplete a\n1: Done b\n2: Complete c\n")),
        Err(TaskError::ParseError { line: 2 })
    );
}

#[test]
fn load_names_the_first_malformed_line() {
    assert_eq!(
        read_tasks_to_map(Some("0: Incomplete a\n1: Complete b\n\nnot a task\n")),
        Err(TaskError::ParseError { line: 3 })
    );
}

#[test]
fn load_fails_on_lines_that_are_nearly_task_lines() {
    let nearly = [
        "-1: Complete a",
        "+1: Complete a",
        " 1: Complete a",
        "1 : Complete a",
        "1:Complete a",
        "1: Complete",
        "1: complete a",
        "1: Completed a",
        "1: Completea",
        "1:  Complete a",
        ": Complete a",
        "1",
        "x1: Complete a",
        "١: Complete a",
    ];
    for line in nearly {
        assert_eq!(read_tasks_to_map(Some(line)), Err(TaskError::ParseError { line: 1 }));
    }
}

#[test]
fn write_then_load_gives_the_same_tasks() {
    let mut tasks = HashMap::new();
    tasks.insert(0, task(Incomplete, "a"));
    tasks.insert(1, task(Complete, "b"));
    let text = write_tasks(&tasks);
    assert!(
        text == "0: Incomplete a\n1: Complete b\n" || text == "1: Complete b\n0: Incomplete a\n"
    );
    assert_eq!(read_tasks_to_map(Some(&text)), Ok(tasks));
}

#[test]
fn write_of_no_tasks_is_empty() {
    assert_eq!(write_tasks(&HashMap::new()), "");
}

#[test]
fn write_puts_each_task_on_a_line_of_its_own() {
    let mut tasks = HashMap::new();
    for id in 0..50 {
        let status = if id % 3 == 0 { Complete } else { Incomplete };
        tasks.insert(id * 1000, task(status, &format!("task number {}", id)));
    }
    let text = write_tasks(&tasks);
    assert!(text.ends_with('\n'));
    assert_eq!(text.lines().count(), 50);
    assert!(text.lines().any(|line| line == "3000: Complete task number 3"));
    assert!(text.lines().any(|line| line == "49000: Incomplete task number 49"));
    assert_eq!(read_tasks_to_map(Some(&text)), Ok(tasks));
}

#[test]
fn write_puts_a_minus_sign_before_a_negative_id() {
    let mut tasks = HashMap::new();
    tasks.insert(-12, task(Complete, "below zero"));
    assert_eq!(write_tasks(&tasks), "-12: Complete below zero\n");
    let mut tasks = HashMap::new();
    tasks.insert(i32::MIN, task(Incomplete, "lowest"));
    assert_eq!(write_tasks(&tasks), "-2147483648: Incomplete lowest\n");
}

#[test]
fn edit_replaces_status_and_description() {
    let text = edit_task(Some("0: Incomplete Add TUI\n"), 0, Complete, "Add a TUI").unwrap();
    assert_eq!(text, "0: Complete Add a TUI\n");
}

#[test]
fn edit_leaves_the_other_tasks_alone() {
    let before = "0: Incomplete a\n1: Incomplete b\n2: Complete c\n";
    let text = edit_task(Some(before), 1, Complete, "B").unwrap();
    let tasks = read_tasks_to_map(Some(&text)).unwrap();
    assert_eq!(tasks.len(), 3);
    assert_eq!(tasks[&0], task(Incomplete, "a"));
    assert_eq!(tasks[&1], task(Complete, "B"));
    assert_eq!(tasks[&2], task(Complete, "c"));
}

#[test]
fn edit_of_a_missing_id_puts_the_task_in() {
    let text = edit_task(Some("0: Incomplete a\n"), 5, Complete, "new").unwrap();
    let tasks = read_tasks_to_map(Some(&text)).unwrap();
    assert_eq!(tasks.len(), 2);
    assert_eq!(tasks[&0], task(Incomplete, "a"));
    assert_eq!(tasks[&5], task(Complete, "new"));
}

#[test]
fn edit_of_an_empty_file_puts_the_task_in() {
    assert_eq!(edit_task(Some(""), 3, Incomplete, "only"), Ok("3: Incomplete only\n".to_string()));
}

#[test]
fn edit_fails_without_a_file() {
    assert_eq!(edit_task(None, 0, Complete, "a"), Err(TaskError::IOError));
}

#[test]
fn edit_fails_on_a_malformed_file() {
    assert_eq!(
        edit_task(Some("0: Incomplete a\nrubbish\n"), 0, Complete, "a"),
        Err(TaskError::ParseError { line: 2 })
    );
}

#[test]
fn remove_takes_the_task_out() {
    let text = remove_task(Some("0: Incomplete a\n1: Complete b\n"), 0).unwrap();
    assert_eq!(text, "1: Complete b\n");
}

#[test]
fn remove_of_the_last_task_leaves_an_empty_file() {
    assert_eq!(remove_task(Some("4: Complete b\n"), 4), Ok(String::new()));
}

#[test]
fn remove_of_a_missing_id_keeps_the_tasks() {
    let before = "0: Incomplete a\n1: Complete b\n";
    let text = remove_task(Some(before), 7).unwrap();
    assert_eq!(read_tasks_to_map(Some(&text)), read_tasks_to_map(Some(before)));
    assert_eq!(read_tasks_to_map(Some(&text)).unwrap().len(), 2);
    assert_eq!(remove_task(Some(""), -3), Ok(String::new()));
}

#[test]
fn remove_fails_without_a_file() {
    assert_eq!(remove_task(None, 0), Err(TaskError::IOError));
}

#[test]
fn remove_fails_on_a_malformed_file() {
    assert_eq!(
        remove_task(Some("0: Complete a\n1: Incomplete\n"), 0),
        Err(TaskError::ParseError { line: 2 })
    );
}

#[test]
fn two_creates_and_an_edit_load_as_expected() {
    let mut file = String::new();
    file.push_str(&create_task(Some(&file), "Add TUI").unwrap());
    file.push_str(&create_task(Some(&file), "Add error handling").unwrap());
    file = edit_task(Some(&file), 0, Complete, "Add TUI").unwrap();
    let tasks = read_tasks_to_map(Some(&file)).unwrap();
    assert_eq!(tasks.len(), 2);
    assert_eq!(tasks[&0], task(Complete, "Add TUI"));
    assert_eq!(tasks[&1], task(Incomplete, "Add error handling"));
}

#[test]
fn a_create_after_an_edit_is_a_line_of_its_own() {
    let mut file = edit_task(Some("0: Incomplete a\n"), 0, Complete, "a").unwrap();
    file.push_str(&create_task(Some(&file), "b").unwrap());
    assert_eq!(file, "0: Complete a\n1: Incomplete b\n");
}
