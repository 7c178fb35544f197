use task_manager::decimal::{digit_char, push_decimal, read_decimal};
use task_manager::lines::cut_lines;
use task_manager::task::{push_id, push_task_line, read_line};
use task_manager::text::{chars_of, has_at, same_text, string_from};
use task_manager::{
    list_path_in, todo_list_path, Complete, Incomplete, Task, TaskError, TaskStatus,
};

fn chars(text: &str) -> Vec<char> {
    text.chars().collect()
}

fn lines_of(text: &str) -> Vec<String> {
    cut_lines(&chars(text)).iter().map(|line| line.iter().collect()).collect()
}

#[test]
fn status_names_are_the_tokens_of_the_file() {
    assert_eq!(Complete.name(), "Complete");
    assert_eq!(Incomplete.name(), "Incomplete");
}

#[test]
fn status_is_found_by_its_name() {
    assert_eq!(TaskStatus::from_name("Complete"), Some(Complete));
    assert_eq!(TaskStatus::from_name("Incomplete"), Some(Incomplete));
    assert_eq!(TaskStatus::from_name(Complete.name()), Some(Complete));
    assert_eq!(TaskStatus::from_name(Incomplete.name()), Some(Incomplete));
}

#[test]
fn status_is_not_found_by_another_word() {
    assert_eq!(TaskStatus::from_name("complete"), None);
    assert_eq!(TaskStatus::from_name("Complete "), None);
    assert_eq!(TaskStatus::from_name("Incomplet"), None);
    assert_eq!(TaskStatus::from_name(""), None);
}

#[test]
fn digits_are_the_ascii_digits() {
    assert_eq!(digit_char(0), '0');
    assert_eq!(digit_char(7), '7');
    assert_eq!(digit_char(9), '9');
}

#[test]
fn decimal_writes_numbers_without_leading_zeros() {
    let mut out = String::from("n=");
    push_decimal(&mut out, 0);
    assert_eq!(out, "n=0");
    push_decimal(&mut out, 10);
    assert_eq!(out, "n=010");
    let mut out = String::new();
    push_decimal(&mut out, 4294967295);
    assert_eq!(out, "4294967295");
    let mut out = String::new();
    push_decimal(&mut out, 1203);
    assert_eq!(out, "1203");
}

#[test]
fn decimal_reads_what_it_wrote() {
    for n in [0u32, 1, 9, 10, 99, 100, 12345, 2147483647] {
        let mut out = String::new();
        push_decimal(&mut out, n);
        let digits = chars(&out);
        assert_eq!(read_decimal(&digits, 0, digits.len()), Some(n as i32));
    }
}

#[test]
fn decimal_reads_a_part_of_a_text() {
    let text = chars("ab123cd");
    assert_eq!(read_decimal(&text, 2, 5), Some(123));
    assert_eq!(read_decimal(&text, 2, 4), Some(12));
    assert_eq!(read_decimal(&text, 2, 2), None);
    assert_eq!(read_decimal(&text, 1, 5), None);
    assert_eq!(read_decimal(&text, 2, 6), None);
}

#[test]
fn decimal_reads_up_to_the_largest_i32() {
    let most = chars("2147483647");
    assert_eq!(read_decimal(&most, 0, most.len()), Some(i32::MAX));
    let above = chars("2147483648");
    assert_eq!(read_decimal(&above, 0, above.len()), None);
    let long = chars("00000000000000000000002147483647");
    assert_eq!(read_decimal(&long, 0, long.len()), Some(i32::MAX));
    let huge = chars("340282366920938463463374607431768211456");
    assert_eq!(read_decimal(&huge, 0, huge.len()), None);
}

#[test]
fn id_is_written_with_its_sign() {
    let mut out = String::new();
    push_id(&mut out, 42);
    out.push(' ');
    push_id(&mut out, -42);
    out.push(' ');
    push_id(&mut out, 0);
    out.push(' ');
    push_id(&mut out, i32::MIN);
    out.push(' ');
    push_id(&mut out, i32::MAX);
    assert_eq!(out, "42 -42 0 -2147483648 2147483647");
}

#[test]
fn task_line_has_id_status_and_description() {
    let mut out = String::from(">");
    push_task_line(&mut out, 17, Complete, "feed the cat");
    assert_eq!(out, ">17: Complete feed the cat");
    let mut out = String::new();
    push_task_line(&mut out, 0, Incomplete, "");
    assert_eq!(out, "0: Incomplete ");
}

#[test]
fn task_line_is_read_back() {
    let mut out = String::new();
    push_task_line(&mut out, 305, Incomplete, "write 2 letters: one to Ann ");
    let read = read_line(&chars(&out));
    assert_eq!(
        read,
        Some((
            305,
            Task { status: Incomplete, description: "write 2 letters: one to Ann ".to_string() }
        ))
    );
}

#[test]
fn line_that_is_no_task_is_not_read() {
    assert_eq!(read_line(&chars("")), None);
    assert_eq!(read_line(&chars("12")), None);
    assert_eq!(read_line(&chars("12: ")), None);
    assert_eq!(read_line(&chars("12: Incomplete")), None);
    assert_eq!(read_line(&chars("12: Pending x")), None);
}

#[test]
fn lines_end_at_line_feeds() {
    assert_eq!(lines_of("a\nbc\n\nd"), vec!["a", "bc", "", "d"]);
    assert_eq!(lines_of("a\nbc\n"), vec!["a", "bc"]);
    assert_eq!(lines_of("\n"), vec![""]);
    assert_eq!(lines_of("\n\n"), vec!["", ""]);
    assert_eq!(lines_of("no end"), vec!["no end"]);
    assert_eq!(lines_of(""), Vec::<String>::new());
}

#[test]
fn lines_lose_a_carriage_return_before_the_line_feed() {
    assert_eq!(lines_of("a\r\nb\r\n"), vec!["a", "b"]);
    assert_eq!(lines_of("a\r\r\nb"), vec!["a\r", "b"]);
    assert_eq!(lines_of("a\rb\nc\r"), vec!["a\rb", "c\r"]);
    assert_eq!(lines_of("\r\n"), vec![""]);
    assert_eq!(lines_of("\r"), vec!["\r"]);
}

#[test]
fn lines_are_those_of_the_standard_library() {
    let texts = [
        "",
        "\n",
        "\r\n",
        "\r",
        "a",
        "a\n",
        "a\r\n",
        "a\r",
        "a\n\r",
        "a\n\r\n",
        "\n\na\r\n\r\nb\r\r\n\n",
        "0: Complete x\r\n1: Incomplete y",
    ];
    for text in texts {
        let expected: Vec<String> = text.lines().map(|line| line.to_string()).collect();
        assert_eq!(lines_of(text), expected);
    }
}

#[test]
fn characters_go_to_a_vector_and_back() {
    let text = "zwölf Boxkämpfer, 12 ✓";
    assert_eq!(chars_of(text), chars(text));
    assert_eq!(string_from(&chars_of(text), 0), text);
    assert_eq!(chars_of(""), Vec::<char>::new());
}

#[test]
fn string_from_takes_the_rest_of_a_text() {
    let text = chars("0: Complete über");
    assert_eq!(string_from(&text, 12), "über");
    assert_eq!(string_from(&text, 0), "0: Complete über");
    assert_eq!(string_from(&text, text.len()), "");
}

#[test]
fn has_at_finds_a_word_at_a_place() {
    let text = chars("12: Complete x");
    assert!(has_at(&text, 2, ": Complete "));
    assert!(!has_at(&text, 2, ": Incomplete "));
    assert!(!has_at(&text, 3, ": Complete "));
    assert!(has_at(&text, 13, "x"));
    assert!(!has_at(&text, 13, "xy"));
    assert!(has_at(&text, 14, ""));
}

#[test]
fn same_text_compares_letter_for_letter() {
    assert!(same_text("Complete", "Complete"));
    assert!(!same_text("Complete", "complete"));
    assert!(!same_text("Complete", "Complete "));
    assert!(same_text("", ""));
}

#[test]
fn list_path_lies_below_the_home_directory() {
    assert_eq!(list_path_in(Some("/home/alice")), Ok("/home/alice/todo/list.txt".to_string()));
}

#[test]
fn list_path_adds_no_second_separator() {
    assert_eq!(list_path_in(Some("/home/alice/")), Ok("/home/alice/todo/list.txt".to_string()));
    assert_eq!(list_path_in(Some("/")), Ok("/todo/list.txt".to_string()));
    assert_eq!(list_path_in(Some("")), Ok("todo/list.txt".to_string()));
}

#[test]
fn list_path_needs_a_home_directory() {
    assert_eq!(list_path_in(None), Err(TaskError::NotFound));
}

#[test]
fn todo_list_path_is_the_list_below_some_directory() {
    match todo_list_path() {
        Ok(path) => assert!(path.ends_with("todo/list.txt")),
        Err(e) => assert_eq!(e, TaskError::NotFound),
    }
}
