//! A task, and the line that stands for it in the backing file:
//! the id in decimal digits, a colon and a space, the name of the status,
//! a space, and the description up to the end of the line.

use crate::decimal::{
    all_digits, decimal, is_digit, lemma_decimal_round_trip, parse_decimal, push_decimal,
    read_decimal,
};
use crate::lines::single_line;
use crate::status::TaskStatus;
use crate::text::{has_at, string_from};
use vstd::prelude::*;

verus! {

/// What is kept of a task under its id.
#[derive(Debug, Clone, PartialEq, Eq)]
pub struct Task {
    pub status: TaskStatus,
    pub description: String,
}

/// A task as a mathematical value.
pub struct TaskView {
    pub status: TaskStatus,
    pub description: Seq<char>,
}

impl View for Task {
    type V = TaskView;

    open spec fn view(&self) -> TaskView {
        TaskView { status: self.status, description: self.description@ }
    }
}

/// `id` as a line writes it: in decimal digits, after a minus sign where it
/// is negative.
pub open spec fn id_text(id: int) -> Seq<char> {
    if id < 0 {
        seq!['-'] + decimal((-id) as nat)
    } else {
        decimal(id as nat)
    }
}

/// What stands in a line between the id and the description.
pub open spec fn status_text(status: TaskStatus) -> Seq<char> {
    ": "@ + status.token() + " "@
}

/// The line that stands for `task` under `id`.
pub open spec fn task_line(id: int, task: TaskView) -> Seq<char> {
    id_text(id) + status_text(task.status) + task.description
}

/// How many digits `line` begins with.
pub open spec fn leading_digits(line: Seq<char>) -> int
    decreases line.len(),
{
    if line.len() > 0 && is_digit(line[0]) {
        1 + leading_digits(line.skip(1))
    } else {
        0
    }
}

/// What remains of a line after its id, read as a task of this status:
/// `None` where it does not begin as such a task does.
pub open spec fn parse_task_as(rest: Seq<char>, status: TaskStatus) -> Option<TaskView> {
    if status_text(status).is_prefix_of(rest) {
        Some(TaskView { status, description: rest.skip(status_text(status).len() as int) })
    } else {
        None
    }
}

/// What remains of a line after its id, read as a status and a description.
pub open spec fn parse_task(rest: Seq<char>) -> Option<TaskView> {
    if parse_task_as(rest, TaskStatus::Complete) is Some {
        parse_task_as(rest, TaskStatus::Complete)
    } else {
        parse_task_as(rest, TaskStatus::Incomplete)
    }
}

/// The id and the task that `line` stands for. `None` where the line does
/// not begin with a digit, where its digits write a number above `i32::MAX`,
/// or where they are not followed by a colon, a space, the name of a status
/// and a space.
pub open spec fn parse_line(line: Seq<char>) -> Option<(i32, TaskView)> {
    let digits = leading_digits(line);
    match (parse_decimal(line.take(digits)), parse_task(line.skip(digits))) {
        (Some(id), Some(task)) => Some((id, task)),
        _ => None,
    }
}

/// `leading_digits` is where the first character stands that is no digit.
pub proof fn lemma_leading_digits(line: Seq<char>)
    ensures
        0 <= leading_digits(line) <= line.len(),
        all_digits(line.take(leading_digits(line))),
        leading_digits(line) < line.len() ==> !is_digit(line[leading_digits(line)]),
    decreases line.len(),
{
    if line.len() > 0 && is_digit(line[0]) {
        let rest = line.skip(1);
        lemma_leading_digits(rest);
        let head = line.take(leading_digits(line));
        assert forall|i: int| 0 <= i < head.len() implies is_digit(#[trigger] head[i]) by {
            if i > 0 {
                assert(head[i] == rest.take(leading_digits(rest))[i - 1]);
            }
        }
    }
}

/// An index with digits only before it, which holds no digit or is the end
/// of `line`, is `leading_digits(line)`.
pub proof fn lemma_leading_digits_is(line: Seq<char>, end: int)
    requires
        0 <= end <= line.len(),
        forall|i: int| 0 <= i < end ==> is_digit(#[trigger] line[i]),
        end < line.len() ==> !is_digit(line[end]),
    ensures
        leading_digits(line) == end,
{
    lemma_leading_digits(line);
    let found = leading_digits(line);
    if found < end {
        assert(is_digit(line[found]));
    } else if end < found {
        assert(is_digit(line.take(found)[end]));
    }
}

/// The two forms of `status_text`, spelled out.
pub proof fn lemma_status_text(status: TaskStatus)
    ensures
        status_text(TaskStatus::Complete) == seq![
            ':', ' ', 'C', 'o', 'm', 'p', 'l', 'e', 't', 'e', ' ',
        ],
        status_text(TaskStatus::Incomplete) == seq![
            ':', ' ', 'I', 'n', 'c', 'o', 'm', 'p', 'l', 'e', 't', 'e', ' ',
        ],
        status_text(status).len() > 0,
        status_text(status)[0] == ':',
{
    reveal_strlit(": ");
    reveal_strlit(" ");
    reveal_strlit("Complete");
    reveal_strlit("Incomplete");
    assert(status_text(TaskStatus::Complete) =~= seq![
        ':', ' ', 'C', 'o', 'm', 'p', 'l', 'e', 't', 'e', ' ',
    ]);
    assert(status_text(TaskStatus::Incomplete) =~= seq![
        ':', ' ', 'I', 'n', 'c', 'o', 'm', 'p', 'l', 'e', 't', 'e', ' ',
    ]);
}

/// A status and a description, written after an id, are read back as they
/// were.
pub proof fn lemma_parse_task_round_trip(task: TaskView)
    ensures
        parse_task(status_text(task.status) + task.description) == Some(task),
{
    lemma_status_text(task.status);
    let head = status_text(task.status);
    let rest = head + task.description;
    assert(rest.skip(head.len() as int) =~= task.description);
    assert(rest.subrange(0, head.len() as int) =~= head);
    if task.status == TaskStatus::Incomplete {
        assert(rest[2] == 'I');
        assert(status_text(TaskStatus::Complete)[2] == 'C');
    }
}

/// A task written as a line under an id that is not negative is read back
/// from that line as it was, under the same id.
pub proof fn lemma_parse_line_round_trip(id: i32, task: TaskView)
    requires
        id >= 0,
    ensures
        parse_line(task_line(id as int, task)) == Some((id, task)),
{
    let digits = decimal(id as nat);
    let rest = status_text(task.status) + task.description;
    let line = task_line(id as int, task);
    lemma_decimal_round_trip(id as nat);
    lemma_status_text(task.status);
    lemma_parse_task_round_trip(task);
    assert(line =~= digits + rest);
    assert(line[digits.len() as int] == rest[0]);
    lemma_leading_digits_is(line, digits.len() as int);
    assert(line.take(digits.len() as int) =~= digits);
    assert(line.skip(digits.len() as int) =~= rest);
}

/// A line read as a task holds the id in front, which is not negative, and
/// the description from some place up to its end.
pub proof fn lemma_parse_line_parts(line: Seq<char>)
    requires
        parse_line(line) is Some,
    ensures
        parse_line(line) matches Some((id, task)) && id >= 0 && exists|at: int|
            0 <= at <= line.len() && task.description == #[trigger] line.skip(at),
{
    lemma_leading_digits(line);
    let digits = leading_digits(line);
    let rest = line.skip(digits);
    let task = parse_task(rest)->0;
    let width = status_text(task.status).len() as int;
    assert(parse_task_as(rest, task.status) == Some(task));
    assert(rest.skip(width) =~= line.skip(digits + width));
}

/// The line of a task whose description is a single line is a single line.
pub proof fn lemma_task_line_single(id: int, task: TaskView)
    requires
        single_line(task.description),
    ensures
        single_line(task_line(id, task)),
{
    let digits = decimal(if id < 0 { (-id) as nat } else { id as nat });
    let front = id_text(id) + status_text(task.status);
    let line = task_line(id, task);
    lemma_decimal_round_trip(if id < 0 { (-id) as nat } else { id as nat });
    lemma_status_text(task.status);
    assert forall|i: int| 0 <= i < front.len() implies #[trigger] front[i] != '\n' && front[i]
        != '\r' by {
        if i < id_text(id).len() {
            if id < 0 && i > 0 {
                assert(is_digit(digits[i - 1]));
            } else if id >= 0 {
                assert(is_digit(digits[i]));
            }
        } else {
            let k = i - id_text(id).len();
            assert(front[i] == status_text(task.status)[k]);
        }
    }
    assert forall|i: int| 0 <= i < line.len() implies #[trigger] line[i] != '\n' by {
        if i < front.len() {
            assert(line[i] == front[i]);
        } else {
            assert(line[i] == task.description[i - front.len()]);
        }
    }
    if task.description.len() == 0 {
        assert(line.last() == front[front.len() - 1]);
    } else {
        assert(line.last() == task.description.last());
    }
}

/// Appends `id` to `out` as a line writes it.
pub fn push_id(out: &mut String, id: i32)
    ensures
        final(out)@ == old(out)@ + id_text(id as int),
{
    if id < 0 {
        out.push('-');
        let size: u32 = (-(id as i64)) as u32;
        push_decimal(out, size);
        proof {
            assert(old(out)@.push('-') + decimal(size as nat) =~= old(out)@ + id_text(id as int));
        }
    } else {
        push_decimal(out, id as u32);
    }
}

/// Appends to `out` the line that stands for a task of this status and
/// description under `id`, without a line ending.
pub fn push_task_line(out: &mut String, id: i32, status: TaskStatus, description: &str)
    ensures
        final(out)@ == old(out)@ + task_line(
            id as int,
            TaskView { status, description: description@ },
        ),
{
    push_id(out, id);
    out.append(": ");
    out.append(status.name());
    out.append(" ");
    out.append(description);
    proof {
        assert(final(out)@ =~= old(out)@ + task_line(
            id as int,
            TaskView { status, description: description@ },
        ));
    }
}

/// Reads what remains of a line from `at` on as a task of this status.
fn read_task_as(line: &[char], at: usize, status: TaskStatus) -> (r: Option<Task>)
    requires
        at <= line.len(),
    ensures
        match parse_task_as(line@.skip(at as int), status) {
            Some(task) => r is Some && r->0@ == task,
            None => r is None,
        },
{
    let mut head = String::from_str(": ");
    head.append(status.name());
    head.append(" ");
    if !has_at(line, at, head.as_str()) {
        return None;
    }
    let width: usize = head.as_str().unicode_len();
    proof {
        assert(line@.skip(at as int).skip(width as int) =~= line@.subrange(
            at + width,
            line.len() as int,
        ));
    }
    Some(Task { status, description: string_from(line, at + width) })
}

/// Reads what remains of a line from `at` on as a status and a description.
fn read_task(line: &[char], at: usize) -> (r: Option<Task>)
    requires
        at <= line.len(),
    ensures
        match parse_task(line@.skip(at as int)) {
            Some(task) => r is Some && r->0@ == task,
            None => r is None,
        },
{
    match read_task_as(line, at, TaskStatus::Complete) {
        Some(task) => Some(task),
        None => read_task_as(line, at, TaskStatus::Incomplete),
    }
}

/// Reads `line` as an id and a task.
pub fn read_line(line: &[char]) -> (r: Option<(i32, Task)>)
    ensures
        match parse_line(line@) {
            Some((id, task)) => r matches Some((found, read)) && found == id && read@ == task,
            None => r is None,
        },
{
    let mut digits: usize = 0;
    while digits < line.len() && '0' <= line[digits] && line[digits] <= '9'
        invariant
            digits <= line.len(),
            forall|i: int| 0 <= i < digits ==> is_digit(#[trigger] line@[i]),
        decreases line.len() - digits,
    {
        digits += 1;
    }
    proof {
        lemma_leading_digits_is(line@, digits as int);
        assert(line@.take(digits as int) =~= line@.subrange(0, digits as int));
    }
    let id = read_decimal(line, 0, digits);
    let task = read_task(line, digits);
    match (id, task) {
        (Some(id), Some(task)) => Some((id, task)),
        _ => None,
    }
}

} // verus!
