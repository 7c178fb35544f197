//! What holds of the task store: how loading, writing out and creating
//! go together.

use crate::error::TaskError;
use crate::lines::{
    join_lines, lemma_split_join, lemma_split_lines_append, lemma_split_lines_no_line_feed,
    single_line, split_lines,
};
use crate::status::TaskStatus;
use crate::store::{
    appended, first_malformed, loaded, new_task_line, next_id, storable, task_lines, tasks_of,
    writes_out,
};
use crate::task::{
    lemma_parse_line_parts, lemma_parse_line_round_trip, lemma_task_line_single, parse_line,
    task_line, TaskView,
};
use vstd::prelude::*;

verus! {

/// `first_malformed` is the first line that is no task line: the lines
/// before it are task lines, and where it is `None` all lines are.
pub proof fn lemma_first_malformed(lines: Seq<Seq<char>>)
    ensures
        match first_malformed(lines) {
            Some(at) => {
                &&& 0 <= at < lines.len()
                &&& parse_line(lines[at]) is None
                &&& forall|k: int| 0 <= k < at ==> parse_line(#[trigger] lines[k]) is Some
            },
            None => forall|k: int| 0 <= k < lines.len() ==> parse_line(#[trigger] lines[k]) is Some,
        },
    decreases lines.len(),
{
    if lines.len() > 0 {
        let front = lines.drop_last();
        lemma_first_malformed(front);
        assert forall|k: int| 0 <= k < front.len() implies lines[k] == front[k] by {}
    }
}

/// The first line that is no task line among the first `k` of `lines` is
/// the first among all of them.
pub proof fn lemma_first_malformed_stays(lines: Seq<Seq<char>>, k: int)
    requires
        0 <= k <= lines.len(),
        first_malformed(lines.take(k)) is Some,
    ensures
        first_malformed(lines) == first_malformed(lines.take(k)),
    decreases lines.len(),
{
    if k == lines.len() {
        assert(lines.take(k) =~= lines);
    } else {
        assert(lines.drop_last().take(k) =~= lines.take(k));
        lemma_first_malformed_stays(lines.drop_last(), k);
    }
}

/// Lines that are all task lines hold no first line that is none.
pub proof fn lemma_no_malformed(lines: Seq<Seq<char>>)
    requires
        forall|k: int| 0 <= k < lines.len() ==> parse_line(#[trigger] lines[k]) is Some,
    ensures
        first_malformed(lines) is None,
    decreases lines.len(),
{
    if lines.len() > 0 {
        let front = lines.drop_last();
        assert forall|k: int| 0 <= k < front.len() implies parse_line(#[trigger] front[k])
            is Some by {
            assert(front[k] == lines[k]);
        }
        lemma_no_malformed(front);
        assert(lines.last() == lines[lines.len() - 1]);
    }
}

/// The lines written for tasks under ids that are not negative stand for
/// those tasks again: the ids are the ones written, each with its task.
pub proof fn lemma_tasks_of_task_lines(order: Seq<i32>, tasks: Map<i32, TaskView>)
    requires
        forall|k: int| 0 <= k < order.len() ==> #[trigger] order[k] >= 0,
    ensures
        first_malformed(task_lines(order, tasks)) is None,
        tasks_of(task_lines(order, tasks)).dom() == order.to_set(),
        forall|id: i32|
            order.to_set().contains(id) ==> #[trigger] tasks_of(task_lines(order, tasks))[id]
                == tasks[id],
    decreases order.len(),
{
    let lines = task_lines(order, tasks);
    assert forall|k: int| 0 <= k < lines.len() implies parse_line(#[trigger] lines[k]) is Some by {
        assert(order[k] >= 0);
        lemma_parse_line_round_trip(order[k], tasks[order[k]]);
    }
    lemma_no_malformed(lines);
    if order.len() == 0 {
        assert(tasks_of(lines).dom() =~= order.to_set());
    } else {
        let front = order.drop_last();
        let id = order.last();
        assert forall|k: int| 0 <= k < front.len() implies #[trigger] front[k] >= 0 by {
            assert(front[k] == order[k]);
        }
        lemma_tasks_of_task_lines(front, tasks);
        assert(lines.drop_last() =~= task_lines(front, tasks));
        lemma_parse_line_round_trip(id, tasks[id]);
        assert(tasks_of(lines) == tasks_of(task_lines(front, tasks)).insert(id, tasks[id]));
        assert(order =~= front.push(id));
        assert forall|other: i32| order.to_set().contains(other) <==> (front.to_set().contains(
            other,
        ) || other == id) by {
            if front.to_set().contains(other) {
                let k = choose|k: int| 0 <= k < front.len() && front[k] == other;
                assert(order[k] == other);
            }
            if order.to_set().contains(other) && other != id {
                let k = choose|k: int| 0 <= k < order.len() && order[k] == other;
                assert(front[k] == other);
            }
            if other == id {
                assert(order[order.len() - 1] == other);
            }
        }
        assert(tasks_of(lines).dom() =~= order.to_set());
    }
}

/// A text that writes out storable tasks loads back as those tasks.
pub proof fn lemma_written_loads_back(text: Seq<char>, tasks: Map<i32, TaskView>)
    requires
        writes_out(text, tasks),
        storable(tasks),
    ensures
        loaded(Some(text)) == Ok::<Map<i32, TaskView>, TaskError>(tasks),
{
    let order = choose|order: Seq<i32>|
        #![trigger task_lines(order, tasks)]
        order.no_duplicates() && order.to_set() == tasks.dom() && text == join_lines(
            task_lines(order, tasks),
        );
    let lines = task_lines(order, tasks);
    assert forall|k: int| 0 <= k < order.len() implies #[trigger] order[k] >= 0 by {
        assert(order.to_set().contains(order[k]));
        assert(tasks.contains_key(order[k]));
    }
    assert forall|k: int| 0 <= k < lines.len() implies single_line(#[trigger] lines[k]) by {
        assert(order.to_set().contains(order[k]));
        assert(tasks.contains_key(order[k]));
        lemma_task_line_single(order[k] as int, tasks[order[k]]);
    }
    lemma_split_join(lines);
    lemma_tasks_of_task_lines(order, tasks);
    assert(tasks_of(lines) =~= tasks);
}

/// The last line decides the next id. After the line of a task has been
/// appended under `id` to a backing file that is empty or ends in a line
/// feed, the next id is `id + 1`, whatever ids the lines before it hold.
pub proof fn lemma_last_line_decides(text: Seq<char>, id: i32, task: TaskView)
    requires
        text.len() == 0 || text.last() == '\n',
        0 <= id < i32::MAX,
        single_line(task.description),
    ensures
        split_lines(text + task_line(id as int, task) + seq!['\n']) == split_lines(text).push(
            task_line(id as int, task),
        ),
        next_id(Some(text + task_line(id as int, task) + seq!['\n'])) == Ok::<i32, TaskError>(
            (id + 1) as i32,
        ),
{
    let line = task_line(id as int, task);
    lemma_task_line_single(id as int, task);
    lemma_split_lines_append(text, line);
    lemma_parse_line_round_trip(id, task);
    assert(split_lines(text).push(line).last() == line);
}

/// After a new task has been appended under `id` to a backing file that is
/// empty or ends in a line feed, the next id is `id + 1`, and the file loads
/// as it did before, with the new task put in under `id`.
pub proof fn lemma_create_appends(text: Seq<char>, id: i32, description: Seq<char>)
    requires
        text.len() == 0 || text.last() == '\n',
        0 <= id < i32::MAX,
        single_line(description),
    ensures
        next_id(Some(text + new_task_line(id as int, description))) == Ok::<i32, TaskError>(
            (id + 1) as i32,
        ),
        loaded(Some(text)) matches Ok(tasks) ==> loaded(
            Some(text + new_task_line(id as int, description)),
        ) == Ok::<Map<i32, TaskView>, TaskError>(
            tasks.insert(id, TaskView { status: TaskStatus::Incomplete, description }),
        ),
        loaded(Some(text)) is Err ==> loaded(Some(text + new_task_line(id as int, description)))
            == loaded(Some(text)),
{
    let task = TaskView { status: TaskStatus::Incomplete, description };
    let line = task_line(id as int, task);
    let lines = split_lines(text);
    lemma_last_line_decides(text, id, task);
    lemma_parse_line_round_trip(id, task);
    assert(text + new_task_line(id as int, description) =~= text + line + seq!['\n']);
    assert(lines.push(line).drop_last() =~= lines);
}

/// Each task among those of `lines` stands in one of the lines.
pub proof fn lemma_tasks_of_has_line(lines: Seq<Seq<char>>, id: i32)
    requires
        first_malformed(lines) is None,
        tasks_of(lines).contains_key(id),
    ensures
        exists|k: int|
            0 <= k < lines.len() && parse_line(#[trigger] lines[k]) == Some(
                (id, tasks_of(lines)[id]),
            ),
    decreases lines.len(),
{
    if lines.len() > 0 {
        let front = lines.drop_last();
        let (last_id, last_task) = parse_line(lines.last())->0;
        if last_id == id {
            assert(parse_line(lines[lines.len() - 1]) == Some((id, last_task)));
        } else {
            lemma_tasks_of_has_line(front, id);
            let k = choose|k: int|
                0 <= k < front.len() && parse_line(#[trigger] front[k]) == Some(
                    (id, tasks_of(front)[id]),
                );
            assert(lines[k] == front[k]);
        }
    }
}

/// What is loaded holds no negative id and no line feed in a description.
pub proof fn lemma_loaded_is_sound(content: Option<Seq<char>>, id: i32)
    requires
        loaded(content) matches Ok(tasks) && tasks.contains_key(id),
    ensures
        id >= 0,
        forall|i: int|
            0 <= i < loaded(content)->Ok_0[id].description.len() ==> #[trigger] loaded(
                content,
            )->Ok_0[id].description[i] != '\n',
{
    let lines = split_lines(content->0);
    let task = tasks_of(lines)[id];
    lemma_tasks_of_has_line(lines, id);
    let k = choose|k: int|
        0 <= k < lines.len() && parse_line(#[trigger] lines[k]) == Some((id, task));
    lemma_parse_line_parts(lines[k]);
    lemma_split_lines_no_line_feed(content->0, k);
    let at = choose|at: int|
        0 <= at <= lines[k].len() && task.description == #[trigger] lines[k].skip(at);
    assert forall|i: int| 0 <= i < task.description.len() implies #[trigger] task.description[i]
        != '\n' by {
        assert(task.description[i] == lines[k][at + i]);
    }
}

/// Two tasks created one after the other, in a backing file that was empty
/// or not there, get the ids 0 and 1, and the file then holds the two.
pub proof fn lemma_first_two_ids(start: Option<Seq<char>>, first: Seq<char>, second: Seq<char>)
    requires
        start is None || start == Some(Seq::<char>::empty()),
        single_line(first),
        single_line(second),
    ensures
        next_id(start) == Ok::<i32, TaskError>(0),
        next_id(Some(appended(start, new_task_line(0, first)))) == Ok::<i32, TaskError>(1),
        loaded(
            Some(appended(start, new_task_line(0, first)) + new_task_line(1, second)),
        ) == Ok::<Map<i32, TaskView>, TaskError>(
            map![
                0i32 => TaskView { status: TaskStatus::Incomplete, description: first },
                1i32 => TaskView { status: TaskStatus::Incomplete, description: second },
            ],
        ),
{
    let empty = Seq::<char>::empty();
    let one = appended(start, new_task_line(0, first));
    assert(one =~= empty + new_task_line(0, first));
    lemma_create_appends(empty, 0, first);
    lemma_create_appends(one, 1, second);
}

} // verus!
