//! The task store: the list as the text of its backing file.
//!
//! Nothing here touches a file. Each operation takes what the backing file
//! holds, or `None` where there is no such file, and gives back what is to
//! be written.

use crate::error::TaskError;
use crate::laws::{lemma_first_malformed_stays, lemma_written_loads_back};
use crate::lines::{
    cut_lines, join_lines, lemma_join_lines_push, line_views, single_line, split_lines,
};
use crate::status::TaskStatus;
use crate::task::{parse_line, push_task_line, read_line, task_line, Task, TaskView};
use crate::text::chars_of;
use std::collections::HashMap;
use vstd::prelude::*;
use vstd::std_specs::hash::spec_hash_map_iter;
use vstd::std_specs::iter::IteratorSpec;

verus! {

broadcast use vstd::std_specs::hash::group_hash_axioms;

/// A collection of tasks as a mathematical value: each id with its task.
pub open spec fn tasks_view(tasks: Map<i32, Task>) -> Map<i32, TaskView> {
    tasks.map_values(|task: Task| task@)
}

/// What a backing file holds, as a mathematical value.
pub open spec fn content_view(content: Option<&str>) -> Option<Seq<char>> {
    match content {
        Some(text) => Some(text@),
        None => None,
    }
}

/// The index of the first of `lines` that is no task line, if there is one.
pub open spec fn first_malformed(lines: Seq<Seq<char>>) -> Option<int>
    decreases lines.len(),
{
    if lines.len() == 0 {
        None
    } else if first_malformed(lines.drop_last()) is Some {
        first_malformed(lines.drop_last())
    } else if parse_line(lines.last()) is None {
        Some(lines.len() - 1)
    } else {
        None
    }
}

/// The tasks that `lines` stand for, where each of them is a task line.
/// Of two lines with one id the later one counts.
pub open spec fn tasks_of(lines: Seq<Seq<char>>) -> Map<i32, TaskView>
    decreases lines.len(),
{
    if lines.len() == 0 {
        Map::empty()
    } else {
        let (id, task) = parse_line(lines.last())->0;
        tasks_of(lines.drop_last()).insert(id, task)
    }
}

/// What loading gives for a backing file that holds `content`: an I/O error
/// where there is no file, a parse error with the number of the first line
/// that is no task line, and else the tasks of all its lines.
pub open spec fn loaded(content: Option<Seq<char>>) -> Result<Map<i32, TaskView>, TaskError> {
    match content {
        None => Err(TaskError::IOError),
        Some(text) => match first_malformed(split_lines(text)) {
            Some(at) => Err(TaskError::ParseError { line: (at + 1) as usize }),
            None => Ok(tasks_of(split_lines(text))),
        },
    }
}

/// The id that the next new task gets in a backing file that holds
/// `content`: zero where there is no file or no line, else one more than the
/// id of the last line, whatever the ids of the lines before it. A parse
/// error with the number of the last line where that is no task line, or
/// where its id is `i32::MAX`.
pub open spec fn next_id(content: Option<Seq<char>>) -> Result<i32, TaskError> {
    match content {
        None => Ok(0),
        Some(text) => {
            let lines = split_lines(text);
            if lines.len() == 0 {
                Ok(0)
            } else {
                match parse_line(lines.last()) {
                    Some((id, _)) if id < i32::MAX => Ok((id + 1) as i32),
                    _ => Err(TaskError::ParseError { line: lines.len() as usize }),
                }
            }
        },
    }
}

/// The line for a new task with this id and description, with the line
/// feed that ends it: the task is not yet done.
pub open spec fn new_task_line(id: int, description: Seq<char>) -> Seq<char> {
    task_line(id, TaskView { status: TaskStatus::Incomplete, description }) + seq!['\n']
}

/// What the backing file holds after `line` has been appended to it. Where
/// there was no file, it holds the line alone.
pub open spec fn appended(content: Option<Seq<char>>, line: Seq<char>) -> Seq<char> {
    match content {
        Some(text) => text + line,
        None => line,
    }
}

/// The lines that stand for the tasks of `tasks` with the ids `order`, in
/// that order.
pub open spec fn task_lines(order: Seq<i32>, tasks: Map<i32, TaskView>) -> Seq<Seq<char>> {
    Seq::new(order.len(), |i: int| task_line(order[i] as int, tasks[order[i]]))
}

/// Whether `text` writes out `tasks`: one line for each task, in some
/// order, each line followed by a line feed.
pub open spec fn writes_out(text: Seq<char>, tasks: Map<i32, TaskView>) -> bool {
    exists|order: Seq<i32>|
        #![trigger task_lines(order, tasks)]
        order.no_duplicates() && order.to_set() == tasks.dom() && text == join_lines(
            task_lines(order, tasks),
        )
}

/// Whether `tasks` can be written out and loaded again unchanged: no id is
/// negative, and each description is a single line.
pub open spec fn storable(tasks: Map<i32, TaskView>) -> bool {
    forall|id: i32| #[trigger]
        tasks.contains_key(id) ==> id >= 0 && single_line(tasks[id].description)
}

/// Loads the tasks from what the backing file holds. One line that is no
/// task line fails the whole load.
pub fn read_tasks_to_map(content: Option<&str>) -> (r: Result<HashMap<i32, Task>, TaskError>)
    ensures
        match loaded(content_view(content)) {
            Ok(tasks) => r is Ok && tasks_view(r->Ok_0@) == tasks,
            Err(e) => r == Err::<HashMap<i32, Task>, TaskError>(e),
        },
{
    let text = match content {
        Some(text) => text,
        None => {
            return Err(TaskError::IOError);
        },
    };
    let chars = chars_of(text);
    let lines = cut_lines(chars.as_slice());
    let ghost all = split_lines(text@);
    let mut tasks: HashMap<i32, Task> = HashMap::new();
    let mut i: usize = 0;
    proof {
        assert(tasks_view(tasks@) =~= tasks_of(all.take(0)));
    }
    while i < lines.len()
        invariant
            i <= lines.len(),
            content == Some(text),
            all == split_lines(text@),
            line_views(lines@) == all,
            first_malformed(all.take(i as int)) is None,
            tasks_view(tasks@) == tasks_of(all.take(i as int)),
        decreases lines.len() - i,
    {
        let ghost seen = all.take(i as int);
        let ghost more = all.take(i + 1);
        proof {
            assert(more.drop_last() =~= seen);
            assert(more.last() == lines@[i as int]@);
        }
        match read_line(lines[i].as_slice()) {
            None => {
                proof {
                    assert(first_malformed(more) == Some(i as int));
                    lemma_first_malformed_stays(all, i + 1);
                }
                return Err(TaskError::ParseError { line: i + 1 });
            },
            Some((id, task)) => {
                let ghost before = tasks@;
                tasks.insert(id, task);
                proof {
                    assert(tasks_view(before.insert(id, task)) =~= tasks_view(before).insert(
                        id,
                        task@,
                    ));
                }
            },
        }
        i += 1;
    }
    proof {
        assert(all.take(lines.len() as int) =~= all);
    }
    Ok(tasks)
}

/// The id for the next new task, from what the backing file holds. Only
/// the last line is looked at. Where there is no file yet, the id is zero
/// and the caller creates the file.
pub fn get_next_id(content: Option<&str>) -> (r: Result<i32, TaskError>)
    ensures
        r == next_id(content_view(content)),
{
    let text = match content {
        Some(text) => text,
        None => {
            return Ok(0);
        },
    };
    let chars = chars_of(text);
    let lines = cut_lines(chars.as_slice());
    let count: usize = lines.len();
    if count == 0 {
        return Ok(0);
    }
    proof {
        assert(line_views(lines@).last() == lines@[count - 1]@);
    }
    match read_line(lines[count - 1].as_slice()) {
        Some((id, _)) => {
            if id < i32::MAX {
                Ok(id + 1)
            } else {
                Err(TaskError::ParseError { line: count })
            }
        },
        None => Err(TaskError::ParseError { line: count }),
    }
}

/// The line to append to the backing file for a new task described by
/// `task_description`: it is not yet done, its id is the next one, and the
/// line ends in a line feed.
pub fn create_task(content: Option<&str>, task_description: &str) -> (r: Result<String, TaskError>)
    ensures
        match next_id(content_view(content)) {
            Ok(id) => r is Ok && r->Ok_0@ == new_task_line(id as int, task_description@),
            Err(e) => r == Err::<String, TaskError>(e),
        },
{
    let id = match get_next_id(content) {
        Ok(id) => id,
        Err(e) => {
            return Err(e);
        },
    };
    let mut line = String::new();
    push_task_line(&mut line, id, TaskStatus::Incomplete, task_description);
    line.push('\n');
    proof {
        assert(line@ =~= new_task_line(id as int, task_description@));
    }
    Ok(line)
}

/// The text of a backing file that holds `tasks`: a line for each task, in
/// no particular order. Ids and descriptions are written as they are; the
/// text loads back as `tasks` where these are storable.
pub fn write_tasks(tasks: &HashMap<i32, Task>) -> (text: String)
    ensures
        writes_out(text@, tasks_view(tasks@)),
        storable(tasks_view(tasks@)) ==> loaded(Some(text@)) == Ok::<Map<i32, TaskView>, TaskError>(
            tasks_view(tasks@),
        ),
{
    let mut text = String::new();
    let ghost held = tasks_view(tasks@);
    let ghost mut order: Seq<i32> = Seq::empty();
    proof {
        assert(task_lines(order, held) =~= Seq::<Seq<char>>::empty());
    }
    for entry in it: tasks.iter()
        invariant
            held == tasks_view(tasks@),
            it.seq() == spec_hash_map_iter(tasks).remaining(),
            it.seq().no_duplicates(),
            order.len() == it.index(),
            forall|i: int| 0 <= i < order.len() ==> order[i] == *(#[trigger] it.seq()[i]).0,
            text@ == join_lines(task_lines(order, held)),
    {
        let (id, task) = entry;
        let ghost before = text@;
        let ghost line = task_line(*id as int, task@);
        push_task_line(&mut text, *id, task.status, task.description.as_str());
        text.push('\n');
        proof {
            assert(entry == it.seq()[it.index()]);
            assert(tasks@.contains_key(*id) && tasks@[*id] == *task);
            assert(held[*id] == task@);
            assert(task_lines(order.push(*id), held) =~= task_lines(order, held).push(line));
            lemma_join_lines_push(task_lines(order, held), line);
            assert(text@ =~= before + line + seq!['\n']);
            order = order.push(*id);
        }
    }
    proof {
        let pairs = spec_hash_map_iter(tasks).remaining();
        assert forall|i: int, j: int|
            0 <= i < order.len() && 0 <= j < order.len() && i != j implies order[i] != order[j] by {
            if order[i] == order[j] {
                assert(*pairs[i].0 == *pairs[j].0);
                assert(tasks@[*pairs[i].0] == *pairs[i].1);
                assert(tasks@[*pairs[j].0] == *pairs[j].1);
                assert(pairs[i] == pairs[j]);
            }
        }
        assert forall|id: i32| order.to_set().contains(id) <==> held.dom().contains(id) by {
            if order.to_set().contains(id) {
                let i = choose|i: int| 0 <= i < order.len() && order[i] == id;
                assert(tasks@.contains_key(*pairs[i].0));
            }
            if held.dom().contains(id) {
                assert(tasks@.contains_key(id));
                assert(pairs.contains((&id, &tasks@[id])));
                let i = choose|i: int| 0 <= i < pairs.len() && pairs[i] == (&id, &tasks@[id]);
                assert(order[i] == id);
            }
        }
        assert(order.to_set() =~= held.dom());
        assert(writes_out(text@, held));
        if storable(held) {
            lemma_written_loads_back(text@, held);
        }
    }
    text
}

/// The text of the backing file after the task under `task_id` has been
/// given this status and description. A task that was not there is put in.
/// Fails as loading does, and not otherwise.
pub fn edit_task(
    content: Option<&str>,
    task_id: i32,
    status: TaskStatus,
    task_description: &str,
) -> (r: Result<String, TaskError>)
    ensures
        match loaded(content_view(content)) {
            Ok(tasks) => {
                let edited = tasks.insert(
                    task_id,
                    TaskView { status, description: task_description@ },
                );
                &&& r is Ok
                &&& writes_out(r->Ok_0@, edited)
                &&& storable(edited) ==> loaded(Some(r->Ok_0@)) == Ok::<
                    Map<i32, TaskView>,
                    TaskError,
                >(edited)
            },
            Err(e) => r == Err::<String, TaskError>(e),
        },
{
    let mut tasks = match read_tasks_to_map(content) {
        Ok(tasks) => tasks,
        Err(e) => {
            return Err(e);
        },
    };
    let ghost before = tasks@;
    let task = Task { status, description: String::from_str(task_description) };
    tasks.insert(task_id, task);
    proof {
        assert(tasks_view(before.insert(task_id, task)) =~= tasks_view(before).insert(
            task_id,
            task@,
        ));
    }
    Ok(write_tasks(&tasks))
}

/// The text of the backing file after the task under `task_id` has been
/// taken out. Where there is no such task, the tasks stay as they are.
/// Fails as loading does, and not otherwise.
pub fn remove_task(content: Option<&str>, task_id: i32) -> (r: Result<String, TaskError>)
    ensures
        match loaded(content_view(content)) {
            Ok(tasks) => {
                let kept = tasks.remove(task_id);
                &&& r is Ok
                &&& writes_out(r->Ok_0@, kept)
                &&& !tasks.contains_key(task_id) ==> writes_out(r->Ok_0@, tasks)
                &&& storable(kept) ==> loaded(Some(r->Ok_0@)) == Ok::<
                    Map<i32, TaskView>,
                    TaskError,
                >(kept)
            },
            Err(e) => r == Err::<String, TaskError>(e),
        },
{
    let mut tasks = match read_tasks_to_map(content) {
        Ok(tasks) => tasks,
        Err(e) => {
            return Err(e);
        },
    };
    let ghost before = tasks@;
    tasks.remove(&task_id);
    proof {
        assert(tasks_view(before.remove(task_id)) =~= tasks_view(before).remove(task_id));
        if !tasks_view(before).contains_key(task_id) {
            assert(tasks_view(before).remove(task_id) =~= tasks_view(before));
        }
    }
    Ok(write_tasks(&tasks))
}

} // verus!
