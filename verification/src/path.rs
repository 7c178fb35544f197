//! Where the backing file lies: `todo/list.txt` below the home directory.

use crate::error::TaskError;
use vstd::prelude::*;

verus! {

/// The path of the backing file below the home directory `home`. A
/// separator is put between the two unless `home` is empty or ends in one.
pub open spec fn list_path(home: Seq<char>) -> Seq<char> {
    if home.len() == 0 || home.last() == '/' {
        home + "todo/list.txt"@
    } else {
        home + "/todo/list.txt"@
    }
}

/// The path of the backing file below `home`; the home directory is not
/// known where `home` is `None`.
pub fn list_path_in(home: Option<&str>) -> (r: Result<String, TaskError>)
    ensures
        match home {
            Some(dir) => r is Ok && r->Ok_0@ == list_path(dir@),
            None => r == Err::<String, TaskError>(TaskError::NotFound),
        },
{
    let dir = match home {
        Some(dir) => dir,
        None => {
            return Err(TaskError::NotFound);
        },
    };
    let count: usize = dir.unicode_len();
    let mut path = String::from_str(dir);
    if count > 0 && dir.get_char(count - 1) != '/' {
        path.append("/");
        proof {
            reveal_strlit("/");
            reveal_strlit("todo/list.txt");
            reveal_strlit("/todo/list.txt");
            assert("/"@ + "todo/list.txt"@ =~= "/todo/list.txt"@);
        }
    }
    path.append("todo/list.txt");
    proof {
        assert(path@ =~= list_path(dir@));
    }
    Ok(path)
}

/// Calls `dirs::home_dir`, which asks the operating system for the home
/// directory of the user, and hands the path on as a string where it is
/// valid Unicode. The answer is not the same on every machine, so nothing
/// is claimed of it.
#[verifier::external_body]
fn home_dir() -> (home: Option<String>) {
    match dirs::home_dir() {
        Some(dir) => dir.to_str().map(String::from),
        None => None,
    }
}

/// The path of the backing file of the user who runs the program.
pub fn todo_list_path() -> (r: Result<String, TaskError>)
    ensures
        match r {
            Ok(path) => exists|home: Seq<char>| path@ == #[trigger] list_path(home),
            Err(e) => e == TaskError::NotFound,
        },
{
    let home = home_dir();
    match home {
        Some(dir) => list_path_in(Some(dir.as_str())),
        None => list_path_in(None),
    }
}

} // verus!
