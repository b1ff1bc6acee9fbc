//! The task store: an ordered in-memory task sequence tied to one backing
//! file. The store computes the text to persist after every mutation; the
//! caller reads and writes the file itself and hands the contents over as
//! plain strings.

use vstd::prelude::*;
use crate::task::{Task, TaskView, display_line};
use crate::json::{spec_encode, spec_parse, seq_views, encode_tasks, parse_tasks};
use crate::text::{chars_of, trim_spec, trim_chars, eq_ci, chars_eq_ci, string_from_chars};

verus! {

/// Why loading stored text failed: the contents were not in the
/// serialized form. Failures of the file reading itself stay with the
/// caller that does the reading.
#[derive(Debug, PartialEq, Eq, Structural)]
pub enum LoadError {
    Parse,
}

/// The view of stored file contents: nothing when the file is missing.
pub open spec fn stored_view(stored: Option<&str>) -> Option<Seq<char>> {
    match stored {
        None => None,
        Some(s) => Some(s@),
    }
}

/// What the store starts with: the parsed contents where they parse, and
/// an empty sequence where the file is missing or unreadable text.
pub open spec fn startup_tasks(stored: Option<Seq<char>>) -> Seq<TaskView> {
    match stored {
        None => Seq::empty(),
        Some(s) => match spec_parse(s) {
            Some(ts) => ts,
            None => Seq::empty(),
        },
    }
}

/// The index of the first task whose title matches `key` ASCII
/// case-insensitively, or the length of the sequence when none does.
pub open spec fn first_ci_match(ts: Seq<TaskView>, key: Seq<char>) -> int
    decreases ts.len(),
{
    if ts.len() == 0 {
        0
    } else if eq_ci(ts[0].title, key) {
        0
    } else {
        1 + first_ci_match(ts.skip(1), key)
    }
}

proof fn lemma_first_ci_match_skip(ts: Seq<TaskView>, key: Seq<char>, i: int)
    requires
        0 <= i <= ts.len(),
        forall|k: int| 0 <= k < i ==> !eq_ci(ts[k].title, key),
    ensures
        first_ci_match(ts, key) == i + first_ci_match(ts.skip(i), key),
    decreases i,
{
    if i == 0 {
        assert(ts.skip(0) =~= ts);
    } else {
        assert(!eq_ci(ts[0].title, key));
        lemma_first_ci_match_skip(ts.skip(1), key, i - 1);
        assert(ts.skip(1).skip(i - 1) =~= ts.skip(i));
        assert(forall|k: int| 0 <= k < i - 1 ==> ts.skip(1)[k] == ts[k + 1]);
    }
}

/// The owner of the in-memory task sequence for one backing file.
pub struct TaskManager {
    storage_file: String,
    tasks: Vec<Task>,
}

impl TaskManager {
    /// The path of the backing file, fixed at construction.
    pub closed spec fn path_view(&self) -> Seq<char> {
        self.storage_file@
    }

    /// The current task sequence, in insertion order.
    pub closed spec fn tasks_view(&self) -> Seq<TaskView> {
        seq_views(self.tasks@)
    }

    /// Parses stored file contents into tasks. A missing file (`None`) is
    /// an empty list, never an error; text that is not in the serialized
    /// form is a parse error.
    pub fn load_tasks(stored: Option<&str>) -> (r: Result<Vec<Task>, LoadError>)
        ensures
            (match stored {
                None => r matches Ok(ts) && seq_views(ts@) == Seq::<TaskView>::empty(),
                Some(s) => match spec_parse(s@) {
                    Some(views) => r matches Ok(ts) && seq_views(ts@) == views,
                    None => r matches Err(e) && e == LoadError::Parse,
                },
            }),
    {
        match stored {
            None => {
                let ts: Vec<Task> = Vec::new();
                proof {
                    assert(seq_views(ts@) =~= Seq::<TaskView>::empty());
                }
                Ok(ts)
            }
            Some(s) => {
                let v = chars_of(s);
                match parse_tasks(&v) {
                    Some(ts) => Ok(ts),
                    None => Err(LoadError::Parse),
                }
            }
        }
    }

    /// Builds a store for the given path from the file contents the caller
    /// read (`None` when the file does not exist). Contents that fail to
    /// parse are discarded: startup is best-effort and never fails.
    pub fn new(storage_file: &str, stored: Option<&str>) -> (r: TaskManager)
        ensures
            r.path_view() == storage_file@,
            r.tasks_view() == startup_tasks(stored_view(stored)),
    {
        let tasks = match Self::load_tasks(stored) {
            Ok(ts) => ts,
            Err(_) => {
                let empty: Vec<Task> = Vec::new();
                proof {
                    assert(seq_views(empty@) =~= Seq::<TaskView>::empty());
                }
                empty
            }
        };
        TaskManager { storage_file: String::from_str(storage_file), tasks }
    }

    /// The current task sequence.
    pub fn tasks(&self) -> (r: &Vec<Task>)
        ensures
            seq_views(r@) == self.tasks_view(),
    {
        &self.tasks
    }

    /// The serialized form of the whole current sequence, for the caller
    /// to write over the backing file.
    pub fn save_tasks(&self) -> (r: String)
        ensures
            r@ == spec_encode(self.tasks_view()),
    {
        encode_tasks(&self.tasks)
    }

    /// Appends a new incomplete task with the trimmed title and
    /// description, unless the trimmed title is empty, in which case
    /// nothing changes. Returns whether a task was added (and the backing
    /// file therefore needs rewriting).
    pub fn create_task(&mut self, title: &str, description: &str) -> (added: bool)
        ensures
            added == (trim_spec(title@).len() != 0),
            final(self).path_view() == old(self).path_view(),
            added ==> final(self).tasks_view() == old(self).tasks_view().push(
                TaskView {
                    title: trim_spec(title@),
                    description: trim_spec(description@),
                    completed: false,
                },
            ),
            !added ==> final(self).tasks_view() == old(self).tasks_view(),
    {
        let tchars = chars_of(title);
        let tt = trim_chars(&tchars);
        if tt.len() == 0 {
            return false;
        }
        let dchars = chars_of(description);
        let dd = trim_chars(&dchars);
        let task = Task::new(string_from_chars(&tt), string_from_chars(&dd));
        let ghost tv = task@;
        self.tasks.push(task);
        proof {
            assert(seq_views(self.tasks@) =~= seq_views(old(self).tasks@).push(tv));
        }
        true
    }

    /// The listing: one display line per task in sequence order, or the
    /// single "no tasks" message when the sequence is empty.
    pub fn list_tasks(&self) -> (r: Vec<String>)
        ensures
            self.tasks_view().len() == 0 ==> r@.len() == 1 && r@[0]@ == "No tasks available."@,
            self.tasks_view().len() > 0 ==> r@.len() == self.tasks_view().len() && (forall|i: int|
                0 <= i < r@.len() ==> r@[i]@ == display_line(self.tasks_view()[i])),
    {
        let mut r: Vec<String> = Vec::new();
        if self.tasks.len() == 0 {
            r.push(String::from_str("No tasks available."));
        } else {
            let mut i: usize = 0;
            while i < self.tasks.len()
                invariant
                    i <= self.tasks@.len(),
                    r@.len() == i,
                    forall|k: int| 0 <= k < i ==> r@[k]@ == display_line(self.tasks_view()[k]),
                decreases self.tasks@.len() - i,
            {
                let line = self.tasks[i].to_display_string();
                r.push(line);
                i = i + 1;
            }
        }
        r
    }

    /// Removes the first task whose title matches the trimmed search title
    /// ASCII case-insensitively, and returns its original-cased title (the
    /// backing file then needs rewriting). When no title matches, the
    /// sequence is untouched and nothing is returned.
    pub fn delete_task(&mut self, title: &str) -> (r: Option<String>)
        ensures
            final(self).path_view() == old(self).path_view(),
            (match r {
                Some(name) => {
                    let ts = old(self).tasks_view();
                    let i = first_ci_match(ts, trim_spec(title@));
                    i < ts.len() && name@ == ts[i].title && final(self).tasks_view() == ts.remove(
                        i,
                    )
                }
                None => first_ci_match(old(self).tasks_view(), trim_spec(title@)) == old(
                    self,
                ).tasks_view().len() && final(self).tasks_view() == old(self).tasks_view(),
            }),
    {
        let tchars = chars_of(title);
        let key = trim_chars(&tchars);
        let ghost ts = self.tasks_view();
        let ghost keyv = key@;
        let mut i: usize = 0;
        while i < self.tasks.len()
            invariant
                i <= self.tasks@.len(),
                self == old(self),
                ts == self.tasks_view(),
                keyv == key@,
                keyv == trim_spec(title@),
                ts.len() == self.tasks@.len(),
                forall|k: int| 0 <= k < i ==> !eq_ci(ts[k].title, keyv),
            decreases self.tasks@.len() - i,
        {
            let title_chars = chars_of(self.tasks[i].title.as_str());
            if chars_eq_ci(&title_chars, &key) {
                proof {
                    assert(eq_ci(ts[i as int].title, keyv));
                    lemma_first_ci_match_skip(ts, keyv, i as int);
                    assert(ts.skip(i as int)[0] == ts[i as int]);
                    assert(first_ci_match(ts, keyv) == i as int);
                }
                let removed = self.tasks.remove(i);
                proof {
                    assert(removed@ == ts[i as int]);
                    assert(seq_views(self.tasks@) =~= ts.remove(i as int));
                }
                return Some(removed.title);
            }
            i = i + 1;
        }
        proof {
            lemma_first_ci_match_skip(ts, keyv, ts.len() as int);
            assert(ts.skip(ts.len() as int).len() == 0);
            assert(first_ci_match(ts, keyv) == ts.len());
        }
        None
    }
}

/// Saving then loading restores the sequence: the startup contents built
/// from the serialized form of any task list are that list itself.
pub proof fn lemma_save_then_load(ts: Seq<TaskView>)
    ensures
        startup_tasks(Some(spec_encode(ts))) == ts,
{
    crate::json::lemma_round_trip(ts);
}

} // verus!
