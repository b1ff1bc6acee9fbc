//! The task entity: a titled to-do record with a description and a
//! completion flag.

use vstd::prelude::*;
use crate::text::{chars_of, push_all, string_from_chars};

verus! {

/// The mathematical value of a task: its two text fields as character
/// sequences, and its completion flag.
pub ghost struct TaskView {
    pub title: Seq<char>,
    pub description: Seq<char>,
    pub completed: bool,
}

/// One to-do record. The title is expected to be non-empty; the store
/// enforces that before construction, not the entity itself.
#[derive(Debug)]
pub struct Task {
    pub title: String,
    pub description: String,
    pub completed: bool,
}

impl View for Task {
    type V = TaskView;

    open spec fn view(&self) -> TaskView {
        TaskView { title: self.title@, description: self.description@, completed: self.completed }
    }
}

/// The display line for a task: a completion glyph in brackets, the title,
/// a separator, then the description.
pub open spec fn display_line(t: TaskView) -> Seq<char> {
    seq!['['] + (if t.completed { seq!['✓'] } else { seq!['✗'] }) + seq![']', ' '] + t.title
        + seq![':', ' '] + t.description
}

impl Task {
    /// A fresh task starts incomplete.
    pub fn new(title: String, description: String) -> (t: Task)
        ensures
            t@.title == title@,
            t@.description == description@,
            !t@.completed,
    {
        Task { title, description, completed: false }
    }

    pub fn mark_completed(&mut self)
        ensures
            final(self)@ == (TaskView { completed: true, ..old(self)@ }),
    {
        self.completed = true;
    }

    pub fn mark_incomplete(&mut self)
        ensures
            final(self)@ == (TaskView { completed: false, ..old(self)@ }),
    {
        self.completed = false;
    }

    /// The field map of a task: each field name paired with its value
    /// rendered as text, in field order, the flag as "true" or "false".
    pub fn to_dict(&self) -> (r: Vec<(String, String)>)
        ensures
            r@.len() == 3,
            r@[0].0@ == "title"@ && r@[0].1@ == self@.title,
            r@[1].0@ == "description"@ && r@[1].1@ == self@.description,
            r@[2].0@ == "completed"@
                && r@[2].1@ == (if self@.completed { "true"@ } else { "false"@ }),
    {
        let mut r: Vec<(String, String)> = Vec::new();
        r.push((String::from_str("title"), self.title.clone()));
        r.push((String::from_str("description"), self.description.clone()));
        let flag = if self.completed {
            String::from_str("true")
        } else {
            String::from_str("false")
        };
        r.push((String::from_str("completed"), flag));
        r
    }

    /// The display line of the record.
    pub fn to_display_string(&self) -> (r: String)
        ensures
            r@ == display_line(self@),
    {
        let mut out: Vec<char> = Vec::new();
        out.push('[');
        if self.completed {
            out.push('✓');
        } else {
            out.push('✗');
        }
        out.push(']');
        out.push(' ');
        let title_chars = chars_of(self.title.as_str());
        push_all(&mut out, &title_chars);
        out.push(':');
        out.push(' ');
        let desc_chars = chars_of(self.description.as_str());
        push_all(&mut out, &desc_chars);
        proof {
            assert(out@ =~= display_line(self@));
        }
        string_from_chars(&out)
    }
}

} // verus!
