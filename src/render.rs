//! Presentation: an HTML table of the store, and a task's lines on screen.

use vstd::prelude::*;
use crate::codec::debug_quoted;
use crate::codec::quoted;
use crate::task::{entries_view, Task, TaskModel, TaskStore};
use crate::text::{chars_of, dec, decimal, push_chars, push_str, string_of};

verus! {

pub open spec fn html_head() -> Seq<char> {
    "<!DOCTYPE html>\n<html>\n<head>\n<style>\ntable, td {\n  border: 1px solid #000000;\n  border-collapse: collapse;\n  text-align: center;\n}\n.completed { color: green; }.pending { color: red; }table {  margin: 0 auto;}\n</style>\n</head>\n<body>\n<table width=50%>\n<tr>\n  <th>Task ID</th>\n  <th>Description</th>\n  <th>Priority</th>\n  <th>Deadline</th>\n  <th>Status</th>\n</tr>\n"@
}

pub open spec fn html_tail() -> Seq<char> {
    "</table>\n</body>\n</html>"@
}

pub open spec fn cell(v: Seq<char>) -> Seq<char> {
    "<td>"@ + v + "</td>\n"@
}

pub open spec fn status_cell(completed: bool) -> Seq<char> {
    if completed {
        "<td class=\"completed\">&#10004;</td>\n"@
    } else {
        "<td class=\"pending\">&#10008;</td>\n"@
    }
}

/// One table row: identifier, description, priority, quoted deadline, and a
/// check mark or a cross.
pub open spec fn html_row(e: (usize, TaskModel)) -> Seq<char> {
    "<tr>\n"@ + cell(dec(e.0 as nat)) + cell(e.1.description) + cell(dec(e.1.priority as nat))
        + cell(debug_quoted(e.1.deadline)) + status_cell(e.1.completed) + "</tr>\n"@
}

pub open spec fn html_rows(es: Seq<(usize, TaskModel)>) -> Seq<char>
    decreases es.len(),
{
    if es.len() == 0 {
        seq![]
    } else {
        html_rows(es.drop_last()) + html_row(es.last())
    }
}

pub open spec fn html_page(es: Seq<(usize, TaskModel)>) -> Seq<char> {
    html_head() + html_rows(es) + html_tail()
}

fn push_cell(out: &mut Vec<char>, v: &Vec<char>)
    ensures
        final(out)@ == old(out)@ + cell(v@),
{
    let ghost start = out@;
    push_str(out, "<td>");
    push_chars(out, v);
    push_str(out, "</td>\n");
    assert(out@ =~= start + cell(v@));
}

/// A page with a table of every task, one row each, in identifier order.
pub fn generate_task_list_html(store: &TaskStore) -> (r: String)
    ensures
        r@ == html_page(store.entries()),
{
    let tasks = store.entries_vec();
    let ghost es = store.entries();
    let mut out: Vec<char> = Vec::new();
    push_str(&mut out, "<!DOCTYPE html>\n<html>\n<head>\n<style>\ntable, td {\n  border: 1px solid #000000;\n  border-collapse: collapse;\n  text-align: center;\n}\n.completed { color: green; }.pending { color: red; }table {  margin: 0 auto;}\n</style>\n</head>\n<body>\n<table width=50%>\n<tr>\n  <th>Task ID</th>\n  <th>Description</th>\n  <th>Priority</th>\n  <th>Deadline</th>\n  <th>Status</th>\n</tr>\n");
    let mut i: usize = 0;
    assert(es.take(0) =~= Seq::<(usize, TaskModel)>::empty());
    assert(out@ =~= html_head() + html_rows(es.take(0)));
    while i < tasks.len()
        invariant
            i <= tasks@.len(),
            es == entries_view(tasks@),
            out@ == html_head() + html_rows(es.take(i as int)),
        decreases tasks@.len() - i,
    {
        let ghost before = out@;
        let id = tasks[i].0;
        let t = &tasks[i].1;
        push_str(&mut out, "<tr>\n");
        push_cell(&mut out, &decimal(id as u64));
        push_cell(&mut out, &chars_of(t.description.as_str()));
        push_cell(&mut out, &decimal(t.priority as u64));
        push_cell(&mut out, &quoted(t.deadline.as_str()));
        if t.completed {
            push_str(&mut out, "<td class=\"completed\">&#10004;</td>\n");
        } else {
            push_str(&mut out, "<td class=\"pending\">&#10008;</td>\n");
        }
        push_str(&mut out, "</tr>\n");
        proof {
            assert(es.take(i + 1).drop_last() =~= es.take(i as int));
            assert(es.take(i + 1).last() == (id, t@));
            assert(out@ =~= before + html_row((id, t@)));
        }
        i = i + 1;
    }
    assert(es.take(tasks@.len() as int) =~= es);
    push_str(&mut out, "</table>\n</body>\n</html>");
    string_of(&out)
}

pub open spec fn status_word(completed: bool) -> Seq<char> {
    if completed { "Completed"@ } else { "Pending"@ }
}

/// The four lines that show a task on screen; the deadline stands as it was
/// entered.
pub open spec fn display_lines(t: TaskModel) -> Seq<char> {
    "Description: "@ + t.description + "\nPriority: "@ + dec(t.priority as nat) + "\nDeadline: "@
        + t.deadline + "\nStatus: "@ + status_word(t.completed)
}

impl Task {
    /// The task's description, priority, deadline and status, one per line.
    pub fn display(&self) -> (r: String)
        ensures
            r@ == display_lines(self@),
    {
        let mut out: Vec<char> = Vec::new();
        push_str(&mut out, "Description: ");
        push_chars(&mut out, &chars_of(self.description.as_str()));
        push_str(&mut out, "\nPriority: ");
        push_chars(&mut out, &decimal(self.priority as u64));
        push_str(&mut out, "\nDeadline: ");
        push_chars(&mut out, &chars_of(self.deadline.as_str()));
        push_str(&mut out, "\nStatus: ");
        if self.completed {
            push_str(&mut out, "Completed");
        } else {
            push_str(&mut out, "Pending");
        }
        assert(out@ =~= display_lines(self@));
        string_of(&out)
    }
}

} // verus!
