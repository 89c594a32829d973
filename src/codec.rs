//! The text form of a store: one block of lines per task, pending tasks first,
//! and a reader that turns such text back into a store.

use vstd::prelude::*;
use crate::task::{entries_view, numbered, pending_model, with_status, Task, TaskModel, TaskStore, TodoError};
use crate::text::{
    after, chars_of, dec, decimal, has_prefix, lines_of, parse_u32, push_chars, push_str, split_lines,
    starts_with, string_of, suffix_from, u32_of,
};

verus! {

/// What `str`'s `Debug` writes for `s`.
pub uninterp spec fn debug_quoted(s: Seq<char>) -> Seq<char>;

/// Relies on `str`'s `Debug` (the `{:?}` format): the text in double quotes,
/// with characters such as quotes, backslashes, `\n` and `\r` escaped, so that
/// no line break is left in it.
#[verifier::external_body]
pub(crate) fn quoted(s: &str) -> (r: Vec<char>)
    ensures
        r@ == debug_quoted(s@),
        forall|i: int| 0 <= i < r@.len() ==> #[trigger] r@[i] != '\n' && r@[i] != '\r',
{
    format!("{:?}", s).chars().collect()
}

pub open spec fn line(s: Seq<char>) -> Seq<char> {
    s.push('\n')
}

pub open spec fn rule_tag() -> Seq<char> {
    "----------"@
}

pub open spec fn header_tag() -> Seq<char> {
    "============= All TASKS ============"@
}

pub open spec fn footer_tag() -> Seq<char> {
    "==================================="@
}

pub open spec fn pending_count_tag() -> Seq<char> {
    "Pending Task Count: "@
}

pub open spec fn completed_count_tag() -> Seq<char> {
    "Completed Task Count: "@
}

/// The marker that opens the completed section when read back.
pub open spec fn completed_section_tag() -> Seq<char> {
    "Completed Task Count:"@
}

pub open spec fn id_tag() -> Seq<char> {
    "Task ID: "@
}

pub open spec fn description_tag() -> Seq<char> {
    "Description: "@
}

pub open spec fn priority_tag() -> Seq<char> {
    "Priority: "@
}

pub open spec fn deadline_tag() -> Seq<char> {
    "Deadline: "@
}

pub open spec fn status_line(completed: bool) -> Seq<char> {
    if completed { "Status: Completed"@ } else { "Status: Pending"@ }
}

/// The seven lines that stand for one entry.
pub open spec fn task_block(e: (usize, TaskModel)) -> Seq<char> {
    line(rule_tag()) + line(id_tag() + dec(e.0 as nat)) + line(description_tag() + e.1.description)
        + line(priority_tag() + dec(e.1.priority as nat)) + line(
        deadline_tag() + debug_quoted(e.1.deadline),
    ) + line(status_line(e.1.completed)) + line(rule_tag())
}

pub open spec fn task_blocks(es: Seq<(usize, TaskModel)>) -> Seq<char>
    decreases es.len(),
{
    if es.len() == 0 {
        seq![]
    } else {
        task_blocks(es.drop_last()) + task_block(es.last())
    }
}

/// The whole text form of a store's entries.
pub open spec fn document(es: Seq<(usize, TaskModel)>) -> Seq<char> {
    let pending = with_status(es, false);
    let completed = with_status(es, true);
    line(header_tag()) + line(pending_count_tag() + dec(pending.len())) + task_blocks(pending)
        + line(seq![]) + line(completed_count_tag() + dec(completed.len())) + task_blocks(
        completed,
    ) + line(footer_tag())
}

fn push_line_str(out: &mut Vec<char>, s: &str)
    ensures
        final(out)@ == old(out)@ + line(s@),
{
    push_str(out, s);
    out.push('\n');
}

fn push_tagged(out: &mut Vec<char>, tag: &str, v: &Vec<char>)
    ensures
        final(out)@ == old(out)@ + line(tag@ + v@),
{
    let ghost start = out@;
    push_str(out, tag);
    push_chars(out, v);
    out.push('\n');
    assert(out@ =~= start + line(tag@ + v@));
}

fn push_block(out: &mut Vec<char>, id: usize, t: &Task)
    ensures
        final(out)@ == old(out)@ + task_block((id, t@)),
{
    let ghost start = out@;
    push_line_str(out, "----------");
    push_tagged(out, "Task ID: ", &decimal(id as u64));
    push_tagged(out, "Description: ", &chars_of(t.description.as_str()));
    push_tagged(out, "Priority: ", &decimal(t.priority as u64));
    push_tagged(out, "Deadline: ", &quoted(t.deadline.as_str()));
    if t.completed {
        push_line_str(out, "Status: Completed");
    } else {
        push_line_str(out, "Status: Pending");
    }
    push_line_str(out, "----------");
    assert(out@ =~= start + task_block((id, t@)));
}

/// Appends the blocks of the entries whose flag is `c`.
fn push_blocks(out: &mut Vec<char>, tasks: &Vec<(usize, Task)>, c: bool)
    ensures
        final(out)@ == old(out)@ + task_blocks(with_status(entries_view(tasks@), c)),
{
    let ghost start = out@;
    let ghost es = entries_view(tasks@);
    let mut i: usize = 0;
    assert(with_status(es.take(0), c) =~= Seq::<(usize, TaskModel)>::empty());
    while i < tasks.len()
        invariant
            i <= tasks@.len(),
            es == entries_view(tasks@),
            out@ == start + task_blocks(with_status(es.take(i as int), c)),
        decreases tasks@.len() - i,
    {
        proof {
            assert(es.take(i + 1).drop_last() =~= es.take(i as int));
            reveal(Seq::filter);
        }
        if tasks[i].1.completed == c {
            push_block(out, tasks[i].0, &tasks[i].1);
            proof {
                let f = with_status(es.take(i + 1), c);
                assert(f.drop_last() == with_status(es.take(i as int), c));
                assert(f.last() == es[i as int]);
                assert(out@ =~= start + task_blocks(f));
            }
        }
        i = i + 1;
    }
    assert(es.take(tasks@.len() as int) =~= es);
}

fn count_status(tasks: &Vec<(usize, Task)>, c: bool) -> (r: usize)
    ensures
        r == with_status(entries_view(tasks@), c).len(),
{
    let ghost es = entries_view(tasks@);
    let mut n: usize = 0;
    let mut i: usize = 0;
    assert(with_status(es.take(0), c) =~= Seq::<(usize, TaskModel)>::empty());
    while i < tasks.len()
        invariant
            i <= tasks@.len(),
            es == entries_view(tasks@),
            n == with_status(es.take(i as int), c).len(),
            n <= i,
        decreases tasks@.len() - i,
    {
        proof {
            assert(es.take(i + 1).drop_last() =~= es.take(i as int));
            reveal(Seq::filter);
        }
        if tasks[i].1.completed == c {
            n = n + 1;
        }
        i = i + 1;
    }
    assert(es.take(tasks@.len() as int) =~= es);
    n
}

/// The text form of `store`: a header, the pending tasks with their count, a
/// blank line, the completed tasks with their count, and a closing line.
pub fn serialize(store: &TaskStore) -> (r: String)
    ensures
        r@ == document(store.entries()),
{
    let tasks = store.entries_vec();
    let mut out: Vec<char> = Vec::new();
    push_line_str(&mut out, "============= All TASKS ============");
    push_tagged(&mut out, "Pending Task Count: ", &decimal(count_status(tasks, false) as u64));
    push_blocks(&mut out, tasks, false);
    out.push('\n');
    push_tagged(&mut out, "Completed Task Count: ", &decimal(count_status(tasks, true) as u64));
    push_blocks(&mut out, tasks, true);
    push_line_str(&mut out, "===================================");
    assert(out@ =~= document(store.entries()));
    string_of(&out)
}

/// One line of a task's fields applied to what was read so far: the last
/// line of each kind wins; a `Priority:` that is not a number fails.
pub open spec fn field_step(t: TaskModel, l: Seq<char>) -> Option<TaskModel> {
    if starts_with(l, description_tag()) {
        Some(TaskModel { description: after(l, description_tag()), ..t })
    } else if starts_with(l, priority_tag()) {
        match u32_of(after(l, priority_tag())) {
            Some(p) => Some(TaskModel { priority: p, ..t }),
            None => None,
        }
    } else if starts_with(l, deadline_tag()) {
        Some(TaskModel { deadline: after(l, deadline_tag()), ..t })
    } else {
        Some(t)
    }
}

/// The task that a group of lines describes; fields that are missing keep
/// an empty description and deadline and priority 1.
pub open spec fn task_of_lines(ls: Seq<Seq<char>>) -> Option<TaskModel>
    decreases ls.len(),
{
    if ls.len() == 0 {
        Some(pending_model(seq![], 1, seq![]))
    } else {
        match task_of_lines(ls.drop_last()) {
            Some(t) => field_step(t, ls.last()),
            None => None,
        }
    }
}

pub open spec fn is_field_line(l: Seq<char>) -> bool {
    starts_with(l, description_tag()) || starts_with(l, priority_tag()) || starts_with(
        l,
        deadline_tag(),
    )
}

/// Where the reader stands after some lines: whether it has just passed the
/// completed section's header, the lines of the task being gathered, and the
/// tasks read.
pub struct ScanModel {
    pub in_completed: bool,
    pub gathered: Seq<Seq<char>>,
    pub tasks: Seq<TaskModel>,
}

pub open spec fn scan_step(st: ScanModel, l: Seq<char>) -> Option<ScanModel> {
    if starts_with(l, completed_section_tag()) {
        Some(ScanModel { in_completed: true, ..st })
    } else if st.in_completed && starts_with(l, id_tag()) {
        Some(ScanModel { in_completed: false, ..st })
    } else if starts_with(l, id_tag()) {
        if st.gathered.len() == 0 {
            Some(ScanModel { gathered: seq![l], ..st })
        } else {
            match task_of_lines(st.gathered) {
                Some(t) => Some(ScanModel { in_completed: st.in_completed, gathered: seq![l], tasks: st.tasks.push(t) }),
                None => None,
            }
        }
    } else if is_field_line(l) {
        Some(ScanModel { gathered: st.gathered.push(l), ..st })
    } else {
        Some(st)
    }
}

pub open spec fn scan(ls: Seq<Seq<char>>) -> Option<ScanModel>
    decreases ls.len(),
{
    if ls.len() == 0 {
        Some(ScanModel { in_completed: false, gathered: seq![], tasks: seq![] })
    } else {
        match scan(ls.drop_last()) {
            Some(st) => scan_step(st, ls.last()),
            None => None,
        }
    }
}

/// The tasks that a text describes, in the order they stand in it, or `None`
/// where a priority is not a number.
pub open spec fn tasks_of_text(t: Seq<char>) -> Option<Seq<TaskModel>> {
    match scan(lines_of(t)) {
        Some(st) => if st.gathered.len() == 0 {
            Some(st.tasks)
        } else {
            match task_of_lines(st.gathered) {
                Some(last) => Some(st.tasks.push(last)),
                None => None,
            }
        },
        None => None,
    }
}

fn task_from_chars(ls: &Vec<Vec<char>>) -> (r: Result<Task, TodoError>)
    ensures
        match task_of_lines(ls@.map_values(|l: Vec<char>| l@)) {
            Some(t) => r is Ok && r->Ok_0@ == t,
            None => r == Err::<Task, TodoError>(TodoError::MalformedPriority),
        },
{
    let ghost lv = ls@.map_values(|l: Vec<char>| l@);
    let mut description: Vec<char> = Vec::new();
    let mut priority: u32 = 1;
    let mut deadline: Vec<char> = Vec::new();
    let mut i: usize = 0;
    assert(lv.take(0) =~= Seq::<Seq<char>>::empty());
    assert(description@ =~= Seq::<char>::empty());
    assert(deadline@ =~= Seq::<char>::empty());
    while i < ls.len()
        invariant
            i <= ls@.len(),
            lv == ls@.map_values(|l: Vec<char>| l@),
            task_of_lines(lv.take(i as int)) == Some(
                pending_model(description@, priority, deadline@),
            ),
        decreases ls@.len() - i,
    {
        let l = &ls[i];
        proof {
            reveal_strlit("Description: ");
            reveal_strlit("Priority: ");
            reveal_strlit("Deadline: ");
            assert(lv.take(i + 1).drop_last() =~= lv.take(i as int));
            assert(lv.take(i + 1).last() == l@);
        }
        if has_prefix(l, "Description: ") {
            description = suffix_from(l, 13);
        } else if has_prefix(l, "Priority: ") {
            match parse_u32(&suffix_from(l, 10)) {
                Some(p) => {
                    priority = p;
                },
                None => {
                    proof {
                        lemma_malformed_stays(lv, i as int + 1);
                    }
                    return Err(TodoError::MalformedPriority);
                },
            }
        } else if has_prefix(l, "Deadline: ") {
            deadline = suffix_from(l, 10);
        }
        i = i + 1;
    }
    assert(lv.take(ls@.len() as int) =~= lv);
    Ok(Task::new(string_of(&description), priority, string_of(&deadline)))
}

proof fn lemma_malformed_stays(ls: Seq<Seq<char>>, k: int)
    requires
        0 <= k <= ls.len(),
        task_of_lines(ls.take(k)) is None,
    ensures
        task_of_lines(ls) is None,
    decreases ls.len() - k,
{
    if k < ls.len() {
        assert(ls.take(k + 1).drop_last() =~= ls.take(k));
        lemma_malformed_stays(ls, k + 1);
    } else {
        assert(ls.take(k) =~= ls);
    }
}

/// The task that the lines of one block describe.
pub fn parse_task_data(data: &Vec<String>) -> (r: Result<Task, TodoError>)
    ensures
        match task_of_lines(data@.map_values(|l: String| l@)) {
            Some(t) => r is Ok && r->Ok_0@ == t,
            None => r == Err::<Task, TodoError>(TodoError::MalformedPriority),
        },
{
    let mut ls: Vec<Vec<char>> = Vec::new();
    let mut i: usize = 0;
    while i < data.len()
        invariant
            i <= data@.len(),
            ls@.map_values(|l: Vec<char>| l@) == data@.map_values(|l: String| l@).take(i as int),
        decreases data@.len() - i,
    {
        let ghost b = ls@;
        let v = chars_of(data[i].as_str());
        ls.push(v);
        assert(ls@.map_values(|l: Vec<char>| l@) =~= b.map_values(|l: Vec<char>| l@).push(data@[i as int]@));
        assert(ls@.map_values(|l: Vec<char>| l@) =~= data@.map_values(|l: String| l@).take(i + 1));
        i = i + 1;
    }
    assert(data@.map_values(|l: String| l@).take(data@.len() as int) =~= data@.map_values(|l: String| l@));
    task_from_chars(&ls)
}

pub open spec fn lines_view(v: Seq<Vec<char>>) -> Seq<Seq<char>> {
    v.map_values(|l: Vec<char>| l@)
}

pub open spec fn tasks_view(v: Seq<Task>) -> Seq<TaskModel> {
    v.map_values(|t: Task| t@)
}

proof fn lemma_scan_failed_stays(ls: Seq<Seq<char>>, k: int)
    requires
        0 <= k <= ls.len(),
        scan(ls.take(k)) is None,
    ensures
        scan(ls) is None,
    decreases ls.len() - k,
{
    if k < ls.len() {
        assert(ls.take(k + 1).drop_last() =~= ls.take(k));
        lemma_scan_failed_stays(ls, k + 1);
    } else {
        assert(ls.take(k) =~= ls);
    }
}

/// Reads a store back from its text form. Tasks get the identifiers 1, 2,
/// 3, ... in the order they stand in the text, and all of them are pending.
pub fn parse(text: &str) -> (r: Result<TaskStore, TodoError>)
    requires
        text@.len() < usize::MAX,
    ensures
        match tasks_of_text(text@) {
            Some(ts) => r is Ok && r->Ok_0.wf() && r->Ok_0.entries() == numbered(ts) && r->Ok_0.next()
                == ts.len() + 1,
            None => r == Err::<TaskStore, TodoError>(TodoError::MalformedPriority),
        },
{
    let chars = chars_of(text);
    let lines = split_lines(&chars);
    let ghost ls = lines_view(lines@);
    let mut in_completed = false;
    let mut gathered: Vec<Vec<char>> = Vec::new();
    let mut tasks: Vec<Task> = Vec::new();
    let mut i: usize = 0;
    assert(ls.take(0) =~= Seq::<Seq<char>>::empty());
    assert(lines_view(gathered@) =~= Seq::<Seq<char>>::empty());
    assert(tasks_view(tasks@) =~= Seq::<TaskModel>::empty());
    while i < lines.len()
        invariant
            i <= lines@.len(),
            lines@.len() < usize::MAX,
            ls == lines_view(lines@),
            ls == lines_of(text@),
            scan(ls.take(i as int)) == Some(
                ScanModel {
                    in_completed,
                    gathered: lines_view(gathered@),
                    tasks: tasks_view(tasks@),
                },
            ),
            tasks@.len() + (if gathered@.len() > 0 { 1int } else { 0int }) <= i,
        decreases lines@.len() - i,
    {
        let l = &lines[i];
        proof {
            assert(ls.take(i + 1).drop_last() =~= ls.take(i as int));
            assert(ls.take(i + 1).last() == l@);
        }
        if has_prefix(l, "Completed Task Count:") {
            in_completed = true;
        } else if in_completed && has_prefix(l, "Task ID: ") {
            in_completed = false;
        } else if has_prefix(l, "Task ID: ") {
            if gathered.len() > 0 {
                match task_from_chars(&gathered) {
                    Ok(t) => {
                        let ghost b = tasks@;
                        tasks.push(t);
                        assert(tasks_view(tasks@) =~= tasks_view(b).push(t@));
                    },
                    Err(e) => {
                        proof {
                            lemma_scan_failed_stays(ls, i + 1);
                        }
                        return Err(e);
                    },
                }
            }
            gathered = Vec::new();
            gathered.push(l.clone());
            assert(lines_view(gathered@) =~= seq![l@]);
        } else if has_prefix(l, "Description: ") || has_prefix(l, "Priority: ") || has_prefix(
            l,
            "Deadline: ",
        ) {
            let ghost b = gathered@;
            gathered.push(l.clone());
            assert(lines_view(gathered@) =~= lines_view(b).push(l@));
        }
        i = i + 1;
    }
    assert(ls.take(lines@.len() as int) =~= ls);
    if gathered.len() > 0 {
        match task_from_chars(&gathered) {
            Ok(t) => {
                let ghost b = tasks@;
                tasks.push(t);
                assert(tasks_view(tasks@) =~= tasks_view(b).push(t@));
            },
            Err(e) => {
                return Err(e);
            },
        }
    }
    Ok(TaskStore::from_tasks(tasks))
}

} // verus!
