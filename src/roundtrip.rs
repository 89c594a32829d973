//! What reading back a store's text form gives: every task comes back
//! pending, with its deadline in the quoted form that was written; where the
//! text has both a pending and a completed section, the last pending block and
//! the first completed one are read as one task, which takes the completed
//! task's fields.

use vstd::prelude::*;
use crate::codec::{
    field_step, scan, scan_step, task_of_lines, tasks_of_text, ScanModel, completed_section_tag, is_field_line, completed_count_tag, deadline_tag, debug_quoted, description_tag, document, footer_tag,
    header_tag, id_tag, line, pending_count_tag, priority_tag, rule_tag, status_line, task_block,
    task_blocks,
};
use crate::task::{pending_model, with_status, TaskModel};
use crate::text::{after, dec, is_digit, lemma_u32_of_dec, starts_with, lemma_dec, lines_of, split_state, strip_cr};

verus! {

/// Lines joined, each ended by `\n`.
pub open spec fn join(ls: Seq<Seq<char>>) -> Seq<char>
    decreases ls.len(),
{
    if ls.len() == 0 {
        seq![]
    } else {
        join(ls.drop_last()) + line(ls.last())
    }
}

/// Neither `\n` nor `\r` stands in `l`.
pub open spec fn no_break(l: Seq<char>) -> bool {
    forall|i: int| 0 <= i < l.len() ==> #[trigger] l[i] != '\n' && l[i] != '\r'
}

proof fn lemma_join_append(a: Seq<Seq<char>>, b: Seq<Seq<char>>)
    ensures
        join(a + b) == join(a) + join(b),
    decreases b.len(),
{
    if b.len() == 0 {
        assert(a + b =~= a);
        assert(join(a) + join(b) =~= join(a));
    } else {
        assert((a + b).drop_last() =~= a + b.drop_last());
        lemma_join_append(a, b.drop_last());
        assert(join(a + b) =~= join(a) + join(b));
    }
}

proof fn lemma_split_plain(a: Seq<char>, x: Seq<char>)
    requires
        split_state(a).1.len() == 0,
        no_break(x),
    ensures
        split_state(a + x) == (split_state(a).0, x),
    decreases x.len(),
{
    if x.len() == 0 {
        assert(a + x =~= a);
        assert(x =~= seq![]);
    } else {
        assert((a + x).drop_last() =~= a + x.drop_last());
        lemma_split_plain(a, x.drop_last());
        assert(x[x.len() - 1] != '\n');
        assert(x.drop_last().push(x.last()) =~= x);
    }
}

proof fn lemma_split_join(ls: Seq<Seq<char>>)
    requires
        forall|i: int| 0 <= i < ls.len() ==> no_break(#[trigger] ls[i]),
    ensures
        split_state(join(ls)) == (ls, Seq::<char>::empty()),
    decreases ls.len(),
{
    if ls.len() == 0 {
        assert(ls =~= seq![]);
    } else {
        let a = join(ls.drop_last());
        let x = ls.last();
        assert(no_break(ls[ls.len() - 1]));
        lemma_split_join(ls.drop_last());
        lemma_split_plain(a, x);
        assert(join(ls) == (a + x).push('\n'));
        assert(((a + x).push('\n')).drop_last() =~= a + x);
        assert(strip_cr(x) == x) by {
            if x.len() > 0 {
                assert(x[x.len() - 1] != '\r');
            }
        }
        assert(ls.drop_last().push(x) =~= ls);
    }
}

/// Joined lines without breaks split back into themselves.
pub proof fn lemma_lines_of_join(ls: Seq<Seq<char>>)
    requires
        forall|i: int| 0 <= i < ls.len() ==> no_break(#[trigger] ls[i]),
    ensures
        lines_of(join(ls)) == ls,
{
    lemma_split_join(ls);
}

/// The seven lines of one entry's block.
pub open spec fn block_lines(e: (usize, TaskModel)) -> Seq<Seq<char>> {
    seq![
        rule_tag(),
        id_tag() + dec(e.0 as nat),
        description_tag() + e.1.description,
        priority_tag() + dec(e.1.priority as nat),
        deadline_tag() + debug_quoted(e.1.deadline),
        status_line(e.1.completed),
        rule_tag(),
    ]
}

pub open spec fn blocks_lines(es: Seq<(usize, TaskModel)>) -> Seq<Seq<char>>
    decreases es.len(),
{
    if es.len() == 0 {
        seq![]
    } else {
        blocks_lines(es.drop_last()) + block_lines(es.last())
    }
}

pub open spec fn doc_lines(es: Seq<(usize, TaskModel)>) -> Seq<Seq<char>> {
    let p = with_status(es, false);
    let c = with_status(es, true);
    seq![header_tag(), pending_count_tag() + dec(p.len())] + blocks_lines(p) + seq![
        seq![],
        completed_count_tag() + dec(c.len()),
    ] + blocks_lines(c) + seq![footer_tag()]
}

proof fn lemma_join_block(e: (usize, TaskModel))
    ensures
        join(block_lines(e)) == task_block(e),
{
    reveal_with_fuel(join, 8);
    let b = block_lines(e);
    assert(b.drop_last().drop_last().drop_last().drop_last().drop_last().drop_last().drop_last()
        =~= Seq::<Seq<char>>::empty());
    assert(join(block_lines(e)) =~= task_block(e));
}

proof fn lemma_join_blocks(es: Seq<(usize, TaskModel)>)
    ensures
        join(blocks_lines(es)) == task_blocks(es),
    decreases es.len(),
{
    if es.len() > 0 {
        lemma_join_blocks(es.drop_last());
        lemma_join_append(blocks_lines(es.drop_last()), block_lines(es.last()));
        lemma_join_block(es.last());
    } else {
        assert(join(blocks_lines(es)) =~= task_blocks(es));
    }
}

proof fn lemma_join_two(x: Seq<char>, y: Seq<char>)
    ensures
        join(seq![x, y]) == line(x) + line(y),
{
    reveal_with_fuel(join, 3);
    assert(seq![x, y].drop_last() =~= seq![x]);
    assert(seq![x].drop_last() =~= Seq::<Seq<char>>::empty());
    assert(join(seq![x, y]) =~= line(x) + line(y));
}

proof fn lemma_join_one(x: Seq<char>)
    ensures
        join(seq![x]) == line(x),
{
    reveal_with_fuel(join, 2);
    assert(seq![x].drop_last() =~= Seq::<Seq<char>>::empty());
    assert(join(seq![x]) =~= line(x));
}

proof fn lemma_join_doc(es: Seq<(usize, TaskModel)>)
    ensures
        join(doc_lines(es)) == document(es),
{
    let p = with_status(es, false);
    let c = with_status(es, true);
    let a = seq![header_tag(), pending_count_tag() + dec(p.len())];
    let m = seq![seq![], completed_count_tag() + dec(c.len())];
    let z = seq![footer_tag()];
    lemma_join_append(a + blocks_lines(p) + m + blocks_lines(c), z);
    lemma_join_append(a + blocks_lines(p) + m, blocks_lines(c));
    lemma_join_append(a + blocks_lines(p), m);
    lemma_join_append(a, blocks_lines(p));
    lemma_join_two(header_tag(), pending_count_tag() + dec(p.len()));
    lemma_join_two(seq![], completed_count_tag() + dec(c.len()));
    lemma_join_one(footer_tag());
    lemma_join_blocks(p);
    lemma_join_blocks(c);
    assert(join(doc_lines(es)) =~= document(es));
}

/// The fields of an entry hold no line break once written.
pub open spec fn plain_entry(e: (usize, TaskModel)) -> bool {
    no_break(e.1.description) && no_break(debug_quoted(e.1.deadline))
}

pub open spec fn all_plain(es: Seq<(usize, TaskModel)>) -> bool {
    forall|i: int| 0 <= i < es.len() ==> plain_entry(#[trigger] es[i])
}

proof fn lemma_status_plain(es: Seq<(usize, TaskModel)>, c: bool)
    requires
        all_plain(es),
    ensures
        all_plain(with_status(es, c)),
    decreases es.len(),
{
    reveal(Seq::filter);
    if es.len() > 0 {
        assert(all_plain(es.drop_last())) by {
            assert forall|i: int| 0 <= i < es.drop_last().len() implies plain_entry(
                #[trigger] es.drop_last()[i],
            ) by {
                assert(es.drop_last()[i] == es[i]);
            }
        }
        lemma_status_plain(es.drop_last(), c);
        assert(plain_entry(es[es.len() - 1]));
        let f = with_status(es, c);
        assert forall|i: int| 0 <= i < f.len() implies plain_entry(#[trigger] f[i]) by {
            if i < with_status(es.drop_last(), c).len() {
                assert(f[i] == with_status(es.drop_last(), c)[i]);
            }
        }
    }
}

proof fn lemma_no_break_concat(x: Seq<char>, y: Seq<char>)
    requires
        no_break(x),
        no_break(y),
    ensures
        no_break(x + y),
{
    assert forall|i: int| 0 <= i < (x + y).len() implies #[trigger] (x + y)[i] != '\n' && (x
        + y)[i] != '\r' by {
        if i < x.len() {
            assert((x + y)[i] == x[i]);
        } else {
            assert((x + y)[i] == y[i - x.len()]);
        }
    }
}

proof fn lemma_dec_no_break(n: nat)
    ensures
        no_break(dec(n)),
{
    lemma_dec(n);
    assert forall|i: int| 0 <= i < dec(n).len() implies #[trigger] dec(n)[i] != '\n' && dec(n)[i]
        != '\r' by {
        assert(is_digit(dec(n)[i]));
    }
}

proof fn lemma_tags_no_break()
    ensures
        no_break(rule_tag()),
        no_break(header_tag()),
        no_break(footer_tag()),
        no_break(pending_count_tag()),
        no_break(completed_count_tag()),
        no_break(id_tag()),
        no_break(description_tag()),
        no_break(priority_tag()),
        no_break(deadline_tag()),
        no_break(status_line(true)),
        no_break(status_line(false)),
        no_break(seq![]),
{
    reveal_strlit("----------");
    reveal_strlit("============= All TASKS ============");
    reveal_strlit("===================================");
    reveal_strlit("Pending Task Count: ");
    reveal_strlit("Completed Task Count: ");
    reveal_strlit("Task ID: ");
    reveal_strlit("Description: ");
    reveal_strlit("Priority: ");
    reveal_strlit("Deadline: ");
    reveal_strlit("Status: Completed");
    reveal_strlit("Status: Pending");
}

proof fn lemma_block_no_break(e: (usize, TaskModel))
    requires
        plain_entry(e),
    ensures
        forall|i: int| 0 <= i < block_lines(e).len() ==> no_break(#[trigger] block_lines(e)[i]),
{
    lemma_tags_no_break();
    lemma_dec_no_break(e.0 as nat);
    lemma_dec_no_break(e.1.priority as nat);
    lemma_no_break_concat(id_tag(), dec(e.0 as nat));
    lemma_no_break_concat(description_tag(), e.1.description);
    lemma_no_break_concat(priority_tag(), dec(e.1.priority as nat));
    lemma_no_break_concat(deadline_tag(), debug_quoted(e.1.deadline));
}

proof fn lemma_blocks_no_break(es: Seq<(usize, TaskModel)>)
    requires
        all_plain(es),
    ensures
        forall|i: int| 0 <= i < blocks_lines(es).len() ==> no_break(#[trigger] blocks_lines(es)[i]),
    decreases es.len(),
{
    if es.len() > 0 {
        assert(all_plain(es.drop_last())) by {
            assert forall|i: int| 0 <= i < es.drop_last().len() implies plain_entry(
                #[trigger] es.drop_last()[i],
            ) by {
                assert(es.drop_last()[i] == es[i]);
            }
        }
        lemma_blocks_no_break(es.drop_last());
        assert(plain_entry(es[es.len() - 1]));
        lemma_block_no_break(es.last());
        let a = blocks_lines(es.drop_last());
        let b = block_lines(es.last());
        assert forall|i: int| 0 <= i < (a + b).len() implies no_break(#[trigger] (a + b)[i]) by {
            if i < a.len() {
                assert((a + b)[i] == a[i]);
            } else {
                assert((a + b)[i] == b[i - a.len()]);
            }
        }
    }
}

proof fn lemma_doc_no_break(es: Seq<(usize, TaskModel)>)
    requires
        all_plain(es),
    ensures
        forall|i: int| 0 <= i < doc_lines(es).len() ==> no_break(#[trigger] doc_lines(es)[i]),
{
    let p = with_status(es, false);
    let c = with_status(es, true);
    lemma_status_plain(es, false);
    lemma_status_plain(es, true);
    lemma_blocks_no_break(p);
    lemma_blocks_no_break(c);
    lemma_tags_no_break();
    lemma_dec_no_break(p.len());
    lemma_dec_no_break(c.len());
    lemma_no_break_concat(pending_count_tag(), dec(p.len()));
    lemma_no_break_concat(completed_count_tag(), dec(c.len()));
    let a = seq![header_tag(), pending_count_tag() + dec(p.len())];
    let m = seq![seq![], completed_count_tag() + dec(c.len())];
    let z = seq![footer_tag()];
    let bp = blocks_lines(p);
    let bc = blocks_lines(c);
    let d = doc_lines(es);
    assert(d == a + bp + m + bc + z);
    assert forall|i: int| 0 <= i < d.len() implies no_break(#[trigger] d[i]) by {
        let k1 = a.len() as int;
        let k2 = k1 + bp.len();
        let k3 = k2 + m.len();
        let k4 = k3 + bc.len();
        if i < k1 {
            assert(d[i] == a[i]);
        } else if i < k2 {
            assert(d[i] == bp[i - k1]);
        } else if i < k3 {
            assert(d[i] == m[i - k2]);
        } else if i < k4 {
            assert(d[i] == bc[i - k3]);
        } else {
            assert(d[i] == z[i - k4]);
        }
    }
}

/// The text form of entries without line breaks in their fields splits into
/// exactly the lines it was written as.
pub proof fn lemma_document_lines(es: Seq<(usize, TaskModel)>)
    requires
        all_plain(es),
    ensures
        lines_of(document(es)) == doc_lines(es),
{
    lemma_doc_no_break(es);
    lemma_join_doc(es);
    lemma_lines_of_join(doc_lines(es));
}

/// A line that the reader passes over.
pub open spec fn ignored(l: Seq<char>) -> bool {
    !starts_with(l, completed_section_tag()) && !starts_with(l, id_tag()) && !is_field_line(l)
}

proof fn lemma_differs(l: Seq<char>, p: Seq<char>, k: int)
    requires
        0 <= k < p.len(),
        k >= l.len() || l[k] != p[k],
    ensures
        !starts_with(l, p),
{
    if starts_with(l, p) {
        assert(l.subrange(0, p.len() as int)[k] == l[k]);
    }
}

proof fn lemma_tagged(p: Seq<char>, x: Seq<char>)
    ensures
        starts_with(p + x, p),
        after(p + x, p) == x,
        forall|k: int| 0 <= k < p.len() ==> (p + x)[k] == #[trigger] p[k],
{
    assert((p + x).subrange(0, p.len() as int) =~= p);
    assert(after(p + x, p) =~= x);
}

proof fn lemma_lines_ignored(np: nat, b: bool)
    ensures
        ignored(rule_tag()),
        ignored(header_tag()),
        ignored(footer_tag()),
        ignored(status_line(b)),
        ignored(seq![]),
        ignored(pending_count_tag() + dec(np)),
{
    reveal_strlit("----------");
    reveal_strlit("============= All TASKS ============");
    reveal_strlit("===================================");
    reveal_strlit("Pending Task Count: ");
    reveal_strlit("Completed Task Count:");
    reveal_strlit("Task ID: ");
    reveal_strlit("Description: ");
    reveal_strlit("Priority: ");
    reveal_strlit("Deadline: ");
    reveal_strlit("Status: Completed");
    reveal_strlit("Status: Pending");
    lemma_differs(rule_tag(), completed_section_tag(), 0);
    lemma_differs(rule_tag(), id_tag(), 0);
    lemma_differs(rule_tag(), description_tag(), 0);
    lemma_differs(rule_tag(), priority_tag(), 0);
    lemma_differs(rule_tag(), deadline_tag(), 0);
    lemma_differs(header_tag(), completed_section_tag(), 0);
    lemma_differs(header_tag(), id_tag(), 0);
    lemma_differs(header_tag(), description_tag(), 0);
    lemma_differs(header_tag(), priority_tag(), 0);
    lemma_differs(header_tag(), deadline_tag(), 0);
    lemma_differs(footer_tag(), completed_section_tag(), 0);
    lemma_differs(footer_tag(), id_tag(), 0);
    lemma_differs(footer_tag(), description_tag(), 0);
    lemma_differs(footer_tag(), priority_tag(), 0);
    lemma_differs(footer_tag(), deadline_tag(), 0);
    lemma_differs(status_line(b), completed_section_tag(), 0);
    lemma_differs(status_line(b), id_tag(), 0);
    lemma_differs(status_line(b), description_tag(), 0);
    lemma_differs(status_line(b), priority_tag(), 0);
    lemma_differs(status_line(b), deadline_tag(), 0);
    lemma_differs(seq![], completed_section_tag(), 0);
    lemma_differs(seq![], id_tag(), 0);
    lemma_differs(seq![], description_tag(), 0);
    lemma_differs(seq![], priority_tag(), 0);
    lemma_differs(seq![], deadline_tag(), 0);
    let pc = pending_count_tag() + dec(np);
    lemma_tagged(pending_count_tag(), dec(np));
    assert(pc[0] == pending_count_tag()[0]);
    assert(pc[1] == pending_count_tag()[1]);
    lemma_differs(pc, completed_section_tag(), 0);
    lemma_differs(pc, id_tag(), 0);
    lemma_differs(pc, description_tag(), 0);
    lemma_differs(pc, priority_tag(), 1);
    lemma_differs(pc, deadline_tag(), 0);
}

proof fn lemma_count_line(n: nat)
    ensures
        starts_with(completed_count_tag() + dec(n), completed_section_tag()),
{
    reveal_strlit("Completed Task Count: ");
    reveal_strlit("Completed Task Count:");
    let l = completed_count_tag() + dec(n);
    lemma_tagged(completed_count_tag(), dec(n));
    assert(l.subrange(0, 21) =~= completed_section_tag());
}

/// How the reader classifies the four lines of a block that it reads.
proof fn lemma_field_lines(e: (usize, TaskModel))
    ensures
        starts_with(id_tag() + dec(e.0 as nat), id_tag()),
        !starts_with(id_tag() + dec(e.0 as nat), completed_section_tag()),
        !is_field_line(id_tag() + dec(e.0 as nat)),
        !starts_with(description_tag() + e.1.description, completed_section_tag()),
        !starts_with(description_tag() + e.1.description, id_tag()),
        starts_with(description_tag() + e.1.description, description_tag()),
        after(description_tag() + e.1.description, description_tag()) == e.1.description,
        !starts_with(priority_tag() + dec(e.1.priority as nat), completed_section_tag()),
        !starts_with(priority_tag() + dec(e.1.priority as nat), id_tag()),
        !starts_with(priority_tag() + dec(e.1.priority as nat), description_tag()),
        starts_with(priority_tag() + dec(e.1.priority as nat), priority_tag()),
        after(priority_tag() + dec(e.1.priority as nat), priority_tag()) == dec(e.1.priority as nat),
        !starts_with(deadline_tag() + debug_quoted(e.1.deadline), completed_section_tag()),
        !starts_with(deadline_tag() + debug_quoted(e.1.deadline), id_tag()),
        !starts_with(deadline_tag() + debug_quoted(e.1.deadline), description_tag()),
        !starts_with(deadline_tag() + debug_quoted(e.1.deadline), priority_tag()),
        starts_with(deadline_tag() + debug_quoted(e.1.deadline), deadline_tag()),
        after(deadline_tag() + debug_quoted(e.1.deadline), deadline_tag()) == debug_quoted(
            e.1.deadline,
        ),
{
    reveal_strlit("Completed Task Count:");
    reveal_strlit("Task ID: ");
    reveal_strlit("Description: ");
    reveal_strlit("Priority: ");
    reveal_strlit("Deadline: ");
    let il = id_tag() + dec(e.0 as nat);
    let dl = description_tag() + e.1.description;
    let pl = priority_tag() + dec(e.1.priority as nat);
    let ql = deadline_tag() + debug_quoted(e.1.deadline);
    lemma_tagged(id_tag(), dec(e.0 as nat));
    lemma_tagged(description_tag(), e.1.description);
    lemma_tagged(priority_tag(), dec(e.1.priority as nat));
    lemma_tagged(deadline_tag(), debug_quoted(e.1.deadline));
    assert(il[0] == id_tag()[0]);
    assert(dl[0] == description_tag()[0]);
    assert(pl[0] == priority_tag()[0]);
    assert(ql[0] == deadline_tag()[0]);
    assert(ql[2] == deadline_tag()[2]);
    lemma_differs(il, completed_section_tag(), 0);
    lemma_differs(il, description_tag(), 0);
    lemma_differs(il, priority_tag(), 0);
    lemma_differs(il, deadline_tag(), 0);
    lemma_differs(dl, completed_section_tag(), 0);
    lemma_differs(dl, id_tag(), 0);
    lemma_differs(pl, completed_section_tag(), 0);
    lemma_differs(pl, id_tag(), 0);
    lemma_differs(pl, description_tag(), 0);
    lemma_differs(ql, completed_section_tag(), 0);
    lemma_differs(ql, id_tag(), 0);
    lemma_differs(ql, description_tag(), 2);
    lemma_differs(ql, priority_tag(), 0);
}

/// The reader's state after `ls`, from `st`.
pub open spec fn run(st: Option<ScanModel>, ls: Seq<Seq<char>>) -> Option<ScanModel>
    decreases ls.len(),
{
    if ls.len() == 0 {
        st
    } else {
        match run(st, ls.drop_last()) {
            Some(s) => scan_step(s, ls.last()),
            None => None,
        }
    }
}

pub open spec fn start_state() -> ScanModel {
    ScanModel { in_completed: false, gathered: seq![], tasks: seq![] }
}

proof fn lemma_scan_run(ls: Seq<Seq<char>>)
    ensures
        scan(ls) == run(Some(start_state()), ls),
    decreases ls.len(),
{
    if ls.len() > 0 {
        lemma_scan_run(ls.drop_last());
    }
}

proof fn lemma_run_append(st: Option<ScanModel>, a: Seq<Seq<char>>, b: Seq<Seq<char>>)
    ensures
        run(st, a + b) == run(run(st, a), b),
    decreases b.len(),
{
    if b.len() == 0 {
        assert(a + b =~= a);
    } else {
        assert((a + b).drop_last() =~= a + b.drop_last());
        lemma_run_append(st, a, b.drop_last());
    }
}

proof fn lemma_run_take(st: Option<ScanModel>, ls: Seq<Seq<char>>, k: int)
    requires
        0 <= k < ls.len(),
    ensures
        run(st, ls.take(k + 1)) == match run(st, ls.take(k)) {
            Some(s) => scan_step(s, ls[k]),
            None => None,
        },
{
    assert(ls.take(k + 1).drop_last() =~= ls.take(k));
}

proof fn lemma_run_all(st: Option<ScanModel>, ls: Seq<Seq<char>>)
    ensures
        run(st, ls.take(0)) == st,
        run(st, ls.take(ls.len() as int)) == run(st, ls),
{
    assert(ls.take(0) =~= Seq::<Seq<char>>::empty());
    assert(ls.take(ls.len() as int) =~= ls);
}

/// A task as it comes back from its block: pending, with the quoted deadline.
pub open spec fn read_task(e: (usize, TaskModel)) -> TaskModel {
    pending_model(e.1.description, e.1.priority, debug_quoted(e.1.deadline))
}

pub open spec fn read_tasks(es: Seq<(usize, TaskModel)>) -> Seq<TaskModel> {
    es.map_values(|e: (usize, TaskModel)| read_task(e))
}

/// The field lines that the reader keeps of a block.
pub open spec fn field_lines(e: (usize, TaskModel)) -> Seq<Seq<char>> {
    seq![
        description_tag() + e.1.description,
        priority_tag() + dec(e.1.priority as nat),
        deadline_tag() + debug_quoted(e.1.deadline),
    ]
}

pub open spec fn gathered_of(e: (usize, TaskModel)) -> Seq<Seq<char>> {
    seq![id_tag() + dec(e.0 as nat)] + field_lines(e)
}

proof fn lemma_fields_after(g: Seq<Seq<char>>, e: (usize, TaskModel))
    requires
        task_of_lines(g) is Some,
    ensures
        task_of_lines(g + field_lines(e)) == Some(
            TaskModel {
                description: e.1.description,
                priority: e.1.priority,
                deadline: debug_quoted(e.1.deadline),
                ..task_of_lines(g)->Some_0
            },
        ),
{
    lemma_field_lines(e);
    lemma_u32_of_dec(e.1.priority);
    let f = field_lines(e);
    let t0 = task_of_lines(g)->Some_0;
    let h1 = g.push(f[0]);
    let h2 = h1.push(f[1]);
    let h3 = h2.push(f[2]);
    assert(h1.drop_last() =~= g);
    assert(task_of_lines(h1) == field_step(t0, f[0]));
    assert(task_of_lines(h1) == Some(TaskModel { description: e.1.description, ..t0 }));
    assert(h2.drop_last() =~= h1);
    assert(task_of_lines(h2) == Some(
        TaskModel { description: e.1.description, priority: e.1.priority, ..t0 },
    ));
    assert(h3.drop_last() =~= h2);
    assert(g + f =~= h3);
}

proof fn lemma_gathered_task(e: (usize, TaskModel))
    ensures
        task_of_lines(gathered_of(e)) == Some(read_task(e)),
{
    lemma_field_lines(e);
    let g = seq![id_tag() + dec(e.0 as nat)];
    assert(g.drop_last() =~= Seq::<Seq<char>>::empty());
    assert(g.last() == id_tag() + dec(e.0 as nat));
    assert(task_of_lines(g.drop_last()) == Some(pending_model(seq![], 1, seq![])));
    assert(field_step(pending_model(seq![], 1, seq![]), g.last()) == Some(pending_model(seq![], 1, seq![])));
    assert(task_of_lines(g) == Some(pending_model(seq![], 1, seq![])));
    assert(gathered_of(e) == g + field_lines(e));
    lemma_fields_after(g, e);
}

proof fn lemma_step_ignored(st: ScanModel, l: Seq<char>)
    requires
        ignored(l),
    ensures
        scan_step(st, l) == Some(st),
{
}

proof fn lemma_step_field(st: ScanModel, l: Seq<char>)
    requires
        !starts_with(l, completed_section_tag()),
        !starts_with(l, id_tag()),
        is_field_line(l),
    ensures
        scan_step(st, l) == Some(ScanModel { gathered: st.gathered.push(l), ..st }),
{
}

/// A block read while no completed-section header is pending: the gathered
/// lines become a task, and the block's own lines are gathered.
#[verifier::spinoff_prover]
proof fn lemma_block_run(e: (usize, TaskModel), g: Seq<Seq<char>>, t: Seq<TaskModel>)
    requires
        g.len() > 0 ==> task_of_lines(g) is Some,
    ensures
        run(Some(ScanModel { in_completed: false, gathered: g, tasks: t }), block_lines(e)) == Some(
            ScanModel {
                in_completed: false,
                gathered: gathered_of(e),
                tasks: if g.len() == 0 {
                    t
                } else {
                    t.push(task_of_lines(g)->Some_0)
                },
            },
        ),
{
    let s0 = ScanModel { in_completed: false, gathered: g, tasks: t };
    let st = Some(s0);
    let b = block_lines(e);
    lemma_lines_ignored(0, e.1.completed);
    lemma_field_lines(e);
    lemma_run_all(st, b);
    let t1 = if g.len() == 0 { t } else { t.push(task_of_lines(g)->Some_0) };
    lemma_run_take(st, b, 0);
    lemma_step_ignored(s0, b[0]);
    lemma_run_take(st, b, 1);
    let s1 = ScanModel { in_completed: false, gathered: seq![b[1]], tasks: t1 };
    assert(scan_step(s0, b[1]) == Some(s1));
    lemma_run_take(st, b, 2);
    lemma_step_field(s1, b[2]);
    let s2 = ScanModel { gathered: s1.gathered.push(b[2]), ..s1 };
    lemma_run_take(st, b, 3);
    lemma_step_field(s2, b[3]);
    let s3 = ScanModel { gathered: s2.gathered.push(b[3]), ..s2 };
    lemma_run_take(st, b, 4);
    lemma_step_field(s3, b[4]);
    let s4 = ScanModel { gathered: s3.gathered.push(b[4]), ..s3 };
    lemma_run_take(st, b, 5);
    lemma_step_ignored(s4, b[5]);
    lemma_run_take(st, b, 6);
    lemma_step_ignored(s4, b[6]);
    assert(run(st, b.take(7)) == Some(s4));
    assert(s4.gathered =~= gathered_of(e));
}

/// The first block after the completed section's header: its `Task ID:`
/// line is passed over, so its fields join the lines gathered before.
#[verifier::spinoff_prover]
proof fn lemma_first_completed_run(e: (usize, TaskModel), g: Seq<Seq<char>>, t: Seq<TaskModel>)
    ensures
        run(Some(ScanModel { in_completed: true, gathered: g, tasks: t }), block_lines(e)) == Some(
            ScanModel { in_completed: false, gathered: g + field_lines(e), tasks: t },
        ),
{
    let s0 = ScanModel { in_completed: true, gathered: g, tasks: t };
    let st = Some(s0);
    let b = block_lines(e);
    lemma_lines_ignored(0, e.1.completed);
    lemma_field_lines(e);
    lemma_run_all(st, b);
    lemma_run_take(st, b, 0);
    lemma_step_ignored(s0, b[0]);
    lemma_run_take(st, b, 1);
    let s1 = ScanModel { in_completed: false, gathered: g, tasks: t };
    assert(scan_step(s0, b[1]) == Some(s1));
    lemma_run_take(st, b, 2);
    lemma_step_field(s1, b[2]);
    let s2 = ScanModel { gathered: s1.gathered.push(b[2]), ..s1 };
    lemma_run_take(st, b, 3);
    lemma_step_field(s2, b[3]);
    let s3 = ScanModel { gathered: s2.gathered.push(b[3]), ..s2 };
    lemma_run_take(st, b, 4);
    lemma_step_field(s3, b[4]);
    let s4 = ScanModel { gathered: s3.gathered.push(b[4]), ..s3 };
    lemma_run_take(st, b, 5);
    lemma_step_ignored(s4, b[5]);
    lemma_run_take(st, b, 6);
    lemma_step_ignored(s4, b[6]);
    assert(run(st, b.take(7)) == Some(s4));
    assert(s4.gathered =~= g + field_lines(e));
}

/// The tasks read so far, with the gathered lines read as one more task.
pub open spec fn flushed(g: Seq<Seq<char>>, t: Seq<TaskModel>) -> Seq<TaskModel> {
    if g.len() == 0 {
        t
    } else {
        t.push(task_of_lines(g)->Some_0)
    }
}

proof fn lemma_blocks_run(es: Seq<(usize, TaskModel)>, g: Seq<Seq<char>>, t: Seq<TaskModel>)
    requires
        es.len() > 0,
        g.len() > 0 ==> task_of_lines(g) is Some,
    ensures
        run(Some(ScanModel { in_completed: false, gathered: g, tasks: t }), blocks_lines(es))
            == Some(
            ScanModel {
                in_completed: false,
                gathered: gathered_of(es.last()),
                tasks: flushed(g, t) + read_tasks(es.drop_last()),
            },
        ),
    decreases es.len(),
{
    let st = Some(ScanModel { in_completed: false, gathered: g, tasks: t });
    let rest = es.drop_last();
    if es.len() == 1 {
        assert(blocks_lines(rest) =~= Seq::<Seq<char>>::empty());
        assert(blocks_lines(es) =~= block_lines(es.last()));
        lemma_block_run(es.last(), g, t);
        assert(flushed(g, t) + read_tasks(rest) =~= flushed(g, t));
    } else {
        lemma_blocks_run(rest, g, t);
        lemma_run_append(st, blocks_lines(rest), block_lines(es.last()));
        let before = flushed(g, t) + read_tasks(rest.drop_last());
        lemma_gathered_task(rest.last());
        lemma_block_run(es.last(), gathered_of(rest.last()), before);
        assert(before.push(read_task(rest.last())) =~= flushed(g, t) + read_tasks(rest));
    }
}

proof fn lemma_blocks_lines_append(a: Seq<(usize, TaskModel)>, b: Seq<(usize, TaskModel)>)
    ensures
        blocks_lines(a + b) == blocks_lines(a) + blocks_lines(b),
    decreases b.len(),
{
    if b.len() == 0 {
        assert(a + b =~= a);
        assert(blocks_lines(a) + blocks_lines(b) =~= blocks_lines(a));
    } else {
        assert((a + b).drop_last() =~= a + b.drop_last());
        lemma_blocks_lines_append(a, b.drop_last());
        assert(blocks_lines(a + b) =~= blocks_lines(a) + blocks_lines(b));
    }
}

proof fn lemma_run_ignored(st: ScanModel, ls: Seq<Seq<char>>)
    requires
        forall|i: int| 0 <= i < ls.len() ==> ignored(#[trigger] ls[i]),
    ensures
        run(Some(st), ls) == Some(st),
    decreases ls.len(),
{
    if ls.len() > 0 {
        assert(ignored(ls[ls.len() - 1]));
        lemma_run_ignored(st, ls.drop_last());
    }
}

/// What reading back the text form of `es` yields: the pending tasks, then
/// the completed ones, all pending and with quoted deadlines; where both
/// sections hold tasks, the last pending task is lost to the first completed
/// one.
pub open spec fn read_back(es: Seq<(usize, TaskModel)>) -> Seq<TaskModel> {
    let p = with_status(es, false);
    let c = with_status(es, true);
    if p.len() > 0 && c.len() > 0 {
        read_tasks(p.drop_last()) + read_tasks(c)
    } else {
        read_tasks(p) + read_tasks(c)
    }
}

/// Reading back the text form of a store gives `read_back` of its entries,
/// for every store whose descriptions, and whose deadlines as quoted, hold no
/// line break.
#[verifier::spinoff_prover]
pub proof fn lemma_read_back(es: Seq<(usize, TaskModel)>)
    requires
        all_plain(es),
    ensures
        tasks_of_text(document(es)) == Some(read_back(es)),
{
    let p = with_status(es, false);
    let c = with_status(es, true);
    let a = seq![header_tag(), pending_count_tag() + dec(p.len())];
    let m = seq![seq![], completed_count_tag() + dec(c.len())];
    let z = seq![footer_tag()];
    let bp = blocks_lines(p);
    let bc = blocks_lines(c);
    lemma_document_lines(es);
    let ls = doc_lines(es);
    assert(ls == a + bp + m + bc + z);
    lemma_scan_run(ls);
    let init = Some(start_state());
    lemma_run_append(init, a + bp + m + bc, z);
    lemma_run_append(init, a + bp + m, bc);
    lemma_run_append(init, a + bp, m);
    lemma_run_append(init, a, bp);
    lemma_lines_ignored(p.len(), false);
    lemma_run_ignored(start_state(), a);
    // after the pending section
    let s2 = if p.len() == 0 {
        start_state()
    } else {
        ScanModel { in_completed: false, gathered: gathered_of(p.last()), tasks: read_tasks(p.drop_last()) }
    };
    if p.len() > 0 {
        lemma_blocks_run(p, seq![], seq![]);
        assert(flushed(seq![], seq![]) + read_tasks(p.drop_last()) =~= read_tasks(p.drop_last()));
    } else {
        assert(bp =~= Seq::<Seq<char>>::empty());
    }
    assert(run(init, a + bp) == Some(s2));
    // the blank line and the completed count
    let s3 = ScanModel { in_completed: true, ..s2 };
    lemma_count_line(c.len());
    lemma_run_all(Some(s2), m);
    lemma_run_take(Some(s2), m, 0);
    lemma_step_ignored(s2, m[0]);
    lemma_run_take(Some(s2), m, 1);
    assert(run(init, a + bp + m) == Some(s3));
    // the completed section
    let s4 = if c.len() == 0 {
        s3
    } else if c.len() == 1 {
        ScanModel { in_completed: false, gathered: s2.gathered + field_lines(c[0]), tasks: s2.tasks }
    } else {
        ScanModel {
            in_completed: false,
            gathered: gathered_of(c.last()),
            tasks: flushed(s2.gathered + field_lines(c[0]), s2.tasks) + read_tasks(
                c.drop_first().drop_last(),
            ),
        }
    };
    if c.len() == 0 {
        assert(bc =~= Seq::<Seq<char>>::empty());
    } else {
        assert(c =~= seq![c[0]] + c.drop_first());
        lemma_blocks_lines_append(seq![c[0]], c.drop_first());
        assert(seq![c[0]].drop_last() =~= Seq::<(usize, TaskModel)>::empty());
        assert(blocks_lines(seq![c[0]].drop_last()) =~= Seq::<Seq<char>>::empty());
        assert(seq![c[0]].last() == c[0]);
        assert(blocks_lines(seq![c[0]]) =~= block_lines(c[0]));
        lemma_run_append(Some(s3), block_lines(c[0]), blocks_lines(c.drop_first()));
        lemma_first_completed_run(c[0], s2.gathered, s2.tasks);
        if p.len() > 0 {
            lemma_gathered_task(p.last());
        }
        if c.len() == 1 {
            assert(blocks_lines(c.drop_first()) =~= Seq::<Seq<char>>::empty());
        } else {
            lemma_fields_after_some(s2.gathered, c[0]);
            lemma_blocks_run(c.drop_first(), s2.gathered + field_lines(c[0]), s2.tasks);
            assert(c.drop_first().last() == c.last());
        }
    }
    assert(run(init, a + bp + m + bc) == Some(s4));
    lemma_lines_ignored(0, false);
    lemma_run_ignored(s4, z);
    assert(scan(ls) == Some(s4));
    // the last gathered task
    if c.len() == 0 {
        if p.len() > 0 {
            lemma_gathered_task(p.last());
            assert(read_tasks(p.drop_last()).push(read_task(p.last())) =~= read_tasks(p));
        }
        assert(read_back(es) =~= read_tasks(p));
        assert(read_tasks(c) =~= Seq::<TaskModel>::empty());
    } else {
        lemma_fields_after_some(s2.gathered, c[0]);
        let first = task_of_lines(s2.gathered + field_lines(c[0]))->Some_0;
        assert(first == read_task(c[0]));
        if c.len() == 1 {
            assert(read_tasks(c) =~= seq![read_task(c[0])]);
        } else {
            lemma_gathered_task(c.last());
            assert(flushed(s2.gathered + field_lines(c[0]), s2.tasks) == s2.tasks.push(first));
            assert(s2.tasks.push(first) + read_tasks(c.drop_first().drop_last())
                .push(read_task(c.last())) =~= s2.tasks + read_tasks(c));
        }
        if p.len() == 0 {
            assert(s2.tasks =~= read_tasks(p));
        }
    }
}

/// The gathered lines of a pending block, or none, followed by a completed
/// block's fields read as that completed task.
proof fn lemma_fields_after_some(g: Seq<Seq<char>>, e: (usize, TaskModel))
    requires
        g.len() == 0 || exists|x: (usize, TaskModel)| g == gathered_of(x),
    ensures
        task_of_lines(g + field_lines(e)) == Some(read_task(e)),
{
    if g.len() == 0 {
        assert(task_of_lines(g) == Some(pending_model(seq![], 1, seq![])));
    } else {
        let x = choose|x: (usize, TaskModel)| g == gathered_of(x);
        lemma_gathered_task(x);
    }
    lemma_fields_after(g, e);
}

proof fn lemma_one_status(es: Seq<(usize, TaskModel)>, c: bool)
    requires
        with_status(es, !c).len() == 0,
    ensures
        with_status(es, c) == es,
    decreases es.len(),
{
    reveal(Seq::filter);
    if es.len() > 0 {
        let r = es.drop_last();
        assert(with_status(r, !c).len() == 0);
        lemma_one_status(r, c);
        assert(r.push(es.last()) =~= es);
    } else {
        assert(with_status(es, c) =~= es);
    }
}

/// For a store whose tasks all have one status, reading back its text form
/// gives every task in order, each pending, with its description and priority
/// kept and its deadline in the quoted form that was written.
pub proof fn lemma_round_trip(es: Seq<(usize, TaskModel)>)
    requires
        all_plain(es),
        with_status(es, false).len() == 0 || with_status(es, true).len() == 0,
    ensures
        tasks_of_text(document(es)) == Some(read_tasks(es)),
{
    lemma_read_back(es);
    if with_status(es, false).len() == 0 {
        lemma_one_status(es, true);
        assert(read_tasks(with_status(es, false)) =~= Seq::<TaskModel>::empty());
        assert(read_back(es) =~= read_tasks(es));
    } else {
        lemma_one_status(es, false);
        assert(read_tasks(with_status(es, true)) =~= Seq::<TaskModel>::empty());
        assert(read_back(es) =~= read_tasks(es));
    }
}

} // verus!
