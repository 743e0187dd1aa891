//! The dependency graph drawn as a Mermaid flowchart: one node per task,
//! one arrow from each prerequisite to the task that needs it.
use vstd::prelude::*;
use crate::models::{Dependency, Task};
use crate::text::{decimal, int_to_string};

verus! {

/// `s` with each double quote preceded by a backslash.
pub open spec fn escape_quotes(s: Seq<char>) -> Seq<char>
    decreases s.len(),
{
    if s.len() == 0 {
        s
    } else {
        escape_quotes(s.drop_last()) + if s.last() == '"' {
            seq!['\\', '"']
        } else {
            seq![s.last()]
        }
    }
}

/// The node line of a task.
pub open spec fn node_line(t: Task) -> Seq<char> {
    "    t"@ + decimal(t.id as int) + "[\""@ + escape_quotes(t.title@) + "\"]\n"@
}

/// The arrow line of an edge: from the prerequisite to the dependent.
pub open spec fn edge_line(d: Dependency) -> Seq<char> {
    "    t"@ + decimal(d.depends_on as int) + " --> t"@ + decimal(d.task_id as int) + "\n"@
}

/// The node lines of `ts`, in order.
pub open spec fn node_lines(ts: Seq<Task>) -> Seq<char>
    decreases ts.len(),
{
    if ts.len() == 0 {
        Seq::empty()
    } else {
        node_lines(ts.drop_last()) + node_line(ts.last())
    }
}

/// The arrow lines of `ds`, in order.
pub open spec fn edge_lines(ds: Seq<Dependency>) -> Seq<char>
    decreases ds.len(),
{
    if ds.len() == 0 {
        Seq::empty()
    } else {
        edge_lines(ds.drop_last()) + edge_line(ds.last())
    }
}

/// The whole flowchart.
pub open spec fn flowchart(ts: Seq<Task>, ds: Seq<Dependency>) -> Seq<char> {
    "flowchart TD\n"@ + node_lines(ts) + edge_lines(ds)
}

fn escaped(s: &str) -> (r: String)
    ensures
        r@ == escape_quotes(s@),
{
    let mut r = String::new();
    let n = s.unicode_len();
    let mut i: usize = 0;
    while i < n
        invariant
            n == s@.len(),
            i <= n,
            r@ == escape_quotes(s@.take(i as int)),
        decreases n - i,
    {
        assert(s@.take(i + 1).drop_last() =~= s@.take(i as int));
        let c = s.get_char(i);
        if c == '"' {
            r.append("\\\"");
            proof {
                reveal_strlit("\\\"");
            }
        } else {
            r.append(s.substring_char(i, i + 1));
        }
        i = i + 1;
    }
    assert(s@.take(n as int) =~= s@);
    r
}

/// Draws the tasks and the edges as a Mermaid flowchart.
pub fn render_mermaid(tasks: &Vec<Task>, deps: &Vec<Dependency>) -> (r: String)
    ensures
        r@ == flowchart(tasks@, deps@),
{
    let mut r = String::from_str("flowchart TD\n");
    let mut i: usize = 0;
    while i < tasks.len()
        invariant
            i <= tasks@.len(),
            r@ == "flowchart TD\n"@ + node_lines(tasks@.take(i as int)),
        decreases tasks@.len() - i,
    {
        assert(tasks@.take(i + 1).drop_last() =~= tasks@.take(i as int));
        let t = &tasks[i];
        let id = int_to_string(t.id);
        let title = escaped(t.title.as_str());
        let ghost before = r@;
        r.append("    t");
        r.append(id.as_str());
        r.append("[\"");
        r.append(title.as_str());
        r.append("\"]\n");
        assert(r@ =~= before + node_line(tasks@[i as int]));
        i = i + 1;
    }
    assert(tasks@.take(tasks@.len() as int) =~= tasks@);
    let mut j: usize = 0;
    while j < deps.len()
        invariant
            j <= deps@.len(),
            r@ == "flowchart TD\n"@ + node_lines(tasks@) + edge_lines(deps@.take(j as int)),
        decreases deps@.len() - j,
    {
        assert(deps@.take(j + 1).drop_last() =~= deps@.take(j as int));
        let d = deps[j];
        let from = int_to_string(d.depends_on);
        let to = int_to_string(d.task_id);
        let ghost before = r@;
        r.append("    t");
        r.append(from.as_str());
        r.append(" --> t");
        r.append(to.as_str());
        r.append("\n");
        assert(r@ =~= before + edge_line(deps@[j as int]));
        j = j + 1;
    }
    assert(deps@.take(deps@.len() as int) =~= deps@);
    r
}

} // verus!
