//! Parent links between the tasks of one file.

use vstd::prelude::*;

use crate::task::Task;

verus! {

/// The index of the nearest task before `i` whose indent is smaller than
/// `indent`, searching `tasks[..j]` from the end.
pub open spec fn nearest_parent(tasks: Seq<Task>, indent: usize, j: int) -> Option<int>
    decreases j,
{
    if j <= 0 {
        None
    } else if tasks[j - 1].indent_level < indent {
        Some(j - 1)
    } else {
        nearest_parent(tasks, indent, j - 1)
    }
}

proof fn lemma_nearest_bound(tasks: Seq<Task>, indent: usize, j: int)
    ensures
        nearest_parent(tasks, indent, j) matches Some(k) ==> 0 <= k < j,
    decreases j,
{
    if j > 0 && !(tasks[j - 1].indent_level < indent) {
        lemma_nearest_bound(tasks, indent, j - 1);
    }
}

/// Set each task's parent to the `source_line` of the nearest earlier
/// task with a smaller indent (tasks ordered by line, from one file).
/// A task without such a task becomes top-level (`None`); nothing else
/// changes.
pub fn resolve_hierarchy(tasks: &mut Vec<Task>)
    ensures
        final(tasks)@.len() == old(tasks)@.len(),
        forall|i: int|
            0 <= i < old(tasks)@.len() ==> {
                let t = #[trigger] final(tasks)@[i];
                let o = old(tasks)@[i];
                &&& t@ == (crate::task::TaskSpec { parent: t.parent, ..o@ })
                &&& t.parent == match nearest_parent(old(tasks)@, o.indent_level, i) {
                    Some(k) => Some(old(tasks)@[k].source_line),
                    None => None,
                }
            },
{
    let ghost orig = tasks@;
    let n = tasks.len();
    let mut i: usize = 0;
    while i < n
        invariant
            0 <= i <= n == orig.len() == tasks@.len(),
            forall|k: int|
                0 <= k < n ==> (#[trigger] tasks@[k]).indent_level == orig[k].indent_level
                    && tasks@[k].source_line == orig[k].source_line
                    && tasks@[k]@ == (crate::task::TaskSpec { parent: tasks@[k].parent, ..orig[k]@ }),
            forall|k: int|
                0 <= k < i ==> (#[trigger] tasks@[k]).parent == match nearest_parent(orig, orig[k].indent_level, k) {
                    Some(q) => Some(orig[q].source_line),
                    None => None,
                },
            forall|k: int| i <= k < n ==> (#[trigger] tasks@[k]).parent == orig[k].parent,
        decreases n - i,
    {
        let current = tasks[i].indent_level;
        let mut j = i;
        let mut found: Option<usize> = None;
        while j > 0 && found.is_none()
            invariant
                j <= i < n == tasks@.len() == orig.len(),
                current == orig[i as int].indent_level,
                forall|k: int| 0 <= k < n ==> (#[trigger] tasks@[k]).indent_level == orig[k].indent_level,
                found is None ==> nearest_parent(orig, current, i as int) == nearest_parent(orig, current, j as int),
                found matches Some(q) ==> nearest_parent(orig, current, i as int) == Some(q as int) && q < i,
            decreases j,
        {
            if tasks[j - 1].indent_level < current {
                found = Some(j - 1);
            }
            j -= 1;
        }
        let parent = match found {
            Some(q) => Some(tasks[q].source_line),
            None => None,
        };
        let mut t = tasks.remove(i);
        t.parent = parent;
        tasks.insert(i, t);
        proof {
            lemma_nearest_bound(orig, current, i as int);
        }
        i += 1;
    }
}

} // verus!
