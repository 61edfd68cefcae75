//! The in-memory store operations: add, remove and toggle.
//!
//! Every operation is stated against the views of the task sequence, so a
//! caller reasons purely over `Seq<TaskView>`.

use vstd::prelude::*;

use crate::task::Task;
use crate::task::TaskView;
use crate::task::views;

verus! {

/// The id the next added task receives: one past the last task's id, or 0
/// for an empty store.
pub open spec fn spec_next_id(s: Seq<TaskView>) -> int {
    if s.len() == 0 {
        0
    } else {
        s.last().id + 1
    }
}

/// The ids are strictly increasing along the sequence.  Every store that
/// is built by `add_task` calls alone satisfies this.
pub open spec fn ids_increasing(s: Seq<TaskView>) -> bool {
    forall|i: int, j: int| 0 <= i < j < s.len() ==> s[i].id < s[j].id
}

/// The largest id in a non-empty sequence.
pub open spec fn spec_max_id(s: Seq<TaskView>) -> int
    decreases s.len(),
{
    if s.len() <= 1 {
        s.last().id
    } else if s.last().id >= spec_max_id(s.drop_last()) {
        s.last().id
    } else {
        spec_max_id(s.drop_last())
    }
}

/// The view-level effect of `toggle_task`: the completion flag of every
/// task with the given id is flipped, everything else is untouched.
pub open spec fn spec_toggle(s: Seq<TaskView>, id: int) -> Seq<TaskView> {
    s.map_values(
        |t: TaskView|
            if t.id == id {
                TaskView { id: t.id, title: t.title, completed: !t.completed }
            } else {
                t
            },
    )
}

/// Appends a fresh task: its id is `spec_next_id` of the current store, its
/// title is the given one, and it starts not completed.
///
/// When the ids were strictly increasing before the call they still are
/// after it, so the new id also exceeds every id already present.
pub fn add_task(tasks: &mut Vec<Task>, title: Vec<u8>)
    requires
        old(tasks)@.len() > 0 ==> old(tasks)@.last()@.id < i64::MAX,
    ensures
        views(final(tasks)@) == views(old(tasks)@).push(
            TaskView {
                id: spec_next_id(views(old(tasks)@)),
                title: title@,
                completed: false,
            },
        ),
        ids_increasing(views(old(tasks)@)) ==> ids_increasing(views(final(tasks)@)),
{
    let mut id: i64 = 0;

    if tasks.len() > 0 {
        id = tasks[tasks.len() - 1].id + 1;
    }

    let ghost title_v = title@;
    let task = Task { id, title, completed: false };

    tasks.push(task);

    proof {
        let old_v = views(old(tasks)@);
        let new_v = views(tasks@);
        let added = TaskView { id: spec_next_id(old_v), title: title_v, completed: false };
        assert(new_v =~= old_v.push(added));
        if ids_increasing(old_v) {
            assert forall|i: int, j: int| 0 <= i < j < new_v.len() implies new_v[i].id
                < new_v[j].id by {
                if j == new_v.len() - 1 && old_v.len() > 0 && i < old_v.len() - 1 {
                    assert(old_v[i].id < old_v[old_v.len() - 1].id);
                }
            }
        }
    }
}

/// Drops every task whose id equals the given one, keeping the order of
/// the rest.  An id that occurs nowhere leaves the store unchanged:
/// removal of an absent id is a no-op.
pub fn remove_task(tasks: &mut Vec<Task>, id: i64)
    ensures
        views(final(tasks)@) == views(old(tasks)@).filter(|t: TaskView| t.id != id),
        forall|k: int|
            0 <= k < views(final(tasks)@).len() ==> #[trigger] views(final(tasks)@)[k].id != id,
        (forall|k: int|
            0 <= k < views(old(tasks)@).len() ==> #[trigger] views(old(tasks)@)[k].id != id)
            ==> final(tasks)@ == old(tasks)@,
{
    let ghost pred = |t: TaskView| t.id != id as int;
    let ghost orig = views(old(tasks)@);
    let mut i: usize = 0;
    let ghost mut j: int = 0;

    proof {
        assert(orig.take(0).filter(pred) =~= Seq::<TaskView>::empty()) by {
            reveal_with_fuel(Seq::filter, 1);
            assert(orig.take(0) =~= Seq::<TaskView>::empty());
        }
        assert(views(tasks@.take(0)) =~= Seq::<TaskView>::empty());
    }

    while i < tasks.len()
        invariant
            0 <= i as int <= tasks@.len(),
            i as int <= j <= orig.len(),
            pred == (|t: TaskView| t.id != id as int),
            orig == views(old(tasks)@),
            orig.len() == old(tasks)@.len(),
            tasks@.len() == i as int + (orig.len() - j),
            forall|k: int|
                i as int <= k < tasks@.len() ==> #[trigger] tasks@[k] == old(tasks)@[k - i + j],
            views(tasks@.take(i as int)) == orig.take(j).filter(pred),
            j == i as int ==> tasks@ == old(tasks)@,
            (forall|k: int| 0 <= k < j ==> #[trigger] orig[k].id != id as int) ==> j == i as int,
        decreases tasks@.len() - i,
    {
        let ghost pre = tasks@;
        proof {
            assert(orig.take(j + 1).drop_last() =~= orig.take(j));
            assert(orig.take(j + 1).last() == orig[j]);
            reveal_with_fuel(Seq::filter, 2);
        }
        if tasks[i].id == id {
            proof {
                assert(pre[i as int]@ == orig[j]);
                assert(orig[j].id == id as int);
                assert(!pred(orig[j]));
            }
            tasks.remove(i);
            proof {
                assert(tasks@ =~= pre.remove(i as int));
                assert(tasks@.take(i as int) =~= pre.take(i as int));
                assert(orig.take(j + 1).filter(pred) == orig.take(j).filter(pred));
                j = j + 1;
            }
        } else {
            proof {
                assert(pre[i as int]@ == orig[j]);
                assert(orig[j].id != id as int);
                assert(pred(orig[j]));
                assert(orig.take(j + 1).filter(pred) == orig.take(j).filter(pred).push(orig[j]));
                assert(views(pre.take(i as int + 1)) =~= views(pre.take(i as int)).push(
                    pre[i as int]@,
                ));
                j = j + 1;
            }
            i = i + 1;
        }
    }
    proof {
        assert(orig.take(j) =~= orig);
        assert(tasks@.take(i as int) =~= tasks@);
        let final_v = views(tasks@);
        assert(final_v == orig.filter(pred));
        assert forall|k: int| 0 <= k < final_v.len() implies #[trigger] final_v[k].id != id by {
            orig.lemma_filter_pred(pred, k);
        }
        if forall|k: int| 0 <= k < orig.len() ==> #[trigger] orig[k].id != id as int {
            assert(j == i as int);
        }
    }
}

/// Flips the completion flag of every task whose id equals the given one,
/// exactly once each, and leaves every other task untouched.
pub fn toggle_task(tasks: &mut Vec<Task>, id: i64)
    ensures
        views(final(tasks)@) == spec_toggle(views(old(tasks)@), id as int),
{
    let n: usize = tasks.len();
    let mut i: usize = 0;
    while i < n
        invariant
            n == tasks@.len(),
            i <= n,
            old(tasks)@.len() == n,
            forall|k: int| i as int <= k < n ==> #[trigger] tasks@[k] == old(tasks)@[k],
            views(tasks@).take(i as int) == spec_toggle(views(old(tasks)@), id as int).take(i as int),
        decreases n - i,
    {
        if tasks[i].id == id {
            let c = tasks[i].completed;
            tasks[i].completed = !c;
        }
        proof {
            assert(views(tasks@).take(i as int + 1) =~= spec_toggle(views(old(tasks)@), id as int).take(
                i as int + 1,
            ));
        }
        i = i + 1;
    }
    proof {
        assert(views(tasks@).take(n as int) =~= views(tasks@));
        assert(spec_toggle(views(old(tasks)@), id as int).take(n as int) =~= spec_toggle(
            views(old(tasks)@),
            id as int,
        ));
    }
}

/// For a store whose ids increase along the sequence — as any store built
/// by `add_task` alone does — the id handed to the next added task is the
/// store's maximum id plus one; an empty store hands out id 0.
pub proof fn lemma_next_id_is_max_plus_one(s: Seq<TaskView>)
    requires
        ids_increasing(s),
        s.len() > 0,
    ensures
        spec_next_id(s) == spec_max_id(s) + 1,
    decreases s.len(),
{
    if s.len() > 1 {
        lemma_next_id_is_max_plus_one(s.drop_last());
        assert(s.drop_last().last() == s[s.len() - 2]);
        assert(s[s.len() - 2].id < s.last().id);
    }
}

/// Toggling the same id twice restores every completion flag, hence the
/// original sequence.
pub proof fn lemma_toggle_twice(s: Seq<TaskView>, id: int)
    ensures
        spec_toggle(spec_toggle(s, id), id) == s,
{
    assert(spec_toggle(spec_toggle(s, id), id) =~= s);
}

} // verus!
