//! Read-only statistics over the store and the registry. A task counts as
//! current when it is uncategorized or its folder still exists; orphaned
//! tasks (whose folder was edited away from under them) are left out.

use crate::registry::FolderRegistry;
use crate::store::{effective_folder, in_group, key_used_within, task_views, TaskStore};
use crate::strutil::{
    contains_string, lemma_filter_distinct_keys, lemma_filter_subset, lemma_remove_insert_multiset,
    lemma_views_push, sort_strings, strings_sorted, views,
};
use crate::task::{Task, TaskView};
use vstd::prelude::*;

verus! {

/// Whether a task is current for the given folder list.
pub open spec fn is_current(folders: Seq<Seq<char>>) -> spec_fn(TaskView) -> bool {
    |t: TaskView| match t.folder {
        None => true,
        Some(f) => folders.contains(f),
    }
}

/// The current tasks: uncategorized ones, and those whose folder exists.
pub open spec fn current_tasks(tasks: Seq<TaskView>, folders: Seq<Seq<char>>) -> Seq<TaskView> {
    tasks.filter(is_current(folders))
}

/// A sum capped at the largest duration a task can store.
pub open spec fn sat_add(total: int, d: int) -> int {
    if total + d > i64::MAX {
        i64::MAX as int
    } else {
        total + d
    }
}

/// The tracked duration of a sequence of tasks at instant `now`, summed
/// with saturation.
pub open spec fn total_duration_at(tasks: Seq<TaskView>, now: int) -> int
    decreases tasks.len(),
{
    if tasks.len() == 0 {
        0
    } else {
        sat_add(
            total_duration_at(tasks.drop_last(), now),
            tasks.last().spec_current_duration(now),
        )
    }
}

/// The summed duration of well-formed tasks stays a valid duration.
pub proof fn lemma_total_duration_bounds(tasks: Seq<TaskView>, now: int)
    requires
        forall|k: int| 0 <= k < tasks.len() ==> (#[trigger] tasks[k]).wf(),
    ensures
        0 <= total_duration_at(tasks, now) <= i64::MAX,
    decreases tasks.len(),
{
    if tasks.len() > 0 {
        let sub = tasks.drop_last();
        assert(forall|k: int| 0 <= k < sub.len() ==> (#[trigger] sub[k]).wf()) by {
            assert forall|k: int| 0 <= k < sub.len() implies (#[trigger] sub[k]).wf() by {
                assert(sub[k] == tasks[k]);
            }
        }
        lemma_total_duration_bounds(sub, now);
        assert(tasks.last().wf());
    }
}

/// How many of the tasks are running.
pub open spec fn running_count(tasks: Seq<TaskView>) -> int
    decreases tasks.len(),
{
    if tasks.len() == 0 {
        0int
    } else {
        running_count(tasks.drop_last()) + (if tasks.last().is_running() {
            1int
        } else {
            0int
        })
    }
}

/// A saturating addition of two durations.
fn sat_add_exec(total: i64, d: i64) -> (r: i64)
    requires
        0 <= total,
        0 <= d,
    ensures
        r as int == sat_add(total as int, d as int),
{
    match total.checked_add(d) {
        Some(s) => s,
        None => i64::MAX,
    }
}

/// The current tasks as a store of their own.
pub fn current_tasks_store(store: &TaskStore, registry: &FolderRegistry) -> (r: TaskStore)
    requires
        store.wf(),
        registry.wf(),
    ensures
        r.wf(),
        r.views() == current_tasks(store.views(), registry.folder_names()),
{
    let ghost p = is_current(registry.folder_names());
    let mut kept: Vec<Task> = Vec::new();
    let mut i: usize = 0;
    proof {
        assert(store.views().len() == store.tasks@.len());
        assert(task_views(kept@) =~= store.views().subrange(0, 0).filter(p)) by {
            reveal(Seq::filter);
        }
    }
    while i < store.tasks.len()
        invariant
            store.wf(),
            registry.wf(),
            0 <= i <= store.tasks@.len(),
            store.views().len() == store.tasks@.len(),
            p == is_current(registry.folder_names()),
            task_views(kept@) == store.views().subrange(0, i as int).filter(p),
        decreases store.tasks@.len() - i,
    {
        let ghost prefix = store.views().subrange(0, i as int);
        proof {
            assert(store.views()[i as int] == store.tasks@[i as int]@);
        }
        let keep_it = match &store.tasks[i].folder {
            None => true,
            Some(f) => registry.contains(f),
        };
        proof {
            assert(p(store.views()[i as int]) == keep_it);
        }
        if keep_it {
            let t = store.tasks[i].duplicate();
            proof {
                let prev = task_views(kept@);
                assert(task_views(kept@.push(t)).len() == prev.len() + 1);
                assert forall|m: int|
                    0 <= m < prev.len() + 1 implies #[trigger] task_views(kept@.push(t))[m]
                    == prev.push(t@)[m] by {
                    if m < prev.len() {
                        assert(task_views(kept@.push(t))[m] == kept@[m]@);
                        assert(prev[m] == kept@[m]@);
                    }
                }
                assert(task_views(kept@.push(t)) =~= prev.push(t@));
            }
            kept.push(t);
        }
        proof {
            reveal(Seq::filter);
            let prefix1 = store.views().subrange(0, i as int + 1);
            assert(prefix1.drop_last() =~= prefix);
            assert(prefix1.last() == store.views()[i as int]);
            if keep_it {
                assert(prefix1.filter(p) == prefix.filter(p).push(prefix1.last()));
            } else {
                assert(prefix1.filter(p) == prefix.filter(p));
            }
        }
        i = i + 1;
    }
    proof {
        assert(store.views().subrange(0, store.tasks@.len() as int) =~= store.views());
        lemma_filter_distinct_keys(store.views(), p, crate::store::id_key());
        lemma_filter_subset(store.views(), p);
        let after = task_views(kept@);
        assert forall|k: int| 0 <= k < after.len() implies (#[trigger] after[k]).wf() by {
            assert(after.contains(after[k]));
            assert(store.views().contains(after[k]));
            let j = choose|j: int| 0 <= j < store.views().len() && store.views()[j] == after[k];
            assert(store.views()[j].wf());
        }
    }
    TaskStore { tasks: kept }
}

/// The tracked duration summed over a store's tasks at instant `now`.
fn sum_durations(store: &TaskStore, now: i64) -> (r: i64)
    requires
        store.wf(),
    ensures
        r as int == total_duration_at(store.views(), now as int),
        0 <= r,
{
    let mut acc: i64 = 0;
    let mut i: usize = 0;
    proof {
        assert(store.views().len() == store.tasks@.len());
        assert(total_duration_at(store.views().subrange(0, 0), now as int) == 0);
    }
    while i < store.tasks.len()
        invariant
            store.wf(),
            0 <= i <= store.tasks@.len(),
            store.views().len() == store.tasks@.len(),
            0 <= acc,
            acc as int == total_duration_at(store.views().subrange(0, i as int), now as int),
        decreases store.tasks@.len() - i,
    {
        proof {
            assert(store.views()[i as int] == store.tasks@[i as int]@);
            assert(store.views()[i as int].wf());
        }
        let d = store.tasks[i].current_duration_at(now);
        acc = sat_add_exec(acc, d);
        proof {
            let pre = store.views().subrange(0, i as int);
            let pre1 = store.views().subrange(0, i as int + 1);
            assert(pre1.drop_last() =~= pre);
            assert(pre1.last() == store.views()[i as int]);
        }
        i = i + 1;
    }
    proof {
        assert(store.views().subrange(0, store.tasks@.len() as int) =~= store.views());
    }
    acc
}

/// The total time tracked over the current tasks, at instant `now`.
pub fn total_tracked_duration(store: &TaskStore, registry: &FolderRegistry, now: i64) -> (r: i64)
    requires
        store.wf(),
        registry.wf(),
    ensures
        r as int == total_duration_at(
            current_tasks(store.views(), registry.folder_names()),
            now as int,
        ),
        0 <= r,
{
    let cur = current_tasks_store(store, registry);
    sum_durations(&cur, now)
}

/// How many current tasks are running.
pub fn count_running_tasks(store: &TaskStore, registry: &FolderRegistry) -> (r: usize)
    requires
        store.wf(),
        registry.wf(),
    ensures
        r as int == running_count(current_tasks(store.views(), registry.folder_names())),
{
    let cur = current_tasks_store(store, registry);
    let mut count: usize = 0;
    let mut i: usize = 0;
    proof {
        assert(cur.views().len() == cur.tasks@.len());
        assert(running_count(cur.views().subrange(0, 0)) == 0);
    }
    while i < cur.tasks.len()
        invariant
            cur.wf(),
            0 <= i <= cur.tasks@.len(),
            cur.views().len() == cur.tasks@.len(),
            count as int == running_count(cur.views().subrange(0, i as int)),
            count <= i,
        decreases cur.tasks@.len() - i,
    {
        proof {
            assert(cur.views()[i as int] == cur.tasks@[i as int]@);
            let pre = cur.views().subrange(0, i as int);
            let pre1 = cur.views().subrange(0, i as int + 1);
            assert(pre1.drop_last() =~= pre);
            assert(pre1.last() == cur.views()[i as int]);
        }
        if cur.tasks[i].start_time.is_some() {
            count = count + 1;
        }
        i = i + 1;
    }
    proof {
        assert(cur.views().subrange(0, cur.tasks@.len() as int) =~= cur.views());
    }
    count
}

/// The average duration over the current tasks at instant `now`, by
/// integer division; zero when there are none.
pub fn calculate_average_task_duration(store: &TaskStore, registry: &FolderRegistry, now: i64) -> (r:
    i64)
    requires
        store.wf(),
        registry.wf(),
    ensures
        ({
            let cur = current_tasks(store.views(), registry.folder_names());
            &&& (cur.len() == 0 ==> r == 0)
            &&& (cur.len() > 0 ==> r as int == total_duration_at(cur, now as int) / cur.len() as int)
        }),
{
    let cur = current_tasks_store(store, registry);
    if cur.tasks.len() == 0 {
        proof {
            assert(cur.views().len() == 0);
        }
        return 0;
    }
    let total = sum_durations(&cur, now);
    let n = cur.tasks.len();
    proof {
        assert(cur.views().len() == cur.tasks@.len());
        lemma_total_duration_bounds(cur.views(), now as int);
    }
    let avg = (total as u64 / n as u64) as i64;
    proof {
        assert(total as u64 as int == total as int);
        assert(n as u64 as int == n as int);
        vstd::arithmetic::div_mod::lemma_div_is_ordered_by_denominator(total as int, 1, n as int);
        assert(total as int / n as int <= total as int / 1);
        assert(total as int / 1 == total as int) by {
            vstd::arithmetic::div_mod::lemma_div_basics(total as int);
        }
        assert(0 <= total as int / n as int) by {
            vstd::arithmetic::div_mod::lemma_div_pos_is_pos(total as int, n as int);
        }
    }
    avg
}


/// The total duration of the tasks shown under `name`, at instant `now`.
pub open spec fn folder_total(tasks: Seq<TaskView>, name: Seq<char>, now: int) -> int {
    total_duration_at(tasks.filter(in_group(name)), now)
}

/// The views of duration entries: each folder name with its total.
pub open spec fn pair_views(s: Seq<(String, i64)>) -> Seq<(Seq<char>, i64)> {
    s.map_values(|p: (String, i64)| (p.0@, p.1))
}

/// Whether some entry carries the given name.
pub open spec fn has_entry(pv: Seq<(Seq<char>, i64)>, name: Seq<char>) -> bool {
    exists|k: int| 0 <= k < pv.len() && pv[k].0 == name
}

/// Whether entry `k` carries the shown folder name of some task.
pub open spec fn entry_name_used(pv: Seq<(Seq<char>, i64)>, tasks: Seq<TaskView>, k: int) -> bool {
    exists|j: int| 0 <= j < tasks.len() && pv[k].0 == effective_folder(tasks[j])
}

/// The tracked duration summed over the tasks shown under `key`.
fn folder_total_exec(store: &TaskStore, key: &String, now: i64) -> (r: i64)
    requires
        store.wf(),
    ensures
        r as int == folder_total(store.views(), key@, now as int),
        0 <= r,
{
    let ghost p = in_group(key@);
    let mut acc: i64 = 0;
    let mut i: usize = 0;
    proof {
        assert(store.views().len() == store.tasks@.len());
        assert(store.views().subrange(0, 0).filter(p) =~= Seq::<TaskView>::empty()) by {
            reveal(Seq::filter);
        }
    }
    while i < store.tasks.len()
        invariant
            store.wf(),
            0 <= i <= store.tasks@.len(),
            store.views().len() == store.tasks@.len(),
            p == in_group(key@),
            0 <= acc,
            acc as int == total_duration_at(
                store.views().subrange(0, i as int).filter(p),
                now as int,
            ),
        decreases store.tasks@.len() - i,
    {
        let ghost prefix = store.views().subrange(0, i as int);
        proof {
            assert(store.views()[i as int] == store.tasks@[i as int]@);
            assert(store.views()[i as int].wf());
        }
        let e = TaskStore::effective_folder_string(&store.tasks[i]);
        let matches_group = e == *key;
        proof {
            assert(p(store.views()[i as int]) == matches_group);
        }
        if matches_group {
            let d = store.tasks[i].current_duration_at(now);
            acc = sat_add_exec(acc, d);
        }
        proof {
            reveal(Seq::filter);
            let prefix1 = store.views().subrange(0, i as int + 1);
            assert(prefix1.drop_last() =~= prefix);
            assert(prefix1.last() == store.views()[i as int]);
            if matches_group {
                assert(prefix1.filter(p) == prefix.filter(p).push(prefix1.last()));
                assert(prefix1.filter(p).drop_last() =~= prefix.filter(p));
                assert(prefix1.filter(p).last() == store.views()[i as int]);
            } else {
                assert(prefix1.filter(p) == prefix.filter(p));
            }
        }
        i = i + 1;
    }
    proof {
        assert(store.views().subrange(0, store.tasks@.len() as int) =~= store.views());
    }
    acc
}

/// Sorts duration entries by duration, largest first, keeping exactly the
/// same entries. The order of entries with equal durations is left open.
fn sort_pairs_desc(v: &mut Vec<(String, i64)>)
    ensures
        pair_views(final(v)@).to_multiset() == pair_views(old(v)@).to_multiset(),
        final(v)@.len() == old(v)@.len(),
        forall|a: int, b: int|
            0 <= a < b < final(v)@.len() ==> (#[trigger] pair_views(final(v)@)[a]).1 >= (
            #[trigger] pair_views(final(v)@)[b]).1,
{
    let ghost orig = pair_views(old(v)@);
    let mut i: usize = 1;
    while i < v.len()
        invariant
            1 <= i <= v@.len() || v@.len() == 0,
            pair_views(v@).to_multiset() == orig.to_multiset(),
            pair_views(v@).len() == orig.len(),
            v@.len() == orig.len(),
            forall|a: int, b: int|
                0 <= a < b < i ==> (#[trigger] pair_views(v@)[a]).1 >= (#[trigger] pair_views(
                    v@,
                )[b]).1,
        decreases v@.len() - i,
    {
        let mut p: usize = 0;
        loop
            invariant
                0 <= p <= i < v@.len(),
                pair_views(v@).len() == v@.len(),
                forall|k: int|
                    0 <= k < p ==> (#[trigger] pair_views(v@)[k]).1 >= pair_views(v@)[i as int].1,
            ensures
                0 <= p <= i < v@.len(),
                forall|k: int|
                    0 <= k < p ==> (#[trigger] pair_views(v@)[k]).1 >= pair_views(v@)[i as int].1,
                p < i ==> !(pair_views(v@)[p as int].1 >= pair_views(v@)[i as int].1),
            decreases i - p,
        {
            if p >= i {
                break ;
            }
            proof {
                assert(pair_views(v@)[p as int].1 == v@[p as int].1);
                assert(pair_views(v@)[i as int].1 == v@[i as int].1);
            }
            if !(v[p].1 >= v[i].1) {
                break ;
            }
            p = p + 1;
        }
        let ghost before = pair_views(v@);
        let x = v.remove(i);
        v.insert(p, x);
        proof {
            let after = pair_views(v@);
            assert(after =~= before.remove(i as int).insert(p as int, before[i as int])) by {
                assert forall|k: int| 0 <= k < after.len() implies after[k] == before.remove(
                    i as int,
                ).insert(p as int, before[i as int])[k] by {
                    assert(after[k] == (v@[k].0@, v@[k].1));
                }
            }
            lemma_remove_insert_multiset(before, i as int, p as int);
            assert(after.to_multiset() == before.to_multiset());
            assert forall|a: int, b: int|
                0 <= a < b < i + 1 implies (#[trigger] after[a]).1 >= (#[trigger] after[b]).1 by {
                if b < p {
                } else if a < p && b == p {
                } else if a < p && b > p {
                } else if a == p && b > p {
                    if p < i {
                        assert(before[p as int].1 < before[i as int].1);
                    }
                } else {
                }
            }
        }
        i = i + 1;
    }
    proof {
        if v@.len() > 0 {
            assert(pair_views(v@) =~= pair_views(v@).subrange(0, v@.len() as int));
        }
    }
}

/// The per-folder totals over the current tasks at instant `now`, sorted
/// by total, largest first: one entry per shown folder name, carrying
/// exactly the summed duration of its tasks.
pub fn calculate_folder_durations(store: &TaskStore, registry: &FolderRegistry, now: i64) -> (r:
    Vec<(String, i64)>)
    requires
        store.wf(),
        registry.wf(),
    ensures
        ({
            let cur = current_tasks(store.views(), registry.folder_names());
            let pv = pair_views(r@);
            &&& (forall|a: int, b: int|
                0 <= a < b < pv.len() ==> (#[trigger] pv[a]).0 != (#[trigger] pv[b]).0)
            &&& (forall|k: int|
                0 <= k < pv.len() ==> (#[trigger] pv[k]).1 as int == folder_total(
                    cur,
                    pv[k].0,
                    now as int,
                ))
            &&& (forall|j: int|
                0 <= j < cur.len() ==> has_entry(pv, effective_folder(#[trigger] cur[j])))
            &&& (forall|k: int| 0 <= k < pv.len() ==> #[trigger] entry_name_used(pv, cur, k))
            &&& (forall|a: int, b: int|
                0 <= a < b < pv.len() ==> (#[trigger] pv[a]).1 >= (#[trigger] pv[b]).1)
        }),
{
    let cur = current_tasks_store(store, registry);
    let keys = cur.group_keys();
    let mut result: Vec<(String, i64)> = Vec::new();
    let mut g: usize = 0;
    proof {
        assert(views(keys@).len() == keys@.len());
    }
    while g < keys.len()
        invariant
            cur.wf(),
            0 <= g <= keys@.len(),
            views(keys@).len() == keys@.len(),
            result@.len() == g,
            forall|k: int| 0 <= k < g ==> (#[trigger] pair_views(result@)[k]).0 == views(keys@)[k],
            forall|k: int|
                0 <= k < g ==> (#[trigger] pair_views(result@)[k]).1 as int == folder_total(
                    cur.views(),
                    views(keys@)[k],
                    now as int,
                ),
        decreases keys@.len() - g,
    {
        let key = keys[g].clone();
        let total = folder_total_exec(&cur, &key, now);
        let ghost prev = pair_views(result@);
        result.push((key, total));
        proof {
            assert(pair_views(result@).len() == g + 1);
            assert forall|k: int| 0 <= k < g + 1 implies (#[trigger] pair_views(result@)[k])
                == (if k < g {
                prev[k]
            } else {
                (views(keys@)[g as int], total)
            }) by {
                if k < g {
                    assert(pair_views(result@)[k] == (result@[k].0@, result@[k].1));
                    assert(prev[k] == (result@[k].0@, result@[k].1));
                } else {
                    assert(pair_views(result@)[k] == (result@[k].0@, result@[k].1));
                    assert(views(keys@)[g as int] == keys@[g as int]@);
                }
            }
        }
        g = g + 1;
    }
    let ghost unsorted = pair_views(result@);
    let ghost curv = cur.views();
    proof {
        // the unsorted entries carry distinct names, exact totals, and
        // exactly the shown folder names of the current tasks
        assert(views(keys@).subrange(0, keys@.len() as int) =~= views(keys@));
        assert forall|a: int, b: int|
            0 <= a < b < unsorted.len() implies (#[trigger] unsorted[a]).0 != (
        #[trigger] unsorted[b]).0 by {
            assert(unsorted[a].0 == views(keys@)[a]);
            assert(unsorted[b].0 == views(keys@)[b]);
        }
    }
    sort_pairs_desc(&mut result);
    proof {
        let pv = pair_views(result@);
        unsorted.to_multiset_ensures();
        pv.to_multiset_ensures();
        // the entries are a permutation: distinctness carries over
        assert forall|x: (Seq<char>, i64)| unsorted.to_multiset().contains(x) implies unsorted.to_multiset().count(
            x,
        ) == 1 by {
            unsorted.lemma_multiset_has_no_duplicates();
        }
        assert(unsorted.no_duplicates()) by {
            assert forall|a: int, b: int| 0 <= a < b < unsorted.len() implies unsorted[a]
                != unsorted[b] by {
                assert(unsorted[a].0 != unsorted[b].0);
            }
        }
        unsorted.lemma_multiset_has_no_duplicates();
        assert forall|x: (Seq<char>, i64)| pv.to_multiset().contains(x) implies pv.to_multiset().count(
            x,
        ) == 1 by {
            assert(pv.to_multiset().count(x) == unsorted.to_multiset().count(x));
        }
        pv.lemma_multiset_has_no_duplicates_conv();
        // each entry of the result is one of the unsorted entries
        assert forall|k: int| 0 <= k < pv.len() implies unsorted.contains(#[trigger] pv[k]) by {
            assert(pv.contains(pv[k]));
            assert(pv.to_multiset().count(pv[k]) > 0);
            assert(unsorted.to_multiset().count(pv[k]) > 0);
        }
        // totals and name provenance carry over entry by entry
        assert forall|k: int| 0 <= k < pv.len() implies (#[trigger] pv[k]).1 as int == folder_total(
            curv,
            pv[k].0,
            now as int,
        ) && entry_name_used(pv, curv, k) by {
            let m = choose|m: int| 0 <= m < unsorted.len() && unsorted[m] == pv[k];
            assert(unsorted[m].1 as int == folder_total(curv, unsorted[m].0, now as int));
            assert(key_used_within(views(keys@), curv, m, curv.len() as int));
            let j = choose|j: int|
                0 <= j < curv.len() && views(keys@)[m] == effective_folder(curv[j]);
            assert(0 <= j < curv.len() && pv[k].0 == effective_folder(curv[j]));
        }
        // distinct names
        assert forall|a: int, b: int|
            0 <= a < b < pv.len() implies (#[trigger] pv[a]).0 != (#[trigger] pv[b]).0 by {
            if pv[a].0 == pv[b].0 {
                assert(pv[a] != pv[b]);
                let ma = choose|m: int| 0 <= m < unsorted.len() && unsorted[m] == pv[a];
                let mb = choose|m: int| 0 <= m < unsorted.len() && unsorted[m] == pv[b];
                assert(unsorted[ma].0 == unsorted[mb].0);
                assert(ma != mb || unsorted[ma] == unsorted[mb]);
                if ma != mb {
                    if ma < mb {
                        assert(unsorted[ma].0 != unsorted[mb].0);
                    } else {
                        assert(unsorted[mb].0 != unsorted[ma].0);
                    }
                }
            }
        }
        // every current task's shown name has an entry
        assert forall|j: int| 0 <= j < curv.len() implies has_entry(
            pv,
            effective_folder(#[trigger] curv[j]),
        ) by {
            let e = effective_folder(curv[j]);
            assert(views(keys@).contains(e));
            let m = choose|m: int| 0 <= m < views(keys@).len() && views(keys@)[m] == e;
            assert(unsorted[m].0 == e);
            assert(unsorted.contains(unsorted[m]));
            assert(unsorted.to_multiset().count(unsorted[m]) > 0);
            assert(pv.to_multiset().count(unsorted[m]) > 0);
            assert(pv.contains(unsorted[m]));
            let k = choose|k: int| 0 <= k < pv.len() && pv[k] == unsorted[m];
            assert(0 <= k < pv.len() && pv[k].0 == e);
        }
        // restate over the caller's terms
        let curgoal = current_tasks(store.views(), registry.folder_names());
        assert(curv == curgoal);
        assert(forall|a: int, b: int|
            0 <= a < b < pv.len() ==> (#[trigger] pv[a]).0 != (#[trigger] pv[b]).0);
        assert(forall|k: int|
            0 <= k < pv.len() ==> (#[trigger] pv[k]).1 as int == folder_total(
                curgoal,
                pv[k].0,
                now as int,
            ));
        assert forall|j: int| 0 <= j < curgoal.len() implies has_entry(
            pv,
            effective_folder(#[trigger] curgoal[j]),
        ) by {
            assert(curgoal[j] == curv[j]);
            assert(has_entry(pv, effective_folder(curv[j])));
        }
        assert forall|k: int| 0 <= k < pv.len() implies #[trigger] entry_name_used(
            pv,
            curgoal,
            k,
        ) by {
            let kv = pv[k];
            assert(entry_name_used(pv, curv, k));
        }
        assert(forall|a: int, b: int|
            0 <= a < b < pv.len() ==> (#[trigger] pv[a]).1 >= (#[trigger] pv[b]).1);
    }
    result
}


/// Whether some task is filed under the folder `name`.
pub open spec fn task_has_folder(ts: Seq<TaskView>, name: Seq<char>) -> bool {
    exists|j: int| 0 <= j < ts.len() && ts[j].folder == Some(name)
}

/// Whether any task is filed under a folder at all.
pub open spec fn has_named_folder(ts: Seq<TaskView>) -> bool {
    exists|j: int| 0 <= j < ts.len() && ts[j].folder is Some
}

/// Whether a task's folder, if it has one, is among the listed names.
pub open spec fn folder_listed(keys: Seq<Seq<char>>, t: TaskView) -> bool {
    match t.folder {
        None => true,
        Some(f) => keys.contains(f),
    }
}

/// Whether name `k` is the folder of one of the first `n` tasks.
pub open spec fn key_from_task(keys: Seq<Seq<char>>, ts: Seq<TaskView>, k: int, n: int) -> bool {
    exists|j: int| 0 <= j < n && ts[j].folder == Some(keys[k])
}

/// The distinct folder names the tasks use, sorted alphabetically; the
/// single name `Default` when no task is filed under any folder.
pub fn get_projects(store: &TaskStore) -> (r: Vec<String>)
    requires
        store.wf(),
    ensures
        views(r@).no_duplicates(),
        strings_sorted(views(r@)),
        forall|x: Seq<char>|
            has_named_folder(store.views()) && #[trigger] views(r@).contains(x)
                ==> task_has_folder(store.views(), x),
        forall|x: Seq<char>|
            #[trigger] task_has_folder(store.views(), x) ==> views(r@).contains(x),
        !has_named_folder(store.views()) ==> views(r@) == seq!["Default"@],
{
    let ghost tsv = store.views();
    let mut keys: Vec<String> = Vec::new();
    let mut i: usize = 0;
    proof {
        assert(tsv.len() == store.tasks@.len());
    }
    while i < store.tasks.len()
        invariant
            store.wf(),
            tsv == store.views(),
            tsv.len() == store.tasks@.len(),
            0 <= i <= store.tasks@.len(),
            views(keys@).no_duplicates(),
            forall|j: int| 0 <= j < i ==> #[trigger] folder_listed(views(keys@), tsv[j]),
            forall|k: int|
                0 <= k < views(keys@).len() ==> #[trigger] key_from_task(
                    views(keys@),
                    tsv,
                    k,
                    i as int,
                ),
        decreases store.tasks@.len() - i,
    {
        proof {
            assert(tsv[i as int] == store.tasks@[i as int]@);
        }
        let ghost prev = views(keys@);
        let mut pushed = false;
        match &store.tasks[i].folder {
            None => {},
            Some(f) => {
                if !contains_string(&keys, f) {
                    let nf = f.clone();
                    proof {
                        lemma_views_push(keys@, nf);
                    }
                    keys.push(nf);
                    pushed = true;
                }
            },
        };
        proof {
            let after = views(keys@);
            if pushed {
                let fv = tsv[i as int].folder->0;
                assert(after == prev.push(fv));
                // distinctness
                assert forall|a: int, b: int|
                    0 <= a < b < after.len() implies after[a] != after[b] by {
                    if b < after.len() - 1 {
                        assert(prev[a] != prev[b]);
                    } else {
                        assert(after[a] == prev[a]);
                        assert(prev.contains(prev[a]));
                    }
                }
                // old names stay listed, the new task's name is listed
                assert forall|j: int| 0 <= j < i + 1 implies #[trigger] folder_listed(
                    after,
                    tsv[j],
                ) by {
                    if j < i {
                        assert(folder_listed(prev, tsv[j]));
                        match tsv[j].folder {
                            None => {},
                            Some(g) => {
                                let m = choose|m: int| 0 <= m < prev.len() && prev[m] == g;
                                assert(after[m] == g);
                            },
                        }
                    } else {
                        assert(after[after.len() - 1] == fv);
                    }
                }
                // every listed name still comes from a task
                assert forall|k: int| 0 <= k < after.len() implies #[trigger] key_from_task(
                    after,
                    tsv,
                    k,
                    i as int + 1,
                ) by {
                    if k < after.len() - 1 {
                        assert(key_from_task(prev, tsv, k, i as int));
                        let j = choose|j: int| 0 <= j < i && tsv[j].folder == Some(prev[k]);
                        assert(after[k] == prev[k]);
                        assert(0 <= j < i + 1 && tsv[j].folder == Some(after[k]));
                    } else {
                        let ghost j = i as int;
                        assert(0 <= j < i + 1 && tsv[j].folder == Some(after[k]));
                    }
                }
            } else {
                assert(after == prev);
                assert(folder_listed(after, tsv[i as int]));
                assert forall|k: int| 0 <= k < after.len() implies #[trigger] key_from_task(
                    after,
                    tsv,
                    k,
                    i as int + 1,
                ) by {
                    assert(key_from_task(prev, tsv, k, i as int));
                    let j = choose|j: int| 0 <= j < i && tsv[j].folder == Some(prev[k]);
                    assert(0 <= j < i + 1 && tsv[j].folder == Some(after[k]));
                }
            }
        }
        i = i + 1;
    }
    if keys.len() == 0 {
        proof {
            assert(views(keys@).len() == 0);
            if has_named_folder(tsv) {
                let j = choose|j: int| 0 <= j < tsv.len() && tsv[j].folder is Some;
                assert(folder_listed(views(keys@), tsv[j]));
            }
        }
        let mut r: Vec<String> = Vec::new();
        let d = "Default".to_owned();
        proof {
            lemma_views_push(r@, d);
        }
        r.push(d);
        proof {
            assert(views(r@) =~= seq!["Default"@]);
        }
        return r;
    }
    let ghost before = views(keys@);
    sort_strings(&mut keys);
    proof {
        let after = views(keys@);
        before.to_multiset_ensures();
        after.to_multiset_ensures();
        before.lemma_multiset_has_no_duplicates();
        assert forall|x: (Seq<char>)| after.to_multiset().contains(x) implies after.to_multiset().count(
            x,
        ) == 1 by {
            assert(after.to_multiset().count(x) == before.to_multiset().count(x));
        }
        after.lemma_multiset_has_no_duplicates_conv();
        // this branch only runs when some task carries a folder
        assert(key_from_task(before, tsv, 0, tsv.len() as int));
        assert(has_named_folder(tsv)) by {
            let j = choose|j: int| 0 <= j < tsv.len() && tsv[j].folder == Some(before[0]);
            assert(0 <= j < tsv.len() && tsv[j].folder is Some);
        }
        // membership goes both ways through the sort
        assert forall|x: Seq<char>| #[trigger] after.contains(x) implies task_has_folder(
            tsv,
            x,
        ) by {
            assert(after.to_multiset().count(x) > 0);
            assert(before.to_multiset().count(x) > 0);
            assert(before.contains(x));
            let k = choose|k: int| 0 <= k < before.len() && before[k] == x;
            assert(key_from_task(before, tsv, k, tsv.len() as int));
            let j = choose|j: int| 0 <= j < tsv.len() && tsv[j].folder == Some(before[k]);
            assert(0 <= j < tsv.len() && tsv[j].folder == Some(x));
        }
        assert forall|x: Seq<char>| #[trigger] task_has_folder(tsv, x) implies after.contains(
            x,
        ) by {
            let j = choose|j: int| 0 <= j < tsv.len() && tsv[j].folder == Some(x);
            assert(folder_listed(before, tsv[j]));
            assert(before.contains(x));
            assert(before.to_multiset().count(x) > 0);
            assert(after.to_multiset().count(x) > 0);
        }
    }
    keys
}

} // verus!
