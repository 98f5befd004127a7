//! The task store: the collection of tasks, keyed by their unique ids.
//! It applies timer transitions, moves tasks between folders, and carries
//! out the cascades that deleting or clearing a folder asks for.

use crate::strutil::{lemma_filter_distinct_keys, lemma_filter_subset, lemma_views_push, views};
use crate::task::{opt_view, Task, TaskView};
use vstd::prelude::*;

verus! {

/// The timer commands the store can apply to one task.
#[derive(Clone, Copy, PartialEq, Eq, Structural, Debug)]
pub enum TaskAction {
    Start,
    Pause,
    Resume,
    ToggleComplete,
}

/// Why adding a task was refused.
#[derive(Clone, Copy, PartialEq, Eq, Structural, Debug)]
pub enum AddTaskError {
    /// The description was empty; nothing was changed.
    EmptyDescription,
    /// The freshly drawn id was already taken; nothing was changed.
    IdCollision,
}

/// The collection of tasks.
pub struct TaskStore {
    pub tasks: Vec<Task>,
}

/// The views of a sequence of tasks.
pub open spec fn task_views(s: Seq<Task>) -> Seq<TaskView> {
    s.map_values(|t: Task| t@)
}

/// The id of a task view.
pub open spec fn id_key() -> spec_fn(TaskView) -> Seq<char> {
    |t: TaskView| t.id
}

/// The ids of a sequence of task views, in order.
pub open spec fn ids_of(s: Seq<TaskView>) -> Seq<Seq<char>> {
    s.map_values(id_key())
}

/// Tasks that do not reference folder `name`: what survives the cascade
/// of deleting that folder.
pub open spec fn outside_folder(name: Seq<char>) -> spec_fn(TaskView) -> bool {
    |t: TaskView| t.folder != Some(name)
}

/// Tasks whose id differs from `id`: what survives deleting that task.
pub open spec fn other_id(id: Seq<char>) -> spec_fn(TaskView) -> bool {
    |t: TaskView| t.id != id
}

/// The folder name a task is shown under: its own folder, or
/// `Uncategorized` for a task without one.
pub open spec fn effective_folder(t: TaskView) -> Seq<char> {
    match t.folder {
        Some(f) => f,
        None => "Uncategorized"@,
    }
}

/// Tasks shown under the group name `name`.
pub open spec fn in_group(name: Seq<char>) -> spec_fn(TaskView) -> bool {
    |t: TaskView| effective_folder(t) == name
}

/// Whether `keys[k]` is the shown folder name of one of the first `n`
/// tasks.
pub open spec fn key_used_within(keys: Seq<Seq<char>>, tasks: Seq<TaskView>, k: int, n: int) -> bool {
    exists|j: int| 0 <= j < n && keys[k] == effective_folder(tasks[j])
}

/// Whether some group carries the shown folder name of task `j`.
pub open spec fn task_covered(
    groups: Seq<(Seq<char>, Seq<Seq<char>>)>,
    tasks: Seq<TaskView>,
    j: int,
) -> bool {
    exists|k: int| 0 <= k < groups.len() && groups[k].0 == effective_folder(tasks[j])
}

/// Whether group `k` carries the shown folder name of some task.
pub open spec fn group_key_used(
    groups: Seq<(Seq<char>, Seq<Seq<char>>)>,
    tasks: Seq<TaskView>,
    k: int,
) -> bool {
    exists|j: int| 0 <= j < tasks.len() && groups[k].0 == effective_folder(tasks[j])
}

/// What one timer command does to one task at instant `now`.
pub open spec fn apply_action_view(t: TaskView, action: TaskAction, now: int) -> TaskView {
    match action {
        TaskAction::Start => t.spec_start(now),
        TaskAction::Pause => t.spec_pause(now),
        TaskAction::Resume => t.spec_resume(now),
        TaskAction::ToggleComplete => t.spec_toggle_complete(now),
    }
}

/// The views of a grouping: each group's name with its member ids.
pub open spec fn group_views(s: Seq<(String, Vec<String>)>) -> Seq<(Seq<char>, Seq<Seq<char>>)> {
    s.map_values(|e: (String, Vec<String>)| (e.0@, views(e.1@)))
}

/// Relies on uuid's `Uuid::new_v4` and its `Display` implementation: a
/// fresh random version-4 UUID rendered in the hyphenated form, which is
/// always 36 characters. The value is random: nothing else is promised,
/// and the store checks for collisions itself. Like an allocation
/// failure, uuid aborts the process when the operating system's random
/// source fails; no input of ours can trigger that.
#[verifier::external_body]
fn fresh_task_id() -> (r: String)
    ensures
        r@.len() == 36,
{
    uuid::Uuid::new_v4().to_string()
}

/// Pushing a task appends its view.
proof fn lemma_task_views_push(s: Seq<Task>, t: Task)
    ensures
        task_views(s).len() == s.len(),
        task_views(s.push(t)) == task_views(s).push(t@),
{
    assert(task_views(s).len() == s.len());
    assert(task_views(s.push(t)).len() == s.len() + 1);
    assert forall|k: int|
        0 <= k < s.len() + 1 implies task_views(s.push(t))[k] == task_views(s).push(t@)[k] by {
        if k < s.len() {
            assert(task_views(s.push(t))[k] == s[k]@);
            assert(task_views(s)[k] == s[k]@);
        }
    }
    assert(task_views(s.push(t)) =~= task_views(s).push(t@));
}

/// Pushing a task view appends its id.
proof fn lemma_ids_push(s: Seq<TaskView>, t: TaskView)
    ensures
        ids_of(s).len() == s.len(),
        ids_of(s.push(t)) == ids_of(s).push(t.id),
{
    assert(ids_of(s).len() == s.len());
    assert(ids_of(s.push(t)).len() == s.len() + 1);
    assert forall|k: int|
        0 <= k < s.len() + 1 implies ids_of(s.push(t))[k] == ids_of(s).push(t.id)[k] by {
        if k < s.len() {
            assert(ids_of(s.push(t))[k] == s[k].id);
            assert(ids_of(s)[k] == s[k].id);
        }
    }
    assert(ids_of(s.push(t)) =~= ids_of(s).push(t.id));
}

impl TaskStore {
    /// The mathematical value of the store: the task views in order.
    pub open spec fn views(&self) -> Seq<TaskView> {
        task_views(self.tasks@)
    }

    /// The task ids in order.
    pub open spec fn ids(&self) -> Seq<Seq<char>> {
        ids_of(self.views())
    }

    /// Whether some task has the given id.
    pub open spec fn contains_id(&self, id: Seq<char>) -> bool {
        self.ids().contains(id)
    }

    /// Well-formedness: ids are unique and every task is well-formed.
    pub open spec fn wf(&self) -> bool {
        &&& self.ids().no_duplicates()
        &&& (forall|i: int| 0 <= i < self.views().len() ==> (#[trigger] self.views()[i]).wf())
    }

    /// An empty store.
    pub fn new() -> (r: TaskStore)
        ensures
            r.wf(),
            r.views() == Seq::<TaskView>::empty(),
    {
        let r = TaskStore { tasks: Vec::new() };
        proof {
            assert(r.views() =~= Seq::<TaskView>::empty());
            assert(r.ids() =~= Seq::<Seq<char>>::empty());
        }
        r
    }

    /// How many tasks the store holds.
    pub fn len(&self) -> (n: usize)
        ensures
            n == self.views().len(),
    {
        proof {
            assert(self.views().len() == self.tasks@.len());
        }
        self.tasks.len()
    }

    /// The position of the task with the given id, if any.
    fn find_index(&self, id: &String) -> (r: Option<usize>)
        requires
            self.wf(),
        ensures
            match r {
                Some(i) => {
                    &&& i < self.views().len()
                    &&& self.views()[i as int].id == id@
                    &&& i as int == self.ids().index_of(id@)
                    &&& self.contains_id(id@)
                },
                None => !self.contains_id(id@),
            },
    {
        let ghost idseq = self.ids();
        let mut i: usize = 0;
        let mut found = false;
        proof {
            assert(idseq.len() == self.views().len());
            assert(self.views().len() == self.tasks@.len());
        }
        loop
            invariant
                self.wf(),
                idseq == self.ids(),
                idseq.len() == self.tasks@.len(),
                0 <= i <= idseq.len(),
                !found ==> forall|k: int| 0 <= k < i ==> idseq[k] != id@,
                found ==> i < idseq.len() && idseq[i as int] == id@,
            ensures
                found == idseq.contains(id@),
                found ==> i < idseq.len() && idseq[i as int] == id@,
            decreases idseq.len() - i + if found {
                0int
            } else {
                1int
            },
        {
            if i >= self.tasks.len() {
                proof {
                    if idseq.contains(id@) {
                        let j = choose|j: int| 0 <= j < idseq.len() && idseq[j] == id@;
                        assert(idseq[j] != id@);
                    }
                }
                break ;
            }
            proof {
                assert(idseq[i as int] == self.views()[i as int].id);
                assert(self.views()[i as int] == self.tasks@[i as int]@);
            }
            if self.tasks[i].id == *id {
                found = true;
                break ;
            }
            i = i + 1;
        }
        if found {
            proof {
                let c = idseq.index_of(id@);
                assert(exists|j: int| 0 <= j < idseq.len() && idseq[j] == id@);
                assert(0 <= c < idseq.len() && idseq[c] == id@);
                if c != i as int {
                    assert(false);
                }
            }
            Some(i)
        } else {
            None
        }
    }

    /// A reference to the task with the given id, if any.
    pub fn get(&self, id: &String) -> (r: Option<&Task>)
        requires
            self.wf(),
        ensures
            match r {
                Some(t) => self.contains_id(id@) && t@ == self.views()[self.ids().index_of(id@)]
                    && t@.id == id@,
                None => !self.contains_id(id@),
            },
    {
        match self.find_index(id) {
            Some(i) => {
                proof {
                    assert(self.views()[i as int] == self.tasks@[i as int]@);
                }
                Some(&self.tasks[i])
            },
            None => None,
        }
    }

    /// Adds a task under the given id: refused without any change if the
    /// description is empty or the id is already taken.
    pub fn add_task_with_id(&mut self, id: String, description: String, folder: Option<String>) -> (added:
        bool)
        requires
            old(self).wf(),
        ensures
            final(self).wf(),
            added == (description@.len() > 0 && !old(self).contains_id(id@)),
            !added ==> *final(self) == *old(self),
            added ==> final(self).views() == old(self).views().push(
                TaskView {
                    id: id@,
                    description: description@,
                    folder: opt_view(folder),
                    total_duration: 0,
                    start_time: None,
                    is_paused: false,
                },
            ),
    {
        if description.as_str().is_empty() {
            return false;
        }
        let ghost idv = id@;
        // a linear scan over the ids
        let mut i: usize = 0;
        proof {
            assert(self.ids().len() == self.tasks@.len());
        }
        while i < self.tasks.len()
            invariant
                self.wf(),
                self.ids().len() == self.tasks@.len(),
                0 <= i <= self.tasks@.len(),
                forall|k: int| 0 <= k < i ==> self.ids()[k] != idv,
                *self == *old(self),
                idv == id@,
            decreases self.tasks@.len() - i,
        {
            proof {
                assert(self.ids()[i as int] == self.views()[i as int].id);
                assert(self.views()[i as int] == self.tasks@[i as int]@);
            }
            if self.tasks[i].id == id {
                return false;
            }
            i = i + 1;
        }
        proof {
            if self.contains_id(idv) {
                let j = choose|j: int| 0 <= j < self.ids().len() && self.ids()[j] == idv;
                assert(self.ids()[j] != idv);
            }
        }
        let t = Task::new(id, description, folder);
        let ghost before = self.views();
        proof {
            lemma_task_views_push(self.tasks@, t);
            lemma_ids_push(before, t@);
        }
        self.tasks.push(t);
        proof {
            // unique ids and well-formed tasks are preserved
            let after = self.views();
            assert(after == before.push(t@));
            assert(self.ids() == ids_of(before).push(t@.id));
            assert forall|a: int, b: int|
                0 <= a < b < self.ids().len() implies self.ids()[a] != self.ids()[b] by {
                if b < self.ids().len() - 1 {
                    assert(ids_of(before)[a] != ids_of(before)[b]);
                } else {
                    assert(self.ids()[a] == ids_of(before)[a]);
                }
            }
            assert forall|k: int| 0 <= k < after.len() implies (#[trigger] after[k]).wf() by {
                if k < before.len() {
                    assert(after[k] == before[k]);
                }
            }
        }
        true
    }

    /// Creates a task with a fresh id and the given description in the
    /// given folder, and returns the id. An empty description is refused;
    /// the freakish event of a drawn id colliding with an existing one is
    /// also refused rather than overwriting the older task.
    pub fn add_task(&mut self, description: String, folder: Option<String>) -> (r: Result<
        String,
        AddTaskError,
    >)
        requires
            old(self).wf(),
        ensures
            final(self).wf(),
            r == Err::<String, AddTaskError>(AddTaskError::EmptyDescription) <==> description@.len()
                == 0,
            // a collision needs someone to collide with: success is owed
            // whenever the store is empty
            r == Err::<String, AddTaskError>(AddTaskError::IdCollision) ==> old(
                self,
            ).views().len() > 0,
            r matches Err(e) ==> *final(self) == *old(self),
            r matches Ok(id) ==> {
                &&& !old(self).contains_id(id@)
                &&& final(self).views() == old(self).views().push(
                    TaskView {
                        id: id@,
                        description: description@,
                        folder: opt_view(folder),
                        total_duration: 0,
                        start_time: None,
                        is_paused: false,
                    },
                )
            },
    {
        if description.as_str().is_empty() {
            return Err(AddTaskError::EmptyDescription);
        }
        let id = fresh_task_id();
        let id_out = id.clone();
        if self.add_task_with_id(id, description, folder) {
            Ok(id_out)
        } else {
            proof {
                // the refusal can only have been a collision, so some task
                // already carries the drawn id
                assert(old(self).contains_id(id_out@));
                let j = choose|j: int|
                    0 <= j < old(self).ids().len() && old(self).ids()[j] == id_out@;
                assert(old(self).ids().len() == old(self).views().len());
            }
            Err(AddTaskError::IdCollision)
        }
    }

    /// Deletes the task with the given id, keeping every other task in
    /// order; reports whether the id was present.
    pub fn delete(&mut self, id: &String) -> (removed: bool)
        requires
            old(self).wf(),
        ensures
            final(self).wf(),
            removed == old(self).contains_id(id@),
            final(self).views() == old(self).views().filter(other_id(id@)),
    {
        let ghost before = self.views();
        let ghost p = other_id(id@);
        let mut kept: Vec<Task> = Vec::new();
        let mut found = false;
        let mut i: usize = 0;
        proof {
            assert(before.len() == self.tasks@.len());
            assert(ids_of(before).len() == before.len());
        }
        while i < self.tasks.len()
            invariant
                0 <= i <= self.tasks@.len(),
                task_views(self.tasks@) == before,
                before.len() == self.tasks@.len(),
                p == other_id(id@),
                task_views(kept@) == before.subrange(0, i as int).filter(p),
                found == ids_of(before.subrange(0, i as int)).contains(id@),
            decreases self.tasks@.len() - i,
        {
            let ghost prefix = before.subrange(0, i as int);
            proof {
                assert(before[i as int] == self.tasks@[i as int]@);
            }
            let keep_it = !(self.tasks[i].id == *id);
            proof {
                assert(p(before[i as int]) == keep_it);
            }
            if keep_it {
                let t = self.tasks[i].duplicate();
                proof {
                    lemma_task_views_push(kept@, t);
                }
                kept.push(t);
            } else {
                found = true;
            }
            proof {
                reveal(Seq::filter);
                let prefix1 = before.subrange(0, i as int + 1);
                assert(prefix1.drop_last() =~= prefix);
                assert(prefix1.last() == before[i as int]);
                if keep_it {
                    assert(prefix1.filter(p) == prefix.filter(p).push(prefix1.last()));
                } else {
                    assert(prefix1.filter(p) == prefix.filter(p));
                }
                // membership of the id in the longer prefix
                lemma_ids_push(prefix, before[i as int]);
                assert(ids_of(prefix1) =~= ids_of(prefix).push(before[i as int].id));
                if before[i as int].id == id@ {
                    assert(ids_of(prefix1)[i as int] == id@);
                    assert(ids_of(prefix1).contains(id@));
                } else {
                    assert(ids_of(prefix1).contains(id@) == ids_of(prefix).contains(id@)) by {
                        if ids_of(prefix).contains(id@) {
                            let j = choose|j: int|
                                0 <= j < ids_of(prefix).len() && ids_of(prefix)[j] == id@;
                            assert(ids_of(prefix1)[j] == id@);
                        } else if ids_of(prefix1).contains(id@) {
                            let j = choose|j: int|
                                0 <= j < ids_of(prefix1).len() && ids_of(prefix1)[j] == id@;
                            assert(j < ids_of(prefix).len());
                            assert(ids_of(prefix)[j] == id@);
                        }
                    }
                }
            }
            i = i + 1;
        }
        proof {
            assert(before.subrange(0, before.len() as int) =~= before);
            lemma_filter_distinct_keys(before, p, id_key());
            lemma_filter_subset(before, p);
            let after = task_views(kept@);
            assert forall|k: int| 0 <= k < after.len() implies (#[trigger] after[k]).wf() by {
                assert(after.contains(after[k]));
                assert(before.contains(after[k]));
                let j = choose|j: int| 0 <= j < before.len() && before[j] == after[k];
                assert(before[j].wf());
            }
        }
        self.tasks = kept;
        found
    }

    /// Deletes every task whose folder is exactly `name`, keeping all
    /// other tasks in order. This is the cascade a folder deletion runs.
    pub fn remove_folder_tasks(&mut self, name: &String)
        requires
            old(self).wf(),
        ensures
            final(self).wf(),
            final(self).views() == old(self).views().filter(outside_folder(name@)),
    {
        let ghost before = self.views();
        let ghost p = outside_folder(name@);
        let mut kept: Vec<Task> = Vec::new();
        let mut i: usize = 0;
        proof {
            assert(before.len() == self.tasks@.len());
        }
        while i < self.tasks.len()
            invariant
                0 <= i <= self.tasks@.len(),
                task_views(self.tasks@) == before,
                before.len() == self.tasks@.len(),
                p == outside_folder(name@),
                task_views(kept@) == before.subrange(0, i as int).filter(p),
            decreases self.tasks@.len() - i,
        {
            let ghost prefix = before.subrange(0, i as int);
            proof {
                assert(before[i as int] == self.tasks@[i as int]@);
            }
            let keep_it = match &self.tasks[i].folder {
                Some(f) => !(*f == *name),
                None => true,
            };
            proof {
                assert(p(before[i as int]) == keep_it);
            }
            if keep_it {
                let t = self.tasks[i].duplicate();
                proof {
                    lemma_task_views_push(kept@, t);
                }
                kept.push(t);
            }
            proof {
                reveal(Seq::filter);
                let prefix1 = before.subrange(0, i as int + 1);
                assert(prefix1.drop_last() =~= prefix);
                assert(prefix1.last() == before[i as int]);
                if keep_it {
                    assert(prefix1.filter(p) == prefix.filter(p).push(prefix1.last()));
                } else {
                    assert(prefix1.filter(p) == prefix.filter(p));
                }
            }
            i = i + 1;
        }
        proof {
            assert(before.subrange(0, before.len() as int) =~= before);
            lemma_filter_distinct_keys(before, p, id_key());
            lemma_filter_subset(before, p);
            let after = task_views(kept@);
            assert forall|k: int| 0 <= k < after.len() implies (#[trigger] after[k]).wf() by {
                assert(after.contains(after[k]));
                assert(before.contains(after[k]));
                let j = choose|j: int| 0 <= j < before.len() && before[j] == after[k];
                assert(before[j].wf());
            }
        }
        self.tasks = kept;
    }

    /// Removes every task.
    pub fn clear(&mut self)
        ensures
            final(self).wf(),
            final(self).views() == Seq::<TaskView>::empty(),
    {
        self.tasks = Vec::new();
        proof {
            assert(self.views() =~= Seq::<TaskView>::empty());
            assert(self.ids() =~= Seq::<Seq<char>>::empty());
        }
    }

    /// Replaces one task in place, knowing its id is unchanged.
    fn replace_at(&mut self, i: usize, t: Task)
        requires
            old(self).wf(),
            i < old(self).views().len(),
            t@.wf(),
            t@.id == old(self).views()[i as int].id,
        ensures
            final(self).wf(),
            final(self).views() == old(self).views().update(i as int, t@),
    {
        let ghost before = self.views();
        proof {
            assert(before.len() == self.tasks@.len());
        }
        let _ = self.tasks.remove(i);
        self.tasks.insert(i, t);
        proof {
            let after = self.views();
            assert forall|k: int|
                0 <= k < after.len() implies after[k] == before.update(i as int, t@)[k] by {
                assert(after[k] == self.tasks@[k]@);
                if k < i as int {
                    assert(self.tasks@[k] == old(self).tasks@[k]);
                } else if k > i as int {
                    assert(self.tasks@[k] == old(self).tasks@[k]);
                }
            }
            assert(after =~= before.update(i as int, t@));
            // ids are unchanged pointwise
            assert forall|k: int| 0 <= k < after.len() implies ids_of(after)[k] == ids_of(
                before,
            )[k] by {
                assert(ids_of(after)[k] == after[k].id);
                assert(ids_of(before)[k] == before[k].id);
            }
            assert(ids_of(after) =~= ids_of(before));
            assert forall|k: int| 0 <= k < after.len() implies (#[trigger] after[k]).wf() by {
                if k != i as int {
                    assert(after[k] == before[k]);
                }
            }
        }
    }

    /// Applies one timer command to the task with the given id at instant
    /// `now`; reports whether the id was present.
    pub fn apply_action(&mut self, id: &String, action: TaskAction, now: i64) -> (applied: bool)
        requires
            old(self).wf(),
        ensures
            final(self).wf(),
            applied == old(self).contains_id(id@),
            !applied ==> *final(self) == *old(self),
            applied ==> ({
                let i = old(self).ids().index_of(id@);
                final(self).views() == old(self).views().update(
                    i,
                    apply_action_view(old(self).views()[i], action, now as int),
                )
            }),
    {
        match self.find_index(id) {
            None => false,
            Some(i) => {
                proof {
                    assert(self.views()[i as int] == self.tasks@[i as int]@);
                }
                let mut t = self.tasks[i].duplicate();
                match action {
                    TaskAction::Start => t.start_at(now),
                    TaskAction::Pause => t.pause_at(now),
                    TaskAction::Resume => t.resume_at(now),
                    TaskAction::ToggleComplete => t.toggle_complete_at(now),
                }
                self.replace_at(i, t);
                true
            },
        }
    }

    /// Moves the task with the given id to the given folder (or out of
    /// every folder); reports whether the id was present.
    /// The folder name the task is shown under: its own folder, or
    /// `Uncategorized` when it has none.
    pub fn effective_folder_string(t: &Task) -> (r: String)
        ensures
            r@ == effective_folder(t@),
    {
        match &t.folder {
            Some(f) => f.clone(),
            None => String::from_str("Uncategorized"),
        }
    }

    /// The names tasks are shown under, in first-occurrence order and
    /// without duplicates.
    pub(crate) fn group_keys(&self) -> (keys: Vec<String>)
        requires
            self.wf(),
        ensures
            views(keys@).no_duplicates(),
            forall|j: int|
                0 <= j < self.views().len() ==> views(keys@).contains(
                    effective_folder(#[trigger] self.views()[j]),
                ),
            forall|k: int|
                0 <= k < views(keys@).len() ==> #[trigger] key_used_within(
                    views(keys@),
                    self.views(),
                    k,
                    self.views().len() as int,
                ),
    {
        let mut keys: Vec<String> = Vec::new();
        let mut i: usize = 0;
        proof {
            assert(self.views().len() == self.tasks@.len());
        }
        while i < self.tasks.len()
            invariant
                self.wf(),
                0 <= i <= self.tasks@.len(),
                self.views().len() == self.tasks@.len(),
                views(keys@).no_duplicates(),
                forall|j: int|
                    0 <= j < i ==> views(keys@).contains(
                        effective_folder(#[trigger] self.views()[j]),
                    ),
                forall|k: int|
                    0 <= k < views(keys@).len() ==> #[trigger] key_used_within(
                        views(keys@),
                        self.views(),
                        k,
                        i as int,
                    ),
            decreases self.tasks@.len() - i,
        {
            proof {
                assert(self.views()[i as int] == self.tasks@[i as int]@);
            }
            let key = Self::effective_folder_string(&self.tasks[i]);
            if !crate::strutil::contains_string(&keys, &key) {
                let ghost prev = views(keys@);
                proof {
                    lemma_views_push(keys@, key);
                }
                keys.push(key);
                proof {
                    let after = views(keys@);
                    assert(after == prev.push(effective_folder(self.views()[i as int])));
                    assert forall|a: int, b: int|
                        0 <= a < b < after.len() implies after[a] != after[b] by {
                        if b < after.len() - 1 {
                            assert(prev[a] != prev[b]);
                        } else {
                            assert(after[a] == prev[a]);
                            assert(prev.contains(prev[a]));
                        }
                    }
                    assert forall|k: int| 0 <= k < after.len() implies #[trigger] key_used_within(
                        after,
                        self.views(),
                        k,
                        i as int + 1,
                    ) by {
                        if k < after.len() - 1 {
                            assert(after[k] == prev[k]);
                            assert(key_used_within(prev, self.views(), k, i as int));
                            let j = choose|j: int|
                                0 <= j < i && prev[k] == effective_folder(self.views()[j]);
                            assert(0 <= j < i + 1 && after[k] == effective_folder(
                                self.views()[j],
                            ));
                        } else {
                            let ghost j = i as int;
                            assert(0 <= j < i + 1 && after[k] == effective_folder(
                                self.views()[j],
                            ));
                        }
                    }
                    assert forall|j: int| 0 <= j < i + 1 implies after.contains(
                        effective_folder(#[trigger] self.views()[j]),
                    ) by {
                        if j < i {
                            let k = choose|k: int|
                                0 <= k < prev.len() && prev[k] == effective_folder(
                                    self.views()[j],
                                );
                            assert(after[k] == prev[k]);
                        } else {
                            assert(after[after.len() - 1] == effective_folder(
                                self.views()[i as int],
                            ));
                        }
                    }
                }
            } else {
                proof {
                    assert(views(keys@).contains(effective_folder(self.views()[i as int])));
                    assert forall|k: int|
                        0 <= k < views(keys@).len() implies #[trigger] key_used_within(
                        views(keys@),
                        self.views(),
                        k,
                        i as int + 1,
                    ) by {
                        assert(key_used_within(views(keys@), self.views(), k, i as int));
                        let j = choose|j: int|
                            0 <= j < i && views(keys@)[k] == effective_folder(self.views()[j]);
                        assert(0 <= j < i + 1 && views(keys@)[k] == effective_folder(
                            self.views()[j],
                        ));
                    }
                }
            }
            i = i + 1;
        }
        proof {
            assert forall|k: int| 0 <= k < views(keys@).len() implies #[trigger] key_used_within(
                views(keys@),
                self.views(),
                k,
                self.views().len() as int,
            ) by {
                assert(key_used_within(views(keys@), self.views(), k, i as int));
            }
        }
        keys
    }

    /// The ids of the tasks shown under group `key`, in store order.
    pub(crate) fn ids_in_group(&self, key: &String) -> (r: Vec<String>)
        requires
            self.wf(),
        ensures
            views(r@) == ids_of(self.views().filter(in_group(key@))),
    {
        let ghost all = self.views();
        let ghost p = in_group(key@);
        let mut r: Vec<String> = Vec::new();
        let mut i: usize = 0;
        proof {
            assert(all.len() == self.tasks@.len());
            assert(ids_of(all.subrange(0, 0).filter(p)) =~= views(r@));
        }
        while i < self.tasks.len()
            invariant
                self.wf(),
                0 <= i <= self.tasks@.len(),
                all == self.views(),
                all.len() == self.tasks@.len(),
                p == in_group(key@),
                views(r@) == ids_of(all.subrange(0, i as int).filter(p)),
            decreases self.tasks@.len() - i,
        {
            let ghost prefix = all.subrange(0, i as int);
            proof {
                assert(all[i as int] == self.tasks@[i as int]@);
            }
            let e = Self::effective_folder_string(&self.tasks[i]);
            let matches_group = e == *key;
            proof {
                assert(p(all[i as int]) == matches_group);
            }
            if matches_group {
                let tid = self.tasks[i].id.clone();
                proof {
                    lemma_views_push(r@, tid);
                    lemma_ids_push(prefix.filter(p), all[i as int]);
                    assert(tid@ == all[i as int].id);
                }
                r.push(tid);
            }
            proof {
                reveal(Seq::filter);
                let prefix1 = all.subrange(0, i as int + 1);
                assert(prefix1.drop_last() =~= prefix);
                assert(prefix1.last() == all[i as int]);
                if matches_group {
                    assert(prefix1.filter(p) == prefix.filter(p).push(prefix1.last()));
                } else {
                    assert(prefix1.filter(p) == prefix.filter(p));
                }
            }
            i = i + 1;
        }
        proof {
            assert(all.subrange(0, all.len() as int) =~= all);
        }
        r
    }

    /// The tasks grouped by the folder name they are shown under: each
    /// group name is distinct, every task appears under its name, and each
    /// group holds exactly the ids of its tasks, in store order.
    pub fn get_tasks_by_folder(&self) -> (groups: Vec<(String, Vec<String>)>)
        requires
            self.wf(),
        ensures
            group_views(groups@).map_values(|e: (Seq<char>, Seq<Seq<char>>)| e.0).no_duplicates(),
            forall|k: int|
                0 <= k < groups@.len() ==> (#[trigger] group_views(groups@)[k]).1 == ids_of(
                    self.views().filter(in_group(group_views(groups@)[k].0)),
                ),
            forall|j: int|
                0 <= j < self.views().len() ==> #[trigger] task_covered(
                    group_views(groups@),
                    self.views(),
                    j,
                ),
            forall|k: int|
                0 <= k < groups@.len() ==> #[trigger] group_key_used(
                    group_views(groups@),
                    self.views(),
                    k,
                ),
    {
        let keys = self.group_keys();
        let mut groups: Vec<(String, Vec<String>)> = Vec::new();
        let mut g: usize = 0;
        proof {
            assert(views(keys@).len() == keys@.len());
        }
        while g < keys.len()
            invariant
                self.wf(),
                0 <= g <= keys@.len(),
                views(keys@).len() == keys@.len(),
                views(keys@).no_duplicates(),
                forall|j: int|
                    0 <= j < self.views().len() ==> views(keys@).contains(
                        effective_folder(#[trigger] self.views()[j]),
                    ),
                groups@.len() == g,
                forall|k: int|
                    0 <= k < g ==> (#[trigger] group_views(groups@)[k]).0 == views(keys@)[k],
                forall|k: int|
                    0 <= k < g ==> (#[trigger] group_views(groups@)[k]).1 == ids_of(
                        self.views().filter(in_group(views(keys@)[k])),
                    ),
            decreases keys@.len() - g,
        {
            let key = keys[g].clone();
            let ids = self.ids_in_group(&key);
            let ghost prevg = groups@;
            groups.push((key, ids));
            proof {
                assert(group_views(groups@).len() == g + 1);
                assert forall|k: int| 0 <= k < g + 1 implies (#[trigger] group_views(groups@)[k]).0
                    == views(keys@)[k] && group_views(groups@)[k].1 == ids_of(
                    self.views().filter(in_group(views(keys@)[k])),
                ) by {
                    if k < g {
                        assert(groups@[k] == prevg[k]);
                        assert(group_views(groups@)[k] == group_views(prevg)[k]);
                    } else {
                        assert(group_views(groups@)[k].0 == keys@[k]@);
                        assert(views(keys@)[k] == keys@[k]@);
                    }
                }
            }
            g = g + 1;
        }
        proof {
            assert forall|k: int|
                0 <= k < groups@.len() implies (#[trigger] group_views(groups@)[k]).1 == ids_of(
                self.views().filter(in_group(group_views(groups@)[k].0)),
            ) by {
                assert(group_views(groups@)[k].0 == views(keys@)[k]);
            }
            let names = group_views(groups@).map_values(|e: (Seq<char>, Seq<Seq<char>>)| e.0);
            assert(names.len() == groups@.len());
            assert forall|a: int, b: int| 0 <= a < b < names.len() implies names[a] != names[b] by {
                assert(names[a] == group_views(groups@)[a].0);
                assert(names[b] == group_views(groups@)[b].0);
                assert(views(keys@)[a] != views(keys@)[b]);
            }
            assert forall|j: int| 0 <= j < self.views().len() implies #[trigger] task_covered(
                group_views(groups@),
                self.views(),
                j,
            ) by {
                let e = effective_folder(self.views()[j]);
                assert(views(keys@).contains(e));
                let k = choose|k: int| 0 <= k < views(keys@).len() && views(keys@)[k] == e;
                assert(group_views(groups@)[k].0 == e);
                assert(0 <= k < group_views(groups@).len() && group_views(groups@)[k].0
                    == effective_folder(self.views()[j]));
            }
            assert forall|k: int| 0 <= k < groups@.len() implies #[trigger] group_key_used(
                group_views(groups@),
                self.views(),
                k,
            ) by {
                assert(group_views(groups@)[k].0 == views(keys@)[k]);
                assert(key_used_within(views(keys@), self.views(), k, self.views().len() as int));
                let j = choose|j: int|
                    0 <= j < self.views().len() && views(keys@)[k] == effective_folder(
                        self.views()[j],
                    );
                assert(0 <= j < self.views().len() && group_views(groups@)[k].0
                    == effective_folder(self.views()[j]));
            }
        }
        groups
    }

    pub fn move_to_folder(&mut self, id: &String, folder: Option<String>) -> (moved: bool)
        requires
            old(self).wf(),
        ensures
            final(self).wf(),
            moved == old(self).contains_id(id@),
            !moved ==> *final(self) == *old(self),
            moved ==> ({
                let i = old(self).ids().index_of(id@);
                final(self).views() == old(self).views().update(
                    i,
                    TaskView { folder: opt_view(folder), ..old(self).views()[i] },
                )
            }),
    {
        match self.find_index(id) {
            None => false,
            Some(i) => {
                proof {
                    assert(self.views()[i as int] == self.tasks@[i as int]@);
                }
                let mut t = self.tasks[i].duplicate();
                t.folder = folder;
                self.replace_at(i, t);
                true
            },
        }
    }
}

} // verus!
