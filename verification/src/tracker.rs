//! The application state a user session works on: the task store, the
//! folder registry, and the currently selected folder. Each command either
//! succeeds or reports why it was refused, before any change is made.

use crate::registry::{without_name, FolderRegistry};
use crate::store::{outside_folder, AddTaskError, TaskAction, TaskStore};
use crate::task::opt_view;
use vstd::prelude::*;

verus! {

/// Why a command was refused. No state changes when a command fails.
#[derive(Clone, Copy, PartialEq, Eq, Structural, Debug)]
pub enum CommandError {
    /// An empty description or folder name was given.
    EmptyInput,
    /// The folder name already exists.
    DuplicateFolder,
    /// No task carries the given id.
    UnknownTask,
    /// No folder carries the given name.
    UnknownFolder,
    /// The freshly drawn task id was already taken.
    IdCollision,
}

/// The whole domain state.
pub struct WorkTimer {
    pub store: TaskStore,
    pub registry: FolderRegistry,
    pub selected_folder: Option<String>,
}

impl WorkTimer {
    /// Well-formedness: both collections are well-formed and a selected
    /// folder always exists in the registry.
    pub open spec fn wf(&self) -> bool {
        &&& self.store.wf()
        &&& self.registry.wf()
        &&& (self.selected_folder matches Some(f) ==> self.registry.folder_names().contains(f@))
    }

    /// A fresh, empty state.
    pub fn new() -> (r: WorkTimer)
        ensures
            r.wf(),
            r.store.views() == Seq::<crate::task::TaskView>::empty(),
            r.registry.folder_names() == Seq::<Seq<char>>::empty(),
            r.selected_folder is None,
    {
        WorkTimer { store: TaskStore::new(), registry: FolderRegistry::new(), selected_folder: None }
    }

    /// Builds a state from loaded collections, discarding a selection that
    /// does not exist; the first folder is selected when there is one, as
    /// at startup.
    pub fn from_parts(store: TaskStore, registry: FolderRegistry) -> (r: WorkTimer)
        requires
            store.wf(),
            registry.wf(),
        ensures
            r.wf(),
            r.store == store,
            r.registry == registry,
            registry.folder_names().len() > 0 ==> opt_view(r.selected_folder) == Some(
                registry.folder_names()[0],
            ),
            registry.folder_names().len() == 0 ==> r.selected_folder is None,
    {
        let selected_folder = if registry.folders.len() > 0 {
            Some(registry.folders[0].clone())
        } else {
            None
        };
        proof {
            if registry.folder_names().len() > 0 {
                assert(registry.folder_names()[0] == registry.folders@[0]@);
            }
        }
        WorkTimer { store, registry, selected_folder }
    }

    /// Creates a task with the given description in the currently selected
    /// folder and returns its fresh id. An empty description is refused; so
    /// is the freak collision of a fresh id with an existing one.
    pub fn create_task(&mut self, description: String) -> (r: Result<String, CommandError>)
        requires
            old(self).wf(),
        ensures
            final(self).wf(),
            final(self).registry == old(self).registry,
            final(self).selected_folder == old(self).selected_folder,
            r == Err::<String, CommandError>(CommandError::EmptyInput) <==> description@.len()
                == 0,
            // a collision needs someone to collide with: success is owed
            // whenever the store is empty
            r == Err::<String, CommandError>(CommandError::IdCollision) ==> old(
                self,
            ).store.views().len() > 0,
            r matches Err(e) ==> (*final(self) == *old(self) && (e == CommandError::EmptyInput
                || e == CommandError::IdCollision)),
            r matches Ok(id) ==> {
                &&& !old(self).store.contains_id(id@)
                &&& final(self).store.views() == old(self).store.views().push(
                    crate::task::TaskView {
                        id: id@,
                        description: description@,
                        folder: opt_view(old(self).selected_folder),
                        total_duration: 0,
                        start_time: None,
                        is_paused: false,
                    },
                )
            },
    {
        let folder = match &self.selected_folder {
            Some(f) => Some(f.clone()),
            None => None,
        };
        match self.store.add_task(description, folder) {
            Ok(id) => Ok(id),
            Err(AddTaskError::EmptyDescription) => Err(CommandError::EmptyInput),
            Err(AddTaskError::IdCollision) => Err(CommandError::IdCollision),
        }
    }

    /// Creates a folder. An empty name is refused, and so is a duplicate;
    /// on success the list is re-sorted alphabetically, and the new folder
    /// becomes the selection if none was set.
    pub fn create_folder(&mut self, name: String) -> (r: Result<(), CommandError>)
        requires
            old(self).wf(),
        ensures
            final(self).wf(),
            final(self).store == old(self).store,
            r is Ok <==> (name@.len() > 0 && !old(self).registry.folder_names().contains(name@)),
            r == Err::<(), CommandError>(CommandError::EmptyInput) <==> name@.len() == 0,
            r == Err::<(), CommandError>(CommandError::DuplicateFolder) <==> (name@.len() > 0
                && old(self).registry.folder_names().contains(name@)),
            r matches Err(e) ==> *final(self) == *old(self),
            r is Ok ==> {
                &&& final(self).registry.folder_names().to_multiset() == old(
                    self,
                ).registry.folder_names().to_multiset().insert(name@)
                &&& crate::strutil::strings_sorted(final(self).registry.folder_names())
                &&& final(self).registry.folder_names().contains(name@)
                &&& (old(self).selected_folder is None ==> opt_view(final(self).selected_folder)
                    == Some(name@))
                &&& (old(self).selected_folder is Some ==> final(self).selected_folder == old(
                    self,
                ).selected_folder)
            },
    {
        if name.as_str().is_empty() {
            return Err(CommandError::EmptyInput);
        }
        let already = self.registry.contains(&name);
        if already {
            return Err(CommandError::DuplicateFolder);
        }
        let name_for_selection = name.clone();
        let added = self.registry.add(name);
        proof {
            assert(added);
            // an existing selection survives the re-sorted list
            if old(self).selected_folder is Some {
                broadcast use vstd::multiset::group_multiset_axioms;

                let f = opt_view(old(self).selected_folder)->0;
                let names_before = old(self).registry.folder_names();
                let names_after = self.registry.folder_names();
                names_before.to_multiset_ensures();
                names_after.to_multiset_ensures();
                assert(names_before.to_multiset().count(f) > 0);
                assert(names_after.to_multiset().count(f) > 0);
                assert(names_after.contains(f));
            }
        }
        if self.selected_folder.is_none() {
            self.selected_folder = Some(name_for_selection);
        }
        Ok(())
    }

    /// Applies one timer command to the task with the given id at instant
    /// `now`.
    pub fn apply_action_at(&mut self, id: &String, action: TaskAction, now: i64) -> (r: Result<
        (),
        CommandError,
    >)
        requires
            old(self).wf(),
        ensures
            final(self).wf(),
            final(self).registry == old(self).registry,
            final(self).selected_folder == old(self).selected_folder,
            r is Ok <==> old(self).store.contains_id(id@),
            r == Err::<(), CommandError>(CommandError::UnknownTask) <==> !old(
                self,
            ).store.contains_id(id@),
            r is Err ==> *final(self) == *old(self),
            r is Ok ==> ({
                let i = old(self).store.ids().index_of(id@);
                final(self).store.views() == old(self).store.views().update(
                    i,
                    crate::store::apply_action_view(
                        old(self).store.views()[i],
                        action,
                        now as int,
                    ),
                )
            }),
    {
        if self.store.apply_action(id, action, now) {
            Ok(())
        } else {
            Err(CommandError::UnknownTask)
        }
    }

    /// Starts the task's timer at instant `now`.
    pub fn start_task_at(&mut self, id: &String, now: i64) -> (r: Result<(), CommandError>)
        requires
            old(self).wf(),
        ensures
            final(self).wf(),
            r is Ok <==> old(self).store.contains_id(id@),
            r is Err ==> *final(self) == *old(self),
            r is Ok ==> ({
                let i = old(self).store.ids().index_of(id@);
                final(self).store.views() == old(self).store.views().update(
                    i,
                    old(self).store.views()[i].spec_start(now as int),
                )
            }),
    {
        self.apply_action_at(id, TaskAction::Start, now)
    }

    /// Pauses the task's timer at instant `now`.
    pub fn pause_task_at(&mut self, id: &String, now: i64) -> (r: Result<(), CommandError>)
        requires
            old(self).wf(),
        ensures
            final(self).wf(),
            r is Ok <==> old(self).store.contains_id(id@),
            r is Err ==> *final(self) == *old(self),
            r is Ok ==> ({
                let i = old(self).store.ids().index_of(id@);
                final(self).store.views() == old(self).store.views().update(
                    i,
                    old(self).store.views()[i].spec_pause(now as int),
                )
            }),
    {
        self.apply_action_at(id, TaskAction::Pause, now)
    }

    /// Resumes the task's timer at instant `now`.
    pub fn resume_task_at(&mut self, id: &String, now: i64) -> (r: Result<(), CommandError>)
        requires
            old(self).wf(),
        ensures
            final(self).wf(),
            r is Ok <==> old(self).store.contains_id(id@),
            r is Err ==> *final(self) == *old(self),
            r is Ok ==> ({
                let i = old(self).store.ids().index_of(id@);
                final(self).store.views() == old(self).store.views().update(
                    i,
                    old(self).store.views()[i].spec_resume(now as int),
                )
            }),
    {
        self.apply_action_at(id, TaskAction::Resume, now)
    }

    /// Toggles the task between completed and not completed at instant
    /// `now`.
    pub fn toggle_task_complete_at(&mut self, id: &String, now: i64) -> (r: Result<
        (),
        CommandError,
    >)
        requires
            old(self).wf(),
        ensures
            final(self).wf(),
            r is Ok <==> old(self).store.contains_id(id@),
            r is Err ==> *final(self) == *old(self),
            r is Ok ==> ({
                let i = old(self).store.ids().index_of(id@);
                final(self).store.views() == old(self).store.views().update(
                    i,
                    old(self).store.views()[i].spec_toggle_complete(now as int),
                )
            }),
    {
        self.apply_action_at(id, TaskAction::ToggleComplete, now)
    }

    /// Deletes the task with the given id and returns its description, so
    /// that the caller can also remove the task's export file.
    pub fn delete_task(&mut self, id: &String) -> (r: Result<String, CommandError>)
        requires
            old(self).wf(),
        ensures
            final(self).wf(),
            final(self).registry == old(self).registry,
            final(self).selected_folder == old(self).selected_folder,
            r is Ok <==> old(self).store.contains_id(id@),
            r is Err ==> *final(self) == *old(self),
            r matches Ok(d) ==> {
                &&& final(self).store.views() == old(self).store.views().filter(
                    crate::store::other_id(id@),
                )
                &&& d@ == old(self).store.views()[old(self).store.ids().index_of(id@)].description
            },
    {
        let description = match self.store.get(id) {
            Some(t) => t.description.clone(),
            None => {
                return Err(CommandError::UnknownTask);
            },
        };
        let removed = self.store.delete(id);
        proof {
            assert(removed);
        }
        Ok(description)
    }

    /// Deletes a folder and cascades: exactly the tasks whose folder is
    /// that name are removed and all others are untouched; the name leaves
    /// the ordered folder list; a selection of that folder falls back to
    /// the new first folder, or to none.
    pub fn delete_folder(&mut self, name: &String) -> (r: Result<(), CommandError>)
        requires
            old(self).wf(),
        ensures
            final(self).wf(),
            r is Ok <==> old(self).registry.folder_names().contains(name@),
            r == Err::<(), CommandError>(CommandError::UnknownFolder) <==> !old(
                self,
            ).registry.folder_names().contains(name@),
            r is Err ==> *final(self) == *old(self),
            r is Ok ==> {
                &&& final(self).store.views() == old(self).store.views().filter(
                    outside_folder(name@),
                )
                &&& final(self).registry.folder_names() == without_name(
                    old(self).registry.folder_names(),
                    name@,
                )
                &&& (opt_view(old(self).selected_folder) == Some(name@) && final(self).registry.folder_names().len() > 0 ==> opt_view(final(self).selected_folder)
                    == Some(final(self).registry.folder_names()[0]))
                &&& (opt_view(old(self).selected_folder) == Some(name@) && final(self).registry.folder_names().len() == 0 ==> final(self).selected_folder is None)
                &&& (opt_view(old(self).selected_folder) != Some(name@) ==> final(self).selected_folder == old(self).selected_folder)
            },
    {
        let present = self.registry.contains(name);
        if !present {
            return Err(CommandError::UnknownFolder);
        }
        let removed = self.registry.remove(name);
        proof {
            assert(removed);
        }
        self.store.remove_folder_tasks(name);
        let selection_was_deleted = match &self.selected_folder {
            Some(f) => *f == *name,
            None => false,
        };
        if selection_was_deleted {
            if self.registry.folders.len() > 0 {
                let first = self.registry.folders[0].clone();
                proof {
                    assert(self.registry.folder_names()[0] == self.registry.folders@[0]@);
                }
                self.selected_folder = Some(first);
            } else {
                self.selected_folder = None;
            }
        } else {
            proof {
                if self.selected_folder is Some {
                    let f = opt_view(self.selected_folder)->0;
                    assert(old(self).registry.folder_names().contains(f));
                    crate::strutil::lemma_filter_subset(
                        old(self).registry.folder_names(),
                        crate::registry::differs_from(name@),
                    );
                    // the selection differs from the deleted name, so it survives
                    let names = old(self).registry.folder_names();
                    let j = choose|j: int| 0 <= j < names.len() && names[j] == f;
                    names.lemma_filter_contains(crate::registry::differs_from(name@), j);
                }
            }
        }
        Ok(())
    }

    /// Empties a folder: removes exactly the tasks whose folder is that
    /// name, keeping the folder itself and all other tasks.
    pub fn clear_folder(&mut self, name: &String) -> (r: Result<(), CommandError>)
        requires
            old(self).wf(),
        ensures
            final(self).wf(),
            final(self).registry == old(self).registry,
            final(self).selected_folder == old(self).selected_folder,
            r is Ok <==> old(self).registry.folder_names().contains(name@),
            r is Err ==> *final(self) == *old(self),
            r is Ok ==> final(self).store.views() == old(self).store.views().filter(
                outside_folder(name@),
            ),
    {
        let present = self.registry.contains(name);
        if !present {
            return Err(CommandError::UnknownFolder);
        }
        self.store.remove_folder_tasks(name);
        Ok(())
    }

    /// Removes every task, keeping the folders.
    pub fn clear_all_tasks(&mut self)
        requires
            old(self).wf(),
        ensures
            final(self).wf(),
            final(self).registry == old(self).registry,
            final(self).selected_folder == old(self).selected_folder,
            final(self).store.views() == Seq::<crate::task::TaskView>::empty(),
    {
        self.store.clear();
    }

    /// Removes every folder and clears the selection, keeping the tasks
    /// (which then all show as uncategorized or orphaned).
    pub fn clear_all_folders(&mut self)
        requires
            old(self).wf(),
        ensures
            final(self).wf(),
            final(self).store == old(self).store,
            final(self).registry.folder_names() == Seq::<Seq<char>>::empty(),
            final(self).selected_folder is None,
    {
        self.registry.clear();
        self.selected_folder = None;
    }

    /// Moves the task with the given id to the given folder, or out of
    /// every folder. The folder name is deliberately not checked against
    /// the registry: a task may reference a folder that no longer exists,
    /// and the statistics queries filter such orphans out.
    pub fn move_task_to_folder(&mut self, id: &String, folder: Option<String>) -> (r: Result<
        (),
        CommandError,
    >)
        requires
            old(self).wf(),
        ensures
            final(self).wf(),
            final(self).registry == old(self).registry,
            final(self).selected_folder == old(self).selected_folder,
            r is Ok <==> old(self).store.contains_id(id@),
            r is Err ==> *final(self) == *old(self),
            r is Ok ==> ({
                let i = old(self).store.ids().index_of(id@);
                final(self).store.views() == old(self).store.views().update(
                    i,
                    crate::task::TaskView { folder: opt_view(folder), ..old(self).store.views()[i] },
                )
            }),
    {
        if self.store.move_to_folder(id, folder) {
            Ok(())
        } else {
            Err(CommandError::UnknownTask)
        }
    }

    /// Moves a folder to the given position in the list (clamped to its
    /// end). The order holds only until the next `create_folder`, which
    /// re-sorts the list alphabetically.
    pub fn reorder_folder(&mut self, name: &String, new_index: usize) -> (r: Result<
        (),
        CommandError,
    >)
        requires
            old(self).wf(),
        ensures
            final(self).wf(),
            final(self).store == old(self).store,
            final(self).selected_folder == old(self).selected_folder,
            r is Ok <==> old(self).registry.folder_names().contains(name@),
            r is Err ==> *final(self) == *old(self),
            r is Ok ==> ({
                let i = old(self).registry.folder_names().index_of(name@);
                let j = if new_index as int <= old(self).registry.folder_names().len() - 1 {
                    new_index as int
                } else {
                    old(self).registry.folder_names().len() - 1
                };
                final(self).registry.folder_names() == old(
                    self,
                ).registry.folder_names().remove(i).insert(j, name@)
            }),
    {
        let moved = self.registry.reorder(name, new_index);
        if moved {
            proof {
                if self.selected_folder is Some {
                    let f = opt_view(self.selected_folder)->0;
                    let before = old(self).registry.folder_names();
                    let after = self.registry.folder_names();
                    assert(before.contains(f));
                    before.to_multiset_ensures();
                    after.to_multiset_ensures();
                    assert(before.to_multiset().count(f) > 0);
                    assert(after.to_multiset().count(f) > 0);
                }
            }
            Ok(())
        } else {
            Err(CommandError::UnknownFolder)
        }
    }
}

} // verus!
