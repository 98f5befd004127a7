use work_timer::persist::{decode_strings, decode_tasks, encode_folders, encode_tasks};
use work_timer::store::{TaskAction, TaskStore};
use work_timer::tracker::{CommandError, WorkTimer};

#[test]
fn created_task_gets_a_fresh_uuid() {
    let mut w = WorkTimer::new();
    let a = w.create_task("one".to_string()).unwrap();
    let b = w.create_task("two".to_string()).unwrap();
    assert_eq!(a.chars().count(), 36);
    assert_eq!(b.chars().count(), 36);
    assert_ne!(a, b);
    assert_eq!(w.store.len(), 2);
}

#[test]
fn create_task_refuses_empty_description() {
    let mut w = WorkTimer::new();
    assert_eq!(
        w.create_task(String::new()),
        Err(CommandError::EmptyInput)
    );
    assert_eq!(w.store.len(), 0);
}

#[test]
fn add_task_with_id_refuses_a_taken_id() {
    let mut store = TaskStore::new();
    assert!(store.add_task_with_id("x".to_string(), "a".to_string(), None));
    assert!(!store.add_task_with_id("x".to_string(), "b".to_string(), None));
    assert_eq!(store.len(), 1);
}

#[test]
fn delete_removes_exactly_one_task() {
    let mut store = TaskStore::new();
    store.add_task_with_id("x".to_string(), "a".to_string(), None);
    store.add_task_with_id("y".to_string(), "b".to_string(), None);
    assert!(store.delete(&"x".to_string()));
    assert!(store.get(&"x".to_string()).is_none());
    assert!(store.get(&"y".to_string()).is_some());
    assert!(!store.delete(&"x".to_string()));
}

#[test]
fn delete_task_returns_its_description() {
    let mut w = WorkTimer::new();
    let id = w.create_task("Write report".to_string()).unwrap();
    assert_eq!(w.delete_task(&id), Ok("Write report".to_string()));
    assert_eq!(
        w.delete_task(&id),
        Err(CommandError::UnknownTask)
    );
}

#[test]
fn move_task_between_folders() {
    let mut w = WorkTimer::new();
    let id = w.create_task("a".to_string()).unwrap();
    assert!(w.store.get(&id).unwrap().folder.is_none());
    w.move_task_to_folder(&id, Some("Work".to_string())).unwrap();
    assert_eq!(w.store.get(&id).unwrap().folder.as_deref(), Some("Work"));
    w.move_task_to_folder(&id, None).unwrap();
    assert!(w.store.get(&id).unwrap().folder.is_none());
}

#[test]
fn apply_action_drives_the_timer() {
    let mut store = TaskStore::new();
    store.add_task_with_id("x".to_string(), "a".to_string(), None);
    let id = "x".to_string();
    assert!(store.apply_action(&id, TaskAction::Start, 100));
    assert!(store.get(&id).unwrap().start_time.is_some());
    assert!(store.apply_action(&id, TaskAction::Pause, 108));
    let t = store.get(&id).unwrap();
    assert_eq!(t.total_duration, 8);
    assert!(t.is_paused);
    assert!(store.apply_action(&id, TaskAction::Resume, 110));
    assert_eq!(store.get(&id).unwrap().start_time, Some(110));
    assert!(store.apply_action(&id, TaskAction::ToggleComplete, 111));
    let t = store.get(&id).unwrap();
    assert_eq!(t.total_duration, 9);
    assert!(!t.is_paused && t.start_time.is_none());
    assert!(!store.apply_action(&"z".to_string(), TaskAction::Start, 0));
}

#[test]
fn scenario_delete_folder_cascades() {
    let mut w = WorkTimer::new();
    w.create_folder("Work".to_string()).unwrap();
    let a = w.create_task("one".to_string()).unwrap();
    let b = w.create_task("two".to_string()).unwrap();
    let c = w.create_task("three".to_string()).unwrap();
    w.create_folder("Other".to_string()).unwrap();
    let d = w.create_task("keep me".to_string()).unwrap();
    w.move_task_to_folder(&d, Some("Other".to_string())).unwrap();
    assert_eq!(w.store.len(), 4);

    w.delete_folder(&"Work".to_string()).unwrap();
    // no task references Work any more, the others are untouched
    assert!(w.store.get(&a).is_none());
    assert!(w.store.get(&b).is_none());
    assert!(w.store.get(&c).is_none());
    assert_eq!(w.store.get(&d).unwrap().folder.as_deref(), Some("Other"));
    assert_eq!(w.registry.get_folders(), vec!["Other"]);
    // the persisted snapshots reflect both changes
    let tasks_snapshot = encode_tasks(&w.store);
    let folders_snapshot = encode_folders(&w.registry);
    let restored = decode_tasks(tasks_snapshot.as_str()).unwrap();
    assert_eq!(restored.len(), 1);
    assert!(restored.get(&d).is_some());
    let folders = decode_strings(folders_snapshot.as_str()).unwrap();
    assert_eq!(folders, vec!["Other"]);
}

#[test]
fn delete_folder_falls_back_to_first_selection() {
    let mut w = WorkTimer::new();
    w.create_folder("B".to_string()).unwrap();
    assert_eq!(w.selected_folder.as_deref(), Some("B"));
    w.create_folder("A".to_string()).unwrap();
    w.delete_folder(&"B".to_string()).unwrap();
    assert_eq!(w.selected_folder.as_deref(), Some("A"));
    w.delete_folder(&"A".to_string()).unwrap();
    assert!(w.selected_folder.is_none());
    assert_eq!(
        w.delete_folder(&"A".to_string()),
        Err(CommandError::UnknownFolder)
    );
}

#[test]
fn clear_folder_keeps_the_folder() {
    let mut w = WorkTimer::new();
    w.create_folder("Work".to_string()).unwrap();
    let a = w.create_task("one".to_string()).unwrap();
    w.clear_folder(&"Work".to_string()).unwrap();
    assert!(w.store.get(&a).is_none());
    assert_eq!(w.registry.get_folders(), vec!["Work"]);
}

#[test]
fn clear_all_tasks_empties_the_store() {
    let mut w = WorkTimer::new();
    w.create_task("one".to_string()).unwrap();
    w.create_task("two".to_string()).unwrap();
    w.clear_all_tasks();
    assert_eq!(w.store.len(), 0);
}

#[test]
fn tasks_grouped_by_folder() {
    let mut w = WorkTimer::new();
    w.create_folder("Work".to_string()).unwrap();
    let a = w.create_task("one".to_string()).unwrap();
    let b = w.create_task("two".to_string()).unwrap();
    w.move_task_to_folder(&b, None).unwrap();
    let groups = w.store.get_tasks_by_folder();
    assert_eq!(groups.len(), 2);
    let work = groups.iter().find(|g| g.0 == "Work").unwrap();
    assert_eq!(work.1, vec![a.clone()]);
    let un = groups.iter().find(|g| g.0 == "Uncategorized").unwrap();
    assert_eq!(un.1, vec![b.clone()]);
}
