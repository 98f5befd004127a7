use work_timer::persist::{
    decode_strings, decode_tasks, encode_folders, encode_styles, encode_tasks,
};
use work_timer::registry::FolderRegistry;
use work_timer::store::TaskStore;
use work_timer::task::Task;
use work_timer::tracker::WorkTimer;

fn sample_store() -> TaskStore {
    let mut running = Task::new("id-run".to_string(), "running task".to_string(), None);
    running.start_at(1_700_000_000);
    let mut paused = Task::new(
        "id-paused".to_string(),
        "paused; with 10s".to_string(),
        Some("Work".to_string()),
    );
    paused.start_at(100);
    paused.pause_at(110);
    let mut done = Task::new(
        "id-done".to_string(),
        "café ≠ plain ascii 123".to_string(),
        Some("Zeit & Raum".to_string()),
    );
    done.start_at(0);
    done.toggle_complete_at(42);
    TaskStore {
        tasks: vec![running, paused, done],
    }
}

#[test]
fn tasks_round_trip_exactly() {
    let store = sample_store();
    let snapshot = encode_tasks(&store);
    let restored = decode_tasks(snapshot.as_str()).unwrap();
    assert_eq!(restored.len(), store.len());
    for t in &store.tasks {
        let r = restored.get(&t.id).unwrap();
        assert_eq!(r.id, t.id);
        assert_eq!(r.description, t.description);
        assert_eq!(r.folder, t.folder);
        assert_eq!(r.total_duration, t.total_duration);
        assert_eq!(r.start_time, t.start_time);
        assert_eq!(r.is_paused, t.is_paused);
    }
}

#[test]
fn empty_store_round_trips() {
    let store = TaskStore::new();
    let snapshot = encode_tasks(&store);
    let restored = decode_tasks(snapshot.as_str()).unwrap();
    assert_eq!(restored.len(), 0);
}

#[test]
fn folder_order_round_trips() {
    let mut reg = FolderRegistry::new();
    reg.add("Work".to_string());
    reg.add("Privat räkning".to_string());
    reg.add("a;b:c".to_string());
    let folders_snapshot = encode_folders(&reg);
    let styles_snapshot = encode_styles(&reg);
    let folders = decode_strings(folders_snapshot.as_str()).unwrap();
    let styles = decode_strings(styles_snapshot.as_str()).unwrap();
    assert_eq!(folders, reg.get_folders());
    let rebuilt = FolderRegistry::from_loaded(folders, styles).unwrap();
    assert_eq!(rebuilt.get_folders(), reg.get_folders());
}

#[test]
fn whole_state_round_trips_through_from_parts() {
    let mut w = WorkTimer::new();
    w.create_folder("Work".to_string()).unwrap();
    let id = w.create_task("report".to_string()).unwrap();
    w.start_task_at(&id, 100).unwrap();
    w.pause_task_at(&id, 107).unwrap();

    let tasks_snapshot = encode_tasks(&w.store);
    let folders_snapshot = encode_folders(&w.registry);
    let styles_snapshot = encode_styles(&w.registry);

    let store = decode_tasks(tasks_snapshot.as_str()).unwrap();
    let folders = decode_strings(folders_snapshot.as_str()).unwrap();
    let styles = decode_strings(styles_snapshot.as_str()).unwrap();
    let registry = FolderRegistry::from_loaded(folders, styles).unwrap();
    let restored = WorkTimer::from_parts(store, registry);

    assert_eq!(restored.store.len(), 1);
    let t = restored.store.get(&id).unwrap();
    assert_eq!(t.total_duration, 7);
    assert!(t.is_paused);
    assert_eq!(restored.registry.get_folders(), vec!["Work"]);
    // at startup the first folder is the selection
    assert_eq!(restored.selected_folder.as_deref(), Some("Work"));
}

#[test]
fn duplicate_ids_in_a_snapshot_are_refused() {
    // the encoder writes whatever it is given; the decoder refuses to
    // restore a collection whose ids collide
    let twin_a = Task::new("same-id".to_string(), "first".to_string(), None);
    let twin_b = Task::new("same-id".to_string(), "second".to_string(), None);
    let store = TaskStore {
        tasks: vec![twin_a, twin_b],
    };
    let snapshot = encode_tasks(&store);
    assert!(decode_tasks(snapshot.as_str()).is_none());
}

#[test]
fn invalid_tasks_in_a_snapshot_are_refused() {
    // an empty description cannot enter the store
    let mut bad = Task::new("x".to_string(), "placeholder".to_string(), None);
    bad.description = String::new();
    let snapshot = encode_tasks(&TaskStore { tasks: vec![bad] });
    assert!(decode_tasks(snapshot.as_str()).is_none());
    // a task that is both running and paused cannot either
    let mut torn = Task::new("y".to_string(), "torn".to_string(), None);
    torn.start_time = Some(100);
    torn.is_paused = true;
    let snapshot = encode_tasks(&TaskStore { tasks: vec![torn] });
    assert!(decode_tasks(snapshot.as_str()).is_none());
    // a negative accumulated duration cannot either
    let mut negative = Task::new("z".to_string(), "negative".to_string(), None);
    negative.total_duration = -5;
    let snapshot = encode_tasks(&TaskStore { tasks: vec![negative] });
    assert!(decode_tasks(snapshot.as_str()).is_none());
}

#[test]
fn malformed_snapshots_are_refused() {
    assert!(decode_tasks("").is_none());
    assert!(decode_tasks("garbage").is_none());
    assert!(decode_tasks(";").is_none());
    assert!(decode_strings("").is_none());
    assert!(decode_strings("1;").is_none());
    // trailing junk after a complete snapshot is refused
    let snapshot = encode_tasks(&sample_store());
    let mut with_junk = snapshot.clone();
    with_junk.push('x');
    assert!(decode_tasks(with_junk.as_str()).is_none());
    // a truncated snapshot is refused
    let cut: String = snapshot.chars().take(snapshot.chars().count() - 1).collect();
    assert!(decode_tasks(cut.as_str()).is_none());
}
