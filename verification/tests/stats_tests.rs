use work_timer::registry::FolderRegistry;
use work_timer::stats::{
    calculate_average_task_duration, calculate_folder_durations, count_running_tasks,
    get_projects, total_tracked_duration,
};
use work_timer::store::TaskStore;
use work_timer::task::Task;

fn finished(id: &str, folder: Option<&str>, seconds: i64) -> Task {
    let mut t = Task::new(
        id.to_string(),
        format!("task {}", id),
        folder.map(|f| f.to_string()),
    );
    t.start_at(0);
    t.pause_at(seconds);
    t
}

fn sample() -> (TaskStore, FolderRegistry) {
    let mut reg = FolderRegistry::new();
    reg.add("A".to_string());
    reg.add("B".to_string());
    let store = TaskStore {
        tasks: vec![
            finished("1", Some("A"), 10),
            finished("2", Some("A"), 20),
            finished("3", Some("B"), 5),
            finished("4", None, 7),
            // an orphaned reference: its folder no longer exists
            finished("5", Some("Ghost"), 1000),
        ],
    };
    (store, reg)
}

#[test]
fn totals_ignore_orphaned_tasks() {
    let (store, reg) = sample();
    assert_eq!(total_tracked_duration(&store, &reg, 0), 42);
}

#[test]
fn average_uses_integer_division() {
    let (store, reg) = sample();
    // four current tasks totalling 42 seconds
    assert_eq!(calculate_average_task_duration(&store, &reg, 0), 10);
    let empty = TaskStore::new();
    assert_eq!(calculate_average_task_duration(&empty, &reg, 0), 0);
}

#[test]
fn running_tasks_are_counted() {
    let (mut store, reg) = sample();
    assert_eq!(count_running_tasks(&store, &reg), 0);
    let mut running = Task::new("6".to_string(), "live".to_string(), None);
    running.start_at(50);
    store.tasks.push(running);
    assert_eq!(count_running_tasks(&store, &reg), 1);
}

#[test]
fn folder_durations_sorted_descending() {
    let (store, reg) = sample();
    let durations = calculate_folder_durations(&store, &reg, 0);
    assert_eq!(durations.len(), 3);
    assert_eq!(durations[0], ("A".to_string(), 30));
    assert_eq!(durations[1], ("Uncategorized".to_string(), 7));
    assert_eq!(durations[2], ("B".to_string(), 5));
}

#[test]
fn folder_durations_count_running_time() {
    let mut reg = FolderRegistry::new();
    reg.add("A".to_string());
    let mut t = Task::new("1".to_string(), "live".to_string(), Some("A".to_string()));
    t.start_at(100);
    let store = TaskStore { tasks: vec![t] };
    let durations = calculate_folder_durations(&store, &reg, 160);
    assert_eq!(durations, vec![("A".to_string(), 60)]);
}

#[test]
fn projects_are_sorted_and_distinct() {
    let (store, _) = sample();
    // folder names used by tasks, orphaned ones included, each once
    assert_eq!(get_projects(&store), vec!["A", "B", "Ghost"]);
}

#[test]
fn projects_default_when_no_task_has_a_folder() {
    let store = TaskStore {
        tasks: vec![finished("1", None, 3)],
    };
    assert_eq!(get_projects(&store), vec!["Default"]);
    let empty = TaskStore::new();
    assert_eq!(get_projects(&empty), vec!["Default"]);
}
