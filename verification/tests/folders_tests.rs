use work_timer::registry::FolderRegistry;
use work_timer::tracker::{CommandError, WorkTimer};

fn names(reg: &FolderRegistry) -> Vec<String> {
    reg.get_folders()
}

#[test]
fn add_sorts_alphabetically() {
    let mut reg = FolderRegistry::new();
    assert!(reg.add("Work".to_string()));
    assert!(reg.add("Alpha".to_string()));
    assert!(reg.add("Mango".to_string()));
    assert_eq!(names(&reg), vec!["Alpha", "Mango", "Work"]);
}

#[test]
fn add_refuses_empty_and_duplicate() {
    let mut reg = FolderRegistry::new();
    assert!(!reg.add(String::new()));
    assert!(reg.add("Work".to_string()));
    assert!(!reg.add("Work".to_string()));
    assert_eq!(names(&reg), vec!["Work"]);
}

#[test]
fn folder_list_is_duplicate_free() {
    let mut reg = FolderRegistry::new();
    reg.add("B".to_string());
    reg.add("A".to_string());
    reg.add("A".to_string());
    reg.add("B".to_string());
    let ns = names(&reg);
    for i in 0..ns.len() {
        for j in 0..i {
            assert_ne!(ns[i], ns[j]);
        }
    }
    assert_eq!(ns.len(), 2);
}

#[test]
fn remove_keeps_the_others_in_order() {
    let mut reg = FolderRegistry::new();
    reg.add("A".to_string());
    reg.add("B".to_string());
    reg.add("C".to_string());
    assert!(reg.remove(&"B".to_string()));
    assert_eq!(names(&reg), vec!["A", "C"]);
    assert!(!reg.remove(&"B".to_string()));
}

#[test]
fn reorder_moves_to_position() {
    let mut reg = FolderRegistry::new();
    reg.add("A".to_string());
    reg.add("B".to_string());
    reg.add("C".to_string());
    assert!(reg.reorder(&"C".to_string(), 0));
    assert_eq!(names(&reg), vec!["C", "A", "B"]);
    // an index past the end is clamped to the end
    assert!(reg.reorder(&"C".to_string(), 99));
    assert_eq!(names(&reg), vec!["A", "B", "C"]);
    assert!(!reg.reorder(&"Z".to_string(), 0));
}

#[test]
fn scenario_manual_order_lost_on_next_add() {
    let mut w = WorkTimer::new();
    w.create_folder("A".to_string()).unwrap();
    w.create_folder("B".to_string()).unwrap();
    // reorder manually to [B, A]
    w.reorder_folder(&"B".to_string(), 0).unwrap();
    assert_eq!(names(&w.registry), vec!["B", "A"]);
    // the next add re-sorts the whole list alphabetically
    w.create_folder("C".to_string()).unwrap();
    assert_eq!(names(&w.registry), vec!["A", "B", "C"]);
}

#[test]
fn create_folder_reports_reasons() {
    let mut w = WorkTimer::new();
    assert_eq!(w.create_folder(String::new()), Err(CommandError::EmptyInput));
    assert_eq!(w.create_folder("Work".to_string()), Ok(()));
    assert_eq!(
        w.create_folder("Work".to_string()),
        Err(CommandError::DuplicateFolder)
    );
}

#[test]
fn first_folder_becomes_selection() {
    let mut w = WorkTimer::new();
    assert!(w.selected_folder.is_none());
    w.create_folder("Work".to_string()).unwrap();
    assert_eq!(w.selected_folder.as_deref(), Some("Work"));
    w.create_folder("Alpha".to_string()).unwrap();
    // an existing selection is kept
    assert_eq!(w.selected_folder.as_deref(), Some("Work"));
}

#[test]
fn from_loaded_validates_the_snapshots() {
    let good = FolderRegistry::from_loaded(
        vec!["A".to_string(), "B".to_string()],
        vec!["A".to_string(), "B".to_string()],
    );
    assert!(good.is_some());
    assert_eq!(names(&good.unwrap()), vec!["A", "B"]);
    // duplicates are refused
    assert!(FolderRegistry::from_loaded(
        vec!["A".to_string(), "A".to_string()],
        vec!["A".to_string(), "A".to_string()],
    )
    .is_none());
    // an empty name is refused
    assert!(FolderRegistry::from_loaded(vec![String::new()], vec![String::new()]).is_none());
    // style records that do not mirror the folders are refused
    assert!(FolderRegistry::from_loaded(
        vec!["A".to_string()],
        vec!["B".to_string()],
    )
    .is_none());
}

#[test]
fn clear_all_folders_keeps_tasks() {
    let mut w = WorkTimer::new();
    w.create_folder("Work".to_string()).unwrap();
    let id = w.create_task("a".to_string()).unwrap();
    w.clear_all_folders();
    assert_eq!(w.registry.len(), 0);
    assert!(w.selected_folder.is_none());
    assert!(w.store.get(&id).is_some());
}
