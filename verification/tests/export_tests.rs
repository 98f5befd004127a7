use work_timer::export::{
    export_folder_to_csv, export_rows_all, export_rows_folder, export_task_to_csv, export_to_csv,
    get_unique_filename, sanitize_filename,
};
use work_timer::store::TaskStore;
use work_timer::task::Task;

const HEADER: &str = "Task,Project,Duration (HH:MM:SS),Status\n";

fn task_in(id: &str, description: &str, folder: Option<&str>) -> Task {
    Task::new(
        id.to_string(),
        description.to_string(),
        folder.map(|f| f.to_string()),
    )
}

#[test]
fn sanitize_replaces_reserved_characters() {
    assert_eq!(sanitize_filename("a/b\\c?d%e*f:g|h"), "a_b_c_d_e_f_g_h");
    assert_eq!(sanitize_filename("my \"report\" <v2>.txt"), "my__report___v2__txt");
    assert_eq!(sanitize_filename("plain"), "plain");
    // non-ASCII passes through unchanged
    assert_eq!(sanitize_filename("café du matin"), "café_du_matin");
    assert_eq!(sanitize_filename(""), "");
}

#[test]
fn scenario_export_all_with_zero_tasks_is_header_only() {
    let store = TaskStore::new();
    let (filename, content) = export_to_csv(&store, 0);
    assert_eq!(filename, "work_timer_export.csv");
    assert_eq!(content, HEADER);
}

#[test]
fn export_all_has_one_row_per_task() {
    let mut store = TaskStore::new();
    store.add_task_with_id("1".to_string(), "alpha".to_string(), None);
    store.add_task_with_id("2".to_string(), "beta".to_string(), Some("Work".to_string()));
    let rows = export_rows_all(&store, 0);
    assert_eq!(rows.len(), 2);
    let (_, content) = export_to_csv(&store, 0);
    let expected = format!(
        "{}alpha,Uncategorized,00:00:00,Stopped\nbeta,Work,00:00:00,Stopped\n",
        HEADER
    );
    assert_eq!(content, expected);
}

#[test]
fn export_folder_takes_the_matching_subset() {
    let mut store = TaskStore::new();
    store.add_task_with_id("1".to_string(), "alpha".to_string(), Some("Work".to_string()));
    store.add_task_with_id("2".to_string(), "beta".to_string(), None);
    store.add_task_with_id("3".to_string(), "gamma".to_string(), Some("Work".to_string()));
    let rows = export_rows_folder(&store, &"Work".to_string(), 0);
    assert_eq!(rows.len(), 2);
    let (filename, content) = export_folder_to_csv(&store, &"My Work!".to_string(), 0);
    assert_eq!(filename, "folder_My_Work!.csv");
    assert_eq!(content, HEADER);
    let (filename, content) = export_folder_to_csv(&store, &"Work".to_string(), 0);
    assert_eq!(filename, "folder_Work.csv");
    let expected = format!(
        "{}alpha,Work,00:00:00,Stopped\ngamma,Work,00:00:00,Stopped\n",
        HEADER
    );
    assert_eq!(content, expected);
}

#[test]
fn scenario_two_exports_with_colliding_names() {
    let first = task_in("1", "notes", None);
    let second = task_in("2", "notes", None);
    let mut existing: Vec<String> = Vec::new();
    let (f1, c1) = export_task_to_csv(&first, &existing, 0);
    assert_eq!(f1, "notes.csv");
    assert_eq!(c1, format!("{}notes,Uncategorized,00:00:00,Stopped\n", HEADER));
    existing.push(f1);
    let (f2, c2) = export_task_to_csv(&second, &existing, 0);
    assert_eq!(f2, "notes_1.csv");
    assert_eq!(c2, format!("{}notes,Uncategorized,00:00:00,Stopped\n", HEADER));
}

#[test]
fn unique_filename_skips_every_taken_name() {
    let existing = vec![
        "a.csv".to_string(),
        "a_1.csv".to_string(),
        "a_2.csv".to_string(),
    ];
    assert_eq!(get_unique_filename("a", &existing), "a_3.csv");
    assert_eq!(get_unique_filename("b", &existing), "b.csv");
    // the description is sanitized before the lookup
    assert_eq!(get_unique_filename("a.b", &vec![]), "a_b.csv");
}

#[test]
fn csv_fields_are_quoted_when_needed() {
    let t = task_in("1", "a,b \"q\"", Some("Work"));
    let rows = vec![t];
    let store = TaskStore { tasks: rows };
    let (_, content) = export_to_csv(&store, 0);
    let expected = format!("{}\"a,b \"\"q\"\"\",Work,00:00:00,Stopped\n", HEADER);
    assert_eq!(content, expected);
}

#[test]
fn export_reflects_running_duration() {
    let mut t = task_in("1", "work", None);
    t.start_at(1_000);
    let store = TaskStore { tasks: vec![t] };
    let (_, content) = export_to_csv(&store, 1_065);
    let expected = format!("{}work,Uncategorized,00:01:05,Running\n", HEADER);
    assert_eq!(content, expected);
}
