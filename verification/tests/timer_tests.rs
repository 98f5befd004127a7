use work_timer::numerals::format_duration;
use work_timer::task::Task;
use work_timer::tracker::WorkTimer;

fn fresh_task(id: &str, description: &str) -> Task {
    Task::new(id.to_string(), description.to_string(), None)
}

#[test]
fn new_task_is_idle() {
    let t = fresh_task("id-1", "Write report");
    assert_eq!(t.total_duration, 0);
    assert!(t.start_time.is_none());
    assert!(!t.is_paused);
}

#[test]
fn scenario_start_then_pause_accumulates() {
    let mut w = WorkTimer::new();
    w.create_folder("Work".to_string()).unwrap();
    let id = w.create_task("Write report".to_string()).unwrap();
    w.start_task_at(&id, 1_000).unwrap();
    w.pause_task_at(&id, 1_005).unwrap();
    let t = w.store.get(&id).unwrap();
    assert!(t.total_duration >= 5);
    assert_eq!(t.total_duration, 5);
    assert!(t.is_paused);
    assert!(t.start_time.is_none());
    assert_eq!(t.folder.as_deref(), Some("Work"));
}

#[test]
fn start_is_noop_unless_idle() {
    // paused task: start does nothing, resume is required
    let mut t = fresh_task("id-1", "a");
    t.start_at(100);
    t.pause_at(110);
    let before = t.total_duration;
    t.start_at(120);
    assert!(t.start_time.is_none());
    assert!(t.is_paused);
    assert_eq!(t.total_duration, before);
    // completed task: start does nothing
    let mut c = fresh_task("id-2", "b");
    c.start_at(100);
    c.pause_at(110);
    c.toggle_complete_at(110);
    assert!(c.total_duration > 0 && !c.is_paused && c.start_time.is_none());
    c.start_at(120);
    assert!(c.start_time.is_none());
}

#[test]
fn pause_is_noop_unless_running() {
    let mut t = fresh_task("id-1", "a");
    t.pause_at(100);
    assert!(!t.is_paused);
    assert_eq!(t.total_duration, 0);
}

#[test]
fn resume_is_noop_unless_paused() {
    let mut t = fresh_task("id-1", "a");
    t.resume_at(100);
    assert!(t.start_time.is_none());
    // a running task is not resumed anew
    t.start_at(100);
    t.resume_at(170);
    assert_eq!(t.start_time, Some(100));
}

#[test]
fn pause_then_resume_does_not_drift() {
    let mut interrupted = fresh_task("id-1", "a");
    interrupted.start_at(100);
    interrupted.pause_at(103);
    assert_eq!(interrupted.total_duration, 3);
    interrupted.resume_at(103);
    let mut straight = fresh_task("id-2", "b");
    straight.start_at(100);
    // an immediate resume loses nothing: both read the same afterwards
    assert_eq!(
        interrupted.current_duration_at(110),
        straight.current_duration_at(110)
    );
    assert_eq!(interrupted.current_duration_at(110), 10);
}

#[test]
fn current_duration_is_monotonic_while_running() {
    let mut t = fresh_task("id-1", "a");
    t.start_at(100);
    let d1 = t.current_duration_at(101);
    let d2 = t.current_duration_at(105);
    let d3 = t.current_duration_at(105);
    assert!(d1 <= d2);
    assert_eq!(d2, d3);
    // and constant when paused
    t.pause_at(106);
    assert_eq!(t.current_duration_at(200), t.current_duration_at(300));
}

#[test]
fn clock_going_backwards_adds_nothing() {
    let mut t = fresh_task("id-1", "a");
    t.start_at(100);
    t.pause_at(90);
    assert_eq!(t.total_duration, 0);
    assert!(t.is_paused);
}

#[test]
fn toggle_complete_cycles() {
    let mut t = fresh_task("id-1", "a");
    t.start_at(100);
    t.pause_at(110);
    // paused with time: toggling completes it
    t.toggle_complete_at(110);
    assert!(t.start_time.is_none() && !t.is_paused && t.total_duration == 10);
    // completed: toggling marks it incomplete (paused) again
    t.toggle_complete_at(111);
    assert!(t.is_paused && t.total_duration == 10);
    // running: toggling banks the time and completes
    let mut r = fresh_task("id-2", "b");
    r.start_at(100);
    r.toggle_complete_at(107);
    assert!(r.start_time.is_none() && !r.is_paused && r.total_duration == 7);
    // idle with no time: toggling leaves it idle
    let mut i = fresh_task("id-3", "c");
    i.toggle_complete_at(100);
    assert!(i.start_time.is_none() && !i.is_paused && i.total_duration == 0);
}

#[test]
fn status_labels_follow_the_state() {
    let mut t = fresh_task("id-1", "a");
    assert_eq!(t.status_label(), "Stopped");
    t.start_at(100);
    assert_eq!(t.status_label(), "Running");
    t.pause_at(105);
    assert_eq!(t.status_label(), "Paused");
    t.toggle_complete_at(105);
    assert_eq!(t.status_label(), "Completed");
}

#[test]
fn format_duration_pads_fields() {
    assert_eq!(format_duration(0), "00:00:00");
    assert_eq!(format_duration(59), "00:00:59");
    assert_eq!(format_duration(60), "00:01:00");
    assert_eq!(format_duration(3600), "01:00:00");
    assert_eq!(format_duration(3661), "01:01:01");
    // hours are not reduced modulo 24
    assert_eq!(format_duration(360000), "100:00:00");
}

#[test]
fn format_duration_at_uses_running_time() {
    let mut t = fresh_task("id-1", "a");
    t.start_at(1000);
    assert_eq!(t.format_duration_at(1065), "00:01:05");
}
