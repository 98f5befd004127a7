//! A single task and its timer: a small state machine over the fields
//! `start_time`, `is_paused` and `total_duration`.
//!
//! The logical states are: Idle (never worked on), Running (`start_time`
//! set), Paused (`is_paused` set), and Completed (stopped with accumulated
//! time). At most one of `start_time` and `is_paused` is ever set.

use crate::clock::now_seconds;
use crate::numerals;
use vstd::prelude::*;

verus! {

/// One trackable unit of work.
pub struct Task {
    pub id: String,
    pub description: String,
    pub folder: Option<String>,
    pub total_duration: i64,
    pub start_time: Option<i64>,
    pub is_paused: bool,
}

/// The mathematical value of a task.
pub ghost struct TaskView {
    pub id: Seq<char>,
    pub description: Seq<char>,
    pub folder: Option<Seq<char>>,
    pub total_duration: int,
    pub start_time: Option<int>,
    pub is_paused: bool,
}

/// The view of an optional string.
pub open spec fn opt_view(o: Option<String>) -> Option<Seq<char>> {
    match o {
        Some(s) => Some(s@),
        None => None,
    }
}

impl View for Task {
    type V = TaskView;

    open spec fn view(&self) -> TaskView {
        TaskView {
            id: self.id@,
            description: self.description@,
            folder: opt_view(self.folder),
            total_duration: self.total_duration as int,
            start_time: match self.start_time {
                Some(t) => Some(t as int),
                None => None,
            },
            is_paused: self.is_paused,
        }
    }
}

/// The seconds elapsed from `start` to `now`; a clock that moved backwards
/// contributes nothing, so the result is never negative.
pub open spec fn elapsed_since(start: int, now: int) -> int {
    if now >= start {
        now - start
    } else {
        0
    }
}

/// `total` plus the time elapsed since `start`, saturating at the largest
/// duration a task can store.
pub open spec fn accrue(total: int, start: int, now: int) -> int {
    if total + elapsed_since(start, now) > i64::MAX {
        i64::MAX as int
    } else {
        total + elapsed_since(start, now)
    }
}

impl TaskView {
    /// Well-formedness: the accumulated duration is a non-negative number
    /// of seconds, the description is non-empty, the timestamp fits the
    /// clock's range, and the task is not both running and paused.
    pub open spec fn wf(self) -> bool {
        &&& 0 <= self.total_duration <= i64::MAX
        &&& self.description.len() > 0
        &&& !(self.start_time is Some && self.is_paused)
        &&& (self.start_time matches Some(t) ==> i64::MIN <= t <= i64::MAX)
    }

    /// The timer is running.
    pub open spec fn is_running(self) -> bool {
        self.start_time is Some
    }

    /// The timer is paused.
    pub open spec fn is_paused_state(self) -> bool {
        !(self.start_time is Some) && self.is_paused
    }

    /// The task has never accumulated any time and is not being worked on.
    pub open spec fn is_idle(self) -> bool {
        !(self.start_time is Some) && !self.is_paused && self.total_duration == 0
    }

    /// The task is stopped with accumulated time: shown as completed.
    pub open spec fn is_completed(self) -> bool {
        !(self.start_time is Some) && !self.is_paused && self.total_duration > 0
    }

    /// `start` at instant `now`: only an idle task begins running.
    pub open spec fn spec_start(self, now: int) -> TaskView {
        if self.is_idle() {
            TaskView { start_time: Some(now), ..self }
        } else {
            self
        }
    }

    /// `pause` at instant `now`: only a running task banks its elapsed
    /// time and pauses.
    pub open spec fn spec_pause(self, now: int) -> TaskView {
        if self.is_running() {
            TaskView {
                total_duration: accrue(self.total_duration, self.start_time->0, now),
                start_time: None,
                is_paused: true,
                ..self
            }
        } else {
            self
        }
    }

    /// `resume` at instant `now`: only a paused task starts running again.
    pub open spec fn spec_resume(self, now: int) -> TaskView {
        if self.is_paused_state() {
            TaskView { start_time: Some(now), is_paused: false, ..self }
        } else {
            self
        }
    }

    /// Toggling completion: a completed task becomes paused (marked
    /// incomplete again) without touching its duration; a running task is
    /// paused and then unmarked, landing on Completed; otherwise the
    /// paused flag is simply cleared.
    pub open spec fn spec_toggle_complete(self, now: int) -> TaskView {
        if self.is_completed() {
            TaskView { is_paused: true, ..self }
        } else if self.is_running() {
            TaskView {
                total_duration: accrue(self.total_duration, self.start_time->0, now),
                start_time: None,
                is_paused: false,
                ..self
            }
        } else {
            TaskView { is_paused: false, ..self }
        }
    }

    /// The duration the task shows at instant `now`: the banked total plus
    /// the currently running stretch, if any.
    pub open spec fn spec_current_duration(self, now: int) -> int {
        if self.is_running() {
            accrue(self.total_duration, self.start_time->0, now)
        } else {
            self.total_duration
        }
    }

    /// The status of the task: Running, Paused, Completed, or Stopped.
    pub open spec fn spec_status_label(self) -> Seq<char> {
        if self.is_running() {
            "Running"@
        } else if self.is_paused {
            "Paused"@
        } else if self.total_duration > 0 {
            "Completed"@
        } else {
            "Stopped"@
        }
    }
}

/// `total` plus the time elapsed since `start`, saturating at `i64::MAX`.
fn accrue_exec(total: i64, start: i64, now: i64) -> (r: i64)
    requires
        0 <= total,
    ensures
        r as int == accrue(total as int, start as int, now as int),
        total <= r,
{
    let delta: i64 = if now <= start {
        0
    } else {
        match now.checked_sub(start) {
            Some(d) => d,
            None => i64::MAX,
        }
    };
    match total.checked_add(delta) {
        Some(s) => s,
        None => i64::MAX,
    }
}

impl Task {
    /// Well-formedness of the underlying view.
    pub open spec fn wf(&self) -> bool {
        self@.wf()
    }

    /// Creates a task with the given id and non-empty description, placed
    /// in the given folder, with an idle timer.
    pub fn new(id: String, description: String, folder: Option<String>) -> (t: Task)
        requires
            description@.len() > 0,
        ensures
            t@ == (TaskView {
                id: id@,
                description: description@,
                folder: opt_view(folder),
                total_duration: 0,
                start_time: None,
                is_paused: false,
            }),
            t.wf(),
            t@.is_idle(),
    {
        Task { id, description, folder, total_duration: 0, start_time: None, is_paused: false }
    }

    /// An exact copy of the task.
    pub fn duplicate(&self) -> (t: Task)
        ensures
            t@ == self@,
    {
        Task {
            id: self.id.clone(),
            description: self.description.clone(),
            folder: match &self.folder {
                Some(f) => Some(f.clone()),
                None => None,
            },
            total_duration: self.total_duration,
            start_time: self.start_time,
            is_paused: self.is_paused,
        }
    }

    /// Starts the timer at instant `now`; does nothing unless the task is
    /// idle.
    pub fn start_at(&mut self, now: i64)
        requires
            old(self).wf(),
        ensures
            final(self)@ == old(self)@.spec_start(now as int),
            final(self).wf(),
    {
        if self.start_time.is_none() && !self.is_paused && self.total_duration == 0 {
            self.start_time = Some(now);
        }
    }

    /// Pauses the timer at instant `now`, banking the elapsed seconds;
    /// does nothing unless the task is running.
    pub fn pause_at(&mut self, now: i64)
        requires
            old(self).wf(),
        ensures
            final(self)@ == old(self)@.spec_pause(now as int),
            final(self).wf(),
            old(self)@.total_duration <= final(self)@.total_duration,
    {
        match self.start_time {
            Some(start) => {
                self.total_duration = accrue_exec(self.total_duration, start, now);
                self.start_time = None;
                self.is_paused = true;
            },
            None => {},
        }
    }

    /// Resumes the timer at instant `now`; does nothing unless the task is
    /// paused.
    pub fn resume_at(&mut self, now: i64)
        requires
            old(self).wf(),
        ensures
            final(self)@ == old(self)@.spec_resume(now as int),
            final(self).wf(),
    {
        if self.start_time.is_none() && self.is_paused {
            self.start_time = Some(now);
            self.is_paused = false;
        }
    }

    /// Toggles completion at instant `now`: a completed task is marked
    /// incomplete (paused), any other task is stopped and unmarked.
    pub fn toggle_complete_at(&mut self, now: i64)
        requires
            old(self).wf(),
        ensures
            final(self)@ == old(self)@.spec_toggle_complete(now as int),
            final(self).wf(),
            old(self)@.total_duration <= final(self)@.total_duration,
    {
        let completed = self.total_duration > 0 && self.start_time.is_none() && !self.is_paused;
        if completed {
            self.is_paused = true;
        } else {
            match self.start_time {
                Some(start) => {
                    self.total_duration = accrue_exec(self.total_duration, start, now);
                    self.start_time = None;
                },
                None => {},
            }
            self.is_paused = false;
        }
    }

    /// The duration the task shows at instant `now`.
    pub fn current_duration_at(&self, now: i64) -> (d: i64)
        requires
            self.wf(),
        ensures
            d as int == self@.spec_current_duration(now as int),
            0 <= self@.total_duration <= d,
    {
        match self.start_time {
            Some(start) => accrue_exec(self.total_duration, start, now),
            None => self.total_duration,
        }
    }

    /// The task's duration at instant `now`, rendered as `HH:MM:SS`.
    pub fn format_duration_at(&self, now: i64) -> (r: String)
        requires
            self.wf(),
        ensures
            r@ == numerals::spec_hms(self@.spec_current_duration(now as int)),
    {
        numerals::format_duration(self.current_duration_at(now))
    }

    /// Starts the timer, reading the wall clock; does nothing unless the
    /// task is idle.
    pub fn start(&mut self)
        requires
            old(self).wf(),
        ensures
            final(self).wf(),
            exists|now: int| final(self)@ == old(self)@.spec_start(now),
            !old(self)@.is_idle() ==> final(self)@ == old(self)@,
            final(self)@.total_duration == old(self)@.total_duration,
    {
        let now = now_seconds();
        self.start_at(now);
    }

    /// Pauses the timer, reading the wall clock; does nothing unless the
    /// task is running. The banked duration never decreases.
    pub fn pause(&mut self)
        requires
            old(self).wf(),
        ensures
            final(self).wf(),
            exists|now: int| final(self)@ == old(self)@.spec_pause(now),
            !old(self)@.is_running() ==> final(self)@ == old(self)@,
            old(self)@.is_running() ==> final(self)@.is_paused_state(),
            old(self)@.total_duration <= final(self)@.total_duration,
    {
        let now = now_seconds();
        self.pause_at(now);
    }

    /// Resumes the timer, reading the wall clock; does nothing unless the
    /// task is paused.
    pub fn resume(&mut self)
        requires
            old(self).wf(),
        ensures
            final(self).wf(),
            exists|now: int| final(self)@ == old(self)@.spec_resume(now),
            !old(self)@.is_paused_state() ==> final(self)@ == old(self)@,
            old(self)@.is_paused_state() ==> final(self)@.is_running(),
            final(self)@.total_duration == old(self)@.total_duration,
    {
        let now = now_seconds();
        self.resume_at(now);
    }

    /// Toggles completion, reading the wall clock.
    pub fn toggle_complete(&mut self)
        requires
            old(self).wf(),
        ensures
            final(self).wf(),
            exists|now: int| final(self)@ == old(self)@.spec_toggle_complete(now),
            old(self)@.total_duration <= final(self)@.total_duration,
    {
        let now = now_seconds();
        self.toggle_complete_at(now);
    }

    /// The duration the task shows right now, by the wall clock. The
    /// reading is never below the banked total, and a task that is not
    /// running shows exactly its banked total.
    pub fn get_current_duration(&self) -> (d: i64)
        requires
            self.wf(),
        ensures
            exists|now: int| d as int == self@.spec_current_duration(now),
            !self@.is_running() ==> d as int == self@.total_duration,
            0 <= self@.total_duration <= d,
    {
        let now = now_seconds();
        let d = self.current_duration_at(now);
        proof {
            assert(d as int == self@.spec_current_duration(now as int));
        }
        d
    }

    /// The task's duration right now, rendered as `HH:MM:SS`.
    pub fn format_duration(&self) -> (r: String)
        requires
            self.wf(),
        ensures
            exists|now: int|
                r@ == numerals::spec_hms(self@.spec_current_duration(now)),
    {
        let now = now_seconds();
        let r = self.format_duration_at(now);
        proof {
            assert(r@ == numerals::spec_hms(self@.spec_current_duration(now as int)));
        }
        r
    }

    /// The status of the task as a display string.
    pub fn status_label(&self) -> (r: String)
        ensures
            r@ == self@.spec_status_label(),
    {
        if self.start_time.is_some() {
            "Running".to_owned()
        } else if self.is_paused {
            "Paused".to_owned()
        } else if self.total_duration > 0 {
            "Completed".to_owned()
        } else {
            "Stopped".to_owned()
        }
    }
}

/// A running task reads exactly its banked total plus the elapsed wall
/// time. The bound keeps the sum inside the duration field; past it the
/// reading saturates rather than wrapping, so the law cannot be stated
/// without it.
pub proof fn lemma_running_reading_exact(t: TaskView, now: int)
    requires
        t.wf(),
        t.is_running(),
        t.start_time->0 <= now,
        t.total_duration + (now - t.start_time->0) <= i64::MAX,
    ensures
        t.spec_current_duration(now) == t.total_duration + (now - t.start_time->0),
{
}

/// A running task's reading never decreases as the clock advances, and a
/// task that is not running reads the same duration at every instant.
pub proof fn lemma_current_duration_monotonic(t: TaskView, now1: int, now2: int)
    requires
        t.wf(),
        now1 <= now2,
    ensures
        t.spec_current_duration(now1) <= t.spec_current_duration(now2),
        !t.is_running() ==> t.spec_current_duration(now1) == t.spec_current_duration(now2),
{
}

/// The timer commands outside their states are no-ops: `start` does
/// nothing unless the task is idle, `pause` does nothing unless it is
/// running, and `resume` does nothing unless it is paused.
pub proof fn lemma_transition_no_ops(t: TaskView, now: int)
    ensures
        !t.is_idle() ==> t.spec_start(now) == t,
        !t.is_running() ==> t.spec_pause(now) == t,
        !t.is_paused_state() ==> t.spec_resume(now) == t,
{
}

/// Pausing at `tp` and resuming at `tr` does not distort the accumulated
/// time: the banked total becomes exactly the reading at the instant of
/// the pause, and a later reading is below the uninterrupted reading by
/// exactly the `tr - tp` seconds spent paused — zero when the resume
/// follows the pause immediately.
pub proof fn lemma_pause_resume_no_drift(t: TaskView, tp: int, tr: int, now: int)
    requires
        t.wf(),
        t.is_running(),
        t.start_time->0 <= tp <= tr <= now,
        t.total_duration + (now - t.start_time->0) <= i64::MAX,
    ensures
        t.spec_pause(tp).spec_resume(tr).total_duration == t.spec_current_duration(tp),
        t.spec_pause(tp).spec_resume(tr).spec_current_duration(now) == t.spec_current_duration(
            now,
        ) - (tr - tp),
{
}

} // verus!
