//! A single schedulable work item.
//!
//! A task carries a current `priority` (lower numbers are serviced first),
//! the `base_priority` it returns to when it has been serviced, an `age`
//! counter that grows while it waits, a `paused` flag, and an optional
//! `deadline` in whole seconds since the Unix epoch. A task with a deadline
//! derives its base priority from the days left until that deadline.

use vstd::prelude::*;

use crate::clock;
use core::cmp::Ordering;

verus! {

/// One work item of the schedule.
#[derive(Clone, Debug)]
pub struct Task {
    pub name: String,
    pub priority: u8,
    pub paused: bool,
    pub deadline: Option<i64>,
    pub age: u32,
    pub base_priority: u8,
}

/// Priorities never fall below 1: decrements stop there, and a
/// deadline-derived priority is clamped to at least 1.
pub open spec fn wf_task(t: Task) -> bool {
    t.priority >= 1 && t.base_priority >= 1
}

/// Value equality as the scheduler uses it for removal and pause toggling:
/// every field but the deadline takes part.
pub open spec fn same_task(a: Task, b: Task) -> bool {
    &&& a.name@ == b.name@
    &&& a.priority == b.priority
    &&& a.base_priority == b.base_priority
    &&& a.age == b.age
    &&& a.paused == b.paused
}

/// The one-step decay that `Task::age` applies: a paused task is left
/// alone; any other has its wait ended and its priority pulled one step
/// closer to 1.
pub open spec fn decayed(t: Task) -> Task {
    if t.paused {
        t
    } else {
        Task {
            age: 0u32,
            priority: if t.priority > 1 {
                (t.priority - 1) as u8
            } else {
                1u8
            },
            ..t
        }
    }
}

/// What `Task::reset` leaves behind: the wait ended, the priority back at
/// its baseline.
pub open spec fn reset_to_base(t: Task) -> Task {
    Task { age: 0u32, priority: t.base_priority, ..t }
}

/// The priority a deadline dictates: the whole days from `now_ts` until
/// `deadline_ts`, floored at 1 (a past or same-day deadline is urgent) and
/// capped at 255.
pub open spec fn deadline_priority(now_ts: int, deadline_ts: int) -> u8 {
    let diff = deadline_ts - now_ts;
    if diff < 86400 {
        1u8
    } else if diff >= 255 * 86400 {
        255u8
    } else {
        (diff / 86400) as u8
    }
}

/// The task a constructor call builds at moment `now_ts`: unpaused, unaged,
/// with the priority taken from the deadline when one is given and from the
/// caller otherwise.
pub open spec fn built(name: String, priority: u8, deadline: Option<i64>, now_ts: int) -> Task {
    let p = match deadline {
        Some(d) => deadline_priority(now_ts, d as int),
        None => priority,
    };
    Task { name, priority: p, paused: false, deadline, age: 0u32, base_priority: p }
}

impl Task {
    /// Builds a task as of the moment `now_ts`; the deadline, when present,
    /// overrides the explicit priority.
    pub fn new_at(name: String, priority: u8, deadline: Option<i64>, now_ts: i64) -> (t: Task)
        requires
            deadline is Some || priority >= 1,
        ensures
            t == built(name, priority, deadline, now_ts as int),
            wf_task(t),
    {
        let p = match deadline {
            Some(d) => Task::priority_from_deadline(now_ts, d),
            None => priority,
        };
        Task { name, priority: p, paused: false, deadline, age: 0, base_priority: p }
    }

    /// Builds a task as of now. Which moment the clock returns is outside
    /// this library's control, so the contract holds for every value of it.
    pub fn new(name: String, priority: u8, deadline: Option<i64>) -> (t: Task)
        requires
            deadline is Some || priority >= 1,
        ensures
            exists|now_ts: int| t == built(name, priority, deadline, now_ts),
            wf_task(t),
            t.name@ == name@,
            t.age == 0,
            !t.paused,
            t.deadline == deadline,
            t.base_priority == t.priority,
            deadline is None ==> t.priority == priority,
    {
        let now = clock::now_timestamp();
        let t = Task::new_at(name, priority, deadline, now);
        proof {
            assert(t == built(name, priority, deadline, now as int));
        }
        t
    }

    /// The whole days from `now_ts` until `deadline_ts`, clamped to
    /// `1 ..= 255`.
    pub fn priority_from_deadline(now_ts: i64, deadline_ts: i64) -> (r: u8)
        ensures
            r == deadline_priority(now_ts as int, deadline_ts as int),
            r >= 1,
    {
        if deadline_ts <= now_ts {
            return 1;
        }
        let diff_wide: i128 = (deadline_ts as i128) - (now_ts as i128);
        let diff: u64 = diff_wide as u64;
        assert(diff == deadline_ts - now_ts);
        let days: u64 = diff / 86400;
        if days < 1 {
            1
        } else if days > 255 {
            255
        } else {
            days as u8
        }
    }

    /// One step of decay, applied to the longest-waiting eligible task of a
    /// scheduling step. A paused task is left exactly as it was.
    pub fn age(&mut self)
        ensures
            *final(self) == decayed(*old(self)),
            old(self).paused ==> *final(self) == *old(self),
            wf_task(*old(self)) ==> wf_task(*final(self)),
    {
        if !self.paused {
            self.age = 0;
            self.priority = if self.priority > 1 {
                self.priority - 1
            } else {
                1
            };
        }
    }

    /// Restores the task to its baseline: the wait ends and the priority
    /// returns to `base_priority`. Applied to the task that was just
    /// serviced.
    pub fn reset(&mut self)
        ensures
            *final(self) == reset_to_base(*old(self)),
            final(self).priority == old(self).base_priority,
            final(self).age == 0,
            wf_task(*old(self)) ==> wf_task(*final(self)),
    {
        self.age = 0;
        self.priority = self.base_priority;
    }
}

impl PartialEq for Task {
    fn eq(&self, other: &Self) -> (r: bool) {
        self.paused == other.paused && self.name == other.name && self.age == other.age
            && self.priority == other.priority && self.base_priority == other.base_priority
    }
}

impl Eq for Task {}

impl vstd::std_specs::cmp::PartialEqSpecImpl for Task {
    open spec fn obeys_eq_spec() -> bool {
        true
    }

    open spec fn eq_spec(&self, other: &Self) -> bool {
        same_task(*self, *other)
    }
}

impl PartialOrd for Task {
    /// The ordering rule of the whole scheduler: by `priority` in natural
    /// order, ties broken by `age` in reverse, so that of two equally
    /// urgent tasks the longer-waiting one sorts first.
    fn partial_cmp(&self, other: &Self) -> (r: Option<Ordering>) {
        Some(
            if self.priority < other.priority {
                Ordering::Less
            } else if other.priority < self.priority {
                Ordering::Greater
            } else if other.age < self.age {
                Ordering::Less
            } else if self.age < other.age {
                Ordering::Greater
            } else {
                Ordering::Equal
            },
        )
    }
}

impl vstd::std_specs::cmp::PartialOrdSpecImpl for Task {
    open spec fn obeys_partial_cmp_spec() -> bool {
        true
    }

    open spec fn partial_cmp_spec(&self, other: &Self) -> Option<Ordering> {
        Some(
            if self.priority < other.priority {
                Ordering::Less
            } else if other.priority < self.priority {
                Ordering::Greater
            } else if other.age < self.age {
                Ordering::Less
            } else if self.age < other.age {
                Ordering::Greater
            } else {
                Ordering::Equal
            },
        )
    }
}

} // verus!
