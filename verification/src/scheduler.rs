//! The ordered collection of tasks and its scheduling operations.
//!
//! Every mutating operation reports in its result whether the collection
//! must be written to durable storage afterwards; the caller owns the
//! document and performs the write. `load_at` is the counterpart for the
//! way in: it takes the stored tasks, re-derives each deadline-bearing
//! task's base priority from the days left, and re-sorts when any of them
//! changed.

use vstd::prelude::*;

use crate::clock;
use crate::order::{
    lemma_sort_spec_element, lemma_sort_spec_len, lemma_sort_spec_multiset, sort_spec,
};
use crate::task::{deadline_priority, decayed, reset_to_base, same_task, wf_task, Task};

verus! {

/// Every task of the sequence keeps its priority invariant.
pub open spec fn wf_tasks(s: Seq<Task>) -> bool {
    forall|i: int| 0 <= i < s.len() ==> wf_task(#[trigger] s[i])
}

/// No age counter is at the point of overflowing; a machine limit, not a
/// rule of the schedule.
pub open spec fn ages_within(s: Seq<Task>) -> bool {
    forall|i: int| 0 <= i < s.len() ==> (#[trigger] s[i]).age < u32::MAX
}

/// One waiting step: the age counter grows by one.
pub open spec fn aged_task(t: Task) -> Task {
    Task { age: (t.age + 1) as u32, ..t }
}

/// Every task has waited one more step.
pub open spec fn age_all(s: Seq<Task>) -> Seq<Task> {
    s.map_values(|t: Task| aged_task(t))
}

/// The position of the task a scheduling step boosts: the last of the
/// non-paused tasks with the greatest age, or -1 when every task is
/// paused (or the sequence is empty).
pub open spec fn oldest_unpaused(s: Seq<Task>) -> int
    decreases s.len(),
{
    if s.len() == 0 {
        -1
    } else {
        let r = oldest_unpaused(s.drop_last());
        if !s.last().paused && (r == -1 || s.last().age >= s[r].age) {
            s.len() - 1
        } else {
            r
        }
    }
}

/// The position of the last task with the greatest age, paused or not,
/// or -1 on an empty sequence.
pub open spec fn oldest_any(s: Seq<Task>) -> int
    decreases s.len(),
{
    if s.len() == 0 {
        -1
    } else {
        let r = oldest_any(s.drop_last());
        if r == -1 || s.last().age >= s[r].age {
            s.len() - 1
        } else {
            r
        }
    }
}

/// Whether a step has a task to boost once the current one is set aside:
/// either exactly one other task remains (it is taken even when paused),
/// or some remaining task is not paused. Without one the step leaves the
/// collection alone — the deliberate resolution of a case the ordering
/// rules leave open.
pub open spec fn has_step_target(s: Seq<Task>) -> bool {
    let aged = age_all(sort_spec(s).drop_first());
    aged.len() == 1 || oldest_unpaused(aged) >= 0
}

/// What `step` leaves behind on a collection with a step target: the
/// most urgent task is set aside, every other task ages by one, the
/// longest-waiting eligible task decays one step, the current task
/// returns at its baseline, and the whole is sorted again.
pub open spec fn step_result(s: Seq<Task>) -> Seq<Task> {
    let so = sort_spec(s);
    let aged = age_all(so.drop_first());
    let sel = if aged.len() == 1 {
        0
    } else {
        oldest_unpaused(aged)
    };
    sort_spec(aged.update(sel, decayed(aged[sel])).push(reset_to_base(so[0])))
}

/// What `step_and_finish` leaves behind on a collection of two or more:
/// the most urgent task is gone for good, every other task ages by one,
/// and the longest-waiting task — paused or not — decays one step.
pub open spec fn finish_result(s: Seq<Task>) -> Seq<Task> {
    let so = sort_spec(s);
    let aged = age_all(so.drop_first());
    let sel = oldest_any(aged);
    sort_spec(aged.update(sel, decayed(aged[sel])))
}

/// The position of the first task value-equal to `t`, or -1.
pub open spec fn first_match(s: Seq<Task>, t: Task) -> int
    decreases s.len(),
{
    if s.len() == 0 {
        -1
    } else if same_task(s[0], t) {
        0
    } else {
        let r = first_match(s.drop_first(), t);
        if r == -1 {
            -1
        } else {
            1 + r
        }
    }
}

/// `t` with its pause flag flipped when it is value-equal to `pat`.
pub open spec fn toggled(t: Task, pat: Task) -> Task {
    if same_task(t, pat) {
        Task { paused: !t.paused, ..t }
    } else {
        t
    }
}

/// The pause flag flipped on every match.
pub open spec fn toggle_all(s: Seq<Task>, pat: Task) -> Seq<Task> {
    s.map_values(|t: Task| toggled(t, pat))
}

/// Whether a stored task's base priority disagrees with what its deadline
/// dictates as of `now_ts`.
pub open spec fn base_changed(t: Task, now_ts: int) -> bool {
    match t.deadline {
        Some(d) => t.base_priority != deadline_priority(now_ts, d as int),
        None => false,
    }
}

pub open spec fn any_base_changed(s: Seq<Task>, now_ts: int) -> bool {
    exists|i: int| 0 <= i < s.len() && base_changed(#[trigger] s[i], now_ts)
}

/// A stored task brought up to date: a deadline task's base priority is
/// re-derived from the days left, and its current priority is clamped so
/// a tightening deadline can only lower it; a task without a deadline is
/// untouched.
pub open spec fn tightened(t: Task, now_ts: int) -> Task {
    match t.deadline {
        Some(d) => {
            let bp = deadline_priority(now_ts, d as int);
            Task {
                base_priority: bp,
                priority: if t.priority < bp {
                    t.priority
                } else {
                    bp
                },
                ..t
            }
        },
        None => t,
    }
}

pub open spec fn tighten_all(s: Seq<Task>, now_ts: int) -> Seq<Task> {
    s.map_values(|t: Task| tightened(t, now_ts))
}

/// What loading the stored sequence yields at moment `now_ts`: every task
/// brought up to date, and the whole re-sorted exactly when some base
/// priority changed.
pub open spec fn load_spec(s: Seq<Task>, now_ts: int) -> Seq<Task> {
    if any_base_changed(s, now_ts) {
        sort_spec(tighten_all(s, now_ts))
    } else {
        tighten_all(s, now_ts)
    }
}

pub proof fn lemma_oldest_unpaused_props(s: Seq<Task>)
    ensures
        (oldest_unpaused(s) == -1) <==> (forall|i: int|
            0 <= i < s.len() ==> (#[trigger] s[i]).paused),
        oldest_unpaused(s) != -1 ==> 0 <= oldest_unpaused(s) < s.len()
            && !s[oldest_unpaused(s)].paused,
    decreases s.len(),
{
    if s.len() > 0 {
        lemma_oldest_unpaused_props(s.drop_last());
        assert(forall|i: int| 0 <= i < s.len() - 1 ==> s.drop_last()[i] == #[trigger] s[i]);
        assert(s.last() == s[s.len() - 1]);
    }
}

pub proof fn lemma_oldest_any_props(s: Seq<Task>)
    ensures
        (oldest_any(s) == -1) <==> s.len() == 0,
        s.len() > 0 ==> 0 <= oldest_any(s) < s.len(),
    decreases s.len(),
{
    if s.len() > 0 {
        lemma_oldest_any_props(s.drop_last());
    }
}

pub proof fn lemma_first_match_unique(s: Seq<Task>, t: Task, j: int)
    requires
        0 <= j <= s.len(),
        forall|k: int| 0 <= k < j ==> !same_task(#[trigger] s[k], t),
        j < s.len() ==> same_task(s[j], t),
    ensures
        j < s.len() ==> first_match(s, t) == j,
        j == s.len() ==> first_match(s, t) == -1,
    decreases s.len(),
{
    if s.len() == 0 {
    } else if j == 0 {
    } else {
        assert(!same_task(s[0], t));
        assert forall|k: int| 0 <= k < j - 1 implies !same_task(#[trigger] s.drop_first()[k], t) by {
            assert(s.drop_first()[k] == s[k + 1]);
        }
        if j - 1 < s.drop_first().len() {
            assert(s.drop_first()[j - 1] == s[j]);
        }
        lemma_first_match_unique(s.drop_first(), t, j - 1);
    }
}

pub proof fn lemma_sort_spec_wf(s: Seq<Task>)
    requires
        wf_tasks(s),
    ensures
        wf_tasks(sort_spec(s)),
{
    assert forall|i: int| 0 <= i < sort_spec(s).len() implies wf_task(sort_spec(s)[i]) by {
        lemma_sort_spec_element(s, i);
    }
}

pub proof fn lemma_sort_spec_ages(s: Seq<Task>)
    requires
        ages_within(s),
    ensures
        ages_within(sort_spec(s)),
{
    assert forall|i: int| 0 <= i < sort_spec(s).len() implies sort_spec(s)[i].age < u32::MAX by {
        lemma_sort_spec_element(s, i);
    }
}

/// Law: a collection saved and loaded back is reproduced exactly, as long
/// as no deadline dictates a different base priority at load time — in
/// particular whenever no task carries a deadline at all, whatever moment
/// the load happens at. (A deadline task must also not hold a live
/// priority above its baseline, which no operation of this library ever
/// produces.)
pub proof fn lemma_load_round_trip(s: Seq<Task>, now_ts: int)
    requires
        forall|i: int| 0 <= i < s.len() ==> !base_changed(#[trigger] s[i], now_ts),
        forall|i: int|
            0 <= i < s.len() && (#[trigger] s[i]).deadline is Some ==> s[i].priority
                <= s[i].base_priority,
    ensures
        load_spec(s, now_ts) == s,
{
    assert(!any_base_changed(s, now_ts));
    assert forall|i: int| 0 <= i < s.len() implies tightened(#[trigger] s[i], now_ts) == s[i] by {
        assert(!base_changed(s[i], now_ts));
    }
    assert(load_spec(s, now_ts) =~= s);
}

/// Law: loading reproduces the saved task set up to deadline tightening.
/// Task for task, the name, age, pause flag and deadline survive; a task
/// without a deadline survives whole; a deadline task's current priority
/// can only drop. The load may re-sort, which rearranges the brought-up-
/// to-date tasks and nothing more.
pub proof fn lemma_load_tightens(s: Seq<Task>, now_ts: int)
    ensures
        load_spec(s, now_ts).to_multiset() == tighten_all(s, now_ts).to_multiset(),
        tighten_all(s, now_ts).len() == s.len(),
        forall|i: int|
            0 <= i < s.len() ==> {
                let u = #[trigger] tighten_all(s, now_ts)[i];
                u.name@ == s[i].name@ && u.age == s[i].age && u.paused == s[i].paused
                    && u.deadline == s[i].deadline && u.priority <= s[i].priority
            },
        forall|i: int|
            0 <= i < s.len() && (#[trigger] s[i]).deadline is None ==> tighten_all(s, now_ts)[i]
                == s[i],
{
    if any_base_changed(s, now_ts) {
        lemma_sort_spec_multiset(tighten_all(s, now_ts));
    }
}

fn bump_all_ages(v: &mut Vec<Task>)
    requires
        ages_within(old(v)@),
    ensures
        final(v)@ == age_all(old(v)@),
{
    let ghost orig = v@;
    let n = v.len();
    let mut i: usize = 0;
    while i < n
        invariant
            i <= n,
            n == v@.len(),
            v@.len() == orig.len(),
            ages_within(orig),
            forall|k: int| 0 <= k < i ==> v@[k] == aged_task(#[trigger] orig[k]),
            forall|k: int| i <= k < n ==> #[trigger] v@[k] == orig[k],
        decreases n - i,
    {
        proof {
            assert(orig[i as int].age < u32::MAX);
        }
        let t = &mut v[i];
        t.age = t.age + 1;
        i += 1;
    }
    proof {
        assert(v@ =~= age_all(orig));
    }
}

fn any_unpaused_from(v: &Vec<Task>, start: usize) -> (r: bool)
    ensures
        r <==> exists|k: int| start <= k < v@.len() && !(#[trigger] v@[k]).paused,
{
    let n = v.len();
    let mut i: usize = start;
    while i < n
        invariant
            start <= i,
            n == v@.len(),
            forall|k: int| start <= k < i ==> (#[trigger] v@[k]).paused,
        decreases n - i,
    {
        if !v[i].paused {
            return true;
        }
        i += 1;
    }
    false
}

fn find_oldest_unpaused(v: &Vec<Task>) -> (r: Option<usize>)
    ensures
        match r {
            Some(i) => i < v@.len() && i as int == oldest_unpaused(v@),
            None => oldest_unpaused(v@) == -1,
        },
{
    let n = v.len();
    let mut best: Option<usize> = None;
    let mut i: usize = 0;
    proof {
        assert(v@.take(0) =~= Seq::<Task>::empty());
    }
    while i < n
        invariant
            i <= n,
            n == v@.len(),
            match best {
                Some(b) => b < i && b as int == oldest_unpaused(v@.take(i as int)),
                None => oldest_unpaused(v@.take(i as int)) == -1,
            },
        decreases n - i,
    {
        proof {
            assert(v@.take(i + 1).drop_last() =~= v@.take(i as int));
            assert(v@.take(i + 1).last() == v@[i as int]);
        }
        let better = if !v[i].paused {
            match best {
                None => true,
                Some(b) => v[i].age >= v[b].age,
            }
        } else {
            false
        };
        if better {
            best = Some(i);
        }
        i += 1;
    }
    proof {
        assert(v@.take(n as int) =~= v@);
    }
    best
}

fn find_oldest_any(v: &Vec<Task>) -> (r: usize)
    requires
        v@.len() > 0,
    ensures
        r < v@.len(),
        r as int == oldest_any(v@),
{
    let n = v.len();
    let mut best: usize = 0;
    let mut i: usize = 1;
    proof {
        assert(v@.take(0) =~= Seq::<Task>::empty());
        assert(oldest_any(v@.take(0)) == -1);
        assert(v@.take(1).drop_last() =~= v@.take(0));
        assert(v@.take(1).last() == v@[0]);
        assert(oldest_any(v@.take(1)) == 0);
    }
    while i < n
        invariant
            1 <= i <= n,
            n == v@.len(),
            best < i,
            best as int == oldest_any(v@.take(i as int)),
        decreases n - i,
    {
        proof {
            assert(v@.take(i + 1).drop_last() =~= v@.take(i as int));
            assert(v@.take(i + 1).last() == v@[i as int]);
        }
        if v[i].age >= v[best].age {
            best = i;
        }
        i += 1;
    }
    proof {
        assert(v@.take(n as int) =~= v@);
    }
    best
}

/// The ordered collection of tasks.
pub struct Tasks {
    pub tasks: Vec<Task>,
}

impl Tasks {
    /// An empty collection.
    pub fn new() -> (r: Tasks)
        ensures
            r.tasks@ == Seq::<Task>::empty(),
    {
        Tasks { tasks: Vec::new() }
    }

    /// Advances the schedule by one unit without completing anything: the
    /// most urgent task is set aside, every other task ages by one step,
    /// the longest-waiting eligible task has its priority boosted one step
    /// toward urgency, and the task set aside returns to the pool at its
    /// baseline. When only one other task remains it is boosted even while
    /// paused; when two or more remain and all are paused there is no task
    /// to boost, and the step leaves the collection alone (merely sorted)
    /// rather than fail — the explicit resolution of a case the scheduling
    /// rules leave open. A write is asked for exactly when the step went
    /// through.
    pub fn step(&mut self) -> (persist: bool)
        requires
            wf_tasks(old(self).tasks@),
            ages_within(old(self).tasks@),
        ensures
            wf_tasks(final(self).tasks@),
            final(self).tasks@.len() == old(self).tasks@.len(),
            old(self).tasks@.len() == 0 ==> final(self).tasks@ == old(self).tasks@ && !persist,
            old(self).tasks@.len() > 0 && !has_step_target(old(self).tasks@)
                ==> final(self).tasks@ == sort_spec(old(self).tasks@) && !persist,
            old(self).tasks@.len() > 0 && has_step_target(old(self).tasks@)
                ==> final(self).tasks@ == step_result(old(self).tasks@) && persist,
    {
        let ghost s0 = self.tasks@;
        let n = self.tasks.len();
        if n == 0 {
            return false;
        }
        crate::order::sort_tasks(&mut self.tasks);
        let ghost so = self.tasks@;
        proof {
            lemma_sort_spec_len(s0);
            lemma_sort_spec_wf(s0);
            lemma_sort_spec_ages(s0);
        }
        if n == 1 {
            proof {
                assert(so.drop_first() =~= Seq::<Task>::empty());
                assert(age_all(so.drop_first()).len() == 0);
                assert(oldest_unpaused(age_all(so.drop_first())) == -1);
            }
            return false;
        }
        let eligible = if n == 2 {
            true
        } else {
            any_unpaused_from(&self.tasks, 1)
        };
        proof {
            let rest_s = so.drop_first();
            let aged_s = age_all(rest_s);
            assert(aged_s.len() == n - 1);
            lemma_oldest_unpaused_props(aged_s);
            if n > 2 {
                if eligible {
                    let k = choose|k: int| 1 <= k < so.len() && !(#[trigger] so[k]).paused;
                    assert(rest_s[k - 1] == so[k]);
                    assert(!aged_s[k - 1].paused);
                    assert(oldest_unpaused(aged_s) >= 0);
                } else {
                    assert forall|k: int| 0 <= k < aged_s.len() implies (
                    #[trigger] aged_s[k]).paused by {
                        assert(rest_s[k] == so[k + 1]);
                        assert(so[k + 1].paused);
                    }
                    assert(oldest_unpaused(aged_s) == -1);
                    assert(!has_step_target(s0));
                }
            }
            if eligible {
                assert(has_step_target(s0));
            }
        }
        if !eligible {
            return false;
        }
        let mut current = self.tasks.remove(0);
        let ghost rest = self.tasks@;
        proof {
            assert(rest =~= so.drop_first());
            assert(current == so[0]);
            assert forall|k: int| 0 <= k < rest.len() implies wf_task(#[trigger] rest[k])
                && rest[k].age < u32::MAX by {
                assert(rest[k] == so[k + 1]);
            }
        }
        bump_all_ages(&mut self.tasks);
        let ghost aged = self.tasks@;
        let sel: usize = if self.tasks.len() == 1 {
            0
        } else {
            proof {
                lemma_oldest_unpaused_props(aged);
                assert(oldest_unpaused(aged) >= 0);
            }
            match find_oldest_unpaused(&self.tasks) {
                Some(k) => k,
                None => {
                    proof {
                        assert(false);
                    }
                    0
                },
            }
        };
        proof {
            lemma_oldest_unpaused_props(aged);
            assert(0 <= sel < aged.len());
            assert(sel as int == if aged.len() == 1 {
                0int
            } else {
                oldest_unpaused(aged)
            });
        }
        {
            let t = &mut self.tasks[sel];
            t.age();
        }
        proof {
            assert(self.tasks@ =~= aged.update(sel as int, decayed(aged[sel as int])));
        }
        current.reset();
        self.tasks.push(current);
        let ghost pre_sort = self.tasks@;
        proof {
            assert(pre_sort =~= aged.update(sel as int, decayed(aged[sel as int])).push(
                reset_to_base(so[0]),
            ));
            assert forall|k: int| 0 <= k < pre_sort.len() implies wf_task(
                #[trigger] pre_sort[k],
            ) by {
                if k < aged.len() {
                    assert(wf_task(rest[k]));
                }
            }
        }
        crate::order::sort_tasks(&mut self.tasks);
        proof {
            lemma_sort_spec_len(pre_sort);
            lemma_sort_spec_wf(pre_sort);
            assert(self.tasks@ == step_result(s0));
        }
        true
    }

    /// Completes the most urgent task: it is removed for good, every
    /// remaining task ages by one step, and the longest-waiting remaining
    /// task — here paused or not — has its priority boosted one step.
    /// A write is asked for whenever the collection was non-empty.
    pub fn step_and_finish(&mut self) -> (persist: bool)
        requires
            wf_tasks(old(self).tasks@),
            ages_within(old(self).tasks@),
        ensures
            wf_tasks(final(self).tasks@),
            old(self).tasks@.len() == 0 ==> final(self).tasks@ == old(self).tasks@ && !persist,
            old(self).tasks@.len() == 1 ==> final(self).tasks@ == Seq::<Task>::empty() && persist,
            old(self).tasks@.len() >= 2 ==> final(self).tasks@ == finish_result(old(self).tasks@)
                && persist,
            old(self).tasks@.len() > 0 ==> final(self).tasks@.len() == old(self).tasks@.len() - 1,
    {
        let ghost s0 = self.tasks@;
        let n = self.tasks.len();
        if n == 0 {
            return false;
        }
        crate::order::sort_tasks(&mut self.tasks);
        let ghost so = self.tasks@;
        proof {
            lemma_sort_spec_len(s0);
            lemma_sort_spec_wf(s0);
            lemma_sort_spec_ages(s0);
        }
        self.tasks.remove(0);
        let ghost rest = self.tasks@;
        proof {
            assert(rest =~= so.drop_first());
            assert forall|k: int| 0 <= k < rest.len() implies wf_task(#[trigger] rest[k])
                && rest[k].age < u32::MAX by {
                assert(rest[k] == so[k + 1]);
            }
        }
        if self.tasks.is_empty() {
            return true;
        }
        bump_all_ages(&mut self.tasks);
        let ghost aged = self.tasks@;
        proof {
            lemma_oldest_any_props(aged);
        }
        let sel = find_oldest_any(&self.tasks);
        {
            let t = &mut self.tasks[sel];
            t.age();
        }
        let ghost pre_sort = self.tasks@;
        proof {
            assert(pre_sort =~= aged.update(sel as int, decayed(aged[sel as int])));
            assert forall|k: int| 0 <= k < pre_sort.len() implies wf_task(
                #[trigger] pre_sort[k],
            ) by {
                assert(wf_task(rest[k]));
            }
        }
        crate::order::sort_tasks(&mut self.tasks);
        proof {
            lemma_sort_spec_len(pre_sort);
            lemma_sort_spec_wf(pre_sort);
            assert(self.tasks@ == finish_result(s0));
        }
        true
    }

    /// Appends the task, re-sorts, and asks for a write.
    pub fn add(&mut self, task: Task) -> (persist: bool)
        requires
            wf_tasks(old(self).tasks@),
            wf_task(task),
        ensures
            final(self).tasks@ == sort_spec(old(self).tasks@.push(task)),
            final(self).tasks@.len() == old(self).tasks@.len() + 1,
            wf_tasks(final(self).tasks@),
            persist,
    {
        let ghost orig = self.tasks@;
        self.tasks.push(task);
        crate::order::sort_tasks(&mut self.tasks);
        proof {
            lemma_sort_spec_len(orig.push(task));
            assert forall|i: int| 0 <= i < orig.push(task).len() implies wf_task(
                orig.push(task)[i],
            ) by {}
            lemma_sort_spec_wf(orig.push(task));
        }
        true
    }

    /// Removes the first task value-equal to the argument. A write is
    /// asked for when a task was removed — and, a deliberate quirk, also
    /// when the collection was empty to begin with; a fruitless search
    /// through a non-empty collection asks for none.
    pub fn remove(&mut self, task: Task) -> (persist: bool)
        requires
            wf_tasks(old(self).tasks@),
        ensures
            first_match(old(self).tasks@, task) >= 0 ==> final(self).tasks@ == old(
                self,
            ).tasks@.remove(first_match(old(self).tasks@, task)) && persist,
            first_match(old(self).tasks@, task) == -1 ==> final(self).tasks@ == old(self).tasks@
                && (persist <==> old(self).tasks@.len() == 0),
            wf_tasks(final(self).tasks@),
    {
        let ghost orig = self.tasks@;
        let n = self.tasks.len();
        let mut i: usize = 0;
        while i < n
            invariant
                i <= n,
                n == self.tasks@.len(),
                orig == old(self).tasks@,
                self.tasks@ == orig,
                wf_tasks(orig),
                forall|k: int| 0 <= k < i ==> !same_task(#[trigger] orig[k], task),
            decreases n - i,
        {
            if self.tasks[i] == task {
                proof {
                    lemma_first_match_unique(orig, task, i as int);
                }
                self.tasks.remove(i);
                proof {
                    orig.remove_ensures(i as int);
                    assert forall|k: int| 0 <= k < orig.remove(i as int).len() implies wf_task(
                        orig.remove(i as int)[k],
                    ) by {
                        if k < i {
                            assert(orig.remove(i as int)[k] == orig[k]);
                        } else {
                            assert(orig.remove(i as int)[k] == orig[k + 1]);
                        }
                    }
                }
                return true;
            }
            i += 1;
        }
        proof {
            lemma_first_match_unique(orig, task, n as int);
        }
        self.tasks.is_empty()
    }

    /// Flips the pause flag of every task value-equal to the argument —
    /// every one, not just the first — and always asks for a write.
    pub fn toggle_pause(&mut self, task: &Task) -> (persist: bool)
        requires
            wf_tasks(old(self).tasks@),
        ensures
            final(self).tasks@ == toggle_all(old(self).tasks@, *task),
            final(self).tasks@.len() == old(self).tasks@.len(),
            wf_tasks(final(self).tasks@),
            persist,
    {
        let ghost orig = self.tasks@;
        let n = self.tasks.len();
        let mut i: usize = 0;
        while i < n
            invariant
                i <= n,
                n == self.tasks@.len(),
                self.tasks@.len() == orig.len(),
                forall|k: int| 0 <= k < i ==> self.tasks@[k] == toggled(#[trigger] orig[k], *task),
                forall|k: int| i <= k < n ==> #[trigger] self.tasks@[k] == orig[k],
            decreases n - i,
        {
            if *task == self.tasks[i] {
                let t = &mut self.tasks[i];
                t.paused = !t.paused;
            }
            i += 1;
        }
        proof {
            assert(self.tasks@ =~= toggle_all(orig, *task));
        }
        true
    }

    /// Brings the stored sequence up to date as of moment `now_ts` and
    /// re-sorts exactly when some base priority changed.
    pub fn load_at(stored: Vec<Task>, now_ts: i64) -> (r: Tasks)
        requires
            wf_tasks(stored@),
        ensures
            r.tasks@ == load_spec(stored@, now_ts as int),
            r.tasks@.len() == stored@.len(),
            wf_tasks(r.tasks@),
    {
        let ghost orig = stored@;
        let mut tasks = stored;
        let mut modified: bool = false;
        let n = tasks.len();
        let mut i: usize = 0;
        while i < n
            invariant
                i <= n,
                n == tasks@.len(),
                tasks@.len() == orig.len(),
                wf_tasks(orig),
                modified <==> (exists|k: int|
                    0 <= k < i && base_changed(#[trigger] orig[k], now_ts as int)),
                forall|k: int|
                    0 <= k < i ==> tasks@[k] == tightened(#[trigger] orig[k], now_ts as int),
                forall|k: int| i <= k < n ==> #[trigger] tasks@[k] == orig[k],
            decreases n - i,
        {
            let t = &mut tasks[i];
            match t.deadline {
                Some(d) => {
                    let bp = Task::priority_from_deadline(now_ts, d);
                    if t.base_priority != bp {
                        modified = true;
                    }
                    t.base_priority = bp;
                    if t.priority > bp {
                        t.priority = bp;
                    }
                },
                None => {},
            }
            i += 1;
        }
        proof {
            assert(tasks@ =~= tighten_all(orig, now_ts as int));
            assert(modified <==> any_base_changed(orig, now_ts as int));
            assert forall|k: int| 0 <= k < tighten_all(orig, now_ts as int).len() implies wf_task(
                tighten_all(orig, now_ts as int)[k],
            ) by {}
        }
        if modified {
            crate::order::sort_tasks(&mut tasks);
            proof {
                lemma_sort_spec_len(tighten_all(orig, now_ts as int));
                lemma_sort_spec_wf(tighten_all(orig, now_ts as int));
            }
        }
        Tasks { tasks }
    }

    /// Brings the stored sequence up to date as of now. Which moment the
    /// clock returns is outside this library's control, so the contract
    /// holds for every value of it.
    pub fn load(stored: Vec<Task>) -> (r: Tasks)
        requires
            wf_tasks(stored@),
        ensures
            exists|now_ts: int| r.tasks@ == load_spec(stored@, now_ts),
            r.tasks@.len() == stored@.len(),
            wf_tasks(r.tasks@),
    {
        let now = clock::now_timestamp();
        let r = Tasks::load_at(stored, now);
        proof {
            assert(r.tasks@ == load_spec(stored@, now as int));
        }
        r
    }
}

} // verus!
