use nasin::scheduler::Tasks;
use nasin::task::Task;

fn plain(name: &str, priority: u8, age: u32, paused: bool) -> Task {
    Task {
        name: String::from(name),
        priority,
        paused,
        deadline: None,
        age,
        base_priority: priority,
    }
}

fn all_priorities_at_least_one(c: &Tasks) -> bool {
    c.tasks.iter().all(|t| t.priority >= 1 && t.base_priority >= 1)
}

#[test]
fn step_scenario_equal_priorities() {
    // A and B tie on priority; B has waited longer, so B sorts first and
    // is the one serviced (removed and reset), while A is boosted.
    let a = plain("A", 3, 0, false);
    let b = plain("B", 3, 5, false);
    let mut c = Tasks { tasks: vec![a, b] };
    let persist = c.step();
    assert!(persist);
    assert_eq!(c.tasks.len(), 2);
    // A was the only remaining task: aged to 1, then decayed to priority 2
    // with its wait ended; B came back at its baseline.
    assert_eq!(c.tasks[0].name, "A");
    assert_eq!(c.tasks[0].priority, 2);
    assert_eq!(c.tasks[0].age, 0);
    assert_eq!(c.tasks[0].base_priority, 3);
    assert_eq!(c.tasks[1].name, "B");
    assert_eq!(c.tasks[1].priority, 3);
    assert_eq!(c.tasks[1].age, 0);
    assert!(all_priorities_at_least_one(&c));
}

#[test]
fn step_empty_is_noop_without_persist() {
    let mut c = Tasks::new();
    assert!(!c.step());
    assert_eq!(c.tasks.len(), 0);
}

#[test]
fn step_single_task_changes_nothing() {
    let mut c = Tasks { tasks: vec![plain("only", 3, 2, false)] };
    assert!(!c.step());
    assert_eq!(c.tasks.len(), 1);
    assert_eq!(c.tasks[0].priority, 3);
    assert_eq!(c.tasks[0].age, 2);
}

#[test]
fn step_all_remaining_paused_changes_nothing() {
    let a = plain("a", 1, 0, false);
    let b = plain("b", 2, 3, true);
    let c3 = plain("c", 3, 1, true);
    let mut c = Tasks { tasks: vec![a, b, c3] };
    assert!(!c.step());
    assert_eq!(c.tasks.len(), 3);
    // merely sorted; no field of any task moved
    assert_eq!(c.tasks[0].name, "a");
    assert_eq!(c.tasks[0].age, 0);
    assert_eq!(c.tasks[1].name, "b");
    assert_eq!(c.tasks[1].age, 3);
    assert_eq!(c.tasks[2].name, "c");
    assert_eq!(c.tasks[2].age, 1);
}

#[test]
fn step_with_two_tasks_picks_the_other_even_paused() {
    let a = plain("a", 1, 0, false);
    let b = plain("b", 5, 0, true);
    let mut c = Tasks { tasks: vec![a, b] };
    assert!(c.step());
    assert_eq!(c.tasks.len(), 2);
    assert_eq!(c.tasks[0].name, "a");
    assert_eq!(c.tasks[0].priority, 1);
    assert_eq!(c.tasks[0].age, 0);
    // b was selected, but paused tasks do not decay: it only aged
    assert_eq!(c.tasks[1].name, "b");
    assert_eq!(c.tasks[1].priority, 5);
    assert_eq!(c.tasks[1].age, 1);
    assert!(c.tasks[1].paused);
}

#[test]
fn step_boosts_longest_waiting_and_keeps_count() {
    let x = plain("x", 1, 0, false);
    let y = plain("y", 2, 4, false);
    let z = plain("z", 3, 1, false);
    let mut c = Tasks { tasks: vec![x, y, z] };
    assert!(c.step());
    assert_eq!(c.tasks.len(), 3);
    // y had waited longest: decayed to priority 1 with its wait ended; it
    // entered the pool before x's reinsertion, so the tie is y first.
    assert_eq!(c.tasks[0].name, "y");
    assert_eq!(c.tasks[0].priority, 1);
    assert_eq!(c.tasks[0].age, 0);
    assert_eq!(c.tasks[1].name, "x");
    assert_eq!(c.tasks[1].priority, 1);
    assert_eq!(c.tasks[1].age, 0);
    assert_eq!(c.tasks[2].name, "z");
    assert_eq!(c.tasks[2].priority, 3);
    assert_eq!(c.tasks[2].age, 2);
    assert!(all_priorities_at_least_one(&c));
}

#[test]
fn step_and_finish_removes_current_for_good() {
    let x = plain("x", 1, 0, false);
    let y = plain("y", 2, 4, false);
    let z = plain("z", 3, 1, false);
    let mut c = Tasks { tasks: vec![x, y, z] };
    assert!(c.step_and_finish());
    assert_eq!(c.tasks.len(), 2);
    assert!(c.tasks.iter().all(|t| t.name != "x"));
    assert_eq!(c.tasks[0].name, "y");
    assert_eq!(c.tasks[0].priority, 1);
    assert_eq!(c.tasks[0].age, 0);
    assert_eq!(c.tasks[1].name, "z");
    assert_eq!(c.tasks[1].age, 2);
}

#[test]
fn step_and_finish_selects_paused_tasks_too() {
    let a = plain("a", 1, 0, false);
    let b = plain("b", 2, 4, true);
    let z = plain("z", 3, 1, false);
    let mut c = Tasks { tasks: vec![a, b, z] };
    assert!(c.step_and_finish());
    assert_eq!(c.tasks.len(), 2);
    // b, though paused, was the one selected; paused tasks do not decay,
    // so it kept its aged wait and its priority.
    assert_eq!(c.tasks[0].name, "b");
    assert_eq!(c.tasks[0].priority, 2);
    assert_eq!(c.tasks[0].age, 5);
    assert_eq!(c.tasks[1].name, "z");
    assert_eq!(c.tasks[1].age, 2);
}

#[test]
fn step_and_finish_empty_and_singleton() {
    let mut c = Tasks::new();
    assert!(!c.step_and_finish());
    assert_eq!(c.tasks.len(), 0);

    let mut c = Tasks { tasks: vec![plain("only", 3, 2, false)] };
    assert!(c.step_and_finish());
    assert_eq!(c.tasks.len(), 0);
}

#[test]
fn add_sorts_and_allows_duplicates() {
    let mut c = Tasks::new();
    assert!(c.add(Task::new(String::from("slow"), 4, None)));
    assert!(c.add(Task::new(String::from("quick"), 1, None)));
    assert!(c.add(Task::new(String::from("quick"), 1, None)));
    assert_eq!(c.tasks.len(), 3);
    assert_eq!(c.tasks[0].name, "quick");
    assert_eq!(c.tasks[1].name, "quick");
    assert_eq!(c.tasks[2].name, "slow");
}

#[test]
fn add_keeps_tied_tasks_in_order() {
    // three tasks the ordering rule ties, in a known order, plus one that
    // sorts behind them; the sort triggered by add must not swap the tied
    // ones.
    let first = plain("first", 3, 2, false);
    let second = plain("second", 3, 2, false);
    let third = plain("third", 3, 2, false);
    let back = plain("back", 5, 0, false);
    let mut c = Tasks { tasks: vec![first, second, third, back] };
    assert!(c.add(plain("front", 1, 0, false)));
    assert_eq!(c.tasks.len(), 5);
    assert_eq!(c.tasks[0].name, "front");
    assert_eq!(c.tasks[1].name, "first");
    assert_eq!(c.tasks[2].name, "second");
    assert_eq!(c.tasks[3].name, "third");
    assert_eq!(c.tasks[4].name, "back");
}

#[test]
fn remove_on_empty_still_persists() {
    let mut c = Tasks::new();
    assert!(c.remove(plain("ghost", 1, 0, false)));
    assert_eq!(c.tasks.len(), 0);
}

#[test]
fn remove_without_match_in_non_empty_does_not_persist() {
    let mut c = Tasks { tasks: vec![plain("keep", 2, 0, false)] };
    assert!(!c.remove(plain("ghost", 1, 0, false)));
    assert_eq!(c.tasks.len(), 1);
}

#[test]
fn remove_takes_only_the_first_match() {
    let twin_a = plain("twin", 2, 0, false);
    let twin_b = plain("twin", 2, 0, false);
    let mut c = Tasks { tasks: vec![twin_a, twin_b] };
    assert!(c.remove(plain("twin", 2, 0, false)));
    assert_eq!(c.tasks.len(), 1);
    assert_eq!(c.tasks[0].name, "twin");
}

#[test]
fn toggle_pause_flips_every_match() {
    let twin_a = plain("twin", 2, 0, false);
    let twin_b = plain("twin", 2, 0, false);
    let other = plain("other", 3, 0, false);
    let mut c = Tasks { tasks: vec![twin_a, twin_b, other] };
    assert!(c.toggle_pause(&plain("twin", 2, 0, false)));
    assert!(c.tasks[0].paused);
    assert!(c.tasks[1].paused);
    assert!(!c.tasks[2].paused);
    // a second toggle matches nothing: the twins' pause flag now differs
    // from the pattern's
    assert!(c.toggle_pause(&plain("twin", 2, 0, false)));
    assert!(c.tasks[0].paused);
    assert!(c.tasks[1].paused);
}

#[test]
fn toggle_pause_without_match_still_persists() {
    let mut c = Tasks { tasks: vec![plain("keep", 2, 0, false)] };
    assert!(c.toggle_pause(&plain("ghost", 1, 0, false)));
    assert!(!c.tasks[0].paused);
}

#[test]
fn load_at_without_deadlines_is_identity() {
    // deliberately unsorted: a load that changes nothing must not re-sort
    let stored = vec![plain("b", 5, 1, false), plain("a", 1, 0, true)];
    let c = Tasks::load_at(stored, 1_000_000);
    assert_eq!(c.tasks.len(), 2);
    assert_eq!(c.tasks[0].name, "b");
    assert_eq!(c.tasks[0].priority, 5);
    assert_eq!(c.tasks[0].age, 1);
    assert_eq!(c.tasks[1].name, "a");
    assert!(c.tasks[1].paused);
}

#[test]
fn load_at_rederives_deadline_priority_and_resorts() {
    let now: i64 = 1_000_000;
    let mut d = plain("due", 3, 0, false);
    d.deadline = Some(now + 10 * 86400);
    let e = plain("easy", 1, 0, false);
    let c = Tasks::load_at(vec![d, e], now);
    assert_eq!(c.tasks.len(), 2);
    // the base priority changed, so the collection was re-sorted
    assert_eq!(c.tasks[0].name, "easy");
    assert_eq!(c.tasks[1].name, "due");
    assert_eq!(c.tasks[1].base_priority, 10);
    // a live priority is only ever lowered at load time
    assert_eq!(c.tasks[1].priority, 3);
}

#[test]
fn load_at_tightens_past_deadline_to_urgent() {
    let now: i64 = 1_000_000;
    let mut d = plain("overdue", 200, 4, false);
    d.base_priority = 200;
    d.deadline = Some(now - 86400);
    let c = Tasks::load_at(vec![d], now);
    assert_eq!(c.tasks[0].base_priority, 1);
    assert_eq!(c.tasks[0].priority, 1);
    assert_eq!(c.tasks[0].age, 4);
    assert!(all_priorities_at_least_one(&c));
}

#[test]
fn load_at_with_matching_base_does_not_resort() {
    let now: i64 = 1_000_000;
    let mut g = plain("g", 5, 0, false);
    g.deadline = Some(now + 5 * 86400);
    // stored base already agrees with the deadline: nothing changes,
    // so the stored (unsorted) order is kept
    let h = plain("h", 1, 0, false);
    let c = Tasks::load_at(vec![g, h], now);
    assert_eq!(c.tasks[0].name, "g");
    assert_eq!(c.tasks[0].priority, 5);
    assert_eq!(c.tasks[0].base_priority, 5);
    assert_eq!(c.tasks[1].name, "h");
}

#[test]
fn load_reads_the_clock() {
    let c = Tasks::load(Vec::new());
    assert_eq!(c.tasks.len(), 0);

    let now = chrono::Local::now().timestamp();
    let mut d = plain("due", 3, 0, false);
    d.deadline = Some(now + 10 * 86400);
    let c = Tasks::load(vec![d]);
    // a moment may pass between the two clock reads
    let bp = c.tasks[0].base_priority;
    assert!(bp == 9 || bp == 10);
}
