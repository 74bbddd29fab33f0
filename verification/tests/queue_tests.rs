use zephyr::config::CommandConfig;
use zephyr::queue::{ScheduledCommand, ScheduledQueue};
use zephyr::time::Timestamp;

fn command(name: &str) -> CommandConfig {
    CommandConfig {
        name: name.to_string(),
        command: "echo test".to_string(),
        interval_millis: Some(60_000),
        cron: None,
        max_runtime_minutes: None,
        enabled: true,
        working_dir: None,
        environment: None,
        immediate: false,
    }
}

fn entry(name: &str, millis: i64) -> ScheduledCommand {
    ScheduledCommand { command: command(name), next_run: Timestamp::from_millis(millis).unwrap() }
}

fn names(entries: &Vec<ScheduledCommand>) -> Vec<String> {
    entries.iter().map(|e| e.command.name.clone()).collect()
}

#[test]
fn new_queue_is_empty() {
    let mut q = ScheduledQueue::new();
    assert!(q.is_empty());
    assert_eq!(q.len(), 0);
    assert!(q.peek().is_none());
    assert!(q.pop().is_none());
    assert!(q.drain_all().is_empty());
}

#[test]
fn pop_hands_out_the_earliest() {
    let mut q = ScheduledQueue::new();
    q.push(entry("c", 300));
    q.push(entry("a", 100));
    q.push(entry("d", 400));
    q.push(entry("b", 200));
    assert_eq!(q.len(), 4);
    assert_eq!(q.peek().unwrap().command.name, "a");
    assert_eq!(q.len(), 4);
    let order: Vec<(String, i64)> = std::iter::from_fn(|| q.pop())
        .map(|e| (e.command.name, e.next_run.millis()))
        .collect();
    assert_eq!(
        order,
        vec![
            ("a".to_string(), 100),
            ("b".to_string(), 200),
            ("c".to_string(), 300),
            ("d".to_string(), 400)
        ]
    );
    assert!(q.is_empty());
}

#[test]
fn pop_returns_the_minimum_of_random_times() {
    let mut seed: u64 = 0x2545_F491_4F6C_DD1D;
    for round in 0..50 {
        let mut q = ScheduledQueue::new();
        let mut held: Vec<i64> = Vec::new();
        for i in 0..(round + 1) {
            seed = seed.wrapping_mul(6364136223846793005).wrapping_add(1442695040888963407);
            let t = ((seed >> 33) % 1_000_000) as i64 - 500_000;
            q.push(entry(&format!("job{}", i), t));
            held.push(t);
            // pop now and then, so that pushes and pops interleave
            if seed % 5 == 0 {
                let min = *held.iter().min().unwrap();
                let popped = q.pop().unwrap();
                assert_eq!(popped.next_run.millis(), min);
                let at = held.iter().position(|x| *x == min).unwrap();
                held.remove(at);
            }
        }
        while !held.is_empty() {
            let min = *held.iter().min().unwrap();
            assert_eq!(q.peek().unwrap().next_run.millis(), min);
            assert_eq!(q.pop().unwrap().next_run.millis(), min);
            let at = held.iter().position(|x| *x == min).unwrap();
            held.remove(at);
        }
        assert!(q.pop().is_none());
    }
}

#[test]
fn entries_due_at_the_same_time_leave_in_the_order_they_came() {
    let mut q = ScheduledQueue::new();
    q.push(entry("first", 100));
    q.push(entry("second", 100));
    q.push(entry("third", 100));
    q.push(entry("early", 50));
    assert_eq!(names(&q.drain_all()), vec!["early", "first", "second", "third"]);
}

#[test]
fn push_of_a_name_that_is_pending_replaces_the_entry() {
    let mut q = ScheduledQueue::new();
    q.push(entry("a", 100));
    q.push(entry("b", 200));
    q.push(entry("a", 300));
    assert_eq!(q.len(), 2);
    assert_eq!(q.find(&"a".to_string()).unwrap().next_run.millis(), 300);
    let all = q.drain_all();
    assert_eq!(names(&all), vec!["b", "a"]);
}

#[test]
fn one_entry_per_name_after_any_operations() {
    let mut seed: u64 = 42;
    let mut q = ScheduledQueue::new();
    for _ in 0..2_000 {
        seed = seed.wrapping_mul(6364136223846793005).wrapping_add(1442695040888963407);
        let name = format!("job{}", (seed >> 40) % 12);
        let t = ((seed >> 20) % 1_000) as i64;
        match seed % 4 {
            0 => {
                q.pop();
            }
            1 if seed % 64 == 1 => {
                q.take_due_before(Timestamp::from_millis(t).unwrap());
            }
            _ => q.push(entry(&name, t)),
        }
        assert!(q.len() <= 12);
        let mut copy = ScheduledQueue::new();
        let all = q.drain_all();
        let mut seen: Vec<String> = Vec::new();
        let mut last = i64::MIN;
        for e in all {
            assert!(!seen.contains(&e.command.name));
            assert!(last <= e.next_run.millis());
            last = e.next_run.millis();
            seen.push(e.command.name.clone());
            copy.push(e);
        }
        q = copy;
    }
}

#[test]
fn find_looks_for_the_name() {
    let mut q = ScheduledQueue::new();
    q.push(entry("a", 100));
    q.push(entry("b", 200));
    assert_eq!(q.find(&"b".to_string()).unwrap().next_run.millis(), 200);
    assert!(q.find(&"c".to_string()).is_none());
    assert!(q.find(&"".to_string()).is_none());
}

#[test]
fn take_due_before_splits_at_the_instant() {
    let mut q = ScheduledQueue::new();
    q.push(entry("a", 100));
    q.push(entry("b", 200));
    q.push(entry("c", 200));
    q.push(entry("d", 300));
    let due = q.take_due_before(Timestamp::from_millis(200).unwrap());
    assert_eq!(names(&due), vec!["a"]);
    assert_eq!(q.len(), 3);
    let due = q.take_due_before(Timestamp::from_millis(201).unwrap());
    assert_eq!(names(&due), vec!["b", "c"]);
    let due = q.take_due_before(Timestamp::from_millis(201).unwrap());
    assert!(due.is_empty());
    assert_eq!(names(&q.drain_all()), vec!["d"]);
}

#[test]
fn drain_all_empties_the_queue() {
    let mut q = ScheduledQueue::new();
    q.push(entry("b", 200));
    q.push(entry("a", 100));
    let all = q.drain_all();
    assert_eq!(names(&all), vec!["a", "b"]);
    assert_eq!(all[0].next_run.millis(), 100);
    assert_eq!(all[1].next_run.millis(), 200);
    assert!(q.is_empty());
    assert!(q.peek().is_none());
    q.push(entry("c", 50));
    assert_eq!(q.len(), 1);
}

#[test]
fn scheduled_command_clone_keeps_the_entry() {
    let e = entry("a", 100);
    let copy = e.clone();
    assert_eq!(copy.command.name, "a");
    assert_eq!(copy.next_run, e.next_run);
}

#[test]
fn pushes_in_any_order_pop_in_due_order() {
    let times = [500, 100, 300, 100, 400, 300, 200, 100];
    // every rotation of the same entries gives the same pops
    for shift in 0..times.len() {
        let mut q = ScheduledQueue::new();
        for i in 0..times.len() {
            let at = (i + shift) % times.len();
            q.push(entry(&format!("job{}", at), times[at]));
        }
        assert_eq!(q.len(), times.len());
        let mut popped: Vec<(i64, String)> = Vec::new();
        for _ in 0..times.len() {
            let e = q.pop().unwrap();
            popped.push((e.next_run.millis(), e.command.name));
        }
        assert!(q.pop().is_none());
        let out: Vec<i64> = popped.iter().map(|p| p.0).collect();
        assert_eq!(out, vec![100, 100, 100, 200, 300, 300, 400, 500]);
        let mut names: Vec<String> = popped.into_iter().map(|p| p.1).collect();
        names.sort();
        let expected: Vec<String> = (0..times.len()).map(|i| format!("job{}", i)).collect();
        assert_eq!(names, expected);
    }
}
