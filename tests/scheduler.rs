use fair_scheduler::FairScheduler;
use fair_scheduler::Task;

fn bits(p: f32) -> u32 {
    p.to_bits()
}

#[test]
fn fair_scheduler_test_add_task() {
    let mut fs: FairScheduler = FairScheduler::new(100);
    fs.add_task("user1".to_string(), "1".to_string(), bits(0.3));

    let test_task = Task::new("1".to_string(), "user1".to_string(), bits(0.3));
    let final_task_list = fs.run_cycle(0);
    assert_eq!(final_task_list[0], test_task);
}

#[test]
fn lib_test_add_task() {
    let mut fs: FairScheduler = FairScheduler::new(100);
    let user_id = "user1";
    let task_id = "task1";
    fs.add_task(user_id.to_string(), task_id.to_string(), bits(0.3));

    let test_task = Task::new(task_id.to_string(), user_id.to_string(), bits(0.3));

    let final_task_list = fs.run_cycle(0);
    assert_eq!(final_task_list[0], test_task);
}

#[test]
fn test_all_users_equal() {
    let n: usize = 25;

    let mut fs: FairScheduler = FairScheduler::new(n);

    for i in 0..25 {
        let user_id = format!("user{}", i);
        fs.add_task(user_id, i.to_string(), bits(0.5));
    }
    for i in 25..50 {
        let user_id = format!("user{}", i);
        fs.add_task(user_id, i.to_string(), bits(0.5));
    }
    for i in 50..100 {
        let user_id = format!("user{}", i);
        fs.add_task(user_id, i.to_string(), bits(0.5));
    }

    let output_task_list = fs.run_cycle(0);
    assert_eq!(output_task_list.len(), 25);

    // After one cycle, 25 tasks are done.
    let mut count_not_done = 0;
    for i in 0..100 {
        let user_id = format!("user{}", i);
        if fs.get_cycles_waiting_for_user(&user_id) == 1 {
            assert_eq!(fs.get_pending_for_user(&user_id), 1);
            count_not_done += 1;
        }
    }
    assert_eq!(count_not_done, 75);

    fs.run_cycle(0);

    count_not_done = 0;
    for i in 0..100 {
        let user_id = format!("user{}", i);
        if fs.get_cycles_waiting_for_user(&user_id) == 2 {
            assert_eq!(fs.get_pending_for_user(&user_id), 1);
            count_not_done += 1;
        }
    }
    assert_eq!(count_not_done, 50);
}

#[test]
fn test_one_user_heavy() {
    let big_n: usize = 25;
    let mut fs: FairScheduler = FairScheduler::new(big_n);

    for i in 1..big_n {
        let user_id = format!("user{}", i);
        fs.add_task(user_id, i.to_string(), bits(0.5));
    }

    for i in 0..50 {
        let user_id = format!("user0");
        fs.add_task(user_id, i.to_string(), bits(0.5));
    }

    fs.add_task("user2".to_string(), "10000".to_string(), bits(0.5));

    fs.run_cycle(0);

    assert_eq!(fs.get_task_list_for_user("user0").unwrap().len(), 49);
    assert_eq!(fs.get_task_list_for_user("user1").unwrap().len(), 0);
    assert_eq!(fs.get_task_list_for_user("user2").unwrap().len(), 1);
    assert_eq!(fs.get_task_list_for_user("user15").unwrap().len(), 0);

    fs.run_cycle(0);
    assert_eq!(fs.get_task_list_for_user("user0").unwrap().len(), 25);
    assert_eq!(fs.get_task_list_for_user("user2").unwrap().len(), 0);
    assert_eq!(fs.get_current_task_count(), 25);
}

#[test]
fn one_task_is_dispatched_whole() {
    let mut fs = FairScheduler::new(100);
    fs.add_task("alice".to_string(), "t1".to_string(), bits(1.0));
    let out = fs.run_cycle(0);
    assert_eq!(out.len(), 1);
    assert_eq!(out[0].task_id, "t1");
    assert_eq!(out[0].get_user_id(), "alice");
    assert_eq!(out[0].priority_bits, bits(1.0));
    assert_eq!(fs.get_current_task_count(), 0);
}

#[test]
fn partial_budget_ages_the_unserved() {
    let mut fs = FairScheduler::new(25);
    for i in 0..25 {
        fs.add_task(format!("u{}", i), format!("t{}", i), bits(0.5));
    }
    let out = fs.run_cycle(10);
    assert_eq!(out.len(), 15);
    assert_eq!(fs.get_current_task_count(), 10);
    let mut served = 0;
    let mut aged = 0;
    for i in 0..25 {
        let user = format!("u{}", i);
        if fs.get_pending_for_user(&user) == 0 {
            assert_eq!(fs.get_cycles_waiting_for_user(&user), 0);
            served += 1;
        } else {
            assert_eq!(fs.get_cycles_waiting_for_user(&user), 1);
            aged += 1;
        }
    }
    assert_eq!(served, 15);
    assert_eq!(aged, 10);
    // Ties go by lexical order of the user ids: "u10" comes before "u2".
    let mut ids: Vec<String> = (0..25).map(|i| format!("u{}", i)).collect();
    ids.sort();
    for i in 0..15 {
        assert_eq!(out[i].get_user_id(), &ids[i]);
        assert_eq!(fs.get_pending_for_user(&ids[i]), 0);
    }
}

#[test]
fn pending_count_is_conserved() {
    let mut fs = FairScheduler::new(7);
    let mut submitted = 0usize;
    let mut dispatched = 0usize;
    for round in 0..20usize {
        for u in 0..(round % 4) {
            fs.add_task(format!("u{}", u), format!("r{}u{}", round, u), bits(0.0));
            submitted += 1;
        }
        let out = fs.run_cycle(round % 9);
        dispatched += out.len();
        assert_eq!(fs.get_current_task_count(), submitted - dispatched);
    }
}

#[test]
fn batch_never_exceeds_budget_or_backlog() {
    let mut fs = FairScheduler::new(10);
    for i in 0..30 {
        fs.add_task(format!("u{}", i % 3), format!("t{}", i), bits(0.5));
    }
    assert_eq!(fs.run_cycle(4).len(), 6);
    assert_eq!(fs.get_current_task_count(), 24);
    assert_eq!(fs.run_cycle(0).len(), 10);
    assert_eq!(fs.run_cycle(0).len(), 10);
    assert_eq!(fs.run_cycle(0).len(), 4);
    assert_eq!(fs.get_current_task_count(), 0);
}

#[test]
fn usage_above_capacity_gives_nothing_and_changes_nothing() {
    let mut fs = FairScheduler::new(5);
    fs.add_task("a".to_string(), "1".to_string(), bits(0.5));
    fs.add_task("b".to_string(), "2".to_string(), bits(0.5));
    assert_eq!(fs.run_cycle(9).len(), 0);
    assert_eq!(fs.run_cycle(5).len(), 0);
    assert_eq!(fs.get_current_task_count(), 2);
    assert_eq!(fs.get_cycles_waiting_for_user("a"), 0);
    assert_eq!(fs.get_cycles_waiting_for_user("b"), 0);
    assert_eq!(fs.run_cycle(usize::MAX).len(), 0);
}

#[test]
fn empty_dispatcher_dispatches_nothing() {
    let mut fs = FairScheduler::new(3);
    assert_eq!(fs.run_cycle(0).len(), 0);
    assert_eq!(fs.run_cycle(2).len(), 0);
    assert_eq!(fs.run_cycle(7).len(), 0);
    assert_eq!(fs.get_current_task_count(), 0);
    fs.add_task("a".to_string(), "1".to_string(), bits(0.5));
    assert_eq!(fs.run_cycle(0).len(), 1);
    assert_eq!(fs.run_cycle(0).len(), 0);
    assert_eq!(fs.get_cycles_waiting_for_user("a"), 0);
}

#[test]
fn tasks_of_one_user_leave_in_submission_order() {
    let mut fs = FairScheduler::new(3);
    for i in 0..8 {
        fs.add_task("solo".to_string(), format!("t{}", i), bits(0.5));
    }
    let mut seen: Vec<String> = Vec::new();
    while fs.get_current_task_count() > 0 {
        for t in fs.run_cycle(0) {
            seen.push(t.task_id.clone());
        }
    }
    let expected: Vec<String> = (0..8).map(|i| format!("t{}", i)).collect();
    assert_eq!(seen, expected);
}

#[test]
fn rounds_spread_load_before_second_helpings() {
    let mut fs = FairScheduler::new(5);
    for i in 0..3 {
        fs.add_task("a".to_string(), format!("a{}", i), bits(0.5));
        fs.add_task("b".to_string(), format!("b{}", i), bits(0.5));
    }
    fs.add_task("c".to_string(), "c0".to_string(), bits(0.5));
    let out = fs.run_cycle(0);
    let ids: Vec<String> = out.iter().map(|t| t.task_id.clone()).collect();
    assert_eq!(ids, vec!["a0", "b0", "c0", "a1", "b1"]);
    assert_eq!(fs.get_pending_for_user("a"), 1);
    assert_eq!(fs.get_pending_for_user("b"), 1);
    assert_eq!(fs.get_pending_for_user("c"), 0);
}

#[test]
fn uniform_load_serves_distinct_users() {
    let mut fs = FairScheduler::new(4);
    for u in 0..10 {
        for t in 0..5 {
            fs.add_task(format!("u{}", u), format!("u{}t{}", u, t), bits(0.5));
        }
    }
    let out = fs.run_cycle(0);
    let ids: Vec<String> = out.iter().map(|t| t.task_id.clone()).collect();
    assert_eq!(ids, vec!["u0t0", "u1t0", "u2t0", "u3t0"]);
    for u in 0..10 {
        let user = format!("u{}", u);
        if u < 4 {
            assert_eq!(fs.get_pending_for_user(&user), 4);
            assert_eq!(fs.get_cycles_waiting_for_user(&user), 0);
        } else {
            assert_eq!(fs.get_pending_for_user(&user), 5);
            assert_eq!(fs.get_cycles_waiting_for_user(&user), 1);
        }
    }
    // The next cycle goes to the users that waited.
    let out = fs.run_cycle(0);
    let ids: Vec<String> = out.iter().map(|t| t.task_id.clone()).collect();
    assert_eq!(ids, vec!["u4t0", "u5t0", "u6t0", "u7t0"]);
}

#[test]
fn a_waiting_user_is_not_starved() {
    // One slot per cycle; "late" always has work, while a new user with
    // fresh work arrives every cycle.
    let mut fs = FairScheduler::new(1);
    fs.add_task("a".to_string(), "a0".to_string(), bits(0.5));
    fs.add_task("b".to_string(), "b0".to_string(), bits(0.5));
    for i in 0..5 {
        fs.add_task("late".to_string(), format!("l{}", i), bits(0.5));
    }
    let mut cycles = 0;
    loop {
        fs.add_task(format!("new{}", cycles), "n".to_string(), bits(0.5));
        let out = fs.run_cycle(0);
        cycles += 1;
        if out[0].get_user_id() == "late" {
            break;
        }
        assert!(cycles < 4);
    }
    assert_eq!(fs.get_cycles_waiting_for_user("late"), 0);
}

#[test]
fn unknown_user_reads_as_empty() {
    let fs = FairScheduler::new(3);
    assert!(fs.get_task_list_for_user("nobody").is_none());
    assert_eq!(fs.get_pending_for_user("nobody"), 0);
    assert_eq!(fs.get_cycles_waiting_for_user("nobody"), 0);
}

#[test]
fn task_equality_uses_id_and_priority() {
    let a = Task::new("x".to_string(), "u1".to_string(), bits(0.5));
    let b = Task::new("x".to_string(), "u2".to_string(), bits(0.5));
    let c = Task::new("x".to_string(), "u1".to_string(), bits(0.25));
    let d = Task::new("y".to_string(), "u1".to_string(), bits(0.5));
    assert!(a == b);
    assert!(a != c);
    assert!(a != d);
}

fn run_history(order: &[(&str, &str)], capacity: usize, usage: usize) -> (Vec<String>, FairScheduler) {
    let mut fs = FairScheduler::new(capacity);
    for (user, task) in order {
        fs.add_task(user.to_string(), task.to_string(), bits(0.5));
    }
    let out = fs.run_cycle(usage);
    (out.iter().map(|t| t.task_id.clone()).collect(), fs)
}

#[test]
fn submission_order_across_users_does_not_matter() {
    let (out1, fs1) = run_history(&[("a", "a0"), ("bb", "b0")], 1, 0);
    let (out2, fs2) = run_history(&[("bb", "b0"), ("a", "a0")], 1, 0);
    assert_eq!(out1, vec!["a0"]);
    assert_eq!(out1, out2);
    for user in ["a", "bb"] {
        assert_eq!(fs1.get_cycles_waiting_for_user(user), fs2.get_cycles_waiting_for_user(user));
        assert_eq!(fs1.get_pending_for_user(user), fs2.get_pending_for_user(user));
    }

    let h1 = [("zed", "z0"), ("amy", "a0"), ("zed", "z1"), ("max", "m0"), ("amy", "a1")];
    let h2 = [("max", "m0"), ("amy", "a0"), ("zed", "z0"), ("amy", "a1"), ("zed", "z1")];
    let (out1, _) = run_history(&h1, 4, 0);
    let (out2, _) = run_history(&h2, 4, 0);
    assert_eq!(out1, vec!["a0", "m0", "z0", "a1"]);
    assert_eq!(out1, out2);
}

#[test]
fn priority_equality_follows_float_equality() {
    let pos = Task::new("x".to_string(), "u".to_string(), bits(0.0));
    let neg = Task::new("x".to_string(), "u".to_string(), bits(-0.0));
    assert!(pos == neg);
    let nan = Task::new("x".to_string(), "u".to_string(), bits(f32::NAN));
    let nan2 = Task::new("x".to_string(), "u".to_string(), bits(f32::NAN));
    assert!(nan != nan2);
    assert!(nan != pos);
    let one = Task::new("x".to_string(), "u".to_string(), bits(1.0));
    assert!(one == Task::new("x".to_string(), "v".to_string(), bits(1.0)));
    assert!(one != pos);
}
