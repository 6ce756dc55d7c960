use fair_scheduler::FairScheduler;

/// A small deterministic generator standing in for a random source.
struct Lcg(u64);

impl Lcg {
    fn next_below(&mut self, bound: usize) -> usize {
        self.0 = self.0.wrapping_mul(6364136223846793005).wrapping_add(1442695040888963407);
        ((self.0 >> 33) as usize) % bound
    }
}

fn drain(fs: &mut FairScheduler, system_capacity: usize, rng: &mut Lcg) -> usize {
    let mut cycle_count = 0;
    while fs.get_current_task_count() != 0 || cycle_count == 0 {
        let before = fs.get_current_task_count();
        let tasks_currently_in_system = rng.next_below(system_capacity + 1);
        let output_task_list = fs.run_cycle(tasks_currently_in_system);
        assert!(output_task_list.len() <= system_capacity - tasks_currently_in_system);
        assert_eq!(fs.get_current_task_count(), before - output_task_list.len());
        cycle_count += 1;
        assert!(cycle_count < 100_000);
    }
    cycle_count
}

#[test]
fn test_users_less_than_n() {
    let n: usize = 50;
    let mut fs: FairScheduler = FairScheduler::new(n);
    let users = vec!["user1", "user2", "user3", "user4", "user5"];
    for i in 0..250 {
        fs.add_task(users[0].to_string(), i.to_string(), 1.0f32.to_bits());
    }
    for i in 0..500 {
        fs.add_task(users[1].to_string(), i.to_string(), 1.0f32.to_bits());
    }
    for i in 0..100 {
        fs.add_task(users[2].to_string(), i.to_string(), 1.0f32.to_bits());
    }
    for i in 0..120 {
        fs.add_task(users[3].to_string(), i.to_string(), 1.0f32.to_bits());
    }
    for i in 0..1200 {
        fs.add_task(users[4].to_string(), i.to_string(), 1.0f32.to_bits());
    }
    assert_eq!(fs.get_current_task_count(), 2170);
}

#[test]
fn test_users_more_than_n() {
    let mut rng = Lcg(7);
    let n: usize = 5 + rng.next_below(45);
    let number_of_users: usize = 5 + rng.next_below(5);
    let mut fs: FairScheduler = FairScheduler::new(n);
    let mut users: Vec<String> = Vec::new();
    let mut total_tasks: usize = 0;

    for i in 0..number_of_users {
        users.push(format!("user{}", i));
    }
    for user in users.iter() {
        let task_count = 5 + rng.next_below(5);
        for i in 0..task_count {
            let task_id = format!("dummy_task_id{}", i);
            fs.add_task(user.clone(), task_id, 1.0f32.to_bits());
            total_tasks += 1;
        }
    }
    assert_eq!(fs.get_current_task_count(), total_tasks);
    let total_cycles_ran = drain(&mut fs, n, &mut rng);
    assert!(total_cycles_ran >= 1);
    assert_eq!(fs.get_current_task_count(), 0);
}
