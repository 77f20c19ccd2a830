use kudo::{
    wake_tasks, Cloners, FunctionSystem, QueryParameter, Scheduler, SystemArg, SystemParam, SystemScheduler,
    Task, World,
};

const A: u64 = 1;
const B: u64 = 2;

#[test]
fn reader_waits_for_writer() {
    let mut scheduler = Scheduler::new();
    let w = scheduler.add_task(vec![], vec![0], false, false);
    let r = scheduler.add_task(vec![0], vec![], false, false);
    assert_eq!(w, 0);
    assert_eq!(r, 1);
    assert_eq!(scheduler.task_info[0].tasks_to_wake_up, vec![1]);
    assert_eq!(scheduler.task_info[1].waiting_for, 1);
    assert_eq!(scheduler.starter_tasks, vec![0]);
}

#[test]
fn readers_share_and_writer_waits_for_all() {
    let mut scheduler = Scheduler::new();
    scheduler.add_task(vec![3], vec![], false, false);
    scheduler.add_task(vec![3], vec![], false, false);
    scheduler.add_task(vec![], vec![3], false, false);
    assert_eq!(scheduler.task_info[0].waiting_for, 0);
    assert_eq!(scheduler.task_info[1].waiting_for, 0);
    assert_eq!(scheduler.task_info[2].waiting_for, 2);
    assert_eq!(scheduler.task_info[0].tasks_to_wake_up, vec![2]);
    assert_eq!(scheduler.task_info[1].tasks_to_wake_up, vec![2]);
    assert_eq!(scheduler.starter_tasks, vec![0, 1]);
}

#[test]
fn shared_resources_wake_once() {
    let mut scheduler = Scheduler::new();
    scheduler.add_task(vec![], vec![0, 1], false, false);
    scheduler.add_task(vec![0, 1], vec![], false, false);
    assert_eq!(scheduler.task_info[0].tasks_to_wake_up, vec![1]);
    assert_eq!(scheduler.task_info[1].waiting_for, 1);
}

#[test]
fn exclusive_task_runs_after_the_previous_one() {
    let mut scheduler = Scheduler::new();
    scheduler.add_task(vec![0], vec![], false, false);
    scheduler.add_task(vec![], vec![], true, false);
    scheduler.add_task(vec![5], vec![], false, false);
    // the exclusive task waits for the task before it
    assert_eq!(scheduler.task_info[1].waiting_for, 1);
    assert_eq!(scheduler.task_info[0].tasks_to_wake_up, vec![1]);
    // a task with nothing else to wait for waits for the last exclusive task
    assert_eq!(scheduler.task_info[2].waiting_for, 1);
    assert_eq!(scheduler.task_info[1].tasks_to_wake_up, vec![2]);
    assert_eq!(scheduler.starter_tasks, vec![0]);
}

#[test]
fn run_prepares_tasks() {
    let mut scheduler = Scheduler::new();
    scheduler.add_task(vec![], vec![0], false, false);
    scheduler.add_task(vec![0], vec![], false, true);
    let (tasks, starters) = scheduler.run();
    assert_eq!(starters, vec![0]);
    assert_eq!(tasks.len(), 2);
    assert_eq!(tasks[0].will_wait_on, 1);
    assert_eq!(tasks[0].waiting_on, 1);
    assert_eq!(tasks[1].will_wait_on, 1);
    assert_eq!(tasks[0].tasks_to_wake_up, vec![1]);
    assert!(tasks[1].main_thread_task);
}

#[test]
fn decrement_and_try_run() {
    let mut task = Task::new(2, vec![], false);
    assert!(!task.decrement_and_try_run());
    assert_eq!(task.waiting_on, 1);
    assert!(task.decrement_and_try_run());
    assert_eq!(task.waiting_on, 2);
}

#[test]
fn waking_tasks_after_one_finishes() {
    let mut scheduler = Scheduler::new();
    scheduler.add_task(vec![], vec![0], false, false);
    scheduler.add_task(vec![], vec![1], false, false);
    scheduler.add_task(vec![0], vec![], false, false);
    scheduler.add_task(vec![0, 1], vec![], false, false);
    let (mut tasks, starters) = scheduler.run();
    assert_eq!(starters, vec![0, 1]);
    for s in starters.iter() {
        assert!(tasks[*s].decrement_and_try_run());
    }
    // task 0 finishing makes task 2 ready; task 3 still waits for task 1
    assert_eq!(wake_tasks(&mut tasks, 0), vec![2]);
    assert_eq!(tasks[3].waiting_on, 1);
    assert_eq!(wake_tasks(&mut tasks, 1), vec![3]);
}

#[test]
fn system_scheduler_orders_conflicting_systems() {
    let mut world: World<u32> = World::new_with_cloners(Cloners::new());
    world.spawn(vec![(A, 1), (B, 2)]);
    world.spawn(vec![(A, 3)]);

    let mut systems = SystemScheduler::new();
    let _f0 = systems.schedule(FunctionSystem::new(
        vec![SystemParam::Query(vec![QueryParameter::read_write(A)])],
        |_w: &World<u32>, _args: Vec<SystemArg>| {},
    ));
    let _f1 = systems.schedule(FunctionSystem::new(
        vec![SystemParam::Query(vec![QueryParameter::read(A)])],
        |_w: &World<u32>, _args: Vec<SystemArg>| {},
    ));
    let _f2 = systems.schedule_main_thread(FunctionSystem::new(
        vec![SystemParam::Query(vec![QueryParameter::read(B)])],
        |_w: &World<u32>, _args: Vec<SystemArg>| {},
    ));
    assert!(systems.can_run(&world));
    let scheduler = systems.run(&world);
    assert_eq!(scheduler.task_info.len(), 3);
    // the reader of A waits for the writer of A, the reader of B for nothing
    assert_eq!(scheduler.task_info[1].waiting_for, 1);
    assert_eq!(scheduler.task_info[2].waiting_for, 0);
    assert!(scheduler.task_info[2].main_thread_task);
    assert_eq!(scheduler.starter_tasks, vec![0, 2]);
}

#[test]
fn system_scheduler_refuses_a_system_that_reads_what_it_writes() {
    let mut world: World<u32> = World::new_with_cloners(Cloners::new());
    world.spawn(vec![(A, 1)]);

    let mut systems = SystemScheduler::new();
    let _f = systems.schedule(FunctionSystem::new(
        vec![SystemParam::Query(vec![QueryParameter::read(A)]), SystemParam::Query(vec![QueryParameter::read_write(A)])],
        |_w: &World<u32>, _args: Vec<SystemArg>| {},
    ));
    assert!(!systems.can_run(&world));
}

#[test]
fn missing_single_component_borrows_nothing() {
    let world: World<u32> = World::new_with_cloners(Cloners::new());
    let borrows = world.scheduled_borrows(&vec![SystemParam::Single(A)]);
    assert!(borrows.reads.is_empty());
    assert!(borrows.writes.is_empty());
}

#[test]
fn earlier_writer_reaches_later_writer_through_readers() {
    let mut scheduler = Scheduler::new();
    scheduler.add_task(vec![], vec![0], false, false);
    scheduler.add_task(vec![0], vec![], false, false);
    scheduler.add_task(vec![0], vec![], false, false);
    scheduler.add_task(vec![], vec![0], false, false);
    assert_eq!(scheduler.task_info[0].tasks_to_wake_up, vec![1, 2]);
    assert_eq!(scheduler.task_info[1].tasks_to_wake_up, vec![3]);
    assert_eq!(scheduler.task_info[2].tasks_to_wake_up, vec![3]);
    assert_eq!(scheduler.task_info[3].waiting_for, 2);
}
