use blog_os::task::simple_executor::SimpleExecutor;

#[test]
fn new_executor_has_no_task() {
    let mut executor: SimpleExecutor<u32> = SimpleExecutor::new();
    assert_eq!(executor.len(), 0);
    assert_eq!(executor.next_task(), None);
    let mut other: SimpleExecutor<u32> = SimpleExecutor::default();
    assert_eq!(other.next_task(), None);
}

#[test]
fn tasks_get_their_turn_in_the_order_of_spawning() {
    let mut executor = SimpleExecutor::new();
    executor.spawn("a");
    executor.spawn("b");
    executor.spawn("c");
    assert_eq!(executor.len(), 3);
    assert_eq!(executor.next_task(), Some("a"));
    assert_eq!(executor.next_task(), Some("b"));
    assert_eq!(executor.len(), 1);
    assert_eq!(executor.next_task(), Some("c"));
    assert_eq!(executor.next_task(), None);
}

#[test]
fn a_pending_task_goes_to_the_back() {
    let mut executor = SimpleExecutor::new();
    executor.spawn(1);
    executor.spawn(2);
    let first = executor.next_task().unwrap();
    executor.settle(first, true);
    assert_eq!(executor.len(), 2);
    assert_eq!(executor.next_task(), Some(2));
    assert_eq!(executor.next_task(), Some(1));
}

#[test]
fn a_task_that_is_done_leaves() {
    let mut executor = SimpleExecutor::new();
    executor.spawn(1);
    executor.spawn(2);
    let first = executor.next_task().unwrap();
    executor.settle(first, false);
    assert_eq!(executor.len(), 1);
    assert_eq!(executor.next_task(), Some(2));
    assert_eq!(executor.next_task(), None);
}

#[test]
fn pending_tasks_keep_their_order() {
    let mut executor = SimpleExecutor::new();
    for task in 0..5 {
        executor.spawn(task);
    }
    for turn in 0..5 {
        let task = executor.next_task().unwrap();
        assert_eq!(task, turn);
        executor.settle(task, true);
    }
    for task in 0..5 {
        assert_eq!(executor.next_task(), Some(task));
    }
}

#[test]
fn tasks_are_polled_round_robin_until_all_are_done() {
    // each task is the number of turns it still needs
    let mut executor = SimpleExecutor::new();
    executor.spawn(('a', 2));
    executor.spawn(('b', 0));
    executor.spawn(('c', 1));
    let mut turns = Vec::new();
    while let Some((name, left)) = executor.next_task() {
        turns.push(name);
        executor.settle((name, left.max(1) - 1), left > 0);
    }
    assert_eq!(turns, vec!['a', 'b', 'c', 'a', 'c', 'a']);
    assert_eq!(executor.len(), 0);
}
