use animefs::filesystem::tasks::{
    FilesystemTask, FilesystemTaskPriority, FilesystemTasksScheduler,
};

fn read_page_task(page_number: u32) -> FilesystemTask {
    FilesystemTask::ReadPage { page_number, offset: 0, length: 1 }
}

fn polled_page(scheduler: &mut FilesystemTasksScheduler) -> (u32, FilesystemTaskPriority) {
    match scheduler.poll() {
        Some((FilesystemTask::ReadPage { page_number, .. }, priority)) => (page_number, priority),
        other => panic!("unexpected poll result: {:?}", other),
    }
}

#[test]
fn poll_priority_order() {
    let mut scheduler = FilesystemTasksScheduler::new();

    // An interleaving of priorities: the polled sequence must list all
    // High tasks first, then Normal, then Low, FIFO within each class.
    scheduler.push(read_page_task(10), FilesystemTaskPriority::Low);
    scheduler.push(read_page_task(20), FilesystemTaskPriority::Normal);
    scheduler.push(read_page_task(1), FilesystemTaskPriority::High);
    scheduler.push(read_page_task(21), FilesystemTaskPriority::Normal);
    scheduler.push(read_page_task(2), FilesystemTaskPriority::High);
    scheduler.push(read_page_task(11), FilesystemTaskPriority::Low);

    let drained: Vec<u32> = (0..6).map(|_| polled_page(&mut scheduler).0).collect();
    assert_eq!(drained, [1, 2, 20, 21, 10, 11]);
    assert!(scheduler.poll().is_none());
}

#[test]
fn push_front_comes_back_first() {
    let mut scheduler = FilesystemTasksScheduler::new();

    scheduler.push(read_page_task(1), FilesystemTaskPriority::Normal);
    scheduler.push_front(read_page_task(2), FilesystemTaskPriority::Normal);

    assert_eq!(polled_page(&mut scheduler).0, 2);
    assert_eq!(polled_page(&mut scheduler).0, 1);
}

#[test]
fn low_is_starved_while_higher_work_exists() {
    let mut scheduler = FilesystemTasksScheduler::new();

    scheduler.push(read_page_task(5), FilesystemTaskPriority::Low);
    scheduler.push(read_page_task(6), FilesystemTaskPriority::High);

    let (page, priority) = polled_page(&mut scheduler);
    assert_eq!(page, 6);
    assert_eq!(priority, FilesystemTaskPriority::High);

    let (page, priority) = polled_page(&mut scheduler);
    assert_eq!(page, 5);
    assert_eq!(priority, FilesystemTaskPriority::Low);
}
