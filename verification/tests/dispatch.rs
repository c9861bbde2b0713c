use sheet_translate::dispatch::{
    delay_before, Dispatcher, FirstBurst, ReleaseOrder, INTERVAL_SECONDS, RPM,
};

#[test]
fn quota_and_interval_are_sixty() {
    assert_eq!(RPM, 60);
    assert_eq!(INTERVAL_SECONDS, 60);
}

#[test]
fn oldest_first_releases_in_order_of_discovery() {
    let mut dispatcher = Dispatcher::new(130, ReleaseOrder::OldestFirst);
    assert_eq!(dispatcher.remaining(), 130);
    let first = dispatcher.next_burst();
    assert_eq!(first.tasks, (0..60).collect::<Vec<usize>>());
    assert!(first.more);
    let second = dispatcher.next_burst();
    assert_eq!(second.tasks, (60..120).collect::<Vec<usize>>());
    assert!(second.more);
    let third = dispatcher.next_burst();
    assert_eq!(third.tasks, (120..130).collect::<Vec<usize>>());
    assert!(!third.more);
    assert_eq!(dispatcher.remaining(), 0);
    let fourth = dispatcher.next_burst();
    assert_eq!(fourth.tasks, Vec::new());
    assert!(!fourth.more);
}

#[test]
fn newest_first_releases_against_order_of_discovery() {
    let mut dispatcher = Dispatcher::new(70, ReleaseOrder::NewestFirst);
    let first = dispatcher.next_burst();
    assert_eq!(first.tasks, (10..70).rev().collect::<Vec<usize>>());
    assert!(first.more);
    let second = dispatcher.next_burst();
    assert_eq!(second.tasks, (0..10).rev().collect::<Vec<usize>>());
    assert!(!second.more);
}

#[test]
fn queue_of_exactly_the_quota_is_one_burst() {
    let mut dispatcher = Dispatcher::new(RPM, ReleaseOrder::OldestFirst);
    let burst = dispatcher.next_burst();
    assert_eq!(burst.tasks.len(), RPM);
    assert!(!burst.more);
}

#[test]
fn empty_queue_releases_nothing() {
    let mut dispatcher = Dispatcher::new(0, ReleaseOrder::OldestFirst);
    let burst = dispatcher.next_burst();
    assert_eq!(burst.tasks, Vec::new());
    assert!(!burst.more);
}

#[test]
fn no_burst_exceeds_the_quota_and_every_task_goes_once() {
    for order in [ReleaseOrder::OldestFirst, ReleaseOrder::NewestFirst] {
        for total in [0usize, 1, 59, 60, 61, 119, 120, 121, 500] {
            let mut dispatcher = Dispatcher::new(total, order);
            let mut seen = vec![0usize; total];
            loop {
                let burst = dispatcher.next_burst();
                assert!(burst.tasks.len() <= RPM);
                for place in &burst.tasks {
                    seen[*place] += 1;
                }
                if !burst.more {
                    break;
                }
            }
            assert!(seen.iter().all(|n| *n == 1));
        }
    }
}

#[test]
fn first_burst_waits_only_where_asked() {
    assert_eq!(delay_before(FirstBurst::Immediate, 0), 0);
    assert_eq!(delay_before(FirstBurst::AfterInterval, 0), 60);
    assert_eq!(delay_before(FirstBurst::Immediate, 1), 60);
    assert_eq!(delay_before(FirstBurst::AfterInterval, 7), 60);
}
