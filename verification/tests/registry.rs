use similar_images::cache::Cache;
use similar_images::manager::{TaskManager, TaskOutcome, TaskResponse};
use similar_images::table::Table;

#[test]
fn cache_hands_back_what_was_set() {
    let mut cache: Cache<String, Vec<u8>> = Cache::new();
    cache.set(String::from("k"), vec![1, 2, 3]);
    assert_eq!(cache.get(&String::from("k")), Some(&vec![1u8, 2, 3]));
}

#[test]
fn cache_knows_nothing_of_a_key_never_set() {
    let mut cache: Cache<u32, u32> = Cache::new();
    assert_eq!(cache.get(&1), None);
    cache.set(2, 20);
    assert_eq!(cache.get(&1), None);
}

#[test]
fn cache_last_write_wins() {
    let mut cache: Cache<&str, u32> = Cache::new();
    cache.set("a", 1);
    cache.set("b", 2);
    cache.set("a", 3);
    assert_eq!(cache.get(&"a"), Some(&3));
    assert_eq!(cache.get(&"b"), Some(&2));
}

#[test]
fn table_removes_one_key_and_keeps_the_others() {
    let mut table: Table<u32, &str> = Table::new();
    table.insert(1, "one");
    table.insert(2, "two");
    table.insert(3, "three");
    assert_eq!(table.remove(&2), Some((2, "two")));
    assert_eq!(table.remove(&2), None);
    assert_eq!(table.get(&1), Some(&"one"));
    assert_eq!(table.get(&2), None);
    assert_eq!(table.get(&3), Some(&"three"));
}

#[test]
fn same_key_submitted_twice_runs_one_job() {
    let mut started = 0;
    let mut manager: TaskManager<&str, u32> = TaskManager::new();
    assert!(manager.submit("scan", || {
        started += 1;
        100
    }));
    assert!(!manager.submit("scan", || {
        started += 1;
        200
    }));
    assert_eq!(manager.progress(&"scan"), Some(&100));
    assert_eq!(started, 1);
}

#[test]
fn different_keys_run_their_own_jobs() {
    let mut manager: TaskManager<u8, &str> = TaskManager::new();
    assert!(manager.submit(1, || "first"));
    assert!(manager.submit(2, || "second"));
    assert_eq!(manager.progress(&1), Some(&"first"));
    assert_eq!(manager.progress(&2), Some(&"second"));
    assert_eq!(manager.progress(&3), None);
}

#[test]
fn poll_of_a_running_task_keeps_it_tracked() {
    let mut manager: TaskManager<&str, u32> = TaskManager::new();
    manager.submit("scan", || 7);
    let (key, handle) = manager.claim(&"scan").unwrap();
    assert_eq!(handle, 7);
    let response: TaskResponse<usize, &str> = manager.poll(key, TaskOutcome::Running(40, handle));
    assert!(matches!(response, TaskResponse::Pending(40)));
    assert_eq!(manager.progress(&"scan"), Some(&7));
    assert!(!manager.submit("scan", || 8));
}

#[test]
fn result_is_handed_out_once() {
    let mut manager: TaskManager<&str, u32> = TaskManager::new();
    manager.submit("scan", || 7);
    let (key, _) = manager.claim(&"scan").unwrap();
    let response: TaskResponse<usize, &str> = manager.poll(key, TaskOutcome::Finished("done"));
    assert!(matches!(response, TaskResponse::Completed("done")));
    assert!(manager.claim(&"scan").is_none());
    assert_eq!(manager.progress(&"scan"), None);
    assert!(manager.submit("scan", || 9));
}

#[test]
fn claim_of_an_unknown_key_is_none() {
    let mut manager: TaskManager<u64, u64> = TaskManager::new();
    assert!(manager.claim(&5).is_none());
    manager.submit(6, || 60);
    assert!(manager.claim(&5).is_none());
    assert_eq!(manager.claim(&6), Some((6, 60)));
}
