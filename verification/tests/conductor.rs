use dht_gossip::capability::{FunctionName, ZomeName};
use dht_gossip::conductor::{check_create_link, settle, HostError, Permission};

#[test]
fn an_answer_is_passed_on() {
    let r: Result<Vec<u32>, HostError> = settle(Ok(Ok(vec![1, 2, 3])));
    assert_eq!(r.unwrap(), vec![1, 2, 3]);
    let r: Result<Vec<u32>, HostError> = settle(Ok(Ok(vec![])));
    assert_eq!(r.unwrap(), vec![]);
}

#[test]
fn failures_of_storage_and_of_tasks_stay_apart() {
    let r: Result<Vec<u32>, HostError> = settle(Ok(Err("database is locked".to_string())));
    match r {
        Err(HostError::Storage(said)) => assert_eq!(said, "database is locked"),
        _ => panic!("a failure of the storage was expected"),
    }
    let r: Result<Vec<u32>, HostError> = settle(Err("task panicked".to_string()));
    match r {
        Err(HostError::Task(said)) => assert_eq!(said, "task panicked"),
        _ => panic!("a failure of the task was expected"),
    }
}

#[test]
fn create_link_needs_the_right_to_write() {
    let zome = ZomeName("posts".to_string());
    let function = FunctionName("publish".to_string());
    assert!(check_create_link(Permission::Allow, zome.clone(), function.clone()).is_ok());
    let refusal = check_create_link(Permission::Deny, zome, function).unwrap_err();
    assert_eq!(refusal.zome.0, "posts");
    assert_eq!(refusal.function.0, "publish");
    assert_eq!(refusal.host_fn, "create_link");
}

#[test]
fn the_host_keeps_its_databases() {
    let host = dht_gossip::conductor::KitsuneHostImpl::new(vec![1u8, 2, 3]);
    assert_eq!(host.spaces(), &vec![1u8, 2, 3]);
    let shared = host.clone();
    assert_eq!(shared.spaces().len(), 3);
}
