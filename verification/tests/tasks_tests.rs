use mav_bridge::tasks::TaskMaster;

#[test]
fn spawn_and_list() {
    let mut tm = TaskMaster::new();
    let a = tm.spawn("receiver".to_string());
    let b = tm.spawn("heartbeat".to_string());
    assert_ne!(a, b);
    assert_eq!(tm.get_task("receiver"), Some(a));
    assert_eq!(tm.get_task("heartbeat"), Some(b));
    assert_eq!(tm.get_task("unknown"), None);
    let running = tm.list_running_tasks(&Vec::new());
    assert_eq!(running, vec!["receiver".to_string(), "heartbeat".to_string()]);
}

#[test]
fn spawn_replaces_same_name() {
    let mut tm = TaskMaster::new();
    let first = tm.spawn("loop".to_string());
    let second = tm.spawn("loop".to_string());
    assert_ne!(first, second);
    assert_eq!(tm.get_task("loop"), Some(second));
    let running = tm.list_running_tasks(&Vec::new());
    assert_eq!(running, vec!["loop".to_string()]);
}

#[test]
fn clear_finished_prunes_only_finished() {
    let mut tm = TaskMaster::new();
    let a = tm.spawn("receiver".to_string());
    let _b = tm.spawn("heartbeat".to_string());
    tm.clear_finished(&vec![a]);
    assert_eq!(tm.get_task("receiver"), None);
    let running = tm.list_running_tasks(&Vec::new());
    assert_eq!(running, vec!["heartbeat".to_string()]);
}

#[test]
fn shutdown_sees_nothing_once_all_finished() {
    let mut tm = TaskMaster::new();
    let a = tm.spawn("receiver".to_string());
    let b = tm.spawn("heartbeat".to_string());
    let c = tm.spawn("forward".to_string());
    let running = tm.list_running_tasks(&vec![a, b, c]);
    assert!(running.is_empty());
    assert!(tm.list_running_tasks(&Vec::new()).is_empty());
}
