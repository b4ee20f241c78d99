use grain_ws::supervisor::{Finisher, TaskSupervisor};

struct FailCount {
    errors: Vec<String>,
}

impl Finisher for FailCount {
    fn task_failed(&mut self, error: String) {
        self.errors.push(error);
    }
}

#[test]
fn failing_task_leaves_siblings_alone() {
    let mut sup = TaskSupervisor::new(FailCount { errors: Vec::new() });
    let t1 = sup.add();
    let t2 = sup.add();
    let t3 = sup.add();
    let reported = sup.resolve(t2, Err(String::from("disk full")));
    assert_eq!(reported, Some(String::from("disk full")));
    assert_eq!(sup.finisher.errors.as_slice(), ["disk full"]);
    assert!(sup.live.contains(&t1));
    assert!(sup.live.contains(&t3));
    assert!(!sup.live.contains(&t2));
    // the same task resolves only once
    let again = sup.resolve(t2, Err(String::from("disk full")));
    assert_eq!(again, None);
    assert_eq!(sup.finisher.errors.len(), 1);
}

#[test]
fn successful_task_is_discarded_silently() {
    let mut sup = TaskSupervisor::new(FailCount { errors: Vec::new() });
    let t1 = sup.add();
    let r = sup.resolve(t1, Ok(()));
    assert_eq!(r, None);
    assert!(sup.finisher.errors.is_empty());
    assert!(sup.live.is_empty());
}

#[test]
fn handles_are_fresh_in_order() {
    let mut sup = TaskSupervisor::new(FailCount { errors: Vec::new() });
    assert_eq!(sup.add(), 0);
    assert_eq!(sup.add(), 1);
    assert_eq!(sup.add(), 2);
    assert_eq!(sup.live, vec![0, 1, 2]);
}

#[test]
fn resolving_unknown_handle_is_silent() {
    let mut sup = TaskSupervisor::new(FailCount { errors: Vec::new() });
    let _ = sup.add();
    let r = sup.resolve(42, Err(String::from("nope")));
    assert_eq!(r, None);
    assert!(sup.finisher.errors.is_empty());
    assert_eq!(sup.live.len(), 1);
}
