use stride_kernel::task::{TaskControlBlock, TaskManager, BIG_STRIDE};

fn task(pid: usize, priority: usize, stride: usize) -> TaskControlBlock {
    TaskControlBlock { pid, priority, stride }
}

#[test]
fn fetch_from_empty_pool_is_none() {
    let mut m = TaskManager::new();
    assert_eq!(m.fetch(), None);
}

#[test]
fn add_advances_stride_by_share() {
    let mut m = TaskManager::new();
    m.add(task(1, 16, 100));
    let t = m.fetch().unwrap();
    assert_eq!(t.stride, 100 + BIG_STRIDE / 16);
    assert_eq!(m.fetch(), None);
}

#[test]
fn add_caps_stride_at_ceiling() {
    let mut m = TaskManager::new();
    m.add(task(1, 2, BIG_STRIDE - 1));
    assert_eq!(m.fetch().unwrap().stride, BIG_STRIDE);
    m.add(task(2, 1, 0));
    assert_eq!(m.fetch().unwrap().stride, BIG_STRIDE);
    m.add(task(3, 3, usize::MAX));
    assert_eq!(m.fetch().unwrap().stride, BIG_STRIDE);
}

#[test]
fn fetch_returns_least_stride_first() {
    let mut m = TaskManager::new();
    m.add(task(1, 4, 500));
    m.add(task(2, 4, 10));
    m.add(task(3, 4, 300));
    assert_eq!(m.fetch().unwrap().pid, 2);
    assert_eq!(m.fetch().unwrap().pid, 3);
    assert_eq!(m.fetch().unwrap().pid, 1);
    assert_eq!(m.fetch(), None);
}

#[test]
fn fetch_breaks_ties_by_pool_order() {
    let mut m = TaskManager::new();
    m.add(task(7, 8, 0));
    m.add(task(8, 8, 0));
    assert_eq!(m.fetch().unwrap().pid, 7);
    assert_eq!(m.fetch().unwrap().pid, 8);
}

#[test]
fn higher_priority_runs_more_before_ceiling() {
    let mut m = TaskManager::new();
    m.add(task(1, 1, 0));
    m.add(task(2, 2, 0));
    m.add(task(4, 4, 0));
    let mut picks = Vec::new();
    for _ in 0..7 {
        let t = m.fetch().unwrap();
        picks.push(t.pid);
        m.add(t);
    }
    assert_eq!(picks, vec![4, 2, 4, 4, 1, 2, 4]);
}

#[test]
fn capped_strides_share_in_turn() {
    let mut m = TaskManager::new();
    m.add(task(1, 1, 0));
    m.add(task(2, 2, 0));
    m.add(task(4, 4, 0));
    let mut counts = [0usize; 5];
    for _ in 0..1000 {
        let t = m.fetch().unwrap();
        counts[t.pid] += 1;
        m.add(t);
    }
    assert_eq!(counts[1], 332);
    assert_eq!(counts[2], 333);
    assert_eq!(counts[4], 335);
}
