use stride_kernel::deadlock_detector::{DeadLockDetector, DeadLockDetectorInner, DEADLOCK};

#[test]
fn acquire_cycle_is_rejected() {
    let mut d = DeadLockDetectorInner::new();
    d.create(0, 1);
    assert_eq!(d.minus(1, 0), 0);
    assert_eq!(d.available_units(0), 0);
    assert_eq!(d.minus(2, 0), 0);
    assert_eq!(d.needed(2, 0), 1);
    d.create(1, 1);
    assert_eq!(d.minus(2, 1), 0);
    assert_eq!(d.allocated(2, 1), 1);
    assert_eq!(d.minus(1, 1), DEADLOCK);
    assert_eq!(d.needed(1, 1), 1);
}

#[test]
fn release_restores_available_units() {
    let mut d = DeadLockDetectorInner::new();
    d.create(0, 2);
    assert_eq!(d.minus(1, 0), 0);
    assert_eq!(d.minus(2, 0), 0);
    assert_eq!(d.available_units(0), 0);
    assert_eq!(d.needed(1, 0), 0);
    assert_eq!(d.needed(2, 0), 0);
    d.add(1, 0);
    d.add(2, 0);
    assert_eq!(d.available_units(0), 2);
    assert_eq!(d.allocated(1, 0), 0);
    assert_eq!(d.allocated(2, 0), 0);
}

#[test]
fn repeated_release_saturates_at_zero() {
    let mut d = DeadLockDetectorInner::new();
    d.create(0, 1);
    assert_eq!(d.minus(3, 0), 0);
    d.add(3, 0);
    d.add(3, 0);
    d.add(5, 0);
    assert_eq!(d.allocated(3, 0), 0);
    assert_eq!(d.needed(3, 0), 0);
    assert_eq!(d.allocated(5, 0), 0);
    assert_eq!(d.available_units(0), 3);
}

#[test]
fn safe_matrix_is_accepted() {
    // Three resources; thread 1 holds one unit of each and waits for none,
    // thread 2 waits for resource 0 and can run once thread 1 is done.
    let mut d = DeadLockDetectorInner::new();
    d.create(0, 1);
    d.create(1, 1);
    d.create(2, 1);
    assert_eq!(d.minus(1, 0), 0);
    assert_eq!(d.minus(1, 1), 0);
    assert_eq!(d.minus(1, 2), 0);
    assert_eq!(d.minus(2, 0), 0);
    assert_eq!(d.minus(3, 1), 0);
    assert_eq!(d.detect(), 0);
}

#[test]
fn unsafe_matrix_is_rejected() {
    let mut d = DeadLockDetectorInner::new();
    d.create(0, 1);
    d.create(1, 1);
    d.create(2, 1);
    assert_eq!(d.minus(1, 0), 0);
    assert_eq!(d.minus(2, 1), 0);
    assert_eq!(d.minus(3, 2), 0);
    assert_eq!(d.minus(1, 1), 0);
    assert_eq!(d.minus(2, 2), 0);
    assert_eq!(d.minus(3, 0), DEADLOCK);
    assert_eq!(d.detect(), DEADLOCK);
}

#[test]
fn create_overwrites_available_units() {
    let mut d = DeadLockDetectorInner::new();
    d.create(2, 3);
    assert_eq!(d.available_units(0), 0);
    assert_eq!(d.available_units(1), 0);
    assert_eq!(d.available_units(2), 3);
    d.create(2, 5);
    assert_eq!(d.available_units(2), 5);
}

#[test]
fn resource_classes_are_independent() {
    let mut d = DeadLockDetector::new();
    d.mutex.create(0, 1);
    d.semaphore.create(0, 1);
    assert_eq!(d.mutex.minus(1, 0), 0);
    assert_eq!(d.semaphore.minus(2, 0), 0);
    // Thread 1 holds the lock and waits on the semaphore held by thread 2,
    // which waits on the lock: each class alone stays safe.
    assert_eq!(d.semaphore.minus(1, 0), 0);
    assert_eq!(d.mutex.minus(2, 0), 0);
}
