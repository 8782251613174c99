use rollback::{Rollback, RollbackOrdered};

fn registry_of(values: &[u64]) -> RollbackOrdered {
    let mut reg = RollbackOrdered::new();
    for &v in values {
        reg.push(Rollback::new(v));
    }
    reg
}

fn values_of(reg: &RollbackOrdered) -> Vec<u64> {
    reg.iter_sorted().iter().map(|r| r.bits()).collect()
}

#[test]
fn out_of_order_registrations() {
    let reg = registry_of(&[5, 3, 8, 1]);
    assert_eq!(values_of(&reg), vec![1, 3, 5, 8]);
    assert_eq!(reg.order(Rollback::new(5)), 2);
    assert_eq!(reg.order(Rollback::new(1)), 0);
    assert_eq!(reg.order(Rollback::new(3)), 1);
    assert_eq!(reg.order(Rollback::new(8)), 3);
}

#[test]
fn increasing_registrations_keep_indices() {
    let mut reg = RollbackOrdered::new();
    assert_eq!(reg.push(Rollback::new(1)), 0);
    assert_eq!(reg.order(Rollback::new(1)), 0);
    assert_eq!(reg.push(Rollback::new(2)), 1);
    assert_eq!(reg.order(Rollback::new(1)), 0);
    assert_eq!(reg.push(Rollback::new(3)), 2);
    assert_eq!(reg.order(Rollback::new(1)), 0);
    assert_eq!(reg.order(Rollback::new(2)), 1);
    assert_eq!(reg.order(Rollback::new(3)), 2);
}

#[test]
fn smaller_marker_shifts_greater() {
    let mut reg = RollbackOrdered::new();
    reg.push(Rollback::new(10));
    assert_eq!(reg.order(Rollback::new(10)), 0);
    reg.push(Rollback::new(5));
    assert_eq!(reg.order(Rollback::new(10)), 1);
    assert_eq!(reg.order(Rollback::new(5)), 0);
}

#[test]
fn iteration_is_sorted_and_restartable() {
    let reg = registry_of(&[2, 1, 3]);
    let first = values_of(&reg);
    let second = values_of(&reg);
    assert_eq!(first, vec![1, 2, 3]);
    assert_eq!(second, vec![1, 2, 3]);
}

#[test]
fn unregistered_lookup_fails() {
    let reg = registry_of(&[4, 9]);
    assert_eq!(reg.try_order(Rollback::new(7)), None);
    assert_eq!(reg.try_order(Rollback::new(0)), None);
    assert_eq!(RollbackOrdered::new().try_order(Rollback::new(1)), None);
    assert_eq!(reg.try_order(Rollback::new(9)), Some(1));
}

#[test]
fn empty_registry_iterates_nothing() {
    let reg = RollbackOrdered::default();
    assert!(reg.iter_sorted().is_empty());
}

#[test]
fn registering_again_changes_nothing() {
    let mut reg = registry_of(&[5, 3, 8]);
    assert_eq!(reg.push(Rollback::new(5)), 1);
    assert_eq!(values_of(&reg), vec![3, 5, 8]);
    assert_eq!(reg.order(Rollback::new(3)), 0);
    assert_eq!(reg.order(Rollback::new(5)), 1);
    assert_eq!(reg.order(Rollback::new(8)), 2);
}

#[test]
fn sorted_after_each_registration() {
    let values = [7u64, 2, 9, 4, 4, 1, 12, 0, u64::MAX, 3];
    let mut reg = RollbackOrdered::new();
    for &v in values.iter() {
        reg.push(Rollback::new(v));
        let seen = values_of(&reg);
        assert!(seen.windows(2).all(|w| w[0] < w[1]));
    }
    assert_eq!(values_of(&reg), vec![0, 1, 2, 3, 4, 7, 9, 12, u64::MAX]);
}

#[test]
fn index_matches_position() {
    let reg = registry_of(&[30, 10, 50, 20, 40]);
    for (i, r) in reg.iter_sorted().iter().enumerate() {
        assert_eq!(reg.order(*r), i);
        assert_eq!(reg.try_order(*r), Some(i));
    }
}

#[test]
fn greatest_marker_keeps_indices() {
    let mut reg = registry_of(&[8, 2, 6]);
    let before: Vec<usize> = [2u64, 6, 8].iter().map(|&v| reg.order(Rollback::new(v))).collect();
    assert_eq!(reg.push(Rollback::new(11)), 3);
    let after: Vec<usize> = [2u64, 6, 8].iter().map(|&v| reg.order(Rollback::new(v))).collect();
    assert_eq!(before, after);
}

#[test]
fn smaller_marker_shifts_exactly_greater() {
    let mut reg = registry_of(&[10, 20, 30, 40]);
    assert_eq!(reg.push(Rollback::new(25)), 2);
    assert_eq!(reg.order(Rollback::new(10)), 0);
    assert_eq!(reg.order(Rollback::new(20)), 1);
    assert_eq!(reg.order(Rollback::new(25)), 2);
    assert_eq!(reg.order(Rollback::new(30)), 3);
    assert_eq!(reg.order(Rollback::new(40)), 4);
}

#[test]
fn smallest_marker_goes_to_front() {
    let mut reg = registry_of(&[3, 4]);
    assert_eq!(reg.push(Rollback::new(1)), 0);
    assert_eq!(reg.order(Rollback::new(1)), 0);
    assert_eq!(reg.order(Rollback::new(3)), 1);
    assert_eq!(reg.order(Rollback::new(4)), 2);
}

#[test]
fn marker_keeps_its_value() {
    assert_eq!(Rollback::new(42).bits(), 42);
    assert_eq!(Rollback::new(u64::MAX).bits(), u64::MAX);
    assert!(Rollback::new(1) < Rollback::new(2));
}

#[test]
fn markers_of_equal_value_are_equal() {
    assert_eq!(Rollback::new(9), Rollback::new(9));
    assert_ne!(Rollback::new(9), Rollback::new(10));
    let mut reg = RollbackOrdered::new();
    reg.push(Rollback::new(9));
    assert_eq!(reg.order(Rollback::new(9)), 0);
}
