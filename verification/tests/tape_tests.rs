use bfc::tape::ExecutionState;

#[test]
fn fresh_tape_is_one_zero_cell() {
    let es = ExecutionState::new();
    assert_eq!(es.memory, vec![0u8]);
    assert_eq!(es.dp, 0);
    assert_eq!(es.current(), 0);
}

#[test]
fn left_of_cell_zero_is_cell_zero() {
    let mut es = ExecutionState::new();
    es.move_pointer(-1);
    assert_eq!(es.dp, 0);
    assert_eq!(es.memory, vec![0u8]);
    es.move_pointer(isize::MIN);
    assert_eq!(es.dp, 0);
    assert_eq!(es.memory, vec![0u8]);
    es.move_pointer(3);
    es.move_pointer(-5);
    assert_eq!(es.dp, 0);
    assert_eq!(es.memory.len(), 4);
}

#[test]
fn moving_right_grows_the_tape_up_to_the_pointer() {
    let mut es = ExecutionState::new();
    es.move_pointer(1);
    assert_eq!(es.dp, 1);
    assert_eq!(es.memory, vec![0u8, 0]);
    es.move_pointer(4);
    assert_eq!(es.dp, 5);
    assert_eq!(es.memory, vec![0u8; 6]);
}

#[test]
fn moving_inside_the_tape_changes_no_cell() {
    let mut es = ExecutionState::new();
    es.add_value(7);
    es.move_pointer(2);
    es.add_value(9);
    es.move_pointer(-1);
    assert_eq!(es.dp, 1);
    assert_eq!(es.memory, vec![7u8, 0, 9]);
    es.move_pointer(1);
    assert_eq!(es.dp, 2);
    assert_eq!(es.memory, vec![7u8, 0, 9]);
    es.move_pointer(0);
    assert_eq!(es.dp, 2);
    assert_eq!(es.memory, vec![7u8, 0, 9]);
}

#[test]
fn the_tape_never_shrinks() {
    let mut es = ExecutionState::new();
    es.move_pointer(10);
    es.move_pointer(-10);
    assert_eq!(es.dp, 0);
    assert_eq!(es.memory.len(), 11);
}

#[test]
fn addition_wraps_both_ways() {
    let mut es = ExecutionState::new();
    es.add_value(-1);
    assert_eq!(es.current(), 255);
    es.add_value(1);
    assert_eq!(es.current(), 0);
    es.add_value(127);
    es.add_value(127);
    assert_eq!(es.current(), 254);
    es.add_value(3);
    assert_eq!(es.current(), 1);
    es.add_value(-128);
    assert_eq!(es.current(), 129);
    es.add_value(-128);
    assert_eq!(es.current(), 1);
    es.add_value(0);
    assert_eq!(es.current(), 1);
}

#[test]
fn two_additions_are_one_addition_of_the_wrapped_sum() {
    for v in [0u8, 1, 127, 128, 200, 255] {
        for d1 in [-128i8, -127, -1, 0, 1, 5, 100, 127] {
            for d2 in [-128i8, -3, 0, 1, 28, 127] {
                let mut twice = ExecutionState::new();
                twice.store(v);
                twice.add_value(d1);
                twice.add_value(d2);
                let mut once = ExecutionState::new();
                once.store(v);
                once.add_value(d1.wrapping_add(d2));
                assert_eq!(twice.current(), once.current());
                assert_eq!(twice.memory, once.memory);
            }
        }
    }
    let mut es = ExecutionState::new();
    es.store(250);
    es.add_value(100);
    es.add_value(100);
    assert_eq!(es.current(), 194);
}

#[test]
fn store_sets_the_current_cell_only() {
    let mut es = ExecutionState::new();
    es.move_pointer(2);
    es.store(65);
    assert_eq!(es.memory, vec![0u8, 0, 65]);
    es.move_pointer(-2);
    es.store(66);
    assert_eq!(es.memory, vec![66u8, 0, 65]);
}

#[test]
fn can_move_tells_what_the_tape_can_hold() {
    let es = ExecutionState::new();
    assert!(es.can_move(0));
    assert!(es.can_move(1));
    assert!(es.can_move(-1));
    assert!(es.can_move(isize::MIN));
    assert!(es.can_move(isize::MAX));
    let far = ExecutionState { memory: vec![0], dp: usize::MAX - 1 };
    assert!(far.can_move(0));
    assert!(far.can_move(-1));
    assert!(!far.can_move(1));
    assert!(!far.can_move(isize::MAX));
    let nearly = ExecutionState { memory: vec![0], dp: usize::MAX - 2 };
    assert!(nearly.can_move(1));
    assert!(!nearly.can_move(2));
}
