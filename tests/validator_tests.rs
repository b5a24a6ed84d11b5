use backwards::{SequenceStatus, SequenceValidator};

fn blinker_with_extra() -> Vec<Vec<(i32, i32)>> {
    vec![
        vec![(-1, 0), (0, 0), (1, 0)],
        vec![(0, -1), (0, 0), (0, 1), (1, 0)],
    ]
}

#[test]
fn test_valid_blinker_sequence() {
    let validator = SequenceValidator::new(3, 1);
    let mut sequence: Vec<Vec<(i32, i32)>> = Vec::new();

    // Standard blinker sequence
    sequence.push(vec![(-1, 0), (0, 0), (1, 0)]);
    sequence.push(vec![(0, -1), (0, 0), (0, 1)]);

    let status = validator.validate(sequence);
    assert!(status.is_valid);
    assert_eq!(status.exceptions, 0);
}

#[test]
fn test_invalid_blinker_sequence_with_exception() {
    let validator = SequenceValidator::new(3, 1);
    let mut sequence: Vec<Vec<(i32, i32)>> = Vec::new();

    // Blinker sequence with an extra cell
    sequence.push(vec![(-1, 0), (0, 0), (1, 0)]);
    sequence.push(vec![(0, -1), (0, 0), (0, 1), (1, 0)]);

    let status = validator.validate(sequence);
    assert!(!status.is_valid);
    assert_eq!(status.exceptions, 1);
}

#[test]
fn test_alleged_instance() {
    let validator = SequenceValidator::new(5, 1);
    let mut sequence: Vec<Vec<(i32, i32)>> = Vec::new();

    sequence.push(vec![(-2, -1), (2, 2), (0, -1), (0, -2), (0, 0), (2, 1), (0, 2), (-1, 1)]);
    sequence.push(vec![(0, 1), (1, 2), (1, 0), (-1, -2), (0, 0), (0, -1), (-1, 1), (1, -1)]);
    sequence.push(vec![(-1, 1), (-1, -1), (0, -2), (1, -1), (0, 2)]);
    sequence.push(vec![(0, -2), (0, 0), (0, -1)]);
    sequence.push(vec![(-1, -1), (1, -1), (0, -1)]);
    sequence.push(vec![(0, 0), (0, -2), (0, -1)]);
    sequence.push(vec![(0, -1), (-1, -1), (1, -1)]);
    sequence.push(vec![(0, 0), (0, -1), (0, -2)]);
    sequence.push(vec![(0, 0), (0, -1), (-1, -1), (1, -1)]);
    sequence.push(vec![(-1, -1), (0, -1), (1, -1), (0, -2), (1, 0), (-1, 0), (0, 0)]);

    let status = validator.validate(sequence);
    assert!(status.is_valid);
    assert_eq!(status.exceptions, 1);
}

#[test]
fn validate_twice_gives_same_result() {
    let validator = SequenceValidator::new(3, 1);
    let first = validator.validate(blinker_with_extra());
    let second = validator.validate(blinker_with_extra());
    assert_eq!(first, second);
    assert_eq!(first, SequenceStatus { is_valid: false, exceptions: 1 });
}

#[test]
fn order_and_repeats_in_lists_do_not_matter() {
    let validator = SequenceValidator::new(3, 1);
    let shuffled = vec![
        vec![(1, 0), (0, 0), (-1, 0), (0, 0)],
        vec![(1, 0), (0, 1), (1, 0), (0, 0), (0, -1)],
    ];
    let status = validator.validate(shuffled);
    assert_eq!(status, validator.validate(blinker_with_extra()));
}

#[test]
fn justified_exception_keeps_sequence_valid() {
    let validator = SequenceValidator::new(3, 1);
    let mut sequence = blinker_with_extra();
    sequence.push(vec![(0, -1), (0, 0), (0, 1), (1, 0)]);
    let status = validator.validate(sequence);
    assert!(status.is_valid);
    assert_eq!(status.exceptions, 1);
}

#[test]
fn wrong_neighbor_count_at_due_step_invalidates() {
    let validator = SequenceValidator::new(2, 1);
    let mut sequence = blinker_with_extra();
    sequence.push(vec![(0, -1), (0, 0), (0, 1), (1, 0)]);
    let status = validator.validate(sequence);
    assert!(!status.is_valid);
    assert_eq!(status.exceptions, 1);
}

#[test]
fn scan_stops_after_failed_justification() {
    // The check at step 2 fails; the cell that appears in state 3 is still
    // recorded, the one in state 4 is never looked at.
    let validator = SequenceValidator::new(2, 1);
    let mut sequence = blinker_with_extra();
    sequence.push(vec![(0, -1), (0, 0), (0, 1), (1, 0)]);
    sequence.push(vec![
        (-1, 0),
        (0, -1),
        (0, 0),
        (0, 1),
        (1, -1),
        (1, 0),
        (1, 1),
        (10, 10),
    ]);
    sequence.push(vec![(20, 20)]);
    let status = validator.validate(sequence);
    assert!(!status.is_valid);
    assert_eq!(status.exceptions, 2);
}

#[test]
fn empty_sequence_is_valid() {
    let validator = SequenceValidator::new(3, 1);
    let status = validator.validate(Vec::new());
    assert!(status.is_valid);
    assert_eq!(status.exceptions, 0);
}

#[test]
fn single_state_is_valid() {
    let validator = SequenceValidator::new(3, 1);
    let status = validator.validate(vec![vec![(0, 0), (5, 5), (9, -9)]]);
    assert!(status.is_valid);
    assert_eq!(status.exceptions, 0);
}

#[test]
fn vanished_cell_makes_no_exception() {
    let validator = SequenceValidator::new(3, 1);
    let sequence = vec![vec![(-1, 0), (0, 0), (1, 0)], vec![(0, -1), (0, 0)]];
    let status = validator.validate(sequence);
    assert!(status.is_valid);
    assert_eq!(status.exceptions, 0);
}

#[test]
fn rule_generated_sequence_is_valid() {
    let validator = SequenceValidator::new(5, 2);
    let mut game = backwards::GameOfLife::new();
    for &(x, y) in [(1, 0), (2, 1), (0, 2), (1, 2), (2, 2)].iter() {
        game.add_cell(x, y);
    }
    let mut sequence = Vec::new();
    for _ in 0..8 {
        sequence.push(game.living_cells.clone());
        game.update();
    }
    let status = validator.validate(sequence);
    assert!(status.is_valid);
    assert_eq!(status.exceptions, 0);
}

#[test]
fn every_unexplained_cell_is_counted() {
    let validator = SequenceValidator::new(3, 1);
    let sequence = vec![
        vec![(-1, 0), (0, 0), (1, 0)],
        vec![(0, -1), (0, 0), (0, 1), (1, 0), (5, 5), (5, 5)],
    ];
    let status = validator.validate(sequence);
    assert!(!status.is_valid);
    assert_eq!(status.exceptions, 2);
}

#[test]
fn zero_delay_checks_on_the_same_step() {
    let status = SequenceValidator::new(3, 0).validate(blinker_with_extra());
    assert!(status.is_valid);
    assert_eq!(status.exceptions, 1);
    let status = SequenceValidator::new(2, 0).validate(blinker_with_extra());
    assert!(!status.is_valid);
    assert_eq!(status.exceptions, 1);
}

#[test]
fn new_keeps_configuration() {
    let validator = SequenceValidator::new(5, 7);
    assert_eq!(validator.special_neighbors, 5);
    assert_eq!(validator.special_steps_back, 7);
}
