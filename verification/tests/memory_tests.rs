use bf_interp::memory::{new_empty_memory, new_memory, Memoire, INITIAL_CELLS};

#[test]
fn fresh_memory_is_1024_zero_cells_at_pointer_zero() {
    let m = new_empty_memory();
    assert_eq!(INITIAL_CELLS, 1024);
    assert_eq!(m.donnee, vec![0i32; 1024]);
    assert_eq!(m.case_courante, 0);
    assert!(m.is_well_formed());
}

#[test]
fn memory_over_given_cells_starts_at_pointer_zero() {
    let m = new_memory(vec![3, -4, 5]);
    assert_eq!(m.donnee, vec![3, -4, 5]);
    assert_eq!(m.case_courante, 0);
    assert!(m.is_well_formed());
    assert_eq!(m.read(), 3);
}

#[test]
fn memory_without_cells_is_not_well_formed() {
    let m = new_memory(Vec::new());
    assert!(!m.is_well_formed());
}

#[test]
fn pointer_past_the_end_is_not_well_formed() {
    let m = Memoire { donnee: vec![0, 0], case_courante: 2 };
    assert!(!m.is_well_formed());
}

#[test]
fn write_changes_only_the_current_cell() {
    let mut m = new_memory(vec![1, 2, 3]);
    m.move_right();
    m.write(-7);
    assert_eq!(m.donnee, vec![1, -7, 3]);
    assert_eq!(m.case_courante, 1);
    assert_eq!(m.read(), -7);
}

#[test]
fn move_right_inside_the_tape_only_moves_the_pointer() {
    let mut m = new_memory(vec![1, 2, 3]);
    m.move_right();
    assert_eq!(m.case_courante, 1);
    assert_eq!(m.donnee, vec![1, 2, 3]);
}

#[test]
fn move_right_from_the_last_cell_appends_a_zero_cell_and_enters_it() {
    let mut m = new_memory(vec![1, 2, 3]);
    m.move_right();
    m.move_right();
    assert_eq!(m.case_courante, 2);
    m.move_right();
    assert_eq!(m.case_courante, 3);
    assert_eq!(m.donnee, vec![1, 2, 3, 0]);
    assert_eq!(m.read(), 0);
}

#[test]
fn move_left_inside_the_tape_only_moves_the_pointer() {
    let mut m = new_memory(vec![1, 2, 3]);
    m.move_right();
    m.move_left();
    assert_eq!(m.case_courante, 0);
    assert_eq!(m.donnee, vec![1, 2, 3]);
}

#[test]
fn move_left_from_cell_zero_wraps_to_the_last_cell() {
    let mut m = new_empty_memory();
    m.move_left();
    assert_eq!(m.case_courante, 1023);
    assert_eq!(m.donnee.len(), 1024);
}

#[test]
fn left_then_right_from_cell_zero_ends_on_a_new_cell() {
    let mut m = new_empty_memory();
    m.move_left();
    m.move_right();
    assert_eq!(m.case_courante, 1024);
    assert_eq!(m.donnee.len(), 1025);
}

#[test]
fn left_then_right_elsewhere_comes_back() {
    let mut m = new_memory(vec![1, 2, 3]);
    m.move_right();
    m.move_left();
    m.move_right();
    assert_eq!(m.case_courante, 1);
    assert_eq!(m.donnee, vec![1, 2, 3]);
}

#[test]
fn right_then_left_comes_back() {
    let mut m = new_memory(vec![1, 2]);
    m.move_right();
    m.move_right();
    m.move_left();
    assert_eq!(m.case_courante, 1);
    assert_eq!(m.donnee, vec![1, 2, 0]);
}

#[test]
fn single_cell_tape_wraps_onto_itself() {
    let mut m = new_memory(vec![9]);
    m.move_left();
    assert_eq!(m.case_courante, 0);
    assert_eq!(m.donnee, vec![9]);
}

#[test]
fn tape_grows_once_per_move_after_the_initial_cells() {
    let mut m = new_empty_memory();
    for step in 1..=1023 {
        m.move_right();
        assert_eq!(m.case_courante, step);
        assert_eq!(m.donnee.len(), 1024);
    }
    for step in 1024..=1040 {
        m.move_right();
        assert_eq!(m.case_courante, step);
        assert_eq!(m.donnee.len(), step + 1);
    }
    assert!(m.donnee.iter().all(|cell| *cell == 0));
}

#[test]
fn written_cells_survive_wraparound_and_return() {
    let mut m = new_empty_memory();
    m.write(7);
    m.move_right();
    m.write(8);
    m.move_left();
    m.move_left();
    assert_eq!(m.case_courante, 1023);
    m.write(9);
    m.move_right();
    assert_eq!(m.case_courante, 1024);
    assert_eq!(m.donnee.len(), 1025);
    for _ in 0..1024 {
        m.move_left();
    }
    assert_eq!(m.case_courante, 0);
    assert_eq!(m.read(), 7);
    m.move_right();
    assert_eq!(m.read(), 8);
    assert_eq!(m.donnee[1023], 9);
    assert_eq!(m.donnee[1024], 0);
    assert_eq!(m.donnee.len(), 1025);
}
