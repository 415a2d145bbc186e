use bf_interp::interp::{cell_to_char, interpreteur, Streams};
use bf_interp::semantics::FALLBACK;
use bf_interp::lexer::convert_to_op;
use bf_interp::memory::{new_empty_memory, new_memory, Memoire};
use bf_interp::parser::{convert_to_instruction, Instruction};

fn program_of(text: &str) -> Vec<Instruction> {
    convert_to_instruction(convert_to_op(text.to_string())).unwrap()
}

fn run_on(
    memoire: &mut Memoire,
    text: &str,
    input: Vec<u8>,
    budget: u64,
) -> (Streams, Option<u64>) {
    let program = program_of(text);
    let mut streams = Streams::new(input);
    let left = interpreteur(memoire, &program, &mut streams, budget);
    (streams, left)
}

fn output_of(text: &str, input: Vec<u8>) -> Vec<char> {
    let mut memoire = new_empty_memory();
    let (streams, left) = run_on(&mut memoire, text, input, 10_000_000);
    assert!(left.is_some());
    streams.output
}

#[test]
fn fallback_character_is_question_mark() {
    assert_eq!(FALLBACK, '?');
}

#[test]
fn scalar_values_are_written_as_their_character() {
    assert_eq!(cell_to_char(0), '\0');
    assert_eq!(cell_to_char(65), 'A');
    assert_eq!(cell_to_char(0xE9), '\u{e9}');
    assert_eq!(cell_to_char(0xD7FF), '\u{D7FF}');
    assert_eq!(cell_to_char(0xE000), '\u{E000}');
    assert_eq!(cell_to_char(0x1F600), '\u{1F600}');
    assert_eq!(cell_to_char(0x10FFFF), '\u{10FFFF}');
}

#[test]
fn values_that_are_no_scalar_are_written_as_fallback() {
    assert_eq!(cell_to_char(-1), '?');
    assert_eq!(cell_to_char(i32::MIN), '?');
    assert_eq!(cell_to_char(0xD800), '?');
    assert_eq!(cell_to_char(0xDFFF), '?');
    assert_eq!(cell_to_char(0x110000), '?');
    assert_eq!(cell_to_char(i32::MAX), '?');
}

#[test]
fn empty_program_spends_nothing() {
    let mut m = new_empty_memory();
    let (streams, left) = run_on(&mut m, "", vec![1, 2], 5);
    assert_eq!(left, Some(5));
    assert_eq!(streams.output, Vec::<char>::new());
    assert_eq!(streams.consumed, 0);
    assert_eq!(m.donnee, vec![0; 1024]);
    assert_eq!(m.case_courante, 0);
}

#[test]
fn empty_program_ends_even_without_budget() {
    let mut m = new_empty_memory();
    let (_, left) = run_on(&mut m, "", vec![], 0);
    assert_eq!(left, Some(0));
}

#[test]
fn program_without_budget_does_not_start() {
    let mut m = new_empty_memory();
    let (streams, left) = run_on(&mut m, "+.", vec![], 0);
    assert_eq!(left, None);
    assert_eq!(m.read(), 0);
    assert_eq!(streams.output, Vec::<char>::new());
}

#[test]
fn pluses_then_output_writes_the_character_of_the_count() {
    for n in [0usize, 1, 10, 33, 65, 126, 233, 1000] {
        let text = "+".repeat(n) + ".";
        let expected = char::from_u32(n as u32).unwrap();
        assert_eq!(output_of(&text, vec![]), vec![expected], "n = {}", n);
    }
}

#[test]
fn count_in_the_surrogate_range_is_written_as_fallback() {
    let text = "+".repeat(0xD800) + ".";
    assert_eq!(output_of(&text, vec![]), vec!['?']);
}

#[test]
fn counting_program_costs_one_unit_per_opcode() {
    let mut m = new_empty_memory();
    let (streams, left) = run_on(&mut m, &("+".repeat(65) + "."), vec![], 100);
    assert_eq!(left, Some(34));
    assert_eq!(streams.output, vec!['A']);
    assert_eq!(m.read(), 65);
}

#[test]
fn decrement_below_zero_goes_negative_and_prints_fallback() {
    let mut m = new_empty_memory();
    let (streams, _) = run_on(&mut m, "-.--", vec![], 100);
    assert_eq!(streams.output, vec!['?']);
    assert_eq!(m.read(), -3);
}

#[test]
fn increment_wraps_at_the_top_of_the_range() {
    let mut m = new_memory(vec![i32::MAX]);
    run_on(&mut m, "+", vec![], 10);
    assert_eq!(m.read(), i32::MIN);
}

#[test]
fn decrement_wraps_at_the_bottom_of_the_range() {
    let mut m = new_memory(vec![i32::MIN]);
    run_on(&mut m, "-", vec![], 10);
    assert_eq!(m.read(), i32::MAX);
}

#[test]
fn clear_loop_brings_the_cell_to_zero() {
    for v in [1, 2, 5, 100] {
        let mut m = new_memory(vec![v, 17]);
        let (streams, left) = run_on(&mut m, "[-]", vec![9], 1_000);
        assert_eq!(m.donnee, vec![0, 17]);
        assert_eq!(m.case_courante, 0);
        assert_eq!(left, Some(1_000 - (2 * v as u64 + 1)));
        assert_eq!(streams.consumed, 0);
        assert_eq!(streams.output, Vec::<char>::new());
    }
}

#[test]
fn clear_loop_on_zero_cell_does_not_enter_its_body() {
    let mut m = new_memory(vec![0, 17]);
    let (_, left) = run_on(&mut m, "[-]", vec![], 10);
    assert_eq!(m.donnee, vec![0, 17]);
    assert_eq!(left, Some(9));
}

#[test]
fn clear_loop_needs_two_units_per_iteration_and_one_more() {
    let mut m = new_memory(vec![5]);
    let (_, left) = run_on(&mut m, "[-]", vec![], 11);
    assert_eq!(left, Some(0));
    assert_eq!(m.read(), 0);

    let mut m = new_memory(vec![5]);
    let (_, left) = run_on(&mut m, "[-]", vec![], 10);
    assert_eq!(left, None);
    assert_eq!(m.read(), 0);

    let mut m = new_memory(vec![5]);
    let (_, left) = run_on(&mut m, "[-]", vec![], 9);
    assert_eq!(left, None);
    assert_eq!(m.read(), 1);
}

#[test]
fn body_runs_once_per_iteration() {
    // Each iteration of the loop writes one character.
    let mut m = new_memory(vec![3, 64]);
    let (streams, _) = run_on(&mut m, "[>+.<-]", vec![], 1_000);
    assert_eq!(streams.output, vec!['A', 'B', 'C']);
    assert_eq!(m.donnee, vec![0, 67]);
}

#[test]
fn loop_is_skipped_when_cell_is_zero_on_entry() {
    assert_eq!(output_of("[+.]", vec![]), Vec::<char>::new());
}

#[test]
fn loop_condition_reads_the_cell_under_the_pointer_after_the_body() {
    // The body moves the pointer: the test after it looks at the new cell.
    let mut m = new_memory(vec![1, 0, 5]);
    let (_, left) = run_on(&mut m, "[>]", vec![], 100);
    assert_eq!(m.case_courante, 1);
    assert_eq!(left, Some(97));
}

#[test]
fn echo_writes_the_byte_that_was_read() {
    assert_eq!(output_of(",.", vec![65]), vec!['A']);
}

#[test]
fn echo_without_input_writes_what_the_cell_held() {
    assert_eq!(output_of(",.", vec![]), vec!['\0']);
    assert_eq!(output_of("+++,.", vec![]), vec!['\u{3}']);
}

#[test]
fn input_reads_one_byte_at_a_time_in_order() {
    let mut m = new_empty_memory();
    let (streams, _) = run_on(&mut m, ",>,>,>,", vec![10, 20, 30], 100);
    assert_eq!(&m.donnee[0..4], &[10, 20, 30, 0]);
    assert_eq!(streams.consumed, 3);
    assert_eq!(streams.input, vec![10, 20, 30]);
}

#[test]
fn input_overwrites_the_cell() {
    let mut m = new_memory(vec![-5]);
    run_on(&mut m, ",", vec![7], 10);
    assert_eq!(m.read(), 7);
}

#[test]
fn input_bytes_are_zero_extended() {
    let mut m = new_empty_memory();
    let (streams, _) = run_on(&mut m, ",.>,.", vec![200, 255], 100);
    assert_eq!(&m.donnee[0..2], &[200, 255]);
    assert_eq!(streams.output, vec!['\u{C8}', '\u{FF}']);
}

#[test]
fn exhausted_input_leaves_later_cells_unchanged() {
    let mut m = new_memory(vec![1, 2, 3]);
    let (streams, left) = run_on(&mut m, ",>,>,", vec![9], 100);
    assert_eq!(m.donnee, vec![9, 2, 3]);
    assert_eq!(streams.consumed, 1);
    assert_eq!(left, Some(95));
}

#[test]
fn copy_input_to_output_until_a_zero_byte() {
    assert_eq!(output_of(",[.,]", b"hi!\0more".to_vec()), vec!['h', 'i', '!']);
}

#[test]
fn nested_loops_multiply() {
    // 6 * 7 = 42 = '*'
    assert_eq!(output_of("++++++[>+++++++<-]>.", vec![]), vec!['*']);
}

#[test]
fn doubly_nested_loops_run_inner_bodies_in_full() {
    // 2 * 3 * 4 = 24
    let mut m = new_empty_memory();
    run_on(&mut m, "++[>+++[>++++<-]<-]", vec![], 10_000);
    assert_eq!(&m.donnee[0..3], &[0, 0, 24]);
}

#[test]
fn greeting_program_prints_its_text() {
    let text = "++++++++[>++++[>++>+++>+++>+<<<<-]>+>+>->>+[<]<-]>>.>---.+++++++..+++.\
                >>.<-.<.+++.------.--------.>>+.>++.";
    let out: String = output_of(text, vec![]).into_iter().collect();
    assert_eq!(out, "Hello World!\n");
}

#[test]
fn endless_loop_stops_when_the_budget_is_spent() {
    let mut m = new_empty_memory();
    let (streams, left) = run_on(&mut m, "+[]", vec![], 1_000);
    assert_eq!(left, None);
    assert_eq!(m.read(), 1);
    assert_eq!(streams.output, Vec::<char>::new());
}

#[test]
fn budget_runs_out_in_the_middle_of_the_program() {
    let mut m = new_empty_memory();
    let (streams, left) = run_on(&mut m, "+.+.+.", vec![], 4);
    assert_eq!(left, None);
    assert_eq!(streams.output, vec!['\u{1}', '\u{2}']);
    assert_eq!(m.read(), 2);
}

#[test]
fn budget_that_just_suffices_leaves_zero() {
    let mut m = new_empty_memory();
    let (streams, left) = run_on(&mut m, "+.+.+.", vec![], 6);
    assert_eq!(left, Some(0));
    assert_eq!(streams.output, vec!['\u{1}', '\u{2}', '\u{3}']);
}

#[test]
fn program_moves_past_the_right_edge() {
    let mut m = new_empty_memory();
    run_on(&mut m, &(">".repeat(1024) + "+"), vec![], 10_000);
    assert_eq!(m.case_courante, 1024);
    assert_eq!(m.donnee.len(), 1025);
    assert_eq!(m.read(), 1);
}

#[test]
fn program_wraps_at_the_left_edge() {
    let mut m = new_empty_memory();
    run_on(&mut m, "<+", vec![], 10);
    assert_eq!(m.case_courante, 1023);
    assert_eq!(m.donnee.len(), 1024);
    assert_eq!(m.donnee[1023], 1);
}

#[test]
fn program_left_then_right_from_cell_zero_grows_the_tape() {
    let mut m = new_empty_memory();
    run_on(&mut m, "<>", vec![], 10);
    assert_eq!(m.case_courante, 1024);
    assert_eq!(m.donnee.len(), 1025);
}

#[test]
fn output_appends_to_what_was_written_before() {
    let program = program_of("+.");
    let mut m = new_empty_memory();
    let mut streams = Streams::new(vec![]);
    streams.emit('x');
    interpreteur(&mut m, &program, &mut streams, 10);
    assert_eq!(streams.output, vec!['x', '\u{1}']);
}

#[test]
fn streams_hand_out_bytes_then_nothing() {
    let mut streams = Streams::new(vec![4, 5]);
    assert!(streams.is_well_formed());
    assert_eq!(streams.read_byte(), Some(4));
    assert_eq!(streams.read_byte(), Some(5));
    assert_eq!(streams.read_byte(), None);
    assert_eq!(streams.read_byte(), None);
    assert_eq!(streams.consumed, 2);
    assert_eq!(streams.input, vec![4, 5]);
}

#[test]
fn streams_with_too_many_bytes_marked_read_are_not_well_formed() {
    let streams = Streams { input: vec![1], consumed: 2, output: Vec::new() };
    assert!(!streams.is_well_formed());
}
