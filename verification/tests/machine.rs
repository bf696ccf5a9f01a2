use brainfuck::{Interpreter, Status};
use brainfuck::ir::{Code, IR};
use brainfuck::opcode::Opcode;
use brainfuck::Error;

fn program(instrs: Vec<IR>) -> Code {
    Code { instrs }
}

fn compiled(source: &str) -> Code {
    let symbols: Vec<Opcode> = source.bytes().filter_map(Opcode::from_byte).collect();
    match Code::from(symbols) {
        Ok(code) => code,
        Err(e) => panic!("compilation failed: {:?}", e),
    }
}

fn machine_on(tape: Vec<u8>, ps: usize) -> Interpreter {
    let mut machine = Interpreter::new();
    machine.stack = tape;
    machine.ps = ps;
    machine
}

#[test]
fn a_new_machine_has_one_zero_cell() {
    let machine = Interpreter::new();
    assert_eq!(machine.stack, vec![0u8]);
    assert_eq!(machine.ps, 0);
    assert_eq!(machine.pc, 0);
    assert_eq!(machine.input, Vec::<u8>::new());
    assert_eq!(machine.consumed, 0);
    assert_eq!(machine.output, Vec::<u8>::new());
}

#[test]
fn three_increments_then_output_write_one_byte_three() {
    let code = match Code::from(vec![Opcode::ADD, Opcode::ADD, Opcode::ADD, Opcode::PUTCHAR]) {
        Ok(code) => code,
        Err(e) => panic!("compilation failed: {:?}", e),
    };
    assert_eq!(code.instrs, vec![IR::ADD(3), IR::PUTCHAR]);
    let mut machine = Interpreter::new();
    assert_eq!(machine.execute(&code, 100), Ok(Status::Finished));
    assert_eq!(machine.output, vec![3u8]);
    assert_eq!(machine.stack, vec![3u8]);
    assert_eq!(machine.pc, 2);
}

#[test]
fn countdown_loop_entered_at_two_writes_one_then_zero() {
    let code = compiled("[-.]");
    assert_eq!(
        code.instrs,
        vec![IR::JIZ(3), IR::SUB(1), IR::PUTCHAR, IR::JNZ(0)]
    );
    let mut machine = machine_on(vec![2], 0);
    assert_eq!(machine.execute(&code, 100), Ok(Status::Finished));
    assert_eq!(machine.output, vec![1u8, 0u8]);
    assert_eq!(machine.stack, vec![0u8]);
    assert_eq!(machine.pc, 4);
}

#[test]
fn increment_to_two_then_countdown_loop_writes_one_then_zero() {
    let code = compiled("+[-.]");
    assert_eq!(
        code.instrs,
        vec![IR::ADD(1), IR::JIZ(4), IR::SUB(1), IR::PUTCHAR, IR::JNZ(1)]
    );
    let mut machine = machine_on(vec![1], 0);
    assert_eq!(machine.execute(&code, 100), Ok(Status::Finished));
    assert_eq!(machine.output, vec![1u8, 0u8]);
    assert_eq!(machine.stack, vec![0u8]);
}

#[test]
fn increment_of_two_then_countdown_loop_writes_two_one_zero() {
    let code = compiled("+[-.]");
    let mut machine = machine_on(vec![2], 0);
    assert_eq!(machine.execute(&code, 100), Ok(Status::Finished));
    assert_eq!(machine.output, vec![2u8, 1u8, 0u8]);
}

#[test]
fn countdown_loop_steps_land_behind_the_partner() {
    let code = compiled("[-.]");
    let mut machine = machine_on(vec![2], 0);
    let mut visited = vec![machine.pc];
    while machine.step(&code) == Ok(Status::Running) {
        visited.push(machine.pc);
    }
    assert_eq!(visited, vec![0, 1, 2, 3, 1, 2, 3, 4]);
    assert_eq!(machine.step(&code), Ok(Status::Finished));
}

#[test]
fn loop_over_a_zero_cell_is_skipped() {
    let code = compiled("[-.]+");
    let mut machine = Interpreter::new();
    assert_eq!(machine.step(&code), Ok(Status::Running));
    assert_eq!(machine.pc, 4);
    assert_eq!(machine.execute(&code, 100), Ok(Status::Finished));
    assert_eq!(machine.output, Vec::<u8>::new());
    assert_eq!(machine.stack, vec![1u8]);
}

#[test]
fn input_without_bytes_fails_and_keeps_the_program_counter() {
    let code = compiled("+,.");
    let mut machine = Interpreter::new();
    assert_eq!(machine.execute(&code, 100), Err(Error::InputExhausted));
    assert_eq!(machine.pc, 1);
    assert_eq!(machine.stack, vec![1u8]);
    assert_eq!(machine.output, Vec::<u8>::new());
    assert_eq!(machine.step(&code), Err(Error::InputExhausted));
    assert_eq!(machine.pc, 1);
    assert_eq!(machine.stack, vec![1u8]);
    assert_eq!(machine.consumed, 0);
    assert_eq!(machine.status(&code), Err(Error::InputExhausted));
}

#[test]
fn input_that_arrives_later_lets_the_run_go_on() {
    let code = compiled(",.");
    let mut machine = Interpreter::new();
    assert_eq!(machine.execute(&code, 100), Err(Error::InputExhausted));
    machine.input.push(b'x');
    assert_eq!(machine.execute(&code, 100), Ok(Status::Finished));
    assert_eq!(machine.output, vec![b'x']);
    assert_eq!(machine.consumed, 1);
}

#[test]
fn input_reads_bytes_in_order() {
    let code = compiled(",>,>,");
    let mut machine = Interpreter::new();
    machine.input = vec![7, 8, 9, 10];
    assert_eq!(machine.execute(&code, 100), Ok(Status::Finished));
    assert_eq!(machine.stack, vec![7u8, 8, 9]);
    assert_eq!(machine.consumed, 3);
    assert_eq!(machine.input, vec![7u8, 8, 9, 10]);
}

#[test]
fn increment_wraps_from_255_to_0() {
    let code = program(vec![IR::ADD(1)]);
    let mut machine = machine_on(vec![255], 0);
    assert_eq!(machine.step(&code), Ok(Status::Running));
    assert_eq!(machine.stack, vec![0u8]);
}

#[test]
fn decrement_wraps_from_0_to_255() {
    let code = program(vec![IR::SUB(1)]);
    let mut machine = machine_on(vec![0], 0);
    assert_eq!(machine.step(&code), Ok(Status::Running));
    assert_eq!(machine.stack, vec![255u8]);
}

#[test]
fn increment_and_decrement_by_a_count_are_modulo_256() {
    let mut machine = machine_on(vec![100], 0);
    assert_eq!(machine.step(&program(vec![IR::ADD(200)])), Ok(Status::Running));
    assert_eq!(machine.stack, vec![44u8]);

    let mut machine = machine_on(vec![100], 0);
    assert_eq!(machine.step(&program(vec![IR::SUB(200)])), Ok(Status::Running));
    assert_eq!(machine.stack, vec![156u8]);

    let mut machine = machine_on(vec![9], 0);
    assert_eq!(machine.step(&program(vec![IR::ADD(0)])), Ok(Status::Running));
    assert_eq!(machine.stack, vec![9u8]);
    assert_eq!(machine.pc, 1);
}

#[test]
fn move_left_at_cell_zero_stays_at_cell_zero() {
    for count in [0u32, 1, 2, 1000, u32::MAX] {
        let code = program(vec![IR::SHL(count)]);
        let mut machine = Interpreter::new();
        assert_eq!(machine.step(&code), Ok(Status::Running));
        assert_eq!(machine.ps, 0);
        assert_eq!(machine.pc, 1);
        assert_eq!(machine.stack, vec![0u8]);
    }
}

#[test]
fn move_left_stops_at_cell_zero() {
    let mut machine = machine_on(vec![1, 2, 3, 4], 3);
    assert_eq!(machine.step(&program(vec![IR::SHL(2)])), Ok(Status::Running));
    assert_eq!(machine.ps, 1);

    let mut machine = machine_on(vec![1, 2, 3, 4], 3);
    assert_eq!(machine.step(&program(vec![IR::SHL(3)])), Ok(Status::Running));
    assert_eq!(machine.ps, 0);

    let mut machine = machine_on(vec![1, 2, 3, 4], 3);
    assert_eq!(machine.step(&program(vec![IR::SHL(5)])), Ok(Status::Running));
    assert_eq!(machine.ps, 0);
    assert_eq!(machine.stack, vec![1u8, 2, 3, 4]);
}

#[test]
fn move_right_grows_the_tape_with_zero_cells() {
    let mut machine = machine_on(vec![7], 0);
    assert_eq!(machine.step(&program(vec![IR::SHR(4)])), Ok(Status::Running));
    assert_eq!(machine.ps, 4);
    assert_eq!(machine.stack, vec![7u8, 0, 0, 0, 0]);

    let mut machine = machine_on(vec![1, 2, 3], 2);
    assert_eq!(machine.step(&program(vec![IR::SHR(1)])), Ok(Status::Running));
    assert_eq!(machine.ps, 3);
    assert_eq!(machine.stack, vec![1u8, 2, 3, 0]);

    let mut machine = Interpreter::new();
    assert_eq!(machine.step(&program(vec![IR::SHR(1000)])), Ok(Status::Running));
    assert_eq!(machine.ps, 1000);
    assert_eq!(machine.stack.len(), 1001);
    assert!(machine.stack.iter().all(|cell| *cell == 0));
}

#[test]
fn move_right_on_the_tape_does_not_grow_it() {
    let mut machine = machine_on(vec![1, 2, 3], 0);
    assert_eq!(machine.step(&program(vec![IR::SHR(2)])), Ok(Status::Running));
    assert_eq!(machine.ps, 2);
    assert_eq!(machine.stack, vec![1u8, 2, 3]);

    let mut machine = machine_on(vec![1, 2, 3], 1);
    assert_eq!(machine.step(&program(vec![IR::SHR(0)])), Ok(Status::Running));
    assert_eq!(machine.ps, 1);
    assert_eq!(machine.stack, vec![1u8, 2, 3]);
}

#[test]
fn the_tape_never_shrinks() {
    let code = compiled(">>>><<<<");
    let mut machine = Interpreter::new();
    assert_eq!(machine.execute(&code, 100), Ok(Status::Finished));
    assert_eq!(machine.ps, 0);
    assert_eq!(machine.stack.len(), 5);
}

#[test]
fn a_move_that_no_tape_can_follow_is_reported() {
    let code = program(vec![IR::SHR(2)]);
    let mut machine = Interpreter::new();
    machine.ps = usize::MAX - 2;
    assert_eq!(machine.status(&code), Ok(Status::TapeLimit));
    machine.ps = usize::MAX - 3;
    assert_eq!(machine.status(&code), Ok(Status::Running));
}

#[test]
fn output_writes_the_current_cell() {
    let code = program(vec![IR::PUTCHAR, IR::PUTCHAR]);
    let mut machine = machine_on(vec![1, 65, 3], 1);
    assert_eq!(machine.execute(&code, 100), Ok(Status::Finished));
    assert_eq!(machine.output, vec![65u8, 65u8]);
    assert_eq!(machine.stack, vec![1u8, 65, 3]);
}

#[test]
fn jump_if_zero_is_taken_on_zero_only() {
    let code = program(vec![IR::JIZ(2), IR::ADD(1), IR::JNZ(0)]);
    let mut machine = machine_on(vec![0], 0);
    assert_eq!(machine.step(&code), Ok(Status::Running));
    assert_eq!(machine.pc, 3);

    let mut machine = machine_on(vec![5], 0);
    assert_eq!(machine.step(&code), Ok(Status::Running));
    assert_eq!(machine.pc, 1);
}

#[test]
fn jump_if_not_zero_is_taken_on_nonzero_only() {
    let code = program(vec![IR::JIZ(2), IR::ADD(1), IR::JNZ(0)]);
    let mut machine = machine_on(vec![5], 0);
    machine.pc = 2;
    assert_eq!(machine.step(&code), Ok(Status::Running));
    assert_eq!(machine.pc, 1);

    let mut machine = machine_on(vec![0], 0);
    machine.pc = 2;
    assert_eq!(machine.step(&code), Ok(Status::Running));
    assert_eq!(machine.pc, 3);
}

#[test]
fn loop_start_left_open_jumps_behind_instruction_zero() {
    let code = compiled("[+");
    assert_eq!(code.instrs, vec![IR::JIZ(0), IR::ADD(1)]);
    let mut machine = Interpreter::new();
    assert_eq!(machine.execute(&code, 100), Ok(Status::Finished));
    assert_eq!(machine.stack, vec![1u8]);

    let code = compiled("+>[-");
    assert_eq!(
        code.instrs,
        vec![IR::ADD(1), IR::SHR(1), IR::JIZ(0), IR::SUB(1)]
    );
    let mut machine = Interpreter::new();
    assert_eq!(machine.execute(&code, 3), Ok(Status::Running));
    assert_eq!(machine.pc, 1);
}

#[test]
fn step_at_the_end_changes_nothing() {
    let code = compiled("+");
    let mut machine = Interpreter::new();
    assert_eq!(machine.step(&code), Ok(Status::Running));
    assert_eq!(machine.step(&code), Ok(Status::Finished));
    assert_eq!(machine.step(&code), Ok(Status::Finished));
    assert_eq!(machine.pc, 1);
    assert_eq!(machine.stack, vec![1u8]);
    assert_eq!(machine.status(&code), Ok(Status::Finished));
}

#[test]
fn the_empty_program_is_finished_at_once() {
    let code = compiled("");
    let mut machine = Interpreter::new();
    assert_eq!(machine.status(&code), Ok(Status::Finished));
    assert_eq!(machine.execute(&code, 10), Ok(Status::Finished));
    assert_eq!(machine.pc, 0);
}

#[test]
fn execute_stops_when_the_steps_are_used_up() {
    let code = compiled("+[]");
    let mut machine = Interpreter::new();
    assert_eq!(machine.execute(&code, 10), Ok(Status::Running));
    assert_eq!(machine.stack, vec![1u8]);
    assert_eq!(machine.execute(&code, 1000), Ok(Status::Running));
    assert_eq!(machine.output, Vec::<u8>::new());
}

#[test]
fn execute_counts_instructions_not_symbols() {
    let code = compiled("+++>++");
    let mut machine = Interpreter::new();
    assert_eq!(machine.execute(&code, 0), Ok(Status::Running));
    assert_eq!(machine.pc, 0);
    assert_eq!(machine.execute(&code, 2), Ok(Status::Running));
    assert_eq!(machine.pc, 2);
    assert_eq!(machine.stack, vec![3u8, 0]);
    assert_eq!(machine.execute(&code, 1), Ok(Status::Finished));
    assert_eq!(machine.stack, vec![3u8, 2]);
}

#[test]
fn execute_in_parts_equals_execute_at_once() {
    let source = "++++++++[>++++[>++>+++>+++>+<<<<-]>+>+>->>+[<]<-]>>.>---.";
    let code = compiled(source);
    let mut whole = Interpreter::new();
    assert_eq!(whole.execute(&code, 300), Ok(Status::Running));
    let mut parts = Interpreter::new();
    for _ in 0..100 {
        assert_eq!(parts.execute(&code, 3), Ok(Status::Running));
    }
    assert_eq!(parts.stack, whole.stack);
    assert_eq!(parts.ps, whole.ps);
    assert_eq!(parts.pc, whole.pc);
    assert_eq!(parts.output, whole.output);
}

#[test]
fn folded_increments_equal_single_increments() {
    for n in [0usize, 1, 2, 255, 256, 257, 300, 1000] {
        let folded = compiled(&"+".repeat(n));
        assert!(folded.instrs.len() <= 1);
        let single = program(vec![IR::ADD(1); n]);
        let mut a = machine_on(vec![5, 250, 9], 1);
        let mut b = machine_on(vec![5, 250, 9], 1);
        assert_eq!(a.execute(&folded, n as u64), Ok(Status::Finished));
        assert_eq!(b.execute(&single, n as u64), Ok(Status::Finished));
        assert_eq!(a.stack, b.stack);
        assert_eq!(a.stack[1], ((250 + n) % 256) as u8);
        assert_eq!(a.ps, b.ps);
        assert_eq!(a.output, b.output);
    }
}

#[test]
fn run_reads_compiles_and_executes() {
    let mut machine = Interpreter::new();
    assert_eq!(
        machine.run(b"three: +++ print: .".to_vec(), 100),
        Ok(Status::Finished)
    );
    assert_eq!(machine.output, vec![3u8]);
}

#[test]
fn run_refuses_a_loop_end_that_closes_nothing() {
    let mut machine = Interpreter::new();
    assert_eq!(
        machine.run(b"+++.]".to_vec(), 100),
        Err(Error::UnbalancedLoop)
    );
    assert_eq!(machine.output, Vec::<u8>::new());
    assert_eq!(machine.stack, vec![0u8]);
    assert_eq!(machine.pc, 0);
}

#[test]
fn run_reports_exhausted_input() {
    let mut machine = Interpreter::new();
    machine.input = vec![b'a', b'b', b'c'];
    assert_eq!(machine.run(b",[.,]".to_vec(), 1000), Err(Error::InputExhausted));
    assert_eq!(machine.output, b"abc".to_vec());
    assert_eq!(machine.pc, 3);
    assert_eq!(machine.consumed, 3);
}

#[test]
fn run_writes_hello_world() {
    let source = b"++++++++[>++++[>++>+++>+++>+<<<<-]>+>+>->>+[<]<-]>>.>---.+++++++..+++.>>.<-.<.+++.------.--------.>>+.>++.";
    let mut machine = Interpreter::new();
    assert_eq!(machine.run(source.to_vec(), 100_000), Ok(Status::Finished));
    assert_eq!(machine.output, b"Hello World!\n".to_vec());
}

#[test]
fn a_machine_is_well_formed_with_its_pointer_on_the_tape() {
    assert!(Interpreter::new().is_wf());
    assert!(machine_on(vec![1, 2, 3], 2).is_wf());
    assert!(!machine_on(vec![1, 2, 3], 3).is_wf());
    assert!(!machine_on(vec![], 0).is_wf());

    let mut machine = Interpreter::new();
    machine.input = vec![1, 2];
    machine.consumed = 2;
    assert!(machine.is_wf());
    machine.consumed = 3;
    assert!(!machine.is_wf());
}

#[test]
fn a_run_keeps_the_machine_well_formed() {
    let code = compiled("+>>,[-<+>]<<.>>>");
    let mut machine = Interpreter::new();
    machine.input = vec![4];
    for _ in 0..40 {
        assert!(machine.execute(&code, 1).is_ok());
        assert!(machine.is_wf());
        assert!(machine.pc <= code.instrs.len());
    }
    assert_eq!(machine.status(&code), Ok(Status::Finished));
    assert_eq!(machine.output, vec![1u8]);
    assert_eq!(machine.stack, vec![1u8, 4, 0, 0]);
}
