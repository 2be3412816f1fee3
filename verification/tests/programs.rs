use bfc::eval::{eval_with_io, Transcript, IO};
use bfc::ir::{IRProgram, Value, IR};
use bfc::optimize::optimize;
use bfc::parser::Parser;

const FUEL: u64 = 1_000_000;

struct TestIO {
    input: Vec<Value>,
    input_idx: usize,
    output: Vec<Value>,
    output_idx: usize,
}

impl IO for TestIO {
    fn putchar(&mut self, val: Value) {
        assert!(
            self.output_idx < self.output.len(),
            "Produced too much output"
        );
        assert_eq!(val, self.output[self.output_idx]);
        self.output_idx += 1;
    }

    fn getchar(&mut self) -> Value {
        assert!(self.input_idx < self.input.len(), "Consumed too much input");
        let ret = self.input[self.input_idx];
        self.input_idx += 1;
        ret
    }
}

impl TestIO {
    fn new(input: &[u8], output: &[u8]) -> Self {
        Self {
            input: input.iter().map(|c| *c as Value).collect(),
            input_idx: 0,
            output: output.iter().map(|c| *c as Value).collect(),
            output_idx: 0,
        }
    }

    fn done(&self, log: &Transcript) {
        assert!(log.finished, "Ran out of fuel");
        assert_eq!(
            self.input_idx,
            self.input.len(),
            "Did not consume full input"
        );
        assert_eq!(
            self.output_idx,
            self.output.len(),
            "Did not read full output"
        );
        assert_eq!(log.reads, self.input);
        assert_eq!(log.writes, self.output);
    }
}

fn test_unopt_program_io(code: &str, input: &[u8], output: &[u8]) {
    let ast_prog = Parser::parse(code).unwrap();
    let ir_prog = IRProgram::from_ast_program(&ast_prog);
    let mut io = TestIO::new(input, output);
    let log = eval_with_io(&ir_prog, &mut io, FUEL);
    io.done(&log);
}

fn test_opt_program_io(code: &str, input: &[u8], output: &[u8]) {
    let ast_prog = Parser::parse(code).unwrap();
    let ir_prog = IRProgram::from_ast_program(&ast_prog);
    let ir_prog = optimize(&ir_prog);
    let mut io = TestIO::new(input, output);
    let log = eval_with_io(&ir_prog, &mut io, FUEL);
    io.done(&log);
}

#[test]
fn get_put_unoptimized() {
    test_unopt_program_io(",.", b"a", b"a");
}

#[test]
fn get_put_optimized() {
    test_opt_program_io(",.", b"a", b"a");
}

#[test]
fn put_zero_unoptimized() {
    test_unopt_program_io(".", b"", b"\0");
}

#[test]
fn put_zero_optimized() {
    test_opt_program_io(".", b"", b"\0");
}

#[test]
fn put_newline_unoptimized() {
    test_unopt_program_io("++++++++++.", b"", b"\n");
}

#[test]
fn put_newline_optimized() {
    test_opt_program_io("++++++++++.", b"", b"\n");
}

#[test]
fn get_get_put_unoptimized() {
    test_unopt_program_io(",,.", b"ab", b"b");
}

#[test]
fn get_get_put_optimized() {
    test_opt_program_io(",,.", b"ab", b"b");
}

#[test]
fn addmul_unoptimized() {
    test_unopt_program_io("++++++[->+++++<]>++.", b"", b" ");
}

#[test]
fn addmul_optimized() {
    test_opt_program_io("++++++[->+++++<]>++.", b"", b" ");
}

#[test]
fn two_cells_unoptimized() {
    test_unopt_program_io("++>+++<.>.", b"", b"\x02\x03");
}

#[test]
fn two_cells_optimized() {
    test_opt_program_io("++>+++<.>.", b"", b"\x02\x03");
}

#[test]
fn double_add_mul_unoptimized() {
    test_unopt_program_io("++++[->++++[->++++<]<]>>.", b"", b"\x40");
}

#[test]
fn double_add_mul_optimized() {
    test_opt_program_io("++++[->++++[->++++<]<]>>.", b"", b"\x40");
}

#[test]
fn dead_loops_unoptimized() {
    test_unopt_program_io("[.]>>>>>>>>>>>>>>>>>>>>>[,]", b"", b"");
}

#[test]
fn dead_loops_optimized() {
    test_opt_program_io("[.]>>>>>>>>>>>>>>>>>>>>>[,]", b"", b"");
}

#[test]
fn simple_const_add_mul_unoptimized() {
    test_unopt_program_io("+++++>+[-<+>]<.", b"", b"\x06");
}

#[test]
fn simple_const_add_mul_optimized() {
    test_opt_program_io("+++++>+[-<+>]<.", b"", b"\x06");
}

#[test]
fn simple_get_add_mul_unoptimized() {
    test_unopt_program_io(",>+[-<+>]<.", b"\x05", b"\x06");
}

#[test]
fn simple_get_add_mul_optimized() {
    test_opt_program_io(",>+[-<+>]<.", b"\x05", b"\x06");
}

#[test]
fn get_add_mul_unoptimized() {
    test_unopt_program_io(">,<+++++[->-----<]>.", b"\x05", &[(-20i8) as u8]);
}

#[test]
fn get_add_mul_optimized() {
    test_opt_program_io(">,<+++++[->-----<]>.", b"\x05", &[(-20i8) as u8]);
}

#[test]
fn wrap_after_256_increments_unoptimized() {
    let mut code = "+".repeat(256);
    code.push('.');
    test_unopt_program_io(&code, b"", b"\0");
}

#[test]
fn wrap_after_256_increments_optimized() {
    let mut code = "+".repeat(256);
    code.push('.');
    test_opt_program_io(&code, b"", b"\0");
}

#[test]
fn signed_overflow_wraps_unoptimized() {
    let mut code = "+".repeat(128);
    code.push('.');
    test_unopt_program_io(&code, b"", b"\x80");
}

#[test]
fn signed_overflow_wraps_optimized() {
    let mut code = "+".repeat(128);
    code.push('.');
    test_opt_program_io(&code, b"", b"\x80");
}

#[test]
fn decrement_below_zero_wraps_unoptimized() {
    test_unopt_program_io("-.", b"", b"\xff");
}

#[test]
fn decrement_below_zero_wraps_optimized() {
    test_opt_program_io("-.", b"", b"\xff");
}

#[test]
fn unbalanced_loops_unoptimized() {
    test_unopt_program_io("+>++>+++[<]>[.>]", b"", b"\x01\x02\x03");
}

#[test]
fn unbalanced_loops_optimized() {
    test_opt_program_io("+>++>+++[<]>[.>]", b"", b"\x01\x02\x03");
}

#[test]
fn nested_unbalanced_branches_unoptimized() {
    test_unopt_program_io("++>+++<[->[->+>+<<]>>[-<<+>>]<<<]>>.", b"", b"\x06");
}

#[test]
fn nested_unbalanced_branches_optimized() {
    test_opt_program_io("++>+++<[->[->+>+<<]>>[-<<+>>]<<<]>>.", b"", b"\x06");
}

#[test]
fn echo_until_zero_unoptimized() {
    test_unopt_program_io(",[.,]", b"hello\0", b"hello");
}

#[test]
fn echo_until_zero_optimized() {
    test_opt_program_io(",[.,]", b"hello\0", b"hello");
}

#[test]
fn empty_program_does_nothing() {
    test_unopt_program_io("", b"", b"");
    test_opt_program_io("", b"", b"");
}

#[test]
fn fuel_bounds_the_iterations() {
    let prog = IRProgram::from_ast_program(&Parser::parse("+[.]").unwrap());
    let mut io = TestIO::new(b"", &[1, 1, 1, 1, 1]);
    let log = eval_with_io(&prog, &mut io, 5);
    assert!(!log.finished);
    assert_eq!(log.writes, vec![1, 1, 1, 1, 1]);
    assert_eq!(log.reads, vec![]);
}

#[test]
fn fuel_counts_iterations_not_instructions() {
    let prog = IRProgram::from_ast_program(&Parser::parse("+++[-]++++.").unwrap());
    let mut io = TestIO::new(b"", &[4]);
    let log = eval_with_io(&prog, &mut io, 3);
    io.done(&log);
    let mut io = TestIO::new(b"", &[]);
    let log = eval_with_io(&prog, &mut io, 2);
    assert!(!log.finished);
    assert_eq!(log.writes, vec![]);
}

#[test]
fn interprets_every_instruction() {
    let prog = IRProgram(vec![
        IR::MovImm(1, 3),
        IR::MovImm(0, 100),
        IR::AddMul(1, 2),
        IR::Putch(1),
        IR::SimpleLoop(50, vec![IR::Add(2, 1)]),
        IR::Putch(2),
        IR::PtrChange(2),
        IR::Getch(-1),
        IR::Putch(-1),
        IR::Add(0, 127),
        IR::Putch(0),
    ]);
    let mut io = TestIO::new(b"x", &[203, 126, b'x', 253]);
    let log = eval_with_io(&prog, &mut io, 1000);
    io.done(&log);
}
