use bfc::eval::{eval_with_io, IO};
use bfc::ir::{IRProgram, Value};
use bfc::optimize::optimize;
use bfc::parser::Parser;

struct Recorder {
    input: Vec<Value>,
    next: usize,
}

impl IO for Recorder {
    fn putchar(&mut self, _val: Value) {}

    fn getchar(&mut self) -> Value {
        let v = if self.next < self.input.len() {
            self.input[self.next]
        } else {
            -1
        };
        self.next += 1;
        v
    }
}

/// Every text over `alphabet` of the given length.
fn texts(alphabet: &[char], len: usize) -> Vec<String> {
    let mut all = vec![String::new()];
    for _ in 0..len {
        let mut longer = Vec::new();
        for t in &all {
            for c in alphabet {
                let mut s = t.clone();
                s.push(*c);
                longer.push(s);
            }
        }
        all = longer;
    }
    all
}

/// Whether no loop holds a loop or a write.
fn has_plain_loops_only(code: &str) -> bool {
    let mut depth = 0;
    for c in code.chars() {
        match c {
            '[' => {
                if depth > 0 {
                    return false;
                }
                depth += 1;
            }
            ']' => depth -= 1,
            '.' => {
                if depth > 0 {
                    return false;
                }
            }
            _ => {}
        }
    }
    true
}

fn check_same_behaviour(code: &str, input: &[Value]) {
    let ast = match Parser::parse(code) {
        Ok(ast) => ast,
        Err(_) => return,
    };
    let given = IRProgram::from_ast_program(&ast);
    let mut io = Recorder {
        input: input.to_vec(),
        next: 0,
    };
    let plain = eval_with_io(&given, &mut io, 2000);
    if !plain.finished {
        return;
    }
    let better = optimize(&given);
    let mut io = Recorder {
        input: input.to_vec(),
        next: 0,
    };
    let fast = eval_with_io(&better, &mut io, 2000);
    assert!(fast.finished, "{}", code);
    assert_eq!(fast.writes, plain.writes, "{}", code);
    assert_eq!(fast.reads, plain.reads, "{}", code);
}

#[test]
fn short_programs_without_reads_keep_their_output() {
    let alphabet = ['+', '-', '<', '>', '.', '[', ']'];
    for len in 0..=5 {
        for code in texts(&alphabet, len) {
            if has_plain_loops_only(&code) {
                check_same_behaviour(&code, &[]);
            }
        }
    }
}

#[test]
fn short_programs_that_read_and_write_once_keep_their_output() {
    let alphabet = ['+', '-', '<', '>', ','];
    for len in 0..=4 {
        for code in texts(&alphabet, len) {
            for at in ['+', '>', '<'] {
                let mut whole = code.clone();
                whole.push(at);
                whole.push('.');
                check_same_behaviour(&whole, &[3, -7, 100, 0]);
            }
        }
    }
}
