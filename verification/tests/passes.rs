use bfc::ir::{IRProgram, Offset, Value, IR};
use bfc::optimize::{
    collapse_consts, compress_changes, optimize, remove_unread_stores, simplify_loop,
};
use bfc::parser::Parser;

fn lp(inner: Vec<IR>) -> IR {
    IR::Loop(inner)
}

fn pc(amt: Offset) -> IR {
    IR::PtrChange(amt)
}

fn a(off: Offset, amt: Value) -> IR {
    IR::Add(off, amt)
}

fn put(off: Offset) -> IR {
    IR::Putch(off)
}

fn get(off: Offset) -> IR {
    IR::Getch(off)
}

fn sl(delta: Value, inner: Vec<IR>) -> IR {
    IR::SimpleLoop(delta, inner)
}

fn am(off: Offset, delta: Value) -> IR {
    IR::AddMul(off, delta)
}

fn mi(off: Offset, imm: Value) -> IR {
    IR::MovImm(off, imm)
}

fn optimize_code(code: &str) -> Vec<IR> {
    let ap = Parser::parse(code).unwrap();
    let ip = IRProgram::from_ast_program(&ap);
    let ip = optimize(&ip);
    ip.0
}

#[test]
fn test_compress_changes() {
    assert_eq!(
        compress_changes(&vec![lp(vec![pc(1), pc(1), pc(1)])]),
        vec![lp(vec![pc(3)])]
    );
    assert_eq!(compress_changes(&vec![pc(1), pc(-1), pc(1)]), vec![]);
    assert_eq!(compress_changes(&vec![pc(1), pc(-1)]), vec![]);
    assert_eq!(
        compress_changes(&vec![pc(7), a(0, 1), pc(-1)]),
        vec![a(7, 1)]
    );
    assert_eq!(compress_changes(&vec![pc(1), get(0), pc(-1)]), vec![get(1)]);
    assert_eq!(compress_changes(&vec![pc(1), put(0), pc(-1)]), vec![put(1)]);
}

#[test]
fn test_simplify() {
    assert_eq!(simplify_loop(&lp(vec![])), sl(0, vec![]));
    assert_eq!(simplify_loop(&lp(vec![a(0, 1)])), sl(1, vec![]));
    assert_eq!(
        simplify_loop(&lp(vec![a(0, 1), pc(1)])),
        lp(vec![a(0, 1), pc(1)])
    );
    assert_eq!(
        simplify_loop(&lp(vec![a(0, 1), pc(1), a(0, 2), pc(-1)])),
        sl(1, vec![pc(1), a(0, 2), pc(-1)])
    );
}

#[test]
fn test_remove_unread_stores() {}

#[test]
fn test_collapse_consts() {
    assert_eq!(
        remove_unread_stores(&collapse_consts(&vec![
            mi(1, 5),
            mi(0, 1),
            am(1, 5),
            put(1)
        ])),
        vec![mi(1, 10), put(1)]
    );
}

#[test]
fn test_e2e() {
    assert_eq!(
        optimize_code(">,<++[->+<]>."),
        vec![get(1), mi(0, 2), am(1, 1), put(1)]
    );
    assert_eq!(
        optimize_code(">,<+++++[->-----<]>."),
        vec![get(1), mi(0, 5), am(1, -5), put(1)]
    );
}
