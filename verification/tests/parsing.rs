use bfc::ast::{ASTProgram, AST};
use bfc::ir::{IRProgram, IR};
use bfc::parser::{Error, Parser};

#[test]
fn parse_empty() {
    assert_eq!(Parser::parse(""), Ok(ASTProgram(vec![])));
}

#[test]
fn parse_simple() {
    assert_eq!(
        Parser::parse("+-><.,"),
        Ok(ASTProgram(vec![
            AST::Incr,
            AST::Decr,
            AST::PtrAdvance,
            AST::PtrRetreat,
            AST::Putch,
            AST::Getch
        ]))
    );
}

#[test]
fn parse_simple_loop() {
    assert_eq!(
        Parser::parse("[++]"),
        Ok(ASTProgram(vec![AST::Loop(vec![AST::Incr, AST::Incr])]))
    );
}

#[test]
fn parse_malformed_loop() {
    assert_eq!(Parser::parse("["), Err(Error::UnterminatedLoop));
}

#[test]
fn parse_complex_malformed_loop() {
    assert_eq!(Parser::parse("[[[[[[[[]]]]]]]"), Err(Error::UnterminatedLoop));
}

#[test]
fn parse_stray_close() {
    assert_eq!(Parser::parse("]"), Err(Error::UnexpectedLoopTermination));
    assert_eq!(
        Parser::parse("[+]]"),
        Err(Error::UnexpectedLoopTermination)
    );
}

#[test]
fn parse_skips_other_characters() {
    assert_eq!(
        Parser::parse("a + b\n[ - ] é"),
        Ok(ASTProgram(vec![AST::Incr, AST::Loop(vec![AST::Decr])]))
    );
}

#[test]
fn parse_nested_loops() {
    assert_eq!(
        Parser::parse("[[-]>[.]]"),
        Ok(ASTProgram(vec![AST::Loop(vec![
            AST::Loop(vec![AST::Decr]),
            AST::PtrAdvance,
            AST::Loop(vec![AST::Putch]),
        ])]))
    );
}

#[test]
fn lower_empty_program() {
    let prog = Parser::parse("").unwrap();
    assert_eq!(IRProgram::from_ast_program(&prog).0, vec![]);
}

#[test]
fn lower_every_construct() {
    let prog = Parser::parse("><+-.,[+]").unwrap();
    assert_eq!(
        IRProgram::from_ast_program(&prog).0,
        vec![
            IR::PtrChange(1),
            IR::PtrChange(-1),
            IR::Add(0, 1),
            IR::Add(0, -1),
            IR::Putch(0),
            IR::Getch(0),
            IR::Loop(vec![IR::Add(0, 1)]),
        ]
    );
}

#[test]
fn clone_copies_nested_instructions() {
    let ir = IR::Loop(vec![
        IR::SimpleLoop(-1, vec![IR::AddMul(2, 3), IR::MovImm(0, 0)]),
        IR::PtrChange(4),
    ]);
    assert_eq!(ir.clone(), ir);
}
