//! Syntax tree of the eight-instruction surface language.

use vstd::prelude::*;

verus! {

/// One construct of the source language.
#[derive(Debug, PartialEq)]
pub enum AST {
    Loop(Vec<AST>),
    PtrAdvance,
    PtrRetreat,
    Incr,
    Decr,
    Putch,
    Getch,
}

/// A whole source program: its top-level constructs in order.
#[derive(Debug, PartialEq)]
pub struct ASTProgram(pub Vec<AST>);

/// Mathematical mirror of [`AST`], with sequences in place of vectors.
pub ghost enum Syntax {
    Loop(Seq<Syntax>),
    PtrAdvance,
    PtrRetreat,
    Incr,
    Decr,
    Putch,
    Getch,
}

/// The syntax tree that an [`AST`] value stands for.
pub open spec fn syntax_of(ast: AST) -> Syntax
    decreases ast,
{
    match ast {
        AST::Loop(inner) => Syntax::Loop(
            Seq::new(
                inner.len() as nat,
                |i: int|
                    if 0 <= i < inner.len() {
                        syntax_of(inner[i])
                    } else {
                        Syntax::Incr
                    },
            ),
        ),
        AST::PtrAdvance => Syntax::PtrAdvance,
        AST::PtrRetreat => Syntax::PtrRetreat,
        AST::Incr => Syntax::Incr,
        AST::Decr => Syntax::Decr,
        AST::Putch => Syntax::Putch,
        AST::Getch => Syntax::Getch,
    }
}

/// Pointwise [`syntax_of`] over a sequence of nodes.
pub open spec fn syntax_seq(asts: Seq<AST>) -> Seq<Syntax> {
    Seq::new(asts.len(), |i: int| syntax_of(asts[i]))
}

impl View for AST {
    type V = Syntax;

    open spec fn view(&self) -> Syntax {
        syntax_of(*self)
    }
}

impl View for ASTProgram {
    type V = Seq<Syntax>;

    open spec fn view(&self) -> Seq<Syntax> {
        syntax_seq(self.0@)
    }
}

/// A loop's syntax is the loop over the syntax of its body.
pub proof fn lemma_syntax_of_loop(inner: Vec<AST>)
    ensures
        syntax_of(AST::Loop(inner)) == Syntax::Loop(syntax_seq(inner@)),
{
    assert(syntax_of(AST::Loop(inner))->Loop_0 =~= syntax_seq(inner@));
}

/// Appending one construct appends its syntax.
pub proof fn lemma_syntax_seq_push(asts: Seq<AST>, ast: AST)
    ensures
        syntax_seq(asts.push(ast)) == syntax_seq(asts).push(syntax_of(ast)),
{
    assert(syntax_seq(asts.push(ast)) =~= syntax_seq(asts).push(syntax_of(ast)));
}

} // verus!
