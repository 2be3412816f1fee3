//! The intermediate representation and the lowering from syntax.

use crate::ast::{ASTProgram, Syntax, AST};
use vstd::prelude::*;

verus! {

/// A cell position relative to the data pointer.
pub type Offset = i32;

/// The contents of one cell.
pub type Value = i8;

/// One instruction of the intermediate representation.
#[derive(Debug, PartialEq)]
pub enum IR {
    /// While the current cell is nonzero, run the body.
    Loop(Vec<IR>),
    /// Move the data pointer.
    PtrChange(Offset),
    /// Add to the cell at an offset, wrapping.
    Add(Offset, Value),
    /// Write the cell at an offset as one byte of output.
    Putch(Offset),
    /// Read one byte of input into the cell at an offset.
    Getch(Offset),
    /// A loop whose body leaves the pointer where it found it; the given
    /// amount is added to the current cell after every run of the body.
    SimpleLoop(Value, Vec<IR>),
    /// Add the current cell times a constant to the cell at an offset.
    AddMul(Offset, Value),
    /// Store a constant into the cell at an offset.
    MovImm(Offset, Value),
}

/// A whole program in the intermediate representation.
#[derive(Debug)]
pub struct IRProgram(pub Vec<IR>);

/// Mathematical mirror of [`IR`], with sequences in place of vectors.
pub ghost enum Node {
    Loop(Seq<Node>),
    PtrChange(Offset),
    Add(Offset, Value),
    Putch(Offset),
    Getch(Offset),
    SimpleLoop(Value, Seq<Node>),
    AddMul(Offset, Value),
    MovImm(Offset, Value),
}

/// Sum of two offsets, wrapping at the ends of the 32-bit range.
pub open spec fn off_add(a: Offset, b: Offset) -> Offset {
    vstd::wrapping::i32_specs::wrapping_add(a, b)
}

/// Difference of two offsets, wrapping at the ends of the 32-bit range.
pub open spec fn off_sub(a: Offset, b: Offset) -> Offset {
    vstd::wrapping::i32_specs::wrapping_sub(a, b)
}

/// Sum of two cell values, wrapping at the ends of the 8-bit range.
pub open spec fn val_add(a: Value, b: Value) -> Value {
    vstd::wrapping::i8_specs::wrapping_add(a, b)
}

/// Product of two cell values, wrapping at the ends of the 8-bit range.
pub open spec fn val_mul(a: Value, b: Value) -> Value {
    vstd::wrapping::i8_specs::wrapping_mul(a, b)
}

/// The instruction that an [`IR`] value stands for.
pub open spec fn node_of(ir: IR) -> Node
    decreases ir,
{
    match ir {
        IR::Loop(inner) => Node::Loop(
            Seq::new(
                inner.len() as nat,
                |i: int|
                    if 0 <= i < inner.len() {
                        node_of(inner[i])
                    } else {
                        Node::PtrChange(0)
                    },
            ),
        ),
        IR::PtrChange(d) => Node::PtrChange(d),
        IR::Add(off, v) => Node::Add(off, v),
        IR::Putch(off) => Node::Putch(off),
        IR::Getch(off) => Node::Getch(off),
        IR::SimpleLoop(delta, inner) => Node::SimpleLoop(
            delta,
            Seq::new(
                inner.len() as nat,
                |i: int|
                    if 0 <= i < inner.len() {
                        node_of(inner[i])
                    } else {
                        Node::PtrChange(0)
                    },
            ),
        ),
        IR::AddMul(off, k) => Node::AddMul(off, k),
        IR::MovImm(off, v) => Node::MovImm(off, v),
    }
}

/// Pointwise [`node_of`] over a sequence of instructions.
pub open spec fn nodes_of(irs: Seq<IR>) -> Seq<Node> {
    Seq::new(irs.len(), |i: int| node_of(irs[i]))
}

impl View for IR {
    type V = Node;

    open spec fn view(&self) -> Node {
        node_of(*self)
    }
}

impl View for IRProgram {
    type V = Seq<Node>;

    open spec fn view(&self) -> Seq<Node> {
        nodes_of(self.0@)
    }
}

/// A loop node's view is the loop over the views of its body.
pub proof fn lemma_node_of_loop(inner: Vec<IR>)
    ensures
        node_of(IR::Loop(inner)) == Node::Loop(nodes_of(inner@)),
{
    assert(node_of(IR::Loop(inner))->Loop_0 =~= nodes_of(inner@));
}

/// A simple loop node's view is the simple loop over the views of its body.
pub proof fn lemma_node_of_simple_loop(delta: Value, inner: Vec<IR>)
    ensures
        node_of(IR::SimpleLoop(delta, inner)) == Node::SimpleLoop(delta, nodes_of(inner@)),
{
    assert(node_of(IR::SimpleLoop(delta, inner))->SimpleLoop_1 =~= nodes_of(inner@));
}

/// Appending one instruction appends its view.
pub proof fn lemma_nodes_of_push(irs: Seq<IR>, ir: IR)
    ensures
        nodes_of(irs.push(ir)) == nodes_of(irs).push(node_of(ir)),
{
    assert(nodes_of(irs.push(ir)) =~= nodes_of(irs).push(node_of(ir)));
}

impl Clone for IR {
    fn clone(&self) -> (r: IR)
        ensures
            r@ == self@,
        decreases self,
    {
        match self {
            IR::Loop(inner) => {
                let body = clone_all(inner);
                proof {
                    lemma_node_of_loop(*inner);
                    lemma_node_of_loop(body);
                }
                IR::Loop(body)
            },
            IR::PtrChange(d) => IR::PtrChange(*d),
            IR::Add(off, v) => IR::Add(*off, *v),
            IR::Putch(off) => IR::Putch(*off),
            IR::Getch(off) => IR::Getch(*off),
            IR::SimpleLoop(delta, inner) => {
                let body = clone_all(inner);
                proof {
                    lemma_node_of_simple_loop(*delta, *inner);
                    lemma_node_of_simple_loop(*delta, body);
                }
                IR::SimpleLoop(*delta, body)
            },
            IR::AddMul(off, k) => IR::AddMul(*off, *k),
            IR::MovImm(off, v) => IR::MovImm(*off, *v),
        }
    }
}

/// Copies a sequence of instructions.
pub fn clone_all(irs: &Vec<IR>) -> (r: Vec<IR>)
    ensures
        nodes_of(r@) == nodes_of(irs@),
    decreases irs,
{
    let mut out: Vec<IR> = Vec::new();
    let mut i: usize = 0;
    while i < irs.len()
        invariant
            i <= irs.len(),
            nodes_of(out@) == nodes_of(irs@.take(i as int)),
        decreases irs.len() - i,
    {
        let c = irs[i].clone();
        proof {
            lemma_nodes_of_push(out@, c);
            lemma_nodes_of_push(irs@.take(i as int), irs@[i as int]);
            assert(irs@.take(i as int).push(irs@[i as int]) =~= irs@.take(i + 1));
        }
        out.push(c);
        i += 1;
    }
    proof {
        assert(irs@.take(irs.len() as int) =~= irs@);
    }
    out
}

/// Appends one instruction to a sequence under construction.
pub fn push_ir(out: &mut Vec<IR>, ir: IR)
    ensures
        nodes_of(final(out)@) == nodes_of(old(out)@).push(ir@),
{
    proof {
        lemma_nodes_of_push(out@, ir);
    }
    out.push(ir);
}

/// What one construct of the source language becomes.
pub open spec fn lower(s: Syntax) -> Node
    decreases s,
{
    match s {
        Syntax::Loop(inner) => Node::Loop(
            Seq::new(
                inner.len(),
                |i: int|
                    if 0 <= i < inner.len() {
                        lower(inner[i])
                    } else {
                        Node::PtrChange(0)
                    },
            ),
        ),
        Syntax::PtrAdvance => Node::PtrChange(1),
        Syntax::PtrRetreat => Node::PtrChange((-1int) as i32),
        Syntax::Incr => Node::Add(0, 1),
        Syntax::Decr => Node::Add(0, (-1int) as i8),
        Syntax::Putch => Node::Putch(0),
        Syntax::Getch => Node::Getch(0),
    }
}

/// Pointwise [`lower`] over a sequence of constructs.
pub open spec fn lower_seq(s: Seq<Syntax>) -> Seq<Node> {
    Seq::new(s.len(), |i: int| lower(s[i]))
}

impl IRProgram {
    /// Lowers a syntax tree: every construct becomes exactly one
    /// instruction, with offset zero and unit magnitude.
    pub fn from_ast_program(prog: &ASTProgram) -> (r: IRProgram)
        ensures
            r@ == lower_seq(prog@),
    {
        IRProgram(Self::from_ast_nodes(&prog.0))
    }

    /// Lowers a sequence of constructs, in order.
    pub fn from_ast_nodes(asts: &Vec<AST>) -> (r: Vec<IR>)
        ensures
            nodes_of(r@) == lower_seq(crate::ast::syntax_seq(asts@)),
        decreases asts,
    {
        let mut out: Vec<IR> = Vec::new();
        let mut i: usize = 0;
        while i < asts.len()
            invariant
                i <= asts.len(),
                out.len() == i,
                forall|j: int| 0 <= j < i ==> node_of(#[trigger] out@[j]) == lower(asts@[j]@),
            decreases asts.len() - i,
        {
            let n = Self::from_ast_node(&asts[i]);
            out.push(n);
            i += 1;
        }
        proof {
            assert(nodes_of(out@) =~= lower_seq(crate::ast::syntax_seq(asts@)));
        }
        out
    }

    /// Lowers one construct.
    pub fn from_ast_node(ast: &AST) -> (r: IR)
        ensures
            r@ == lower(ast@),
        decreases ast,
    {
        match ast {
            AST::Loop(asts) => {
                let body = Self::from_ast_nodes(asts);
                proof {
                    lemma_node_of_loop(body);
                    assert(ast@->Loop_0 =~= crate::ast::syntax_seq(asts@));
                    assert(lower(ast@)->Loop_0 =~= lower_seq(crate::ast::syntax_seq(asts@)));
                }
                IR::Loop(body)
            },
            AST::PtrAdvance => IR::PtrChange(1),
            AST::PtrRetreat => IR::PtrChange(-1),
            AST::Incr => IR::Add(0, 1),
            AST::Decr => IR::Add(0, -1),
            AST::Putch => IR::Putch(0),
            AST::Getch => IR::Getch(0),
        }
    }
}

} // verus!
