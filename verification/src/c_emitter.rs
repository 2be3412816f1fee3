//! A program as C source text.

use crate::ir::{nodes_of, IRProgram, Node, IR};
use crate::text::{
    decimal_of, digits_of, push_line, push_line_nat, push_line_num, push_line_num2, texts,
};
use vstd::prelude::*;

verus! {

/// Writes programs as C source.
pub struct CEmitter {}

/// The lines for one instruction.
pub open spec fn c_node(n: Node) -> Seq<Seq<char>>
    decreases n, 0nat,
{
    match n {
        Node::PtrChange(amt) => seq!["  idx += "@ + decimal_of(amt as int) + ";"@],
        Node::Add(off, amt) => seq![
            "  arr[idx + "@ + decimal_of(off as int) + "] += "@ + decimal_of(amt as int) + ";"@,
        ],
        Node::Putch(off) => seq!["  putchar(arr[idx + "@ + decimal_of(off as int) + "]);"@],
        Node::Getch(off) => seq![
            "  arr[idx + "@ + decimal_of(off as int) + "] = (char)getchar();"@,
        ],
        Node::Loop(body) => (seq!["  while (arr[idx]) {"@] + c_upto(body, body.len() as int)).push(
            "  }"@,
        ),
        Node::SimpleLoop(delta, body) => (seq![
            "  for ( ; arr[idx]; arr[idx] += "@ + decimal_of(delta as int) + ") {"@,
        ] + c_upto(body, body.len() as int)).push("  }"@),
        Node::AddMul(off, amt) => seq![
            "  arr[idx + "@ + decimal_of(off as int) + "] += (arr[idx] * "@ + decimal_of(
                amt as int,
            ) + ");"@,
        ],
        Node::MovImm(off, imm) => seq![
            "  arr[idx + "@ + decimal_of(off as int) + "] = "@ + decimal_of(imm as int) + ";"@,
        ],
    }
}

/// The lines for the first `n` instructions of a sequence.
pub open spec fn c_upto(irs: Seq<Node>, n: int) -> Seq<Seq<char>>
    decreases irs, n,
{
    if n <= 0 || n > irs.len() {
        Seq::empty()
    } else {
        c_upto(irs, n - 1) + c_node(irs[n - 1])
    }
}

/// The lines of the whole C source for a program, with a tape of
/// `mem_size` cells.
pub open spec fn c_source(irs: Seq<Node>, mem_size: nat) -> Seq<Seq<char>> {
    (seq![
        "#include <stdio.h>"@,
        "char arr["@ + digits_of(mem_size) + "];"@,
        "int idx = 0;"@,
        "int main() {"@,
    ] + c_upto(irs, irs.len() as int)).push("return 0;"@).push("}"@)
}

impl CEmitter {
    /// The C source for a program, line by line.
    pub fn emit(prog: &IRProgram, nostdlib: bool, mem_size: usize) -> (r: Vec<String>)
        ensures
            texts(r@) == c_source(prog@, mem_size as nat),
    {
        let e = CEmitter {  };
        let mut out: Vec<String> = Vec::new();
        assert(texts(out@) =~= Seq::empty());
        push_line(&mut out, "#include <stdio.h>");
        push_line_nat(&mut out, "char arr[", mem_size as u64, "];");
        push_line(&mut out, "int idx = 0;");
        push_line(&mut out, "int main() {");
        let ghost head = texts(out@);
        assert(head =~= seq![
            "#include <stdio.h>"@,
            "char arr["@ + digits_of(mem_size as nat) + "];"@,
            "int idx = 0;"@,
            "int main() {"@,
        ]);
        e.emit_all(&prog.0, nostdlib, &mut out);
        push_line(&mut out, "return 0;");
        push_line(&mut out, "}");
        out
    }

    /// Appends the lines for a sequence of instructions.
    fn emit_all(&self, irs: &Vec<IR>, nostdlib: bool, out: &mut Vec<String>)
        ensures
            texts(final(out)@) == texts(old(out)@) + c_upto(nodes_of(irs@), irs.len() as int),
        decreases irs,
    {
        let ghost src = nodes_of(irs@);
        let mut i: usize = 0;
        assert(texts(out@) + Seq::<Seq<char>>::empty() =~= texts(out@));
        while i < irs.len()
            invariant
                i <= irs.len(),
                src == nodes_of(irs@),
                texts(out@) == texts(old(out)@) + c_upto(src, i as int),
            decreases irs.len() - i,
        {
            let ghost before = texts(out@);
            assert(src[i as int] == irs@[i as int]@);
            self.emit_inner(&irs[i], nostdlib, out);
            i += 1;
            assert(texts(out@) =~= texts(old(out)@) + c_upto(src, i as int));
        }
    }

    /// Appends the lines for one instruction.
    fn emit_inner(&self, node: &IR, nostdlib: bool, out: &mut Vec<String>)
        ensures
            texts(final(out)@) == texts(old(out)@) + c_node(node@),
        decreases node,
    {
        let ghost before = texts(out@);
        match node {
            IR::PtrChange(amt) => {
                push_line_num(out, "  idx += ", *amt, ";");
            },
            IR::Add(add_off, amt) => {
                push_line_num2(out, "  arr[idx + ", *add_off, "] += ", *amt as i32, ";");
            },
            IR::Putch(off) => {
                push_line_num(out, "  putchar(arr[idx + ", *off, "]);");
            },
            IR::Getch(off) => {
                push_line_num(out, "  arr[idx + ", *off, "] = (char)getchar();");
            },
            IR::Loop(nodes) => {
                proof {
                    crate::ir::lemma_node_of_loop(*nodes);
                }
                push_line(out, "  while (arr[idx]) {");
                self.emit_all(nodes, nostdlib, out);
                push_line(out, "  }");
            },
            IR::SimpleLoop(delta, nodes) => {
                proof {
                    crate::ir::lemma_node_of_simple_loop(*delta, *nodes);
                }
                push_line_num(out, "  for ( ; arr[idx]; arr[idx] += ", *delta as i32, ") {");
                self.emit_all(nodes, nostdlib, out);
                push_line(out, "  }");
            },
            IR::AddMul(off, amt) => {
                push_line_num2(out, "  arr[idx + ", *off, "] += (arr[idx] * ", *amt as i32, ");");
            },
            IR::MovImm(off, imm) => {
                push_line_num2(out, "  arr[idx + ", *off, "] = ", *imm as i32, ";");
            },
        }
        assert(texts(out@) =~= before + c_node(node@));
    }
}

} // verus!
