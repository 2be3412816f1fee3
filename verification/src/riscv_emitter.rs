//! A program as RISC-V assembly text.

use crate::ir::{nodes_of, IRProgram, Node, Offset, Value, IR};
use crate::text::{
    decimal_of, digits_of, label, label_of, next_label, push_line, push_line_nat, push_line_num,
    push_line_text, texts,
};
use vstd::prelude::*;

verus! {

/// Writes programs as RISC-V assembly, numbering the loop labels.
pub struct RiscVEmitter {
    label_count: usize,
}

/// The lines that add `amt` to the cell at `off`.
pub open spec fn riscv_add(off: Offset, amt: Value) -> Seq<Seq<char>> {
    seq![
        "  lb t0, "@ + decimal_of(off as int) + "(s1)"@,
        "  addi t0, t0, "@ + decimal_of(amt as int),
        "  sb t0, "@ + decimal_of(off as int) + "(s1)"@,
    ]
}

/// The lines that hand one cell to a system call: the file descriptor,
/// the cell's address, the length one, then the call itself.
pub open spec fn riscv_transfer(
    fd: Seq<char>,
    off: Offset,
    nostdlib: bool,
    number: Seq<char>,
    routine: Seq<char>,
) -> Seq<Seq<char>> {
    seq![fd, "  mv a1, s1"@, "  addi a1, a1, "@ + decimal_of(off as int), "  li a2, 1"@] + (
    if nostdlib {
        seq![number, "  ecall"@]
    } else {
        seq![routine]
    })
}

/// The lines that open a loop with the given label.
pub open spec fn riscv_loop_head(l: Seq<char>) -> Seq<Seq<char>> {
    seq![l + ":"@, "  lb t0, (s1)"@, "  beqz t0, "@ + l + "_done"@]
}

/// The lines that close a loop with the given label.
pub open spec fn riscv_loop_tail(l: Seq<char>) -> Seq<Seq<char>> {
    seq!["  j "@ + l, l + "_done:"@]
}

/// The lines for one instruction, and the label count after it, from the
/// label count before it.
pub open spec fn riscv_node(n: Node, nostdlib: bool, count: usize) -> (Seq<Seq<char>>, usize)
    decreases n, 0nat,
{
    match n {
        Node::PtrChange(amt) => (seq!["  addi s1, s1, "@ + decimal_of(amt as int)], count),
        Node::Add(off, amt) => (riscv_add(off, amt), count),
        Node::Putch(off) => (
            riscv_transfer("  li a0, 1"@, off, nostdlib, "  li a7, 64"@, "  call write"@),
            count,
        ),
        Node::Getch(off) => (
            riscv_transfer("  li a0, 0"@, off, nostdlib, "  li a7, 63"@, "  call read"@),
            count,
        ),
        Node::Loop(body) => {
            let l = label_of(next_label(count));
            let inner = riscv_upto(body, body.len() as int, nostdlib, next_label(count));
            (riscv_loop_head(l) + inner.0 + riscv_loop_tail(l), inner.1)
        },
        Node::SimpleLoop(delta, body) => {
            let l = label_of(next_label(count));
            let inner = riscv_upto(body, body.len() as int, nostdlib, next_label(count));
            (riscv_loop_head(l) + inner.0 + riscv_add(0, delta) + riscv_loop_tail(l), inner.1)
        },
        Node::AddMul(off, amt) => (
            seq![
                "  lb t0, (s1)"@,
                "  li t1, "@ + decimal_of(amt as int),
                "  mul t0, t0, t1"@,
                "  lb t1, "@ + decimal_of(off as int) + "(s1)"@,
                "  add t0, t0, t1"@,
                "  sb t0, "@ + decimal_of(off as int) + "(s1)"@,
            ],
            count,
        ),
        Node::MovImm(off, imm) => (
            seq![
                "  li t0, "@ + decimal_of(imm as int),
                "  sb t0, "@ + decimal_of(off as int) + "(s1)"@,
            ],
            count,
        ),
    }
}

/// The lines for the first `n` instructions of a sequence, and the label
/// count after them.
pub open spec fn riscv_upto(irs: Seq<Node>, n: int, nostdlib: bool, count: usize) -> (
    Seq<Seq<char>>,
    usize,
)
    decreases irs, n,
{
    if n <= 0 || n > irs.len() {
        (Seq::empty(), count)
    } else {
        let before = riscv_upto(irs, n - 1, nostdlib, count);
        let last = riscv_node(irs[n - 1], nostdlib, before.1);
        (before.0 + last.0, last.1)
    }
}

/// The lines before the program's own instructions.
pub open spec fn riscv_prologue(nostdlib: bool, mem_size: nat) -> Seq<Seq<char>> {
    seq![".section .bss"@, "arr: .skip "@ + digits_of(mem_size), ".text"@] + (if nostdlib {
        seq![".globl _start"@, "_start:"@]
    } else {
        seq![".globl main"@, "main:"@]
    }) + seq!["  la s1, arr"@]
}

/// The lines after the program's own instructions.
pub open spec fn riscv_epilogue(nostdlib: bool) -> Seq<Seq<char>> {
    if nostdlib {
        seq!["  li a0, 0"@, "  li a7, 93"@, "  ecall"@]
    } else {
        seq!["  li a0, 0"@, "  call exit"@]
    }
}

/// The lines of the whole assembly text for a program, with a tape of
/// `mem_size` cells.
pub open spec fn riscv_source(irs: Seq<Node>, nostdlib: bool, mem_size: nat) -> Seq<Seq<char>> {
    riscv_prologue(nostdlib, mem_size) + riscv_upto(irs, irs.len() as int, nostdlib, 0).0
        + riscv_epilogue(nostdlib)
}

impl RiscVEmitter {
    /// The number of loop labels handed out so far.
    pub closed spec fn count(&self) -> usize {
        self.label_count
    }

    /// The assembly text for a program, line by line.
    pub fn emit(prog: &IRProgram, nostdlib: bool, mem_size: usize) -> (r: Vec<String>)
        ensures
            texts(r@) == riscv_source(prog@, nostdlib, mem_size as nat),
    {
        let mut e = RiscVEmitter { label_count: 0 };
        let mut out: Vec<String> = Vec::new();
        assert(texts(out@) =~= Seq::empty());
        push_line(&mut out, ".section .bss");
        push_line_nat(&mut out, "arr: .skip ", mem_size as u64, "");
        push_line(&mut out, ".text");
        if nostdlib {
            push_line(&mut out, ".globl _start");
            push_line(&mut out, "_start:");
        } else {
            push_line(&mut out, ".globl main");
            push_line(&mut out, "main:");
        }
        push_line(&mut out, "  la s1, arr");
        proof {
            reveal_strlit("");
            assert("arr: .skip "@ + digits_of(mem_size as nat) + ""@ =~= "arr: .skip "@
                + digits_of(mem_size as nat));
            assert(texts(out@) =~= riscv_prologue(nostdlib, mem_size as nat));
        }
        e.emit_all(&prog.0, nostdlib, &mut out);
        let ghost body = texts(out@);
        if nostdlib {
            push_line(&mut out, "  li a0, 0");
            push_line(&mut out, "  li a7, 93");
            push_line(&mut out, "  ecall");
        } else {
            push_line(&mut out, "  li a0, 0");
            push_line(&mut out, "  call exit");
        }
        assert(texts(out@) =~= body + riscv_epilogue(nostdlib));
        out
    }

    /// Appends the lines that add `amt` to the cell at `off`.
    fn emit_add(out: &mut Vec<String>, off: Offset, amt: Value)
        ensures
            texts(final(out)@) == texts(old(out)@) + riscv_add(off, amt),
    {
        proof {
            reveal_strlit("");
        }
        push_line_num(out, "  lb t0, ", off, "(s1)");
        push_line_num(out, "  addi t0, t0, ", amt as i32, "");
        push_line_num(out, "  sb t0, ", off, "(s1)");
        assert("  addi t0, t0, "@ + decimal_of(amt as int) + ""@ =~= "  addi t0, t0, "@
            + decimal_of(amt as int));
        assert(texts(out@) =~= texts(old(out)@) + riscv_add(off, amt));
    }

    /// Appends the lines that hand one cell to a system call.
    fn emit_transfer(
        out: &mut Vec<String>,
        fd: &str,
        off: Offset,
        nostdlib: bool,
        number: &str,
        routine: &str,
    )
        ensures
            texts(final(out)@) == texts(old(out)@) + riscv_transfer(
                fd@,
                off,
                nostdlib,
                number@,
                routine@,
            ),
    {
        proof {
            reveal_strlit("");
        }
        push_line(out, fd);
        push_line(out, "  mv a1, s1");
        push_line_num(out, "  addi a1, a1, ", off, "");
        push_line(out, "  li a2, 1");
        if nostdlib {
            push_line(out, number);
            push_line(out, "  ecall");
        } else {
            push_line(out, routine);
        }
        assert("  addi a1, a1, "@ + decimal_of(off as int) + ""@ =~= "  addi a1, a1, "@
            + decimal_of(off as int));
        assert(texts(out@) =~= texts(old(out)@) + riscv_transfer(
            fd@,
            off,
            nostdlib,
            number@,
            routine@,
        ));
    }

    /// Appends the lines that open a loop.
    fn emit_loop_head(out: &mut Vec<String>, l: &String)
        ensures
            texts(final(out)@) == texts(old(out)@) + riscv_loop_head(l@),
    {
        proof {
            reveal_strlit("");
        }
        push_line_text(out, "", l, ":");
        push_line(out, "  lb t0, (s1)");
        push_line_text(out, "  beqz t0, ", l, "_done");
        assert(""@ + l@ + ":"@ =~= l@ + ":"@);
        assert(texts(out@) =~= texts(old(out)@) + riscv_loop_head(l@));
    }

    /// Appends the lines that close a loop.
    fn emit_loop_tail(out: &mut Vec<String>, l: &String)
        ensures
            texts(final(out)@) == texts(old(out)@) + riscv_loop_tail(l@),
    {
        proof {
            reveal_strlit("");
        }
        push_line_text(out, "  j ", l, "");
        push_line_text(out, "", l, "_done:");
        assert("  j "@ + l@ + ""@ =~= "  j "@ + l@);
        assert(""@ + l@ + "_done:"@ =~= l@ + "_done:"@);
        assert(texts(out@) =~= texts(old(out)@) + riscv_loop_tail(l@));
    }

    /// Appends the lines for a sequence of instructions.
    fn emit_all(&mut self, irs: &Vec<IR>, nostdlib: bool, out: &mut Vec<String>)
        ensures
            texts(final(out)@) == texts(old(out)@) + riscv_upto(
                nodes_of(irs@),
                irs.len() as int,
                nostdlib,
                old(self).count(),
            ).0,
            final(self).count() == riscv_upto(
                nodes_of(irs@),
                irs.len() as int,
                nostdlib,
                old(self).count(),
            ).1,
        decreases irs,
    {
        let ghost src = nodes_of(irs@);
        let ghost start = self.label_count;
        let mut i: usize = 0;
        assert(texts(out@) + Seq::<Seq<char>>::empty() =~= texts(out@));
        while i < irs.len()
            invariant
                i <= irs.len(),
                src == nodes_of(irs@),
                start == old(self).count(),
                texts(out@) == texts(old(out)@) + riscv_upto(src, i as int, nostdlib, start).0,
                self.count() == riscv_upto(src, i as int, nostdlib, start).1,
            decreases irs.len() - i,
        {
            assert(src[i as int] == irs@[i as int]@);
            self.emit_inner(&irs[i], nostdlib, out);
            i += 1;
            assert(texts(out@) =~= texts(old(out)@) + riscv_upto(
                src,
                i as int,
                nostdlib,
                start,
            ).0);
        }
    }

    /// Appends the lines for one instruction.
    fn emit_inner(&mut self, node: &IR, nostdlib: bool, out: &mut Vec<String>)
        ensures
            texts(final(out)@) == texts(old(out)@) + riscv_node(
                node@,
                nostdlib,
                old(self).count(),
            ).0,
            final(self).count() == riscv_node(node@, nostdlib, old(self).count()).1,
        decreases node,
    {
        let ghost before = texts(out@);
        let ghost want = riscv_node(node@, nostdlib, self.count());
        proof {
            reveal_strlit("");
        }
        match node {
            IR::PtrChange(amt) => {
                push_line_num(out, "  addi s1, s1, ", *amt, "");
                assert("  addi s1, s1, "@ + decimal_of(*amt as int) + ""@ =~= "  addi s1, s1, "@
                    + decimal_of(*amt as int));
            },
            IR::Add(add_off, amt) => {
                Self::emit_add(out, *add_off, *amt);
            },
            IR::Putch(off) => {
                Self::emit_transfer(out, "  li a0, 1", *off, nostdlib, "  li a7, 64", "  call write");
            },
            IR::Getch(off) => {
                Self::emit_transfer(out, "  li a0, 0", *off, nostdlib, "  li a7, 63", "  call read");
            },
            IR::Loop(nodes) => {
                proof {
                    crate::ir::lemma_node_of_loop(*nodes);
                }
                self.label_count = self.label_count.wrapping_add(1);
                let l = label(self.label_count);
                Self::emit_loop_head(out, &l);
                self.emit_all(nodes, nostdlib, out);
                Self::emit_loop_tail(out, &l);
            },
            IR::SimpleLoop(delta, nodes) => {
                proof {
                    crate::ir::lemma_node_of_simple_loop(*delta, *nodes);
                }
                self.label_count = self.label_count.wrapping_add(1);
                let l = label(self.label_count);
                Self::emit_loop_head(out, &l);
                self.emit_all(nodes, nostdlib, out);
                Self::emit_add(out, 0, *delta);
                Self::emit_loop_tail(out, &l);
            },
            IR::AddMul(off, amt) => {
                push_line(out, "  lb t0, (s1)");
                push_line_num(out, "  li t1, ", *amt as i32, "");
                push_line(out, "  mul t0, t0, t1");
                push_line_num(out, "  lb t1, ", *off, "(s1)");
                push_line(out, "  add t0, t0, t1");
                push_line_num(out, "  sb t0, ", *off, "(s1)");
                assert("  li t1, "@ + decimal_of(*amt as int) + ""@ =~= "  li t1, "@ + decimal_of(
                    *amt as int,
                ));
            },
            IR::MovImm(off, imm) => {
                push_line_num(out, "  li t0, ", *imm as i32, "");
                push_line_num(out, "  sb t0, ", *off, "(s1)");
                assert("  li t0, "@ + decimal_of(*imm as int) + ""@ =~= "  li t0, "@ + decimal_of(
                    *imm as int,
                ));
            },
        }
        assert(texts(out@) =~= before + want.0);
    }
}

} // verus!
