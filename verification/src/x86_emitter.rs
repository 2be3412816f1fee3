//! A program as x86-64 assembly text.

use crate::ir::{nodes_of, IRProgram, Node, Offset, Value, IR};
use crate::text::{
    decimal_of, digits_of, label, label_of, next_label, push_line, push_line_nat, push_line_num,
    push_line_num2, push_line_text, texts,
};
use vstd::prelude::*;

verus! {

/// Writes programs as x86-64 assembly, numbering the loop labels.
pub struct X86Emitter {
    label_count: usize,
}

/// The lines that add `amt` to the cell at `off`.
pub open spec fn x86_add(off: Offset, amt: Value) -> Seq<Seq<char>> {
    seq![
        "  movb "@ + decimal_of(off as int) + "(%rbx), %dil"@,
        "  add $"@ + decimal_of(amt as int) + ", %dil"@,
        "  movb %dil, "@ + decimal_of(off as int) + "(%rbx)"@,
    ]
}

/// The lines that open a loop with the given label.
pub open spec fn x86_loop_head(l: Seq<char>) -> Seq<Seq<char>> {
    seq![l + ":"@, "  movb (%rbx), %dil"@, "  cmp $0, %dil"@, "  je "@ + l + "_done"@]
}

/// The lines that close a loop with the given label.
pub open spec fn x86_loop_tail(l: Seq<char>) -> Seq<Seq<char>> {
    seq!["  jmp "@ + l, l + "_done:"@]
}

/// The lines for one instruction, and the label count after it, from the
/// label count before it.
pub open spec fn x86_node(n: Node, nostdlib: bool, count: usize) -> (Seq<Seq<char>>, usize)
    decreases n, 0nat,
{
    match n {
        Node::PtrChange(amt) => (seq!["  add $"@ + decimal_of(amt as int) + ", %rbx"@], count),
        Node::Add(off, amt) => (x86_add(off, amt), count),
        Node::Putch(off) => (
            if nostdlib {
                seq!["  call putch"@]
            } else {
                seq!["  movb "@ + decimal_of(off as int) + "(%rbx), %dil"@, "  call putchar"@]
            },
            count,
        ),
        Node::Getch(off) => (
            if nostdlib {
                seq!["  call gettch"@]
            } else {
                seq!["  call getchar"@, "  movb %al, "@ + decimal_of(off as int) + "(%rbx)"@]
            },
            count,
        ),
        Node::Loop(body) => {
            let l = label_of(next_label(count));
            let inner = x86_upto(body, body.len() as int, nostdlib, next_label(count));
            (x86_loop_head(l) + inner.0 + x86_loop_tail(l), inner.1)
        },
        Node::SimpleLoop(delta, body) => {
            let l = label_of(next_label(count));
            let inner = x86_upto(body, body.len() as int, nostdlib, next_label(count));
            (x86_loop_head(l) + inner.0 + x86_add(0, delta) + x86_loop_tail(l), inner.1)
        },
        Node::AddMul(off, amt) => (
            seq![
                "  movb (%rbx), %dil"@,
                "  imul $"@ + decimal_of(amt as int) + ", %rdi"@,
                "  movb "@ + decimal_of(off as int) + "(%rbx), %sil"@,
                "  add %sil, %dil"@,
                "  movb %dil, "@ + decimal_of(off as int) + "(%rbx)"@,
            ],
            count,
        ),
        Node::MovImm(off, imm) => (
            seq![
                "  movb $"@ + decimal_of(imm as int) + ", "@ + decimal_of(off as int) + "(%rbx)"@,
            ],
            count,
        ),
    }
}

/// The lines for the first `n` instructions of a sequence, and the label
/// count after them.
pub open spec fn x86_upto(irs: Seq<Node>, n: int, nostdlib: bool, count: usize) -> (
    Seq<Seq<char>>,
    usize,
)
    decreases irs, n,
{
    if n <= 0 || n > irs.len() {
        (Seq::empty(), count)
    } else {
        let before = x86_upto(irs, n - 1, nostdlib, count);
        let last = x86_node(irs[n - 1], nostdlib, before.1);
        (before.0 + last.0, last.1)
    }
}

/// The lines before the program's own instructions.
pub open spec fn x86_prologue(nostdlib: bool, mem_size: nat) -> Seq<Seq<char>> {
    seq![".section .bss"@, "arr: .skip "@ + digits_of(mem_size), ".text"@] + (if nostdlib {
        seq![
            "putch:"@,
            "  mov $1, %rax"@,
            "  mov $1, %rdi"@,
            "  movq %rbx, %rsi"@,
            "  mov $1, %rdx"@,
            "  syscall"@,
            "  ret"@,
            "getch:"@,
            "  mov $0, %rax"@,
            "  mov $0, %rdi"@,
            "  movq %rbx, %rsi"@,
            "  mov $1, %rdx"@,
            "  syscall"@,
            "  ret"@,
            ".globl _start"@,
            "_start:"@,
        ]
    } else {
        seq![".globl main"@, "main:"@]
    }) + seq!["  movq $arr, %rbx"@]
}

/// The lines after the program's own instructions.
pub open spec fn x86_epilogue() -> Seq<Seq<char>> {
    seq!["  mov $60, %rax"@, "  mov $0, %rdi"@, "  syscall"@]
}

/// The lines of the whole assembly text for a program, with a tape of
/// `mem_size` cells.
pub open spec fn x86_source(irs: Seq<Node>, nostdlib: bool, mem_size: nat) -> Seq<Seq<char>> {
    x86_prologue(nostdlib, mem_size) + x86_upto(irs, irs.len() as int, nostdlib, 0).0
        + x86_epilogue()
}

impl X86Emitter {
    /// The number of loop labels handed out so far.
    pub closed spec fn count(&self) -> usize {
        self.label_count
    }

    /// The assembly text for a program, line by line.
    pub fn emit(prog: &IRProgram, nostdlib: bool, mem_size: usize) -> (r: Vec<String>)
        ensures
            texts(r@) == x86_source(prog@, nostdlib, mem_size as nat),
    {
        let mut e = X86Emitter { label_count: 0 };
        let mut out: Vec<String> = Vec::new();
        assert(texts(out@) =~= Seq::empty());
        push_line(&mut out, ".section .bss");
        push_line_nat(&mut out, "arr: .skip ", mem_size as u64, "");
        push_line(&mut out, ".text");
        if nostdlib {
            push_line(&mut out, "putch:");
            push_line(&mut out, "  mov $1, %rax");
            push_line(&mut out, "  mov $1, %rdi");
            push_line(&mut out, "  movq %rbx, %rsi");
            push_line(&mut out, "  mov $1, %rdx");
            push_line(&mut out, "  syscall");
            push_line(&mut out, "  ret");
            push_line(&mut out, "getch:");
            push_line(&mut out, "  mov $0, %rax");
            push_line(&mut out, "  mov $0, %rdi");
            push_line(&mut out, "  movq %rbx, %rsi");
            push_line(&mut out, "  mov $1, %rdx");
            push_line(&mut out, "  syscall");
            push_line(&mut out, "  ret");
            push_line(&mut out, ".globl _start");
            push_line(&mut out, "_start:");
        } else {
            push_line(&mut out, ".globl main");
            push_line(&mut out, "main:");
        }
        push_line(&mut out, "  movq $arr, %rbx");
        proof {
            reveal_strlit("");
            assert("arr: .skip "@ + digits_of(mem_size as nat) + ""@ =~= "arr: .skip "@
                + digits_of(mem_size as nat));
            assert(texts(out@) =~= x86_prologue(nostdlib, mem_size as nat));
        }
        e.emit_all(&prog.0, nostdlib, &mut out);
        let ghost body = texts(out@);
        push_line(&mut out, "  mov $60, %rax");
        push_line(&mut out, "  mov $0, %rdi");
        push_line(&mut out, "  syscall");
        assert(texts(out@) =~= body + x86_epilogue());
        out
    }

    /// Appends the lines that add `amt` to the cell at `off`.
    fn emit_add(out: &mut Vec<String>, off: Offset, amt: Value)
        ensures
            texts(final(out)@) == texts(old(out)@) + x86_add(off, amt),
    {
        push_line_num(out, "  movb ", off, "(%rbx), %dil");
        push_line_num(out, "  add $", amt as i32, ", %dil");
        push_line_num(out, "  movb %dil, ", off, "(%rbx)");
        assert(texts(out@) =~= texts(old(out)@) + x86_add(off, amt));
    }

    /// Appends the lines that open a loop.
    fn emit_loop_head(out: &mut Vec<String>, l: &String)
        ensures
            texts(final(out)@) == texts(old(out)@) + x86_loop_head(l@),
    {
        proof {
            reveal_strlit("");
        }
        push_line_text(out, "", l, ":");
        push_line(out, "  movb (%rbx), %dil");
        push_line(out, "  cmp $0, %dil");
        push_line_text(out, "  je ", l, "_done");
        assert(""@ + l@ + ":"@ =~= l@ + ":"@);
        assert(texts(out@) =~= texts(old(out)@) + x86_loop_head(l@));
    }

    /// Appends the lines that close a loop.
    fn emit_loop_tail(out: &mut Vec<String>, l: &String)
        ensures
            texts(final(out)@) == texts(old(out)@) + x86_loop_tail(l@),
    {
        proof {
            reveal_strlit("");
        }
        push_line_text(out, "  jmp ", l, "");
        push_line_text(out, "", l, "_done:");
        assert("  jmp "@ + l@ + ""@ =~= "  jmp "@ + l@);
        assert(""@ + l@ + "_done:"@ =~= l@ + "_done:"@);
        assert(texts(out@) =~= texts(old(out)@) + x86_loop_tail(l@));
    }

    /// Appends the lines for a sequence of instructions.
    fn emit_all(&mut self, irs: &Vec<IR>, nostdlib: bool, out: &mut Vec<String>)
        ensures
            texts(final(out)@) == texts(old(out)@) + x86_upto(
                nodes_of(irs@),
                irs.len() as int,
                nostdlib,
                old(self).count(),
            ).0,
            final(self).count() == x86_upto(
                nodes_of(irs@),
                irs.len() as int,
                nostdlib,
                old(self).count(),
            ).1,
        decreases irs,
    {
        let ghost src = nodes_of(irs@);
        let ghost start = self.label_count;
        let mut i: usize = 0;
        assert(texts(out@) + Seq::<Seq<char>>::empty() =~= texts(out@));
        while i < irs.len()
            invariant
                i <= irs.len(),
                src == nodes_of(irs@),
                start == old(self).count(),
                texts(out@) == texts(old(out)@) + x86_upto(src, i as int, nostdlib, start).0,
                self.count() == x86_upto(src, i as int, nostdlib, start).1,
            decreases irs.len() - i,
        {
            assert(src[i as int] == irs@[i as int]@);
            self.emit_inner(&irs[i], nostdlib, out);
            i += 1;
            assert(texts(out@) =~= texts(old(out)@) + x86_upto(src, i as int, nostdlib, start).0);
        }
    }

    /// Appends the lines for one instruction.
    fn emit_inner(&mut self, node: &IR, nostdlib: bool, out: &mut Vec<String>)
        ensures
            texts(final(out)@) == texts(old(out)@) + x86_node(
                node@,
                nostdlib,
                old(self).count(),
            ).0,
            final(self).count() == x86_node(node@, nostdlib, old(self).count()).1,
        decreases node,
    {
        let ghost before = texts(out@);
        let ghost want = x86_node(node@, nostdlib, self.count());
        match node {
            IR::PtrChange(amt) => {
                push_line_num(out, "  add $", *amt, ", %rbx");
            },
            IR::Add(add_off, amt) => {
                Self::emit_add(out, *add_off, *amt);
            },
            IR::Putch(off) => {
                if nostdlib {
                    push_line(out, "  call putch");
                } else {
                    push_line_num(out, "  movb ", *off, "(%rbx), %dil");
                    push_line(out, "  call putchar");
                }
            },
            IR::Getch(off) => {
                if nostdlib {
                    push_line(out, "  call gettch");
                } else {
                    push_line(out, "  call getchar");
                    push_line_num(out, "  movb %al, ", *off, "(%rbx)");
                }
            },
            IR::Loop(nodes) => {
                proof {
                    crate::ir::lemma_node_of_loop(*nodes);
                }
                self.label_count = self.label_count.wrapping_add(1);
                let l = label(self.label_count);
                Self::emit_loop_head(out, &l);
                self.emit_all(nodes, nostdlib, out);
                Self::emit_loop_tail(out, &l);
            },
            IR::SimpleLoop(delta, nodes) => {
                proof {
                    crate::ir::lemma_node_of_simple_loop(*delta, *nodes);
                }
                self.label_count = self.label_count.wrapping_add(1);
                let l = label(self.label_count);
                Self::emit_loop_head(out, &l);
                self.emit_all(nodes, nostdlib, out);
                Self::emit_add(out, 0, *delta);
                Self::emit_loop_tail(out, &l);
            },
            IR::AddMul(off, amt) => {
                push_line(out, "  movb (%rbx), %dil");
                push_line_num(out, "  imul $", *amt as i32, ", %rdi");
                push_line_num(out, "  movb ", *off, "(%rbx), %sil");
                push_line(out, "  add %sil, %dil");
                push_line_num(out, "  movb %dil, ", *off, "(%rbx)");
            },
            IR::MovImm(off, imm) => {
                push_line_num2(out, "  movb $", *imm as i32, ", ", *off, "(%rbx)");
            },
        }
        assert(texts(out@) =~= before + want.0);
    }
}

} // verus!
