//! Folding pointer moves keeps the meaning of a program.

use crate::eval::{exec_node, run, run_upto, Feed, Machine};
use crate::ir::{off_add, Node, Offset};
use crate::optimize::changes::{compress_changes_spec, flush_move, squeeze_body, squeeze_upto};
use crate::preserve::{
    lemma_loop_congruent, lemma_run_concat, lemma_run_push, lemma_simple_loop_congruent,
};
use vstd::prelude::*;

verus! {

/// The machine with its pointer moved by `p`.
pub open spec fn shifted(m: Machine, p: Offset) -> Machine {
    Machine { ptr: off_add(m.ptr, p), ..m }
}

/// Running the pending movement makes it real.
proof fn lemma_run_flush(p: Offset, m: Machine, inp: Feed)
    ensures
        run(flush_move(p), m, inp) == (if m.ok {
            shifted(m, p)
        } else {
            m
        }),
{
    if p != 0 {
        assert(flush_move(p) =~= Seq::<Node>::empty().push(Node::PtrChange(p)));
        lemma_run_push(Seq::<Node>::empty(), Node::PtrChange(p), m, inp);
    }
}

/// The emitted prefix acts as the given prefix does, but for the
/// movement still pending.
proof fn lemma_squeeze_upto_sound(irs: Seq<Node>, n: int, m: Machine, inp: Feed)
    requires
        0 <= n <= irs.len(),
    ensures
        ({
            let st = squeeze_upto(irs, n);
            let orig = run_upto(irs, n, m, inp);
            let ours = run(st.out, m, inp);
            if orig.ok {
                orig == shifted(ours, st.pending)
            } else {
                orig == ours
            }
        }),
    decreases irs, n,
{
    if n > 0 {
        lemma_squeeze_upto_sound(irs, n - 1, m, inp);
        let prev = squeeze_upto(irs, n - 1);
        let st = squeeze_upto(irs, n);
        let o = prev.out;
        let p = prev.pending;
        let x = irs[n - 1];
        let orig0 = run_upto(irs, n - 1, m, inp);
        let ours0 = run(o, m, inp);
        let orig = run_upto(irs, n, m, inp);
        assert(orig == exec_node(x, orig0, inp));
        match x {
            Node::PtrChange(d) => {},
            Node::Getch(off) => {
                lemma_run_push(o, Node::Getch(off_add(off, p)), m, inp);
            },
            Node::Putch(off) => {
                lemma_run_push(o, Node::Putch(off_add(off, p)), m, inp);
            },
            Node::Add(off, v) => {
                lemma_run_push(o, Node::Add(off_add(off, p), v), m, inp);
            },
            Node::Loop(_) | Node::SimpleLoop(_, _) | Node::AddMul(_, _) | Node::MovImm(_, _) => {
                let y = st.out.last();
                assert(st.out =~= (o + flush_move(p)).push(y));
                lemma_run_push(o + flush_move(p), y, m, inp);
                lemma_run_concat(o, flush_move(p), m, inp);
                lemma_run_flush(p, ours0, inp);
                let mid = run(o + flush_move(p), m, inp);
                assert(mid == orig0);
                match x {
                    Node::Loop(body) => {
                        let inner = squeeze_body(body, true);
                        assert forall|z: Machine| #[trigger] run(inner, z, inp) == run(
                            body,
                            z,
                            inp,
                        ) by {
                            lemma_squeeze_body_sound(body, z, inp);
                        }
                        lemma_loop_congruent(inner, body, mid, inp);
                    },
                    Node::SimpleLoop(delta, body) => {
                        let inner = squeeze_body(body, true);
                        assert forall|z: Machine| #[trigger] run(inner, z, inp) == run(
                            body,
                            z,
                            inp,
                        ) by {
                            lemma_squeeze_body_sound(body, z, inp);
                        }
                        lemma_simple_loop_congruent(delta, inner, body, mid, inp);
                    },
                    _ => {},
                }
            },
        }
    }
}

/// What the pass makes of a nested body acts on every machine as the body
/// does.
pub proof fn lemma_squeeze_body_sound(irs: Seq<Node>, m: Machine, inp: Feed)
    ensures
        run(squeeze_body(irs, true), m, inp) == run(irs, m, inp),
    decreases irs, irs.len() + 1,
{
    lemma_squeeze_upto_sound(irs, irs.len() as int, m, inp);
    let st = squeeze_upto(irs, irs.len() as int);
    lemma_run_concat(st.out, flush_move(st.pending), m, inp);
    lemma_run_flush(st.pending, run(st.out, m, inp), inp);
}

/// Folding pointer moves keeps the meaning of a program: from any machine
/// and on any input, the folded program reads the same bytes, writes the
/// same bytes, leaves the same tape and spends the same fuel.  Only the
/// final position of the pointer may differ.
pub proof fn lemma_compress_changes_sound(irs: Seq<Node>, m: Machine, inp: Feed)
    ensures
        ({
            let orig = run(irs, m, inp);
            let ours = run(compress_changes_spec(irs), m, inp);
            &&& ours.output == orig.output
            &&& ours.reads == orig.reads
            &&& ours.mem == orig.mem
            &&& ours.fuel == orig.fuel
            &&& ours.ok == orig.ok
        }),
{
    lemma_squeeze_upto_sound(irs, irs.len() as int, m, inp);
}

} // verus!
