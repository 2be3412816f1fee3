//! Folding of pointer moves into the offsets of neighbouring instructions.

use crate::ir::{
    lemma_node_of_loop, lemma_node_of_simple_loop, nodes_of, off_add, push_ir, Node, Offset, IR,
};
use vstd::prelude::*;

verus! {

/// State of the walk over one body: the pointer movement not yet made
/// real, and the instructions emitted.
pub ghost struct Squeeze {
    pub pending: Offset,
    pub out: Seq<Node>,
}

/// The pending movement as an instruction; nothing if it is zero.
pub open spec fn flush_move(pending: Offset) -> Seq<Node> {
    if pending != 0 {
        seq![Node::PtrChange(pending)]
    } else {
        Seq::empty()
    }
}

/// The state after one more instruction.  `inner` is what the pass makes
/// of the body when the instruction is a loop of either kind.
pub open spec fn squeeze_step(st: Squeeze, n: Node, inner: Seq<Node>) -> Squeeze {
    match n {
        Node::PtrChange(d) => Squeeze { pending: off_add(st.pending, d), ..st },
        Node::Getch(off) => Squeeze {
            out: st.out.push(Node::Getch(off_add(off, st.pending))),
            ..st
        },
        Node::Putch(off) => Squeeze {
            out: st.out.push(Node::Putch(off_add(off, st.pending))),
            ..st
        },
        Node::Add(off, v) => Squeeze {
            out: st.out.push(Node::Add(off_add(off, st.pending), v)),
            ..st
        },
        Node::Loop(_) => Squeeze {
            pending: 0,
            out: (st.out + flush_move(st.pending)).push(Node::Loop(inner)),
        },
        Node::SimpleLoop(delta, _) => Squeeze {
            pending: 0,
            out: (st.out + flush_move(st.pending)).push(Node::SimpleLoop(delta, inner)),
        },
        Node::AddMul(_, _) | Node::MovImm(_, _) => Squeeze {
            pending: 0,
            out: (st.out + flush_move(st.pending)).push(n),
        },
    }
}

/// The state after the first `n` instructions of a body.
pub open spec fn squeeze_upto(irs: Seq<Node>, n: int) -> Squeeze
    decreases irs, n,
{
    if n <= 0 || n > irs.len() {
        Squeeze { pending: 0, out: Seq::empty() }
    } else {
        let inner = match irs[n - 1] {
            Node::Loop(body) => squeeze_body(body, true),
            Node::SimpleLoop(_, body) => squeeze_body(body, true),
            _ => Seq::empty(),
        };
        squeeze_step(squeeze_upto(irs, n - 1), irs[n - 1], inner)
    }
}

/// What the pass makes of a body.  In a nested body the movement still
/// pending at the end is made real, so that the body's net displacement is
/// kept; at the top level it is dropped.
pub open spec fn squeeze_body(irs: Seq<Node>, nested: bool) -> Seq<Node>
    decreases irs, irs.len() + 1,
{
    let st = squeeze_upto(irs, irs.len() as int);
    if nested {
        st.out + flush_move(st.pending)
    } else {
        st.out
    }
}

/// What pointer-move folding makes of a program.
pub open spec fn compress_changes_spec(irs: Seq<Node>) -> Seq<Node> {
    squeeze_body(irs, false)
}

/// The state after a prefix depends on that prefix alone.
proof fn lemma_squeeze_prefix(a: Seq<Node>, b: Seq<Node>, n: int)
    requires
        0 <= n <= a.len(),
        n <= b.len(),
        a.take(n) == b.take(n),
    ensures
        squeeze_upto(a, n) == squeeze_upto(b, n),
    decreases n,
{
    if n > 0 {
        assert(a.take(n - 1) =~= a.take(n).take(n - 1));
        assert(b.take(n - 1) =~= b.take(n).take(n - 1));
        lemma_squeeze_prefix(a, b, n - 1);
        assert(a[n - 1] == a.take(n)[n - 1]);
        assert(b[n - 1] == b.take(n)[n - 1]);
    }
}

/// Walking what has been emitted for a prefix emits it again unchanged and
/// leaves no movement pending.
proof fn lemma_squeeze_upto_fixed(irs: Seq<Node>, n: int)
    requires
        0 <= n <= irs.len(),
    ensures
        ({
            let out = squeeze_upto(irs, n).out;
            squeeze_upto(out, out.len() as int) == (Squeeze { pending: 0, out: out })
        }),
    decreases irs, n,
{
    if n > 0 {
        lemma_squeeze_upto_fixed(irs, n - 1);
        let prev = squeeze_upto(irs, n - 1);
        let o = prev.out;
        let p = prev.pending;
        let x = irs[n - 1];
        let out = squeeze_upto(irs, n).out;
        match x {
            Node::PtrChange(_) => {},
            Node::Getch(_) | Node::Putch(_) | Node::Add(_, _) => {
                assert(out.take(o.len() as int) =~= o);
                assert(o.take(o.len() as int) =~= o);
                lemma_squeeze_prefix(out, o, o.len() as int);
            },
            Node::Loop(_) | Node::SimpleLoop(_, _) | Node::AddMul(_, _) | Node::MovImm(_, _) => {
                let inner = match x {
                    Node::Loop(body) => squeeze_body(body, true),
                    Node::SimpleLoop(_, body) => squeeze_body(body, true),
                    _ => Seq::empty(),
                };
                match x {
                    Node::Loop(body) => {
                        lemma_squeeze_body_fixed(body, true);
                    },
                    Node::SimpleLoop(_, body) => {
                        lemma_squeeze_body_fixed(body, true);
                    },
                    _ => {},
                }
                let y = out.last();
                assert(o.take(o.len() as int) =~= o);
                assert(out.take(o.len() as int) =~= o);
                lemma_squeeze_prefix(out, o, o.len() as int);
                if p != 0 {
                    assert(out =~= o.push(Node::PtrChange(p)).push(y));
                    assert(out.len() == o.len() + 2);
                    assert(out[o.len() as int] == Node::PtrChange(p));
                    assert(squeeze_upto(out, (o.len() + 1) as int) == (Squeeze { pending: p, out: o }));
                    assert(squeeze_upto(out, (o.len() + 2) as int).out =~= out);
                } else {
                    assert(out =~= o.push(y));
                    assert(squeeze_upto(out, (o.len() + 1) as int).out =~= out);
                }
            },
        }
    }
}

/// What the pass makes of a body is left unchanged by the pass.
proof fn lemma_squeeze_body_fixed(irs: Seq<Node>, nested: bool)
    ensures
        squeeze_body(squeeze_body(irs, nested), nested) == squeeze_body(irs, nested),
    decreases irs, irs.len() + 1,
{
    lemma_squeeze_upto_fixed(irs, irs.len() as int);
    let st = squeeze_upto(irs, irs.len() as int);
    let o = st.out;
    let b = squeeze_body(irs, nested);
    if nested && st.pending != 0 {
        assert(b =~= o.push(Node::PtrChange(st.pending)));
        assert(o.take(o.len() as int) =~= o);
        assert(b.take(o.len() as int) =~= o);
        lemma_squeeze_prefix(b, o, o.len() as int);
        assert(squeeze_upto(b, (o.len() + 1) as int) == (Squeeze { pending: st.pending, out: o }));
    } else {
        assert(b =~= o);
        assert(o + flush_move(0) =~= o);
    }
}

/// Folding pointer moves twice gives what folding them once gives.
pub proof fn lemma_compress_changes_idempotent(irs: Seq<Node>)
    ensures
        compress_changes_spec(compress_changes_spec(irs)) == compress_changes_spec(irs),
{
    lemma_squeeze_body_fixed(irs, false);
}

/// Emits the pending movement, if it is not zero.
fn emit_move(out: &mut Vec<IR>, pending: Offset)
    ensures
        nodes_of(final(out)@) == nodes_of(old(out)@) + flush_move(pending),
{
    if pending != 0 {
        push_ir(out, IR::PtrChange(pending));
        assert(nodes_of(old(out)@).push(Node::PtrChange(pending)) =~= nodes_of(old(out)@)
            + flush_move(pending));
    } else {
        assert(nodes_of(old(out)@) =~= nodes_of(old(out)@) + flush_move(pending));
    }
}

/// Walks one body.
fn squeeze(irs: &Vec<IR>, preserve_change: bool) -> (r: Vec<IR>)
    ensures
        nodes_of(r@) == squeeze_body(nodes_of(irs@), preserve_change),
    decreases irs,
{
    let ghost src = nodes_of(irs@);
    let mut ret: Vec<IR> = Vec::new();
    let mut pending: Offset = 0;
    let mut i: usize = 0;
    assert(nodes_of(ret@) =~= Seq::empty());
    while i < irs.len()
        invariant
            i <= irs.len(),
            src == nodes_of(irs@),
            squeeze_upto(src, i as int) == (Squeeze { pending: pending, out: nodes_of(ret@) }),
        decreases irs.len() - i,
    {
        let ghost n = src[i as int];
        assert(n == irs@[i as int]@);
        let ir = &irs[i];
        i += 1;
        match ir {
            IR::PtrChange(d) => {
                pending = pending.wrapping_add(*d);
            },
            IR::Getch(off) => {
                push_ir(&mut ret, IR::Getch(off.wrapping_add(pending)));
            },
            IR::Putch(off) => {
                push_ir(&mut ret, IR::Putch(off.wrapping_add(pending)));
            },
            IR::Add(off, v) => {
                push_ir(&mut ret, IR::Add(off.wrapping_add(pending), *v));
            },
            IR::Loop(inner) => {
                emit_move(&mut ret, pending);
                pending = 0;
                let body = squeeze(inner, true);
                proof {
                    lemma_node_of_loop(*inner);
                    lemma_node_of_loop(body);
                }
                push_ir(&mut ret, IR::Loop(body));
            },
            IR::SimpleLoop(delta, inner) => {
                emit_move(&mut ret, pending);
                pending = 0;
                let body = squeeze(inner, true);
                proof {
                    lemma_node_of_simple_loop(*delta, *inner);
                    lemma_node_of_simple_loop(*delta, body);
                }
                push_ir(&mut ret, IR::SimpleLoop(*delta, body));
            },
            IR::AddMul(_, _) | IR::MovImm(_, _) => {
                emit_move(&mut ret, pending);
                pending = 0;
                push_ir(&mut ret, ir.clone());
            },
        }
    }
    if preserve_change {
        emit_move(&mut ret, pending);
    }
    ret
}

/// Folds pointer moves into the offsets of the adds, reads and writes
/// that follow them.  A move is made real only before an instruction that
/// is anchored to the pointer (a loop, a multiply-add, a constant store) and
/// at the end of a nested body.
pub fn compress_changes(irs: &Vec<IR>) -> (r: Vec<IR>)
    ensures
        nodes_of(r@) == compress_changes_spec(nodes_of(irs@)),
        compress_changes_spec(nodes_of(r@)) == nodes_of(r@),
{
    proof {
        lemma_compress_changes_idempotent(nodes_of(irs@));
    }
    squeeze(irs, false)
}

} // verus!
