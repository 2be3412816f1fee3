//! Elimination of constant stores that are overwritten before any use.

use crate::cells::{CellMap, Cells};
use crate::ir::{
    lemma_node_of_simple_loop, nodes_of, off_add, off_sub, push_ir, Node, Offset, Value, IR,
};
use vstd::prelude::*;

verus! {

/// State of the walk over one body: the stores held back by absolute
/// position, the displacement walked so far, whether the walk has not yet
/// crossed a plain loop, and the instructions emitted.
pub ghost struct Sweep {
    pub writes: Cells<Value>,
    pub off: Offset,
    pub knowable: bool,
    pub out: Seq<Node>,
}

/// The state before the first instruction of a body.
pub open spec fn sweep_start() -> Sweep {
    Sweep { writes: Cells::empty(), off: 0, knowable: true, out: Seq::empty() }
}

/// The store held back for position `k`, as an instruction at relative
/// offset `rel`; nothing if none is held back.
pub open spec fn release(writes: Cells<Value>, k: Offset, rel: Offset) -> Seq<Node> {
    match writes.get(k) {
        Some(v) => seq![Node::MovImm(rel, v)],
        None => Seq::empty(),
    }
}

/// Every store held back, in order of first entry, each relative to the
/// current position `at`.
pub open spec fn release_all(writes: Cells<Value>, at: Offset) -> Seq<Node> {
    Seq::new(
        writes.keys.len(),
        |i: int| Node::MovImm(off_sub(writes.keys[i], at), writes.map[writes.keys[i]]),
    )
}

/// The state after one more instruction.  `inner` is what the sweep makes
/// of the body when the instruction is a simple loop.
pub open spec fn sweep_step(st: Sweep, n: Node, inner: Seq<Node>) -> Sweep {
    if !st.knowable {
        Sweep { out: st.out.push(n), ..st }
    } else {
        match n {
            Node::Loop(_) => Sweep {
                writes: Cells::empty(),
                knowable: false,
                out: (st.out + release_all(st.writes, st.off)).push(n),
                ..st
            },
            Node::SimpleLoop(delta, _) => Sweep {
                writes: Cells::empty().set(st.off, 0),
                out: (st.out + release_all(st.writes, st.off)).push(
                    Node::SimpleLoop(delta, inner),
                ),
                ..st
            },
            Node::AddMul(a, _) => {
                let dst = off_add(st.off, a);
                let first = release(st.writes, dst, a);
                let mid = st.writes.unset(dst);
                let second = release(mid, st.off, 0);
                Sweep { writes: mid.unset(st.off), out: (st.out + first + second).push(n), ..st }
            },
            Node::PtrChange(d) => Sweep { off: off_add(st.off, d), out: st.out.push(n), ..st },
            Node::Add(a, _) | Node::Putch(a) => {
                let k = off_add(st.off, a);
                Sweep {
                    writes: st.writes.unset(k),
                    out: (st.out + release(st.writes, k, a)).push(n),
                    ..st
                }
            },
            Node::Getch(a) => Sweep {
                writes: st.writes.unset(off_add(st.off, a)),
                out: st.out.push(n),
                ..st
            },
            Node::MovImm(a, v) => Sweep { writes: st.writes.set(off_add(st.off, a), v), ..st },
        }
    }
}

/// The state after the first `n` instructions of a body.
pub open spec fn sweep_upto(irs: Seq<Node>, n: int) -> Sweep
    decreases irs, n,
{
    if n <= 0 || n > irs.len() {
        sweep_start()
    } else {
        let inner = match irs[n - 1] {
            Node::SimpleLoop(_, body) => sweep_body(body, true),
            _ => Seq::empty(),
        };
        sweep_step(sweep_upto(irs, n - 1), irs[n - 1], inner)
    }
}

/// What the sweep makes of a body.  With `flush`, the stores still held
/// back at the end are emitted; without, they are dropped.
pub open spec fn sweep_body(irs: Seq<Node>, flush: bool) -> Seq<Node>
    decreases irs, irs.len() + 1,
{
    let st = sweep_upto(irs, irs.len() as int);
    if flush {
        st.out + release_all(st.writes, st.off)
    } else {
        st.out
    }
}

/// What store elimination makes of a program.
pub open spec fn remove_unread_stores_spec(irs: Seq<Node>) -> Seq<Node> {
    sweep_body(irs, false)
}

/// Emits the store held back for `k`, if any, and forgets it.
fn emit_release(out: &mut Vec<IR>, writes: &mut CellMap<Value>, k: Offset, rel: Offset)
    requires
        old(writes)@.wf(),
    ensures
        final(writes)@.wf(),
        final(writes)@ == old(writes)@.unset(k),
        nodes_of(final(out)@) == nodes_of(old(out)@) + release(old(writes)@, k, rel),
{
    match writes.remove(k) {
        Some(v) => {
            push_ir(out, IR::MovImm(rel, v));
            assert(nodes_of(old(out)@).push(Node::MovImm(rel, v)) =~= nodes_of(old(out)@)
                + release(old(writes)@, k, rel));
        },
        None => {
            assert(nodes_of(old(out)@) =~= nodes_of(old(out)@) + release(old(writes)@, k, rel));
        },
    }
}

/// Emits every store held back and forgets them all.
fn flush_writes(out: &mut Vec<IR>, writes: &mut CellMap<Value>, at: Offset)
    requires
        old(writes)@.wf(),
    ensures
        final(writes)@.wf(),
        final(writes)@ == Cells::<Value>::empty(),
        nodes_of(final(out)@) == nodes_of(old(out)@) + release_all(old(writes)@, at),
{
    let n = writes.len();
    let mut i: usize = 0;
    while i < n
        invariant
            writes@.wf(),
            writes@ == old(writes)@,
            n == writes@.keys.len(),
            i <= n,
            nodes_of(out@) == nodes_of(old(out)@) + release_all(writes@, at).take(i as int),
        decreases n - i,
    {
        let (k, v) = writes.entry_at(i);
        push_ir(out, IR::MovImm(k.wrapping_sub(at), v));
        proof {
            let all = release_all(writes@, at);
            assert(all.take(i + 1) =~= all.take(i as int).push(all[i as int]));
            assert(nodes_of(out@) =~= nodes_of(old(out)@) + all.take(i + 1));
        }
        i += 1;
    }
    proof {
        let all = release_all(writes@, at);
        assert(all.take(n as int) =~= all);
    }
    writes.clear();
}

/// Sweeps one body.
fn sweep(irs: &Vec<IR>, flush: bool) -> (r: Vec<IR>)
    ensures
        nodes_of(r@) == sweep_body(nodes_of(irs@), flush),
    decreases irs,
{
    let ghost src = nodes_of(irs@);
    let mut ret: Vec<IR> = Vec::new();
    let mut off: Offset = 0;
    let mut writes: CellMap<Value> = CellMap::new();
    let mut knowable = true;
    let mut i: usize = 0;
    assert(nodes_of(ret@) =~= Seq::empty());
    while i < irs.len()
        invariant
            i <= irs.len(),
            src == nodes_of(irs@),
            writes@.wf(),
            sweep_upto(src, i as int) == (Sweep {
                writes: writes@,
                off: off,
                knowable: knowable,
                out: nodes_of(ret@),
            }),
        decreases irs.len() - i,
    {
        let ghost st = sweep_upto(src, i as int);
        let ghost n = src[i as int];
        assert(n == irs@[i as int]@);
        let ir = &irs[i];
        i += 1;
        if !knowable {
            push_ir(&mut ret, ir.clone());
            continue ;
        }
        match ir {
            IR::Loop(_) => {
                flush_writes(&mut ret, &mut writes, off);
                push_ir(&mut ret, ir.clone());
                knowable = false;
            },
            IR::SimpleLoop(delta, inner) => {
                flush_writes(&mut ret, &mut writes, off);
                let body = sweep(inner, true);
                proof {
                    lemma_node_of_simple_loop(*delta, *inner);
                    lemma_node_of_simple_loop(*delta, body);
                }
                push_ir(&mut ret, IR::SimpleLoop(*delta, body));
                writes.insert(off, 0);
            },
            IR::AddMul(a, _) => {
                emit_release(&mut ret, &mut writes, off.wrapping_add(*a), *a);
                emit_release(&mut ret, &mut writes, off, 0);
                push_ir(&mut ret, ir.clone());
            },
            IR::PtrChange(d) => {
                off = off.wrapping_add(*d);
                push_ir(&mut ret, ir.clone());
            },
            IR::Add(a, _) => {
                emit_release(&mut ret, &mut writes, off.wrapping_add(*a), *a);
                push_ir(&mut ret, ir.clone());
            },
            IR::Putch(a) => {
                emit_release(&mut ret, &mut writes, off.wrapping_add(*a), *a);
                push_ir(&mut ret, ir.clone());
            },
            IR::Getch(a) => {
                writes.remove(off.wrapping_add(*a));
                push_ir(&mut ret, ir.clone());
            },
            IR::MovImm(a, v) => {
                writes.insert(off.wrapping_add(*a), *v);
            },
        }
    }
    if flush {
        flush_writes(&mut ret, &mut writes, off);
    }
    ret
}

/// Removes constant stores whose value is overwritten before anything
/// reads it.  Stores still held back when the program ends are dropped.
pub fn remove_unread_stores(irs: &Vec<IR>) -> (r: Vec<IR>)
    ensures
        nodes_of(r@) == remove_unread_stores_spec(nodes_of(irs@)),
{
    sweep(irs, false)
}

} // verus!
