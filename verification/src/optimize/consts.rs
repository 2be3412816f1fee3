//! Forward propagation of known cell values and pending deltas.

use crate::cells::{CellMap, Cells};
use crate::ir::{nodes_of, off_add, off_sub, push_ir, val_add, val_mul, Node, Offset, Value, IR};
use vstd::prelude::*;

verus! {

/// What is known of a cell at a point of the walk.
#[derive(Clone, Copy, Debug)]
pub enum Fact {
    /// The cell holds exactly this value.
    Const(Value),
    /// The cell holds what the emitted code leaves there, plus this delta.
    Delta(Value),
}

/// State of the walk: the facts by absolute position, the displacement
/// walked so far, whether the walk has not yet crossed a live loop, and the
/// instructions emitted.
pub ghost struct Folding {
    pub facts: Cells<Fact>,
    pub off: Offset,
    pub knowable: bool,
    pub out: Seq<Node>,
}

/// The fact at a position; a position never entered holds zero.
pub open spec fn fact_at(facts: Cells<Fact>, k: Offset) -> Fact {
    facts.get_or(k, Fact::Const(0))
}

/// A fact after `v` is added to its cell.
pub open spec fn bump(f: Fact, v: Value) -> Fact {
    match f {
        Fact::Const(c) => Fact::Const(val_add(v, c)),
        Fact::Delta(d) => Fact::Delta(val_add(v, d)),
    }
}

/// The instructions that make a fact real before its cell is read: a
/// store for a constant, an add for a nonzero delta, nothing for a zero
/// delta.
pub open spec fn settle(rel: Offset, f: Fact) -> Seq<Node> {
    match f {
        Fact::Const(v) => seq![Node::MovImm(rel, v)],
        Fact::Delta(d) => if d != 0 {
            seq![Node::Add(rel, d)]
        } else {
            Seq::empty()
        },
    }
}

/// The one instruction that makes a fact real when the whole state is
/// given up before a loop.
pub open spec fn spill_one(rel: Offset, f: Fact) -> Node {
    match f {
        Fact::Const(v) => Node::MovImm(rel, v),
        Fact::Delta(d) => Node::Add(rel, d),
    }
}

/// One instruction per tracked position, in order of first entry, each
/// relative to the current position `at`.
pub open spec fn spill(facts: Cells<Fact>, at: Offset) -> Seq<Node> {
    Seq::new(
        facts.keys.len(),
        |i: int| spill_one(off_sub(facts.keys[i], at), facts.map[facts.keys[i]]),
    )
}

/// The state before the first instruction.
pub open spec fn folding_start() -> Folding {
    Folding { facts: Cells::empty(), off: 0, knowable: true, out: Seq::empty() }
}

/// The transfer function: the state after one more instruction.
pub open spec fn fold_step(st: Folding, n: Node) -> Folding {
    if !st.knowable {
        Folding { out: st.out.push(n), ..st }
    } else {
        match n {
            Node::PtrChange(d) => Folding { out: st.out.push(n), off: off_add(st.off, d), ..st },
            Node::Add(a, v) => {
                let k = off_add(st.off, a);
                Folding { facts: st.facts.set(k, bump(fact_at(st.facts, k), v)), ..st }
            },
            Node::MovImm(a, v) => {
                let k = off_add(st.off, a);
                Folding { facts: st.facts.set(k, Fact::Const(v)), out: st.out.push(n), ..st }
            },
            Node::AddMul(a, by) => {
                let dst = off_add(st.off, a);
                let init = fact_at(st.facts, dst);
                let mult = fact_at(st.facts, st.off);
                match (init, mult) {
                    (Fact::Const(i), Fact::Const(m)) => Folding {
                        facts: st.facts.set(dst, Fact::Const(val_add(i, val_mul(m, by)))),
                        ..st
                    },
                    _ => Folding {
                        facts: st.facts.set(dst, Fact::Delta(0)),
                        out: (st.out + settle(0, mult) + settle(a, init)).push(n),
                        ..st
                    },
                }
            },
            Node::Putch(a) => {
                let k = off_add(st.off, a);
                let before = match st.facts.get(k) {
                    Some(f) => settle(a, f),
                    None => Seq::empty(),
                };
                Folding { out: (st.out + before).push(n), ..st }
            },
            Node::Getch(a) => {
                let k = off_add(st.off, a);
                Folding { facts: st.facts.set(k, Fact::Delta(0)), out: st.out.push(n), ..st }
            },
            Node::Loop(_) | Node::SimpleLoop(_, _) => {
                if fact_at(st.facts, st.off) == Fact::Const(0) {
                    st
                } else {
                    Folding {
                        facts: Cells::empty(),
                        knowable: false,
                        out: (st.out + spill(st.facts, st.off)).push(n),
                        ..st
                    }
                }
            },
        }
    }
}

/// The state after the first `n` instructions of `irs`.
pub open spec fn fold_upto(irs: Seq<Node>, n: int) -> Folding
    decreases n,
{
    if n <= 0 {
        folding_start()
    } else {
        fold_step(fold_upto(irs, n - 1), irs[n - 1])
    }
}

/// What constant propagation makes of a program.
pub open spec fn collapse_consts_spec(irs: Seq<Node>) -> Seq<Node> {
    fold_upto(irs, irs.len() as int).out
}

/// After a loop that opens a program, the walk stands where it stands
/// after as many instructions less of the rest.
proof fn lemma_fold_after_leading_loop(irs: Seq<Node>, n: int)
    requires
        irs.len() > 0,
        irs[0] is Loop || irs[0] is SimpleLoop,
        0 <= n < irs.len(),
    ensures
        fold_upto(irs, n + 1) == fold_upto(irs.drop_first(), n),
    decreases n,
{
    if n > 0 {
        lemma_fold_after_leading_loop(irs, n - 1);
        assert(irs[n] == irs.drop_first()[n - 1]);
    } else {
        assert(fold_upto(irs, 1) == fold_step(fold_upto(irs, 0), irs[0]));
    }
}

/// A loop that opens a program is dropped: on a tape of zeros it cannot
/// run.
pub proof fn lemma_leading_loop_dropped(irs: Seq<Node>)
    requires
        irs.len() > 0,
        irs[0] is Loop || irs[0] is SimpleLoop,
    ensures
        collapse_consts_spec(irs) == collapse_consts_spec(irs.drop_first()),
{
    lemma_fold_after_leading_loop(irs, irs.len() - 1);
}

/// Emits what makes a fact real before its cell is read.
fn emit_settle(out: &mut Vec<IR>, rel: Offset, f: Fact)
    ensures
        nodes_of(final(out)@) == nodes_of(old(out)@) + settle(rel, f),
{
    match f {
        Fact::Const(v) => {
            push_ir(out, IR::MovImm(rel, v));
            assert(nodes_of(old(out)@).push(Node::MovImm(rel, v)) =~= nodes_of(old(out)@) + settle(
                rel,
                f,
            ));
        },
        Fact::Delta(d) => {
            if d != 0 {
                push_ir(out, IR::Add(rel, d));
                assert(nodes_of(old(out)@).push(Node::Add(rel, d)) =~= nodes_of(old(out)@)
                    + settle(rel, f));
            } else {
                assert(nodes_of(old(out)@) =~= nodes_of(old(out)@) + settle(rel, f));
            }
        },
    }
}

/// Emits one instruction per tracked position.
fn emit_spill(out: &mut Vec<IR>, facts: &CellMap<Fact>, at: Offset)
    requires
        facts@.wf(),
    ensures
        nodes_of(final(out)@) == nodes_of(old(out)@) + spill(facts@, at),
{
    let n = facts.len();
    let mut i: usize = 0;
    while i < n
        invariant
            facts@.wf(),
            n == facts@.keys.len(),
            i <= n,
            nodes_of(out@) == nodes_of(old(out)@) + spill(facts@, at).take(i as int),
        decreases n - i,
    {
        let (k, f) = facts.entry_at(i);
        let rel = k.wrapping_sub(at);
        let ghost before = nodes_of(out@);
        match f {
            Fact::Const(v) => push_ir(out, IR::MovImm(rel, v)),
            Fact::Delta(d) => push_ir(out, IR::Add(rel, d)),
        }
        proof {
            let all = spill(facts@, at);
            assert(all.take(i + 1) =~= all.take(i as int).push(all[i as int]));
            assert(nodes_of(out@) =~= nodes_of(old(out)@) + all.take(i + 1));
        }
        i += 1;
    }
    proof {
        let all = spill(facts@, at);
        assert(all.take(n as int) =~= all);
    }
}

/// Propagates known values and pending deltas through a program: folds
/// adds and multiply-adds whose operands are known, drops loops whose
/// condition cell is known to be zero, and gives the tracked state up
/// before the first loop that may run.
pub fn collapse_consts(irs: &Vec<IR>) -> (r: Vec<IR>)
    ensures
        nodes_of(r@) == collapse_consts_spec(nodes_of(irs@)),
{
    let ghost src = nodes_of(irs@);
    let mut facts: CellMap<Fact> = CellMap::new();
    let mut off: Offset = 0;
    let mut knowable = true;
    let mut ret: Vec<IR> = Vec::new();
    let mut i: usize = 0;
    assert(nodes_of(ret@) =~= Seq::empty());
    while i < irs.len()
        invariant
            i <= irs.len(),
            src == nodes_of(irs@),
            facts@.wf(),
            fold_upto(src, i as int) == (Folding {
                facts: facts@,
                off: off,
                knowable: knowable,
                out: nodes_of(ret@),
            }),
        decreases irs.len() - i,
    {
        let ghost st = fold_upto(src, i as int);
        let ghost n = src[i as int];
        assert(n == irs@[i as int]@);
        assert(fold_upto(src, i + 1) == fold_step(st, n));
        let ir = &irs[i];
        i += 1;
        if !knowable {
            push_ir(&mut ret, ir.clone());
            continue ;
        }
        match ir {
            IR::PtrChange(d) => {
                push_ir(&mut ret, ir.clone());
                off = off.wrapping_add(*d);
            },
            IR::Add(a, v) => {
                let k = off.wrapping_add(*a);
                let next = match facts.get(k) {
                    Some(Fact::Delta(cur)) => Fact::Delta(v.wrapping_add(cur)),
                    Some(Fact::Const(cur)) => Fact::Const(v.wrapping_add(cur)),
                    None => Fact::Const(v.wrapping_add(0)),
                };
                facts.insert(k, next);
            },
            IR::MovImm(a, v) => {
                let k = off.wrapping_add(*a);
                facts.insert(k, Fact::Const(*v));
                push_ir(&mut ret, ir.clone());
            },
            IR::AddMul(a, by) => {
                let dst = off.wrapping_add(*a);
                let init = match facts.get(dst) {
                    Some(f) => f,
                    None => Fact::Const(0),
                };
                let mult = match facts.get(off) {
                    Some(f) => f,
                    None => Fact::Const(0),
                };
                match (init, mult) {
                    (Fact::Const(x), Fact::Const(m)) => {
                        facts.insert(dst, Fact::Const(x.wrapping_add(m.wrapping_mul(*by))));
                    },
                    _ => {
                        emit_settle(&mut ret, 0, mult);
                        emit_settle(&mut ret, *a, init);
                        push_ir(&mut ret, ir.clone());
                        facts.insert(dst, Fact::Delta(0));
                    },
                }
            },
            IR::Putch(a) => {
                let k = off.wrapping_add(*a);
                match facts.get(k) {
                    Some(f) => emit_settle(&mut ret, *a, f),
                    None => {
                        assert(nodes_of(ret@) + Seq::<Node>::empty() =~= nodes_of(ret@));
                    },
                }
                push_ir(&mut ret, ir.clone());
            },
            IR::Getch(a) => {
                let k = off.wrapping_add(*a);
                push_ir(&mut ret, ir.clone());
                facts.insert(k, Fact::Delta(0));
            },
            IR::Loop(_) | IR::SimpleLoop(_, _) => {
                let dead = match facts.get(off) {
                    Some(Fact::Const(c)) => c == 0,
                    Some(Fact::Delta(_)) => false,
                    None => true,
                };
                if !dead {
                    emit_spill(&mut ret, &facts, off);
                    facts.clear();
                    push_ir(&mut ret, ir.clone());
                    knowable = false;
                }
            },
        }
    }
    ret
}

} // verus!
