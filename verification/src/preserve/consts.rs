//! Constant propagation keeps the meaning of a program that starts on a
//! blank tape, as long as no pending delta is made real a second time while
//! it is still pending.

use crate::cells::Cells;
use crate::eval::{cell, exec_node, poke, run, run_upto, Feed, Machine};
use crate::ir::{off_add, off_sub, val_add, Node, Offset, Value};
use crate::optimize::consts::{
    bump, collapse_consts_spec, fact_at, fold_step, fold_upto, settle, spill, Fact, Folding,
};
use crate::preserve::{
    lemma_node_keeps_whole, lemma_run_concat, lemma_run_push, lemma_run_stuck, whole,
};
use vstd::prelude::*;

verus! {

/// Whether the tape has every cell and every cell holds zero.
pub open spec fn blank(m: Machine) -> bool {
    whole(m) && forall|a: Offset| #[trigger] m.mem[a] == 0
}

/// By position, how much of the delta pending there the emitted code has
/// already added.
pub type Made = Map<Offset, Value>;

/// Nothing has been made real.
pub open spec fn made_start() -> Made {
    Map::new(|k: Offset| true, |k: Offset| 0i8)
}

/// What has been made real after the factor of a kept multiply-add has
/// been settled.
pub open spec fn made_factor(st: Folding, made: Made) -> Made {
    match fact_at(st.facts, st.off) {
        Fact::Delta(d) => made.insert(st.off, d),
        Fact::Const(_) => made,
    }
}

/// What has been made real after one more instruction.  Settling a delta
/// before a write or a multiply-add makes all of it real, while the fact
/// stays; a store, a read or the result of a kept multiply-add starts the
/// cell afresh.
pub open spec fn made_step(st: Folding, made: Made, n: Node) -> Made {
    if !st.knowable {
        made
    } else {
        match n {
            Node::MovImm(a, _) | Node::Getch(a) => made.insert(off_add(st.off, a), 0),
            Node::Putch(a) => match st.facts.get(off_add(st.off, a)) {
                Some(Fact::Delta(d)) => made.insert(off_add(st.off, a), d),
                _ => made,
            },
            Node::AddMul(a, _) => {
                let dst = off_add(st.off, a);
                if fact_at(st.facts, dst) is Const && fact_at(st.facts, st.off) is Const {
                    made
                } else {
                    made_factor(st, made).insert(dst, 0)
                }
            },
            _ => made,
        }
    }
}

/// What has been made real after the first `n` instructions.
pub open spec fn made_upto(irs: Seq<Node>, n: int) -> Made
    decreases n,
{
    if n <= 0 {
        made_start()
    } else {
        made_step(fold_upto(irs, n - 1), made_upto(irs, n - 1), irs[n - 1])
    }
}

/// Whether an instruction, met in the given state, makes no delta real of
/// which something has been made real already: not before a write, not
/// before a kept multiply-add, and not when the state is given up before a
/// loop that may run.
pub open spec fn settles_once_at(st: Folding, made: Made, n: Node) -> bool {
    st.knowable ==> match n {
        Node::Putch(a) => st.facts.get(off_add(st.off, a)) matches Some(Fact::Delta(_))
            ==> made[off_add(st.off, a)] == 0,
        Node::AddMul(a, _) => {
            let dst = off_add(st.off, a);
            let init = fact_at(st.facts, dst);
            let mult = fact_at(st.facts, st.off);
            !(init is Const && mult is Const) ==> (mult is Delta ==> made[st.off] == 0) && (
            init is Delta ==> made_factor(st, made)[dst] == 0)
        },
        Node::Loop(_) | Node::SimpleLoop(_, _) => fact_at(st.facts, st.off) != Fact::Const(0)
            ==> forall|k: Offset|
            st.facts.get(k) matches Some(Fact::Delta(_)) ==> #[trigger] made[k] == 0,
        _ => true,
    }
}

/// Whether no instruction of a program makes a delta real of which
/// something has been made real already.
pub open spec fn settles_once(irs: Seq<Node>) -> bool {
    forall|i: int|
        0 <= i < irs.len() ==> settles_once_at(
            #[trigger] fold_upto(irs, i),
            made_upto(irs, i),
            irs[i],
        )
}

/// Whether a fact is true of a cell: `orig` is what the cell holds in the
/// run of the given program, `ours` what it holds in the run of the emitted
/// code, `e` what has been made real of a pending delta.
pub open spec fn fact_holds(f: Option<Fact>, e: Value, orig: Value, ours: Value) -> bool {
    match f {
        None => orig == 0 && ours == 0,
        Some(Fact::Const(c)) => orig == c,
        Some(Fact::Delta(d)) => val_add(orig, e) == val_add(ours, d),
    }
}

/// Whether every fact is true of its cell.
pub open spec fn facts_hold(st: Folding, made: Made, base: Offset, orig: Machine, ours: Machine) -> bool {
    forall|a: Offset|
        fact_holds(
            st.facts.get(off_sub(a, base)),
            made[off_sub(a, base)],
            #[trigger] orig.mem[a],
            ours.mem[a],
        )
}

/// How the run of the emitted prefix stands to the run of the given
/// prefix.
pub open spec fn fold_related(
    st: Folding,
    made: Made,
    base: Offset,
    orig: Machine,
    ours: Machine,
) -> bool {
    if orig.ok && st.knowable {
        &&& ours == (Machine { mem: ours.mem, ..orig })
        &&& orig.ptr == off_add(base, st.off)
        &&& facts_hold(st, made, base, orig, ours)
    } else {
        ours == orig
    }
}

/// What a step must be given, and what it then gives.
spec fn step_given(st: Folding, made: Made, base: Offset, orig0: Machine, ours0: Machine) -> bool {
    &&& st.facts.wf()
    &&& whole(ours0)
    &&& whole(orig0)
    &&& forall|k: Offset| made.contains_key(k)
    &&& fold_related(st, made, base, orig0, ours0)
}

/// What one step of the walk appends to the instructions emitted.
pub open spec fn fold_emits(st: Folding, n: Node) -> Seq<Node> {
    if !st.knowable {
        seq![n]
    } else {
        match n {
            Node::PtrChange(_) | Node::MovImm(_, _) | Node::Getch(_) => seq![n],
            Node::Add(_, _) => Seq::empty(),
            Node::AddMul(a, _) => {
                let init = fact_at(st.facts, off_add(st.off, a));
                let mult = fact_at(st.facts, st.off);
                if init is Const && mult is Const {
                    Seq::empty()
                } else {
                    (settle(0, mult) + settle(a, init)).push(n)
                }
            },
            Node::Putch(a) => (match st.facts.get(off_add(st.off, a)) {
                Some(f) => settle(a, f),
                None => Seq::empty(),
            }).push(n),
            Node::Loop(_) | Node::SimpleLoop(_, _) => if fact_at(st.facts, st.off) == Fact::Const(
                0,
            ) {
                Seq::empty()
            } else {
                spill(st.facts, st.off).push(n)
            },
        }
    }
}

/// A step emits what was emitted before, then what the step appends.
pub proof fn lemma_fold_step_out(st: Folding, n: Node)
    ensures
        fold_step(st, n).out == st.out + fold_emits(st, n),
{
    assert(fold_step(st, n).out =~= st.out + fold_emits(st, n));
}

/// Running what makes a fact real.
proof fn lemma_settle_run(rel: Offset, f: Fact, m: Machine, inp: Feed)
    requires
        m.ok,
    ensures
        run(settle(rel, f), m, inp) == (match f {
            Fact::Const(v) => poke(m, rel, v),
            Fact::Delta(d) => if d != 0 {
                poke(m, rel, val_add(cell(m, rel), d))
            } else {
                m
            },
        }),
{
    match f {
        Fact::Const(v) => {
            let x = Node::MovImm(rel, v);
            assert(settle(rel, f) =~= Seq::<Node>::empty().push(x));
            lemma_run_push(Seq::<Node>::empty(), x, m, inp);
        },
        Fact::Delta(d) => {
            if d != 0 {
                let x = Node::Add(rel, d);
                assert(settle(rel, f) =~= Seq::<Node>::empty().push(x));
                lemma_run_push(Seq::<Node>::empty(), x, m, inp);
            }
        },
    }
}

/// One step over a pointer move keeps the two runs related.
proof fn lemma_fold_step_move(
    st: Folding,
    made: Made,
    x: Node,
    base: Offset,
    orig0: Machine,
    ours0: Machine,
    inp: Feed,
)
    requires
        step_given(st, made, base, orig0, ours0),
        st.knowable,
        orig0.ok,
        x is PtrChange,
    ensures
        step_given(
            fold_step(st, x),
            made_step(st, made, x),
            base,
            exec_node(x, orig0, inp),
            run(fold_emits(st, x), ours0, inp),
        ),
{
    let new = fold_step(st, x);
    let made1 = made_step(st, made, x);
    let orig = exec_node(x, orig0, inp);
    let ours = run(fold_emits(st, x), ours0, inp);
    lemma_run_push(Seq::<Node>::empty(), x, ours0, inp);
    assert(ours.mem == ours0.mem);
    assert(orig.mem == orig0.mem);
    lemma_node_keeps_whole(x, orig0, inp);
}

/// One step over an add keeps the two runs related.
proof fn lemma_fold_step_add(
    st: Folding,
    made: Made,
    x: Node,
    base: Offset,
    orig0: Machine,
    ours0: Machine,
    inp: Feed,
)
    requires
        step_given(st, made, base, orig0, ours0),
        st.knowable,
        orig0.ok,
        x is Add,
    ensures
        step_given(
            fold_step(st, x),
            made_step(st, made, x),
            base,
            exec_node(x, orig0, inp),
            run(fold_emits(st, x), ours0, inp),
        ),
{
    let new = fold_step(st, x);
    let made1 = made_step(st, made, x);
    let orig = exec_node(x, orig0, inp);
    let ours = run(fold_emits(st, x), ours0, inp);
    let a = x->Add_0;
    let v = x->Add_1;
    let k = off_add(st.off, a);
    let addr = off_add(orig0.ptr, a);
    st.facts.lemma_set_wf(k, bump(fact_at(st.facts, k), v));
    assert(off_sub(addr, base) == k);
    assert(ours == ours0);
    assert forall|ad: Offset|
        fact_holds(
            new.facts.get(off_sub(ad, base)),
            made1[off_sub(ad, base)],
            #[trigger] orig.mem[ad],
            ours.mem[ad],
        ) by {
        assert(fact_holds(
            st.facts.get(off_sub(ad, base)),
            made[off_sub(ad, base)],
            orig0.mem[ad],
            ours0.mem[ad],
        ));
        if ad != addr {
            assert(off_sub(ad, base) != k);
        }
    }
    lemma_node_keeps_whole(x, orig0, inp);
}

/// One step over a store or a read keeps the two runs related.
proof fn lemma_fold_step_set(
    st: Folding,
    made: Made,
    x: Node,
    base: Offset,
    orig0: Machine,
    ours0: Machine,
    inp: Feed,
)
    requires
        step_given(st, made, base, orig0, ours0),
        st.knowable,
        orig0.ok,
        x is MovImm || x is Getch,
    ensures
        step_given(
            fold_step(st, x),
            made_step(st, made, x),
            base,
            exec_node(x, orig0, inp),
            run(fold_emits(st, x), ours0, inp),
        ),
{
    let new = fold_step(st, x);
    let made1 = made_step(st, made, x);
    let orig = exec_node(x, orig0, inp);
    let ours = run(fold_emits(st, x), ours0, inp);
    let a = match x {
        Node::MovImm(a, _) => a,
        Node::Getch(a) => a,
        _ => 0i32,
    };
    let k = off_add(st.off, a);
    let addr = off_add(orig0.ptr, a);
    st.facts.lemma_set_wf(k, new.facts.map[k]);
    lemma_run_push(Seq::<Node>::empty(), x, ours0, inp);
    assert(off_sub(addr, base) == k);
    assert forall|ad: Offset|
        fact_holds(
            new.facts.get(off_sub(ad, base)),
            made1[off_sub(ad, base)],
            #[trigger] orig.mem[ad],
            ours.mem[ad],
        ) by {
        assert(fact_holds(
            st.facts.get(off_sub(ad, base)),
            made[off_sub(ad, base)],
            orig0.mem[ad],
            ours0.mem[ad],
        ));
        if ad != addr {
            assert(off_sub(ad, base) != k);
        }
    }
    lemma_node_keeps_whole(x, orig0, inp);
}

/// One step over a write keeps the two runs related.
proof fn lemma_fold_step_put(
    st: Folding,
    made: Made,
    x: Node,
    base: Offset,
    orig0: Machine,
    ours0: Machine,
    inp: Feed,
)
    requires
        step_given(st, made, base, orig0, ours0),
        settles_once_at(st, made, x),
        st.knowable,
        orig0.ok,
        x is Putch,
    ensures
        step_given(
            fold_step(st, x),
            made_step(st, made, x),
            base,
            exec_node(x, orig0, inp),
            run(fold_emits(st, x), ours0, inp),
        ),
{
    let a = x->Putch_0;
    let k = off_add(st.off, a);
    let made1 = made_step(st, made, x);
    let orig = exec_node(x, orig0, inp);
    let before = match st.facts.get(k) {
        Some(f) => settle(a, f),
        None => Seq::empty(),
    };
    lemma_run_push(before, x, ours0, inp);
    let ours1 = run(before, ours0, inp);
    let addr = off_add(orig0.ptr, a);
    assert(off_sub(addr, base) == k);
    assert(fact_holds(st.facts.get(k), made[k], orig0.mem[addr], ours0.mem[addr]));
    match st.facts.get(k) {
        Some(f) => {
            lemma_settle_run(a, f, ours0, inp);
        },
        None => {},
    }
    let ours = run(fold_emits(st, x), ours0, inp);
    assert(cell(ours1, a) == cell(orig0, a));
    assert forall|ad: Offset|
        fact_holds(
            st.facts.get(off_sub(ad, base)),
            made1[off_sub(ad, base)],
            #[trigger] orig.mem[ad],
            ours.mem[ad],
        ) by {
        assert(fact_holds(
            st.facts.get(off_sub(ad, base)),
            made[off_sub(ad, base)],
            orig0.mem[ad],
            ours0.mem[ad],
        ));
        if ad != addr {
            assert(off_sub(ad, base) != k);
        }
    }
}

/// One step over a multiply-add whose operands are both known keeps the
/// two runs related.
proof fn lemma_fold_step_mul_known(
    st: Folding,
    made: Made,
    x: Node,
    base: Offset,
    orig0: Machine,
    ours0: Machine,
    inp: Feed,
)
    requires
        step_given(st, made, base, orig0, ours0),
        st.knowable,
        orig0.ok,
        x matches Node::AddMul(a, _) && fact_at(st.facts, off_add(st.off, a)) is Const && fact_at(
            st.facts,
            st.off,
        ) is Const,
    ensures
        step_given(
            fold_step(st, x),
            made_step(st, made, x),
            base,
            exec_node(x, orig0, inp),
            run(fold_emits(st, x), ours0, inp),
        ),
{
    let a = x->AddMul_0;
    let new = fold_step(st, x);
    let dst = off_add(st.off, a);
    let orig = exec_node(x, orig0, inp);
    let src_addr = orig0.ptr;
    let dst_addr = off_add(orig0.ptr, a);
    assert(off_sub(src_addr, base) == st.off);
    assert(off_sub(dst_addr, base) == dst);
    assert(fact_holds(st.facts.get(st.off), made[st.off], orig0.mem[src_addr], ours0.mem[src_addr]));
    assert(fact_holds(st.facts.get(dst), made[dst], orig0.mem[dst_addr], ours0.mem[dst_addr]));
    lemma_node_keeps_whole(x, orig0, inp);
    st.facts.lemma_set_wf(dst, new.facts.map[dst]);
    assert forall|ad: Offset|
        fact_holds(
            new.facts.get(off_sub(ad, base)),
            made[off_sub(ad, base)],
            #[trigger] orig.mem[ad],
            ours0.mem[ad],
        ) by {
        assert(fact_holds(
            st.facts.get(off_sub(ad, base)),
            made[off_sub(ad, base)],
            orig0.mem[ad],
            ours0.mem[ad],
        ));
    }
}

/// After the factor and the target of a multiply-add have been made real,
/// the emitted run holds in both cells what the run of the given program
/// holds, and has changed no other cell.
proof fn lemma_settle_operands(
    st: Folding,
    made: Made,
    a: Offset,
    base: Offset,
    orig0: Machine,
    ours0: Machine,
    inp: Feed,
)
    requires
        step_given(st, made, base, orig0, ours0),
        settles_once_at(st, made, Node::AddMul(a, 0)),
        st.knowable,
        orig0.ok,
        !(fact_at(st.facts, off_add(st.off, a)) is Const && fact_at(st.facts, st.off) is Const),
    ensures
        ({
            let init = fact_at(st.facts, off_add(st.off, a));
            let mult = fact_at(st.facts, st.off);
            let ours2 = run(settle(0, mult) + settle(a, init), ours0, inp);
            &&& ours2 == (Machine { mem: ours2.mem, ..ours0 })
            &&& whole(ours2)
            &&& cell(ours2, 0) == cell(orig0, 0)
            &&& cell(ours2, a) == cell(orig0, a)
            &&& forall|ad: Offset|
                ad != orig0.ptr && ad != off_add(orig0.ptr, a) ==> #[trigger] ours2.mem[ad]
                    == ours0.mem[ad]
        }),
{
    let dst = off_add(st.off, a);
    let init = fact_at(st.facts, dst);
    let mult = fact_at(st.facts, st.off);
    let first = settle(0, mult);
    let second = settle(a, init);
    let src_addr = orig0.ptr;
    let dst_addr = off_add(orig0.ptr, a);
    assert(off_sub(src_addr, base) == st.off);
    assert(off_sub(dst_addr, base) == dst);
    assert(fact_holds(st.facts.get(st.off), made[st.off], orig0.mem[src_addr], ours0.mem[src_addr]));
    assert(fact_holds(st.facts.get(dst), made[dst], orig0.mem[dst_addr], ours0.mem[dst_addr]));
    lemma_run_concat(first, second, ours0, inp);
    lemma_settle_run(0, mult, ours0, inp);
    let ours1 = run(first, ours0, inp);
    assert(off_add(orig0.ptr, 0) == src_addr);
    assert(ours1.mem[src_addr] == orig0.mem[src_addr]);
    lemma_settle_run(a, init, ours1, inp);
}

/// One step over a multiply-add that is kept keeps the two runs related.
proof fn lemma_fold_step_mul_kept(
    st: Folding,
    made: Made,
    x: Node,
    base: Offset,
    orig0: Machine,
    ours0: Machine,
    inp: Feed,
)
    requires
        step_given(st, made, base, orig0, ours0),
        settles_once_at(st, made, x),
        st.knowable,
        orig0.ok,
        x matches Node::AddMul(a, _) && !(fact_at(st.facts, off_add(st.off, a)) is Const && fact_at(
            st.facts,
            st.off,
        ) is Const),
    ensures
        step_given(
            fold_step(st, x),
            made_step(st, made, x),
            base,
            exec_node(x, orig0, inp),
            run(fold_emits(st, x), ours0, inp),
        ),
{
    let a = x->AddMul_0;
    let new = fold_step(st, x);
    let made1 = made_step(st, made, x);
    let dst = off_add(st.off, a);
    let init = fact_at(st.facts, dst);
    let mult = fact_at(st.facts, st.off);
    let orig = exec_node(x, orig0, inp);
    let src_addr = orig0.ptr;
    let dst_addr = off_add(orig0.ptr, a);
    lemma_node_keeps_whole(x, orig0, inp);
    st.facts.lemma_set_wf(dst, Fact::Delta(0));
    lemma_settle_operands(st, made, a, base, orig0, ours0, inp);
    let both = settle(0, mult) + settle(a, init);
    lemma_run_push(both, x, ours0, inp);
    let ours2 = run(both, ours0, inp);
    let ours = exec_node(x, ours2, inp);
    lemma_node_keeps_whole(x, ours2, inp);
    assert(off_sub(dst_addr, base) == dst);
    assert(off_sub(src_addr, base) == st.off);
    assert(off_add(orig0.ptr, 0) == src_addr);
    assert forall|ad: Offset|
        fact_holds(
            new.facts.get(off_sub(ad, base)),
            made1[off_sub(ad, base)],
            #[trigger] orig.mem[ad],
            ours.mem[ad],
        ) by {
        assert(fact_holds(
            st.facts.get(off_sub(ad, base)),
            made[off_sub(ad, base)],
            orig0.mem[ad],
            ours0.mem[ad],
        ));
        if ad == dst_addr {
        } else if ad == src_addr {
        } else {
            assert(ours2.mem[ad] == ours0.mem[ad]);
            assert(off_sub(ad, base) != dst);
            assert(off_sub(ad, base) != st.off);
        }
    }
}

/// The tape on which the first `j` facts, in order of first entry, have
/// been made real: those cells hold what the run of the given program
/// holds.
spec fn caught_up(
    ours: Map<Offset, Value>,
    orig: Map<Offset, Value>,
    facts: Cells<Fact>,
    base: Offset,
    j: int,
) -> Map<Offset, Value> {
    Map::new(
        |a: Offset| true,
        |a: Offset|
            if facts.keys.take(j).contains(off_sub(a, base)) {
                orig[a]
            } else {
                ours[a]
            },
    )
}

/// Running the first `j` instructions of a spill makes the first `j`
/// facts real.
proof fn lemma_spill_some(
    st: Folding,
    made: Made,
    base: Offset,
    orig0: Machine,
    ours0: Machine,
    j: int,
    inp: Feed,
)
    requires
        step_given(st, made, base, orig0, ours0),
        forall|k: Offset| st.facts.get(k) matches Some(Fact::Delta(_)) ==> #[trigger] made[k] == 0,
        st.knowable,
        orig0.ok,
        0 <= j <= st.facts.keys.len(),
    ensures
        run(spill(st.facts, st.off).take(j), ours0, inp) == (Machine {
            mem: caught_up(ours0.mem, orig0.mem, st.facts, base, j),
            ..ours0
        }),
    decreases j,
{
    let all = spill(st.facts, st.off);
    let keys = st.facts.keys;
    if j == 0 {
        assert(keys.take(0) =~= Seq::empty());
        assert(caught_up(ours0.mem, orig0.mem, st.facts, base, 0) =~= ours0.mem);
        assert(all.take(0) =~= Seq::empty());
    } else {
        lemma_spill_some(st, made, base, orig0, ours0, j - 1, inp);
        let k = keys[j - 1];
        let x = all[j - 1];
        assert(all.take(j) =~= all.take(j - 1).push(x));
        lemma_run_push(all.take(j - 1), x, ours0, inp);
        let before = run(all.take(j - 1), ours0, inp);
        let after = exec_node(x, before, inp);
        assert(keys.take(j) =~= keys.take(j - 1).push(k));
        assert(keys.contains(k));
        let addr = off_add(base, k);
        assert(off_sub(addr, base) == k);
        assert(fact_holds(st.facts.get(k), made[k], orig0.mem[addr], ours0.mem[addr]));
        assert(!keys.take(j - 1).contains(k)) by {
            if keys.take(j - 1).contains(k) {
                let i = keys.take(j - 1).index_of(k);
                assert(keys[i] == k);
            }
        }
        assert forall|a: Offset|
            after.mem[a] == #[trigger] caught_up(ours0.mem, orig0.mem, st.facts, base, j)[a] by {
            let ka = off_sub(a, base);
            if ka == k {
                assert(keys.take(j)[j - 1] == k);
            } else if keys.take(j).contains(ka) {
                let i = keys.take(j).index_of(ka);
                assert(keys.take(j - 1)[i] == ka);
            } else if keys.take(j - 1).contains(ka) {
                let i = keys.take(j - 1).index_of(ka);
                assert(keys.take(j)[i] == ka);
            }
        }
        assert(after.mem =~= caught_up(ours0.mem, orig0.mem, st.facts, base, j));
    }
}

/// One step over a loop of either kind keeps the two runs related.
proof fn lemma_fold_step_loop(
    st: Folding,
    made: Made,
    x: Node,
    base: Offset,
    orig0: Machine,
    ours0: Machine,
    inp: Feed,
)
    requires
        step_given(st, made, base, orig0, ours0),
        settles_once_at(st, made, x),
        st.knowable,
        orig0.ok,
        x is Loop || x is SimpleLoop,
    ensures
        step_given(
            fold_step(st, x),
            made_step(st, made, x),
            base,
            exec_node(x, orig0, inp),
            run(fold_emits(st, x), ours0, inp),
        ),
{
    let orig = exec_node(x, orig0, inp);
    let here = orig0.ptr;
    assert(off_sub(here, base) == st.off);
    assert(fact_holds(st.facts.get(st.off), made[st.off], orig0.mem[here], ours0.mem[here]));
    lemma_node_keeps_whole(x, orig0, inp);
    if fact_at(st.facts, st.off) == Fact::Const(0) {
        assert(off_add(orig0.ptr, 0) == here);
        assert(cell(orig0, 0) == 0);
    } else {
        let all = spill(st.facts, st.off);
        lemma_spill_some(st, made, base, orig0, ours0, all.len() as int, inp);
        assert(all.take(all.len() as int) =~= all);
        assert(st.facts.keys.take(all.len() as int) =~= st.facts.keys);
        let mid = run(all, ours0, inp);
        assert forall|a: Offset| mid.mem[a] == #[trigger] orig0.mem[a] by {
            assert(fact_holds(
                st.facts.get(off_sub(a, base)),
                made[off_sub(a, base)],
                orig0.mem[a],
                ours0.mem[a],
            ));
        }
        assert(mid.mem =~= orig0.mem);
        assert(mid == orig0);
        lemma_run_push(all, x, ours0, inp);
    }
}

/// A step keeps the two runs equal when nothing is tracked any more, or
/// when both have run out of fuel.
proof fn lemma_fold_step_idle(
    st: Folding,
    made: Made,
    x: Node,
    base: Offset,
    orig0: Machine,
    ours0: Machine,
    inp: Feed,
)
    requires
        step_given(st, made, base, orig0, ours0),
        !st.knowable || !orig0.ok,
    ensures
        step_given(
            fold_step(st, x),
            made_step(st, made, x),
            base,
            exec_node(x, orig0, inp),
            run(fold_emits(st, x), ours0, inp),
        ),
{
    let emitted = fold_emits(st, x);
    lemma_node_keeps_whole(x, orig0, inp);
    if !st.knowable {
        lemma_run_push(Seq::<Node>::empty(), x, ours0, inp);
        assert(emitted =~= Seq::<Node>::empty().push(x));
    } else {
        lemma_run_stuck(emitted, emitted.len() as int, ours0, inp);
        match x {
            Node::Add(a, v) => {
                let k = off_add(st.off, a);
                st.facts.lemma_set_wf(k, bump(fact_at(st.facts, k), v));
            },
            Node::MovImm(a, v) => {
                st.facts.lemma_set_wf(off_add(st.off, a), Fact::Const(v));
            },
            Node::Getch(a) => {
                st.facts.lemma_set_wf(off_add(st.off, a), Fact::Delta(0));
            },
            Node::AddMul(a, _) => {
                let dst = off_add(st.off, a);
                st.facts.lemma_set_wf(dst, fold_step(st, x).facts.map[dst]);
            },
            _ => {},
        }
    }
}

/// The emitted prefix acts as the given prefix does, but for the facts
/// still tracked.
proof fn lemma_fold_upto_sound(irs: Seq<Node>, n: int, m: Machine, inp: Feed)
    requires
        settles_once(irs),
        blank(m),
        0 <= n <= irs.len(),
    ensures
        step_given(
            fold_upto(irs, n),
            made_upto(irs, n),
            m.ptr,
            run_upto(irs, n, m, inp),
            run(fold_upto(irs, n).out, m, inp),
        ),
    decreases n,
{
    if n > 0 {
        lemma_fold_upto_sound(irs, n - 1, m, inp);
        let base = m.ptr;
        let prev = fold_upto(irs, n - 1);
        let made = made_upto(irs, n - 1);
        let x = irs[n - 1];
        let orig0 = run_upto(irs, n - 1, m, inp);
        let ours0 = run(prev.out, m, inp);
        assert(run_upto(irs, n, m, inp) == exec_node(x, orig0, inp));
        assert(settles_once_at(prev, made, x));
        lemma_fold_step_out(prev, x);
        lemma_run_concat(prev.out, fold_emits(prev, x), m, inp);
        if !prev.knowable || !orig0.ok {
            lemma_fold_step_idle(prev, made, x, base, orig0, ours0, inp);
        } else {
            match x {
                Node::Loop(_) | Node::SimpleLoop(_, _) => {
                    lemma_fold_step_loop(prev, made, x, base, orig0, ours0, inp);
                },
                Node::AddMul(a, _) => {
                    if fact_at(prev.facts, off_add(prev.off, a)) is Const && fact_at(
                        prev.facts,
                        prev.off,
                    ) is Const {
                        lemma_fold_step_mul_known(prev, made, x, base, orig0, ours0, inp);
                    } else {
                        lemma_fold_step_mul_kept(prev, made, x, base, orig0, ours0, inp);
                    }
                },
                Node::Putch(_) => {
                    lemma_fold_step_put(prev, made, x, base, orig0, ours0, inp);
                },
                Node::PtrChange(_) => {
                    lemma_fold_step_move(prev, made, x, base, orig0, ours0, inp);
                },
                Node::Add(_, _) => {
                    lemma_fold_step_add(prev, made, x, base, orig0, ours0, inp);
                },
                Node::Getch(_) | Node::MovImm(_, _) => {
                    lemma_fold_step_set(prev, made, x, base, orig0, ours0, inp);
                },
            }
        }
    }
}

/// Constant propagation keeps the meaning of a program that settles every
/// delta at most once while it is pending: from any blank machine and on any
/// input, the propagated program reads the same bytes, writes the same
/// bytes, spends the same fuel and leaves the pointer in the same place.
/// The tape may differ in the facts that were still tracked at the end.
pub proof fn lemma_collapse_consts_sound(irs: Seq<Node>, m: Machine, inp: Feed)
    requires
        settles_once(irs),
        blank(m),
    ensures
        ({
            let orig = run(irs, m, inp);
            let ours = run(collapse_consts_spec(irs), m, inp);
            &&& ours.output == orig.output
            &&& ours.reads == orig.reads
            &&& ours.fuel == orig.fuel
            &&& ours.ok == orig.ok
            &&& ours.ptr == orig.ptr
        }),
{
    lemma_fold_upto_sound(irs, irs.len() as int, m, inp);
}

} // verus!
