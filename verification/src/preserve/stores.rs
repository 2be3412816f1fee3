//! Holding constant stores back keeps the meaning of a program.

use crate::cells::Cells;
use crate::eval::{cell, exec_node, poke, run, run_upto, Feed, Machine};
use crate::ir::{off_add, off_sub, Node, Offset, Value};
use crate::optimize::stores::{
    release, release_all, remove_unread_stores_spec, sweep_body, sweep_step, sweep_upto, Sweep,
};
use crate::preserve::{
    lemma_node_keeps_whole, lemma_run_concat, lemma_run_keeps_whole, lemma_run_push,
    lemma_run_stuck, lemma_simple_loop_congruent_whole, lemma_simple_loop_exit, whole,
};
use vstd::prelude::*;

verus! {

/// The tape on which every store held back has been made.  Positions are
/// counted from `base`.
pub open spec fn overlay(mem: Map<Offset, Value>, writes: Cells<Value>, base: Offset) -> Map<
    Offset,
    Value,
> {
    Map::new(
        |a: Offset| true,
        |a: Offset|
            if writes.map.contains_key(off_sub(a, base)) {
                writes.map[off_sub(a, base)]
            } else {
                mem[a]
            },
    )
}

/// How the run of the emitted prefix stands to the run of the given
/// prefix.
pub open spec fn sweep_related(st: Sweep, base: Offset, orig: Machine, ours: Machine) -> bool {
    if orig.ok && st.knowable {
        &&& ours == (Machine { mem: ours.mem, ..orig })
        &&& orig.mem == overlay(ours.mem, st.writes, base)
        &&& orig.ptr == off_add(base, st.off)
    } else {
        ours == orig
    }
}

/// The tape on which the first `j` stores held back, in order of first
/// entry, have been made.
spec fn overlay_first(mem: Map<Offset, Value>, writes: Cells<Value>, base: Offset, j: int) -> Map<
    Offset,
    Value,
> {
    Map::new(
        |a: Offset| true,
        |a: Offset|
            if writes.keys.take(j).contains(off_sub(a, base)) {
                writes.map[off_sub(a, base)]
            } else {
                mem[a]
            },
    )
}

/// Running the first `j` stores of a full release makes them.
proof fn lemma_release_some(
    writes: Cells<Value>,
    at: Offset,
    base: Offset,
    j: int,
    m: Machine,
    inp: Feed,
)
    requires
        writes.wf(),
        m.ok,
        whole(m),
        m.ptr == off_add(base, at),
        0 <= j <= writes.keys.len(),
    ensures
        run(release_all(writes, at).take(j), m, inp) == (Machine {
            mem: overlay_first(m.mem, writes, base, j),
            ..m
        }),
    decreases j,
{
    let all = release_all(writes, at);
    if j == 0 {
        assert(writes.keys.take(0) =~= Seq::empty());
        assert(overlay_first(m.mem, writes, base, 0) =~= m.mem);
        assert(all.take(0) =~= Seq::empty());
    } else {
        lemma_release_some(writes, at, base, j - 1, m, inp);
        let k = writes.keys[j - 1];
        let x = all[j - 1];
        assert(all.take(j) =~= all.take(j - 1).push(x));
        lemma_run_push(all.take(j - 1), x, m, inp);
        let before = run(all.take(j - 1), m, inp);
        let after = exec_node(x, before, inp);
        assert(writes.keys.take(j) =~= writes.keys.take(j - 1).push(k));
        assert(writes.keys.contains(k));
        assert forall|a: Offset|
            after.mem[a] == #[trigger] overlay_first(m.mem, writes, base, j)[a] by {
            let ka = off_sub(a, base);
            if ka == k {
                assert(writes.keys.take(j)[j - 1] == k);
            } else if writes.keys.take(j).contains(ka) {
                let i = writes.keys.take(j).index_of(ka);
                assert(writes.keys.take(j - 1)[i] == ka);
            } else if writes.keys.take(j - 1).contains(ka) {
                let i = writes.keys.take(j - 1).index_of(ka);
                assert(writes.keys.take(j)[i] == ka);
            }
        }
        assert(after.mem =~= overlay_first(m.mem, writes, base, j));
    }
}

/// Running a full release makes every store held back.
proof fn lemma_release_all_run(
    writes: Cells<Value>,
    at: Offset,
    base: Offset,
    m: Machine,
    inp: Feed,
)
    requires
        writes.wf(),
        whole(m),
        m.ptr == off_add(base, at),
    ensures
        run(release_all(writes, at), m, inp) == (if m.ok {
            Machine { mem: overlay(m.mem, writes, base), ..m }
        } else {
            m
        }),
{
    let all = release_all(writes, at);
    if m.ok {
        lemma_release_some(writes, at, base, all.len() as int, m, inp);
        assert(all.take(all.len() as int) =~= all);
        assert(writes.keys.take(all.len() as int) =~= writes.keys);
        assert(overlay_first(m.mem, writes, base, all.len() as int) =~= overlay(
            m.mem,
            writes,
            base,
        ));
    } else {
        lemma_run_stuck(all, all.len() as int, m, inp);
    }
}

/// Running the release of one position makes the store held back for it.
proof fn lemma_release_run(
    writes: Cells<Value>,
    k: Offset,
    rel: Offset,
    m: Machine,
    inp: Feed,
)
    ensures
        run(release(writes, k, rel), m, inp) == (if m.ok && writes.map.contains_key(k) {
            poke(m, rel, writes.map[k])
        } else {
            m
        }),
{
    if writes.map.contains_key(k) {
        let x = Node::MovImm(rel, writes.map[k]);
        assert(release(writes, k, rel) =~= Seq::<Node>::empty().push(x));
        lemma_run_push(Seq::<Node>::empty(), x, m, inp);
    }
}

/// What one step of the walk appends to the instructions emitted.
pub open spec fn sweep_emits(st: Sweep, n: Node, inner: Seq<Node>) -> Seq<Node> {
    if !st.knowable {
        seq![n]
    } else {
        match n {
            Node::Loop(_) => release_all(st.writes, st.off).push(n),
            Node::SimpleLoop(delta, _) => release_all(st.writes, st.off).push(
                Node::SimpleLoop(delta, inner),
            ),
            Node::AddMul(a, _) => {
                let dst = off_add(st.off, a);
                (release(st.writes, dst, a) + release(st.writes.unset(dst), st.off, 0)).push(n)
            },
            Node::PtrChange(_) => seq![n],
            Node::Add(a, _) | Node::Putch(a) => release(st.writes, off_add(st.off, a), a).push(n),
            Node::Getch(_) => seq![n],
            Node::MovImm(_, _) => Seq::empty(),
        }
    }
}

/// A step emits what was emitted before, then what the step appends.
proof fn lemma_sweep_step_out(st: Sweep, n: Node, inner: Seq<Node>)
    ensures
        sweep_step(st, n, inner).out == st.out + sweep_emits(st, n, inner),
{
    assert(sweep_step(st, n, inner).out =~= st.out + sweep_emits(st, n, inner));
}

/// What a step must be given, and what it then gives.
spec fn step_given(st: Sweep, base: Offset, orig0: Machine, ours0: Machine) -> bool {
    &&& st.writes.wf()
    &&& whole(ours0)
    &&& sweep_related(st, base, orig0, ours0)
}

/// One step over an instruction that is no loop keeps the two runs
/// related.
proof fn lemma_sweep_step_flat(
    st: Sweep,
    x: Node,
    base: Offset,
    orig0: Machine,
    ours0: Machine,
    inp: Feed,
)
    requires
        step_given(st, base, orig0, ours0),
        st.knowable,
        orig0.ok,
        x is PtrChange || x is Getch || x is MovImm,
    ensures
        step_given(
            sweep_step(st, x, Seq::empty()),
            base,
            exec_node(x, orig0, inp),
            run(sweep_emits(st, x, Seq::empty()), ours0, inp),
        ),
{
    let new = sweep_step(st, x, Seq::empty());
    let orig = exec_node(x, orig0, inp);
    let ours = run(sweep_emits(st, x, Seq::empty()), ours0, inp);
    match x {
        Node::PtrChange(d) => {
            lemma_run_push(Seq::<Node>::empty(), x, ours0, inp);
        },
        Node::Getch(a) => {
            st.writes.lemma_unset_wf(off_add(st.off, a));
            lemma_run_push(Seq::<Node>::empty(), x, ours0, inp);
            assert(orig.mem =~= overlay(ours.mem, new.writes, base));
        },
        Node::MovImm(a, v) => {
            st.writes.lemma_set_wf(off_add(st.off, a), v);
            assert(orig.mem =~= overlay(ours.mem, new.writes, base));
        },
        _ => {},
    }
}

/// One step over an add or a write keeps the two runs related.
proof fn lemma_sweep_step_read(
    st: Sweep,
    x: Node,
    base: Offset,
    orig0: Machine,
    ours0: Machine,
    inp: Feed,
)
    requires
        step_given(st, base, orig0, ours0),
        st.knowable,
        orig0.ok,
        x is Add || x is Putch,
    ensures
        step_given(
            sweep_step(st, x, Seq::empty()),
            base,
            exec_node(x, orig0, inp),
            run(sweep_emits(st, x, Seq::empty()), ours0, inp),
        ),
{
    let new = sweep_step(st, x, Seq::empty());
    let orig = exec_node(x, orig0, inp);
    let a = match x {
        Node::Add(a, _) => a,
        Node::Putch(a) => a,
        _ => 0i32,
    };
    let k = off_add(st.off, a);
    st.writes.lemma_unset_wf(k);
    lemma_run_push(release(st.writes, k, a), x, ours0, inp);
    lemma_release_run(st.writes, k, a, ours0, inp);
    let ours = run(sweep_emits(st, x, Seq::empty()), ours0, inp);
    assert(orig.mem =~= overlay(ours.mem, new.writes, base));
}

/// One step over a multiply-add keeps the two runs related.
proof fn lemma_sweep_step_mul(
    st: Sweep,
    x: Node,
    base: Offset,
    orig0: Machine,
    ours0: Machine,
    inp: Feed,
)
    requires
        step_given(st, base, orig0, ours0),
        st.knowable,
        orig0.ok,
        x is AddMul,
    ensures
        step_given(
            sweep_step(st, x, Seq::empty()),
            base,
            exec_node(x, orig0, inp),
            run(sweep_emits(st, x, Seq::empty()), ours0, inp),
        ),
{
    let new = sweep_step(st, x, Seq::empty());
    let orig = exec_node(x, orig0, inp);
    let a = x->AddMul_0;
    let dst = off_add(st.off, a);
    let first = release(st.writes, dst, a);
    let mid_w = st.writes.unset(dst);
    let second = release(mid_w, st.off, 0);
    st.writes.lemma_unset_wf(dst);
    mid_w.lemma_unset_wf(st.off);
    lemma_run_concat(first, second, ours0, inp);
    lemma_run_push(first + second, x, ours0, inp);
    lemma_release_run(st.writes, dst, a, ours0, inp);
    let ours1 = run(first, ours0, inp);
    lemma_release_run(mid_w, st.off, 0, ours1, inp);
    let ours2 = run(first + second, ours0, inp);
    let ours = run(sweep_emits(st, x, Seq::empty()), ours0, inp);
    assert(ours == exec_node(x, ours2, inp));
    assert(cell(ours2, a) == cell(orig0, a));
    assert(cell(ours2, 0) == cell(orig0, 0));
    assert(orig.mem =~= overlay(ours.mem, new.writes, base));
}

/// After a full release the emitted run has caught up with the given one.
proof fn lemma_sweep_catch_up(st: Sweep, base: Offset, orig0: Machine, ours0: Machine, inp: Feed)
    requires
        step_given(st, base, orig0, ours0),
        st.knowable,
    ensures
        run(release_all(st.writes, st.off), ours0, inp) == orig0,
{
    if orig0.ok {
        lemma_release_all_run(st.writes, st.off, base, ours0, inp);
    } else {
        lemma_run_stuck(
            release_all(st.writes, st.off),
            release_all(st.writes, st.off).len() as int,
            ours0,
            inp,
        );
    }
}

/// One step over a loop of either kind keeps the two runs related.
proof fn lemma_sweep_step_loop(
    st: Sweep,
    x: Node,
    inner: Seq<Node>,
    base: Offset,
    orig0: Machine,
    ours0: Machine,
    inp: Feed,
)
    requires
        step_given(st, base, orig0, ours0),
        st.knowable,
        whole(orig0),
        x is Loop || x is SimpleLoop,
        x matches Node::SimpleLoop(_, body) ==> forall|z: Machine|
            whole(z) ==> #[trigger] run(inner, z, inp) == run(body, z, inp),
    ensures
        step_given(
            sweep_step(st, x, inner),
            off_sub(exec_node(x, orig0, inp).ptr, st.off),
            exec_node(x, orig0, inp),
            run(sweep_emits(st, x, inner), ours0, inp),
        ),
{
    let new = sweep_step(st, x, inner);
    let orig = exec_node(x, orig0, inp);
    let spilled = release_all(st.writes, st.off);
    lemma_sweep_catch_up(st, base, orig0, ours0, inp);
    match x {
        Node::Loop(_) => {
            lemma_run_push(spilled, x, ours0, inp);
            lemma_node_keeps_whole(x, orig0, inp);
        },
        Node::SimpleLoop(delta, body) => {
            let y = Node::SimpleLoop(delta, inner);
            lemma_run_push(spilled, y, ours0, inp);
            lemma_simple_loop_congruent_whole(delta, inner, body, orig0, inp);
            lemma_node_keeps_whole(x, orig0, inp);
            Cells::<Value>::empty().lemma_set_wf(st.off, 0);
            let ours = run(sweep_emits(st, x, inner), ours0, inp);
            assert(ours == orig);
            if orig.ok {
                lemma_simple_loop_exit(delta, body, orig0, inp);
                assert(orig.mem =~= overlay(ours.mem, new.writes, off_sub(orig.ptr, st.off)));
            }
        },
        _ => {},
    }
}

/// The emitted prefix acts as the given prefix does, but for the stores
/// held back.
proof fn lemma_sweep_upto_sound(irs: Seq<Node>, n: int, m: Machine, inp: Feed)
    requires
        whole(m),
        0 <= n <= irs.len(),
    ensures
        step_given(
            sweep_upto(irs, n),
            off_sub(run_upto(irs, n, m, inp).ptr, sweep_upto(irs, n).off),
            run_upto(irs, n, m, inp),
            run(sweep_upto(irs, n).out, m, inp),
        ),
    decreases irs, n,
{
    if n == 0 {
        assert(overlay(m.mem, Cells::<Value>::empty(), off_sub(m.ptr, 0)) =~= m.mem);
    } else {
        lemma_sweep_upto_sound(irs, n - 1, m, inp);
        let prev = sweep_upto(irs, n - 1);
        let base = off_sub(run_upto(irs, n - 1, m, inp).ptr, prev.off);
        let x = irs[n - 1];
        let inner = match x {
            Node::SimpleLoop(_, body) => sweep_body(body, true),
            _ => Seq::empty(),
        };
        let orig0 = run_upto(irs, n - 1, m, inp);
        let ours0 = run(prev.out, m, inp);
        assert(run_upto(irs, n, m, inp) == exec_node(x, orig0, inp));
        lemma_sweep_step_out(prev, x, inner);
        lemma_run_concat(prev.out, sweep_emits(prev, x, inner), m, inp);
        lemma_run_keeps_whole(irs, n - 1, m, inp);
        if !prev.knowable || !orig0.ok && !(x is Loop || x is SimpleLoop) {
            lemma_sweep_step_idle(prev, x, inner, base, orig0, ours0, inp);
        } else {
            match x {
                Node::Loop(_) => {
                    lemma_sweep_step_loop(prev, x, inner, base, orig0, ours0, inp);
                },
                Node::SimpleLoop(_, body) => {
                    assert forall|z: Machine| whole(z) implies #[trigger] run(inner, z, inp)
                        == run(body, z, inp) by {
                        lemma_sweep_body_sound(body, z, inp);
                    }
                    lemma_sweep_step_loop(prev, x, inner, base, orig0, ours0, inp);
                },
                Node::AddMul(_, _) => {
                    lemma_sweep_step_mul(prev, x, base, orig0, ours0, inp);
                },
                Node::Add(_, _) | Node::Putch(_) => {
                    lemma_sweep_step_read(prev, x, base, orig0, ours0, inp);
                },
                Node::PtrChange(_) | Node::Getch(_) | Node::MovImm(_, _) => {
                    lemma_sweep_step_flat(prev, x, base, orig0, ours0, inp);
                },
            }
        }
        if !(x is Loop || x is SimpleLoop) || !prev.knowable {
            lemma_rebase(
                sweep_upto(irs, n),
                base,
                run_upto(irs, n, m, inp),
                run(sweep_upto(irs, n).out, m, inp),
            );
        }
    }
}

/// The position from which the stores held back are counted is where the
/// pointer stands, less the displacement walked.
proof fn lemma_rebase(st: Sweep, base: Offset, orig: Machine, ours: Machine)
    requires
        step_given(st, base, orig, ours),
    ensures
        step_given(st, off_sub(orig.ptr, st.off), orig, ours),
{
    if orig.ok && st.knowable {
        assert(base == off_sub(orig.ptr, st.off));
    }
}

/// A step keeps the two runs equal when nothing is tracked any more, or
/// when both have run out of fuel.
proof fn lemma_sweep_step_idle(
    st: Sweep,
    x: Node,
    inner: Seq<Node>,
    base: Offset,
    orig0: Machine,
    ours0: Machine,
    inp: Feed,
)
    requires
        step_given(st, base, orig0, ours0),
        !st.knowable || !orig0.ok && !(x is Loop || x is SimpleLoop),
    ensures
        step_given(
            sweep_step(st, x, inner),
            base,
            exec_node(x, orig0, inp),
            run(sweep_emits(st, x, inner), ours0, inp),
        ),
{
    let emitted = sweep_emits(st, x, inner);
    if !st.knowable {
        lemma_run_push(Seq::<Node>::empty(), x, ours0, inp);
        assert(emitted =~= Seq::<Node>::empty().push(x));
        lemma_node_keeps_whole(x, ours0, inp);
    } else {
        lemma_run_stuck(emitted, emitted.len() as int, ours0, inp);
        match x {
            Node::AddMul(a, _) => {
                st.writes.lemma_unset_wf(off_add(st.off, a));
                st.writes.unset(off_add(st.off, a)).lemma_unset_wf(st.off);
            },
            Node::Add(a, _) | Node::Putch(a) | Node::Getch(a) => {
                st.writes.lemma_unset_wf(off_add(st.off, a));
            },
            Node::MovImm(a, v) => {
                st.writes.lemma_set_wf(off_add(st.off, a), v);
            },
            _ => {},
        }
    }
}

/// What the sweep makes of a nested body acts on every whole machine as
/// the body does.
pub proof fn lemma_sweep_body_sound(irs: Seq<Node>, m: Machine, inp: Feed)
    requires
        whole(m),
    ensures
        run(sweep_body(irs, true), m, inp) == run(irs, m, inp),
    decreases irs, irs.len() + 1,
{
    lemma_sweep_upto_sound(irs, irs.len() as int, m, inp);
    let st = sweep_upto(irs, irs.len() as int);
    let ours0 = run(st.out, m, inp);
    lemma_run_concat(st.out, release_all(st.writes, st.off), m, inp);
    let orig = run(irs, m, inp);
    if orig.ok && st.knowable {
        lemma_sweep_catch_up(st, off_sub(orig.ptr, st.off), orig, ours0, inp);
    } else {
        lemma_unknowable_holds_nothing(irs, irs.len() as int);
        if orig.ok {
            assert(release_all(st.writes, st.off) =~= Seq::empty());
        } else {
            lemma_run_stuck(
                release_all(st.writes, st.off),
                release_all(st.writes, st.off).len() as int,
                ours0,
                inp,
            );
        }
    }
}

/// Once the walk has crossed a plain loop it holds no store back.
proof fn lemma_unknowable_holds_nothing(irs: Seq<Node>, n: int)
    requires
        0 <= n <= irs.len(),
    ensures
        !sweep_upto(irs, n).knowable ==> sweep_upto(irs, n).writes == Cells::<Value>::empty(),
    decreases n,
{
    if n > 0 {
        lemma_unknowable_holds_nothing(irs, n - 1);
    }
}

/// Holding stores back keeps the meaning of a program: from any whole
/// machine and on any input, the swept program reads the same bytes, writes
/// the same bytes, spends the same fuel and leaves the pointer in the same
/// place.  The tape may differ in the stores that were still held back at
/// the end.
pub proof fn lemma_remove_unread_stores_sound(irs: Seq<Node>, m: Machine, inp: Feed)
    requires
        whole(m),
    ensures
        ({
            let orig = run(irs, m, inp);
            let ours = run(remove_unread_stores_spec(irs), m, inp);
            &&& ours.output == orig.output
            &&& ours.reads == orig.reads
            &&& ours.fuel == orig.fuel
            &&& ours.ok == orig.ok
            &&& ours.ptr == orig.ptr
        }),
{
    lemma_sweep_upto_sound(irs, irs.len() as int, m, inp);
}

} // verus!
