//! Proofs that the rewrites keep the meaning of a program.

pub mod changes;
pub mod consts;
pub mod loops;
pub mod muls;
pub mod pipeline;
pub mod stores;
pub mod wrap;

use crate::eval::{cell, exec_node, poke, run, run_loop, run_simple_loop, run_upto, Feed, Machine};
use crate::ir::{off_add, val_add, Node, Offset, Value};
use crate::optimize::loops::{calm, net_shift, steady};
use vstd::prelude::*;

verus! {

/// A machine that has run out of fuel is left as it is by any sequence.
pub proof fn lemma_run_stuck(irs: Seq<Node>, n: int, m: Machine, inp: Feed)
    requires
        !m.ok,
    ensures
        run_upto(irs, n, m, inp) == m,
    decreases n,
{
    if 0 < n <= irs.len() {
        lemma_run_stuck(irs, n - 1, m, inp);
        assert(run_upto(irs, n, m, inp) == exec_node(
            irs[n - 1],
            run_upto(irs, n - 1, m, inp),
            inp,
        ));
    }
}

/// Running a prefix depends on that prefix alone.
pub proof fn lemma_run_prefix(a: Seq<Node>, b: Seq<Node>, n: int, m: Machine, inp: Feed)
    requires
        0 <= n <= a.len(),
        n <= b.len(),
        a.take(n) == b.take(n),
    ensures
        run_upto(a, n, m, inp) == run_upto(b, n, m, inp),
    decreases n,
{
    if n > 0 {
        assert(a.take(n - 1) =~= a.take(n).take(n - 1));
        assert(b.take(n - 1) =~= b.take(n).take(n - 1));
        lemma_run_prefix(a, b, n - 1, m, inp);
        assert(a[n - 1] == a.take(n)[n - 1]);
        assert(b[n - 1] == b.take(n)[n - 1]);
        assert(run_upto(a, n, m, inp) == exec_node(
            a[n - 1],
            run_upto(a, n - 1, m, inp),
            inp,
        ));
        assert(run_upto(b, n, m, inp) == exec_node(
            b[n - 1],
            run_upto(b, n - 1, m, inp),
            inp,
        ));
    }
}

/// Running a sequence with one more instruction is running the sequence
/// and then the instruction.
pub proof fn lemma_run_push(a: Seq<Node>, x: Node, m: Machine, inp: Feed)
    ensures
        run(a.push(x), m, inp) == exec_node(x, run(a, m, inp), inp),
{
    let b = a.push(x);
    assert(b.take(a.len() as int) =~= a);
    assert(a.take(a.len() as int) =~= a);
    lemma_run_prefix(b, a, a.len() as int, m, inp);
    assert(run_upto(b, b.len() as int, m, inp) == exec_node(
        b[b.len() - 1],
        run_upto(b, b.len() - 1, m, inp),
        inp,
    ));
}

/// Running two sequences one after the other is running their
/// concatenation.
pub proof fn lemma_run_concat(a: Seq<Node>, b: Seq<Node>, m: Machine, inp: Feed)
    ensures
        run(a + b, m, inp) == run(b, run(a, m, inp), inp),
    decreases b.len(),
{
    if b.len() == 0 {
        assert(a + b =~= a);
    } else {
        let front = b.drop_last();
        lemma_run_concat(a, front, m, inp);
        assert(a + b =~= (a + front).push(b.last()));
        lemma_run_push(a + front, b.last(), m, inp);
        assert(front.push(b.last()) =~= b);
        lemma_run_push(front, b.last(), run(a, m, inp), inp);
    }
}

/// Two bodies that act alike on every machine act alike inside a plain
/// loop.
pub proof fn lemma_loop_congruent(a: Seq<Node>, b: Seq<Node>, m: Machine, inp: Feed)
    requires
        forall|x: Machine| #[trigger] run(a, x, inp) == run(b, x, inp),
    ensures
        run_loop(a, m, inp) == run_loop(b, m, inp),
    decreases m.fuel,
{
    if m.ok && cell(m, 0) != 0 && m.fuel > 0 {
        let spent = Machine { fuel: (m.fuel - 1) as nat, ..m };
        let after = run(a, spent, inp);
        assert(after == run(b, spent, inp));
        if after.fuel < m.fuel {
            lemma_loop_congruent(a, b, after, inp);
        }
    }
}

/// Two bodies that act alike on every machine act alike inside a simple
/// loop.
pub proof fn lemma_simple_loop_congruent(
    delta: Value,
    a: Seq<Node>,
    b: Seq<Node>,
    m: Machine,
    inp: Feed,
)
    requires
        forall|x: Machine| #[trigger] run(a, x, inp) == run(b, x, inp),
    ensures
        run_simple_loop(delta, a, m, inp) == run_simple_loop(delta, b, m, inp),
    decreases m.fuel,
{
    if m.ok && cell(m, 0) != 0 && m.fuel > 0 {
        let spent = Machine { fuel: (m.fuel - 1) as nat, ..m };
        let ran = run(a, spent, inp);
        assert(ran == run(b, spent, inp));
        let after = if ran.ok {
            poke(ran, 0, val_add(cell(ran, 0), delta))
        } else {
            ran
        };
        if after.fuel < m.fuel {
            lemma_simple_loop_congruent(delta, a, b, after, inp);
        }
    }
}

/// If the first `n` instructions leave fuel, so do the first `k <= n`.
pub proof fn lemma_ok_before(irs: Seq<Node>, k: int, n: int, m: Machine, inp: Feed)
    requires
        0 <= k <= n <= irs.len(),
        run_upto(irs, n, m, inp).ok,
    ensures
        run_upto(irs, k, m, inp).ok,
{
    if !run_upto(irs, k, m, inp).ok {
        crate::eval::lemma_stuck(irs, k, n, m, inp);
    }
}

/// In a calm body the pointer moves as the text says.
pub proof fn lemma_calm_shift(irs: Seq<Node>, n: int, m: Machine, inp: Feed)
    requires
        calm(irs),
        0 <= n <= irs.len(),
        run_upto(irs, n, m, inp).ok,
    ensures
        run_upto(irs, n, m, inp).ptr == off_add(m.ptr, net_shift(irs.take(n))),
    decreases irs, 0nat, n,
{
    if n > 0 {
        lemma_ok_before(irs, n - 1, n, m, inp);
        lemma_calm_shift(irs, n - 1, m, inp);
        let before = run_upto(irs, n - 1, m, inp);
        let x = irs[n - 1];
        assert(run_upto(irs, n, m, inp) == exec_node(x, before, inp));
        assert(irs.take(n).drop_last() =~= irs.take(n - 1));
        assert(irs.take(n).last() == x);
        match x {
            Node::SimpleLoop(delta, body) => {
                lemma_steady_loop(delta, body, before, inp);
            },
            _ => {},
        }
    } else {
        assert(irs.take(0).len() == 0);
    }
}

/// A simple loop over a steady body that ends with fuel left ends where it
/// began, on a cell that holds zero.
pub proof fn lemma_steady_loop(delta: Value, body: Seq<Node>, m: Machine, inp: Feed)
    requires
        steady(body),
        m.ok,
        run_simple_loop(delta, body, m, inp).ok,
    ensures
        run_simple_loop(delta, body, m, inp).ptr == m.ptr,
        cell(run_simple_loop(delta, body, m, inp), 0) == 0,
    decreases body, m.fuel + 1, 0nat,
{
    if cell(m, 0) != 0 && m.fuel > 0 {
        let spent = Machine { fuel: (m.fuel - 1) as nat, ..m };
        let ran = run(body, spent, inp);
        let after = if ran.ok {
            poke(ran, 0, val_add(cell(ran, 0), delta))
        } else {
            ran
        };
        if after.fuel < m.fuel {
            if ran.ok {
                assert(body.take(body.len() as int) =~= body);
                lemma_calm_shift(body, body.len() as int, spent, inp);
                lemma_steady_loop(delta, body, after, inp);
            } else {
                assert(run_simple_loop(delta, body, after, inp) == after);
            }
        }
    }
}

/// Whether the tape has every cell.
pub open spec fn whole(m: Machine) -> bool {
    forall|a: Offset| m.mem.contains_key(a)
}

/// A whole tape stays whole under one instruction.
pub proof fn lemma_node_keeps_whole(x: Node, m: Machine, inp: Feed)
    requires
        whole(m),
    ensures
        whole(exec_node(x, m, inp)),
    decreases x, 0nat, 0nat,
{
    if m.ok {
        match x {
            Node::Loop(body) => {
                lemma_loop_keeps_whole(None, body, m, inp);
            },
            Node::SimpleLoop(delta, body) => {
                lemma_loop_keeps_whole(Some(delta), body, m, inp);
            },
            _ => {},
        }
    }
}

/// A whole tape stays whole under a loop of either kind.
pub proof fn lemma_loop_keeps_whole(simple: Option<Value>, body: Seq<Node>, m: Machine, inp: Feed)
    requires
        whole(m),
    ensures
        simple matches Some(delta) ==> whole(run_simple_loop(delta, body, m, inp)),
        simple is None ==> whole(run_loop(body, m, inp)),
    decreases body, m.fuel + 1, 0nat,
{
    if m.ok && cell(m, 0) != 0 && m.fuel > 0 {
        let spent = Machine { fuel: (m.fuel - 1) as nat, ..m };
        lemma_run_keeps_whole(body, body.len() as int, spent, inp);
        let ran = run(body, spent, inp);
        match simple {
            Some(delta) => {
                let after = if ran.ok {
                    poke(ran, 0, val_add(cell(ran, 0), delta))
                } else {
                    ran
                };
                if after.fuel < m.fuel {
                    lemma_loop_keeps_whole(simple, body, after, inp);
                }
            },
            None => {
                if ran.fuel < m.fuel {
                    lemma_loop_keeps_whole(simple, body, ran, inp);
                }
            },
        }
    }
}

/// A whole tape stays whole under a sequence of instructions.
pub proof fn lemma_run_keeps_whole(irs: Seq<Node>, n: int, m: Machine, inp: Feed)
    requires
        whole(m),
    ensures
        whole(run_upto(irs, n, m, inp)),
    decreases irs, 0nat, n,
{
    if 0 < n <= irs.len() {
        lemma_run_keeps_whole(irs, n - 1, m, inp);
        lemma_node_keeps_whole(irs[n - 1], run_upto(irs, n - 1, m, inp), inp);
    }
}

/// Two bodies that act alike on every whole machine act alike inside a
/// simple loop that starts on a whole machine.
pub proof fn lemma_simple_loop_congruent_whole(
    delta: Value,
    a: Seq<Node>,
    b: Seq<Node>,
    m: Machine,
    inp: Feed,
)
    requires
        whole(m),
        forall|x: Machine| whole(x) ==> #[trigger] run(a, x, inp) == run(b, x, inp),
    ensures
        run_simple_loop(delta, a, m, inp) == run_simple_loop(delta, b, m, inp),
    decreases m.fuel,
{
    if m.ok && cell(m, 0) != 0 && m.fuel > 0 {
        let spent = Machine { fuel: (m.fuel - 1) as nat, ..m };
        let ran = run(a, spent, inp);
        assert(ran == run(b, spent, inp));
        lemma_run_keeps_whole(a, a.len() as int, spent, inp);
        let after = if ran.ok {
            poke(ran, 0, val_add(cell(ran, 0), delta))
        } else {
            ran
        };
        if after.fuel < m.fuel {
            lemma_simple_loop_congruent_whole(delta, a, b, after, inp);
        }
    }
}

/// One instruction never adds fuel.
pub proof fn lemma_node_fuel(x: Node, m: Machine, inp: Feed)
    ensures
        exec_node(x, m, inp).fuel <= m.fuel,
    decreases x, 0nat, 0nat,
{
    if m.ok {
        match x {
            Node::Loop(body) => {
                lemma_loop_fuel(None, body, m, inp);
            },
            Node::SimpleLoop(delta, body) => {
                lemma_loop_fuel(Some(delta), body, m, inp);
            },
            _ => {},
        }
    }
}

/// A loop of either kind never adds fuel.
pub proof fn lemma_loop_fuel(simple: Option<Value>, body: Seq<Node>, m: Machine, inp: Feed)
    ensures
        simple matches Some(delta) ==> run_simple_loop(delta, body, m, inp).fuel <= m.fuel,
        simple is None ==> run_loop(body, m, inp).fuel <= m.fuel,
    decreases body, m.fuel + 1, 0nat,
{
    if m.ok && cell(m, 0) != 0 && m.fuel > 0 {
        let spent = Machine { fuel: (m.fuel - 1) as nat, ..m };
        lemma_run_fuel(body, body.len() as int, spent, inp);
        let ran = run(body, spent, inp);
        match simple {
            Some(delta) => {
                let after = if ran.ok {
                    poke(ran, 0, val_add(cell(ran, 0), delta))
                } else {
                    ran
                };
                if after.fuel < m.fuel {
                    lemma_loop_fuel(simple, body, after, inp);
                }
            },
            None => {
                if ran.fuel < m.fuel {
                    lemma_loop_fuel(simple, body, ran, inp);
                }
            },
        }
    }
}

/// A sequence of instructions never adds fuel.
pub proof fn lemma_run_fuel(irs: Seq<Node>, n: int, m: Machine, inp: Feed)
    ensures
        run_upto(irs, n, m, inp).fuel <= m.fuel,
    decreases irs, 0nat, n,
{
    if 0 < n <= irs.len() {
        lemma_run_fuel(irs, n - 1, m, inp);
        lemma_node_fuel(irs[n - 1], run_upto(irs, n - 1, m, inp), inp);
    }
}

/// Whether `ours` is `orig` with at least as much fuel.
pub open spec fn ahead(ours: Machine, orig: Machine) -> bool {
    ours == (Machine { fuel: ours.fuel, ..orig }) && ours.fuel >= orig.fuel
}

/// Whether, wherever body `a` ends with fuel left, body `b` started with
/// at least as much fuel ends in the same machine with at least as much
/// fuel left.
pub open spec fn refines(b: Seq<Node>, a: Seq<Node>, inp: Feed) -> bool {
    forall|z: Machine, z2: Machine|
        whole(z) && ahead(z2, z) && (#[trigger] run(a, z, inp)).ok ==> ahead(
            #[trigger] run(b, z2, inp),
            run(a, z, inp),
        )
}

/// A plain loop over a body that refines another refines the plain loop
/// over the other.
pub proof fn lemma_loop_refines(a: Seq<Node>, b: Seq<Node>, m: Machine, m2: Machine, inp: Feed)
    requires
        whole(m),
        ahead(m2, m),
        run_loop(a, m, inp).ok,
        refines(b, a, inp),
    ensures
        ahead(run_loop(b, m2, inp), run_loop(a, m, inp)),
    decreases m.fuel,
{
    if cell(m, 0) != 0 {
        let spent = Machine { fuel: (m.fuel - 1) as nat, ..m };
        let spent2 = Machine { fuel: (m2.fuel - 1) as nat, ..m2 };
        let after = run(a, spent, inp);
        let after2 = run(b, spent2, inp);
        if !after.ok {
            assert(run_loop(a, after, inp) == after);
        }
        assert(ahead(after2, after));
        lemma_run_fuel(b, b.len() as int, spent2, inp);
        lemma_run_keeps_whole(a, a.len() as int, spent, inp);
        lemma_loop_refines(a, b, after, after2, inp);
    }
}

/// A simple loop over a body that refines another refines the simple
/// loop over the other.
pub proof fn lemma_simple_loop_refines(
    delta: Value,
    a: Seq<Node>,
    b: Seq<Node>,
    m: Machine,
    m2: Machine,
    inp: Feed,
)
    requires
        whole(m),
        ahead(m2, m),
        run_simple_loop(delta, a, m, inp).ok,
        refines(b, a, inp),
    ensures
        ahead(run_simple_loop(delta, b, m2, inp), run_simple_loop(delta, a, m, inp)),
    decreases m.fuel,
{
    if cell(m, 0) != 0 {
        let spent = Machine { fuel: (m.fuel - 1) as nat, ..m };
        let spent2 = Machine { fuel: (m2.fuel - 1) as nat, ..m2 };
        let ran = run(a, spent, inp);
        let ran2 = run(b, spent2, inp);
        if !ran.ok {
            assert(run_simple_loop(delta, a, ran, inp) == ran);
        }
        assert(ahead(ran2, ran));
        let after = poke(ran, 0, val_add(cell(ran, 0), delta));
        let after2 = poke(ran2, 0, val_add(cell(ran2, 0), delta));
        lemma_run_fuel(b, b.len() as int, spent2, inp);
        lemma_run_keeps_whole(a, a.len() as int, spent, inp);
        lemma_simple_loop_refines(delta, a, b, after, after2, inp);
    }
}

/// Whether `ours` is `orig` if `orig` has fuel left and, if it has not,
/// has none left either, with the same bytes read and written.
pub open spec fn alike(ours: Machine, orig: Machine) -> bool {
    if orig.ok {
        ours == orig
    } else {
        !ours.ok && ours.output == orig.output && ours.reads == orig.reads && ours.fuel
            == orig.fuel
    }
}

/// Whether body `b` ends alike to body `a` from every whole machine.
pub open spec fn acts_alike(b: Seq<Node>, a: Seq<Node>, inp: Feed) -> bool {
    forall|z: Machine| whole(z) ==> alike(#[trigger] run(b, z, inp), run(a, z, inp))
}

/// Being alike carries over.
pub proof fn lemma_alike_trans(c: Machine, b: Machine, a: Machine)
    requires
        alike(c, b),
        alike(b, a),
    ensures
        alike(c, a),
{
}

/// A plain loop over a body that acts alike to another ends alike to the
/// plain loop over the other.
pub proof fn lemma_loop_alike(a: Seq<Node>, b: Seq<Node>, m: Machine, inp: Feed)
    requires
        whole(m),
        acts_alike(b, a, inp),
    ensures
        alike(run_loop(b, m, inp), run_loop(a, m, inp)),
    decreases m.fuel,
{
    if m.ok && cell(m, 0) != 0 && m.fuel > 0 {
        let spent = Machine { fuel: (m.fuel - 1) as nat, ..m };
        let after_a = run(a, spent, inp);
        let after_b = run(b, spent, inp);
        assert(alike(after_b, after_a));
        lemma_run_keeps_whole(a, a.len() as int, spent, inp);
        if after_a.fuel < m.fuel {
            if after_a.ok {
                lemma_loop_alike(a, b, after_a, inp);
            } else {
                assert(run_loop(a, after_a, inp) == after_a);
                assert(run_loop(b, after_b, inp) == after_b);
            }
        }
    }
}

/// The machine with `e` more units of fuel.
pub open spec fn boosted(m: Machine, e: nat) -> Machine {
    Machine { fuel: m.fuel + e, ..m }
}

/// An instruction that ends with fuel left ends the same with more fuel,
/// and leaves that much more.
pub proof fn lemma_node_more_fuel(x: Node, m: Machine, e: nat, inp: Feed)
    requires
        exec_node(x, m, inp).ok,
    ensures
        exec_node(x, boosted(m, e), inp) == boosted(exec_node(x, m, inp), e),
    decreases x, 0nat, 0nat,
{
    match x {
        Node::Loop(body) => {
            lemma_loop_more_fuel(None, body, m, e, inp);
        },
        Node::SimpleLoop(delta, body) => {
            lemma_loop_more_fuel(Some(delta), body, m, e, inp);
        },
        _ => {},
    }
}

/// A loop of either kind that ends with fuel left ends the same with more
/// fuel, and leaves that much more.
pub proof fn lemma_loop_more_fuel(
    simple: Option<Value>,
    body: Seq<Node>,
    m: Machine,
    e: nat,
    inp: Feed,
)
    requires
        simple matches Some(delta) ==> run_simple_loop(delta, body, m, inp).ok,
        simple is None ==> run_loop(body, m, inp).ok,
    ensures
        simple matches Some(delta) ==> run_simple_loop(delta, body, boosted(m, e), inp)
            == boosted(run_simple_loop(delta, body, m, inp), e),
        simple is None ==> run_loop(body, boosted(m, e), inp) == boosted(
            run_loop(body, m, inp),
            e,
        ),
    decreases body, m.fuel + 1, 0nat,
{
    if m.ok && cell(m, 0) != 0 {
        let spent = Machine { fuel: (m.fuel - 1) as nat, ..m };
        let spent_more = Machine { fuel: (m.fuel + e - 1) as nat, ..boosted(m, e) };
        assert(spent_more == boosted(spent, e));
        let ran = run(body, spent, inp);
        lemma_run_fuel(body, body.len() as int, spent, inp);
        match simple {
            Some(delta) => {
                if !ran.ok {
                    assert(run_simple_loop(delta, body, ran, inp) == ran);
                }
                lemma_run_more_fuel(body, body.len() as int, spent, e, inp);
                let after = poke(ran, 0, val_add(cell(ran, 0), delta));
                lemma_loop_more_fuel(simple, body, after, e, inp);
            },
            None => {
                if !ran.ok {
                    assert(run_loop(body, ran, inp) == ran);
                }
                lemma_run_more_fuel(body, body.len() as int, spent, e, inp);
                lemma_loop_more_fuel(simple, body, ran, e, inp);
            },
        }
    }
}

/// A sequence that ends with fuel left ends the same with more fuel, and
/// leaves that much more.
pub proof fn lemma_run_more_fuel(irs: Seq<Node>, n: int, m: Machine, e: nat, inp: Feed)
    requires
        run_upto(irs, n, m, inp).ok,
    ensures
        run_upto(irs, n, boosted(m, e), inp) == boosted(run_upto(irs, n, m, inp), e),
    decreases irs, 0nat, n,
{
    if 0 < n <= irs.len() {
        lemma_ok_before(irs, n - 1, n, m, inp);
        lemma_run_more_fuel(irs, n - 1, m, e, inp);
        let before = run_upto(irs, n - 1, m, inp);
        assert(run_upto(irs, n, m, inp) == exec_node(irs[n - 1], before, inp));
        lemma_node_more_fuel(irs[n - 1], before, e, inp);
    }
}

/// Whether, wherever body `b` ends with fuel left, body `a` started with
/// at least as much fuel and given enough more ends in the same machine
/// with at least as much fuel left.
pub open spec fn refines_back(a: Seq<Node>, b: Seq<Node>, inp: Feed) -> bool {
    forall|z: Machine, z2: Machine|
        #![trigger ahead(z, z2), run(b, z2, inp)]
        whole(z) && ahead(z, z2) && run(b, z2, inp).ok ==> exists|e: nat|
            ahead(#[trigger] run(a, boosted(z, e), inp), run(b, z2, inp))
}

/// Where a plain loop over `b` ends with fuel left, the plain loop over a
/// body `a` that `b` refines back ends the same, given enough more fuel.
/// The fuel to add is returned.
pub proof fn lemma_loop_back(a: Seq<Node>, b: Seq<Node>, m: Machine, m2: Machine, inp: Feed) -> (e:
    nat)
    requires
        whole(m),
        ahead(m, m2),
        run_loop(b, m2, inp).ok,
        refines_back(a, b, inp),
    ensures
        ahead(run_loop(a, boosted(m, e), inp), run_loop(b, m2, inp)),
    decreases m2.fuel,
{
    if cell(m2, 0) != 0 {
        let spent = Machine { fuel: (m.fuel - 1) as nat, ..m };
        let spent2 = Machine { fuel: (m2.fuel - 1) as nat, ..m2 };
        let after2 = run(b, spent2, inp);
        if !after2.ok {
            assert(run_loop(b, after2, inp) == after2);
        }
        assert(ahead(spent, spent2));
        let e1 = choose|e: nat| ahead(#[trigger] run(a, boosted(spent, e), inp), after2);
        let after = run(a, boosted(spent, e1), inp);
        lemma_run_keeps_whole(a, a.len() as int, boosted(spent, e1), inp);
        lemma_run_fuel(b, b.len() as int, spent2, inp);
        let e2 = lemma_loop_back(a, b, after, after2, inp);
        lemma_run_more_fuel(a, a.len() as int, boosted(spent, e1), e2, inp);
        lemma_run_fuel(a, a.len() as int, boosted(spent, e1), inp);
        let total = e1 + e2;
        let first = Machine { fuel: (m.fuel + total - 1) as nat, ..boosted(m, total) };
        assert(first == boosted(boosted(spent, e1), e2));
        total
    } else {
        0
    }
}

/// Where a simple loop over `b` ends with fuel left, the simple loop over
/// a body `a` that `b` refines back ends the same, given enough more fuel.
/// The fuel to add is returned.
pub proof fn lemma_simple_loop_back(
    delta: Value,
    a: Seq<Node>,
    b: Seq<Node>,
    m: Machine,
    m2: Machine,
    inp: Feed,
) -> (e: nat)
    requires
        whole(m),
        ahead(m, m2),
        run_simple_loop(delta, b, m2, inp).ok,
        refines_back(a, b, inp),
    ensures
        ahead(run_simple_loop(delta, a, boosted(m, e), inp), run_simple_loop(delta, b, m2, inp)),
    decreases m2.fuel,
{
    if cell(m2, 0) != 0 {
        let spent = Machine { fuel: (m.fuel - 1) as nat, ..m };
        let spent2 = Machine { fuel: (m2.fuel - 1) as nat, ..m2 };
        let ran2 = run(b, spent2, inp);
        if !ran2.ok {
            assert(run_simple_loop(delta, b, ran2, inp) == ran2);
        }
        assert(ahead(spent, spent2));
        let e1 = choose|e: nat| ahead(#[trigger] run(a, boosted(spent, e), inp), ran2);
        let ran = run(a, boosted(spent, e1), inp);
        let after = poke(ran, 0, val_add(cell(ran, 0), delta));
        let after2 = poke(ran2, 0, val_add(cell(ran2, 0), delta));
        lemma_run_keeps_whole(a, a.len() as int, boosted(spent, e1), inp);
        lemma_run_fuel(b, b.len() as int, spent2, inp);
        let e2 = lemma_simple_loop_back(delta, a, b, after, after2, inp);
        lemma_run_more_fuel(a, a.len() as int, boosted(spent, e1), e2, inp);
        lemma_run_fuel(a, a.len() as int, boosted(spent, e1), inp);
        let total = e1 + e2;
        let first = Machine { fuel: (m.fuel + total - 1) as nat, ..boosted(m, total) };
        assert(first == boosted(boosted(spent, e1), e2));
        assert(boosted(after, e2) == poke(
            boosted(ran, e2),
            0,
            val_add(cell(boosted(ran, e2), 0), delta),
        ));
        total
    } else {
        0
    }
}

/// A simple loop that ends with fuel left ends on a cell that holds
/// zero.
pub proof fn lemma_simple_loop_exit(delta: Value, body: Seq<Node>, m: Machine, inp: Feed)
    requires
        m.ok,
        run_simple_loop(delta, body, m, inp).ok,
    ensures
        cell(run_simple_loop(delta, body, m, inp), 0) == 0,
    decreases m.fuel,
{
    if cell(m, 0) != 0 && m.fuel > 0 {
        let spent = Machine { fuel: (m.fuel - 1) as nat, ..m };
        let ran = run(body, spent, inp);
        let after = if ran.ok {
            poke(ran, 0, val_add(cell(ran, 0), delta))
        } else {
            ran
        };
        if after.fuel < m.fuel {
            if ran.ok {
                lemma_simple_loop_exit(delta, body, after, inp);
            } else {
                assert(run_simple_loop(delta, body, after, inp) == after);
            }
        }
    }
}

} // verus!
