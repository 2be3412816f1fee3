//! Classifying loops keeps the meaning of a program in the source
//! vocabulary, as long as every classified loop has its taken-out adds on
//! its own cell and otherwise does no more to that cell than add to it.

use crate::eval::{cell, exec_node, poke, run, run_loop, run_simple_loop, run_upto, Feed, Machine};
use crate::ir::{off_add, off_sub, val_add, Node, Offset, Value};
use crate::optimize::loops::{
    blocked, blocks, calm, cond_delta, is_cond_add, lemma_kept_shift, net_shift, simplify_all,
    steady, without_cond_adds,
};
use crate::preserve::{
    acts_alike, alike, lemma_alike_trans, lemma_calm_shift, lemma_loop_alike,
    lemma_node_keeps_whole, lemma_run_keeps_whole, lemma_run_push, whole,
};
use vstd::prelude::*;

verus! {

/// Whether an instruction spares the cell at offset `t` from the pointer:
/// it may add to it, but it neither writes it out nor reads into it, and a
/// simple loop neither tests it nor does in its body what an instruction may
/// not.
pub open spec fn node_spares(n: Node, t: Offset) -> bool
    decreases n, 0nat,
{
    match n {
        Node::PtrChange(_) => true,
        Node::Add(_, _) => true,
        Node::Putch(off) => off != t,
        Node::Getch(off) => off != t,
        Node::SimpleLoop(_, body) => t != 0 && steady(body) && spares(body, t),
        _ => false,
    }
}

/// Whether a body spares the cell at offset `t` from the pointer at its
/// start.
pub open spec fn spares(irs: Seq<Node>, t: Offset) -> bool
    decreases irs, 1nat,
{
    forall|i: int|
        0 <= i < irs.len() ==> node_spares(#[trigger] irs[i], off_sub(t, net_shift(irs.take(i))))
}

/// The machine with `d` added to the cell at position `at`.
pub open spec fn bumped(m: Machine, at: Offset, d: Value) -> Machine {
    Machine { mem: m.mem.insert(at, val_add(m.mem[at], d)), ..m }
}

/// An instruction that spares a cell acts the same whatever is added to
/// that cell.
proof fn lemma_frame_node(x: Node, m: Machine, at: Offset, d: Value, inp: Feed)
    requires
        whole(m),
        node_spares(x, off_sub(at, m.ptr)),
    ensures
        exec_node(x, bumped(m, at, d), inp) == bumped(exec_node(x, m, inp), at, d),
    decreases x, 0nat, 0nat,
{
    if m.ok {
        let b = bumped(m, at, d);
        match x {
            Node::PtrChange(_) => {},
            Node::Add(off, v) => {
                assert(exec_node(x, b, inp).mem =~= bumped(exec_node(x, m, inp), at, d).mem);
            },
            Node::Putch(off) => {
                assert(off_add(m.ptr, off) != at);
            },
            Node::Getch(off) => {
                assert(off_add(m.ptr, off) != at);
                assert(exec_node(x, b, inp).mem =~= bumped(exec_node(x, m, inp), at, d).mem);
            },
            Node::SimpleLoop(delta, body) => {
                lemma_frame_simple_loop(delta, body, m, at, d, inp);
            },
            _ => {},
        }
    }
}

/// A simple loop that spares a cell acts the same whatever is added to
/// that cell.
proof fn lemma_frame_simple_loop(
    delta: Value,
    body: Seq<Node>,
    m: Machine,
    at: Offset,
    d: Value,
    inp: Feed,
)
    requires
        whole(m),
        steady(body),
        spares(body, off_sub(at, m.ptr)),
        at != m.ptr,
    ensures
        run_simple_loop(delta, body, bumped(m, at, d), inp) == bumped(
            run_simple_loop(delta, body, m, inp),
            at,
            d,
        ),
    decreases body, m.fuel + 1, 0nat,
{
    let b = bumped(m, at, d);
    assert(off_add(m.ptr, 0) == m.ptr);
    if m.ok && cell(m, 0) != 0 && m.fuel > 0 {
        let spent = Machine { fuel: (m.fuel - 1) as nat, ..m };
        let spent_b = Machine { fuel: (m.fuel - 1) as nat, ..b };
        assert(spent_b == bumped(spent, at, d));
        lemma_frame_upto(body, body.len() as int, spent, at, d, inp);
        let ran = run(body, spent, inp);
        let ran_b = run(body, spent_b, inp);
        assert(ran_b == bumped(ran, at, d));
        lemma_run_keeps_whole(body, body.len() as int, spent, inp);
        if ran.ok {
            assert(body.take(body.len() as int) =~= body);
            lemma_calm_shift(body, body.len() as int, spent, inp);
            assert(ran.ptr == m.ptr);
            let after = poke(ran, 0, val_add(cell(ran, 0), delta));
            let after_b = poke(ran_b, 0, val_add(cell(ran_b, 0), delta));
            assert(after_b.mem =~= bumped(after, at, d).mem);
            assert(after_b == bumped(after, at, d));
            if after.fuel < m.fuel {
                lemma_frame_simple_loop(delta, body, after, at, d, inp);
            }
        } else {
            if ran.fuel < m.fuel {
                assert(run_simple_loop(delta, body, ran, inp) == ran);
                assert(run_simple_loop(delta, body, ran_b, inp) == ran_b);
            }
        }
    }
}

/// A calm body that spares a cell acts the same whatever is added to that
/// cell.
proof fn lemma_frame_upto(irs: Seq<Node>, n: int, m: Machine, at: Offset, d: Value, inp: Feed)
    requires
        whole(m),
        calm(irs),
        spares(irs, off_sub(at, m.ptr)),
        0 <= n <= irs.len(),
    ensures
        run_upto(irs, n, bumped(m, at, d), inp) == bumped(run_upto(irs, n, m, inp), at, d),
    decreases irs, 0nat, n,
{
    if n > 0 {
        lemma_frame_upto(irs, n - 1, m, at, d, inp);
        let before = run_upto(irs, n - 1, m, inp);
        let x = irs[n - 1];
        assert(run_upto(irs, n, m, inp) == exec_node(x, before, inp));
        assert(run_upto(irs, n, bumped(m, at, d), inp) == exec_node(
            x,
            bumped(before, at, d),
            inp,
        ));
        lemma_run_keeps_whole(irs, n - 1, m, inp);
        if before.ok {
            lemma_calm_shift(irs, n - 1, m, inp);
            let q = net_shift(irs.take(n - 1));
            assert(off_sub(off_sub(at, m.ptr), q) == off_sub(at, before.ptr));
            lemma_frame_node(x, before, at, d, inp);
        }
    }
}

/// Whether every add that classification takes out of a body lands on
/// the cell on which the body started, or adds nothing.
pub open spec fn taken_on_cell(irs: Seq<Node>) -> bool {
    forall|i: int|
        0 <= i < irs.len() && is_cond_add(#[trigger] irs[i], net_shift(irs.take(i))) ==> off_add(
            net_shift(irs.take(i)),
            net_shift(irs.take(i)),
        ) == 0 || irs[i]->Add_1 == 0
}

/// Whether every instruction that classification keeps in a body spares
/// the cell on which the body started, unless the adds taken out before it
/// sum to nothing.
pub open spec fn kept_spare_cell(irs: Seq<Node>) -> bool {
    forall|i: int|
        0 <= i < irs.len() && !is_cond_add(#[trigger] irs[i], net_shift(irs.take(i)))
            ==> node_spares(irs[i], off_sub(0, net_shift(irs.take(i)))) || cond_delta(
            irs.take(i),
        ) == 0
}

/// Whether a program is written in the source vocabulary: plain loops,
/// pointer moves, adds, writes and reads.
pub open spec fn basic(irs: Seq<Node>) -> bool
    decreases irs,
{
    forall|i: int|
        0 <= i < irs.len() ==> match #[trigger] irs[i] {
            Node::Loop(body) => basic(body),
            Node::PtrChange(_) | Node::Add(_, _) | Node::Putch(_) | Node::Getch(_) => true,
            _ => false,
        }
}

/// Whether every loop that classification turns into a simple loop, at
/// any depth, has its taken-out adds on its own cell, and keeps no
/// instruction that does more to that cell than add to it after adds that
/// count have been taken out.
pub open spec fn classifies_safely(irs: Seq<Node>) -> bool
    decreases irs,
{
    forall|i: int|
        0 <= i < irs.len() ==> (#[trigger] irs[i] matches Node::Loop(body) ==> classifies_safely(
            body,
        ) && ({
            let inner = simplify_all(body);
            !blocked(inner) && net_shift(inner) == 0 ==> taken_on_cell(inner) && kept_spare_cell(
                inner,
            )
        }))
}

/// Whether a sequence holds only instructions of the source vocabulary and
/// simple loops with steady bodies.
pub open spec fn classified(irs: Seq<Node>) -> bool {
    forall|i: int|
        0 <= i < irs.len() ==> match #[trigger] irs[i] {
            Node::SimpleLoop(_, body) => steady(body),
            Node::Loop(_) | Node::PtrChange(_) | Node::Add(_, _) | Node::Putch(_) | Node::Getch(
                _,
            ) => true,
            _ => false,
        }
}

/// Every instruction of the kept body is an instruction of the body.
pub proof fn lemma_kept_members(irs: Seq<Node>)
    ensures
        forall|j: int|
            0 <= j < without_cond_adds(irs).len() ==> irs.contains(
                #[trigger] without_cond_adds(irs)[j],
            ),
    decreases irs.len(),
{
    if irs.len() > 0 {
        lemma_kept_members(irs.drop_last());
        let before = without_cond_adds(irs.drop_last());
        assert forall|j: int| 0 <= j < without_cond_adds(irs).len() implies irs.contains(
            #[trigger] without_cond_adds(irs)[j],
        ) by {
            let y = without_cond_adds(irs)[j];
            if j < before.len() {
                assert(before[j] == y);
                assert(irs.drop_last().contains(y));
                let i = irs.drop_last().index_of(y);
                assert(irs[i] == y);
            } else {
                assert(irs[irs.len() - 1] == y);
            }
        }
    }
}

/// A classified body in which nothing blocks is calm, and so is the body
/// kept from it.
pub proof fn lemma_unblocked_calm(irs: Seq<Node>)
    requires
        classified(irs),
        !blocked(irs),
    ensures
        calm(irs),
        calm(without_cond_adds(irs)),
{
    assert forall|i: int| 0 <= i < irs.len() implies !(#[trigger] irs[i] is Loop) by {
        assert(!blocks(irs[i], net_shift(irs.take(i))));
    }
    lemma_kept_members(irs);
    let kept = without_cond_adds(irs);
    assert forall|j: int| 0 <= j < kept.len() implies match #[trigger] kept[j] {
        Node::Loop(_) => false,
        Node::SimpleLoop(_, body) => steady(body),
        _ => true,
    } by {
        assert(irs.contains(kept[j]));
        let i = irs.index_of(kept[j]);
        assert(irs[i] == kept[j]);
    }
}

/// Classifying a program in the source vocabulary gives a classified
/// sequence.
pub proof fn lemma_simplify_classified(irs: Seq<Node>)
    requires
        basic(irs),
    ensures
        classified(simplify_all(irs)),
    decreases irs,
{
    let s = simplify_all(irs);
    assert forall|i: int| 0 <= i < s.len() implies match #[trigger] s[i] {
        Node::SimpleLoop(_, body) => steady(body),
        Node::Loop(_) | Node::PtrChange(_) | Node::Add(_, _) | Node::Putch(_) | Node::Getch(_) => true,
        _ => false,
    } by {
        match irs[i] {
            Node::Loop(body) => {
                lemma_simplify_classified(body);
                let inner = simplify_all(body);
                if !blocked(inner) && net_shift(inner) == 0 {
                    lemma_unblocked_calm(inner);
                    lemma_kept_shift(inner);
                }
            },
            _ => {},
        }
    }
}

/// An add that lands on the cell at `at`, or adds nothing, adds to what
/// has been added there.
proof fn lemma_taken_add(k0: Machine, at: Offset, d0: Value, p: Offset, v: Value, inp: Feed)
    requires
        whole(k0),
        k0.ok,
        k0.ptr == off_add(at, p),
        off_add(p, p) == 0 || v == 0,
    ensures
        exec_node(Node::Add(p, v), bumped(k0, at, d0), inp) == bumped(k0, at, val_add(d0, v)),
{
    if off_add(p, p) == 0 {
        assert(off_add(k0.ptr, p) == at);
    }
    assert(exec_node(Node::Add(p, v), bumped(k0, at, d0), inp).mem =~= bumped(
        k0,
        at,
        val_add(d0, v),
    ).mem);
}

/// The first `n` instructions of a body act as the body kept from them
/// does, followed by an add to the cell on which the body started: the sum
/// of the adds taken out, if fuel is left.  The amount added is returned.
proof fn lemma_taken_upto(irs: Seq<Node>, n: int, x: Machine, inp: Feed) -> (d: Value)
    requires
        whole(x),
        calm(irs),
        taken_on_cell(irs),
        kept_spare_cell(irs),
        0 <= n <= irs.len(),
    ensures
        run_upto(irs, n, x, inp) == bumped(
            run(without_cond_adds(irs.take(n)), x, inp),
            x.ptr,
            d,
        ),
        run_upto(irs, n, x, inp).ok ==> d == cond_delta(irs.take(n)),
    decreases n,
{
    if n == 0 {
        assert(irs.take(0) =~= Seq::empty());
        assert(bumped(x, x.ptr, 0).mem =~= x.mem);
        0
    } else {
        let d0 = lemma_taken_upto(irs, n - 1, x, inp);
        let y = irs[n - 1];
        let p = net_shift(irs.take(n - 1));
        let kept0 = without_cond_adds(irs.take(n - 1));
        let k0 = run(kept0, x, inp);
        let orig0 = run_upto(irs, n - 1, x, inp);
        assert(run_upto(irs, n, x, inp) == exec_node(y, orig0, inp));
        assert(irs.take(n).drop_last() =~= irs.take(n - 1));
        assert(irs.take(n).last() == y);
        lemma_run_keeps_whole(kept0, kept0.len() as int, x, inp);
        if !orig0.ok {
            if !is_cond_add(y, p) {
                lemma_run_push(kept0, y, x, inp);
            }
            d0
        } else {
            lemma_calm_shift(irs, n - 1, x, inp);
            if is_cond_add(y, p) {
                lemma_taken_add(k0, x.ptr, d0, p, y->Add_1, inp);
                val_add(d0, y->Add_1)
            } else {
                lemma_run_push(kept0, y, x, inp);
                if d0 == 0 {
                    assert(bumped(k0, x.ptr, d0).mem =~= k0.mem);
                    let k1 = exec_node(y, k0, inp);
                    lemma_node_keeps_whole(y, k0, inp);
                    assert(bumped(k1, x.ptr, d0).mem =~= k1.mem);
                } else {
                    assert(off_sub(x.ptr, k0.ptr) == off_sub(0, p));
                    lemma_frame_node(y, k0, x.ptr, d0, inp);
                }
                d0
            }
        }
    }
}

/// The simple loop made from a plain loop whose body is classified safely
/// ends alike to the plain loop.
proof fn lemma_classified_loop(irs: Seq<Node>, m: Machine, inp: Feed)
    requires
        whole(m),
        calm(irs),
        net_shift(irs) == 0,
        taken_on_cell(irs),
        kept_spare_cell(irs),
    ensures
        alike(
            run_simple_loop(cond_delta(irs), without_cond_adds(irs), m, inp),
            run_loop(irs, m, inp),
        ),
    decreases m.fuel,
{
    if m.ok && cell(m, 0) != 0 && m.fuel > 0 {
        let spent = Machine { fuel: (m.fuel - 1) as nat, ..m };
        let kept = without_cond_adds(irs);
        let after = run(irs, spent, inp);
        assert(irs.take(irs.len() as int) =~= irs);
        let d = lemma_taken_upto(irs, irs.len() as int, spent, inp);
        let ran = run(kept, spent, inp);
        lemma_run_keeps_whole(irs, irs.len() as int, spent, inp);
        if after.ok {
            lemma_calm_shift(irs, irs.len() as int, spent, inp);
            assert(off_add(ran.ptr, 0) == m.ptr);
            assert(after == poke(ran, 0, val_add(cell(ran, 0), cond_delta(irs))));
            if after.fuel < m.fuel {
                lemma_classified_loop(irs, after, inp);
            }
        } else {
            if after.fuel < m.fuel {
                assert(run_loop(irs, after, inp) == after);
                assert(run_simple_loop(cond_delta(irs), kept, ran, inp) == ran);
            }
        }
    }
}

/// What classification makes of a prefix ends alike to the prefix.
proof fn lemma_simplify_upto_sound(irs: Seq<Node>, n: int, m: Machine, inp: Feed)
    requires
        basic(irs),
        classifies_safely(irs),
        whole(m),
        0 <= n <= irs.len(),
    ensures
        alike(run_upto(simplify_all(irs), n, m, inp), run_upto(irs, n, m, inp)),
    decreases irs, n,
{
    if n > 0 {
        lemma_simplify_upto_sound(irs, n - 1, m, inp);
        let s = simplify_all(irs);
        let x = irs[n - 1];
        let orig0 = run_upto(irs, n - 1, m, inp);
        let ours0 = run_upto(s, n - 1, m, inp);
        assert(run_upto(irs, n, m, inp) == exec_node(x, orig0, inp));
        assert(run_upto(s, n, m, inp) == exec_node(s[n - 1], ours0, inp));
        lemma_run_keeps_whole(irs, n - 1, m, inp);
        if orig0.ok {
            match x {
                Node::Loop(body) => {
                    let inner = simplify_all(body);
                    lemma_simplify_body_alike(body, inp);
                    lemma_loop_alike(body, inner, orig0, inp);
                    if !blocked(inner) && net_shift(inner) == 0 {
                        lemma_simplify_classified(body);
                        lemma_unblocked_calm(inner);
                        lemma_classified_loop(inner, orig0, inp);
                        lemma_alike_trans(
                            exec_node(s[n - 1], ours0, inp),
                            run_loop(inner, orig0, inp),
                            run_loop(body, orig0, inp),
                        );
                    }
                },
                _ => {},
            }
        }
    }
}

/// What classification makes of a body acts alike to the body.
proof fn lemma_simplify_body_alike(body: Seq<Node>, inp: Feed)
    requires
        basic(body),
        classifies_safely(body),
    ensures
        acts_alike(simplify_all(body), body, inp),
    decreases body, body.len() + 1,
{
    let inner = simplify_all(body);
    assert forall|z: Machine| whole(z) implies alike(
        #[trigger] run(inner, z, inp),
        run(body, z, inp),
    ) by {
        lemma_simplify_upto_sound(body, body.len() as int, z, inp);
    }
}

/// Classifying loops keeps the meaning of a program in the source
/// vocabulary whose loops are classified safely: from any whole machine and
/// on any input, the classified program spends the same fuel, reads the same
/// bytes and writes the same bytes and, if fuel is left at the end, ends in
/// the same machine.
pub proof fn lemma_simplify_sound(irs: Seq<Node>, m: Machine, inp: Feed)
    requires
        basic(irs),
        classifies_safely(irs),
        whole(m),
    ensures
        alike(run(simplify_all(irs), m, inp), run(irs, m, inp)),
{
    lemma_simplify_upto_sound(irs, irs.len() as int, m, inp);
}

} // verus!
