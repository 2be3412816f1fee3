//! Replacing cell-clearing copy loops by multiply-adds keeps the meaning
//! of a program.

use crate::cells::Cells;
use crate::eval::{cell, exec_node, poke, run, run_simple_loop, run_upto, Feed, Machine};
use crate::ir::{off_add, off_sub, val_add, val_mul, Node, Offset, Value};
use crate::optimize::loops::net_shift;
use crate::optimize::muls::{
    changes_of, compress_muls_spec, is_plain, mul_listing, muls_chunk, muls_upto, tally_upto,
};
use crate::preserve::wrap::lemma_one_more_round;
use crate::preserve::{
    ahead, boosted, lemma_loop_back, lemma_loop_refines, lemma_ok_before, lemma_run_concat,
    lemma_run_keeps_whole, lemma_run_more_fuel, lemma_run_push, lemma_run_stuck,
    lemma_simple_loop_back, lemma_simple_loop_refines, refines, refines_back, whole,
};
use vstd::prelude::*;

verus! {

/// Whether every loop that the pass replaces, at any depth at which the
/// pass looks, has a body with net static displacement zero that leaves the
/// loop's own cell alone.
pub open spec fn mul_ready(irs: Seq<Node>) -> bool
    decreases irs,
{
    forall|i: int|
        0 <= i < irs.len() ==> match #[trigger] irs[i] {
            Node::SimpleLoop(delta, body) => if delta == -1 && is_plain(body) {
                net_shift(body) == 0 && changes_of(body).get_or(0, 0) == 0
            } else {
                mul_ready(body)
            },
            Node::Loop(body) => mul_ready(body),
            _ => true,
        }
}

/// The tape after every cell has been changed once as the summed changes
/// say.  Positions are counted from `base`.
spec fn added(mem: Map<Offset, Value>, ch: Cells<Value>, base: Offset) -> Map<Offset, Value> {
    Map::new(|a: Offset| true, |a: Offset| val_add(mem[a], ch.get_or(off_sub(a, base), 0)))
}

/// The tape after every cell has been changed `c` times as the summed
/// changes say, and the cell at `base` has been cleared.
spec fn scaled(mem: Map<Offset, Value>, ch: Cells<Value>, base: Offset, c: Value) -> Map<
    Offset,
    Value,
> {
    Map::new(
        |a: Offset| true,
        |a: Offset|
            if a == base {
                0i8
            } else {
                val_add(mem[a], val_mul(c, ch.get_or(off_sub(a, base), 0)))
            },
    )
}

/// The tape after the first `j` multiply-adds of a listing.
spec fn scaled_first(
    mem: Map<Offset, Value>,
    ch: Cells<Value>,
    base: Offset,
    c: Value,
    j: int,
) -> Map<Offset, Value> {
    Map::new(
        |a: Offset| true,
        |a: Offset|
            if ch.keys.take(j).contains(off_sub(a, base)) {
                val_add(mem[a], val_mul(c, ch.map[off_sub(a, base)]))
            } else {
                mem[a]
            },
    )
}

/// The replay of a plain body tracks its net displacement and keeps the
/// summed changes well formed.
pub proof fn lemma_tally_shift(body: Seq<Node>, n: int)
    requires
        0 <= n <= body.len(),
    ensures
        tally_upto(body, n).off == net_shift(body.take(n)),
        tally_upto(body, n).changes.wf(),
    decreases n,
{
    if n > 0 {
        lemma_tally_shift(body, n - 1);
        assert(body.take(n).drop_last() =~= body.take(n - 1));
        assert(body.take(n).last() == body[n - 1]);
        let t = tally_upto(body, n - 1);
        match body[n - 1] {
            Node::Add(a, v) => {
                let k = off_add(t.off, a);
                t.changes.lemma_set_wf(k, val_add(t.changes.get_or(k, 0), v));
            },
            _ => {},
        }
    } else {
        assert(body.take(0).len() == 0);
    }
}

/// One run of the first `n` instructions of a plain body moves the
/// pointer by their displacement and changes every cell by their summed
/// change.
proof fn lemma_plain_upto(body: Seq<Node>, n: int, x: Machine, inp: Feed)
    requires
        is_plain(body),
        x.ok,
        whole(x),
        0 <= n <= body.len(),
    ensures
        run_upto(body, n, x, inp) == (Machine {
            ptr: off_add(x.ptr, tally_upto(body, n).off),
            mem: added(x.mem, tally_upto(body, n).changes, x.ptr),
            ..x
        }),
    decreases n,
{
    if n == 0 {
        assert(added(x.mem, tally_upto(body, 0).changes, x.ptr) =~= x.mem);
    } else {
        lemma_plain_upto(body, n - 1, x, inp);
        let t = tally_upto(body, n - 1);
        let t2 = tally_upto(body, n);
        let before = run_upto(body, n - 1, x, inp);
        let y = body[n - 1];
        let after = exec_node(y, before, inp);
        assert(run_upto(body, n, x, inp) == after);
        match y {
            Node::PtrChange(d) => {},
            Node::Add(a, v) => {
                let k = off_add(t.off, a);
                let addr = off_add(before.ptr, a);
                assert(off_sub(addr, x.ptr) == k);
                assert forall|ad: Offset|
                    after.mem[ad] == #[trigger] added(x.mem, t2.changes, x.ptr)[ad] by {
                    if ad == addr {
                    } else {
                        assert(off_sub(ad, x.ptr) != k);
                    }
                }
                assert(after.mem =~= added(x.mem, t2.changes, x.ptr));
            },
            _ => {},
        }
    }
}

/// A loop that steps its cell down by one over a plain body that returns
/// the pointer and leaves the loop's cell alone, if it ends with fuel left,
/// leaves every other cell changed as often as the loop's cell said, and the
/// loop's cell cleared.
proof fn lemma_idiom_loop(body: Seq<Node>, m: Machine, inp: Feed)
    requires
        is_plain(body),
        net_shift(body) == 0,
        changes_of(body).get_or(0, 0) == 0,
        m.ok,
        whole(m),
        run_simple_loop((-1int) as i8, body, m, inp).ok,
    ensures
        ({
            let r = run_simple_loop((-1int) as i8, body, m, inp);
            &&& r == (Machine {
                mem: scaled(m.mem, changes_of(body), m.ptr, cell(m, 0)),
                fuel: r.fuel,
                ..m
            })
            &&& r.fuel <= m.fuel
        }),
    decreases m.fuel,
{
    let ch = changes_of(body);
    let c = cell(m, 0);
    let minus = (-1int) as i8;
    let r = run_simple_loop(minus, body, m, inp);
    if c == 0 {
        assert forall|ad: Offset| m.mem[ad] == #[trigger] scaled(m.mem, ch, m.ptr, c)[ad] by {
            let v = ch.get_or(off_sub(ad, m.ptr), 0);
            assert(c * v == 0) by (nonlinear_arith)
                requires
                    c == 0,
            ;
        }
        assert(m.mem =~= scaled(m.mem, ch, m.ptr, c));
    } else {
        let spent = Machine { fuel: (m.fuel - 1) as nat, ..m };
        lemma_plain_upto(body, body.len() as int, spent, inp);
        lemma_tally_shift(body, body.len() as int);
        assert(body.take(body.len() as int) =~= body);
        let ran = run(body, spent, inp);
        assert(ran.ptr == m.ptr);
        assert(cell(ran, 0) == c);
        let after = poke(ran, 0, val_add(c, minus));
        lemma_run_keeps_whole(body, body.len() as int, spent, inp);
        assert(r == run_simple_loop(minus, body, after, inp));
        lemma_idiom_loop(body, after, inp);
        assert forall|ad: Offset| r.mem[ad] == #[trigger] scaled(m.mem, ch, m.ptr, c)[ad] by {
            if ad != m.ptr {
                let v = ch.get_or(off_sub(ad, m.ptr), 0);
                lemma_one_more_round(m.mem[ad], v, c);
                assert(after.mem[ad] == val_add(m.mem[ad], v));
            }
        }
        assert(r.mem =~= scaled(m.mem, ch, m.ptr, c));
    }
}

/// Multiplying by zero gives zero.
proof fn lemma_val_mul_zero(c: Value)
    ensures
        val_mul(c, 0) == 0,
{
    assert(c * 0 == 0) by (nonlinear_arith);
}

/// Running the first `j` multiply-adds of a listing changes the first `j`
/// listed cells.
proof fn lemma_listing_some(ch: Cells<Value>, j: int, m: Machine, inp: Feed)
    requires
        ch.wf(),
        ch.get_or(0, 0) == 0,
        m.ok,
        whole(m),
        0 <= j <= ch.keys.len(),
    ensures
        run(mul_listing(ch).take(j), m, inp) == (Machine {
            mem: scaled_first(m.mem, ch, m.ptr, cell(m, 0), j),
            ..m
        }),
    decreases j,
{
    let all = mul_listing(ch);
    let c = cell(m, 0);
    if j == 0 {
        assert(ch.keys.take(0) =~= Seq::empty());
        assert(scaled_first(m.mem, ch, m.ptr, c, 0) =~= m.mem);
        assert(all.take(0) =~= Seq::empty());
    } else {
        lemma_listing_some(ch, j - 1, m, inp);
        let k = ch.keys[j - 1];
        assert(ch.keys.contains(k));
        assert(ch.map.contains_key(k));
        let v = ch.map[k];
        let x = all[j - 1];
        assert(x == Node::AddMul(k, v));
        assert(all.take(j) =~= all.take(j - 1).push(x));
        lemma_run_push(all.take(j - 1), x, m, inp);
        let before = run(all.take(j - 1), m, inp);
        let after = exec_node(x, before, inp);
        assert(ch.keys.take(j) =~= ch.keys.take(j - 1).push(k));
        assert(ch.keys.contains(k));
        assert(!ch.keys.take(j - 1).contains(k)) by {
            if ch.keys.take(j - 1).contains(k) {
                let i = ch.keys.take(j - 1).index_of(k);
                assert(ch.keys[i] == k);
            }
        }
        lemma_val_mul_zero(c);
        assert(off_sub(m.ptr, m.ptr) == 0);
        assert(off_add(m.ptr, 0) == m.ptr);
        if ch.keys.take(j - 1).contains(0) {
            let i = ch.keys.take(j - 1).index_of(0);
            assert(ch.keys[i] == 0);
            assert(ch.keys.contains(0));
            assert(ch.map.contains_key(0));
        }
        assert(cell(before, 0) == c);
        let addr = off_add(m.ptr, k);
        assert(off_sub(addr, m.ptr) == k);
        assert(cell(before, k) == m.mem[addr]);
        assert forall|a: Offset|
            after.mem[a] == #[trigger] scaled_first(m.mem, ch, m.ptr, c, j)[a] by {
            let ka = off_sub(a, m.ptr);
            if ka == k {
                assert(ch.keys.take(j)[j - 1] == k);
                assert(a == addr);
            } else if ch.keys.take(j).contains(ka) {
                let i = ch.keys.take(j).index_of(ka);
                assert(ch.keys.take(j - 1)[i] == ka);
            } else if ch.keys.take(j - 1).contains(ka) {
                let i = ch.keys.take(j - 1).index_of(ka);
                assert(ch.keys.take(j)[i] == ka);
            }
        }
        assert(after.mem =~= scaled_first(m.mem, ch, m.ptr, c, j));
    }
}

/// Running a whole listing changes every listed cell and clears the
/// current one.
proof fn lemma_listing_run(ch: Cells<Value>, m: Machine, inp: Feed)
    requires
        ch.wf(),
        ch.get_or(0, 0) == 0,
        m.ok,
        whole(m),
    ensures
        run(mul_listing(ch), m, inp) == (Machine {
            mem: scaled(m.mem, ch, m.ptr, cell(m, 0)),
            ..m
        }),
{
    let all = mul_listing(ch);
    let n = ch.keys.len() as int;
    let c = cell(m, 0);
    lemma_listing_some(ch, n, m, inp);
    assert(all =~= all.take(n).push(Node::MovImm(0, 0)));
    lemma_run_push(all.take(n), Node::MovImm(0, 0), m, inp);
    assert(ch.keys.take(n) =~= ch.keys);
    let r = run(all, m, inp);
    lemma_val_mul_zero(c);
    assert forall|a: Offset| r.mem[a] == #[trigger] scaled(m.mem, ch, m.ptr, c)[a] by {
        let ka = off_sub(a, m.ptr);
        if a != m.ptr {
            if !ch.map.contains_key(ka) {
                assert(!ch.keys.contains(ka));
            } else {
                assert(ch.keys.contains(ka));
            }
        }
    }
    assert(r.mem =~= scaled(m.mem, ch, m.ptr, c));
}

/// What the pass makes of a prefix, started with at least as much fuel,
/// ends in the machine in which the prefix ends, with at least as much
/// fuel left.
proof fn lemma_muls_upto_sound(irs: Seq<Node>, n: int, m: Machine, m2: Machine, inp: Feed)
    requires
        mul_ready(irs),
        whole(m),
        ahead(m2, m),
        0 <= n <= irs.len(),
        run_upto(irs, n, m, inp).ok,
    ensures
        ahead(run(muls_upto(irs, n), m2, inp), run_upto(irs, n, m, inp)),
    decreases irs, n,
{
    if n > 0 {
        lemma_ok_before(irs, n - 1, n, m, inp);
        lemma_muls_upto_sound(irs, n - 1, m, m2, inp);
        let x = irs[n - 1];
        let before = muls_upto(irs, n - 1);
        let chunk = muls_chunk(x);
        let orig0 = run_upto(irs, n - 1, m, inp);
        let ours0 = run(before, m2, inp);
        let orig = run_upto(irs, n, m, inp);
        assert(orig == exec_node(x, orig0, inp));
        lemma_run_concat(before, chunk, m2, inp);
        lemma_run_keeps_whole(irs, n - 1, m, inp);
        match x {
            Node::SimpleLoop(delta, body) => {
                if delta == -1 && is_plain(body) {
                    lemma_idiom_loop(body, orig0, inp);
                    lemma_tally_shift(body, body.len() as int);
                    lemma_listing_run(changes_of(body), ours0, inp);
                } else {
                    let inner = muls_upto(body, body.len() as int);
                    assert(chunk =~= Seq::<Node>::empty().push(Node::SimpleLoop(delta, inner)));
                    lemma_run_push(
                        Seq::<Node>::empty(),
                        Node::SimpleLoop(delta, inner),
                        ours0,
                        inp,
                    );
                    lemma_muls_body_refines(body, inp);
                    lemma_simple_loop_refines(delta, body, inner, orig0, ours0, inp);
                }
            },
            Node::Loop(body) => {
                let inner = muls_upto(body, body.len() as int);
                assert(chunk =~= Seq::<Node>::empty().push(Node::Loop(inner)));
                lemma_run_push(Seq::<Node>::empty(), Node::Loop(inner), ours0, inp);
                lemma_muls_body_refines(body, inp);
                lemma_loop_refines(body, inner, orig0, ours0, inp);
            },
            _ => {
                assert(chunk =~= Seq::<Node>::empty().push(x));
                lemma_run_push(Seq::<Node>::empty(), x, ours0, inp);
            },
        }
    }
}

/// What the pass makes of a body refines the body.
proof fn lemma_muls_body_refines(body: Seq<Node>, inp: Feed)
    requires
        mul_ready(body),
    ensures
        refines(muls_upto(body, body.len() as int), body, inp),
    decreases body, body.len() + 1,
{
    let inner = muls_upto(body, body.len() as int);
    assert forall|z: Machine, z2: Machine|
        whole(z) && ahead(z2, z) && (#[trigger] run(body, z, inp)).ok implies ahead(
        #[trigger] run(inner, z2, inp),
        run(body, z, inp),
    ) by {
        lemma_muls_upto_sound(body, body.len() as int, z, z2, inp);
    }
}

/// Multiply-add synthesis keeps the meaning of a program in which every
/// replaced loop has a body that returns the pointer and leaves the loop's
/// cell alone: from any whole machine and on any input, if the program ends
/// with fuel left, the rewritten program ends in the same machine, having
/// spent no more fuel.
pub proof fn lemma_compress_muls_sound(irs: Seq<Node>, m: Machine, inp: Feed)
    requires
        mul_ready(irs),
        whole(m),
        run(irs, m, inp).ok,
    ensures
        ({
            let orig = run(irs, m, inp);
            let ours = run(compress_muls_spec(irs), m, inp);
            &&& ours.ok
            &&& ours.output == orig.output
            &&& ours.reads == orig.reads
            &&& ours.mem == orig.mem
            &&& ours.ptr == orig.ptr
            &&& ours.fuel >= orig.fuel
        }),
{
    lemma_muls_upto_sound(irs, irs.len() as int, m, m, inp);
}

/// How often a loop runs that steps its cell down by one from `c`.
pub open spec fn rounds(c: Value) -> nat {
    if c >= 0 {
        c as nat
    } else {
        (256 + c) as nat
    }
}

/// A loop that steps its cell down by one over a plain body that returns
/// the pointer and leaves the loop's cell alone ends with fuel left when
/// given as much fuel as it has rounds to run, and spends exactly that.
proof fn lemma_idiom_ends(body: Seq<Node>, m: Machine, inp: Feed)
    requires
        is_plain(body),
        net_shift(body) == 0,
        changes_of(body).get_or(0, 0) == 0,
        m.ok,
        whole(m),
        m.fuel >= rounds(cell(m, 0)),
    ensures
        run_simple_loop((-1int) as i8, body, m, inp).ok,
        run_simple_loop((-1int) as i8, body, m, inp).fuel + rounds(cell(m, 0)) == m.fuel,
    decreases rounds(cell(m, 0)),
{
    let c = cell(m, 0);
    let minus = (-1int) as i8;
    if c != 0 {
        let spent = Machine { fuel: (m.fuel - 1) as nat, ..m };
        lemma_plain_upto(body, body.len() as int, spent, inp);
        lemma_tally_shift(body, body.len() as int);
        assert(body.take(body.len() as int) =~= body);
        let ran = run(body, spent, inp);
        assert(ran.ptr == m.ptr);
        assert(cell(ran, 0) == c);
        let after = poke(ran, 0, val_add(c, minus));
        lemma_run_keeps_whole(body, body.len() as int, spent, inp);
        assert(cell(after, 0) == val_add(c, minus));
        assert(rounds(val_add(c, minus)) + 1 == rounds(c));
        lemma_idiom_ends(body, after, inp);
    }
}

/// Where what the pass makes of a prefix ends with fuel left, the prefix,
/// started with at least as much fuel and given enough more, ends in the
/// same machine with at least as much fuel left.  The fuel to add is
/// returned.
proof fn lemma_muls_upto_back(irs: Seq<Node>, n: int, m: Machine, m2: Machine, inp: Feed) -> (e:
    nat)
    requires
        mul_ready(irs),
        whole(m),
        ahead(m, m2),
        0 <= n <= irs.len(),
        run(muls_upto(irs, n), m2, inp).ok,
    ensures
        ahead(run_upto(irs, n, boosted(m, e), inp), run(muls_upto(irs, n), m2, inp)),
    decreases irs, n,
{
    if n > 0 {
        let x = irs[n - 1];
        let before = muls_upto(irs, n - 1);
        let chunk = muls_chunk(x);
        lemma_run_concat(before, chunk, m2, inp);
        let ours0 = run(before, m2, inp);
        if !ours0.ok {
            lemma_run_stuck(chunk, chunk.len() as int, ours0, inp);
        }
        let e0 = lemma_muls_upto_back(irs, n - 1, m, m2, inp);
        let orig0 = run_upto(irs, n - 1, boosted(m, e0), inp);
        lemma_run_keeps_whole(irs, n - 1, boosted(m, e0), inp);
        let e1: nat = match x {
            Node::SimpleLoop(delta, body) => {
                if delta == -1 && is_plain(body) {
                    lemma_tally_shift(body, body.len() as int);
                    lemma_listing_run(changes_of(body), ours0, inp);
                    lemma_idiom_ends(body, boosted(orig0, 256), inp);
                    lemma_idiom_loop(body, boosted(orig0, 256), inp);
                    256
                } else {
                    let inner = muls_upto(body, body.len() as int);
                    assert(chunk =~= Seq::<Node>::empty().push(Node::SimpleLoop(delta, inner)));
                    lemma_run_push(
                        Seq::<Node>::empty(),
                        Node::SimpleLoop(delta, inner),
                        ours0,
                        inp,
                    );
                    lemma_muls_body_back(body, inp);
                    lemma_simple_loop_back(delta, body, inner, orig0, ours0, inp)
                }
            },
            Node::Loop(body) => {
                let inner = muls_upto(body, body.len() as int);
                assert(chunk =~= Seq::<Node>::empty().push(Node::Loop(inner)));
                lemma_run_push(Seq::<Node>::empty(), Node::Loop(inner), ours0, inp);
                lemma_muls_body_back(body, inp);
                lemma_loop_back(body, inner, orig0, ours0, inp)
            },
            _ => {
                assert(chunk =~= Seq::<Node>::empty().push(x));
                lemma_run_push(Seq::<Node>::empty(), x, ours0, inp);
                0
            },
        };
        lemma_run_more_fuel(irs, n - 1, boosted(m, e0), e1, inp);
        assert(boosted(boosted(m, e0), e1) == boosted(m, e0 + e1));
        assert(run_upto(irs, n, boosted(m, e0 + e1), inp) == exec_node(
            x,
            boosted(orig0, e1),
            inp,
        ));
        e0 + e1
    } else {
        0
    }
}

/// The body refines back what the pass makes of it.
proof fn lemma_muls_body_back(body: Seq<Node>, inp: Feed)
    requires
        mul_ready(body),
    ensures
        refines_back(body, muls_upto(body, body.len() as int), inp),
    decreases body, body.len() + 1,
{
    let inner = muls_upto(body, body.len() as int);
    assert forall|z: Machine, z2: Machine|
        #![trigger ahead(z, z2), run(inner, z2, inp)]
        whole(z) && ahead(z, z2) && run(inner, z2, inp).ok implies exists|e: nat|
        ahead(#[trigger] run(body, boosted(z, e), inp), run(inner, z2, inp)) by {
        let e = lemma_muls_upto_back(body, body.len() as int, z, z2, inp);
        assert(ahead(run(body, boosted(z, e), inp), run(inner, z2, inp)));
    }
}

/// Multiply-add synthesis adds no ending: under the conditions of
/// [`lemma_compress_muls_sound`], if the rewritten program ends with fuel
/// left, so does the given program once it has enough fuel, and in the same
/// machine.
pub proof fn lemma_compress_muls_complete(irs: Seq<Node>, m: Machine, inp: Feed)
    requires
        mul_ready(irs),
        whole(m),
        run(compress_muls_spec(irs), m, inp).ok,
    ensures
        exists|e: nat|
            ahead(
                #[trigger] run(irs, boosted(m, e), inp),
                run(compress_muls_spec(irs), m, inp),
            ),
{
    let e = lemma_muls_upto_back(irs, irs.len() as int, m, m, inp);
    assert(ahead(run(irs, boosted(m, e), inp), run(compress_muls_spec(irs), m, inp)));
}

} // verus!
