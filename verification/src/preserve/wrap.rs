//! Cell arithmetic wraps at the ends of the 8-bit range.

use crate::eval::{exec_node, run, Feed, Machine};
use crate::ir::{off_add, val_add, val_mul, Node, Value};
use crate::preserve::{lemma_run_push, lemma_run_stuck, whole};
use vstd::arithmetic::div_mod::{lemma_add_mod_noop, lemma_mul_mod_noop_general};
use vstd::prelude::*;
use vstd::wrapping::i8_specs::signed_crop;

verus! {

/// The 8-bit value congruent to an integer.
pub open spec fn crop(x: int) -> Value {
    signed_crop(x)
}

/// Cropping keeps the residue.
pub proof fn lemma_crop_mod(x: int)
    ensures
        (crop(x) as int) % 256 == x % 256,
{
}

/// Integers with the same residue crop to the same value.
pub proof fn lemma_crop_congruent(x: int, y: int)
    requires
        x % 256 == y % 256,
    ensures
        crop(x) == crop(y),
{
}

/// Wrapping addition is addition followed by cropping.
pub proof fn lemma_val_add_crop(x: Value, y: Value)
    ensures
        val_add(x, y) == crop(x + y),
{
}

/// Adding `ch` once and then `c - 1` times is adding it `c` times.
pub proof fn lemma_one_more_round(a: Value, ch: Value, c: Value)
    ensures
        val_add(val_add(a, ch), val_mul(val_add(c, (-1int) as i8), ch)) == val_add(
            a,
            val_mul(c, ch),
        ),
{
    let down = val_add(c, (-1int) as i8);
    let less = val_mul(down, ch);
    let full = val_mul(c, ch);
    let s = val_add(a, ch);
    lemma_val_add_crop(c, (-1int) as i8);
    lemma_val_add_crop(a, ch);
    lemma_val_add_crop(s, less);
    lemma_val_add_crop(a, full);
    lemma_crop_mod(c - 1);
    lemma_crop_mod(a + ch);
    lemma_crop_mod(down * ch);
    lemma_crop_mod(c * ch);
    lemma_mul_mod_noop_general(down as int, ch as int, 256);
    lemma_mul_mod_noop_general(c - 1, ch as int, 256);
    assert((down * ch) % 256 == ((c - 1) * ch) % 256);
    lemma_add_mod_noop(s as int, less as int, 256);
    lemma_add_mod_noop(a + ch, (c - 1) * ch, 256);
    lemma_add_mod_noop(a as int, full as int, 256);
    lemma_add_mod_noop(a as int, c * ch, 256);
    assert((a + ch) + (c - 1) * ch == a + c * ch) by (nonlinear_arith);
    assert((s + less) % 256 == (a + full) % 256);
    lemma_crop_congruent(s + less, a + full);
}

/// The machine after `n` increments of the current cell.
pub open spec fn incremented(m: Machine, n: nat) -> Machine {
    Machine { mem: m.mem.insert(off_add(m.ptr, 0), crop(m.mem[off_add(m.ptr, 0)] + n)), ..m }
}

/// Running `n` increments of the current cell adds `n` to it, wrapping.
proof fn lemma_increments(n: nat, m: Machine, inp: Feed)
    requires
        m.ok,
        whole(m),
    ensures
        run(Seq::new(n, |i: int| Node::Add(0, 1)), m, inp) == incremented(m, n),
    decreases n,
{
    let all = Seq::new(n, |i: int| Node::Add(0, 1));
    if n == 0 {
        assert(incremented(m, 0).mem =~= m.mem);
    } else {
        let front = Seq::new((n - 1) as nat, |i: int| Node::Add(0, 1));
        lemma_increments((n - 1) as nat, m, inp);
        assert(all =~= front.push(Node::Add(0, 1)));
        lemma_run_push(front, Node::Add(0, 1), m, inp);
        let before = incremented(m, (n - 1) as nat);
        let at = off_add(m.ptr, 0);
        let old = m.mem[at];
        lemma_val_add_crop(crop(old + n - 1), 1);
        lemma_crop_mod(old + n - 1);
        lemma_add_mod_noop(crop(old + n - 1) as int, 1, 256);
        lemma_add_mod_noop(old + n - 1, 1, 256);
        lemma_crop_congruent(crop(old + n - 1) + 1, old + n);
        assert(exec_node(Node::Add(0, 1), before, inp).mem =~= incremented(m, n).mem);
    }
}

/// Two hundred and fifty-six increments of a cell leave the machine as it
/// was: cells wrap.
pub proof fn lemma_full_turn(m: Machine, inp: Feed)
    requires
        whole(m),
    ensures
        run(Seq::new(256, |i: int| Node::Add(0, 1)), m, inp) == m,
{
    if m.ok {
        lemma_increments(256, m, inp);
        assert(incremented(m, 256).mem =~= m.mem);
    } else {
        lemma_run_stuck(Seq::new(256, |i: int| Node::Add(0, 1)), 256, m, inp);
    }
}

} // verus!
