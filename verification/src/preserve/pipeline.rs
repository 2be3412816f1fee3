//! The whole optimizer keeps the meaning of a program, where each of its
//! rewrites does.

use crate::ast::Syntax;
use crate::eval::{run, start, Feed};
use crate::ir::{lower, lower_seq, Node, Value};
use crate::optimize::changes::{compress_changes_spec, squeeze_body, squeeze_upto};
use crate::optimize::consts::collapse_consts_spec;
use crate::optimize::loops::{
    blocked, is_cond_add, net_shift, simplify_all, simplify_node, without_cond_adds,
};
use crate::optimize::muls::{changes_of, compress_muls_spec, is_plain, tally_upto};
use crate::optimize::optimize_spec;
use crate::optimize::stores::remove_unread_stores_spec;
use crate::preserve::changes::lemma_compress_changes_sound;
use crate::preserve::consts::{blank, lemma_collapse_consts_sound, settles_once};
use crate::preserve::loops::{
    basic, classifies_safely, lemma_kept_members, lemma_simplify_sound,
};
use crate::preserve::muls::{lemma_compress_muls_complete, lemma_compress_muls_sound, mul_ready};
use crate::preserve::stores::lemma_remove_unread_stores_sound;
use crate::preserve::{ahead, boosted, whole};
use vstd::prelude::*;

verus! {

/// Pointer-move folding keeps a program in the source vocabulary.
proof fn lemma_squeeze_upto_basic(irs: Seq<Node>, n: int)
    requires
        basic(irs),
        0 <= n <= irs.len(),
    ensures
        basic(squeeze_upto(irs, n).out),
    decreases irs, n,
{
    if n > 0 {
        lemma_squeeze_upto_basic(irs, n - 1);
        let prev = squeeze_upto(irs, n - 1);
        let st = squeeze_upto(irs, n);
        let x = irs[n - 1];
        match x {
            Node::Loop(body) => {
                lemma_squeeze_body_basic(body, true);
            },
            _ => {},
        }
        if !(x is PtrChange) {
            assert forall|i: int| 0 <= i < st.out.len() implies match #[trigger] st.out[i] {
                Node::Loop(body) => basic(body),
                Node::PtrChange(_) | Node::Add(_, _) | Node::Putch(_) | Node::Getch(_) => true,
                _ => false,
            } by {
                if i < prev.out.len() {
                    assert(st.out[i] == prev.out[i]);
                }
            }
        }
    }
}

/// Pointer-move folding keeps a body in the source vocabulary.
pub proof fn lemma_squeeze_body_basic(irs: Seq<Node>, nested: bool)
    requires
        basic(irs),
    ensures
        basic(squeeze_body(irs, nested)),
    decreases irs, irs.len() + 1,
{
    lemma_squeeze_upto_basic(irs, irs.len() as int);
    let st = squeeze_upto(irs, irs.len() as int);
    let out = squeeze_body(irs, nested);
    assert forall|i: int| 0 <= i < out.len() implies match #[trigger] out[i] {
        Node::Loop(body) => basic(body),
        Node::PtrChange(_) | Node::Add(_, _) | Node::Putch(_) | Node::Getch(_) => true,
        _ => false,
    } by {
        if i < st.out.len() {
            assert(out[i] == st.out[i]);
        }
    }
}

/// What lowering makes of a syntax tree is written in the source
/// vocabulary.
pub proof fn lemma_lowered_basic(s: Seq<Syntax>)
    ensures
        basic(lower_seq(s)),
    decreases s,
{
    let irs = lower_seq(s);
    assert forall|i: int| 0 <= i < irs.len() implies match #[trigger] irs[i] {
        Node::Loop(body) => basic(body),
        Node::PtrChange(_) | Node::Add(_, _) | Node::Putch(_) | Node::Getch(_) => true,
        _ => false,
    } by {
        match s[i] {
            Syntax::Loop(inner) => {
                lemma_lowered_basic(inner);
                assert(lower(s[i])->Loop_0 =~= lower_seq(inner));
            },
            _ => {},
        }
    }
}

/// Whether every instruction of a body is an add.
pub open spec fn all_adds(irs: Seq<Node>) -> bool {
    forall|i: int| 0 <= i < irs.len() ==> #[trigger] irs[i] is Add
}

/// Whether every instruction of a body is an add to a cell other than the
/// one on which the body starts.
pub open spec fn adds_elsewhere(irs: Seq<Node>) -> bool {
    forall|i: int| 0 <= i < irs.len() ==> (#[trigger] irs[i] matches Node::Add(off, _) && off != 0)
}

/// Whether every plain loop, at any depth, whose body is plain and has net
/// displacement zero has a body of adds alone.
pub open spec fn tidy_bodies(irs: Seq<Node>) -> bool
    decreases irs,
{
    forall|i: int|
        0 <= i < irs.len() ==> (#[trigger] irs[i] matches Node::Loop(body) ==> (is_plain(body)
            && net_shift(body) == 0 ==> all_adds(body)) && tidy_bodies(body))
}

/// Whether every simple loop, at any depth, whose body is plain has a body
/// of adds elsewhere.
pub open spec fn ready_later(irs: Seq<Node>) -> bool
    decreases irs,
{
    forall|i: int|
        0 <= i < irs.len() ==> match #[trigger] irs[i] {
            Node::Loop(body) => ready_later(body),
            Node::SimpleLoop(_, body) => (is_plain(body) ==> adds_elsewhere(body)) && ready_later(
                body,
            ),
            _ => true,
        }
}

/// A body of adds moves nothing.
proof fn lemma_all_adds_still(irs: Seq<Node>)
    requires
        all_adds(irs),
    ensures
        net_shift(irs) == 0,
    decreases irs.len(),
{
    if irs.len() > 0 {
        assert forall|i: int| 0 <= i < irs.drop_last().len() implies #[trigger] irs.drop_last()[i] is Add by {
            assert(irs.drop_last()[i] == irs[i]);
        }
        lemma_all_adds_still(irs.drop_last());
        assert(irs[irs.len() - 1] is Add);
    }
}

/// What is kept of a body of adds is a body of adds elsewhere.
proof fn lemma_all_adds_kept(irs: Seq<Node>)
    requires
        all_adds(irs),
    ensures
        adds_elsewhere(without_cond_adds(irs)),
    decreases irs.len(),
{
    if irs.len() > 0 {
        let front = irs.drop_last();
        assert forall|i: int| 0 <= i < front.len() implies #[trigger] front[i] is Add by {
            assert(front[i] == irs[i]);
        }
        lemma_all_adds_kept(front);
        lemma_all_adds_still(front);
        assert(irs[irs.len() - 1] is Add);
        let kept = without_cond_adds(irs);
        let before = without_cond_adds(front);
        assert forall|i: int| 0 <= i < kept.len() implies (#[trigger] kept[i] matches Node::Add(
            off,
            _,
        ) && off != 0) by {
            if i < before.len() {
                assert(kept[i] == before[i]);
            }
        }
    }
}

/// A body of which what is kept is plain is plain.
proof fn lemma_kept_plain(irs: Seq<Node>)
    requires
        is_plain(without_cond_adds(irs)),
    ensures
        is_plain(irs),
    decreases irs.len(),
{
    if irs.len() > 0 {
        let front = irs.drop_last();
        let kept = without_cond_adds(irs);
        let before = without_cond_adds(front);
        assert forall|i: int| 0 <= i < before.len() implies (#[trigger] before[i] is PtrChange
            || before[i] is Add) by {
            assert(before[i] == kept[i]);
        }
        lemma_kept_plain(front);
        if !is_cond_add(irs.last(), net_shift(front)) {
            assert(kept[before.len() as int] == irs.last());
        }
        assert forall|i: int| 0 <= i < irs.len() implies (#[trigger] irs[i] is PtrChange
            || irs[i] is Add) by {
            if i < front.len() {
                assert(front[i] == irs[i]);
            }
        }
    }
}

/// What pointer-move folding has emitted holds no pointer move as long as
/// it holds no loop, if it was given the source vocabulary.
proof fn lemma_squeeze_upto_moves(irs: Seq<Node>, n: int)
    requires
        basic(irs),
        0 <= n <= irs.len(),
    ensures
        (forall|i: int|
            0 <= i < squeeze_upto(irs, n).out.len() ==> !(#[trigger] squeeze_upto(irs, n).out[i] is Loop))
            ==> all_but_moves(squeeze_upto(irs, n).out),
    decreases n,
{
    if n > 0 {
        lemma_squeeze_upto_moves(irs, n - 1);
        let prev = squeeze_upto(irs, n - 1);
        let out = squeeze_upto(irs, n).out;
        let x = irs[n - 1];
        if forall|i: int| 0 <= i < out.len() ==> !(#[trigger] out[i] is Loop) {
            match x {
                Node::Loop(_) => {
                    assert(out[out.len() - 1] is Loop);
                },
                Node::PtrChange(_) => {},
                _ => {
                    assert forall|i: int| 0 <= i < prev.out.len() implies !(
                    #[trigger] prev.out[i] is Loop) by {
                        assert(prev.out[i] == out[i]);
                    }
                    assert forall|i: int| 0 <= i < out.len() implies !(#[trigger] out[i] is PtrChange) by {
                        if i < prev.out.len() {
                            assert(prev.out[i] == out[i]);
                        }
                    }
                },
            }
        }
    }
}

/// Whether a body holds no pointer move.
pub open spec fn all_but_moves(irs: Seq<Node>) -> bool {
    forall|i: int| 0 <= i < irs.len() ==> !(#[trigger] irs[i] is PtrChange)
}

/// What pointer-move folding makes of a nested body in the source
/// vocabulary, if it is plain and has net displacement zero, is a body of
/// adds.
proof fn lemma_squeeze_body_adds(irs: Seq<Node>)
    requires
        basic(irs),
        is_plain(squeeze_body(irs, true)),
        net_shift(squeeze_body(irs, true)) == 0,
    ensures
        all_adds(squeeze_body(irs, true)),
{
    let st = squeeze_upto(irs, irs.len() as int);
    let b = squeeze_body(irs, true);
    let o = st.out;
    lemma_squeeze_upto_moves(irs, irs.len() as int);
    assert forall|i: int| 0 <= i < o.len() implies !(#[trigger] o[i] is Loop) by {
        assert(b[i] == o[i]);
        assert(b[i] is PtrChange || b[i] is Add);
    }
    assert forall|i: int| 0 <= i < o.len() implies #[trigger] o[i] is Add by {
        assert(b[i] == o[i]);
        assert(b[i] is PtrChange || b[i] is Add);
    }
    lemma_all_adds_still(o);
    if st.pending != 0 {
        assert(b =~= o.push(Node::PtrChange(st.pending)));
        assert(b.drop_last() =~= o);
    } else {
        assert(b =~= o);
    }
}

/// Pointer-move folding of a program in the source vocabulary gives tidy
/// bodies.
proof fn lemma_squeeze_upto_tidy(irs: Seq<Node>, n: int)
    requires
        basic(irs),
        0 <= n <= irs.len(),
    ensures
        tidy_bodies(squeeze_upto(irs, n).out),
    decreases irs, n,
{
    if n > 0 {
        lemma_squeeze_upto_tidy(irs, n - 1);
        let prev = squeeze_upto(irs, n - 1);
        let out = squeeze_upto(irs, n).out;
        let x = irs[n - 1];
        match x {
            Node::Loop(body) => {
                lemma_squeeze_body_tidy(body, true);
                if is_plain(squeeze_body(body, true)) && net_shift(squeeze_body(body, true)) == 0 {
                    lemma_squeeze_body_adds(body);
                }
            },
            _ => {},
        }
        assert forall|i: int| 0 <= i < out.len() implies (#[trigger] out[i] matches Node::Loop(
            body,
        ) ==> (is_plain(body) && net_shift(body) == 0 ==> all_adds(body)) && tidy_bodies(body)) by {
            if i < prev.out.len() {
                assert(out[i] == prev.out[i]);
            }
        }
    }
}

/// Pointer-move folding of a body in the source vocabulary gives tidy
/// bodies.
proof fn lemma_squeeze_body_tidy(irs: Seq<Node>, nested: bool)
    requires
        basic(irs),
    ensures
        tidy_bodies(squeeze_body(irs, nested)),
    decreases irs, irs.len() + 1,
{
    lemma_squeeze_upto_tidy(irs, irs.len() as int);
    let st = squeeze_upto(irs, irs.len() as int);
    let out = squeeze_body(irs, nested);
    assert forall|i: int| 0 <= i < out.len() implies (#[trigger] out[i] matches Node::Loop(body)
        ==> (is_plain(body) && net_shift(body) == 0 ==> all_adds(body)) && tidy_bodies(body)) by {
        if i < st.out.len() {
            assert(out[i] == st.out[i]);
        }
    }
}

/// Whether an instruction, by itself, is ready for what follows.
spec fn node_ready_later(x: Node) -> bool {
    match x {
        Node::Loop(body) => ready_later(body),
        Node::SimpleLoop(_, body) => (is_plain(body) ==> adds_elsewhere(body)) && ready_later(body),
        _ => true,
    }
}

/// What is kept of a body that is ready for what follows is ready too.
proof fn lemma_kept_ready(irs: Seq<Node>)
    requires
        ready_later(irs),
    ensures
        ready_later(without_cond_adds(irs)),
{
    let kept = without_cond_adds(irs);
    lemma_kept_members(irs);
    assert forall|j: int| 0 <= j < kept.len() implies node_ready_later(#[trigger] kept[j]) by {
        assert(irs.contains(kept[j]));
        let k = irs.index_of(kept[j]);
        assert(node_ready_later(irs[k]));
    }
}

/// Classifying the loops of a program in the source vocabulary with tidy
/// bodies gives a program that is ready for what follows.
proof fn lemma_simplify_ready(irs: Seq<Node>)
    requires
        basic(irs),
        tidy_bodies(irs),
    ensures
        ready_later(simplify_all(irs)),
    decreases irs,
{
    let s = simplify_all(irs);
    assert forall|i: int| 0 <= i < s.len() implies node_ready_later(#[trigger] s[i]) by {
        match irs[i] {
            Node::Loop(body) => {
                lemma_simplify_ready(body);
                let inner = simplify_all(body);
                if !blocked(inner) && net_shift(inner) == 0 {
                    let kept = without_cond_adds(inner);
                    lemma_kept_ready(inner);
                    if is_plain(kept) {
                        lemma_kept_plain(inner);
                        assert forall|j: int| 0 <= j < body.len() implies inner[j] == body[j] by {
                            assert(inner[j] is PtrChange || inner[j] is Add);
                            assert(inner[j] == simplify_node(body[j]));
                        }
                        assert(inner =~= body);
                        lemma_all_adds_kept(inner);
                    }
                }
            },
            _ => {},
        }
    }
}

/// Pointer-move folding leaves a body of adds elsewhere as it is.
proof fn lemma_squeeze_adds(irs: Seq<Node>, n: int)
    requires
        adds_elsewhere(irs),
        0 <= n <= irs.len(),
    ensures
        squeeze_upto(irs, n).pending == 0,
        squeeze_upto(irs, n).out == irs.take(n),
    decreases n,
{
    if n > 0 {
        lemma_squeeze_adds(irs, n - 1);
        assert(irs[n - 1] is Add);
        assert(squeeze_upto(irs, n).out =~= irs.take(n));
    } else {
        assert(squeeze_upto(irs, 0).out =~= irs.take(0));
    }
}

/// The replay of a body of adds elsewhere stays in place and records no
/// change for the cell on which it starts.
proof fn lemma_adds_elsewhere_tally(irs: Seq<Node>, n: int)
    requires
        adds_elsewhere(irs),
        0 <= n <= irs.len(),
    ensures
        tally_upto(irs, n).off == 0,
        !tally_upto(irs, n).changes.map.contains_key(0),
    decreases n,
{
    if n > 0 {
        lemma_adds_elsewhere_tally(irs, n - 1);
        assert(irs[n - 1] matches Node::Add(off, _) && off != 0);
    }
}

/// What pointer-move folding makes of a prefix that is not plain is not
/// plain.
proof fn lemma_squeeze_upto_not_plain(irs: Seq<Node>, n: int)
    requires
        0 <= n <= irs.len(),
        !is_plain(irs.take(n)),
    ensures
        !is_plain(squeeze_upto(irs, n).out),
    decreases n,
{
    if n > 0 {
        let x = irs[n - 1];
        let prev = squeeze_upto(irs, n - 1);
        let out = squeeze_upto(irs, n).out;
        if is_plain(irs.take(n - 1)) {
            if x is PtrChange || x is Add {
                assert forall|i: int| 0 <= i < irs.take(n).len() implies (#[trigger] irs.take(
                    n,
                )[i] is PtrChange || irs.take(n)[i] is Add) by {
                    if i < n - 1 {
                        assert(irs.take(n - 1)[i] == irs.take(n)[i]);
                    }
                }
            }
            let y = out[out.len() - 1];
            assert(!(y is PtrChange || y is Add));
        } else {
            lemma_squeeze_upto_not_plain(irs, n - 1);
            let w = choose|i: int|
                0 <= i < prev.out.len() && !(#[trigger] prev.out[i] is PtrChange
                    || prev.out[i] is Add);
            assert(out[w] == prev.out[w]);
        }
    } else {
        assert(is_plain(irs.take(0)));
    }
}

/// Whether an instruction, by itself, is ready for multiply-add
/// synthesis.
spec fn node_mul_ready(x: Node) -> bool {
    match x {
        Node::SimpleLoop(delta, body) => if delta == -1 && is_plain(body) {
            net_shift(body) == 0 && changes_of(body).get_or(0, 0) == 0
        } else {
            mul_ready(body)
        },
        Node::Loop(body) => mul_ready(body),
        _ => true,
    }
}

/// What pointer-move folding makes of a simple loop's body that is ready
/// for what follows makes the loop ready for multiply-add synthesis.
proof fn lemma_squeeze_loop_ready(delta: Value, body: Seq<Node>)
    requires
        node_ready_later(Node::SimpleLoop(delta, body)),
        mul_ready(squeeze_body(body, true)),
    ensures
        node_mul_ready(Node::SimpleLoop(delta, squeeze_body(body, true))),
{
    let folded = squeeze_body(body, true);
    if delta == -1 && is_plain(folded) {
        let st = squeeze_upto(body, body.len() as int);
        if !is_plain(body) {
            assert(body.take(body.len() as int) =~= body);
            lemma_squeeze_upto_not_plain(body, body.len() as int);
            let w = choose|i: int|
                0 <= i < st.out.len() && !(#[trigger] st.out[i] is PtrChange || st.out[i] is Add);
            assert(folded[w] == st.out[w]);
        }
        lemma_squeeze_adds(body, body.len() as int);
        assert(body.take(body.len() as int) =~= body);
        assert(folded =~= body);
        lemma_adds_elsewhere_tally(body, body.len() as int);
        assert forall|i: int| 0 <= i < body.len() implies #[trigger] body[i] is Add by {
            assert(body[i] matches Node::Add(off, _) && off != 0);
        }
        lemma_all_adds_still(body);
    }
}

/// Pointer-move folding of a program that is ready for what follows gives
/// a program that is ready for multiply-add synthesis.
proof fn lemma_squeeze_upto_mul_ready(irs: Seq<Node>, n: int)
    requires
        ready_later(irs),
        0 <= n <= irs.len(),
    ensures
        mul_ready(squeeze_upto(irs, n).out),
    decreases irs, n,
{
    if n > 0 {
        lemma_squeeze_upto_mul_ready(irs, n - 1);
        let prev = squeeze_upto(irs, n - 1);
        let out = squeeze_upto(irs, n).out;
        let x = irs[n - 1];
        assert(node_ready_later(x));
        match x {
            Node::Loop(body) => {
                lemma_squeeze_body_mul_ready(body, true);
            },
            Node::SimpleLoop(delta, body) => {
                lemma_squeeze_body_mul_ready(body, true);
                lemma_squeeze_loop_ready(delta, body);
            },
            _ => {},
        }
        assert forall|i: int| 0 <= i < out.len() implies node_mul_ready(#[trigger] out[i]) by {
            if i < prev.out.len() {
                assert(out[i] == prev.out[i]);
            }
        }
    }
}

/// Pointer-move folding of a body that is ready for what follows gives a
/// body that is ready for multiply-add synthesis.
proof fn lemma_squeeze_body_mul_ready(irs: Seq<Node>, nested: bool)
    requires
        ready_later(irs),
    ensures
        mul_ready(squeeze_body(irs, nested)),
    decreases irs, irs.len() + 1,
{
    lemma_squeeze_upto_mul_ready(irs, irs.len() as int);
    let st = squeeze_upto(irs, irs.len() as int);
    let out = squeeze_body(irs, nested);
    assert forall|i: int| 0 <= i < out.len() implies node_mul_ready(#[trigger] out[i]) by {
        if i < st.out.len() {
            assert(out[i] == st.out[i]);
        }
    }
}

/// When the optimizer runs on a program in the source vocabulary, every
/// loop that multiply-add synthesis replaces has a body that returns the
/// pointer and leaves the loop's own cell alone.
pub proof fn lemma_pipeline_mul_ready(irs: Seq<Node>)
    requires
        basic(irs),
    ensures
        mul_ready(before_muls(irs)),
{
    lemma_squeeze_body_basic(irs, false);
    lemma_squeeze_body_tidy(irs, false);
    lemma_simplify_ready(before_loops(irs));
    lemma_squeeze_body_mul_ready(simplify_all(before_loops(irs)), false);
}

/// The program that loop classification sees when the optimizer runs.
pub open spec fn before_loops(irs: Seq<Node>) -> Seq<Node> {
    compress_changes_spec(irs)
}

/// The program that multiply-add synthesis sees when the optimizer runs.
pub open spec fn before_muls(irs: Seq<Node>) -> Seq<Node> {
    compress_changes_spec(simplify_all(before_loops(irs)))
}

/// The program that constant propagation sees when the optimizer runs.
pub open spec fn before_consts(irs: Seq<Node>) -> Seq<Node> {
    compress_muls_spec(before_muls(irs))
}

/// Whether the two rewrites that do not keep the meaning of every program
/// keep that of this one: it is written in the source vocabulary, its loops
/// classify safely, and constant propagation settles every delta at most
/// once.
pub open spec fn optimizes_safely(irs: Seq<Node>) -> bool {
    &&& basic(irs)
    &&& classifies_safely(before_loops(irs))
    &&& settles_once(before_consts(irs))
}

/// The optimizer keeps the meaning of a program that optimizes safely:
/// started on a blank tape, on any input, if the program ends with fuel
/// left, the optimized program ends with fuel left, having read the same
/// bytes and written the same bytes.
pub proof fn lemma_optimize_sound(irs: Seq<Node>, fuel: nat, inp: Feed)
    requires
        optimizes_safely(irs),
        run(irs, start(fuel), inp).ok,
    ensures
        run(optimize_spec(irs), start(fuel), inp).ok,
        run(optimize_spec(irs), start(fuel), inp).output == run(irs, start(fuel), inp).output,
        run(optimize_spec(irs), start(fuel), inp).reads == run(irs, start(fuel), inp).reads,
{
    let m = start(fuel);
    let folded = before_loops(irs);
    let classed = simplify_all(folded);
    let refolded = before_muls(irs);
    let multiplied = before_consts(irs);
    let propagated = collapse_consts_spec(multiplied);
    let swept = remove_unread_stores_spec(propagated);
    assert(whole(m));
    assert(blank(m));
    lemma_compress_changes_sound(irs, m, inp);
    lemma_squeeze_body_basic(irs, false);
    lemma_simplify_sound(folded, m, inp);
    lemma_compress_changes_sound(classed, m, inp);
    lemma_pipeline_mul_ready(irs);
    lemma_compress_muls_sound(refolded, m, inp);
    lemma_collapse_consts_sound(multiplied, m, inp);
    lemma_remove_unread_stores_sound(propagated, m, inp);
    lemma_compress_changes_sound(swept, m, inp);
}

/// The optimizer adds no ending: if the optimized form of a program that
/// optimizes safely ends with fuel left, so does the program once it has
/// enough fuel, having read the same bytes and written the same bytes.
pub proof fn lemma_optimize_complete(irs: Seq<Node>, fuel: nat, inp: Feed)
    requires
        optimizes_safely(irs),
        run(optimize_spec(irs), start(fuel), inp).ok,
    ensures
        exists|more: nat|
            {
                let given = #[trigger] run(irs, start(fuel + more), inp);
                &&& given.ok
                &&& given.output == run(optimize_spec(irs), start(fuel), inp).output
                &&& given.reads == run(optimize_spec(irs), start(fuel), inp).reads
            },
{
    let m = start(fuel);
    let folded = before_loops(irs);
    let classed = simplify_all(folded);
    let refolded = before_muls(irs);
    let multiplied = before_consts(irs);
    let propagated = collapse_consts_spec(multiplied);
    let swept = remove_unread_stores_spec(propagated);
    assert(whole(m));
    assert(blank(m));
    lemma_squeeze_body_basic(irs, false);
    lemma_compress_changes_sound(swept, m, inp);
    lemma_remove_unread_stores_sound(propagated, m, inp);
    lemma_collapse_consts_sound(multiplied, m, inp);
    lemma_pipeline_mul_ready(irs);
    lemma_compress_muls_complete(refolded, m, inp);
    let more = choose|e: nat|
        ahead(#[trigger] run(refolded, boosted(m, e), inp), run(multiplied, m, inp));
    let richer = start(fuel + more);
    assert(richer == boosted(m, more));
    assert(whole(richer));
    lemma_compress_changes_sound(classed, richer, inp);
    lemma_simplify_sound(folded, richer, inp);
    lemma_compress_changes_sound(irs, richer, inp);
    let given = run(irs, richer, inp);
    assert(given.ok);
}

} // verus!
