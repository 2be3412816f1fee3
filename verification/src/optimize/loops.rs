//! Classification of loops whose body returns the pointer to where it
//! started.

use crate::ir::{
    lemma_node_of_loop, lemma_node_of_simple_loop, nodes_of, off_add, push_ir, val_add, Node,
    Offset, Value, IR,
};
use vstd::prelude::*;

verus! {

/// How far one instruction moves the pointer, as far as its own text says.
pub open spec fn shift_of(n: Node) -> Offset {
    match n {
        Node::PtrChange(d) => d,
        _ => 0,
    }
}

/// Net static pointer displacement of a body: the sum of its pointer moves.
pub open spec fn net_shift(irs: Seq<Node>) -> Offset
    decreases irs.len(),
{
    if irs.len() == 0 {
        0
    } else {
        off_add(net_shift(irs.drop_last()), shift_of(irs.last()))
    }
}

/// Whether a body holds no plain loop and every simple loop in it is
/// [`steady`]: the pointer then moves as the body's text says.
pub open spec fn calm(irs: Seq<Node>) -> bool
    decreases irs, 0nat,
{
    forall|i: int|
        0 <= i < irs.len() ==> match #[trigger] irs[i] {
            Node::Loop(_) => false,
            Node::SimpleLoop(_, body) => steady(body),
            _ => true,
        }
}

/// Whether a body is [`calm`] and has net static displacement zero: every
/// run of it returns the pointer to where it started.
pub open spec fn steady(irs: Seq<Node>) -> bool
    decreases irs, 1nat,
{
    calm(irs) && net_shift(irs) == 0
}

/// Whether an instruction met at displacement `p` is an add whose offset
/// equals that displacement: such adds are taken out of the body and summed
/// into the loop's per-iteration adjustment.
pub open spec fn is_cond_add(n: Node, p: Offset) -> bool {
    n matches Node::Add(off, _) && off == p
}

/// Whether an instruction met at displacement `p` keeps the loop around it
/// from being classified.
pub open spec fn blocks(n: Node, p: Offset) -> bool {
    match n {
        Node::Loop(_) => true,
        Node::SimpleLoop(_, _) => p == 0,
        Node::Getch(off) => off_add(p, off) == 0,
        Node::MovImm(off, _) => off_add(p, off) == 0,
        Node::AddMul(off, _) => off_add(p, off) == 0,
        _ => false,
    }
}

/// Whether some instruction of the body keeps the loop from being
/// classified.
pub open spec fn blocked(irs: Seq<Node>) -> bool {
    exists|i: int| 0 <= i < irs.len() && #[trigger] blocks(irs[i], net_shift(irs.take(i)))
}

/// Sum of the adds that are taken out of the body.
pub open spec fn cond_delta(irs: Seq<Node>) -> Value
    decreases irs.len(),
{
    if irs.len() == 0 {
        0
    } else {
        let before = cond_delta(irs.drop_last());
        match irs.last() {
            Node::Add(off, v) => if off == net_shift(irs.drop_last()) {
                val_add(before, v)
            } else {
                before
            },
            _ => before,
        }
    }
}

/// The body without the adds that are taken out of it.
pub open spec fn without_cond_adds(irs: Seq<Node>) -> Seq<Node>
    decreases irs.len(),
{
    if irs.len() == 0 {
        Seq::empty()
    } else {
        let before = without_cond_adds(irs.drop_last());
        if is_cond_add(irs.last(), net_shift(irs.drop_last())) {
            before
        } else {
            before.push(irs.last())
        }
    }
}

/// What classification makes of one instruction.  Only a plain loop
/// changes: its nested loops are classified first; then, if nothing in its
/// body blocks and the body's net displacement is zero, it becomes a simple
/// loop.
pub open spec fn simplify_node(n: Node) -> Node
    decreases n,
{
    match n {
        Node::Loop(body) => {
            let inner = simplify_all(body);
            if !blocked(inner) && net_shift(inner) == 0 {
                Node::SimpleLoop(cond_delta(inner), without_cond_adds(inner))
            } else {
                Node::Loop(inner)
            }
        },
        _ => n,
    }
}

/// Pointwise [`simplify_node`] over a sequence.
pub open spec fn simplify_all(irs: Seq<Node>) -> Seq<Node>
    decreases irs,
{
    Seq::new(
        irs.len(),
        |i: int|
            if 0 <= i < irs.len() {
                simplify_node(irs[i])
            } else {
                Node::PtrChange(0)
            },
    )
}

/// Classifies every instruction of a sequence.
pub fn simplify_each(irs: &Vec<IR>) -> (r: Vec<IR>)
    ensures
        nodes_of(r@) == simplify_all(nodes_of(irs@)),
    decreases irs,
{
    let mut out: Vec<IR> = Vec::new();
    let mut j: usize = 0;
    while j < irs.len()
        invariant
            j <= irs.len(),
            out.len() == j,
            forall|x: int| 0 <= x < j ==> (#[trigger] out@[x])@ == simplify_node(irs@[x]@),
        decreases irs.len() - j,
    {
        let s = simplify_loop(&irs[j]);
        out.push(s);
        j += 1;
    }
    assert(nodes_of(out@) =~= simplify_all(nodes_of(irs@)));
    out
}

/// Classification leaves the net displacement of a sequence as it was:
/// by its own text a loop of either kind moves nothing.
pub proof fn lemma_simplify_keeps_shift(irs: Seq<Node>)
    ensures
        net_shift(simplify_all(irs)) == net_shift(irs),
    decreases irs.len(),
{
    if irs.len() > 0 {
        lemma_simplify_keeps_shift(irs.drop_last());
        assert(simplify_all(irs).drop_last() =~= simplify_all(irs.drop_last()));
    }
}

/// Taking the adds out of a body leaves its net displacement as it was.
pub proof fn lemma_kept_shift(irs: Seq<Node>)
    ensures
        net_shift(without_cond_adds(irs)) == net_shift(irs),
    decreases irs.len(),
{
    if irs.len() > 0 {
        lemma_kept_shift(irs.drop_last());
        let before = without_cond_adds(irs.drop_last());
        if !is_cond_add(irs.last(), net_shift(irs.drop_last())) {
            assert(before.push(irs.last()).drop_last() =~= before);
        }
    }
}

/// A plain loop becomes a simple loop only when its body has net static
/// displacement zero; the body that the simple loop keeps then has net
/// static displacement zero too.
pub proof fn lemma_simple_only_if_balanced(body: Seq<Node>)
    ensures
        simplify_node(Node::Loop(body)) matches Node::SimpleLoop(_, kept) ==> net_shift(body)
            == 0 && net_shift(kept) == 0,
{
    lemma_simplify_keeps_shift(body);
    lemma_kept_shift(simplify_all(body));
}

/// Classifies one instruction: a plain loop whose body has net static
/// displacement zero, and in which nothing blocks, becomes a simple loop.
/// Every other instruction is returned as it is.
pub fn simplify_loop(ins: &IR) -> (r: IR)
    ensures
        r@ == simplify_node(ins@),
        ins@ matches Node::Loop(body) ==> (r@ matches Node::SimpleLoop(_, kept) ==> net_shift(body)
            == 0 && net_shift(kept) == 0),
    decreases ins,
{
    proof {
        if ins@ is Loop {
            lemma_simple_only_if_balanced(ins@->Loop_0);
        }
    }
    let children = match ins {
        IR::Loop(inner) => inner,
        _ => {
            return ins.clone();
        },
    };
    let irs = simplify_each(children);
    let ghost src = nodes_of(irs@);
    proof {
        lemma_node_of_loop(*children);
        lemma_node_of_loop(irs);
    }
    let mut ptr_change: Offset = 0;
    let mut delta: Value = 0;
    let mut ret_inner: Vec<IR> = Vec::new();
    let mut i: usize = 0;
    assert(nodes_of(ret_inner@) =~= Seq::empty());
    assert(src.take(0) =~= Seq::empty());
    while i < irs.len()
        invariant
            i <= irs.len(),
            src == nodes_of(irs@),
            src == simplify_all(nodes_of(children@)),
            ins@ == Node::Loop(nodes_of(children@)),
            ptr_change == net_shift(src.take(i as int)),
            delta == cond_delta(src.take(i as int)),
            nodes_of(ret_inner@) == without_cond_adds(src.take(i as int)),
            forall|x: int| 0 <= x < i ==> !#[trigger] blocks(src[x], net_shift(src.take(x))),
        decreases irs.len() - i,
    {
        let ghost n = src[i as int];
        assert(n == irs@[i as int]@);
        proof {
            assert(src.take(i + 1).drop_last() =~= src.take(i as int));
            assert(src.take(i + 1).last() == n);
        }
        let cur = &irs[i];
        let stop = match cur {
            IR::Putch(_) => {
                push_ir(&mut ret_inner, cur.clone());
                false
            },
            IR::Getch(off) => {
                if ptr_change.wrapping_add(*off) == 0 {
                    true
                } else {
                    push_ir(&mut ret_inner, cur.clone());
                    false
                }
            },
            IR::MovImm(off, _) => {
                if ptr_change.wrapping_add(*off) == 0 {
                    true
                } else {
                    push_ir(&mut ret_inner, cur.clone());
                    false
                }
            },
            IR::Add(off, v) => {
                if ptr_change == *off {
                    delta = delta.wrapping_add(*v);
                } else {
                    push_ir(&mut ret_inner, cur.clone());
                }
                false
            },
            IR::PtrChange(d) => {
                ptr_change = ptr_change.wrapping_add(*d);
                push_ir(&mut ret_inner, cur.clone());
                false
            },
            IR::Loop(_) => true,
            IR::SimpleLoop(_, _) => {
                if ptr_change == 0 {
                    true
                } else {
                    push_ir(&mut ret_inner, cur.clone());
                    false
                }
            },
            IR::AddMul(off, _) => {
                if ptr_change.wrapping_add(*off) == 0 {
                    true
                } else {
                    push_ir(&mut ret_inner, cur.clone());
                    false
                }
            },
        };
        if stop {
            assert(blocks(src[i as int], net_shift(src.take(i as int))));
            proof {
                lemma_node_of_loop(irs);
            }
            return IR::Loop(irs);
        }
        i += 1;
    }
    proof {
        assert(src.take(irs.len() as int) =~= src);
        lemma_node_of_simple_loop(delta, ret_inner);
        lemma_node_of_loop(irs);
    }
    if ptr_change == 0 {
        IR::SimpleLoop(delta, ret_inner)
    } else {
        IR::Loop(irs)
    }
}

} // verus!
