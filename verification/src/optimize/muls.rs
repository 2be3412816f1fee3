//! Synthesis of multiply-adds from cell-clearing copy loops.

use crate::cells::{CellMap, Cells};
use crate::ir::{
    lemma_node_of_loop, lemma_node_of_simple_loop, nodes_of, off_add, push_ir, val_add, Node,
    Offset, Value, IR,
};
use vstd::prelude::*;

verus! {

/// Whether a body consists of pointer moves and adds alone.
pub open spec fn is_plain(irs: Seq<Node>) -> bool {
    forall|i: int| 0 <= i < irs.len() ==> (#[trigger] irs[i] is PtrChange || irs[i] is Add)
}

/// State of the replay of a plain body: the displacement so far, and the
/// summed change by final offset.
pub ghost struct Tally {
    pub off: Offset,
    pub changes: Cells<Value>,
}

/// The state after one more instruction of a plain body.
pub open spec fn tally_step(st: Tally, n: Node) -> Tally {
    match n {
        Node::PtrChange(d) => Tally { off: off_add(st.off, d), ..st },
        Node::Add(a, v) => {
            let k = off_add(st.off, a);
            Tally { changes: st.changes.set(k, val_add(st.changes.get_or(k, 0), v)), ..st }
        },
        _ => st,
    }
}

/// The state after the first `n` instructions of a plain body.
pub open spec fn tally_upto(irs: Seq<Node>, n: int) -> Tally
    decreases n,
{
    if n <= 0 {
        Tally { off: 0, changes: Cells::empty() }
    } else {
        tally_step(tally_upto(irs, n - 1), irs[n - 1])
    }
}

/// The summed change that one run of a plain body makes, by offset.
pub open spec fn changes_of(irs: Seq<Node>) -> Cells<Value> {
    tally_upto(irs, irs.len() as int).changes
}

/// One multiply-add per changed offset, in order of first change, then
/// the store that clears the loop's own cell.
pub open spec fn mul_listing(changes: Cells<Value>) -> Seq<Node> {
    Seq::new(changes.keys.len(), |i: int| Node::AddMul(changes.keys[i], changes.map[changes.keys[i]])).push(
        Node::MovImm(0, 0),
    )
}

/// What the pass makes of one instruction.
pub open spec fn muls_chunk(n: Node) -> Seq<Node>
    decreases n, 0int,
{
    match n {
        Node::SimpleLoop(delta, body) => if delta == -1 && is_plain(body) {
            mul_listing(changes_of(body))
        } else {
            seq![Node::SimpleLoop(delta, muls_upto(body, body.len() as int))]
        },
        Node::Loop(body) => seq![Node::Loop(muls_upto(body, body.len() as int))],
        _ => seq![n],
    }
}

/// What the pass makes of the first `n` instructions of a body.
pub open spec fn muls_upto(irs: Seq<Node>, n: int) -> Seq<Node>
    decreases irs, n,
{
    if n <= 0 || n > irs.len() {
        Seq::empty()
    } else {
        muls_upto(irs, n - 1) + muls_chunk(irs[n - 1])
    }
}

/// What multiply-add synthesis makes of a program.
pub open spec fn compress_muls_spec(irs: Seq<Node>) -> Seq<Node> {
    muls_upto(irs, irs.len() as int)
}

/// Whether no instruction, at any depth, is the idiom that the pass
/// replaces.
pub open spec fn free_of_mul_idiom(irs: Seq<Node>) -> bool
    decreases irs,
{
    forall|i: int|
        0 <= i < irs.len() ==> match #[trigger] irs[i] {
            Node::Loop(body) => free_of_mul_idiom(body),
            Node::SimpleLoop(delta, body) => !(delta == -1 && is_plain(body)) && free_of_mul_idiom(
                body,
            ),
            _ => true,
        }
}

/// What the pass makes of an instruction that is neither a pointer move
/// nor an add holds such an instruction again.
proof fn lemma_chunk_not_plain(n: Node)
    requires
        !(n is PtrChange || n is Add),
    ensures
        !is_plain(muls_chunk(n)),
{
    let c = muls_chunk(n);
    assert(!(c.last() is PtrChange || c.last() is Add));
    assert(c[c.len() - 1] == c.last());
}

/// What the pass makes of a body that is not plain is not plain.
proof fn lemma_muls_not_plain(irs: Seq<Node>, n: int)
    requires
        0 <= n <= irs.len(),
        !is_plain(irs.take(n)),
    ensures
        !is_plain(muls_upto(irs, n)),
    decreases n,
{
    let out = muls_upto(irs, n);
    if n > 0 {
        let last = irs[n - 1];
        let before = muls_upto(irs, n - 1);
        let chunk = muls_chunk(last);
        if last is PtrChange || last is Add {
            if is_plain(irs.take(n - 1)) {
                assert forall|i: int| 0 <= i < irs.take(n).len() implies (#[trigger] irs.take(
                    n,
                )[i] is PtrChange || irs.take(n)[i] is Add) by {
                    if i < n - 1 {
                        assert(irs.take(n - 1)[i] == irs.take(n)[i]);
                    }
                }
            }
            lemma_muls_not_plain(irs, n - 1);
            let w = choose|i: int|
                0 <= i < before.len() && !(#[trigger] before[i] is PtrChange || before[i] is Add);
            assert(out[w] == before[w]);
        } else {
            lemma_chunk_not_plain(last);
            let w = choose|i: int|
                0 <= i < chunk.len() && !(#[trigger] chunk[i] is PtrChange || chunk[i] is Add);
            assert(out[before.len() + w] == chunk[w]);
        }
    } else {
        assert(is_plain(irs.take(0)));
    }
}

/// After the pass no simple loop is left, at any depth, that steps its
/// cell down by one and whose body only moves the pointer and adds.
pub proof fn lemma_no_mul_idiom_left(irs: Seq<Node>)
    ensures
        free_of_mul_idiom(compress_muls_spec(irs)),
{
    lemma_muls_upto_free(irs, irs.len() as int);
}

/// What the pass makes of a prefix holds the idiom nowhere.
proof fn lemma_muls_upto_free(irs: Seq<Node>, n: int)
    requires
        0 <= n <= irs.len(),
    ensures
        free_of_mul_idiom(muls_upto(irs, n)),
    decreases irs, n,
{
    let out = muls_upto(irs, n);
    if n > 0 {
        let last = irs[n - 1];
        let before = muls_upto(irs, n - 1);
        let chunk = muls_chunk(last);
        lemma_muls_upto_free(irs, n - 1);
        match last {
            Node::SimpleLoop(delta, body) => {
                if !(delta == -1 && is_plain(body)) {
                    lemma_muls_upto_free(body, body.len() as int);
                    if delta == -1 {
                        assert(body.take(body.len() as int) =~= body);
                        lemma_muls_not_plain(body, body.len() as int);
                    }
                }
            },
            Node::Loop(body) => {
                lemma_muls_upto_free(body, body.len() as int);
            },
            _ => {},
        }
        assert(free_of_mul_idiom(chunk));
        assert forall|i: int| 0 <= i < out.len() implies match #[trigger] out[i] {
            Node::Loop(body) => free_of_mul_idiom(body),
            Node::SimpleLoop(delta, body) => !(delta == -1 && is_plain(body)) && free_of_mul_idiom(
                body,
            ),
            _ => true,
        } by {
            if i < before.len() {
                assert(out[i] == before[i]);
            } else {
                assert(out[i] == chunk[i - before.len()]);
            }
        }
    }
}

/// Replays a body that may be plain.  Returns the summed changes if it is.
fn tally(inner: &Vec<IR>) -> (r: Option<CellMap<Value>>)
    ensures
        r is Some <==> is_plain(nodes_of(inner@)),
        r matches Some(c) ==> c@ == changes_of(nodes_of(inner@)) && c@.wf(),
{
    let ghost src = nodes_of(inner@);
    let mut changes: CellMap<Value> = CellMap::new();
    let mut off: Offset = 0;
    let mut i: usize = 0;
    while i < inner.len()
        invariant
            i <= inner.len(),
            src == nodes_of(inner@),
            changes@.wf(),
            forall|j: int| 0 <= j < i ==> (#[trigger] src[j] is PtrChange || src[j] is Add),
            tally_upto(src, i as int) == (Tally { off: off, changes: changes@ }),
        decreases inner.len() - i,
    {
        assert(src[i as int] == inner@[i as int]@);
        match &inner[i] {
            IR::PtrChange(d) => {
                off = off.wrapping_add(*d);
            },
            IR::Add(a, v) => {
                let k = off.wrapping_add(*a);
                let cur = match changes.get(k) {
                    Some(c) => c,
                    None => 0,
                };
                changes.insert(k, cur.wrapping_add(*v));
            },
            _ => {
                assert(!(src[i as int] is PtrChange || src[i as int] is Add));
                return None;
            },
        }
        i += 1;
    }
    Some(changes)
}

/// Emits one multiply-add per changed offset, then the clearing store.
fn emit_muls(out: &mut Vec<IR>, changes: &CellMap<Value>)
    requires
        changes@.wf(),
    ensures
        nodes_of(final(out)@) == nodes_of(old(out)@) + mul_listing(changes@),
{
    let n = changes.len();
    let ghost all = mul_listing(changes@);
    let mut i: usize = 0;
    while i < n
        invariant
            changes@.wf(),
            n == changes@.keys.len(),
            all == mul_listing(changes@),
            i <= n,
            nodes_of(out@) == nodes_of(old(out)@) + all.take(i as int),
        decreases n - i,
    {
        let (k, v) = changes.entry_at(i);
        push_ir(out, IR::AddMul(k, v));
        proof {
            assert(all.take(i + 1) =~= all.take(i as int).push(all[i as int]));
            assert(nodes_of(out@) =~= nodes_of(old(out)@) + all.take(i + 1));
        }
        i += 1;
    }
    push_ir(out, IR::MovImm(0, 0));
    proof {
        assert(all.take(n as int).push(Node::MovImm(0, 0)) =~= all);
        assert(nodes_of(out@) =~= nodes_of(old(out)@) + all);
    }
}

/// Replaces every simple loop that steps its cell down by one, and whose
/// body only moves the pointer and adds, by one multiply-add per changed
/// cell and a store that clears the loop's cell.  Other loops are kept and
/// their bodies rewritten.
pub fn compress_muls(irs: &Vec<IR>) -> (r: Vec<IR>)
    ensures
        nodes_of(r@) == compress_muls_spec(nodes_of(irs@)),
        free_of_mul_idiom(nodes_of(r@)),
    decreases irs,
{
    let ghost src = nodes_of(irs@);
    proof {
        lemma_no_mul_idiom_left(src);
    }
    let mut ret: Vec<IR> = Vec::new();
    let mut i: usize = 0;
    assert(nodes_of(ret@) =~= Seq::empty());
    while i < irs.len()
        invariant
            i <= irs.len(),
            src == nodes_of(irs@),
            nodes_of(ret@) == muls_upto(src, i as int),
        decreases irs.len() - i,
    {
        let ghost n = src[i as int];
        let ghost before = nodes_of(ret@);
        assert(n == irs@[i as int]@);
        let ir = &irs[i];
        i += 1;
        match ir {
            IR::SimpleLoop(delta, inner) => {
                proof {
                    lemma_node_of_simple_loop(*delta, *inner);
                }
                let plain = if *delta == -1 {
                    tally(inner)
                } else {
                    None
                };
                match plain {
                    Some(changes) => {
                        emit_muls(&mut ret, &changes);
                    },
                    None => {
                        let body = compress_muls(inner);
                        proof {
                            lemma_node_of_simple_loop(*delta, body);
                        }
                        push_ir(&mut ret, IR::SimpleLoop(*delta, body));
                        assert(before.push(Node::SimpleLoop(*delta, nodes_of(body@))) =~= before
                            + muls_chunk(n));
                    },
                }
            },
            IR::Loop(inner) => {
                let body = compress_muls(inner);
                proof {
                    lemma_node_of_loop(*inner);
                    lemma_node_of_loop(body);
                }
                push_ir(&mut ret, IR::Loop(body));
                assert(before.push(Node::Loop(nodes_of(body@))) =~= before + muls_chunk(n));
            },
            _ => {
                push_ir(&mut ret, ir.clone());
                assert(before.push(n) =~= before + muls_chunk(n));
            },
        }
    }
    ret
}

} // verus!
