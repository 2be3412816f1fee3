//! The optimizer: a fixed sequence of rewrites over the intermediate
//! representation.

pub mod changes;
pub mod consts;
pub mod loops;
pub mod muls;
pub mod stores;

pub use changes::compress_changes;
pub use consts::collapse_consts;
pub use loops::simplify_loop;
pub use muls::compress_muls;
pub use stores::remove_unread_stores;

use crate::ir::{IRProgram, Node};
use vstd::prelude::*;

verus! {

/// What the optimizer makes of a program: the passes in their fixed order,
/// each applied once.
pub open spec fn optimize_spec(irs: Seq<Node>) -> Seq<Node> {
    let irs = changes::compress_changes_spec(irs);
    let irs = loops::simplify_all(irs);
    let irs = changes::compress_changes_spec(irs);
    let irs = muls::compress_muls_spec(irs);
    let irs = consts::collapse_consts_spec(irs);
    let irs = stores::remove_unread_stores_spec(irs);
    changes::compress_changes_spec(irs)
}

/// The empty program stays empty.
pub proof fn lemma_optimize_empty()
    ensures
        optimize_spec(Seq::empty()) == Seq::<Node>::empty(),
{
    let none = Seq::<Node>::empty();
    assert(changes::compress_changes_spec(none) =~= none);
    assert(loops::simplify_all(none) =~= none);
    assert(muls::compress_muls_spec(none) =~= none);
    assert(consts::collapse_consts_spec(none) =~= none);
    assert(stores::remove_unread_stores_spec(none) =~= none);
}

/// Optimizes a program.
pub fn optimize(prog: &IRProgram) -> (r: IRProgram)
    ensures
        r@ == optimize_spec(prog@),
        prog@.len() == 0 ==> r@.len() == 0,
{
    proof {
        if prog@.len() == 0 {
            assert(prog@ =~= Seq::<Node>::empty());
            lemma_optimize_empty();
        }
    }
    let irs = changes::compress_changes(&prog.0);
    let irs = loops::simplify_each(&irs);
    let irs = changes::compress_changes(&irs);
    let irs = muls::compress_muls(&irs);
    let irs = consts::collapse_consts(&irs);
    let irs = stores::remove_unread_stores(&irs);
    let irs = changes::compress_changes(&irs);
    IRProgram(irs)
}

} // verus!
