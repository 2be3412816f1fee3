use bfc::ir::{IRProgram, Offset, Value, IR};
use bfc::optimize::{
    collapse_consts, compress_changes, compress_muls, optimize, remove_unread_stores,
    simplify_loop,
};
use bfc::parser::Parser;

fn lp(inner: Vec<IR>) -> IR {
    IR::Loop(inner)
}

fn pc(amt: Offset) -> IR {
    IR::PtrChange(amt)
}

fn a(off: Offset, amt: Value) -> IR {
    IR::Add(off, amt)
}

fn put(off: Offset) -> IR {
    IR::Putch(off)
}

fn get(off: Offset) -> IR {
    IR::Getch(off)
}

fn sl(delta: Value, inner: Vec<IR>) -> IR {
    IR::SimpleLoop(delta, inner)
}

fn am(off: Offset, delta: Value) -> IR {
    IR::AddMul(off, delta)
}

fn mi(off: Offset, imm: Value) -> IR {
    IR::MovImm(off, imm)
}

fn lowered(code: &str) -> Vec<IR> {
    IRProgram::from_ast_program(&Parser::parse(code).unwrap()).0
}

fn optimized(code: &str) -> Vec<IR> {
    optimize(&IRProgram(lowered(code))).0
}

fn holds_mul_idiom(irs: &[IR]) -> bool {
    irs.iter().any(|ir| match ir {
        IR::Loop(body) => holds_mul_idiom(body),
        IR::SimpleLoop(delta, body) => {
            (*delta == -1
                && body
                    .iter()
                    .all(|i| matches!(i, IR::PtrChange(_) | IR::Add(_, _))))
                || holds_mul_idiom(body)
        }
        _ => false,
    })
}

#[test]
fn compress_changes_twice_is_once() {
    let programs = vec![
        lowered(">>+<[->+<]>>."),
        lowered("+>[>>,<]<<-"),
        vec![pc(3), sl(-1, vec![pc(1), a(0, 1), pc(-1)]), pc(2), am(1, 2), pc(1), mi(0, 4)],
        vec![lp(vec![pc(1), lp(vec![pc(1), pc(-1), put(0)]), pc(-2)])],
    ];
    for p in programs {
        let once = compress_changes(&p);
        let twice = compress_changes(&once);
        assert_eq!(twice, once);
    }
}

#[test]
fn compress_changes_flushes_before_anchored_instructions() {
    assert_eq!(
        compress_changes(&vec![pc(2), lp(vec![]), pc(1), am(1, 2), pc(-1), mi(0, 3), pc(5)]),
        vec![pc(2), lp(vec![]), pc(1), am(1, 2), pc(-1), mi(0, 3)]
    );
}

#[test]
fn compress_changes_enters_simple_loops() {
    assert_eq!(
        compress_changes(&vec![sl(-1, vec![pc(1), a(0, 1), pc(-1), a(0, 2)])]),
        vec![sl(-1, vec![a(1, 1), a(0, 2)])]
    );
    assert_eq!(
        compress_changes(&vec![sl(0, vec![pc(1), a(0, 1)])]),
        vec![sl(0, vec![a(1, 1), pc(1)])]
    );
}

#[test]
fn compress_changes_keeps_displacement_of_nested_bodies() {
    assert_eq!(
        compress_changes(&vec![lp(vec![pc(1), lp(vec![pc(1), a(0, 1), pc(1)]), pc(-3)])]),
        vec![lp(vec![pc(1), lp(vec![a(1, 1), pc(2)]), pc(-3)])]
    );
}

#[test]
fn compress_changes_wraps_offsets() {
    assert_eq!(
        compress_changes(&vec![pc(Offset::MAX), pc(1), a(0, 1)]),
        vec![a(Offset::MIN, 1)]
    );
}

#[test]
fn simplify_only_balanced_loops() {
    assert_eq!(
        simplify_loop(&lp(vec![pc(1), a(0, 1)])),
        lp(vec![pc(1), a(0, 1)])
    );
    assert_eq!(
        simplify_loop(&lp(vec![pc(2), a(0, 1), pc(-2)])),
        sl(0, vec![pc(2), a(0, 1), pc(-2)])
    );
}

#[test]
fn simplify_blocked_loops_stay_plain() {
    assert_eq!(simplify_loop(&lp(vec![get(0)])), lp(vec![get(0)]));
    assert_eq!(simplify_loop(&lp(vec![mi(0, 1)])), lp(vec![mi(0, 1)]));
    assert_eq!(simplify_loop(&lp(vec![am(0, 1)])), lp(vec![am(0, 1)]));
    assert_eq!(
        simplify_loop(&lp(vec![pc(1), mi(-1, 1), pc(-1)])),
        lp(vec![pc(1), mi(-1, 1), pc(-1)])
    );
    assert_eq!(
        simplify_loop(&lp(vec![lp(vec![pc(1)])])),
        lp(vec![lp(vec![pc(1)])])
    );
    assert_eq!(
        simplify_loop(&lp(vec![lp(vec![a(0, -1)])])),
        lp(vec![sl(-1, vec![])])
    );
}

#[test]
fn simplify_keeps_what_misses_the_loop_cell() {
    assert_eq!(simplify_loop(&lp(vec![get(1)])), sl(0, vec![get(1)]));
    assert_eq!(simplify_loop(&lp(vec![mi(1, 7)])), sl(0, vec![mi(1, 7)]));
    assert_eq!(simplify_loop(&lp(vec![am(1, 7)])), sl(0, vec![am(1, 7)]));
    assert_eq!(
        simplify_loop(&lp(vec![a(0, -1), pc(1), lp(vec![a(0, -1)]), pc(-1)])),
        sl(-1, vec![pc(1), sl(-1, vec![]), pc(-1)])
    );
}

#[test]
fn simplify_sums_the_adds_with_wrapping() {
    assert_eq!(
        simplify_loop(&lp(vec![a(0, 100), a(0, 100), a(1, 1)])),
        sl(-56, vec![a(1, 1)])
    );
}

#[test]
fn simplify_leaves_other_instructions() {
    assert_eq!(simplify_loop(&a(1, 2)), a(1, 2));
    assert_eq!(
        simplify_loop(&sl(1, vec![lp(vec![])])),
        sl(1, vec![lp(vec![])])
    );
}

#[test]
fn compress_muls_replaces_the_idiom() {
    assert_eq!(
        compress_muls(&vec![sl(-1, vec![pc(1), a(0, 2), pc(1), a(0, 3), pc(-2)])]),
        vec![am(1, 2), am(2, 3), mi(0, 0)]
    );
    assert_eq!(compress_muls(&vec![sl(-1, vec![])]), vec![mi(0, 0)]);
}

#[test]
fn compress_muls_sums_changes_by_final_offset() {
    assert_eq!(
        compress_muls(&vec![sl(-1, vec![a(2, 1), pc(1), a(1, 100), a(0, 5), a(1, 100)])]),
        vec![am(2, -55), am(1, 5), mi(0, 0)]
    );
}

#[test]
fn compress_muls_keeps_other_loops() {
    assert_eq!(
        compress_muls(&vec![sl(-2, vec![a(1, 1)])]),
        vec![sl(-2, vec![a(1, 1)])]
    );
    assert_eq!(
        compress_muls(&vec![sl(-1, vec![a(1, 1), put(1)])]),
        vec![sl(-1, vec![a(1, 1), put(1)])]
    );
    assert_eq!(
        compress_muls(&vec![lp(vec![sl(-1, vec![a(1, 1)])]), get(0)]),
        vec![lp(vec![am(1, 1), mi(0, 0)]), get(0)]
    );
    assert_eq!(
        compress_muls(&vec![sl(1, vec![put(0), sl(-1, vec![a(3, 4)])])]),
        vec![sl(1, vec![put(0), am(3, 4), mi(0, 0)])]
    );
}

#[test]
fn compress_muls_leaves_no_idiom() {
    let programs = vec![
        vec![
            sl(-1, vec![a(1, 1)]),
            lp(vec![sl(-1, vec![pc(1), pc(-1)]), sl(-1, vec![put(0), sl(-1, vec![])])]),
        ],
        compress_changes(
            &lowered("++[->+<]>[-<+>]<[>[-]<-]")
                .iter()
                .map(simplify_loop)
                .collect(),
        ),
    ];
    for p in programs {
        assert!(!holds_mul_idiom(&compress_muls(&p)));
    }
}

#[test]
fn collapse_consts_folds_adds() {
    assert_eq!(
        collapse_consts(&vec![a(0, 3), a(0, 4), put(0)]),
        vec![mi(0, 7), put(0)]
    );
    assert_eq!(
        collapse_consts(&vec![a(0, 100), a(0, 100), put(0)]),
        vec![mi(0, -56), put(0)]
    );
}

#[test]
fn collapse_consts_tracks_deltas_after_a_read() {
    assert_eq!(
        collapse_consts(&vec![get(0), a(0, 3), a(0, 4), put(0)]),
        vec![get(0), a(0, 7), put(0)]
    );
    assert_eq!(
        collapse_consts(&vec![get(0), a(0, 3), a(0, -3), put(0)]),
        vec![get(0), put(0)]
    );
}

#[test]
fn collapse_consts_folds_known_multiply_adds() {
    assert_eq!(
        collapse_consts(&vec![mi(1, 100), mi(0, 2), am(1, 100), put(1)]),
        vec![mi(1, 100), mi(0, 2), mi(1, 44), put(1)]
    );
}

#[test]
fn collapse_consts_settles_operands_of_a_kept_multiply_add() {
    assert_eq!(
        collapse_consts(&vec![get(1), a(1, 2), a(0, 3), am(1, 5)]),
        vec![get(1), mi(0, 3), a(1, 2), am(1, 5)]
    );
    assert_eq!(
        collapse_consts(&vec![get(0), a(1, 2), am(1, 5)]),
        vec![get(0), mi(1, 2), am(1, 5)]
    );
}

#[test]
fn collapse_consts_drops_dead_loops() {
    assert_eq!(
        collapse_consts(&vec![lp(vec![put(0)]), sl(1, vec![get(0)]), put(0)]),
        vec![put(0)]
    );
    assert_eq!(
        collapse_consts(&vec![a(0, 1), a(0, -1), lp(vec![put(0)]), put(0)]),
        vec![mi(0, 0), put(0)]
    );
    assert_eq!(
        collapse_consts(&vec![pc(3), lp(vec![put(0)])]),
        vec![pc(3)]
    );
}

#[test]
fn collapse_consts_gives_up_at_a_live_loop() {
    assert_eq!(
        collapse_consts(&vec![
            a(0, 2),
            get(1),
            a(1, 1),
            pc(1),
            lp(vec![a(0, -1)]),
            a(0, 1),
            lp(vec![]),
        ]),
        vec![
            get(1),
            pc(1),
            mi(-1, 2),
            a(0, 1),
            lp(vec![a(0, -1)]),
            a(0, 1),
            lp(vec![]),
        ]
    );
}

#[test]
fn remove_unread_stores_drops_overwritten_stores() {
    assert_eq!(
        remove_unread_stores(&vec![mi(0, 1), mi(0, 2), put(0)]),
        vec![mi(0, 2), put(0)]
    );
    assert_eq!(
        remove_unread_stores(&vec![mi(0, 1), get(0), put(0)]),
        vec![get(0), put(0)]
    );
    assert_eq!(remove_unread_stores(&vec![mi(0, 1), mi(1, 2)]), vec![]);
}

#[test]
fn remove_unread_stores_releases_before_reads() {
    assert_eq!(
        remove_unread_stores(&vec![mi(1, 1), pc(1), a(0, 2), mi(-1, 4), am(-1, 3)]),
        vec![pc(1), mi(0, 1), a(0, 2), mi(-1, 4), am(-1, 3)]
    );
    assert_eq!(
        remove_unread_stores(&vec![mi(0, 2), mi(1, 1), am(1, 3)]),
        vec![mi(1, 1), mi(0, 2), am(1, 3)]
    );
}

#[test]
fn remove_unread_stores_flushes_before_loops() {
    assert_eq!(
        remove_unread_stores(&vec![mi(2, 1), mi(0, 5), pc(1), lp(vec![mi(0, 1), mi(0, 2)]), mi(0, 3)]),
        vec![pc(1), mi(1, 1), mi(-1, 5), lp(vec![mi(0, 1), mi(0, 2)]), mi(0, 3)]
    );
}

#[test]
fn remove_unread_stores_enters_simple_loops() {
    assert_eq!(
        remove_unread_stores(&vec![
            mi(0, 5),
            sl(-1, vec![mi(1, 1), mi(1, 2), mi(2, 3)]),
            put(0),
        ]),
        vec![mi(0, 5), sl(-1, vec![mi(1, 2), mi(2, 3)]), mi(0, 0), put(0)]
    );
    assert_eq!(
        remove_unread_stores(&vec![sl(-1, vec![]), mi(0, 4), put(0)]),
        vec![sl(-1, vec![]), mi(0, 4), put(0)]
    );
}

#[test]
fn optimize_empty_program() {
    assert_eq!(optimized(""), vec![]);
    assert_eq!(optimized("no instructions here"), vec![]);
}

#[test]
fn optimize_removes_dead_loop_at_start() {
    assert_eq!(optimized("[.,+-<>]"), vec![]);
    assert_eq!(optimized("[.]>>>>>>>>>>>>>>>>>>>>>[,]"), vec![]);
    assert_eq!(optimized("[-]+."), vec![mi(0, 1), put(0)]);
}

#[test]
fn optimize_wraps_cells() {
    let mut code = "+".repeat(256);
    code.push('.');
    assert_eq!(optimized(&code), vec![mi(0, 0), put(0)]);
    let mut code = "+".repeat(128);
    code.push('.');
    assert_eq!(optimized(&code), vec![mi(0, -128), put(0)]);
}

#[test]
fn optimize_keeps_unbalanced_loops() {
    assert_eq!(
        optimized(",[>,]<[.<]"),
        vec![
            get(0),
            a(0, 0),
            lp(vec![get(1), pc(1)]),
            pc(-1),
            lp(vec![put(0), pc(-1)])
        ]
    );
}

#[test]
fn simplify_takes_adds_out_whatever_reads_the_cell() {
    assert_eq!(
        simplify_loop(&lp(vec![a(0, -1), put(0)])),
        sl(-1, vec![put(0)])
    );
    assert_eq!(
        simplify_loop(&lp(vec![pc(1), sl(-1, vec![]), a(1, 1), a(-1, -1), pc(-1)])),
        sl(1, vec![pc(1), sl(-1, vec![]), a(-1, -1), pc(-1)])
    );
}

#[test]
fn collapse_consts_settles_a_pending_delta_at_every_write() {
    assert_eq!(
        collapse_consts(&vec![get(0), a(0, 1), put(0), put(0)]),
        vec![get(0), a(0, 1), put(0), a(0, 1), put(0)]
    );
    assert_eq!(
        collapse_consts(&vec![get(0), a(0, 1), am(0, 2)]),
        vec![get(0), a(0, 1), a(0, 1), am(0, 2)]
    );
}
