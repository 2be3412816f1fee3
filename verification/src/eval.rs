//! Meaning of the intermediate representation, and an interpreter that
//! follows it.

use crate::ir::{nodes_of, off_add, val_add, val_mul, IRProgram, Node, Offset, Value, IR};
use std::collections::HashMap;
use vstd::prelude::*;
use vstd::std_specs::hash::*;

verus! {

/// The bytes that successive reads return: the `i`-th read returns the
/// value at `i`.  What a read returns once the input has ended is part of
/// the stream.
pub type Feed = spec_fn(nat) -> Value;

/// The abstract machine.
pub ghost struct Machine {
    /// Every cell of the tape.
    pub mem: Map<Offset, Value>,
    /// The data pointer.
    pub ptr: Offset,
    /// How many bytes have been read.
    pub reads: nat,
    /// The bytes written, in order.
    pub output: Seq<Value>,
    /// How many more loop iterations may start.
    pub fuel: nat,
    /// False once an iteration was due and no fuel was left; nothing
    /// runs after that.
    pub ok: bool,
}

/// The machine before the first instruction: a tape of zeros, the pointer at
/// zero, nothing read or written.
pub open spec fn start(fuel: nat) -> Machine {
    Machine {
        mem: Map::new(|a: Offset| true, |a: Offset| 0i8),
        ptr: 0,
        reads: 0,
        output: Seq::empty(),
        fuel: fuel,
        ok: true,
    }
}

/// The cell at an offset from the pointer.
pub open spec fn cell(m: Machine, off: Offset) -> Value {
    m.mem[off_add(m.ptr, off)]
}

/// The machine after a value is stored at an offset from the pointer.
pub open spec fn poke(m: Machine, off: Offset, v: Value) -> Machine {
    Machine { mem: m.mem.insert(off_add(m.ptr, off), v), ..m }
}

/// The machine after one instruction.
pub open spec fn exec_node(n: Node, m: Machine, inp: Feed) -> Machine
    decreases n, 0nat, 0nat,
{
    if !m.ok {
        m
    } else {
        match n {
            Node::PtrChange(d) => Machine { ptr: off_add(m.ptr, d), ..m },
            Node::Add(off, v) => poke(m, off, val_add(cell(m, off), v)),
            Node::Putch(off) => Machine { output: m.output.push(cell(m, off)), ..m },
            Node::Getch(off) => Machine { reads: m.reads + 1, ..poke(m, off, inp(m.reads)) },
            Node::Loop(body) => run_loop(body, m, inp),
            Node::SimpleLoop(delta, body) => run_simple_loop(delta, body, m, inp),
            Node::AddMul(off, by) => poke(
                m,
                off,
                val_add(cell(m, off), val_mul(cell(m, 0), by)),
            ),
            Node::MovImm(off, v) => poke(m, off, v),
        }
    }
}

/// The machine after a plain loop: while the current cell is not zero, one
/// unit of fuel is spent and the body runs.
pub open spec fn run_loop(body: Seq<Node>, m: Machine, inp: Feed) -> Machine
    decreases body, m.fuel + 1, 0nat,
{
    if !m.ok || cell(m, 0) == 0 {
        m
    } else if m.fuel == 0 {
        Machine { ok: false, ..m }
    } else {
        let after = run_upto(
            body,
            body.len() as int,
            Machine { fuel: (m.fuel - 1) as nat, ..m },
            inp,
        );
        if after.fuel < m.fuel {
            run_loop(body, after, inp)
        } else {
            Machine { ok: false, ..after }
        }
    }
}

/// The machine after a simple loop: as a plain loop, but after every run of
/// the body `delta` is added to the current cell.
pub open spec fn run_simple_loop(delta: Value, body: Seq<Node>, m: Machine, inp: Feed) -> Machine
    decreases body, m.fuel + 1, 0nat,
{
    if !m.ok || cell(m, 0) == 0 {
        m
    } else if m.fuel == 0 {
        Machine { ok: false, ..m }
    } else {
        let ran = run_upto(
            body,
            body.len() as int,
            Machine { fuel: (m.fuel - 1) as nat, ..m },
            inp,
        );
        let after = if ran.ok {
            poke(ran, 0, val_add(cell(ran, 0), delta))
        } else {
            ran
        };
        if after.fuel < m.fuel {
            run_simple_loop(delta, body, after, inp)
        } else {
            Machine { ok: false, ..after }
        }
    }
}

/// The machine after the first `n` instructions of a sequence.
pub open spec fn run_upto(irs: Seq<Node>, n: int, m: Machine, inp: Feed) -> Machine
    decreases irs, 0nat, n,
{
    if n <= 0 || n > irs.len() {
        m
    } else {
        exec_node(irs[n - 1], run_upto(irs, n - 1, m, inp), inp)
    }
}

/// The machine after a whole sequence of instructions.
pub open spec fn run(irs: Seq<Node>, m: Machine, inp: Feed) -> Machine {
    run_upto(irs, irs.len() as int, m, inp)
}

/// Whether a stream begins with the given bytes.
pub open spec fn feeds(inp: Feed, reads: Seq<Value>) -> bool {
    forall|i: int| 0 <= i < reads.len() ==> inp(i as nat) == reads[i]
}

/// Once fuel has run out, nothing runs.
pub proof fn lemma_stuck(irs: Seq<Node>, k: int, n: int, m: Machine, inp: Feed)
    requires
        0 <= k <= n <= irs.len(),
        !run_upto(irs, k, m, inp).ok,
    ensures
        run_upto(irs, n, m, inp) == run_upto(irs, k, m, inp),
    decreases n - k,
{
    if k < n {
        lemma_stuck(irs, k, n - 1, m, inp);
        assert(run_upto(irs, n, m, inp) == exec_node(
            irs[n - 1],
            run_upto(irs, n - 1, m, inp),
            inp,
        ));
    }
}

/// A stream that begins with some bytes begins with every prefix of them.
pub proof fn lemma_feeds_prefix(inp: Feed, shorter: Seq<Value>, longer: Seq<Value>)
    requires
        shorter.is_prefix_of(longer),
        feeds(inp, longer),
    ensures
        feeds(inp, shorter),
{
    assert forall|i: int| 0 <= i < shorter.len() implies inp(i as nat) == shorter[i] by {
        assert(shorter[i] == longer[i]);
    }
}

/// Where the interpreter reads and writes its bytes.
pub trait IO {
    /// Takes one byte of output.
    fn putchar(&mut self, val: Value);

    /// Gives the next byte of input.
    fn getchar(&mut self) -> Value;
}

/// What one run of the interpreter did.
pub struct Transcript {
    /// The bytes that were read, in order.
    pub reads: Vec<Value>,
    /// The bytes that were written, in order.
    pub writes: Vec<Value>,
    /// Whether the program ran to its end within the fuel given.
    pub finished: bool,
}

/// The interpreter's tape and pointer.
struct State {
    mem: HashMap<Offset, Value>,
    idx: Offset,
}

impl State {
    /// Every cell of the tape; a cell never written holds zero.
    spec fn tape(&self) -> Map<Offset, Value> {
        Map::new(
            |a: Offset| true,
            |a: Offset|
                if self.mem@.contains_key(a) {
                    self.mem@[a]
                } else {
                    0i8
                },
        )
    }

    fn new() -> (r: State)
        ensures
            r.tape() == start(0).mem,
            r.idx == 0,
    {
        let r = State { mem: HashMap::new(), idx: 0 };
        assert(r.tape() =~= start(0).mem);
        r
    }

    fn read(&self, off: Offset) -> (r: Value)
        ensures
            r == self.tape()[off_add(self.idx, off)],
    {
        broadcast use group_hash_axioms;

        match self.mem.get(&self.idx.wrapping_add(off)) {
            Some(v) => *v,
            None => 0,
        }
    }

    fn write(&mut self, off: Offset, val: Value)
        ensures
            final(self).tape() == old(self).tape().insert(off_add(old(self).idx, off), val),
            final(self).idx == old(self).idx,
    {
        broadcast use group_hash_axioms;

        self.mem.insert(self.idx.wrapping_add(off), val);
        assert(self.tape() =~= old(self).tape().insert(off_add(old(self).idx, off), val));
    }

    fn ptr_change(&mut self, amt: Offset)
        ensures
            final(self).tape() == old(self).tape(),
            final(self).idx == off_add(old(self).idx, amt),
    {
        self.idx = self.idx.wrapping_add(amt);
        assert(self.tape() =~= old(self).tape());
    }
}

/// The abstract machine that the interpreter's state stands for.
spec fn machine_of(state: State, log: Transcript, fuel: u64) -> Machine {
    Machine {
        mem: state.tape(),
        ptr: state.idx,
        reads: log.reads@.len(),
        output: log.writes@,
        fuel: fuel as nat,
        ok: log.finished,
    }
}

/// For every stream that begins with `reads`, the first `n` instructions
/// take `from` to `to`.
spec fn tracks(irs: Seq<Node>, n: int, from: Machine, reads: Seq<Value>, to: Machine) -> bool {
    forall|inp: Feed| feeds(inp, reads) ==> #[trigger] run_upto(irs, n, from, inp) == to
}

/// For every stream that begins with `reads`, a loop over `body` ends in
/// the same machine from `now` as from `from`.
spec fn loop_tracks(
    simple: Option<Value>,
    body: Seq<Node>,
    from: Machine,
    reads: Seq<Value>,
    now: Machine,
) -> bool {
    forall|inp: Feed| feeds(inp, reads) ==> #[trigger] loop_end(simple, body, from, inp) == loop_end(simple, body, now, inp)
}

/// The machine after a loop of either kind.
spec fn loop_end(simple: Option<Value>, body: Seq<Node>, m: Machine, inp: Feed) -> Machine {
    match simple {
        Some(delta) => run_simple_loop(delta, body, m, inp),
        None => run_loop(body, m, inp),
    }
}

/// Runs a loop of either kind.
fn run_iterations<T: IO>(
    simple: Option<Value>,
    body: &Vec<IR>,
    state: &mut State,
    io: &mut T,
    log: &mut Transcript,
    fuel: &mut u64,
)
    requires
        old(log).finished,
    ensures
        *final(fuel) <= *old(fuel),
        old(log).reads@.is_prefix_of(final(log).reads@),
        forall|inp: Feed|
            feeds(inp, final(log).reads@) ==> #[trigger] loop_end(
                simple,
                nodes_of(body@),
                machine_of(*old(state), *old(log), *old(fuel)),
                inp,
            ) == machine_of(*final(state), *final(log), *final(fuel)),
    decreases body, 1nat,
{
    let ghost src = nodes_of(body@);
    let ghost from = machine_of(*state, *log, *fuel);
    while log.finished && state.read(0) != 0
        invariant
            src == nodes_of(body@),
            *fuel <= *old(fuel),
            old(log).reads@.is_prefix_of(log.reads@),
            loop_tracks(simple, src, from, log.reads@, machine_of(*state, *log, *fuel)),
        decreases *fuel + (if log.finished { 1int } else { 0int }),
    {
        let ghost now = machine_of(*state, *log, *fuel);
        let ghost reads0 = log.reads@;
        if *fuel == 0 {
            log.finished = false;
            proof {
                let next = machine_of(*state, *log, *fuel);
                assert forall|inp: Feed| feeds(inp, log.reads@) implies #[trigger] loop_end(
                    simple,
                    src,
                    from,
                    inp,
                ) == loop_end(simple, src, next, inp) by {
                    assert(loop_end(simple, src, from, inp) == loop_end(simple, src, now, inp));
                }
            }
        } else {
            *fuel = *fuel - 1;
            let ghost spent = machine_of(*state, *log, *fuel);
            run_series(body, state, io, log, fuel);
            let ghost ran = machine_of(*state, *log, *fuel);
            match simple {
                Some(delta) => {
                    if log.finished {
                        let v = state.read(0);
                        state.write(0, v.wrapping_add(delta));
                    }
                },
                None => {},
            }
            proof {
                let next = machine_of(*state, *log, *fuel);
                assert forall|inp: Feed| feeds(inp, log.reads@) implies #[trigger] loop_end(
                    simple,
                    src,
                    from,
                    inp,
                ) == loop_end(simple, src, next, inp) by {
                    lemma_feeds_prefix(inp, reads0, log.reads@);
                    assert(loop_end(simple, src, from, inp) == loop_end(simple, src, now, inp));
                    assert(run(src, spent, inp) == ran);
                }
            }
        }
    }
    proof {
        let end = machine_of(*state, *log, *fuel);
        assert forall|inp: Feed| feeds(inp, log.reads@) implies #[trigger] loop_end(
            simple,
            src,
            from,
            inp,
        ) == end by {
            assert(loop_end(simple, src, from, inp) == loop_end(simple, src, end, inp));
        }
    }
}

/// Runs a sequence of instructions, until it ends or fuel runs out.
fn run_series<T: IO>(
    irs: &Vec<IR>,
    state: &mut State,
    io: &mut T,
    log: &mut Transcript,
    fuel: &mut u64,
)
    requires
        old(log).finished,
    ensures
        *final(fuel) <= *old(fuel),
        old(log).reads@.is_prefix_of(final(log).reads@),
        forall|inp: Feed|
            feeds(inp, final(log).reads@) ==> #[trigger] run(
                nodes_of(irs@),
                machine_of(*old(state), *old(log), *old(fuel)),
                inp,
            ) == machine_of(*final(state), *final(log), *final(fuel)),
    decreases irs, 0nat,
{
    let ghost src = nodes_of(irs@);
    let ghost from = machine_of(*state, *log, *fuel);
    let mut i: usize = 0;
    while i < irs.len() && log.finished
        invariant
            i <= irs.len(),
            src == nodes_of(irs@),
            *fuel <= *old(fuel),
            old(log).reads@.is_prefix_of(log.reads@),
            tracks(src, i as int, from, log.reads@, machine_of(*state, *log, *fuel)),
        decreases irs.len() - i,
    {
        let ghost now = machine_of(*state, *log, *fuel);
        let ghost reads0 = log.reads@;
        let ghost n = src[i as int];
        assert(n == irs@[i as int]@);
        match &irs[i] {
            IR::Loop(inner) => {
                proof {
                    crate::ir::lemma_node_of_loop(*inner);
                }
                run_iterations(None, inner, state, io, log, fuel);
            },
            IR::PtrChange(amt) => {
                state.ptr_change(*amt);
            },
            IR::Add(off, amt) => {
                let v = state.read(*off);
                state.write(*off, v.wrapping_add(*amt));
            },
            IR::Putch(off) => {
                let v = state.read(*off);
                io.putchar(v);
                log.writes.push(v);
            },
            IR::Getch(off) => {
                let v = io.getchar();
                log.reads.push(v);
                state.write(*off, v);
            },
            IR::SimpleLoop(delta, inner) => {
                proof {
                    crate::ir::lemma_node_of_simple_loop(*delta, *inner);
                }
                run_iterations(Some(*delta), inner, state, io, log, fuel);
            },
            IR::AddMul(off, amt) => {
                let v = state.read(*off);
                let w = state.read(0);
                state.write(*off, v.wrapping_add(w.wrapping_mul(*amt)));
            },
            IR::MovImm(off, val) => {
                state.write(*off, *val);
            },
        }
        proof {
            let next = machine_of(*state, *log, *fuel);
            assert forall|inp: Feed| feeds(inp, log.reads@) implies #[trigger] run_upto(
                src,
                i + 1,
                from,
                inp,
            ) == next by {
                assert(reads0.is_prefix_of(log.reads@));
                lemma_feeds_prefix(inp, reads0, log.reads@);
                assert(run_upto(src, i as int, from, inp) == now);
                assert(run_upto(src, i + 1, from, inp) == exec_node(n, now, inp));
                match n {
                    Node::Loop(body) => {
                        assert(loop_end(None, body, now, inp) == next);
                    },
                    Node::SimpleLoop(delta, body) => {
                        assert(loop_end(Some(delta), body, now, inp) == next);
                    },
                    Node::Getch(off) => {
                        assert(inp(now.reads) == log.reads@[reads0.len() as int]);
                    },
                    _ => {},
                }
            }
        }
        i += 1;
    }
    proof {
        let end = machine_of(*state, *log, *fuel);
        assert forall|inp: Feed| feeds(inp, log.reads@) implies #[trigger] run(src, from, inp)
            == end by {
            assert(run_upto(src, i as int, from, inp) == end);
            if i < irs.len() {
                lemma_stuck(src, i as int, src.len() as int, from, inp);
            }
        }
    }
}

/// Runs a program on a tape of zeros, reading and writing through `io`.
/// At most `fuel` loop iterations are started.
///
/// The transcript holds the bytes that `io` returned and the bytes handed
/// to it.  For every input stream that begins with the bytes read, the
/// abstract machine reads exactly those bytes and writes exactly the bytes
/// written, and it runs out of fuel exactly when the transcript says that
/// the run did not finish.
pub fn eval_with_io<T: IO>(prog: &IRProgram, io: &mut T, fuel: u64) -> (r: Transcript)
    ensures
        forall|inp: Feed|
            feeds(inp, r.reads@) ==> {
                let end = #[trigger] run(prog@, start(fuel as nat), inp);
                &&& end.reads == r.reads@.len()
                &&& end.output == r.writes@
                &&& end.ok == r.finished
            },
{
    let mut state = State::new();
    let mut log = Transcript { reads: Vec::new(), writes: Vec::new(), finished: true };
    let mut left = fuel;
    assert(machine_of(state, log, left) == start(fuel as nat));
    run_series(&prog.0, &mut state, io, &mut log, &mut left);
    log
}

} // verus!
