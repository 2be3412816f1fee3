//! Parser for the eight-instruction surface language.

use crate::ast::{ASTProgram, Syntax, AST};
use vstd::prelude::*;

verus! {

/// Why a source text is not a program.
#[derive(Debug, PartialEq)]
pub enum Error {
    /// A `[` is never closed.
    UnterminatedLoop,
    /// A `]` closes nothing.
    UnexpectedLoopTermination,
}

/// What reading a run of constructs yields: the constructs and the position
/// after them, or the reason for failure.
pub ghost enum Parsed {
    Done(Seq<Syntax>, int),
    Failed(Error),
}

/// The construct that a character other than a bracket denotes, if any.
pub open spec fn simple_construct(c: char) -> Option<Syntax> {
    if c == '>' {
        Some(Syntax::PtrAdvance)
    } else if c == '<' {
        Some(Syntax::PtrRetreat)
    } else if c == '+' {
        Some(Syntax::Incr)
    } else if c == '-' {
        Some(Syntax::Decr)
    } else if c == '.' {
        Some(Syntax::Putch)
    } else if c == ',' {
        Some(Syntax::Getch)
    } else {
        None
    }
}

/// Puts constructs already read in front of a later result.
pub open spec fn prepend(head: Seq<Syntax>, rest: Parsed) -> Parsed {
    match rest {
        Parsed::Done(tail, end) => Parsed::Done(head + tail, end),
        Parsed::Failed(e) => Parsed::Failed(e),
    }
}

/// Reads constructs from position `pos` on.  Inside a loop the run ends
/// just after the closing `]`, and the end of the text is a failure; outside
/// one the run ends with the text, and a `]` is a failure.  Characters that
/// denote nothing are skipped.
pub open spec fn parse_from(code: Seq<char>, pos: int, in_loop: bool) -> Parsed
    decreases code.len() - pos,
{
    if pos < 0 || pos >= code.len() {
        if in_loop {
            Parsed::Failed(Error::UnterminatedLoop)
        } else {
            Parsed::Done(Seq::empty(), pos)
        }
    } else if code[pos] == ']' {
        if in_loop {
            Parsed::Done(Seq::empty(), pos + 1)
        } else {
            Parsed::Failed(Error::UnexpectedLoopTermination)
        }
    } else if code[pos] == '[' {
        match parse_from(code, pos + 1, true) {
            Parsed::Failed(e) => Parsed::Failed(e),
            Parsed::Done(body, next) => if pos < next <= code.len() {
                prepend(seq![Syntax::Loop(body)], parse_from(code, next, in_loop))
            } else {
                Parsed::Failed(Error::UnterminatedLoop)
            },
        }
    } else {
        match simple_construct(code[pos]) {
            Some(s) => prepend(seq![s], parse_from(code, pos + 1, in_loop)),
            None => parse_from(code, pos + 1, in_loop),
        }
    }
}

/// A finished run ends after its start and within the text.
pub proof fn lemma_parse_from_advances(code: Seq<char>, pos: int, in_loop: bool)
    requires
        0 <= pos <= code.len(),
    ensures
        parse_from(code, pos, in_loop) matches Parsed::Done(_, end) ==> pos <= end <= code.len() && (
        in_loop ==> pos < end),
    decreases code.len() - pos,
{
    if pos < code.len() && code[pos] != ']' {
        if code[pos] == '[' {
            lemma_parse_from_advances(code, pos + 1, true);
            match parse_from(code, pos + 1, true) {
                Parsed::Failed(e) => {},
                Parsed::Done(body, next) => {
                    lemma_parse_from_advances(code, next, in_loop);
                },
            }
        } else {
            lemma_parse_from_advances(code, pos + 1, in_loop);
        }
    }
}

/// How many more `[` than `]` stand among the first `n` characters.
pub open spec fn depth(code: Seq<char>, n: int) -> int
    decreases n,
{
    if n <= 0 {
        0
    } else {
        depth(code, n - 1) + (if code[n - 1] == '[' {
            1int
        } else if code[n - 1] == ']' {
            -1int
        } else {
            0int
        })
    }
}

/// Whether some `]` closes nothing: at some point more `]` than `[` have
/// been read.
pub open spec fn closes_too_much(code: Seq<char>) -> bool {
    exists|n: int| 0 <= n <= code.len() && #[trigger] depth(code, n) < 0
}

/// Whether every `[` is closed and every `]` closes one.
pub open spec fn balanced(code: Seq<char>) -> bool {
    !closes_too_much(code) && depth(code, code.len() as int) == 0
}

/// Whether a character denotes a construct or is a bracket.
pub open spec fn is_instruction(c: char) -> bool {
    simple_construct(c) is Some || c == '[' || c == ']'
}

/// The instruction characters among those from `from` up to `to`, in
/// order.
pub open spec fn instructions(code: Seq<char>, from: int, to: int) -> Seq<char>
    decreases to - from,
{
    if to <= from {
        Seq::empty()
    } else if is_instruction(code[to - 1]) {
        instructions(code, from, to - 1).push(code[to - 1])
    } else {
        instructions(code, from, to - 1)
    }
}

/// The text of one construct.
pub open spec fn unparse_one(s: Syntax) -> Seq<char>
    decreases s, 0nat,
{
    match s {
        Syntax::Loop(body) => seq!['['] + unparse(body) + seq![']'],
        Syntax::PtrAdvance => seq!['>'],
        Syntax::PtrRetreat => seq!['<'],
        Syntax::Incr => seq!['+'],
        Syntax::Decr => seq!['-'],
        Syntax::Putch => seq!['.'],
        Syntax::Getch => seq![','],
    }
}

/// The text of a sequence of constructs.
pub open spec fn unparse(s: Seq<Syntax>) -> Seq<char>
    decreases s, 1nat,
{
    if s.len() == 0 {
        Seq::empty()
    } else {
        unparse(s.drop_last()) + unparse_one(s.last())
    }
}

/// The instruction characters of two adjoining ranges.
proof fn lemma_instructions_split(code: Seq<char>, from: int, mid: int, to: int)
    requires
        from <= mid <= to,
    ensures
        instructions(code, from, to) == instructions(code, from, mid) + instructions(
            code,
            mid,
            to,
        ),
    decreases to - mid,
{
    if to > mid {
        lemma_instructions_split(code, from, mid, to - 1);
        if is_instruction(code[to - 1]) {
            assert(instructions(code, from, to) =~= instructions(code, from, mid) + instructions(
                code,
                mid,
                to,
            ));
        }
    } else {
        assert(instructions(code, from, mid) + Seq::<char>::empty() =~= instructions(
            code,
            from,
            mid,
        ));
    }
}

/// The instruction characters of a range that starts with one.
proof fn lemma_instructions_first(code: Seq<char>, from: int, to: int)
    requires
        0 <= from < to <= code.len(),
    ensures
        instructions(code, from, to) == (if is_instruction(code[from]) {
            seq![code[from]]
        } else {
            Seq::empty()
        }) + instructions(code, from + 1, to),
{
    lemma_instructions_split(code, from, from + 1, to);
    assert(instructions(code, from, from) =~= Seq::empty());
    if is_instruction(code[from]) {
        assert(instructions(code, from, from + 1) =~= seq![code[from]]);
    }
}

/// The text of a concatenation of constructs.
proof fn lemma_unparse_concat(a: Seq<Syntax>, b: Seq<Syntax>)
    ensures
        unparse(a + b) == unparse(a) + unparse(b),
    decreases b.len(),
{
    if b.len() == 0 {
        assert(a + b =~= a);
        assert(unparse(a) + Seq::<char>::empty() =~= unparse(a));
    } else {
        lemma_unparse_concat(a, b.drop_last());
        assert((a + b).drop_last() =~= a + b.drop_last());
        assert((a + b).last() == b.last());
        assert(unparse(a + b) =~= unparse(a) + unparse(b));
    }
}

/// The text of a single construct, as a sequence.
proof fn lemma_unparse_single(s: Syntax)
    ensures
        unparse(seq![s]) == unparse_one(s),
{
    assert(seq![s].drop_last() =~= Seq::<Syntax>::empty());
    assert(seq![s].last() == s);
    assert(unparse(Seq::<Syntax>::empty()) =~= Seq::<char>::empty());
    assert(unparse(seq![s]) == unparse(seq![s].drop_last()) + unparse_one(seq![s].last()));
    assert(unparse(seq![s]) =~= unparse_one(s));
}

/// What a run of constructs read from `pos` says of the brackets after
/// `pos`.
///
/// A finished run inside a loop ends just after the first `]` that closes
/// more than was opened since `pos`; a finished run outside one reaches the
/// end without any `]` closing too much and with nothing left open.  A run
/// fails on a stray `]` only outside a loop, where some `]` closes too much;
/// it fails on an open loop when no `]` closes too much and, outside a loop,
/// something is left open.  The text of what a finished run has read is the
/// instruction characters it passed.
proof fn lemma_parse_from_brackets(code: Seq<char>, pos: int, in_loop: bool)
    requires
        0 <= pos <= code.len(),
    ensures
        match parse_from(code, pos, in_loop) {
            Parsed::Done(s, end) => {
                &&& pos <= end <= code.len()
                &&& forall|n: int| pos <= n < end ==> depth(code, n) >= depth(code, pos)
                &&& in_loop ==> pos < end && depth(code, end) == depth(code, pos) - 1
                &&& !in_loop ==> end == code.len() && depth(code, end) == depth(code, pos)
                &&& unparse(s) + (if in_loop {
                    seq![']']
                } else {
                    Seq::empty()
                }) == instructions(code, pos, end)
            },
            Parsed::Failed(Error::UnexpectedLoopTermination) => {
                &&& !in_loop
                &&& exists|n: int|
                    pos < n <= code.len() && #[trigger] depth(code, n) < depth(code, pos)
            },
            Parsed::Failed(Error::UnterminatedLoop) => {
                &&& forall|n: int| pos <= n <= code.len() ==> depth(code, n) >= depth(code, pos)
                &&& !in_loop ==> depth(code, code.len() as int) > depth(code, pos)
            },
        },
    decreases code.len() - pos,
{
    if pos >= code.len() {
        assert(instructions(code, pos, pos) =~= Seq::empty());
        assert(unparse(Seq::<Syntax>::empty()) + Seq::<char>::empty() =~= Seq::empty());
    } else if code[pos] == ']' {
        assert(depth(code, pos + 1) == depth(code, pos) - 1);
        if in_loop {
            lemma_instructions_first(code, pos, pos + 1);
            assert(instructions(code, pos + 1, pos + 1) =~= Seq::empty());
            assert(unparse(Seq::<Syntax>::empty()) + seq![']'] =~= instructions(
                code,
                pos,
                pos + 1,
            ));
        }
    } else if code[pos] == '[' {
        lemma_parse_from_brackets(code, pos + 1, true);
        lemma_parse_from_advances(code, pos + 1, true);
        assert(depth(code, pos + 1) == depth(code, pos) + 1);
        match parse_from(code, pos + 1, true) {
            Parsed::Failed(e) => {},
            Parsed::Done(body, next) => {
                lemma_parse_from_brackets(code, next, in_loop);
                match parse_from(code, next, in_loop) {
                    Parsed::Done(rest, end) => {
                        let all = seq![Syntax::Loop(body)] + rest;
                        let tail = if in_loop {
                            seq![']']
                        } else {
                            Seq::<char>::empty()
                        };
                        lemma_unparse_concat(seq![Syntax::Loop(body)], rest);
                        lemma_unparse_single(Syntax::Loop(body));
                        lemma_instructions_first(code, pos, end);
                        lemma_instructions_split(code, pos + 1, next, end);
                        assert(unparse(all) + tail =~= seq!['['] + (unparse(body) + seq![']']) + (
                        unparse(rest) + tail));
                    },
                    Parsed::Failed(Error::UnexpectedLoopTermination) => {
                        let n = choose|n: int|
                            next < n <= code.len() && #[trigger] depth(code, n) < depth(
                                code,
                                next,
                            );
                        assert(depth(code, n) < depth(code, pos));
                    },
                    Parsed::Failed(Error::UnterminatedLoop) => {},
                }
            },
        }
    } else {
        lemma_parse_from_brackets(code, pos + 1, in_loop);
        assert(depth(code, pos + 1) == depth(code, pos));
        match parse_from(code, pos + 1, in_loop) {
            Parsed::Done(rest, end) => {
                let tail = if in_loop {
                    seq![']']
                } else {
                    Seq::<char>::empty()
                };
                lemma_parse_from_advances(code, pos + 1, in_loop);
                lemma_instructions_first(code, pos, end);
                match simple_construct(code[pos]) {
                    Some(s) => {
                        lemma_unparse_concat(seq![s], rest);
                        lemma_unparse_single(s);
                        assert(unparse_one(s) =~= seq![code[pos]]);
                        assert(unparse(seq![s] + rest) + tail =~= seq![code[pos]] + (unparse(rest)
                            + tail));
                    },
                    None => {
                        assert(Seq::<char>::empty() + instructions(code, pos + 1, end)
                            =~= instructions(code, pos + 1, end));
                    },
                }
            },
            Parsed::Failed(Error::UnexpectedLoopTermination) => {
                let n = choose|n: int|
                    pos + 1 < n <= code.len() && #[trigger] depth(code, n) < depth(code, pos + 1);
                assert(depth(code, n) < depth(code, pos));
            },
            Parsed::Failed(Error::UnterminatedLoop) => {},
        }
    }
}

/// Reading a whole text succeeds exactly when its brackets are balanced,
/// and then yields the constructs whose text is the instruction characters
/// of the text; it fails on a stray `]` exactly when some `]` closes too
/// much, and on an open loop exactly when none does and a `[` is left open.
pub proof fn lemma_parse_brackets(code: Seq<char>)
    ensures
        parse_from(code, 0, false) is Done <==> balanced(code),
        parse_from(code, 0, false) matches Parsed::Done(s, _) ==> unparse(s) == instructions(
            code,
            0,
            code.len() as int,
        ),
        parse_from(code, 0, false) == Parsed::Failed(Error::UnexpectedLoopTermination)
            <==> closes_too_much(code),
        parse_from(code, 0, false) == Parsed::Failed(Error::UnterminatedLoop) <==> !closes_too_much(
            code,
        ) && depth(code, code.len() as int) > 0,
{
    lemma_parse_from_brackets(code, 0, false);
    match parse_from(code, 0, false) {
        Parsed::Done(s, end) => {
            assert(unparse(s) + Seq::<char>::empty() =~= unparse(s));
        },
        Parsed::Failed(Error::UnexpectedLoopTermination) => {
            let n = choose|n: int| 0 < n <= code.len() && #[trigger] depth(code, n) < depth(code, 0);
            assert(depth(code, n) < 0);
        },
        Parsed::Failed(Error::UnterminatedLoop) => {},
    }
}

/// A reader over the characters of a source text.
pub struct Parser {
    code: Vec<char>,
    off: usize,
}

impl Parser {
    /// Parses a source text.  Succeeds exactly when every `[` is closed and
    /// every `]` closes one.
    pub fn parse(code: &str) -> (r: Result<ASTProgram, Error>)
        ensures
            match r {
                Ok(prog) => parse_from(code@, 0, false) matches Parsed::Done(s, _) && prog@ == s,
                Err(e) => parse_from(code@, 0, false) == Parsed::Failed(e),
            },
            r is Ok <==> balanced(code@),
            r matches Ok(prog) ==> unparse(prog@) == instructions(code@, 0, code@.len() as int),
            r == Err::<ASTProgram, Error>(Error::UnexpectedLoopTermination) <==> closes_too_much(
                code@,
            ),
            r == Err::<ASTProgram, Error>(Error::UnterminatedLoop) <==> !closes_too_much(code@)
                && depth(code@, code@.len() as int) > 0,
    {
        proof {
            lemma_parse_brackets(code@);
        }
        let mut chars: Vec<char> = Vec::new();
        for c in it: code.chars()
            invariant
                chars@ == it.seq().take(it.index() as int),
                it.seq() == code@,
        {
            chars.push(c);
        }
        assert(chars@ =~= code@);
        let mut p = Parser { code: chars, off: 0 };
        match p.parse_inner(false) {
            Ok(asts) => Ok(ASTProgram(asts)),
            Err(e) => Err(e),
        }
    }

    /// Reads constructs from the current position on, to the end of the
    /// text or, inside a loop, to the closing bracket.
    fn parse_inner(&mut self, is_loop: bool) -> (r: Result<Vec<AST>, Error>)
        requires
            old(self).off <= old(self).code.len(),
        ensures
            final(self).code == old(self).code,
            match r {
                Ok(asts) => parse_from(old(self).code@, old(self).off as int, is_loop)
                    == Parsed::Done(crate::ast::syntax_seq(asts@), final(self).off as int),
                Err(e) => parse_from(old(self).code@, old(self).off as int, is_loop)
                    == Parsed::Failed(e),
            },
            final(self).off <= final(self).code.len(),
        decreases old(self).code.len() - old(self).off,
    {
        let ghost start = self.off as int;
        let ghost code = self.code@;
        let mut ret: Vec<AST> = Vec::new();
        while self.off < self.code.len()
            invariant
                self.code@ == code,
                self.code == old(self).code,
                start == old(self).off,
                start <= self.off <= code.len(),
                parse_from(code, start, is_loop) == prepend(
                    crate::ast::syntax_seq(ret@),
                    parse_from(code, self.off as int, is_loop),
                ),
            decreases code.len() - self.off,
        {
            let c = self.code[self.off];
            let ghost here = self.off as int;
            let ghost before = crate::ast::syntax_seq(ret@);
            self.off += 1;
            assert(c == code[here]);
            if c == '[' {
                match self.parse_inner(true) {
                    Ok(body) => {
                        proof {
                            lemma_parse_from_advances(code, here + 1, true);
                            crate::ast::lemma_syntax_of_loop(body);
                            crate::ast::lemma_syntax_seq_push(ret@, AST::Loop(body));
                            assert(before.push(Syntax::Loop(crate::ast::syntax_seq(body@)))
                                =~= before + seq![Syntax::Loop(crate::ast::syntax_seq(body@))]);
                            lemma_prepend_twice(
                                before,
                                seq![Syntax::Loop(crate::ast::syntax_seq(body@))],
                                parse_from(code, self.off as int, is_loop),
                            );
                        }
                        ret.push(AST::Loop(body));
                    },
                    Err(e) => {
                        return Err(e);
                    },
                }
            } else if c == ']' {
                proof {
                    assert(before + Seq::<Syntax>::empty() =~= before);
                }
                return if !is_loop {
                    Err(Error::UnexpectedLoopTermination)
                } else {
                    Ok(ret)
                };
            } else {
                let node = if c == '>' {
                    Some(AST::PtrAdvance)
                } else if c == '<' {
                    Some(AST::PtrRetreat)
                } else if c == '+' {
                    Some(AST::Incr)
                } else if c == '-' {
                    Some(AST::Decr)
                } else if c == '.' {
                    Some(AST::Putch)
                } else if c == ',' {
                    Some(AST::Getch)
                } else {
                    None
                };
                match node {
                    Some(n) => {
                        proof {
                            crate::ast::lemma_syntax_seq_push(ret@, n);
                            assert(before.push(n@) =~= before + seq![n@]);
                            lemma_prepend_twice(
                                before,
                                seq![n@],
                                parse_from(code, self.off as int, is_loop),
                            );
                        }
                        ret.push(n);
                    },
                    None => {},
                }
            }
        }
        proof {
            assert(crate::ast::syntax_seq(ret@) + Seq::<Syntax>::empty()
                =~= crate::ast::syntax_seq(ret@));
        }
        if is_loop {
            Err(Error::UnterminatedLoop)
        } else {
            Ok(ret)
        }
    }
}

/// Prepending in two steps is prepending the concatenation.
pub proof fn lemma_prepend_twice(a: Seq<Syntax>, b: Seq<Syntax>, rest: Parsed)
    ensures
        prepend(a, prepend(b, rest)) == prepend(a + b, rest),
{
    match rest {
        Parsed::Done(tail, end) => {
            assert(a + (b + tail) =~= (a + b) + tail);
        },
        Parsed::Failed(e) => {},
    }
}

} // verus!
