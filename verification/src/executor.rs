//! The execution pass: walks the token sequence with the cursor and runs
//! the program, production by production, without building a tree.
//!
//! Every procedure is specified against `eval_*`, a total spec-level
//! evaluator over the token sequence.  Unexecuted branches are jumped over
//! by the balancing skip scan `skip_scan`; loop bodies are re-entered by
//! repositioning the cursor, with an explicit iteration budget (`fuel`) so
//! that every run is finite.

use vstd::prelude::*;
use crate::parser::{
    env_contains, env_store, env_val, lemma_env_store_props, Fault, FaultKind, ParseTree,
};
use crate::tokenizer::{Lexeme, Token};

verus! {

/// The immutable surroundings of a run: the token sequence and the
/// pre-supplied input values.
pub ghost struct Ctx {
    pub toks: Seq<Lexeme>,
    pub input: Seq<i32>,
}

/// The mutable machine state of a run: cursor position, variable store,
/// input consumed so far, output emitted so far, the identifiers of the
/// most recent identifier list, and the remaining loop budget.
pub ghost struct EState {
    pub pos: int,
    pub env: Seq<(Seq<char>, i32)>,
    pub inpos: int,
    pub out: Seq<Seq<char>>,
    pub ctxs: Seq<Seq<char>>,
    pub fuel: nat,
}

pub open spec fn ctx_of(t: &ParseTree) -> Ctx {
    Ctx { toks: t.toks(), input: t.input@ }
}

pub open spec fn st_of(t: &ParseTree) -> EState {
    EState {
        pos: t.state as int,
        env: t.env(),
        inpos: t.input_pos as int,
        out: t.outs(),
        ctxs: t.ctxs(),
        fuel: t.fuel as nat,
    }
}

pub open spec fn fault_at(k: FaultKind, pos: int) -> Fault {
    Fault { kind: k, at: pos as usize }
}

/// What an execution procedure leaves untouched: the token sequence, the
/// input values, the printing pass's lines, and the nesting depth.
pub open spec fn frames(a: &ParseTree, b: &ParseTree) -> bool {
    &&& b.wf()
    &&& b.tokens == a.tokens
    &&& b.input == a.input
    &&& b.statements == a.statements
    &&& b.current_statement == a.current_statement
    &&& b.depth == a.depth
}

/// The outcome `r` of an execution procedure agrees with the spec-level
/// outcome `ev`, the new state being that of `b`.
pub open spec fn steps_to(r: Result<(), Fault>, ev: Result<EState, Fault>, b: &ParseTree) -> bool {
    match r {
        Ok(()) => ev == Ok::<EState, Fault>(st_of(b)),
        Err(f) => ev == Err::<EState, Fault>(f),
    }
}

/// As `steps_to`, for a procedure that also produces a value.
pub open spec fn steps_to_val<V>(
    r: Result<V, Fault>,
    ev: Result<(EState, V), Fault>,
    b: &ParseTree,
) -> bool {
    match r {
        Ok(v) => ev == Ok::<(EState, V), Fault>((st_of(b), v)),
        Err(f) => ev == Err::<(EState, V), Fault>(f),
    }
}

// ---------------------------------------------------------------------------
// Comparisons
// ---------------------------------------------------------------------------

/// The comparison opcode a token denotes, if it is a comparison operator.
pub open spec fn cmp_of(t: Lexeme) -> Option<u32> {
    match t {
        Lexeme::LogicalEquality => Some(0u32),
        Lexeme::LogicalInequality => Some(1u32),
        Lexeme::LessThan => Some(2u32),
        Lexeme::LessThanEqual => Some(3u32),
        Lexeme::GreaterThan => Some(4u32),
        Lexeme::GreaterThanEqual => Some(5u32),
        _ => None,
    }
}

/// Whether comparison opcode `c` holds of `a` and `b`.
pub open spec fn cmp_holds(c: u32, a: i32, b: i32) -> bool {
    if c == 0 { a == b }
    else if c == 1 { a != b }
    else if c == 2 { a < b }
    else if c == 3 { a <= b }
    else if c == 4 { a > b }
    else { a >= b }
}

// ---------------------------------------------------------------------------
// Spec-level evaluation: operands, terms, expressions, comparisons,
// conditions
// ---------------------------------------------------------------------------

/// An identifier occurrence: record it in the context list, create its
/// binding with value zero if absent, move past it.
pub open spec fn eval_id(c: Ctx, st: EState) -> Result<EState, Fault> {
    if !(0 <= st.pos < c.toks.len()) {
        Err(fault_at(FaultKind::PastEnd, st.pos))
    } else {
        match c.toks[st.pos] {
            Lexeme::Identifier(name) => Ok(
                EState {
                    pos: st.pos + 1,
                    env: if env_contains(st.env, name) {
                        st.env
                    } else {
                        env_store(st.env, name, 0i32)
                    },
                    ctxs: st.ctxs.push(name),
                    ..st
                },
            ),
            _ => Err(fault_at(FaultKind::ExpectedIdentifier, st.pos)),
        }
    }
}

/// An integer occurrence: move past it.
pub open spec fn eval_int(c: Ctx, st: EState) -> Result<EState, Fault> {
    if !(0 <= st.pos < c.toks.len()) {
        Err(fault_at(FaultKind::PastEnd, st.pos))
    } else {
        match c.toks[st.pos] {
            Lexeme::Integer(_) => Ok(EState { pos: st.pos + 1, ..st }),
            _ => Err(fault_at(FaultKind::ExpectedOperand, st.pos)),
        }
    }
}

/// An operand: an identifier (read leniently, creating the binding if
/// absent), an integer literal, or a parenthesized expression.
pub open spec fn eval_op(c: Ctx, st: EState) -> Result<(EState, i32), Fault>
    decreases c.toks.len() - st.pos, 0int,
{
    if !(0 <= st.pos < c.toks.len()) {
        Err(fault_at(FaultKind::PastEnd, st.pos))
    } else {
        match c.toks[st.pos] {
            Lexeme::LeftParen => {
                match eval_exp(c, EState { pos: st.pos + 1, ..st }) {
                    Ok((st1, v)) => {
                        if 0 <= st1.pos < c.toks.len() && c.toks[st1.pos] == Lexeme::RightParen {
                            Ok((EState { pos: st1.pos + 1, ..st1 }, v))
                        } else {
                            Err(fault_at(FaultKind::ExpectedRightParen, st1.pos))
                        }
                    },
                    Err(f) => Err(f),
                }
            },
            Lexeme::Identifier(name) => {
                let env1 = if env_contains(st.env, name) {
                    st.env
                } else {
                    env_store(st.env, name, 0i32)
                };
                Ok(
                    (
                        EState { pos: st.pos + 1, env: env1, ctxs: st.ctxs.push(name), ..st },
                        env_val(env1, name),
                    ),
                )
            },
            Lexeme::Integer(v) => Ok((EState { pos: st.pos + 1, ..st }, v as i32)),
            _ => Err(fault_at(FaultKind::ExpectedOperand, st.pos)),
        }
    }
}

/// A term: an operand, optionally multiplied (right-associatively, with
/// wraparound) by a whole further term.
pub open spec fn eval_trm(c: Ctx, st: EState) -> Result<(EState, i32), Fault>
    decreases c.toks.len() - st.pos, 1int,
{
    match eval_op(c, st) {
        Ok((st1, a)) => {
            if 0 <= st1.pos < c.toks.len() && c.toks[st1.pos] == Lexeme::Multiplication {
                if st.pos < st1.pos + 1 <= c.toks.len() {
                    match eval_trm(c, EState { pos: st1.pos + 1, ..st1 }) {
                        Ok((st2, b)) => Ok((st2, vstd::wrapping::i32_specs::wrapping_mul(a, b))),
                        Err(f) => Err(f),
                    }
                } else {
                    Err(fault_at(FaultKind::PastEnd, st1.pos))
                }
            } else {
                Ok((st1, a))
            }
        },
        Err(f) => Err(f),
    }
}

/// An expression: a term, optionally extended (right-associatively, with
/// wraparound) by `+` or `-` and a whole further expression.
pub open spec fn eval_exp(c: Ctx, st: EState) -> Result<(EState, i32), Fault>
    decreases c.toks.len() - st.pos, 2int,
{
    match eval_trm(c, st) {
        Ok((st1, a)) => {
            if 0 <= st1.pos < c.toks.len() && c.toks[st1.pos] == Lexeme::Addition {
                if st.pos < st1.pos + 1 <= c.toks.len() {
                    match eval_exp(c, EState { pos: st1.pos + 1, ..st1 }) {
                        Ok((st2, b)) => Ok((st2, vstd::wrapping::i32_specs::wrapping_add(a, b))),
                        Err(f) => Err(f),
                    }
                } else {
                    Err(fault_at(FaultKind::PastEnd, st1.pos))
                }
            } else if 0 <= st1.pos < c.toks.len() && c.toks[st1.pos] == Lexeme::Subtraction {
                if st.pos < st1.pos + 1 <= c.toks.len() {
                    match eval_exp(c, EState { pos: st1.pos + 1, ..st1 }) {
                        Ok((st2, b)) => Ok((st2, vstd::wrapping::i32_specs::wrapping_sub(a, b))),
                        Err(f) => Err(f),
                    }
                } else {
                    Err(fault_at(FaultKind::PastEnd, st1.pos))
                }
            } else {
                Ok((st1, a))
            }
        },
        Err(f) => Err(f),
    }
}

/// A comparison: `( operand comp-op operand )`, both operands evaluated.
pub open spec fn eval_comp(c: Ctx, st: EState) -> Result<(EState, bool), Fault>
    decreases c.toks.len() - st.pos, 3int,
{
    if !(0 <= st.pos < c.toks.len()) {
        Err(fault_at(FaultKind::PastEnd, st.pos))
    } else if !(c.toks[st.pos] == Lexeme::LeftParen) {
        Err(fault_at(FaultKind::ExpectedLeftParen, st.pos))
    } else {
        match eval_op(c, EState { pos: st.pos + 1, ..st }) {
            Ok((st1, a)) => {
                if !(0 <= st1.pos < c.toks.len()) {
                    Err(fault_at(FaultKind::PastEnd, st1.pos))
                } else {
                    match cmp_of(c.toks[st1.pos]) {
                        Some(cmp) => {
                            if st.pos < st1.pos + 1 <= c.toks.len() {
                                match eval_op(c, EState { pos: st1.pos + 1, ..st1 }) {
                                    Ok((st2, b)) => {
                                        if 0 <= st2.pos < c.toks.len() && c.toks[st2.pos]
                                            == Lexeme::RightParen {
                                            Ok(
                                                (
                                                    EState { pos: st2.pos + 1, ..st2 },
                                                    cmp_holds(cmp, a, b),
                                                ),
                                            )
                                        } else {
                                            Err(fault_at(FaultKind::ExpectedRightParen, st2.pos))
                                        }
                                    },
                                    Err(f) => Err(f),
                                }
                            } else {
                                Err(fault_at(FaultKind::PastEnd, st1.pos))
                            }
                        },
                        None => Err(fault_at(FaultKind::ExpectedComparison, st1.pos)),
                    }
                }
            },
            Err(f) => Err(f),
        }
    }
}

/// A condition: a comparison, a negated comparison, or a bracketed pair of
/// conditions under `&&` or `||`.  Both sides are always evaluated; there
/// is no short circuit.
pub open spec fn eval_cond(c: Ctx, st: EState) -> Result<(EState, bool), Fault>
    decreases c.toks.len() - st.pos, 4int,
{
    if !(0 <= st.pos < c.toks.len()) {
        Err(fault_at(FaultKind::PastEnd, st.pos))
    } else if c.toks[st.pos] == Lexeme::LeftSquare {
        match eval_cond(c, EState { pos: st.pos + 1, ..st }) {
            Ok((st1, r1)) => {
                if !(0 <= st1.pos < c.toks.len()) {
                    Err(fault_at(FaultKind::PastEnd, st1.pos))
                } else if c.toks[st1.pos] == Lexeme::LogicalAnd || c.toks[st1.pos]
                    == Lexeme::LogicalOr {
                    let conj = c.toks[st1.pos] == Lexeme::LogicalAnd;
                    if st.pos < st1.pos + 1 <= c.toks.len() {
                        match eval_cond(c, EState { pos: st1.pos + 1, ..st1 }) {
                            Ok((st2, r2)) => {
                                if 0 <= st2.pos < c.toks.len() && c.toks[st2.pos]
                                    == Lexeme::RightSquare {
                                    Ok(
                                        (
                                            EState { pos: st2.pos + 1, ..st2 },
                                            if conj {
                                                r1 && r2
                                            } else {
                                                r1 || r2
                                            },
                                        ),
                                    )
                                } else {
                                    Err(fault_at(FaultKind::ExpectedRightSquare, st2.pos))
                                }
                            },
                            Err(f) => Err(f),
                        }
                    } else {
                        Err(fault_at(FaultKind::PastEnd, st1.pos))
                    }
                } else {
                    Err(fault_at(FaultKind::ExpectedConnective, st1.pos))
                }
            },
            Err(f) => Err(f),
        }
    } else if c.toks[st.pos] == Lexeme::Exclamation {
        match eval_comp(c, EState { pos: st.pos + 1, ..st }) {
            Ok((st1, r)) => Ok((st1, !r)),
            Err(f) => Err(f),
        }
    } else {
        eval_comp(c, st)
    }
}

// ---------------------------------------------------------------------------
// Progress: successful evaluation moves the cursor strictly forward, stays
// inside the sequence, and leaves input, output and fuel untouched
// ---------------------------------------------------------------------------

pub proof fn lemma_eval_op_progress(c: Ctx, st: EState)
    ensures
        (match eval_op(c, st) {
            Ok((st1, _)) => st.pos < st1.pos <= c.toks.len() && st1.fuel == st.fuel && st1.inpos
                == st.inpos && st1.out == st.out,
            Err(_) => true,
        }),
    decreases c.toks.len() - st.pos, 0int,
{
    if 0 <= st.pos < c.toks.len() {
        match c.toks[st.pos] {
            Lexeme::LeftParen => {
                lemma_eval_exp_progress(c, EState { pos: st.pos + 1, ..st });
            },
            _ => {},
        }
    }
}

pub proof fn lemma_eval_trm_progress(c: Ctx, st: EState)
    ensures
        (match eval_trm(c, st) {
            Ok((st1, _)) => st.pos < st1.pos <= c.toks.len() && st1.fuel == st.fuel && st1.inpos
                == st.inpos && st1.out == st.out,
            Err(_) => true,
        }),
    decreases c.toks.len() - st.pos, 1int,
{
    lemma_eval_op_progress(c, st);
    match eval_op(c, st) {
        Ok((st1, _)) => {
            if 0 <= st1.pos < c.toks.len() && c.toks[st1.pos] == Lexeme::Multiplication {
                if st.pos < st1.pos + 1 <= c.toks.len() {
                    lemma_eval_trm_progress(c, EState { pos: st1.pos + 1, ..st1 });
                }
            }
        },
        Err(_) => {},
    }
}

pub proof fn lemma_eval_exp_progress(c: Ctx, st: EState)
    ensures
        (match eval_exp(c, st) {
            Ok((st1, _)) => st.pos < st1.pos <= c.toks.len() && st1.fuel == st.fuel && st1.inpos
                == st.inpos && st1.out == st.out,
            Err(_) => true,
        }),
    decreases c.toks.len() - st.pos, 2int,
{
    lemma_eval_trm_progress(c, st);
    match eval_trm(c, st) {
        Ok((st1, _)) => {
            if 0 <= st1.pos < c.toks.len() && c.toks[st1.pos] == Lexeme::Addition {
                if st.pos < st1.pos + 1 <= c.toks.len() {
                    lemma_eval_exp_progress(c, EState { pos: st1.pos + 1, ..st1 });
                }
            } else if 0 <= st1.pos < c.toks.len() && c.toks[st1.pos] == Lexeme::Subtraction {
                if st.pos < st1.pos + 1 <= c.toks.len() {
                    lemma_eval_exp_progress(c, EState { pos: st1.pos + 1, ..st1 });
                }
            }
        },
        Err(_) => {},
    }
}

pub proof fn lemma_eval_comp_progress(c: Ctx, st: EState)
    ensures
        (match eval_comp(c, st) {
            Ok((st1, _)) => st.pos < st1.pos <= c.toks.len() && st1.fuel == st.fuel && st1.inpos
                == st.inpos && st1.out == st.out,
            Err(_) => true,
        }),
    decreases c.toks.len() - st.pos, 3int,
{
    if 0 <= st.pos < c.toks.len() && c.toks[st.pos] == Lexeme::LeftParen {
        lemma_eval_op_progress(c, EState { pos: st.pos + 1, ..st });
        match eval_op(c, EState { pos: st.pos + 1, ..st }) {
            Ok((st1, _)) => {
                if 0 <= st1.pos < c.toks.len() && cmp_of(c.toks[st1.pos]) is Some {
                    if st.pos < st1.pos + 1 <= c.toks.len() {
                        lemma_eval_op_progress(c, EState { pos: st1.pos + 1, ..st1 });
                    }
                }
            },
            Err(_) => {},
        }
    }
}

pub proof fn lemma_eval_cond_progress(c: Ctx, st: EState)
    ensures
        (match eval_cond(c, st) {
            Ok((st1, _)) => st.pos < st1.pos <= c.toks.len() && st1.fuel == st.fuel && st1.inpos
                == st.inpos && st1.out == st.out,
            Err(_) => true,
        }),
    decreases c.toks.len() - st.pos, 4int,
{
    if 0 <= st.pos < c.toks.len() {
        if c.toks[st.pos] == Lexeme::LeftSquare {
            lemma_eval_cond_progress(c, EState { pos: st.pos + 1, ..st });
            match eval_cond(c, EState { pos: st.pos + 1, ..st }) {
                Ok((st1, _)) => {
                    if 0 <= st1.pos < c.toks.len() && (c.toks[st1.pos] == Lexeme::LogicalAnd
                        || c.toks[st1.pos] == Lexeme::LogicalOr) {
                        if st.pos < st1.pos + 1 <= c.toks.len() {
                            lemma_eval_cond_progress(c, EState { pos: st1.pos + 1, ..st1 });
                        }
                    }
                },
                Err(_) => {},
            }
        } else if c.toks[st.pos] == Lexeme::Exclamation {
            lemma_eval_comp_progress(c, EState { pos: st.pos + 1, ..st });
        } else {
            lemma_eval_comp_progress(c, st);
        }
    }
}

// ---------------------------------------------------------------------------
// Spec-level evaluation: identifier lists, declarations, the balancing
// skip scan, and the simple statements
// ---------------------------------------------------------------------------

/// An identifier list: one identifier, or one followed by a comma and a
/// whole further list.
pub open spec fn eval_id_list(c: Ctx, st: EState) -> Result<EState, Fault>
    decreases c.toks.len() - st.pos,
{
    match eval_id(c, st) {
        Ok(st1) => {
            if 0 <= st1.pos < c.toks.len() && c.toks[st1.pos] == Lexeme::Comma {
                if st.pos < st1.pos + 1 <= c.toks.len() {
                    eval_id_list(c, EState { pos: st1.pos + 1, ..st1 })
                } else {
                    Err(fault_at(FaultKind::PastEnd, st1.pos))
                }
            } else {
                Ok(st1)
            }
        },
        Err(f) => Err(f),
    }
}

/// One declaration: `int` followed by an identifier list and a semicolon.
pub open spec fn eval_decl(c: Ctx, st: EState) -> Result<EState, Fault> {
    if !(0 <= st.pos < c.toks.len()) {
        Err(fault_at(FaultKind::PastEnd, st.pos))
    } else if !(c.toks[st.pos] == Lexeme::Int) {
        Err(fault_at(FaultKind::ExpectedInt, st.pos))
    } else {
        match eval_id_list(c, EState { pos: st.pos + 1, ..st }) {
            Ok(st1) => {
                if !(0 <= st1.pos < c.toks.len()) {
                    Err(fault_at(FaultKind::PastEnd, st1.pos))
                } else if c.toks[st1.pos] == Lexeme::Semicolon {
                    Ok(EState { pos: st1.pos + 1, ..st1 })
                } else {
                    Err(fault_at(FaultKind::ExpectedSemicolon, st1.pos))
                }
            },
            Err(f) => Err(f),
        }
    }
}

/// A declaration sequence: declarations repeat while the next token is
/// `int`.
pub open spec fn eval_decl_seq(c: Ctx, st: EState) -> Result<EState, Fault>
    decreases c.toks.len() - st.pos,
{
    match eval_decl(c, st) {
        Ok(st1) => {
            if 0 <= st1.pos < c.toks.len() && c.toks[st1.pos] == Lexeme::Int {
                if st.pos < st1.pos <= c.toks.len() {
                    eval_decl_seq(c, st1)
                } else {
                    Err(fault_at(FaultKind::PastEnd, st1.pos))
                }
            } else {
                Ok(st1)
            }
        },
        Err(f) => Err(f),
    }
}

/// The balancing skip scan: from `p`, the position of the first `end` (or,
/// when `stop_else` is set, `else`) seen while the nesting counter is zero.
/// Each `if` or `while` passed raises the counter, each nested `end` lowers
/// it.
pub open spec fn skip_scan(toks: Seq<Lexeme>, p: int, stop_else: bool, count: nat) -> Result<
    int,
    Fault,
>
    decreases toks.len() - p,
{
    if !(0 <= p < toks.len()) {
        Err(Fault { kind: FaultKind::PastEnd, at: p as usize })
    } else if (toks[p] == Lexeme::End || (stop_else && toks[p] == Lexeme::Else)) && count == 0 {
        Ok(p)
    } else {
        let count2: nat = if toks[p] == Lexeme::If || toks[p] == Lexeme::While {
            count + 1
        } else if toks[p] == Lexeme::End {
            (count - 1) as nat
        } else {
            count
        };
        skip_scan(toks, p + 1, stop_else, count2)
    }
}

pub proof fn lemma_skip_scan_in_range(toks: Seq<Lexeme>, p: int, stop_else: bool, count: nat)
    ensures
        (match skip_scan(toks, p, stop_else, count) {
            Ok(q) => p <= q < toks.len() && (toks[q] == Lexeme::End || (stop_else && toks[q]
                == Lexeme::Else)),
            Err(_) => true,
        }),
    decreases toks.len() - p,
{
    if 0 <= p < toks.len() && !((toks[p] == Lexeme::End || (stop_else && toks[p] == Lexeme::Else))
        && count == 0) {
        let count2: nat = if toks[p] == Lexeme::If || toks[p] == Lexeme::While {
            count + 1
        } else if toks[p] == Lexeme::End {
            (count - 1) as nat
        } else {
            count
        };
        lemma_skip_scan_in_range(toks, p + 1, stop_else, count2);
    }
}

/// Reading for an identifier list: bind each name, in order, to the next
/// pre-supplied input value; fails when the input runs out.
pub open spec fn read_ids(
    input: Seq<i32>,
    names: Seq<Seq<char>>,
    env: Seq<(Seq<char>, i32)>,
    inpos: int,
) -> Result<(Seq<(Seq<char>, i32)>, int), ()>
    decreases names.len(),
{
    if names.len() == 0 {
        Ok((env, inpos))
    } else if 0 <= inpos < input.len() {
        read_ids(input, names.drop_first(), env_store(env, names[0], input[inpos]), inpos + 1)
    } else {
        Err(())
    }
}

/// The line a `write` statement emits for one variable.
pub open spec fn out_line(name: Seq<char>, v: i32) -> Seq<char> {
    name + " = "@ + crate::decimal::int_chars(v as int)
}

/// The lines a `write` statement emits for an identifier list, in order.
pub open spec fn write_lines(names: Seq<Seq<char>>, env: Seq<(Seq<char>, i32)>) -> Seq<Seq<char>>
    decreases names.len(),
{
    if names.len() == 0 {
        Seq::empty()
    } else {
        seq![out_line(names[0], env_val(env, names[0]))] + write_lines(names.drop_first(), env)
    }
}

pub proof fn lemma_write_lines_snoc(
    names: Seq<Seq<char>>,
    x: Seq<char>,
    env: Seq<(Seq<char>, i32)>,
)
    ensures
        write_lines(names.push(x), env) == write_lines(names, env) + seq![
            out_line(x, env_val(env, x)),
        ],
    decreases names.len(),
{
    if names.len() == 0 {
        assert(names.push(x).drop_first() =~= Seq::<Seq<char>>::empty());
        assert(names.push(x)[0] == x);
        assert(write_lines(Seq::<Seq<char>>::empty(), env) =~= Seq::<Seq<char>>::empty());
        assert(write_lines(names.push(x), env) =~= write_lines(names, env) + seq![
            out_line(x, env_val(env, x)),
        ]);
    } else {
        let tail = names.drop_first();
        let head = seq![out_line(names[0], env_val(env, names[0]))];
        let last = seq![out_line(x, env_val(env, x))];
        assert(names.push(x).drop_first() =~= tail.push(x));
        assert(names.push(x)[0] == names[0]);
        lemma_write_lines_snoc(tail, x, env);
        assert(write_lines(names.push(x), env) == head + (write_lines(tail, env) + last));
        assert(head + (write_lines(tail, env) + last) =~= (head + write_lines(tail, env)) + last);
        assert(write_lines(names, env) == head + write_lines(tail, env));
    }
}

/// A `read` statement: `read`, an identifier list, then one input value
/// bound to each listed name, then a semicolon.
pub open spec fn eval_in(c: Ctx, st: EState) -> Result<EState, Fault> {
    match eval_id_list(c, EState { pos: st.pos + 1, ctxs: Seq::empty(), ..st }) {
        Ok(st1) => {
            match read_ids(c.input, st1.ctxs, st1.env, st1.inpos) {
                Ok((env2, inpos2)) => {
                    if !(0 <= st1.pos < c.toks.len()) {
                        Err(fault_at(FaultKind::PastEnd, st1.pos))
                    } else if c.toks[st1.pos] == Lexeme::Semicolon {
                        Ok(EState { pos: st1.pos + 1, env: env2, inpos: inpos2, ..st1 })
                    } else {
                        Err(fault_at(FaultKind::ExpectedSemicolon, st1.pos))
                    }
                },
                Err(()) => Err(fault_at(FaultKind::InputExhausted, st1.pos)),
            }
        },
        Err(f) => Err(f),
    }
}

/// A `write` statement: `write`, an identifier list, one emitted line per
/// listed name, then a semicolon.
pub open spec fn eval_out(c: Ctx, st: EState) -> Result<EState, Fault> {
    match eval_id_list(c, EState { pos: st.pos + 1, ctxs: Seq::empty(), ..st }) {
        Ok(st1) => {
            let out2 = st1.out + write_lines(st1.ctxs, st1.env);
            if !(0 <= st1.pos < c.toks.len()) {
                Err(fault_at(FaultKind::PastEnd, st1.pos))
            } else if c.toks[st1.pos] == Lexeme::Semicolon {
                Ok(EState { pos: st1.pos + 1, out: out2, ..st1 })
            } else {
                Err(fault_at(FaultKind::ExpectedSemicolon, st1.pos))
            }
        },
        Err(f) => Err(f),
    }
}

/// An assignment: the target identifier, `=`, an expression, a semicolon;
/// the evaluated value is bound to the target.
pub open spec fn eval_assign(c: Ctx, st: EState) -> Result<EState, Fault> {
    if !(0 <= st.pos < c.toks.len()) {
        Err(fault_at(FaultKind::PastEnd, st.pos))
    } else {
        match c.toks[st.pos] {
            Lexeme::Identifier(name) => {
                match eval_id(c, EState { ctxs: Seq::empty(), ..st }) {
                    Ok(st1) => {
                        if !(0 <= st1.pos < c.toks.len()) {
                            Err(fault_at(FaultKind::PastEnd, st1.pos))
                        } else if !(c.toks[st1.pos] == Lexeme::Assignment) {
                            Err(fault_at(FaultKind::ExpectedAssign, st1.pos))
                        } else {
                            match eval_exp(c, EState { pos: st1.pos + 1, ..st1 }) {
                                Ok((st2, v)) => {
                                    let env2 = env_store(st2.env, name, v);
                                    if !(0 <= st2.pos < c.toks.len()) {
                                        Err(fault_at(FaultKind::PastEnd, st2.pos))
                                    } else if c.toks[st2.pos] == Lexeme::Semicolon {
                                        Ok(EState { pos: st2.pos + 1, env: env2, ..st2 })
                                    } else {
                                        Err(fault_at(FaultKind::ExpectedSemicolon, st2.pos))
                                    }
                                },
                                Err(f) => Err(f),
                            }
                        }
                    },
                    Err(f) => Err(f),
                }
            },
            _ => Err(fault_at(FaultKind::ExpectedIdentifier, st.pos)),
        }
    }
}

pub proof fn lemma_eval_id_list_progress(c: Ctx, st: EState)
    ensures
        (match eval_id_list(c, st) {
            Ok(st1) => st.pos < st1.pos <= c.toks.len() && st1.fuel == st.fuel && st1.inpos
                == st.inpos && st1.out == st.out,
            Err(_) => true,
        }),
    decreases c.toks.len() - st.pos,
{
    match eval_id(c, st) {
        Ok(st1) => {
            if 0 <= st1.pos < c.toks.len() && c.toks[st1.pos] == Lexeme::Comma {
                if st.pos < st1.pos + 1 <= c.toks.len() {
                    lemma_eval_id_list_progress(c, EState { pos: st1.pos + 1, ..st1 });
                }
            }
        },
        Err(_) => {},
    }
}

pub proof fn lemma_eval_decl_progress(c: Ctx, st: EState)
    ensures
        (match eval_decl(c, st) {
            Ok(st1) => st.pos < st1.pos <= c.toks.len() && st1.fuel == st.fuel && st1.inpos
                == st.inpos && st1.out == st.out,
            Err(_) => true,
        }),
{
    if 0 <= st.pos < c.toks.len() && c.toks[st.pos] == Lexeme::Int {
        lemma_eval_id_list_progress(c, EState { pos: st.pos + 1, ..st });
    }
}

pub proof fn lemma_eval_in_progress(c: Ctx, st: EState)
    ensures
        (match eval_in(c, st) {
            Ok(st1) => st.pos < st1.pos <= c.toks.len() && st1.fuel == st.fuel,
            Err(_) => true,
        }),
{
    lemma_eval_id_list_progress(c, EState { pos: st.pos + 1, ctxs: Seq::empty(), ..st });
}

pub proof fn lemma_eval_out_progress(c: Ctx, st: EState)
    ensures
        (match eval_out(c, st) {
            Ok(st1) => st.pos < st1.pos <= c.toks.len() && st1.fuel == st.fuel,
            Err(_) => true,
        }),
{
    lemma_eval_id_list_progress(c, EState { pos: st.pos + 1, ctxs: Seq::empty(), ..st });
}

pub proof fn lemma_eval_assign_progress(c: Ctx, st: EState)
    ensures
        (match eval_assign(c, st) {
            Ok(st1) => st.pos < st1.pos <= c.toks.len() && st1.fuel == st.fuel && st1.inpos
                == st.inpos && st1.out == st.out,
            Err(_) => true,
        }),
{
    if 0 <= st.pos < c.toks.len() && c.toks[st.pos] is Identifier {
        match eval_id(c, EState { ctxs: Seq::empty(), ..st }) {
            Ok(st1) => {
                if 0 <= st1.pos < c.toks.len() && c.toks[st1.pos] == Lexeme::Assignment {
                    lemma_eval_exp_progress(c, EState { pos: st1.pos + 1, ..st1 });
                }
            },
            Err(_) => {},
        }
    }
}

// ---------------------------------------------------------------------------
// Spec-level evaluation: statement sequences, conditionals, loops, and the
// whole program
// ---------------------------------------------------------------------------

/// Consuming the closing `end ;` of a construct: the cursor stands on the
/// `end` at position `p`; the rest of the state is that of `st`.
pub open spec fn end_semi(c: Ctx, p: int, st: EState) -> Result<EState, Fault> {
    if !(0 <= p + 1 < c.toks.len()) {
        Err(fault_at(FaultKind::PastEnd, p + 1))
    } else if c.toks[p + 1] == Lexeme::Semicolon {
        Ok(EState { pos: p + 2, ..st })
    } else {
        Err(fault_at(FaultKind::ExpectedSemicolon, p + 1))
    }
}

/// An `if` statement: evaluate the condition fully, execute one branch and
/// jump over the other with the balancing skip scan, then consume `end ;`.
pub open spec fn eval_if(c: Ctx, st: EState) -> Result<EState, Fault>
    decreases st.fuel, c.toks.len() - st.pos, 0int,
{
    match eval_cond(c, EState { pos: st.pos + 1, ..st }) {
        Ok((st1, b)) => {
            if !(0 <= st1.pos < c.toks.len()) {
                Err(fault_at(FaultKind::PastEnd, st1.pos))
            } else if !(c.toks[st1.pos] == Lexeme::Then) {
                Err(fault_at(FaultKind::ExpectedThen, st1.pos))
            } else {
                let body = st1.pos + 1;
                if b {
                    if st.pos < body <= c.toks.len() && st1.fuel <= st.fuel {
                        match eval_stmt_seq(c, EState { pos: body, ..st1 }) {
                            Ok(st2) => {
                                match skip_scan(c.toks, st2.pos, false, 0) {
                                    Ok(p) => end_semi(c, p, st2),
                                    Err(f) => Err(f),
                                }
                            },
                            Err(f) => Err(f),
                        }
                    } else {
                        Err(fault_at(FaultKind::PastEnd, st1.pos))
                    }
                } else {
                    match skip_scan(c.toks, body, true, 0) {
                        Ok(p) => {
                            if c.toks[p] == Lexeme::End {
                                end_semi(c, p, st1)
                            } else {
                                // the skip stopped on the `else`: execute its branch
                                if st.pos < p + 1 <= c.toks.len() && st1.fuel <= st.fuel {
                                    match eval_stmt_seq(c, EState { pos: p + 1, ..st1 }) {
                                        Ok(st2) => {
                                            if !(0 <= st2.pos < c.toks.len()) {
                                                Err(fault_at(FaultKind::PastEnd, st2.pos))
                                            } else if c.toks[st2.pos] == Lexeme::End {
                                                end_semi(c, st2.pos, st2)
                                            } else {
                                                Err(fault_at(FaultKind::ExpectedEnd, st2.pos))
                                            }
                                        },
                                        Err(f) => Err(f),
                                    }
                                } else {
                                    Err(fault_at(FaultKind::PastEnd, p))
                                }
                            }
                        },
                        Err(f) => Err(f),
                    }
                }
            }
        },
        Err(f) => Err(f),
    }
}

/// A `while` statement: evaluate the condition; when true, run the body
/// and re-enter the whole construct from its recorded start with one unit
/// of fuel spent; when false, jump over the body and consume `end ;`.
pub open spec fn eval_while(c: Ctx, st: EState) -> Result<EState, Fault>
    decreases st.fuel, c.toks.len() - st.pos, 0int,
{
    let start = st.pos;
    match eval_cond(c, EState { pos: st.pos + 1, ..st }) {
        Ok((st1, b)) => {
            if !(0 <= st1.pos < c.toks.len()) {
                Err(fault_at(FaultKind::PastEnd, st1.pos))
            } else if !(c.toks[st1.pos] == Lexeme::Loop) {
                Err(fault_at(FaultKind::ExpectedLoop, st1.pos))
            } else {
                let body = st1.pos + 1;
                if b {
                    if st1.fuel == 0 {
                        Err(fault_at(FaultKind::FuelExhausted, body))
                    } else {
                        if st.pos < body <= c.toks.len() && st1.fuel <= st.fuel {
                            let stb = EState { pos: body, fuel: (st1.fuel - 1) as nat, ..st1 };
                            match eval_stmt_seq(c, stb) {
                                Ok(st2) => {
                                    if st2.fuel < st.fuel {
                                        eval_while(c, EState { pos: start, ..st2 })
                                    } else {
                                        Err(fault_at(FaultKind::FuelExhausted, st2.pos))
                                    }
                                },
                                Err(f) => Err(f),
                            }
                        } else {
                            Err(fault_at(FaultKind::PastEnd, st1.pos))
                        }
                    }
                } else {
                    match skip_scan(c.toks, body, false, 0) {
                        Ok(p) => end_semi(c, p, st1),
                        Err(f) => Err(f),
                    }
                }
            }
        },
        Err(f) => Err(f),
    }
}

/// A statement sequence: statements repeat while the next token begins
/// one; a token that begins no statement ends the sequence without error.
pub open spec fn eval_stmt_seq(c: Ctx, st: EState) -> Result<EState, Fault>
    decreases st.fuel, c.toks.len() - st.pos, 1int,
{
    if !(0 <= st.pos < c.toks.len()) {
        Err(fault_at(FaultKind::PastEnd, st.pos))
    } else {
        let step: Option<Result<EState, Fault>> = match c.toks[st.pos] {
            Lexeme::Read => Some(eval_in(c, st)),
            Lexeme::Write => Some(eval_out(c, st)),
            Lexeme::If => Some(eval_if(c, st)),
            Lexeme::While => Some(eval_while(c, st)),
            Lexeme::Identifier(_) => Some(eval_assign(c, st)),
            _ => None,
        };
        match step {
            None => Ok(st),
            Some(Ok(st1)) => {
                if st1.fuel < st.fuel || (st1.fuel == st.fuel && st.pos < st1.pos
                    && st1.pos <= c.toks.len()) {
                    eval_stmt_seq(c, st1)
                } else {
                    Err(fault_at(FaultKind::PastEnd, st1.pos))
                }
            },
            Some(Err(f)) => Err(f),
        }
    }
}

/// A whole program: `program`, the declarations, `begin`, the statements,
/// `end`.
pub open spec fn eval_prog(c: Ctx, st: EState) -> Result<EState, Fault> {
    if !(0 <= st.pos < c.toks.len()) {
        Err(fault_at(FaultKind::PastEnd, st.pos))
    } else if !(c.toks[st.pos] == Lexeme::Program) {
        Err(fault_at(FaultKind::ExpectedProgram, st.pos))
    } else {
        match eval_decl_seq(c, EState { pos: st.pos + 1, ..st }) {
            Ok(st1) => {
                if !(0 <= st1.pos < c.toks.len()) {
                    Err(fault_at(FaultKind::PastEnd, st1.pos))
                } else if !(c.toks[st1.pos] == Lexeme::Begin) {
                    Err(fault_at(FaultKind::ExpectedBegin, st1.pos))
                } else {
                    match eval_stmt_seq(c, EState { pos: st1.pos + 1, ..st1 }) {
                        Ok(st2) => {
                            if !(0 <= st2.pos < c.toks.len()) {
                                Err(fault_at(FaultKind::PastEnd, st2.pos))
                            } else if c.toks[st2.pos] == Lexeme::End {
                                Ok(st2)
                            } else {
                                Err(fault_at(FaultKind::ExpectedEnd, st2.pos))
                            }
                        },
                        Err(f) => Err(f),
                    }
                }
            },
            Err(f) => Err(f),
        }
    }
}

/// The machine state a fresh run starts from.
pub open spec fn init_state(fuel: u64) -> EState {
    EState {
        pos: 0,
        env: Seq::empty(),
        inpos: 0,
        out: Seq::empty(),
        ctxs: Seq::empty(),
        fuel: fuel as nat,
    }
}

pub proof fn lemma_eval_if_progress(c: Ctx, st: EState)
    ensures
        (match eval_if(c, st) {
            Ok(st1) => st.pos < st1.pos <= c.toks.len() && st1.fuel <= st.fuel,
            Err(_) => true,
        }),
    decreases st.fuel, c.toks.len() - st.pos, 0int,
{
    lemma_eval_cond_progress(c, EState { pos: st.pos + 1, ..st });
    match eval_cond(c, EState { pos: st.pos + 1, ..st }) {
        Ok((st1, b)) => {
            if 0 <= st1.pos < c.toks.len() && c.toks[st1.pos] == Lexeme::Then {
                let body = st1.pos + 1;
                if b {
                    if st.pos < body <= c.toks.len() && st1.fuel <= st.fuel {
                        lemma_eval_stmt_seq_progress(c, EState { pos: body, ..st1 });
                        match eval_stmt_seq(c, EState { pos: body, ..st1 }) {
                            Ok(st2) => {
                                lemma_skip_scan_in_range(c.toks, st2.pos, false, 0);
                            },
                            Err(_) => {},
                        }
                    }
                } else {
                    lemma_skip_scan_in_range(c.toks, body, true, 0);
                    match skip_scan(c.toks, body, true, 0) {
                        Ok(p) => {
                            if !(c.toks[p] == Lexeme::End) {
                                if st.pos < p + 1 <= c.toks.len() && st1.fuel <= st.fuel {
                                    lemma_eval_stmt_seq_progress(c, EState { pos: p + 1, ..st1 });
                                }
                            }
                        },
                        Err(_) => {},
                    }
                }
            }
        },
        Err(_) => {},
    }
}

pub proof fn lemma_eval_while_progress(c: Ctx, st: EState)
    ensures
        (match eval_while(c, st) {
            Ok(st1) => st.pos < st1.pos <= c.toks.len() && st1.fuel <= st.fuel,
            Err(_) => true,
        }),
    decreases st.fuel, c.toks.len() - st.pos, 0int,
{
    lemma_eval_cond_progress(c, EState { pos: st.pos + 1, ..st });
    match eval_cond(c, EState { pos: st.pos + 1, ..st }) {
        Ok((st1, b)) => {
            if 0 <= st1.pos < c.toks.len() && c.toks[st1.pos] == Lexeme::Loop {
                let body = st1.pos + 1;
                if b {
                    if st1.fuel != 0 && st.pos < body <= c.toks.len() && st1.fuel <= st.fuel {
                        let stb = EState { pos: body, fuel: (st1.fuel - 1) as nat, ..st1 };
                        lemma_eval_stmt_seq_progress(c, stb);
                        match eval_stmt_seq(c, stb) {
                            Ok(st2) => {
                                if st2.fuel < st.fuel {
                                    lemma_eval_while_progress(c, EState { pos: st.pos, ..st2 });
                                }
                            },
                            Err(_) => {},
                        }
                    }
                } else {
                    lemma_skip_scan_in_range(c.toks, body, false, 0);
                }
            }
        },
        Err(_) => {},
    }
}

pub proof fn lemma_eval_stmt_seq_progress(c: Ctx, st: EState)
    ensures
        (match eval_stmt_seq(c, st) {
            Ok(st1) => st.pos <= st1.pos <= c.toks.len() && st1.fuel <= st.fuel,
            Err(_) => true,
        }),
    decreases st.fuel, c.toks.len() - st.pos, 1int,
{
    if 0 <= st.pos < c.toks.len() {
        match c.toks[st.pos] {
            Lexeme::Read => lemma_eval_in_progress(c, st),
            Lexeme::Write => lemma_eval_out_progress(c, st),
            Lexeme::If => lemma_eval_if_progress(c, st),
            Lexeme::While => lemma_eval_while_progress(c, st),
            Lexeme::Identifier(_) => lemma_eval_assign_progress(c, st),
            _ => {},
        }
        let step: Option<Result<EState, Fault>> = match c.toks[st.pos] {
            Lexeme::Read => Some(eval_in(c, st)),
            Lexeme::Write => Some(eval_out(c, st)),
            Lexeme::If => Some(eval_if(c, st)),
            Lexeme::While => Some(eval_while(c, st)),
            Lexeme::Identifier(_) => Some(eval_assign(c, st)),
            _ => None,
        };
        match step {
            Some(Ok(st1)) => {
                if st1.fuel < st.fuel || (st1.fuel == st.fuel && st.pos < st1.pos && st1.pos
                    <= c.toks.len()) {
                    lemma_eval_stmt_seq_progress(c, st1);
                }
            },
            _ => {},
        }
    }
}

// ---------------------------------------------------------------------------
// Executable evaluation: operands, terms, expressions, comparisons,
// conditions
// ---------------------------------------------------------------------------

/// Consumes one identifier occurrence, per `eval_id`.
pub fn execute_id(tree: &mut ParseTree) -> (r: Result<(), Fault>)
    requires
        old(tree).wf(),
    ensures
        frames(old(tree), final(tree)),
        steps_to(r, eval_id(ctx_of(old(tree)), st_of(old(tree))), final(tree)),
{
    if tree.state as usize >= tree.tokens.len() {
        return Err(Fault { kind: FaultKind::PastEnd, at: tree.state as usize });
    }
    if !matches!(tree.get_token(), Token::Identifier(_)) {
        return Err(Fault { kind: FaultKind::ExpectedIdentifier, at: tree.state as usize });
    }
    let identifier = tree.retrieve_identifier();
    tree.context.push(identifier.clone());
    if !tree.contains_variable(identifier.as_str()) {
        tree.insert_variable(identifier.clone(), 0);
    }
    tree.next();
    proof {
        assert(tree.ctxs() =~= st_of(old(tree)).ctxs.push(identifier@));
    }
    Ok(())
}

/// Consumes one integer occurrence, per `eval_int`.
pub fn execute_int(tree: &mut ParseTree) -> (r: Result<(), Fault>)
    requires
        old(tree).wf(),
    ensures
        frames(old(tree), final(tree)),
        steps_to(r, eval_int(ctx_of(old(tree)), st_of(old(tree))), final(tree)),
{
    if tree.state as usize >= tree.tokens.len() {
        return Err(Fault { kind: FaultKind::PastEnd, at: tree.state as usize });
    }
    if !matches!(tree.get_token(), Token::Integer(_)) {
        return Err(Fault { kind: FaultKind::ExpectedOperand, at: tree.state as usize });
    }
    tree.next();
    Ok(())
}

/// Consumes one comparison operator and returns its opcode.
pub fn execute_comp_op(tree: &mut ParseTree) -> (r: Result<u32, Fault>)
    requires
        old(tree).wf(),
    ensures
        frames(old(tree), final(tree)),
        (match r {
            Ok(cmp) => {
                &&& 0 <= old(tree).state < old(tree).toks().len()
                &&& cmp_of(old(tree).toks()[old(tree).state as int]) == Some(cmp)
                &&& st_of(final(tree)) == (EState {
                    pos: old(tree).state + 1,
                    ..st_of(old(tree))
                })
            },
            Err(f) => {
                &&& f == (if old(tree).state as int >= old(tree).toks().len() {
                    fault_at(FaultKind::PastEnd, old(tree).state as int)
                } else {
                    fault_at(FaultKind::ExpectedComparison, old(tree).state as int)
                })
                &&& ((old(tree).state as int) < old(tree).toks().len() ==> cmp_of(
                    old(tree).toks()[old(tree).state as int],
                ) is None)
            },
        }),
{
    if tree.state as usize >= tree.tokens.len() {
        return Err(Fault { kind: FaultKind::PastEnd, at: tree.state as usize });
    }
    let result: u32 = match tree.get_token() {
        Token::LogicalEquality => 0,
        Token::LogicalInequality => 1,
        Token::LessThan => 2,
        Token::LessThanEqual => 3,
        Token::GreaterThan => 4,
        Token::GreaterThanEqual => 5,
        _ => {
            return Err(Fault { kind: FaultKind::ExpectedComparison, at: tree.state as usize });
        },
    };
    tree.next();
    Ok(result)
}

/// Evaluates one operand, per `eval_op`.
pub fn execute_op(tree: &mut ParseTree) -> (r: Result<i32, Fault>)
    requires
        old(tree).wf(),
    ensures
        frames(old(tree), final(tree)),
        steps_to_val(r, eval_op(ctx_of(old(tree)), st_of(old(tree))), final(tree)),
    decreases tree.toks().len() - tree.state, 0int,
{
    let ghost c = ctx_of(old(tree));
    let ghost s0 = st_of(old(tree));
    if tree.state as usize >= tree.tokens.len() {
        return Err(Fault { kind: FaultKind::PastEnd, at: tree.state as usize });
    }
    if matches!(tree.get_token(), Token::LeftParen) {
        tree.next();
        let result = execute_exp(tree)?;
        if (tree.state as usize) < tree.tokens.len() && matches!(
            tree.get_token(),
            Token::RightParen,
        ) {
            tree.next();
            Ok(result)
        } else {
            Err(Fault { kind: FaultKind::ExpectedRightParen, at: tree.state as usize })
        }
    } else if matches!(tree.get_token(), Token::Identifier(_)) {
        let current_id = tree.retrieve_identifier();
        let r_id = execute_id(tree);
        proof {
            assert(r_id is Ok);
        }
        if r_id.is_err() {
            return Err(Fault { kind: FaultKind::PastEnd, at: tree.state as usize });
        }
        proof {
            lemma_env_store_props(s0.env, current_id@, 0i32);
        }
        let result = tree.retrieve_variable(current_id.as_str());
        Ok(result)
    } else if matches!(tree.get_token(), Token::Integer(_)) {
        let result = tree.retrieve_integer();
        let r_int = execute_int(tree);
        proof {
            assert(r_int is Ok);
        }
        if r_int.is_err() {
            return Err(Fault { kind: FaultKind::PastEnd, at: tree.state as usize });
        }
        Ok(result)
    } else {
        Err(Fault { kind: FaultKind::ExpectedOperand, at: tree.state as usize })
    }
}

/// Evaluates one term, per `eval_trm`.
pub fn execute_trm(tree: &mut ParseTree) -> (r: Result<i32, Fault>)
    requires
        old(tree).wf(),
    ensures
        frames(old(tree), final(tree)),
        steps_to_val(r, eval_trm(ctx_of(old(tree)), st_of(old(tree))), final(tree)),
    decreases tree.toks().len() - tree.state, 1int,
{
    let ghost c = ctx_of(old(tree));
    let ghost s0 = st_of(old(tree));
    let a = execute_op(tree)?;
    proof {
        lemma_eval_op_progress(c, s0);
    }
    if (tree.state as usize) < tree.tokens.len() && matches!(
        tree.get_token(),
        Token::Multiplication,
    ) {
        tree.next();
        let b = execute_trm(tree)?;
        Ok(a.wrapping_mul(b))
    } else {
        Ok(a)
    }
}

/// Evaluates one expression, per `eval_exp`.
pub fn execute_exp(tree: &mut ParseTree) -> (r: Result<i32, Fault>)
    requires
        old(tree).wf(),
    ensures
        frames(old(tree), final(tree)),
        steps_to_val(r, eval_exp(ctx_of(old(tree)), st_of(old(tree))), final(tree)),
    decreases tree.toks().len() - tree.state, 2int,
{
    let ghost c = ctx_of(old(tree));
    let ghost s0 = st_of(old(tree));
    let a = execute_trm(tree)?;
    proof {
        lemma_eval_trm_progress(c, s0);
    }
    if (tree.state as usize) < tree.tokens.len() && matches!(tree.get_token(), Token::Addition) {
        tree.next();
        let b = execute_exp(tree)?;
        Ok(a.wrapping_add(b))
    } else if (tree.state as usize) < tree.tokens.len() && matches!(
        tree.get_token(),
        Token::Subtraction,
    ) {
        tree.next();
        let b = execute_exp(tree)?;
        Ok(a.wrapping_sub(b))
    } else {
        Ok(a)
    }
}

/// Evaluates one comparison, per `eval_comp`.
pub fn execute_comp(tree: &mut ParseTree) -> (r: Result<bool, Fault>)
    requires
        old(tree).wf(),
    ensures
        frames(old(tree), final(tree)),
        steps_to_val(r, eval_comp(ctx_of(old(tree)), st_of(old(tree))), final(tree)),
    decreases tree.toks().len() - tree.state, 3int,
{
    let ghost c = ctx_of(old(tree));
    let ghost s0 = st_of(old(tree));
    if tree.state as usize >= tree.tokens.len() {
        return Err(Fault { kind: FaultKind::PastEnd, at: tree.state as usize });
    }
    if !matches!(tree.get_token(), Token::LeftParen) {
        return Err(Fault { kind: FaultKind::ExpectedLeftParen, at: tree.state as usize });
    }
    tree.next();
    let op_a = execute_op(tree)?;
    proof {
        lemma_eval_op_progress(c, EState { pos: s0.pos + 1, ..s0 });
    }
    let cmp = execute_comp_op(tree)?;
    let op_b = execute_op(tree)?;
    if (tree.state as usize) < tree.tokens.len() && matches!(tree.get_token(), Token::RightParen) {
        tree.next();
    } else {
        return Err(Fault { kind: FaultKind::ExpectedRightParen, at: tree.state as usize });
    }
    let result: bool = match cmp {
        0 => op_a == op_b,
        1 => op_a != op_b,
        2 => op_a < op_b,
        3 => op_a <= op_b,
        4 => op_a > op_b,
        _ => op_a >= op_b,
    };
    Ok(result)
}

/// Evaluates one condition, per `eval_cond`.
#[verifier::rlimit(100)]
pub fn execute_cond(tree: &mut ParseTree) -> (r: Result<bool, Fault>)
    requires
        old(tree).wf(),
    ensures
        frames(old(tree), final(tree)),
        steps_to_val(r, eval_cond(ctx_of(old(tree)), st_of(old(tree))), final(tree)),
    decreases tree.toks().len() - tree.state, 4int,
{
    let ghost c = ctx_of(old(tree));
    let ghost s0 = st_of(old(tree));
    if tree.state as usize >= tree.tokens.len() {
        return Err(Fault { kind: FaultKind::PastEnd, at: tree.state as usize });
    }
    if matches!(tree.get_token(), Token::LeftSquare) {
        tree.next();
        let r1 = execute_cond(tree)?;
        proof {
            lemma_eval_cond_progress(c, EState { pos: s0.pos + 1, ..s0 });
        }
        if tree.state as usize >= tree.tokens.len() {
            return Err(Fault { kind: FaultKind::PastEnd, at: tree.state as usize });
        }
        if matches!(tree.get_token(), Token::LogicalAnd) {
            tree.next();
            let r2 = execute_cond(tree)?;
            if (tree.state as usize) < tree.tokens.len() && matches!(
                tree.get_token(),
                Token::RightSquare,
            ) {
                tree.next();
                Ok(r1 && r2)
            } else {
                Err(Fault { kind: FaultKind::ExpectedRightSquare, at: tree.state as usize })
            }
        } else if matches!(tree.get_token(), Token::LogicalOr) {
            tree.next();
            let r2 = execute_cond(tree)?;
            if (tree.state as usize) < tree.tokens.len() && matches!(
                tree.get_token(),
                Token::RightSquare,
            ) {
                tree.next();
                Ok(r1 || r2)
            } else {
                Err(Fault { kind: FaultKind::ExpectedRightSquare, at: tree.state as usize })
            }
        } else {
            Err(Fault { kind: FaultKind::ExpectedConnective, at: tree.state as usize })
        }
    } else if matches!(tree.get_token(), Token::Exclamation) {
        tree.next();
        let r1 = execute_comp(tree)?;
        Ok(!r1)
    } else {
        execute_comp(tree)
    }
}

// ---------------------------------------------------------------------------
// Laws
// ---------------------------------------------------------------------------

/// The skip scan cannot tell the positions `a` and `b` apart: from either,
/// in either mode and at any nesting count, it gives the same outcome.
pub open spec fn skip_same(toks: Seq<Lexeme>, a: int, b: int) -> bool {
    forall|m: bool, count: nat| skip_scan(toks, a, m, count) == skip_scan(toks, b, m, count)
}

/// One token that the skip scan neither counts nor stops on is
/// transparent to it.
proof fn lemma_skip_step(toks: Seq<Lexeme>, a: int)
    requires
        0 <= a < toks.len(),
        !(toks[a] == Lexeme::If),
        !(toks[a] == Lexeme::While),
        !(toks[a] == Lexeme::End),
        !(toks[a] == Lexeme::Else),
    ensures
        skip_same(toks, a, a + 1),
{
    assert forall|m: bool, count: nat|
        skip_scan(toks, a, m, count) == skip_scan(toks, a + 1, m, count) by {
        assert(skip_scan(toks, a, m, count) == skip_scan(toks, a + 1, m, count));
    }
}

/// Raising the nesting count by at least one makes a region the scan once
/// crossed (ending at `q`) transparent: the raised scan crosses it the
/// same way and arrives at `q` with the raised count.
proof fn lemma_skip_shift(toks: Seq<Lexeme>, x: int, m_in: bool, ic: nat, q: int, m: bool, c: nat)
    requires
        skip_scan(toks, x, m_in, ic) == Ok::<int, Fault>(q),
        c >= 1,
    ensures
        skip_scan(toks, x, m, (ic + c) as nat) == skip_scan(toks, q, m, c),
    decreases toks.len() - x,
{
    if 0 <= x < toks.len() {
        if (toks[x] == Lexeme::End || (m_in && toks[x] == Lexeme::Else)) && ic == 0 {
            // the inner scan stopped here: x == q and the counts agree
        } else {
            let ic2: nat = if toks[x] == Lexeme::If || toks[x] == Lexeme::While {
                ic + 1
            } else if toks[x] == Lexeme::End {
                (ic - 1) as nat
            } else {
                ic
            };
            lemma_skip_shift(toks, x + 1, m_in, ic2, q, m, c);
        }
    }
}

proof fn lemma_sk_id(c: Ctx, st: EState)
    ensures
        (match eval_id(c, st) {
            Ok(st1) => skip_same(c.toks, st.pos, st1.pos),
            Err(_) => true,
        }),
{
    if eval_id(c, st) is Ok {
        lemma_skip_step(c.toks, st.pos);
    }
}

proof fn lemma_sk_op(c: Ctx, st: EState)
    ensures
        (match eval_op(c, st) {
            Ok((st1, _)) => skip_same(c.toks, st.pos, st1.pos),
            Err(_) => true,
        }),
    decreases c.toks.len() - st.pos, 0int,
{
    if 0 <= st.pos < c.toks.len() {
        match c.toks[st.pos] {
            Lexeme::LeftParen => {
                lemma_eval_exp_progress(c, EState { pos: st.pos + 1, ..st });
                lemma_sk_exp(c, EState { pos: st.pos + 1, ..st });
                match eval_exp(c, EState { pos: st.pos + 1, ..st }) {
                    Ok((st1, _)) => {
                        if 0 <= st1.pos < c.toks.len() && c.toks[st1.pos] == Lexeme::RightParen {
                            lemma_skip_step(c.toks, st.pos);
                            lemma_skip_step(c.toks, st1.pos);
                        }
                    },
                    Err(_) => {},
                }
            },
            Lexeme::Identifier(_) => lemma_skip_step(c.toks, st.pos),
            Lexeme::Integer(_) => lemma_skip_step(c.toks, st.pos),
            _ => {},
        }
    }
}

proof fn lemma_sk_trm(c: Ctx, st: EState)
    ensures
        (match eval_trm(c, st) {
            Ok((st1, _)) => skip_same(c.toks, st.pos, st1.pos),
            Err(_) => true,
        }),
    decreases c.toks.len() - st.pos, 1int,
{
    lemma_sk_op(c, st);
    match eval_op(c, st) {
        Ok((st1, _)) => {
            if 0 <= st1.pos < c.toks.len() && c.toks[st1.pos] == Lexeme::Multiplication {
                if st.pos < st1.pos + 1 <= c.toks.len() {
                    lemma_skip_step(c.toks, st1.pos);
                    lemma_sk_trm(c, EState { pos: st1.pos + 1, ..st1 });
                }
            }
        },
        Err(_) => {},
    }
}

proof fn lemma_sk_exp(c: Ctx, st: EState)
    ensures
        (match eval_exp(c, st) {
            Ok((st1, _)) => skip_same(c.toks, st.pos, st1.pos),
            Err(_) => true,
        }),
    decreases c.toks.len() - st.pos, 2int,
{
    lemma_sk_trm(c, st);
    match eval_trm(c, st) {
        Ok((st1, _)) => {
            if 0 <= st1.pos < c.toks.len() && (c.toks[st1.pos] == Lexeme::Addition
                || c.toks[st1.pos] == Lexeme::Subtraction) {
                if st.pos < st1.pos + 1 <= c.toks.len() {
                    lemma_skip_step(c.toks, st1.pos);
                    lemma_sk_exp(c, EState { pos: st1.pos + 1, ..st1 });
                }
            }
        },
        Err(_) => {},
    }
}

proof fn lemma_sk_comp(c: Ctx, st: EState)
    ensures
        (match eval_comp(c, st) {
            Ok((st1, _)) => skip_same(c.toks, st.pos, st1.pos),
            Err(_) => true,
        }),
    decreases c.toks.len() - st.pos, 3int,
{
    if 0 <= st.pos < c.toks.len() && c.toks[st.pos] == Lexeme::LeftParen {
        lemma_skip_step(c.toks, st.pos);
        lemma_sk_op(c, EState { pos: st.pos + 1, ..st });
        match eval_op(c, EState { pos: st.pos + 1, ..st }) {
            Ok((st1, _)) => {
                if 0 <= st1.pos < c.toks.len() && cmp_of(c.toks[st1.pos]) is Some {
                    lemma_skip_step(c.toks, st1.pos);
                    if st.pos < st1.pos + 1 <= c.toks.len() {
                        lemma_sk_op(c, EState { pos: st1.pos + 1, ..st1 });
                        match eval_op(c, EState { pos: st1.pos + 1, ..st1 }) {
                            Ok((st2, _)) => {
                                if 0 <= st2.pos < c.toks.len() && c.toks[st2.pos]
                                    == Lexeme::RightParen {
                                    lemma_skip_step(c.toks, st2.pos);
                                }
                            },
                            Err(_) => {},
                        }
                    }
                }
            },
            Err(_) => {},
        }
    }
}

proof fn lemma_sk_cond(c: Ctx, st: EState)
    ensures
        (match eval_cond(c, st) {
            Ok((st1, _)) => skip_same(c.toks, st.pos, st1.pos),
            Err(_) => true,
        }),
    decreases c.toks.len() - st.pos, 4int,
{
    if 0 <= st.pos < c.toks.len() {
        if c.toks[st.pos] == Lexeme::LeftSquare {
            lemma_skip_step(c.toks, st.pos);
            lemma_sk_cond(c, EState { pos: st.pos + 1, ..st });
            match eval_cond(c, EState { pos: st.pos + 1, ..st }) {
                Ok((st1, _)) => {
                    if 0 <= st1.pos < c.toks.len() && (c.toks[st1.pos] == Lexeme::LogicalAnd
                        || c.toks[st1.pos] == Lexeme::LogicalOr) {
                        lemma_skip_step(c.toks, st1.pos);
                        if st.pos < st1.pos + 1 <= c.toks.len() {
                            lemma_sk_cond(c, EState { pos: st1.pos + 1, ..st1 });
                            match eval_cond(c, EState { pos: st1.pos + 1, ..st1 }) {
                                Ok((st2, _)) => {
                                    if 0 <= st2.pos < c.toks.len() && c.toks[st2.pos]
                                        == Lexeme::RightSquare {
                                        lemma_skip_step(c.toks, st2.pos);
                                    }
                                },
                                Err(_) => {},
                            }
                        }
                    }
                },
                Err(_) => {},
            }
        } else if c.toks[st.pos] == Lexeme::Exclamation {
            lemma_skip_step(c.toks, st.pos);
            lemma_sk_comp(c, EState { pos: st.pos + 1, ..st });
        } else {
            lemma_sk_comp(c, st);
        }
    }
}

proof fn lemma_sk_id_list(c: Ctx, st: EState)
    ensures
        (match eval_id_list(c, st) {
            Ok(st1) => skip_same(c.toks, st.pos, st1.pos),
            Err(_) => true,
        }),
    decreases c.toks.len() - st.pos,
{
    lemma_sk_id(c, st);
    match eval_id(c, st) {
        Ok(st1) => {
            if 0 <= st1.pos < c.toks.len() && c.toks[st1.pos] == Lexeme::Comma {
                if st.pos < st1.pos + 1 <= c.toks.len() {
                    lemma_skip_step(c.toks, st1.pos);
                    lemma_sk_id_list(c, EState { pos: st1.pos + 1, ..st1 });
                }
            }
        },
        Err(_) => {},
    }
}

proof fn lemma_sk_in(c: Ctx, st: EState)
    requires
        0 <= st.pos < c.toks.len(),
        c.toks[st.pos] == Lexeme::Read,
    ensures
        (match eval_in(c, st) {
            Ok(st1) => skip_same(c.toks, st.pos, st1.pos),
            Err(_) => true,
        }),
{
    lemma_skip_step(c.toks, st.pos);
    let sta = EState { pos: st.pos + 1, ctxs: Seq::empty(), ..st };
    lemma_sk_id_list(c, sta);
    match eval_id_list(c, sta) {
        Ok(st1) => {
            if 0 <= st1.pos < c.toks.len() && c.toks[st1.pos] == Lexeme::Semicolon {
                lemma_skip_step(c.toks, st1.pos);
            }
        },
        Err(_) => {},
    }
}

proof fn lemma_sk_out(c: Ctx, st: EState)
    requires
        0 <= st.pos < c.toks.len(),
        c.toks[st.pos] == Lexeme::Write,
    ensures
        (match eval_out(c, st) {
            Ok(st1) => skip_same(c.toks, st.pos, st1.pos),
            Err(_) => true,
        }),
{
    lemma_skip_step(c.toks, st.pos);
    let sta = EState { pos: st.pos + 1, ctxs: Seq::empty(), ..st };
    lemma_sk_id_list(c, sta);
    match eval_id_list(c, sta) {
        Ok(st1) => {
            if 0 <= st1.pos < c.toks.len() && c.toks[st1.pos] == Lexeme::Semicolon {
                lemma_skip_step(c.toks, st1.pos);
            }
        },
        Err(_) => {},
    }
}

proof fn lemma_sk_assign(c: Ctx, st: EState)
    ensures
        (match eval_assign(c, st) {
            Ok(st1) => skip_same(c.toks, st.pos, st1.pos),
            Err(_) => true,
        }),
{
    if 0 <= st.pos < c.toks.len() && c.toks[st.pos] is Identifier {
        let st0 = EState { ctxs: Seq::empty(), ..st };
        lemma_sk_id(c, st0);
        match eval_id(c, st0) {
            Ok(st1) => {
                if 0 <= st1.pos < c.toks.len() && c.toks[st1.pos] == Lexeme::Assignment {
                    lemma_skip_step(c.toks, st1.pos);
                    lemma_sk_exp(c, EState { pos: st1.pos + 1, ..st1 });
                    match eval_exp(c, EState { pos: st1.pos + 1, ..st1 }) {
                        Ok((st2, _)) => {
                            if 0 <= st2.pos < c.toks.len() && c.toks[st2.pos]
                                == Lexeme::Semicolon {
                                lemma_skip_step(c.toks, st2.pos);
                            }
                        },
                        Err(_) => {},
                    }
                }
            },
            Err(_) => {},
        }
    }
}

proof fn lemma_sk_if(c: Ctx, st: EState)
    requires
        0 <= st.pos < c.toks.len(),
        c.toks[st.pos] == Lexeme::If,
    ensures
        (match eval_if(c, st) {
            Ok(st1) => skip_same(c.toks, st.pos, st1.pos),
            Err(_) => true,
        }),
    decreases st.fuel, c.toks.len() - st.pos, 0int,
{
    if eval_if(c, st) is Ok && 0 <= st.pos < c.toks.len() {
        let res = eval_if(c, st).unwrap();
        lemma_eval_cond_progress(c, EState { pos: st.pos + 1, ..st });
        lemma_sk_cond(c, EState { pos: st.pos + 1, ..st });
        match eval_cond(c, EState { pos: st.pos + 1, ..st }) {
            Ok((st1, b)) => {
                let body = st1.pos + 1;
                assert forall|m: bool, count: nat|
                    skip_scan(c.toks, st.pos, m, count) == skip_scan(c.toks, res.pos, m, count) by {
                    // the `if` keyword raises the count by one
                    assert(skip_scan(c.toks, st.pos, m, count) == skip_scan(
                        c.toks,
                        st.pos + 1,
                        m,
                        count + 1,
                    ));
                    // the condition and the `then` keyword are transparent
                    assert(skip_scan(c.toks, st.pos + 1, m, count + 1) == skip_scan(
                        c.toks,
                        st1.pos,
                        m,
                        count + 1,
                    ));
                    assert(skip_scan(c.toks, st1.pos, m, count + 1) == skip_scan(
                        c.toks,
                        body,
                        m,
                        count + 1,
                    ));
                    if b {
                        let st2 = eval_stmt_seq(c, EState { pos: body, ..st1 }).unwrap();
                        lemma_sk_stmt_seq(c, EState { pos: body, ..st1 });
                        let p = skip_scan(c.toks, st2.pos, false, 0).unwrap();
                        lemma_skip_scan_in_range(c.toks, st2.pos, false, 0);
                        lemma_skip_shift(c.toks, st2.pos, false, 0, p, m, count + 1);
                        assert(skip_scan(c.toks, p, m, count + 1) == skip_scan(
                            c.toks,
                            p + 1,
                            m,
                            count,
                        ));
                        assert(skip_scan(c.toks, p + 1, m, count) == skip_scan(
                            c.toks,
                            p + 2,
                            m,
                            count,
                        ));
                    } else {
                        let p = skip_scan(c.toks, body, true, 0).unwrap();
                        lemma_skip_scan_in_range(c.toks, body, true, 0);
                        lemma_skip_shift(c.toks, body, true, 0, p, m, count + 1);
                        if c.toks[p] == Lexeme::End {
                            assert(skip_scan(c.toks, p, m, count + 1) == skip_scan(
                                c.toks,
                                p + 1,
                                m,
                                count,
                            ));
                            assert(skip_scan(c.toks, p + 1, m, count) == skip_scan(
                                c.toks,
                                p + 2,
                                m,
                                count,
                            ));
                        } else {
                            // at the `else`: it is transparent at a positive count
                            assert(skip_scan(c.toks, p, m, count + 1) == skip_scan(
                                c.toks,
                                p + 1,
                                m,
                                count + 1,
                            ));
                            let st2 = eval_stmt_seq(c, EState { pos: p + 1, ..st1 }).unwrap();
                            lemma_sk_stmt_seq(c, EState { pos: p + 1, ..st1 });
                            assert(skip_scan(c.toks, p + 1, m, count + 1) == skip_scan(
                                c.toks,
                                st2.pos,
                                m,
                                count + 1,
                            ));
                            assert(skip_scan(c.toks, st2.pos, m, count + 1) == skip_scan(
                                c.toks,
                                st2.pos + 1,
                                m,
                                count,
                            ));
                            assert(skip_scan(c.toks, st2.pos + 1, m, count) == skip_scan(
                                c.toks,
                                st2.pos + 2,
                                m,
                                count,
                            ));
                        }
                    }
                }
            },
            Err(_) => {},
        }
    }
}

proof fn lemma_sk_while(c: Ctx, st: EState)
    requires
        0 <= st.pos < c.toks.len(),
        c.toks[st.pos] == Lexeme::While,
    ensures
        (match eval_while(c, st) {
            Ok(st1) => skip_same(c.toks, st.pos, st1.pos),
            Err(_) => true,
        }),
    decreases st.fuel, c.toks.len() - st.pos, 0int,
{
    if eval_while(c, st) is Ok && 0 <= st.pos < c.toks.len() {
        let res = eval_while(c, st).unwrap();
        lemma_eval_cond_progress(c, EState { pos: st.pos + 1, ..st });
        lemma_sk_cond(c, EState { pos: st.pos + 1, ..st });
        match eval_cond(c, EState { pos: st.pos + 1, ..st }) {
            Ok((st1, b)) => {
                let body = st1.pos + 1;
                if b {
                    // the construct is re-entered from its start: the whole
                    // region is covered by the re-entry
                    let stb = EState { pos: body, fuel: (st1.fuel - 1) as nat, ..st1 };
                    let st2 = eval_stmt_seq(c, stb).unwrap();
                    lemma_eval_stmt_seq_progress(c, stb);
                    lemma_sk_while(c, EState { pos: st.pos, ..st2 });
                } else {
                    let p = skip_scan(c.toks, body, false, 0).unwrap();
                    lemma_skip_scan_in_range(c.toks, body, false, 0);
                    assert forall|m: bool, count: nat|
                        skip_scan(c.toks, st.pos, m, count) == skip_scan(c.toks, res.pos, m, count)
                        by {
                        assert(skip_scan(c.toks, st.pos, m, count) == skip_scan(
                            c.toks,
                            st.pos + 1,
                            m,
                            count + 1,
                        ));
                        assert(skip_scan(c.toks, st.pos + 1, m, count + 1) == skip_scan(
                            c.toks,
                            st1.pos,
                            m,
                            count + 1,
                        ));
                        assert(skip_scan(c.toks, st1.pos, m, count + 1) == skip_scan(
                            c.toks,
                            body,
                            m,
                            count + 1,
                        ));
                        lemma_skip_shift(c.toks, body, false, 0, p, m, count + 1);
                        assert(skip_scan(c.toks, p, m, count + 1) == skip_scan(
                            c.toks,
                            p + 1,
                            m,
                            count,
                        ));
                        assert(skip_scan(c.toks, p + 1, m, count) == skip_scan(
                            c.toks,
                            p + 2,
                            m,
                            count,
                        ));
                    }
                }
            },
            Err(_) => {},
        }
    }
}

proof fn lemma_sk_stmt_seq(c: Ctx, st: EState)
    ensures
        (match eval_stmt_seq(c, st) {
            Ok(st1) => skip_same(c.toks, st.pos, st1.pos),
            Err(_) => true,
        }),
    decreases st.fuel, c.toks.len() - st.pos, 1int,
{
    if 0 <= st.pos < c.toks.len() {
        match c.toks[st.pos] {
            Lexeme::Read => lemma_sk_in(c, st),
            Lexeme::Write => lemma_sk_out(c, st),
            Lexeme::If => lemma_sk_if(c, st),
            Lexeme::While => lemma_sk_while(c, st),
            Lexeme::Identifier(_) => lemma_sk_assign(c, st),
            _ => {},
        }
        let step: Option<Result<EState, Fault>> = match c.toks[st.pos] {
            Lexeme::Read => Some(eval_in(c, st)),
            Lexeme::Write => Some(eval_out(c, st)),
            Lexeme::If => Some(eval_if(c, st)),
            Lexeme::While => Some(eval_while(c, st)),
            Lexeme::Identifier(_) => Some(eval_assign(c, st)),
            _ => None,
        };
        match step {
            Some(Ok(st1)) => {
                if st1.fuel < st.fuel || (st1.fuel == st.fuel && st.pos < st1.pos && st1.pos
                    <= c.toks.len()) {
                    lemma_sk_stmt_seq(c, st1);
                }
            },
            _ => {},
        }
    }
}

/// The balancing skip scan consumes exactly an executed statement
/// sequence: in either mode and at any nesting count, the scan started at
/// the sequence's first token and the scan started where execution
/// stopped reach the very same terminator.  Jumping over a region is thus
/// interchangeable with executing it and scanning on from its end,
/// whatever the nesting depth of the constructs inside it.
pub proof fn lemma_skip_matches_execution(c: Ctx, st: EState, st1: EState)
    requires
        eval_stmt_seq(c, st) == Ok::<EState, Fault>(st1),
    ensures
        forall|m: bool, count: nat|
            skip_scan(c.toks, st.pos, m, count) == skip_scan(c.toks, st1.pos, m, count),
{
    lemma_sk_stmt_seq(c, st);
}

/// A `while` whose condition is false on its first evaluation executes its
/// body zero times: beyond the condition's own effect on the variable
/// store, the state is untouched, and the cursor consumes exactly the
/// skipped body and the one closing `end ;`.
pub proof fn lemma_while_false_runs_zero_times(c: Ctx, st: EState, st1: EState, p: int)
    requires
        eval_cond(c, EState { pos: st.pos + 1, ..st }) == Ok::<(EState, bool), Fault>((st1, false)),
        0 <= st1.pos < c.toks.len(),
        c.toks[st1.pos] == Lexeme::Loop,
        skip_scan(c.toks, st1.pos + 1, false, 0) == Ok::<int, Fault>(p),
        0 <= p + 1 < c.toks.len(),
        c.toks[p + 1] == Lexeme::Semicolon,
    ensures
        eval_while(c, st) == Ok::<EState, Fault>(EState { pos: p + 2, ..st1 }),
        (EState { pos: p + 2, ..st1 }).out == st.out,
        (EState { pos: p + 2, ..st1 }).inpos == st.inpos,
        (EState { pos: p + 2, ..st1 }).fuel == st.fuel,
{
    lemma_eval_cond_progress(c, EState { pos: st.pos + 1, ..st });
}

/// Names scanned by an identifier list end up bound; names already bound
/// stay bound; and when every scanned name was already bound, the variable
/// store is left exactly as it was.
pub proof fn lemma_eval_id_list_env(c: Ctx, st: EState)
    ensures
        (match eval_id_list(c, st) {
            Ok(st1) => {
                &&& st.ctxs.len() <= st1.ctxs.len()
                &&& st1.ctxs.take(st.ctxs.len() as int) == st.ctxs
                &&& forall|k: int|
                    st.ctxs.len() <= k < st1.ctxs.len() ==> env_contains(st1.env, st1.ctxs[k])
                &&& forall|n: Seq<char>| env_contains(st.env, n) ==> env_contains(st1.env, n)
                &&& ((forall|k: int|
                    st.ctxs.len() <= k < st1.ctxs.len() ==> env_contains(st.env, st1.ctxs[k]))
                    ==> st1.env == st.env)
            },
            Err(_) => true,
        }),
    decreases c.toks.len() - st.pos,
{
    match eval_id(c, st) {
        Ok(sta) => {
            let name = st1_name(c, st);
            assert(c.toks[st.pos] == Lexeme::Identifier(name));
            lemma_env_store_props(st.env, name, 0i32);
            let next = if 0 <= sta.pos < c.toks.len() && c.toks[sta.pos] == Lexeme::Comma {
                Some(EState { pos: sta.pos + 1, ..sta })
            } else {
                None::<EState>
            };
            match next {
                Some(stb) => {
                    if st.pos < stb.pos <= c.toks.len() {
                        lemma_eval_id_list_env(c, stb);
                        match eval_id_list(c, stb) {
                            Ok(st1) => {
                                assert(stb.ctxs == st.ctxs.push(name));
                                assert(st1.ctxs.take(st.ctxs.len() as int) =~= st1.ctxs.take(
                                    stb.ctxs.len() as int,
                                ).take(st.ctxs.len() as int));
                                assert(stb.ctxs[st.ctxs.len() as int] == name);
                                assert forall|k: int|
                                    st.ctxs.len() <= k < st1.ctxs.len() implies env_contains(
                                    st1.env,
                                    st1.ctxs[k],
                                ) by {
                                    if k < stb.ctxs.len() {
                                        assert(st1.ctxs.take(stb.ctxs.len() as int)[k]
                                            == st1.ctxs[k]);
                                        assert(st1.ctxs[k] == name);
                                        assert(env_contains(stb.env, name));
                                    }
                                }
                                if forall|k: int|
                                    st.ctxs.len() <= k < st1.ctxs.len() ==> env_contains(
                                        st.env,
                                        st1.ctxs[k],
                                    ) {
                                    assert(st1.ctxs.take(stb.ctxs.len() as int)[st.ctxs.len() as int]
                                        == st1.ctxs[st.ctxs.len() as int]);
                                    assert(env_contains(st.env, name));
                                    assert(stb.env == st.env);
                                }
                            },
                            Err(_) => {},
                        }
                    }
                },
                None => {
                    assert(sta.ctxs.take(st.ctxs.len() as int) =~= st.ctxs);
                    assert(sta.ctxs[st.ctxs.len() as int] == name);
                },
            }
        },
        Err(_) => {},
    }
}

/// The identifier named at `st.pos`, when there is one.
pub open spec fn st1_name(c: Ctx, st: EState) -> Seq<char> {
    match c.toks[st.pos] {
        Lexeme::Identifier(name) => name,
        _ => Seq::empty(),
    }
}

/// Evaluating `write` twice in a row over the same identifier list, with
/// no intervening mutation of the written variables, emits the identical
/// block of lines both times.
pub proof fn lemma_write_idempotent(c: Ctx, st: EState, st1: EState, st2: EState)
    requires
        eval_out(c, st) == Ok::<EState, Fault>(st1),
        eval_out(c, st1) == Ok::<EState, Fault>(st2),
        st2.ctxs == st1.ctxs,
    ensures
        st2.env == st1.env,
        st1.out == st.out + write_lines(st1.ctxs, st1.env),
        st2.out == st1.out + write_lines(st1.ctxs, st1.env),
{
    let sta = EState { pos: st.pos + 1, ctxs: Seq::empty(), ..st };
    let stb = EState { pos: st1.pos + 1, ctxs: Seq::empty(), ..st1 };
    lemma_eval_id_list_env(c, sta);
    lemma_eval_id_list_env(c, stb);
    lemma_eval_id_list_progress(c, sta);
    lemma_eval_id_list_progress(c, stb);
    match (eval_id_list(c, sta), eval_id_list(c, stb)) {
        (Ok(ra), Ok(rb)) => {
            assert(st1.ctxs == ra.ctxs);
            assert(st1.env == ra.env);
            assert(st2.ctxs == rb.ctxs);
            assert(st2.env == rb.env);
            assert(rb.ctxs.take(0) =~= Seq::<Seq<char>>::empty());
            assert forall|k: int| 0 <= k < rb.ctxs.len() implies env_contains(
                stb.env,
                rb.ctxs[k],
            ) by {
                assert(env_contains(ra.env, ra.ctxs[k]));
            }
            assert(rb.env == stb.env);
        },
        _ => {},
    }
}

// ---------------------------------------------------------------------------
// Executable evaluation: identifier lists, declarations, the skip scan,
// and the simple statements
// ---------------------------------------------------------------------------

/// What the skip scan leaves untouched: everything but the cursor.
pub open spec fn nav_only(a: &ParseTree, b: &ParseTree) -> bool {
    &&& frames(a, b)
    &&& b.memory == a.memory
    &&& b.context == a.context
    &&& b.input_pos == a.input_pos
    &&& b.output == a.output
    &&& b.fuel == a.fuel
}

/// Consumes one identifier list, per `eval_id_list`.
pub fn execute_id_list(tree: &mut ParseTree) -> (r: Result<(), Fault>)
    requires
        old(tree).wf(),
    ensures
        frames(old(tree), final(tree)),
        steps_to(r, eval_id_list(ctx_of(old(tree)), st_of(old(tree))), final(tree)),
    decreases tree.toks().len() - tree.state,
{
    let ghost c = ctx_of(old(tree));
    let ghost s0 = st_of(old(tree));
    execute_id(tree)?;
    if (tree.state as usize) < tree.tokens.len() && matches!(tree.get_token(), Token::Comma) {
        tree.next();
        execute_id_list(tree)
    } else {
        Ok(())
    }
}

/// Consumes one declaration, per `eval_decl`.
pub fn execute_decl(tree: &mut ParseTree) -> (r: Result<(), Fault>)
    requires
        old(tree).wf(),
    ensures
        frames(old(tree), final(tree)),
        steps_to(r, eval_decl(ctx_of(old(tree)), st_of(old(tree))), final(tree)),
{
    if tree.state as usize >= tree.tokens.len() {
        return Err(Fault { kind: FaultKind::PastEnd, at: tree.state as usize });
    }
    if !matches!(tree.get_token(), Token::Int) {
        return Err(Fault { kind: FaultKind::ExpectedInt, at: tree.state as usize });
    }
    tree.next();
    execute_id_list(tree)?;
    if tree.state as usize >= tree.tokens.len() {
        return Err(Fault { kind: FaultKind::PastEnd, at: tree.state as usize });
    }
    if matches!(tree.get_token(), Token::Semicolon) {
        tree.next();
        Ok(())
    } else {
        Err(Fault { kind: FaultKind::ExpectedSemicolon, at: tree.state as usize })
    }
}

/// Consumes one declaration sequence, per `eval_decl_seq`.
pub fn execute_decl_seq(tree: &mut ParseTree) -> (r: Result<(), Fault>)
    requires
        old(tree).wf(),
    ensures
        frames(old(tree), final(tree)),
        steps_to(r, eval_decl_seq(ctx_of(old(tree)), st_of(old(tree))), final(tree)),
    decreases tree.toks().len() - tree.state,
{
    let ghost c = ctx_of(old(tree));
    let ghost s0 = st_of(old(tree));
    execute_decl(tree)?;
    proof {
        lemma_eval_decl_progress(c, s0);
    }
    if (tree.state as usize) < tree.tokens.len() && matches!(tree.get_token(), Token::Int) {
        execute_decl_seq(tree)
    } else {
        Ok(())
    }
}

/// The balancing skip scan: advances the cursor to the `end` (or `else`)
/// that closes the current construct, per `skip_scan`.
pub fn skip_balanced(tree: &mut ParseTree, stop_at_else: bool) -> (r: Result<(), Fault>)
    requires
        old(tree).wf(),
    ensures
        nav_only(old(tree), final(tree)),
        (match r {
            Ok(()) => skip_scan(old(tree).toks(), old(tree).state as int, stop_at_else, 0)
                == Ok::<int, Fault>(final(tree).state as int),
            Err(f) => skip_scan(old(tree).toks(), old(tree).state as int, stop_at_else, 0)
                == Err::<int, Fault>(f),
        }),
{
    let ghost toks = old(tree).toks();
    let ghost start = old(tree).state as int;
    let mut count: u32 = 0;
    loop
        invariant
            tree.wf(),
            nav_only(old(tree), tree),
            toks == tree.toks(),
            toks == old(tree).toks(),
            start == old(tree).state as int,
            0 <= start <= tree.state as int,
            count as int <= tree.state as int - start,
            skip_scan(toks, start, stop_at_else, 0) == skip_scan(
                toks,
                tree.state as int,
                stop_at_else,
                count as nat,
            ),
        decreases tree.toks().len() - tree.state,
    {
        if tree.state as usize >= tree.tokens.len() {
            return Err(Fault { kind: FaultKind::PastEnd, at: tree.state as usize });
        }
        let is_end = matches!(tree.get_token(), Token::End);
        let is_else = matches!(tree.get_token(), Token::Else);
        if (is_end || (stop_at_else && is_else)) && count == 0 {
            return Ok(());
        }
        if matches!(tree.get_token(), Token::If) || matches!(tree.get_token(), Token::While) {
            count += 1;
        }
        if matches!(tree.get_token(), Token::End) && count != 0 {
            count -= 1;
        }
        tree.next();
    }
}

/// Runs one `read` statement, per `eval_in`: parses the identifier list,
/// then binds each listed name to the next pre-supplied input value.
pub fn execute_in(tree: &mut ParseTree) -> (r: Result<(), Fault>)
    requires
        old(tree).wf(),
        (old(tree).state as int) < old(tree).toks().len(),
    ensures
        frames(old(tree), final(tree)),
        steps_to(r, eval_in(ctx_of(old(tree)), st_of(old(tree))), final(tree)),
{
    let ghost c = ctx_of(old(tree));
    let ghost s0 = st_of(old(tree));
    tree.context.clear();
    proof {
        assert(tree.ctxs() =~= Seq::<Seq<char>>::empty());
    }
    tree.next();
    execute_id_list(tree)?;
    let ghost st1 = st_of(tree);
    proof {
        assert(st1.ctxs.skip(0) =~= st1.ctxs);
    }
    let n = tree.context.len();
    let mut k: usize = 0;
    while k < n
        invariant
            tree.wf(),
            frames(old(tree), tree),
            k <= n,
            n == tree.context@.len(),
            c == ctx_of(old(tree)),
            s0 == st_of(old(tree)),
            c == ctx_of(tree),
            eval_id_list(c, EState { pos: s0.pos + 1, ctxs: Seq::empty(), ..s0 })
                == Ok::<EState, Fault>(st1),
            st1.ctxs == tree.ctxs(),
            st1.pos == tree.state as int,
            st1.out == tree.outs(),
            st1.fuel == tree.fuel as nat,
            read_ids(c.input, st1.ctxs.skip(k as int), tree.env(), tree.input_pos as int)
                == read_ids(c.input, st1.ctxs, st1.env, st1.inpos),
        decreases n - k,
    {
        let id = tree.context[k].clone();
        proof {
            assert(st1.ctxs.skip(k as int)[0] == st1.ctxs[k as int]);
            assert(st1.ctxs.skip(k as int).drop_first() =~= st1.ctxs.skip(k as int + 1));
        }
        if tree.input_pos < tree.input.len() {
            let val = tree.input[tree.input_pos];
            tree.input_pos += 1;
            tree.insert_variable(id, val);
            k += 1;
        } else {
            return Err(Fault { kind: FaultKind::InputExhausted, at: tree.state as usize });
        }
    }
    proof {
        assert(st1.ctxs.skip(n as int) =~= Seq::<Seq<char>>::empty());
    }
    if tree.state as usize >= tree.tokens.len() {
        return Err(Fault { kind: FaultKind::PastEnd, at: tree.state as usize });
    }
    if matches!(tree.get_token(), Token::Semicolon) {
        tree.next();
        Ok(())
    } else {
        Err(Fault { kind: FaultKind::ExpectedSemicolon, at: tree.state as usize })
    }
}

/// Runs one `write` statement, per `eval_out`: parses the identifier list,
/// then emits one `name = value` line per listed name.
pub fn execute_out(tree: &mut ParseTree) -> (r: Result<(), Fault>)
    requires
        old(tree).wf(),
        (old(tree).state as int) < old(tree).toks().len(),
    ensures
        frames(old(tree), final(tree)),
        steps_to(r, eval_out(ctx_of(old(tree)), st_of(old(tree))), final(tree)),
{
    let ghost c = ctx_of(old(tree));
    let ghost s0 = st_of(old(tree));
    tree.context.clear();
    proof {
        assert(tree.ctxs() =~= Seq::<Seq<char>>::empty());
    }
    tree.next();
    execute_id_list(tree)?;
    let ghost st1 = st_of(tree);
    proof {
        assert(st1.ctxs.take(0) =~= write_lines(Seq::empty(), st1.env).map_values(|x: Seq<char>| x));
    }
    let n = tree.context.len();
    let mut k: usize = 0;
    while k < n
        invariant
            tree.wf(),
            frames(old(tree), tree),
            k <= n,
            n == tree.context@.len(),
            c == ctx_of(old(tree)),
            s0 == st_of(old(tree)),
            c == ctx_of(tree),
            eval_id_list(c, EState { pos: s0.pos + 1, ctxs: Seq::empty(), ..s0 })
                == Ok::<EState, Fault>(st1),
            st1.ctxs == tree.ctxs(),
            st1.pos == tree.state as int,
            st1.env == tree.env(),
            st1.inpos == tree.input_pos as int,
            st1.fuel == tree.fuel as nat,
            tree.outs() == st1.out + write_lines(st1.ctxs.take(k as int), st1.env),
        decreases n - k,
    {
        let ghost out_pre = tree.outs();
        let id = tree.context[k].clone();
        let v: i32 = if tree.contains_variable(id.as_str()) {
            tree.retrieve_variable(id.as_str())
        } else {
            0
        };
        let mut line = id;
        line.append(" = ");
        let rendered = crate::decimal::int_to_string(v);
        line.append(rendered.as_str());
        tree.output.push(line);
        k += 1;
        proof {
            assert(v == env_val(st1.env, st1.ctxs[k - 1]));
            assert(line@ =~= out_line(st1.ctxs[k - 1], v));
            lemma_write_lines_snoc(st1.ctxs.take(k - 1), st1.ctxs[k - 1], st1.env);
            assert(st1.ctxs.take(k as int) =~= st1.ctxs.take(k - 1).push(st1.ctxs[k - 1]));
            assert(tree.outs() =~= out_pre.push(line@));
            assert(tree.outs() =~= st1.out + write_lines(st1.ctxs.take(k as int), st1.env));
        }
    }
    proof {
        assert(st1.ctxs.take(n as int) =~= st1.ctxs);
    }
    if tree.state as usize >= tree.tokens.len() {
        return Err(Fault { kind: FaultKind::PastEnd, at: tree.state as usize });
    }
    if matches!(tree.get_token(), Token::Semicolon) {
        tree.next();
        Ok(())
    } else {
        Err(Fault { kind: FaultKind::ExpectedSemicolon, at: tree.state as usize })
    }
}

/// Runs one assignment, per `eval_assign`.
pub fn execute_assign(tree: &mut ParseTree) -> (r: Result<(), Fault>)
    requires
        old(tree).wf(),
    ensures
        frames(old(tree), final(tree)),
        steps_to(r, eval_assign(ctx_of(old(tree)), st_of(old(tree))), final(tree)),
{
    let ghost c = ctx_of(old(tree));
    let ghost s0 = st_of(old(tree));
    if tree.state as usize >= tree.tokens.len() {
        return Err(Fault { kind: FaultKind::PastEnd, at: tree.state as usize });
    }
    if !matches!(tree.get_token(), Token::Identifier(_)) {
        return Err(Fault { kind: FaultKind::ExpectedIdentifier, at: tree.state as usize });
    }
    tree.context.clear();
    proof {
        assert(tree.ctxs() =~= Seq::<Seq<char>>::empty());
    }
    let current_id = tree.retrieve_identifier();
    let r_id = execute_id(tree);
    proof {
        assert(r_id is Ok);
    }
    if r_id.is_err() {
        return Err(Fault { kind: FaultKind::PastEnd, at: tree.state as usize });
    }
    if tree.state as usize >= tree.tokens.len() {
        return Err(Fault { kind: FaultKind::PastEnd, at: tree.state as usize });
    }
    if !matches!(tree.get_token(), Token::Assignment) {
        return Err(Fault { kind: FaultKind::ExpectedAssign, at: tree.state as usize });
    }
    tree.next();
    let result = execute_exp(tree)?;
    tree.insert_variable(current_id, result);
    if tree.state as usize >= tree.tokens.len() {
        return Err(Fault { kind: FaultKind::PastEnd, at: tree.state as usize });
    }
    if matches!(tree.get_token(), Token::Semicolon) {
        tree.next();
        Ok(())
    } else {
        Err(Fault { kind: FaultKind::ExpectedSemicolon, at: tree.state as usize })
    }
}

// ---------------------------------------------------------------------------
// Executable evaluation: statements and the whole program
// ---------------------------------------------------------------------------

/// Runs one `if` statement, per `eval_if`.
#[verifier::rlimit(100)]
pub fn execute_if(tree: &mut ParseTree) -> (r: Result<(), Fault>)
    requires
        old(tree).wf(),
        (old(tree).state as int) < old(tree).toks().len(),
    ensures
        frames(old(tree), final(tree)),
        steps_to(r, eval_if(ctx_of(old(tree)), st_of(old(tree))), final(tree)),
    decreases tree.fuel, tree.toks().len() - tree.state, 0int,
{
    let ghost c = ctx_of(old(tree));
    let ghost s0 = st_of(old(tree));
    tree.next();
    let result = execute_cond(tree)?;
    proof {
        lemma_eval_cond_progress(c, EState { pos: s0.pos + 1, ..s0 });
    }
    if tree.state as usize >= tree.tokens.len() {
        return Err(Fault { kind: FaultKind::PastEnd, at: tree.state as usize });
    }
    if !matches!(tree.get_token(), Token::Then) {
        return Err(Fault { kind: FaultKind::ExpectedThen, at: tree.state as usize });
    }
    tree.next();
    if result {
        execute_stmt_seq(tree)?;
        let ghost st2 = st_of(tree);
        skip_balanced(tree, false)?;
        proof {
            lemma_skip_scan_in_range(c.toks, st2.pos, false, 0);
        }
        if !matches!(tree.get_token(), Token::End) {
            return Err(Fault { kind: FaultKind::ExpectedEndOrElse, at: tree.state as usize });
        }
        tree.next();
        if tree.state as usize >= tree.tokens.len() {
            return Err(Fault { kind: FaultKind::PastEnd, at: tree.state as usize });
        }
        if matches!(tree.get_token(), Token::Semicolon) {
            tree.next();
            Ok(())
        } else {
            Err(Fault { kind: FaultKind::ExpectedSemicolon, at: tree.state as usize })
        }
    } else {
        let ghost body = st_of(tree).pos;
        skip_balanced(tree, true)?;
        proof {
            lemma_skip_scan_in_range(c.toks, body, true, 0);
        }
        if matches!(tree.get_token(), Token::End) {
            tree.next();
            if tree.state as usize >= tree.tokens.len() {
                return Err(Fault { kind: FaultKind::PastEnd, at: tree.state as usize });
            }
            if matches!(tree.get_token(), Token::Semicolon) {
                tree.next();
                Ok(())
            } else {
                Err(Fault { kind: FaultKind::ExpectedSemicolon, at: tree.state as usize })
            }
        } else if matches!(tree.get_token(), Token::Else) {
            tree.next();
            execute_stmt_seq(tree)?;
            if tree.state as usize >= tree.tokens.len() {
                return Err(Fault { kind: FaultKind::PastEnd, at: tree.state as usize });
            }
            if !matches!(tree.get_token(), Token::End) {
                return Err(Fault { kind: FaultKind::ExpectedEnd, at: tree.state as usize });
            }
            tree.next();
            if tree.state as usize >= tree.tokens.len() {
                return Err(Fault { kind: FaultKind::PastEnd, at: tree.state as usize });
            }
            if matches!(tree.get_token(), Token::Semicolon) {
                tree.next();
                Ok(())
            } else {
                Err(Fault { kind: FaultKind::ExpectedSemicolon, at: tree.state as usize })
            }
        } else {
            Err(Fault { kind: FaultKind::ExpectedEndOrElse, at: tree.state as usize })
        }
    }
}

/// Runs one `while` statement, per `eval_while`: the body is re-entered by
/// resetting the cursor to the construct's recorded start, one unit of
/// fuel per iteration.
#[verifier::rlimit(100)]
pub fn execute_loop(tree: &mut ParseTree) -> (r: Result<(), Fault>)
    requires
        old(tree).wf(),
        (old(tree).state as int) < old(tree).toks().len(),
    ensures
        frames(old(tree), final(tree)),
        steps_to(r, eval_while(ctx_of(old(tree)), st_of(old(tree))), final(tree)),
    decreases tree.fuel, tree.toks().len() - tree.state, 0int,
{
    let ghost c = ctx_of(old(tree));
    let ghost s0 = st_of(old(tree));
    let start_state: u32 = tree.state;
    tree.next();
    let result = execute_cond(tree)?;
    proof {
        lemma_eval_cond_progress(c, EState { pos: s0.pos + 1, ..s0 });
    }
    if tree.state as usize >= tree.tokens.len() {
        return Err(Fault { kind: FaultKind::PastEnd, at: tree.state as usize });
    }
    if !matches!(tree.get_token(), Token::Loop) {
        return Err(Fault { kind: FaultKind::ExpectedLoop, at: tree.state as usize });
    }
    tree.next();
    if result {
        if tree.fuel == 0 {
            return Err(Fault { kind: FaultKind::FuelExhausted, at: tree.state as usize });
        }
        tree.fuel = tree.fuel - 1;
        let ghost stb = st_of(tree);
        execute_stmt_seq(tree)?;
        proof {
            lemma_eval_stmt_seq_progress(c, stb);
        }
        tree.set_state(start_state);
        execute_loop(tree)
    } else {
        let ghost body = st_of(tree).pos;
        skip_balanced(tree, false)?;
        proof {
            lemma_skip_scan_in_range(c.toks, body, false, 0);
        }
        if !matches!(tree.get_token(), Token::End) {
            return Err(Fault { kind: FaultKind::ExpectedEnd, at: tree.state as usize });
        }
        tree.next();
        if tree.state as usize >= tree.tokens.len() {
            return Err(Fault { kind: FaultKind::PastEnd, at: tree.state as usize });
        }
        if matches!(tree.get_token(), Token::Semicolon) {
            tree.next();
            Ok(())
        } else {
            Err(Fault { kind: FaultKind::ExpectedSemicolon, at: tree.state as usize })
        }
    }
}

/// Runs one statement sequence, per `eval_stmt_seq`.
pub fn execute_stmt_seq(tree: &mut ParseTree) -> (r: Result<(), Fault>)
    requires
        old(tree).wf(),
    ensures
        frames(old(tree), final(tree)),
        steps_to(r, eval_stmt_seq(ctx_of(old(tree)), st_of(old(tree))), final(tree)),
    decreases tree.fuel, tree.toks().len() - tree.state, 1int,
{
    let ghost c = ctx_of(old(tree));
    let ghost s0 = st_of(old(tree));
    if tree.state as usize >= tree.tokens.len() {
        return Err(Fault { kind: FaultKind::PastEnd, at: tree.state as usize });
    }
    if matches!(tree.get_token(), Token::Read) {
        execute_in(tree)?;
        proof {
            lemma_eval_in_progress(c, s0);
        }
    } else if matches!(tree.get_token(), Token::Write) {
        execute_out(tree)?;
        proof {
            lemma_eval_out_progress(c, s0);
        }
    } else if matches!(tree.get_token(), Token::If) {
        execute_if(tree)?;
        proof {
            lemma_eval_if_progress(c, s0);
        }
    } else if matches!(tree.get_token(), Token::While) {
        execute_loop(tree)?;
        proof {
            lemma_eval_while_progress(c, s0);
        }
    } else if matches!(tree.get_token(), Token::Identifier(_)) {
        execute_assign(tree)?;
        proof {
            lemma_eval_assign_progress(c, s0);
        }
    } else {
        return Ok(());
    }
    execute_stmt_seq(tree)
}

/// Runs one whole program, per `eval_prog`.
pub fn execute_prog(tree: &mut ParseTree) -> (r: Result<(), Fault>)
    requires
        old(tree).wf(),
    ensures
        frames(old(tree), final(tree)),
        steps_to(r, eval_prog(ctx_of(old(tree)), st_of(old(tree))), final(tree)),
{
    if tree.state as usize >= tree.tokens.len() {
        return Err(Fault { kind: FaultKind::PastEnd, at: tree.state as usize });
    }
    if !matches!(tree.get_token(), Token::Program) {
        return Err(Fault { kind: FaultKind::ExpectedProgram, at: tree.state as usize });
    }
    tree.next();
    execute_decl_seq(tree)?;
    if tree.state as usize >= tree.tokens.len() {
        return Err(Fault { kind: FaultKind::PastEnd, at: tree.state as usize });
    }
    if !matches!(tree.get_token(), Token::Begin) {
        return Err(Fault { kind: FaultKind::ExpectedBegin, at: tree.state as usize });
    }
    tree.next();
    execute_stmt_seq(tree)?;
    if tree.state as usize >= tree.tokens.len() {
        return Err(Fault { kind: FaultKind::PastEnd, at: tree.state as usize });
    }
    if matches!(tree.get_token(), Token::End) {
        Ok(())
    } else {
        Err(Fault { kind: FaultKind::ExpectedEnd, at: tree.state as usize })
    }
}

/// Runs a whole program over `file_tokens`, with `stdin` as the
/// pre-supplied `read` values and `fuel` as the loop-iteration budget.
/// On success the returned cursor holds the final variable store and the
/// emitted output lines.
pub fn init_executor(file_tokens: Vec<Token>, stdin: Vec<i32>, fuel: u64) -> (r: Result<
    ParseTree,
    Fault,
>)
    requires
        file_tokens@.len() <= u32::MAX as int,
    ensures
        (match r {
            Ok(tree) => {
                &&& tree.toks() == file_tokens.deep_view()
                &&& tree.input@ == stdin@
                &&& tree.statements@.len() == 0
                &&& tree.depth == 0
                &&& eval_prog(
                    Ctx { toks: file_tokens.deep_view(), input: stdin@ },
                    init_state(fuel),
                ) == Ok::<EState, Fault>(st_of(&tree))
            },
            Err(f) => eval_prog(
                Ctx { toks: file_tokens.deep_view(), input: stdin@ },
                init_state(fuel),
            ) == Err::<EState, Fault>(f),
        }),
{
    let mut this_execute_tree = ParseTree {
        tokens: file_tokens,
        memory: Vec::new(),
        current_statement: String::new(),
        statements: Vec::new(),
        context: Vec::new(),
        state: 0,
        depth: 0,
        input: stdin,
        input_pos: 0,
        output: Vec::new(),
        fuel,
    };
    proof {
        assert(this_execute_tree.env() =~= Seq::<(Seq<char>, i32)>::empty());
        assert(this_execute_tree.outs() =~= Seq::<Seq<char>>::empty());
        assert(this_execute_tree.ctxs() =~= Seq::<Seq<char>>::empty());
        assert(st_of(&this_execute_tree) == init_state(fuel));
    }
    match execute_prog(&mut this_execute_tree) {
        Ok(()) => Ok(this_execute_tree),
        Err(f) => Err(f),
    }
}

} // verus!
