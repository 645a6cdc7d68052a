//! The cursor and its primitives, the symbol table, and the printing pass.
//!
//! `ParseTree` is the single mutable state threaded through every grammar
//! procedure: the token sequence, a position, a nesting depth, the variable
//! store, the statement lines collected by the printing pass, and the
//! abstract input source and output sink of the execution pass.

use vstd::prelude::*;
use vstd::string::StringExecFns;
use crate::tokenizer::{Lexeme, Token};

verus! {

/// Why a run was aborted: the construct that was expected but missing, or a
/// resource that ran out.
#[derive(Debug, Clone, Copy, PartialEq, Eq, Structural)]
pub enum FaultKind {
    ExpectedProgram,
    ExpectedBegin,
    ExpectedEnd,
    ExpectedEndOrElse,
    ExpectedSemicolon,
    ExpectedInt,
    ExpectedAssign,
    ExpectedThen,
    ExpectedLoop,
    ExpectedIdentifier,
    ExpectedOperand,
    ExpectedComparison,
    ExpectedConnective,
    ExpectedLeftParen,
    ExpectedRightParen,
    ExpectedRightSquare,
    /// The cursor would have to move past the end of the token sequence.
    PastEnd,
    /// A `read` statement found the pre-supplied input exhausted.
    InputExhausted,
    /// The loop-iteration budget ran out.
    FuelExhausted,
}

/// A fatal error, with the token position at which it was detected.
#[derive(Debug, Clone, Copy, PartialEq, Eq, Structural)]
pub struct Fault {
    pub kind: FaultKind,
    pub at: usize,
}

// ---------------------------------------------------------------------------
// The symbol table, as an association list
// ---------------------------------------------------------------------------

/// Index of the first binding of `name`, or `env.len()` if there is none.
pub open spec fn env_find(env: Seq<(Seq<char>, i32)>, name: Seq<char>) -> int
    decreases env.len(),
{
    if env.len() == 0 {
        0
    } else if env[0].0 == name {
        0
    } else {
        1 + env_find(env.drop_first(), name)
    }
}

pub open spec fn env_contains(env: Seq<(Seq<char>, i32)>, name: Seq<char>) -> bool {
    env_find(env, name) < env.len()
}

/// The value bound to `name`; an absent name reads as zero, per the lenient
/// auto-creation rule.
pub open spec fn env_val(env: Seq<(Seq<char>, i32)>, name: Seq<char>) -> i32 {
    if env_contains(env, name) {
        env[env_find(env, name)].1
    } else {
        0i32
    }
}

/// Binding `name` to `v`: overwrites the existing binding in place, or
/// appends a new one.
pub open spec fn env_store(env: Seq<(Seq<char>, i32)>, name: Seq<char>, v: i32) -> Seq<
    (Seq<char>, i32),
> {
    if env_contains(env, name) {
        env.update(env_find(env, name), (name, v))
    } else {
        env.push((name, v))
    }
}

pub proof fn lemma_env_find(env: Seq<(Seq<char>, i32)>, name: Seq<char>)
    ensures
        0 <= env_find(env, name) <= env.len(),
        env_find(env, name) < env.len() ==> env[env_find(env, name)].0 == name,
        forall|k: int| 0 <= k < env_find(env, name) ==> env[k].0 != name,
    decreases env.len(),
{
    if env.len() > 0 && env[0].0 != name {
        lemma_env_find(env.drop_first(), name);
        assert forall|k: int| 0 <= k < env_find(env, name) implies env[k].0 != name by {
            if k > 0 {
                assert(env.drop_first()[k - 1] == env[k]);
            }
        }
    }
}

/// Storing a binding makes it readable, and leaves every other binding as
/// it was.
pub proof fn lemma_env_store_props(env: Seq<(Seq<char>, i32)>, name: Seq<char>, v: i32)
    ensures
        env_contains(env_store(env, name, v), name),
        env_val(env_store(env, name, v), name) == v,
        forall|o: Seq<char>|
            o != name ==> env_contains(env_store(env, name, v), o) == env_contains(env, o),
        forall|o: Seq<char>| o != name ==> env_val(env_store(env, name, v), o) == env_val(env, o),
{
    let s = env_store(env, name, v);
    let f = env_find(env, name);
    lemma_env_find(env, name);
    lemma_env_find(s, name);
    if env_contains(env, name) {
        assert(s == env.update(f, (name, v)));
        assert(s[f].0 == name);
        if env_find(s, name) < f {
            assert(env[env_find(s, name)] == s[env_find(s, name)]);
        }
        assert(env_find(s, name) == f);
    } else {
        assert(s == env.push((name, v)));
        assert(s[env.len() as int].0 == name);
        assert(env_find(s, name) == env.len());
    }
    assert forall|o: Seq<char>| o != name implies env_contains(s, o) == env_contains(env, o)
        && env_val(s, o) == env_val(env, o) by {
        lemma_env_find(env, o);
        lemma_env_find(s, o);
        let fo = env_find(env, o);
        let fs = env_find(s, o);
        if env_contains(env, name) {
            if fo < env.len() {
                assert(s[fo].0 == o);
                assert(fs == fo);
            } else {
                if fs < s.len() {
                    assert(env[fs].0 == o);
                    assert(false);
                }
            }
        } else {
            if fo < env.len() {
                assert(s[fo].0 == o);
                assert(fs == fo);
            } else {
                if fs < s.len() {
                    if fs < env.len() {
                        assert(env[fs].0 == o);
                        assert(false);
                    } else {
                        assert(s[fs].0 == name);
                        assert(false);
                    }
                }
            }
        }
    }
}

// ---------------------------------------------------------------------------
// The cursor
// ---------------------------------------------------------------------------

/// The engine's single mutable state: token sequence, position, nesting
/// depth, variable store, collected statement lines, and the abstract
/// input source and output sink.
#[derive(Debug)]
pub struct ParseTree {
    pub tokens: Vec<Token>,
    pub memory: Vec<(String, i32)>,
    pub current_statement: String,
    pub statements: Vec<String>,
    pub context: Vec<String>,
    pub state: u32,
    pub depth: u32,
    /// Pre-supplied values for `read` statements, consumed front to back.
    pub input: Vec<i32>,
    /// How many input values have been consumed.
    pub input_pos: usize,
    /// One formatted line per variable written by a `write` statement.
    pub output: Vec<String>,
    /// Remaining loop-iteration budget of the execution pass.
    pub fuel: u64,
}

impl ParseTree {
    /// The token sequence, as lexemes.
    pub open spec fn toks(&self) -> Seq<Lexeme> {
        self.tokens.deep_view()
    }

    /// The variable store, as an association list of name and value.
    pub open spec fn env(&self) -> Seq<(Seq<char>, i32)> {
        Seq::new(self.memory@.len(), |i: int| (self.memory@[i].0@, self.memory@[i].1))
    }

    /// The emitted output lines.
    pub open spec fn outs(&self) -> Seq<Seq<char>> {
        Seq::new(self.output@.len(), |i: int| self.output@[i]@)
    }

    /// The collected statement lines of the printing pass.
    pub open spec fn stmts(&self) -> Seq<Seq<char>> {
        Seq::new(self.statements@.len(), |i: int| self.statements@[i]@)
    }

    /// The identifiers of the most recent identifier list.
    pub open spec fn ctxs(&self) -> Seq<Seq<char>> {
        Seq::new(self.context@.len(), |i: int| self.context@[i]@)
    }

    /// The machine limit the engine works under: the 32-bit cursor must be
    /// able to address every token.
    pub open spec fn wf(&self) -> bool {
        self.toks().len() <= u32::MAX as int
    }

    /// Moves the cursor one token forward.
    pub fn next(&mut self)
        requires
            old(self).state < u32::MAX,
        ensures
            final(self).state == old(self).state + 1,
            final(self).tokens == old(self).tokens,
            final(self).memory == old(self).memory,
            final(self).current_statement == old(self).current_statement,
            final(self).statements == old(self).statements,
            final(self).context == old(self).context,
            final(self).depth == old(self).depth,
            final(self).input == old(self).input,
            final(self).input_pos == old(self).input_pos,
            final(self).output == old(self).output,
            final(self).fuel == old(self).fuel,
    {
        self.state += 1;
    }

    /// Read-only peek at the token under the cursor; the position must be
    /// inside the sequence.
    pub fn get_token(&self) -> (t: &Token)
        requires
            (self.state as int) < self.tokens@.len(),
        ensures
            *t == self.tokens@[self.state as int],
    {
        &self.tokens[self.state as usize]
    }

    /// The name carried by the identifier token under the cursor.
    pub fn retrieve_identifier(&self) -> (name: String)
        requires
            (self.state as int) < self.tokens@.len(),
            self.tokens@[self.state as int] is Identifier,
        ensures
            self.toks()[self.state as int] == Lexeme::Identifier(name@),
    {
        match &self.tokens[self.state as usize] {
            Token::Identifier(id) => id.clone(),
            _ => String::new(),
        }
    }

    /// The value carried by the integer token under the cursor.
    pub fn retrieve_integer(&self) -> (v: i32)
        requires
            (self.state as int) < self.tokens@.len(),
            self.tokens@[self.state as int] is Integer,
        ensures
            self.toks()[self.state as int] == Lexeme::Integer(v as int),
    {
        match &self.tokens[self.state as usize] {
            Token::Integer(value) => *value,
            _ => 0,
        }
    }

    /// Records one finished statement line.
    pub fn push_statement(&mut self, statement: String)
        ensures
            final(self).statements@ == old(self).statements@.push(statement),
            final(self).stmts() == old(self).stmts().push(statement@),
            final(self).tokens == old(self).tokens,
            final(self).memory == old(self).memory,
            final(self).current_statement == old(self).current_statement,
            final(self).context == old(self).context,
            final(self).state == old(self).state,
            final(self).depth == old(self).depth,
            final(self).input == old(self).input,
            final(self).input_pos == old(self).input_pos,
            final(self).output == old(self).output,
            final(self).fuel == old(self).fuel,
    {
        self.statements.push(statement);
        proof {
            assert(self.stmts() =~= old(self).stmts().push(statement@));
        }
    }

    /// Moves the statement line under construction into the record and
    /// starts a fresh one.
    pub fn fetch_current_statement(&mut self)
        ensures
            final(self).statements@ == old(self).statements@.push(old(self).current_statement),
            final(self).stmts() == old(self).stmts().push(old(self).current_statement@),
            final(self).current_statement@ == Seq::<char>::empty(),
            final(self).tokens == old(self).tokens,
            final(self).memory == old(self).memory,
            final(self).context == old(self).context,
            final(self).state == old(self).state,
            final(self).depth == old(self).depth,
            final(self).input == old(self).input,
            final(self).input_pos == old(self).input_pos,
            final(self).output == old(self).output,
            final(self).fuel == old(self).fuel,
    {
        let line = self.current_statement.clone();
        self.statements.push(line);
        self.current_statement = String::new();
        proof {
            assert(self.stmts() =~= old(self).stmts().push(old(self).current_statement@));
        }
    }

    /// Binds `identifier` to `value`, overwriting any existing binding.
    pub fn insert_variable(&mut self, identifier: String, value: i32)
        ensures
            final(self).env() == env_store(old(self).env(), identifier@, value),
            final(self).tokens == old(self).tokens,
            final(self).current_statement == old(self).current_statement,
            final(self).statements == old(self).statements,
            final(self).context == old(self).context,
            final(self).state == old(self).state,
            final(self).depth == old(self).depth,
            final(self).input == old(self).input,
            final(self).input_pos == old(self).input_pos,
            final(self).output == old(self).output,
            final(self).fuel == old(self).fuel,
    {
        proof {
            lemma_env_find(old(self).env(), identifier@);
        }
        let n = self.memory.len();
        let mut i: usize = 0;
        while i < n
            invariant
                *self == *old(self),
                i <= n,
                n == self.memory@.len(),
                forall|k: int| 0 <= k < i ==> self.env()[k].0 != identifier@,
            decreases n - i,
        {
            if self.memory[i].0 == identifier {
                proof {
                    assert(self.memory@[i as int].0@ == identifier@);
                    assert(self.env()[i as int].0 == identifier@);
                    lemma_env_find(self.env(), identifier@);
                    assert(env_find(self.env(), identifier@) == i);
                }
                self.memory[i] = (identifier, value);
                proof {
                    assert(final(self).env() =~= env_store(old(self).env(), identifier@, value));
                }
                return;
            }
            i += 1;
        }
        proof {
            lemma_env_find(self.env(), identifier@);
            assert(!env_contains(self.env(), identifier@));
        }
        self.memory.push((identifier, value));
        proof {
            assert(final(self).env() =~= env_store(old(self).env(), identifier@, value));
        }
    }

    /// Whether `identifier` has a binding.
    pub fn contains_variable(&self, identifier: &str) -> (r: bool)
        ensures
            r == env_contains(self.env(), identifier@),
    {
        let key = String::from_str(identifier);
        proof {
            lemma_env_find(self.env(), identifier@);
        }
        let n = self.memory.len();
        let mut i: usize = 0;
        while i < n
            invariant
                key@ == identifier@,
                i <= n,
                n == self.memory@.len(),
                forall|k: int| 0 <= k < i ==> self.env()[k].0 != identifier@,
            decreases n - i,
        {
            if self.memory[i].0 == key {
                proof {
                    assert(self.env()[i as int].0 == identifier@);
                    lemma_env_find(self.env(), identifier@);
                }
                return true;
            }
            i += 1;
        }
        false
    }

    /// The current value of `identifier`, which must be bound.
    pub fn retrieve_variable(&self, identifier: &str) -> (v: i32)
        requires
            env_contains(self.env(), identifier@),
        ensures
            v == env_val(self.env(), identifier@),
    {
        let key = String::from_str(identifier);
        proof {
            lemma_env_find(self.env(), identifier@);
        }
        let n = self.memory.len();
        let mut i: usize = 0;
        while i < n
            invariant
                key@ == identifier@,
                i <= n,
                n == self.memory@.len(),
                env_contains(self.env(), identifier@),
                forall|k: int| 0 <= k < i ==> self.env()[k].0 != identifier@,
            decreases n - i,
        {
            if self.memory[i].0 == key {
                proof {
                    assert(self.env()[i as int].0 == identifier@);
                    lemma_env_find(self.env(), identifier@);
                    assert(env_find(self.env(), identifier@) == i);
                }
                return self.memory[i].1;
            }
            i += 1;
        }
        proof {
            lemma_env_find(self.env(), identifier@);
            assert(false);
        }
        0
    }

    /// Relocates the cursor, backward or forward; used to re-enter a loop
    /// body from its start.
    pub fn set_state(&mut self, state: u32)
        ensures
            final(self).state == state,
            final(self).tokens == old(self).tokens,
            final(self).memory == old(self).memory,
            final(self).current_statement == old(self).current_statement,
            final(self).statements == old(self).statements,
            final(self).context == old(self).context,
            final(self).depth == old(self).depth,
            final(self).input == old(self).input,
            final(self).input_pos == old(self).input_pos,
            final(self).output == old(self).output,
            final(self).fuel == old(self).fuel,
    {
        self.state = state;
    }

    /// The current nesting depth.
    pub fn get_depth(&self) -> (d: u32)
        ensures
            d == self.depth,
    {
        self.depth
    }

    /// Enters a bracketed construct: one level deeper.
    pub fn descend(&mut self)
        requires
            old(self).depth < u32::MAX,
        ensures
            final(self).depth == old(self).depth + 1,
            final(self).tokens == old(self).tokens,
            final(self).memory == old(self).memory,
            final(self).current_statement == old(self).current_statement,
            final(self).statements == old(self).statements,
            final(self).context == old(self).context,
            final(self).state == old(self).state,
            final(self).input == old(self).input,
            final(self).input_pos == old(self).input_pos,
            final(self).output == old(self).output,
            final(self).fuel == old(self).fuel,
    {
        self.depth += 1;
    }

    /// Leaves a bracketed construct: one level back up.
    pub fn ascend(&mut self)
        requires
            old(self).depth >= 1,
        ensures
            final(self).depth == old(self).depth - 1,
            final(self).tokens == old(self).tokens,
            final(self).memory == old(self).memory,
            final(self).current_statement == old(self).current_statement,
            final(self).statements == old(self).statements,
            final(self).context == old(self).context,
            final(self).state == old(self).state,
            final(self).input == old(self).input,
            final(self).input_pos == old(self).input_pos,
            final(self).output == old(self).output,
            final(self).fuel == old(self).fuel,
    {
        self.depth -= 1;
    }
}

// ---------------------------------------------------------------------------
// Spec-level account of the printing pass
// ---------------------------------------------------------------------------

/// The mutable state of the printing pass: cursor position, variable
/// store, the statement line under construction, the collected lines, and
/// the identifiers of the most recent identifier list.
pub ghost struct PState {
    pub pos: int,
    pub env: Seq<(Seq<char>, i32)>,
    pub stmt: Seq<char>,
    pub stmts: Seq<Seq<char>>,
    pub ctxs: Seq<Seq<char>>,
}

pub open spec fn ps_of(t: &ParseTree) -> PState {
    PState {
        pos: t.state as int,
        env: t.env(),
        stmt: t.current_statement@,
        stmts: t.stmts(),
        ctxs: t.ctxs(),
    }
}

pub open spec fn pfault(k: FaultKind, pos: int) -> Fault {
    Fault { kind: k, at: pos as usize }
}

/// What the printing pass leaves untouched: the token sequence and the
/// whole execution-side state.
pub open spec fn pframes(a: &ParseTree, b: &ParseTree) -> bool {
    &&& b.wf()
    &&& b.tokens == a.tokens
    &&& b.input == a.input
    &&& b.input_pos == a.input_pos
    &&& b.output == a.output
    &&& b.depth == a.depth
    &&& b.fuel == a.fuel
}

/// The outcome of a printing procedure agrees with the spec-level outcome.
pub open spec fn psteps_to(r: Result<(), Fault>, ev: Result<PState, Fault>, b: &ParseTree) -> bool {
    match r {
        Ok(()) => ev == Ok::<PState, Fault>(ps_of(b)),
        Err(f) => ev == Err::<PState, Fault>(f),
    }
}

/// As `psteps_to`, for a procedure that also produces a value.
pub open spec fn psteps_to_val<V>(
    r: Result<V, Fault>,
    ev: Result<(PState, V), Fault>,
    b: &ParseTree,
) -> bool {
    match r {
        Ok(v) => ev == Ok::<(PState, V), Fault>((ps_of(b), v)),
        Err(f) => ev == Err::<(PState, V), Fault>(f),
    }
}

/// The text a comparison opcode prints as.
pub open spec fn cmp_text(c: u32) -> Seq<char> {
    if c == 0 { " == "@ }
    else if c == 1 { " != "@ }
    else if c == 2 { " < "@ }
    else if c == 3 { " <= "@ }
    else if c == 4 { " > "@ }
    else { " >= "@ }
}

/// An identifier occurrence in the printing pass: append its name to the
/// line, record it in the context, create its binding if absent.
pub open spec fn pp_id(toks: Seq<Lexeme>, st: PState) -> Result<PState, Fault> {
    if !(0 <= st.pos < toks.len()) {
        Err(pfault(FaultKind::PastEnd, st.pos))
    } else {
        match toks[st.pos] {
            Lexeme::Identifier(name) => Ok(
                PState {
                    pos: st.pos + 1,
                    env: if env_contains(st.env, name) {
                        st.env
                    } else {
                        env_store(st.env, name, 0i32)
                    },
                    stmt: st.stmt + name,
                    ctxs: st.ctxs.push(name),
                    ..st
                },
            ),
            _ => Err(pfault(FaultKind::ExpectedIdentifier, st.pos)),
        }
    }
}

/// An integer occurrence in the printing pass: append its decimal text.
pub open spec fn pp_int(toks: Seq<Lexeme>, st: PState) -> Result<PState, Fault> {
    if !(0 <= st.pos < toks.len()) {
        Err(pfault(FaultKind::PastEnd, st.pos))
    } else {
        match toks[st.pos] {
            Lexeme::Integer(v) => Ok(
                PState {
                    pos: st.pos + 1,
                    stmt: st.stmt + crate::decimal::int_chars((v as i32) as int),
                    ..st
                },
            ),
            _ => Err(pfault(FaultKind::ExpectedOperand, st.pos)),
        }
    }
}

/// An identifier list in the printing pass, comma-separated in the line.
pub open spec fn pp_id_list(toks: Seq<Lexeme>, st: PState) -> Result<PState, Fault>
    decreases toks.len() - st.pos,
{
    match pp_id(toks, st) {
        Ok(st1) => {
            if 0 <= st1.pos < toks.len() && toks[st1.pos] == Lexeme::Comma {
                if st.pos < st1.pos + 1 <= toks.len() {
                    pp_id_list(toks, PState { pos: st1.pos + 1, stmt: st1.stmt + ", "@, ..st1 })
                } else {
                    Err(pfault(FaultKind::PastEnd, st1.pos))
                }
            } else {
                Ok(st1)
            }
        },
        Err(f) => Err(f),
    }
}

/// One declaration in the printing pass: collects the line `int ...;`.
pub open spec fn pp_decl(toks: Seq<Lexeme>, st: PState) -> Result<PState, Fault> {
    if !(0 <= st.pos < toks.len()) {
        Err(pfault(FaultKind::PastEnd, st.pos))
    } else if !(toks[st.pos] == Lexeme::Int) {
        Err(pfault(FaultKind::ExpectedInt, st.pos))
    } else {
        match pp_id_list(toks, PState { pos: st.pos + 1, stmt: st.stmt + "int "@, ..st }) {
            Ok(st1) => {
                if !(0 <= st1.pos < toks.len()) {
                    Err(pfault(FaultKind::PastEnd, st1.pos))
                } else if toks[st1.pos] == Lexeme::Semicolon {
                    Ok(
                        PState {
                            pos: st1.pos + 1,
                            stmt: Seq::empty(),
                            stmts: st1.stmts.push(st1.stmt + ";"@),
                            ..st1
                        },
                    )
                } else {
                    Err(pfault(FaultKind::ExpectedSemicolon, st1.pos))
                }
            },
            Err(f) => Err(f),
        }
    }
}

/// A declaration sequence in the printing pass.
pub open spec fn pp_decl_seq(toks: Seq<Lexeme>, st: PState) -> Result<PState, Fault>
    decreases toks.len() - st.pos,
{
    match pp_decl(toks, st) {
        Ok(st1) => {
            if 0 <= st1.pos < toks.len() && toks[st1.pos] == Lexeme::Int {
                if st.pos < st1.pos <= toks.len() {
                    pp_decl_seq(toks, st1)
                } else {
                    Err(pfault(FaultKind::PastEnd, st1.pos))
                }
            } else {
                Ok(st1)
            }
        },
        Err(f) => Err(f),
    }
}

/// An operand in the printing pass: appends its text and evaluates it,
/// leniently creating bindings, exactly as the execution pass does.
pub open spec fn pp_op(toks: Seq<Lexeme>, st: PState) -> Result<(PState, i32), Fault>
    decreases toks.len() - st.pos, 0int,
{
    if !(0 <= st.pos < toks.len()) {
        Err(pfault(FaultKind::PastEnd, st.pos))
    } else {
        match toks[st.pos] {
            Lexeme::LeftParen => {
                match pp_exp(toks, PState { pos: st.pos + 1, stmt: st.stmt + "("@, ..st }) {
                    Ok((st1, v)) => {
                        if 0 <= st1.pos < toks.len() && toks[st1.pos] == Lexeme::RightParen {
                            Ok((PState { pos: st1.pos + 1, stmt: st1.stmt + ")"@, ..st1 }, v))
                        } else {
                            Err(pfault(FaultKind::ExpectedRightParen, st1.pos))
                        }
                    },
                    Err(f) => Err(f),
                }
            },
            Lexeme::Identifier(name) => {
                let env1 = if env_contains(st.env, name) {
                    st.env
                } else {
                    env_store(st.env, name, 0i32)
                };
                Ok(
                    (
                        PState {
                            pos: st.pos + 1,
                            env: env1,
                            stmt: st.stmt + name,
                            ctxs: st.ctxs.push(name),
                            ..st
                        },
                        env_val(env1, name),
                    ),
                )
            },
            Lexeme::Integer(v) => Ok(
                (
                    PState {
                        pos: st.pos + 1,
                        stmt: st.stmt + crate::decimal::int_chars((v as i32) as int),
                        ..st
                    },
                    v as i32,
                ),
            ),
            _ => Err(pfault(FaultKind::ExpectedOperand, st.pos)),
        }
    }
}

/// A term in the printing pass.
pub open spec fn pp_trm(toks: Seq<Lexeme>, st: PState) -> Result<(PState, i32), Fault>
    decreases toks.len() - st.pos, 1int,
{
    match pp_op(toks, st) {
        Ok((st1, a)) => {
            if 0 <= st1.pos < toks.len() && toks[st1.pos] == Lexeme::Multiplication {
                if st.pos < st1.pos + 1 <= toks.len() {
                    match pp_trm(toks, PState { pos: st1.pos + 1, stmt: st1.stmt + " * "@, ..st1 }) {
                        Ok((st2, b)) => Ok((st2, vstd::wrapping::i32_specs::wrapping_mul(a, b))),
                        Err(f) => Err(f),
                    }
                } else {
                    Err(pfault(FaultKind::PastEnd, st1.pos))
                }
            } else {
                Ok((st1, a))
            }
        },
        Err(f) => Err(f),
    }
}

/// An expression in the printing pass.
pub open spec fn pp_exp(toks: Seq<Lexeme>, st: PState) -> Result<(PState, i32), Fault>
    decreases toks.len() - st.pos, 2int,
{
    match pp_trm(toks, st) {
        Ok((st1, a)) => {
            if 0 <= st1.pos < toks.len() && toks[st1.pos] == Lexeme::Addition {
                if st.pos < st1.pos + 1 <= toks.len() {
                    match pp_exp(toks, PState { pos: st1.pos + 1, stmt: st1.stmt + " + "@, ..st1 }) {
                        Ok((st2, b)) => Ok((st2, vstd::wrapping::i32_specs::wrapping_add(a, b))),
                        Err(f) => Err(f),
                    }
                } else {
                    Err(pfault(FaultKind::PastEnd, st1.pos))
                }
            } else if 0 <= st1.pos < toks.len() && toks[st1.pos] == Lexeme::Subtraction {
                if st.pos < st1.pos + 1 <= toks.len() {
                    match pp_exp(toks, PState { pos: st1.pos + 1, stmt: st1.stmt + " - "@, ..st1 }) {
                        Ok((st2, b)) => Ok((st2, vstd::wrapping::i32_specs::wrapping_sub(a, b))),
                        Err(f) => Err(f),
                    }
                } else {
                    Err(pfault(FaultKind::PastEnd, st1.pos))
                }
            } else {
                Ok((st1, a))
            }
        },
        Err(f) => Err(f),
    }
}

/// A comparison in the printing pass.
pub open spec fn pp_comp(toks: Seq<Lexeme>, st: PState) -> Result<(PState, bool), Fault>
    decreases toks.len() - st.pos, 3int,
{
    if !(0 <= st.pos < toks.len()) {
        Err(pfault(FaultKind::PastEnd, st.pos))
    } else if !(toks[st.pos] == Lexeme::LeftParen) {
        Err(pfault(FaultKind::ExpectedLeftParen, st.pos))
    } else {
        match pp_op(toks, PState { pos: st.pos + 1, stmt: st.stmt + "("@, ..st }) {
            Ok((st1, a)) => {
                if !(0 <= st1.pos < toks.len()) {
                    Err(pfault(FaultKind::PastEnd, st1.pos))
                } else {
                    match crate::executor::cmp_of(toks[st1.pos]) {
                        Some(cmp) => {
                            if st.pos < st1.pos + 1 <= toks.len() {
                                match pp_op(
                                    toks,
                                    PState {
                                        pos: st1.pos + 1,
                                        stmt: st1.stmt + cmp_text(cmp),
                                        ..st1
                                    },
                                ) {
                                    Ok((st2, b)) => {
                                        if 0 <= st2.pos < toks.len() && toks[st2.pos]
                                            == Lexeme::RightParen {
                                            Ok(
                                                (
                                                    PState {
                                                        pos: st2.pos + 1,
                                                        stmt: st2.stmt + ")"@,
                                                        ..st2
                                                    },
                                                    crate::executor::cmp_holds(cmp, a, b),
                                                ),
                                            )
                                        } else {
                                            Err(pfault(FaultKind::ExpectedRightParen, st2.pos))
                                        }
                                    },
                                    Err(f) => Err(f),
                                }
                            } else {
                                Err(pfault(FaultKind::PastEnd, st1.pos))
                            }
                        },
                        None => Err(pfault(FaultKind::ExpectedComparison, st1.pos)),
                    }
                }
            },
            Err(f) => Err(f),
        }
    }
}

/// A condition in the printing pass; both sides of `&&` and `||` are
/// always evaluated.
pub open spec fn pp_cond(toks: Seq<Lexeme>, st: PState) -> Result<(PState, bool), Fault>
    decreases toks.len() - st.pos, 4int,
{
    if !(0 <= st.pos < toks.len()) {
        Err(pfault(FaultKind::PastEnd, st.pos))
    } else if toks[st.pos] == Lexeme::LeftSquare {
        match pp_cond(toks, PState { pos: st.pos + 1, stmt: st.stmt + "["@, ..st }) {
            Ok((st1, r1)) => {
                if !(0 <= st1.pos < toks.len()) {
                    Err(pfault(FaultKind::PastEnd, st1.pos))
                } else if toks[st1.pos] == Lexeme::LogicalAnd || toks[st1.pos]
                    == Lexeme::LogicalOr {
                    let conj = toks[st1.pos] == Lexeme::LogicalAnd;
                    let mid = if conj { " && "@ } else { " || "@ };
                    if st.pos < st1.pos + 1 <= toks.len() {
                        match pp_cond(
                            toks,
                            PState { pos: st1.pos + 1, stmt: st1.stmt + mid, ..st1 },
                        ) {
                            Ok((st2, r2)) => {
                                if 0 <= st2.pos < toks.len() && toks[st2.pos]
                                    == Lexeme::RightSquare {
                                    Ok(
                                        (
                                            PState {
                                                pos: st2.pos + 1,
                                                stmt: st2.stmt + "]"@,
                                                ..st2
                                            },
                                            if conj {
                                                r1 && r2
                                            } else {
                                                r1 || r2
                                            },
                                        ),
                                    )
                                } else {
                                    Err(pfault(FaultKind::ExpectedRightSquare, st2.pos))
                                }
                            },
                            Err(f) => Err(f),
                        }
                    } else {
                        Err(pfault(FaultKind::PastEnd, st1.pos))
                    }
                } else {
                    Err(pfault(FaultKind::ExpectedConnective, st1.pos))
                }
            },
            Err(f) => Err(f),
        }
    } else if toks[st.pos] == Lexeme::Exclamation {
        match pp_comp(toks, PState { pos: st.pos + 1, stmt: st.stmt + "!"@, ..st }) {
            Ok((st1, r)) => Ok((st1, !r)),
            Err(f) => Err(f),
        }
    } else {
        pp_comp(toks, st)
    }
}

/// An assignment in the printing pass: collects the line `X = ...;` and
/// performs the assignment.
pub open spec fn pp_assign(toks: Seq<Lexeme>, st: PState) -> Result<PState, Fault> {
    if !(0 <= st.pos < toks.len()) {
        Err(pfault(FaultKind::PastEnd, st.pos))
    } else {
        match toks[st.pos] {
            Lexeme::Identifier(name) => {
                match pp_id(toks, PState { ctxs: Seq::empty(), ..st }) {
                    Ok(st1) => {
                        if !(0 <= st1.pos < toks.len()) {
                            Err(pfault(FaultKind::PastEnd, st1.pos))
                        } else if !(toks[st1.pos] == Lexeme::Assignment) {
                            Err(pfault(FaultKind::ExpectedAssign, st1.pos))
                        } else {
                            match pp_exp(
                                toks,
                                PState { pos: st1.pos + 1, stmt: st1.stmt + " = "@, ..st1 },
                            ) {
                                Ok((st2, v)) => {
                                    let env2 = env_store(st2.env, name, v);
                                    if !(0 <= st2.pos < toks.len()) {
                                        Err(pfault(FaultKind::PastEnd, st2.pos))
                                    } else if toks[st2.pos] == Lexeme::Semicolon {
                                        Ok(
                                            PState {
                                                pos: st2.pos + 1,
                                                env: env2,
                                                stmt: Seq::empty(),
                                                stmts: st2.stmts.push(st2.stmt + ";"@),
                                                ..st2
                                            },
                                        )
                                    } else {
                                        Err(pfault(FaultKind::ExpectedSemicolon, st2.pos))
                                    }
                                },
                                Err(f) => Err(f),
                            }
                        }
                    },
                    Err(f) => Err(f),
                }
            },
            _ => Err(pfault(FaultKind::ExpectedIdentifier, st.pos)),
        }
    }
}

/// A `read` statement in the printing pass: only collects the line; no
/// input is consumed.
pub open spec fn pp_in(toks: Seq<Lexeme>, st: PState) -> Result<PState, Fault> {
    match pp_id_list(
        toks,
        PState { pos: st.pos + 1, stmt: st.stmt + "read "@, ctxs: Seq::empty(), ..st },
    ) {
        Ok(st1) => {
            if !(0 <= st1.pos < toks.len()) {
                Err(pfault(FaultKind::PastEnd, st1.pos))
            } else if toks[st1.pos] == Lexeme::Semicolon {
                Ok(
                    PState {
                        pos: st1.pos + 1,
                        stmt: Seq::empty(),
                        stmts: st1.stmts.push(st1.stmt + ";"@),
                        ..st1
                    },
                )
            } else {
                Err(pfault(FaultKind::ExpectedSemicolon, st1.pos))
            }
        },
        Err(f) => Err(f),
    }
}

/// A `write` statement in the printing pass: only collects the line; no
/// output is emitted.
pub open spec fn pp_out(toks: Seq<Lexeme>, st: PState) -> Result<PState, Fault> {
    match pp_id_list(
        toks,
        PState { pos: st.pos + 1, stmt: st.stmt + "write "@, ctxs: Seq::empty(), ..st },
    ) {
        Ok(st1) => {
            if !(0 <= st1.pos < toks.len()) {
                Err(pfault(FaultKind::PastEnd, st1.pos))
            } else if toks[st1.pos] == Lexeme::Semicolon {
                Ok(
                    PState {
                        pos: st1.pos + 1,
                        stmt: Seq::empty(),
                        stmts: st1.stmts.push(st1.stmt + ";"@),
                        ..st1
                    },
                )
            } else {
                Err(pfault(FaultKind::ExpectedSemicolon, st1.pos))
            }
        },
        Err(f) => Err(f),
    }
}

/// An `if` statement in the printing pass: both branches are walked.
pub open spec fn pp_if(toks: Seq<Lexeme>, st: PState) -> Result<PState, Fault>
    decreases toks.len() - st.pos, 0int,
{
    match pp_cond(toks, PState { pos: st.pos + 1, stmt: st.stmt + "if "@, ..st }) {
        Ok((st1, _)) => {
            if !(0 <= st1.pos < toks.len()) {
                Err(pfault(FaultKind::PastEnd, st1.pos))
            } else if !(toks[st1.pos] == Lexeme::Then) {
                Err(pfault(FaultKind::ExpectedThen, st1.pos))
            } else {
                let sta = PState {
                    pos: st1.pos + 1,
                    stmt: Seq::empty(),
                    stmts: st1.stmts.push(st1.stmt + " then"@),
                    ..st1
                };
                if st.pos < sta.pos <= toks.len() {
                    match pp_stmt_seq(toks, sta) {
                        Ok(st2) => {
                            if !(0 <= st2.pos < toks.len()) {
                                Err(pfault(FaultKind::PastEnd, st2.pos))
                            } else if toks[st2.pos] == Lexeme::End {
                                pp_end_semi(toks, st2)
                            } else if toks[st2.pos] == Lexeme::Else {
                                let stb = PState {
                                    pos: st2.pos + 1,
                                    stmt: Seq::empty(),
                                    stmts: st2.stmts.push(st2.stmt + "else"@),
                                    ..st2
                                };
                                if st.pos < stb.pos <= toks.len() {
                                    match pp_stmt_seq(toks, stb) {
                                        Ok(st3) => {
                                            if !(0 <= st3.pos < toks.len()) {
                                                Err(pfault(FaultKind::PastEnd, st3.pos))
                                            } else if toks[st3.pos] == Lexeme::End {
                                                pp_end_semi(toks, st3)
                                            } else {
                                                Err(pfault(FaultKind::ExpectedEnd, st3.pos))
                                            }
                                        },
                                        Err(f) => Err(f),
                                    }
                                } else {
                                    Err(pfault(FaultKind::PastEnd, st2.pos))
                                }
                            } else {
                                Err(pfault(FaultKind::ExpectedEndOrElse, st2.pos))
                            }
                        },
                        Err(f) => Err(f),
                    }
                } else {
                    Err(pfault(FaultKind::PastEnd, st1.pos))
                }
            }
        },
        Err(f) => Err(f),
    }
}

/// Consuming `end ;` in the printing pass: the cursor stands on the `end`;
/// the collected line `...end;` is pushed.
pub open spec fn pp_end_semi(toks: Seq<Lexeme>, st: PState) -> Result<PState, Fault> {
    if !(0 <= st.pos + 1 < toks.len()) {
        Err(pfault(FaultKind::PastEnd, st.pos + 1))
    } else if toks[st.pos + 1] == Lexeme::Semicolon {
        Ok(
            PState {
                pos: st.pos + 2,
                stmt: Seq::empty(),
                stmts: st.stmts.push(st.stmt + "end"@ + ";"@),
                ..st
            },
        )
    } else {
        Err(pfault(FaultKind::ExpectedSemicolon, st.pos + 1))
    }
}

/// A `while` statement in the printing pass: the body is walked once,
/// whatever the condition's value.
pub open spec fn pp_loop(toks: Seq<Lexeme>, st: PState) -> Result<PState, Fault>
    decreases toks.len() - st.pos, 0int,
{
    match pp_cond(toks, PState { pos: st.pos + 1, stmt: st.stmt + "while "@, ..st }) {
        Ok((st1, _)) => {
            if !(0 <= st1.pos < toks.len()) {
                Err(pfault(FaultKind::PastEnd, st1.pos))
            } else if !(toks[st1.pos] == Lexeme::Loop) {
                Err(pfault(FaultKind::ExpectedLoop, st1.pos))
            } else {
                let sta = PState {
                    pos: st1.pos + 1,
                    stmt: Seq::empty(),
                    stmts: st1.stmts.push(st1.stmt + " loop"@),
                    ..st1
                };
                if st.pos < sta.pos <= toks.len() {
                    match pp_stmt_seq(toks, sta) {
                        Ok(st2) => {
                            if !(0 <= st2.pos < toks.len()) {
                                Err(pfault(FaultKind::PastEnd, st2.pos))
                            } else if toks[st2.pos] == Lexeme::End {
                                pp_end_semi(toks, st2)
                            } else {
                                Err(pfault(FaultKind::ExpectedEnd, st2.pos))
                            }
                        },
                        Err(f) => Err(f),
                    }
                } else {
                    Err(pfault(FaultKind::PastEnd, st1.pos))
                }
            }
        },
        Err(f) => Err(f),
    }
}

/// A statement sequence in the printing pass.
pub open spec fn pp_stmt_seq(toks: Seq<Lexeme>, st: PState) -> Result<PState, Fault>
    decreases toks.len() - st.pos, 1int,
{
    if !(0 <= st.pos < toks.len()) {
        Err(pfault(FaultKind::PastEnd, st.pos))
    } else {
        let step: Option<Result<PState, Fault>> = match toks[st.pos] {
            Lexeme::Read => Some(pp_in(toks, st)),
            Lexeme::Write => Some(pp_out(toks, st)),
            Lexeme::If => Some(pp_if(toks, st)),
            Lexeme::While => Some(pp_loop(toks, st)),
            Lexeme::Identifier(_) => Some(pp_assign(toks, st)),
            _ => None,
        };
        match step {
            None => Ok(st),
            Some(Ok(st1)) => {
                if st.pos < st1.pos <= toks.len() {
                    pp_stmt_seq(toks, st1)
                } else {
                    Err(pfault(FaultKind::PastEnd, st1.pos))
                }
            },
            Some(Err(f)) => Err(f),
        }
    }
}

/// A whole program in the printing pass: the lines `program`, the
/// declarations, `begin`, the statements, `end`.
pub open spec fn pp_prog(toks: Seq<Lexeme>, st: PState) -> Result<PState, Fault> {
    if !(0 <= st.pos < toks.len()) {
        Err(pfault(FaultKind::PastEnd, st.pos))
    } else if !(toks[st.pos] == Lexeme::Program) {
        Err(pfault(FaultKind::ExpectedProgram, st.pos))
    } else {
        match pp_decl_seq(
            toks,
            PState { pos: st.pos + 1, stmts: st.stmts.push("program"@), ..st },
        ) {
            Ok(st1) => {
                if !(0 <= st1.pos < toks.len()) {
                    Err(pfault(FaultKind::PastEnd, st1.pos))
                } else if !(toks[st1.pos] == Lexeme::Begin) {
                    Err(pfault(FaultKind::ExpectedBegin, st1.pos))
                } else {
                    match pp_stmt_seq(
                        toks,
                        PState { pos: st1.pos + 1, stmts: st1.stmts.push("begin"@), ..st1 },
                    ) {
                        Ok(st2) => {
                            if !(0 <= st2.pos < toks.len()) {
                                Err(pfault(FaultKind::PastEnd, st2.pos))
                            } else if toks[st2.pos] == Lexeme::End {
                                Ok(PState { stmts: st2.stmts.push("end"@), ..st2 })
                            } else {
                                Err(pfault(FaultKind::ExpectedEnd, st2.pos))
                            }
                        },
                        Err(f) => Err(f),
                    }
                }
            },
            Err(f) => Err(f),
        }
    }
}

/// The printing-pass state a fresh run starts from.
pub open spec fn init_pstate() -> PState {
    PState {
        pos: 0,
        env: Seq::empty(),
        stmt: Seq::empty(),
        stmts: Seq::empty(),
        ctxs: Seq::empty(),
    }
}

pub proof fn lemma_pp_op_progress(toks: Seq<Lexeme>, st: PState)
    ensures
        (match pp_op(toks, st) {
            Ok((st1, _)) => st.pos < st1.pos <= toks.len(),
            Err(_) => true,
        }),
    decreases toks.len() - st.pos, 0int,
{
    if 0 <= st.pos < toks.len() && toks[st.pos] == Lexeme::LeftParen {
        lemma_pp_exp_progress(toks, PState { pos: st.pos + 1, stmt: st.stmt + "("@, ..st });
    }
}

pub proof fn lemma_pp_trm_progress(toks: Seq<Lexeme>, st: PState)
    ensures
        (match pp_trm(toks, st) {
            Ok((st1, _)) => st.pos < st1.pos <= toks.len(),
            Err(_) => true,
        }),
    decreases toks.len() - st.pos, 1int,
{
    lemma_pp_op_progress(toks, st);
    match pp_op(toks, st) {
        Ok((st1, _)) => {
            if 0 <= st1.pos < toks.len() && toks[st1.pos] == Lexeme::Multiplication {
                if st.pos < st1.pos + 1 <= toks.len() {
                    lemma_pp_trm_progress(
                        toks,
                        PState { pos: st1.pos + 1, stmt: st1.stmt + " * "@, ..st1 },
                    );
                }
            }
        },
        Err(_) => {},
    }
}

pub proof fn lemma_pp_exp_progress(toks: Seq<Lexeme>, st: PState)
    ensures
        (match pp_exp(toks, st) {
            Ok((st1, _)) => st.pos < st1.pos <= toks.len(),
            Err(_) => true,
        }),
    decreases toks.len() - st.pos, 2int,
{
    lemma_pp_trm_progress(toks, st);
    match pp_trm(toks, st) {
        Ok((st1, _)) => {
            if 0 <= st1.pos < toks.len() && toks[st1.pos] == Lexeme::Addition {
                if st.pos < st1.pos + 1 <= toks.len() {
                    lemma_pp_exp_progress(
                        toks,
                        PState { pos: st1.pos + 1, stmt: st1.stmt + " + "@, ..st1 },
                    );
                }
            } else if 0 <= st1.pos < toks.len() && toks[st1.pos] == Lexeme::Subtraction {
                if st.pos < st1.pos + 1 <= toks.len() {
                    lemma_pp_exp_progress(
                        toks,
                        PState { pos: st1.pos + 1, stmt: st1.stmt + " - "@, ..st1 },
                    );
                }
            }
        },
        Err(_) => {},
    }
}

pub proof fn lemma_pp_comp_progress(toks: Seq<Lexeme>, st: PState)
    ensures
        (match pp_comp(toks, st) {
            Ok((st1, _)) => st.pos < st1.pos <= toks.len(),
            Err(_) => true,
        }),
    decreases toks.len() - st.pos, 3int,
{
    if 0 <= st.pos < toks.len() && toks[st.pos] == Lexeme::LeftParen {
        let sta = PState { pos: st.pos + 1, stmt: st.stmt + "("@, ..st };
        lemma_pp_op_progress(toks, sta);
        match pp_op(toks, sta) {
            Ok((st1, _)) => {
                if 0 <= st1.pos < toks.len() && crate::executor::cmp_of(toks[st1.pos]) is Some {
                    if st.pos < st1.pos + 1 <= toks.len() {
                        match crate::executor::cmp_of(toks[st1.pos]) {
                            Some(cmp) => {
                                lemma_pp_op_progress(
                                    toks,
                                    PState { pos: st1.pos + 1, stmt: st1.stmt + cmp_text(cmp), ..st1 },
                                );
                            },
                            None => {},
                        }
                    }
                }
            },
            Err(_) => {},
        }
    }
}

pub proof fn lemma_pp_cond_progress(toks: Seq<Lexeme>, st: PState)
    ensures
        (match pp_cond(toks, st) {
            Ok((st1, _)) => st.pos < st1.pos <= toks.len(),
            Err(_) => true,
        }),
    decreases toks.len() - st.pos, 4int,
{
    if 0 <= st.pos < toks.len() {
        if toks[st.pos] == Lexeme::LeftSquare {
            let sta = PState { pos: st.pos + 1, stmt: st.stmt + "["@, ..st };
            lemma_pp_cond_progress(toks, sta);
            match pp_cond(toks, sta) {
                Ok((st1, _)) => {
                    if 0 <= st1.pos < toks.len() && (toks[st1.pos] == Lexeme::LogicalAnd
                        || toks[st1.pos] == Lexeme::LogicalOr) {
                        let conj = toks[st1.pos] == Lexeme::LogicalAnd;
                        let mid = if conj { " && "@ } else { " || "@ };
                        if st.pos < st1.pos + 1 <= toks.len() {
                            lemma_pp_cond_progress(
                                toks,
                                PState { pos: st1.pos + 1, stmt: st1.stmt + mid, ..st1 },
                            );
                        }
                    }
                },
                Err(_) => {},
            }
        } else if toks[st.pos] == Lexeme::Exclamation {
            lemma_pp_comp_progress(toks, PState { pos: st.pos + 1, stmt: st.stmt + "!"@, ..st });
        } else {
            lemma_pp_comp_progress(toks, st);
        }
    }
}

pub proof fn lemma_pp_id_list_progress(toks: Seq<Lexeme>, st: PState)
    ensures
        (match pp_id_list(toks, st) {
            Ok(st1) => st.pos < st1.pos <= toks.len(),
            Err(_) => true,
        }),
    decreases toks.len() - st.pos,
{
    match pp_id(toks, st) {
        Ok(st1) => {
            if 0 <= st1.pos < toks.len() && toks[st1.pos] == Lexeme::Comma {
                if st.pos < st1.pos + 1 <= toks.len() {
                    lemma_pp_id_list_progress(
                        toks,
                        PState { pos: st1.pos + 1, stmt: st1.stmt + ", "@, ..st1 },
                    );
                }
            }
        },
        Err(_) => {},
    }
}

pub proof fn lemma_pp_decl_progress(toks: Seq<Lexeme>, st: PState)
    ensures
        (match pp_decl(toks, st) {
            Ok(st1) => st.pos < st1.pos <= toks.len(),
            Err(_) => true,
        }),
{
    if 0 <= st.pos < toks.len() && toks[st.pos] == Lexeme::Int {
        lemma_pp_id_list_progress(toks, PState { pos: st.pos + 1, stmt: st.stmt + "int "@, ..st });
    }
}

pub proof fn lemma_pp_assign_progress(toks: Seq<Lexeme>, st: PState)
    ensures
        (match pp_assign(toks, st) {
            Ok(st1) => st.pos < st1.pos <= toks.len(),
            Err(_) => true,
        }),
{
    if 0 <= st.pos < toks.len() && toks[st.pos] is Identifier {
        match pp_id(toks, PState { ctxs: Seq::empty(), ..st }) {
            Ok(st1) => {
                if 0 <= st1.pos < toks.len() && toks[st1.pos] == Lexeme::Assignment {
                    lemma_pp_exp_progress(
                        toks,
                        PState { pos: st1.pos + 1, stmt: st1.stmt + " = "@, ..st1 },
                    );
                }
            },
            Err(_) => {},
        }
    }
}

pub proof fn lemma_pp_in_progress(toks: Seq<Lexeme>, st: PState)
    ensures
        (match pp_in(toks, st) {
            Ok(st1) => st.pos < st1.pos <= toks.len(),
            Err(_) => true,
        }),
{
    lemma_pp_id_list_progress(
        toks,
        PState { pos: st.pos + 1, stmt: st.stmt + "read "@, ctxs: Seq::empty(), ..st },
    );
}

pub proof fn lemma_pp_out_progress(toks: Seq<Lexeme>, st: PState)
    ensures
        (match pp_out(toks, st) {
            Ok(st1) => st.pos < st1.pos <= toks.len(),
            Err(_) => true,
        }),
{
    lemma_pp_id_list_progress(
        toks,
        PState { pos: st.pos + 1, stmt: st.stmt + "write "@, ctxs: Seq::empty(), ..st },
    );
}

// ---------------------------------------------------------------------------
// The printing pass, executable
// ---------------------------------------------------------------------------

/// Consumes one identifier in the printing pass, per `pp_id`.
pub fn parse_id(tree: &mut ParseTree) -> (r: Result<(), Fault>)
    requires
        old(tree).wf(),
    ensures
        pframes(old(tree), final(tree)),
        psteps_to(r, pp_id(old(tree).toks(), ps_of(old(tree))), final(tree)),
{
    if tree.state as usize >= tree.tokens.len() {
        return Err(Fault { kind: FaultKind::PastEnd, at: tree.state as usize });
    }
    if !matches!(tree.get_token(), Token::Identifier(_)) {
        return Err(Fault { kind: FaultKind::ExpectedIdentifier, at: tree.state as usize });
    }
    let identifier = tree.retrieve_identifier();
    tree.current_statement.append(identifier.as_str());
    tree.context.push(identifier.clone());
    if !tree.contains_variable(identifier.as_str()) {
        tree.insert_variable(identifier.clone(), 0);
    }
    tree.next();
    proof {
        assert(tree.ctxs() =~= ps_of(old(tree)).ctxs.push(identifier@));
    }
    Ok(())
}

/// Consumes one integer in the printing pass, per `pp_int`.
pub fn parse_int(tree: &mut ParseTree) -> (r: Result<(), Fault>)
    requires
        old(tree).wf(),
    ensures
        pframes(old(tree), final(tree)),
        psteps_to(r, pp_int(old(tree).toks(), ps_of(old(tree))), final(tree)),
{
    if tree.state as usize >= tree.tokens.len() {
        return Err(Fault { kind: FaultKind::PastEnd, at: tree.state as usize });
    }
    if !matches!(tree.get_token(), Token::Integer(_)) {
        return Err(Fault { kind: FaultKind::ExpectedOperand, at: tree.state as usize });
    }
    let integer = tree.retrieve_integer();
    let rendered = crate::decimal::int_to_string(integer);
    tree.current_statement.append(rendered.as_str());
    tree.next();
    Ok(())
}

/// Consumes one identifier list in the printing pass, per `pp_id_list`.
pub fn parse_id_list(tree: &mut ParseTree) -> (r: Result<(), Fault>)
    requires
        old(tree).wf(),
    ensures
        pframes(old(tree), final(tree)),
        psteps_to(r, pp_id_list(old(tree).toks(), ps_of(old(tree))), final(tree)),
    decreases tree.toks().len() - tree.state,
{
    parse_id(tree)?;
    if (tree.state as usize) < tree.tokens.len() && matches!(tree.get_token(), Token::Comma) {
        tree.current_statement.append(", ");
        tree.next();
        parse_id_list(tree)
    } else {
        Ok(())
    }
}

/// Consumes one declaration in the printing pass, per `pp_decl`.
pub fn parse_decl(tree: &mut ParseTree) -> (r: Result<(), Fault>)
    requires
        old(tree).wf(),
    ensures
        pframes(old(tree), final(tree)),
        psteps_to(r, pp_decl(old(tree).toks(), ps_of(old(tree))), final(tree)),
{
    if tree.state as usize >= tree.tokens.len() {
        return Err(Fault { kind: FaultKind::PastEnd, at: tree.state as usize });
    }
    if !matches!(tree.get_token(), Token::Int) {
        return Err(Fault { kind: FaultKind::ExpectedInt, at: tree.state as usize });
    }
    tree.current_statement.append("int ");
    tree.next();
    parse_id_list(tree)?;
    if tree.state as usize >= tree.tokens.len() {
        return Err(Fault { kind: FaultKind::PastEnd, at: tree.state as usize });
    }
    if matches!(tree.get_token(), Token::Semicolon) {
        tree.current_statement.append(";");
        tree.fetch_current_statement();
        tree.next();
        Ok(())
    } else {
        Err(Fault { kind: FaultKind::ExpectedSemicolon, at: tree.state as usize })
    }
}

/// Consumes one declaration sequence in the printing pass, per
/// `pp_decl_seq`.
pub fn parse_decl_seq(tree: &mut ParseTree) -> (r: Result<(), Fault>)
    requires
        old(tree).wf(),
    ensures
        pframes(old(tree), final(tree)),
        psteps_to(r, pp_decl_seq(old(tree).toks(), ps_of(old(tree))), final(tree)),
    decreases tree.toks().len() - tree.state,
{
    let ghost toks = old(tree).toks();
    let ghost s0 = ps_of(old(tree));
    parse_decl(tree)?;
    proof {
        lemma_pp_decl_progress(toks, s0);
    }
    if (tree.state as usize) < tree.tokens.len() && matches!(tree.get_token(), Token::Int) {
        parse_decl_seq(tree)
    } else {
        Ok(())
    }
}

/// Consumes one operand in the printing pass, per `pp_op`.
pub fn parse_op(tree: &mut ParseTree) -> (r: Result<i32, Fault>)
    requires
        old(tree).wf(),
    ensures
        pframes(old(tree), final(tree)),
        psteps_to_val(r, pp_op(old(tree).toks(), ps_of(old(tree))), final(tree)),
    decreases tree.toks().len() - tree.state, 0int,
{
    let ghost toks = old(tree).toks();
    let ghost s0 = ps_of(old(tree));
    if tree.state as usize >= tree.tokens.len() {
        return Err(Fault { kind: FaultKind::PastEnd, at: tree.state as usize });
    }
    if matches!(tree.get_token(), Token::LeftParen) {
        tree.current_statement.append("(");
        tree.next();
        let result = parse_exp(tree)?;
        if (tree.state as usize) < tree.tokens.len() && matches!(
            tree.get_token(),
            Token::RightParen,
        ) {
            tree.current_statement.append(")");
            tree.next();
            Ok(result)
        } else {
            Err(Fault { kind: FaultKind::ExpectedRightParen, at: tree.state as usize })
        }
    } else if matches!(tree.get_token(), Token::Identifier(_)) {
        let current_id = tree.retrieve_identifier();
        let r_id = parse_id(tree);
        proof {
            assert(r_id is Ok);
        }
        if r_id.is_err() {
            return Err(Fault { kind: FaultKind::PastEnd, at: tree.state as usize });
        }
        proof {
            lemma_env_store_props(s0.env, current_id@, 0i32);
        }
        let result = tree.retrieve_variable(current_id.as_str());
        Ok(result)
    } else if matches!(tree.get_token(), Token::Integer(_)) {
        let result = tree.retrieve_integer();
        let r_int = parse_int(tree);
        proof {
            assert(r_int is Ok);
        }
        if r_int.is_err() {
            return Err(Fault { kind: FaultKind::PastEnd, at: tree.state as usize });
        }
        Ok(result)
    } else {
        Err(Fault { kind: FaultKind::ExpectedOperand, at: tree.state as usize })
    }
}

/// Consumes one term in the printing pass, per `pp_trm`.
pub fn parse_trm(tree: &mut ParseTree) -> (r: Result<i32, Fault>)
    requires
        old(tree).wf(),
    ensures
        pframes(old(tree), final(tree)),
        psteps_to_val(r, pp_trm(old(tree).toks(), ps_of(old(tree))), final(tree)),
    decreases tree.toks().len() - tree.state, 1int,
{
    let ghost toks = old(tree).toks();
    let ghost s0 = ps_of(old(tree));
    let a = parse_op(tree)?;
    proof {
        lemma_pp_op_progress(toks, s0);
    }
    if (tree.state as usize) < tree.tokens.len() && matches!(
        tree.get_token(),
        Token::Multiplication,
    ) {
        tree.current_statement.append(" * ");
        tree.next();
        let b = parse_trm(tree)?;
        Ok(a.wrapping_mul(b))
    } else {
        Ok(a)
    }
}

/// Consumes one expression in the printing pass, per `pp_exp`.
pub fn parse_exp(tree: &mut ParseTree) -> (r: Result<i32, Fault>)
    requires
        old(tree).wf(),
    ensures
        pframes(old(tree), final(tree)),
        psteps_to_val(r, pp_exp(old(tree).toks(), ps_of(old(tree))), final(tree)),
    decreases tree.toks().len() - tree.state, 2int,
{
    let ghost toks = old(tree).toks();
    let ghost s0 = ps_of(old(tree));
    let a = parse_trm(tree)?;
    proof {
        lemma_pp_trm_progress(toks, s0);
    }
    if (tree.state as usize) < tree.tokens.len() && matches!(tree.get_token(), Token::Addition) {
        tree.current_statement.append(" + ");
        tree.next();
        let b = parse_exp(tree)?;
        Ok(a.wrapping_add(b))
    } else if (tree.state as usize) < tree.tokens.len() && matches!(
        tree.get_token(),
        Token::Subtraction,
    ) {
        tree.current_statement.append(" - ");
        tree.next();
        let b = parse_exp(tree)?;
        Ok(a.wrapping_sub(b))
    } else {
        Ok(a)
    }
}

/// Consumes one comparison operator in the printing pass.
pub fn parse_comp_op(tree: &mut ParseTree) -> (r: Result<u32, Fault>)
    requires
        old(tree).wf(),
    ensures
        pframes(old(tree), final(tree)),
        (match r {
            Ok(cmp) => {
                &&& 0 <= old(tree).state < old(tree).toks().len()
                &&& crate::executor::cmp_of(old(tree).toks()[old(tree).state as int]) == Some(cmp)
                &&& ps_of(final(tree)) == (PState {
                    pos: old(tree).state + 1,
                    stmt: ps_of(old(tree)).stmt + cmp_text(cmp),
                    ..ps_of(old(tree))
                })
            },
            Err(f) => {
                &&& f == (if old(tree).state as int >= old(tree).toks().len() {
                    pfault(FaultKind::PastEnd, old(tree).state as int)
                } else {
                    pfault(FaultKind::ExpectedComparison, old(tree).state as int)
                })
                &&& ((old(tree).state as int) < old(tree).toks().len()
                    ==> crate::executor::cmp_of(old(tree).toks()[old(tree).state as int]) is None)
            },
        }),
{
    if tree.state as usize >= tree.tokens.len() {
        return Err(Fault { kind: FaultKind::PastEnd, at: tree.state as usize });
    }
    let result: u32 = if matches!(tree.get_token(), Token::LogicalEquality) {
        tree.current_statement.append(" == ");
        0
    } else if matches!(tree.get_token(), Token::LogicalInequality) {
        tree.current_statement.append(" != ");
        1
    } else if matches!(tree.get_token(), Token::LessThan) {
        tree.current_statement.append(" < ");
        2
    } else if matches!(tree.get_token(), Token::LessThanEqual) {
        tree.current_statement.append(" <= ");
        3
    } else if matches!(tree.get_token(), Token::GreaterThan) {
        tree.current_statement.append(" > ");
        4
    } else if matches!(tree.get_token(), Token::GreaterThanEqual) {
        tree.current_statement.append(" >= ");
        5
    } else {
        return Err(Fault { kind: FaultKind::ExpectedComparison, at: tree.state as usize });
    };
    tree.next();
    Ok(result)
}

/// Consumes one comparison in the printing pass, per `pp_comp`.
pub fn parse_comp(tree: &mut ParseTree) -> (r: Result<bool, Fault>)
    requires
        old(tree).wf(),
    ensures
        pframes(old(tree), final(tree)),
        psteps_to_val(r, pp_comp(old(tree).toks(), ps_of(old(tree))), final(tree)),
    decreases tree.toks().len() - tree.state, 3int,
{
    let ghost toks = old(tree).toks();
    let ghost s0 = ps_of(old(tree));
    if tree.state as usize >= tree.tokens.len() {
        return Err(Fault { kind: FaultKind::PastEnd, at: tree.state as usize });
    }
    if !matches!(tree.get_token(), Token::LeftParen) {
        return Err(Fault { kind: FaultKind::ExpectedLeftParen, at: tree.state as usize });
    }
    tree.current_statement.append("(");
    tree.next();
    let op_a = parse_op(tree)?;
    proof {
        lemma_pp_op_progress(toks, PState { pos: s0.pos + 1, stmt: s0.stmt + "("@, ..s0 });
    }
    let cmp = parse_comp_op(tree)?;
    let op_b = parse_op(tree)?;
    if (tree.state as usize) < tree.tokens.len() && matches!(tree.get_token(), Token::RightParen) {
        tree.current_statement.append(")");
        tree.next();
    } else {
        return Err(Fault { kind: FaultKind::ExpectedRightParen, at: tree.state as usize });
    }
    let result: bool = match cmp {
        0 => op_a == op_b,
        1 => op_a != op_b,
        2 => op_a < op_b,
        3 => op_a <= op_b,
        4 => op_a > op_b,
        _ => op_a >= op_b,
    };
    Ok(result)
}

/// Consumes one condition in the printing pass, per `pp_cond`.
#[verifier::rlimit(100)]
pub fn parse_cond(tree: &mut ParseTree) -> (r: Result<bool, Fault>)
    requires
        old(tree).wf(),
    ensures
        pframes(old(tree), final(tree)),
        psteps_to_val(r, pp_cond(old(tree).toks(), ps_of(old(tree))), final(tree)),
    decreases tree.toks().len() - tree.state, 4int,
{
    let ghost toks = old(tree).toks();
    let ghost s0 = ps_of(old(tree));
    if tree.state as usize >= tree.tokens.len() {
        return Err(Fault { kind: FaultKind::PastEnd, at: tree.state as usize });
    }
    if matches!(tree.get_token(), Token::LeftSquare) {
        tree.current_statement.append("[");
        tree.next();
        let r1 = parse_cond(tree)?;
        proof {
            lemma_pp_cond_progress(toks, PState { pos: s0.pos + 1, stmt: s0.stmt + "["@, ..s0 });
        }
        if tree.state as usize >= tree.tokens.len() {
            return Err(Fault { kind: FaultKind::PastEnd, at: tree.state as usize });
        }
        if matches!(tree.get_token(), Token::LogicalAnd) {
            tree.current_statement.append(" && ");
            tree.next();
            let r2 = parse_cond(tree)?;
            if (tree.state as usize) < tree.tokens.len() && matches!(
                tree.get_token(),
                Token::RightSquare,
            ) {
                tree.current_statement.append("]");
                tree.next();
                Ok(r1 && r2)
            } else {
                Err(Fault { kind: FaultKind::ExpectedRightSquare, at: tree.state as usize })
            }
        } else if matches!(tree.get_token(), Token::LogicalOr) {
            tree.current_statement.append(" || ");
            tree.next();
            let r2 = parse_cond(tree)?;
            if (tree.state as usize) < tree.tokens.len() && matches!(
                tree.get_token(),
                Token::RightSquare,
            ) {
                tree.current_statement.append("]");
                tree.next();
                Ok(r1 || r2)
            } else {
                Err(Fault { kind: FaultKind::ExpectedRightSquare, at: tree.state as usize })
            }
        } else {
            Err(Fault { kind: FaultKind::ExpectedConnective, at: tree.state as usize })
        }
    } else if matches!(tree.get_token(), Token::Exclamation) {
        tree.current_statement.append("!");
        tree.next();
        let r1 = parse_comp(tree)?;
        Ok(!r1)
    } else {
        parse_comp(tree)
    }
}

/// Consumes one `read` statement in the printing pass, per `pp_in`.
pub fn parse_in(tree: &mut ParseTree) -> (r: Result<(), Fault>)
    requires
        old(tree).wf(),
        (old(tree).state as int) < old(tree).toks().len(),
    ensures
        pframes(old(tree), final(tree)),
        psteps_to(r, pp_in(old(tree).toks(), ps_of(old(tree))), final(tree)),
{
    tree.context.clear();
    proof {
        assert(tree.ctxs() =~= Seq::<Seq<char>>::empty());
    }
    tree.current_statement.append("read ");
    tree.next();
    parse_id_list(tree)?;
    if tree.state as usize >= tree.tokens.len() {
        return Err(Fault { kind: FaultKind::PastEnd, at: tree.state as usize });
    }
    if matches!(tree.get_token(), Token::Semicolon) {
        tree.current_statement.append(";");
        tree.fetch_current_statement();
        tree.next();
        Ok(())
    } else {
        Err(Fault { kind: FaultKind::ExpectedSemicolon, at: tree.state as usize })
    }
}

/// Consumes one `write` statement in the printing pass, per `pp_out`.
pub fn parse_out(tree: &mut ParseTree) -> (r: Result<(), Fault>)
    requires
        old(tree).wf(),
        (old(tree).state as int) < old(tree).toks().len(),
    ensures
        pframes(old(tree), final(tree)),
        psteps_to(r, pp_out(old(tree).toks(), ps_of(old(tree))), final(tree)),
{
    tree.context.clear();
    proof {
        assert(tree.ctxs() =~= Seq::<Seq<char>>::empty());
    }
    tree.current_statement.append("write ");
    tree.next();
    parse_id_list(tree)?;
    if tree.state as usize >= tree.tokens.len() {
        return Err(Fault { kind: FaultKind::PastEnd, at: tree.state as usize });
    }
    if matches!(tree.get_token(), Token::Semicolon) {
        tree.current_statement.append(";");
        tree.fetch_current_statement();
        tree.next();
        Ok(())
    } else {
        Err(Fault { kind: FaultKind::ExpectedSemicolon, at: tree.state as usize })
    }
}

/// Consumes one assignment in the printing pass, per `pp_assign`.
pub fn parse_assign(tree: &mut ParseTree) -> (r: Result<(), Fault>)
    requires
        old(tree).wf(),
    ensures
        pframes(old(tree), final(tree)),
        psteps_to(r, pp_assign(old(tree).toks(), ps_of(old(tree))), final(tree)),
{
    let ghost toks = old(tree).toks();
    let ghost s0 = ps_of(old(tree));
    if tree.state as usize >= tree.tokens.len() {
        return Err(Fault { kind: FaultKind::PastEnd, at: tree.state as usize });
    }
    if !matches!(tree.get_token(), Token::Identifier(_)) {
        return Err(Fault { kind: FaultKind::ExpectedIdentifier, at: tree.state as usize });
    }
    tree.context.clear();
    proof {
        assert(tree.ctxs() =~= Seq::<Seq<char>>::empty());
    }
    let current_id = tree.retrieve_identifier();
    let r_id = parse_id(tree);
    proof {
        assert(r_id is Ok);
    }
    if r_id.is_err() {
        return Err(Fault { kind: FaultKind::PastEnd, at: tree.state as usize });
    }
    if tree.state as usize >= tree.tokens.len() {
        return Err(Fault { kind: FaultKind::PastEnd, at: tree.state as usize });
    }
    if !matches!(tree.get_token(), Token::Assignment) {
        return Err(Fault { kind: FaultKind::ExpectedAssign, at: tree.state as usize });
    }
    tree.current_statement.append(" = ");
    tree.next();
    let result = parse_exp(tree)?;
    tree.insert_variable(current_id, result);
    if tree.state as usize >= tree.tokens.len() {
        return Err(Fault { kind: FaultKind::PastEnd, at: tree.state as usize });
    }
    if matches!(tree.get_token(), Token::Semicolon) {
        tree.current_statement.append(";");
        tree.fetch_current_statement();
        tree.next();
        Ok(())
    } else {
        Err(Fault { kind: FaultKind::ExpectedSemicolon, at: tree.state as usize })
    }
}

/// Consumes one `if` statement in the printing pass, per `pp_if`.
#[verifier::rlimit(100)]
pub fn parse_if(tree: &mut ParseTree) -> (r: Result<(), Fault>)
    requires
        old(tree).wf(),
        (old(tree).state as int) < old(tree).toks().len(),
    ensures
        pframes(old(tree), final(tree)),
        psteps_to(r, pp_if(old(tree).toks(), ps_of(old(tree))), final(tree)),
    decreases tree.toks().len() - tree.state, 0int,
{
    let ghost toks = old(tree).toks();
    let ghost s0 = ps_of(old(tree));
    tree.current_statement.append("if ");
    tree.next();
    let _condition = parse_cond(tree)?;
    proof {
        lemma_pp_cond_progress(toks, PState { pos: s0.pos + 1, stmt: s0.stmt + "if "@, ..s0 });
    }
    if tree.state as usize >= tree.tokens.len() {
        return Err(Fault { kind: FaultKind::PastEnd, at: tree.state as usize });
    }
    if !matches!(tree.get_token(), Token::Then) {
        return Err(Fault { kind: FaultKind::ExpectedThen, at: tree.state as usize });
    }
    tree.current_statement.append(" then");
    tree.fetch_current_statement();
    tree.next();
    let ghost then_entry = ps_of(tree);
    parse_stmt_seq(tree)?;
    proof {
        lemma_pp_stmt_seq_progress(toks, then_entry);
    }
    if tree.state as usize >= tree.tokens.len() {
        return Err(Fault { kind: FaultKind::PastEnd, at: tree.state as usize });
    }
    if matches!(tree.get_token(), Token::End) {
        tree.current_statement.append("end");
        tree.next();
        if tree.state as usize >= tree.tokens.len() {
            return Err(Fault { kind: FaultKind::PastEnd, at: tree.state as usize });
        }
        if matches!(tree.get_token(), Token::Semicolon) {
            tree.current_statement.append(";");
            tree.fetch_current_statement();
            tree.next();
            Ok(())
        } else {
            Err(Fault { kind: FaultKind::ExpectedSemicolon, at: tree.state as usize })
        }
    } else if matches!(tree.get_token(), Token::Else) {
        tree.current_statement.append("else");
        tree.fetch_current_statement();
        tree.next();
        parse_stmt_seq(tree)?;
        if tree.state as usize >= tree.tokens.len() {
            return Err(Fault { kind: FaultKind::PastEnd, at: tree.state as usize });
        }
        if !matches!(tree.get_token(), Token::End) {
            return Err(Fault { kind: FaultKind::ExpectedEnd, at: tree.state as usize });
        }
        tree.current_statement.append("end");
        tree.next();
        if tree.state as usize >= tree.tokens.len() {
            return Err(Fault { kind: FaultKind::PastEnd, at: tree.state as usize });
        }
        if matches!(tree.get_token(), Token::Semicolon) {
            tree.current_statement.append(";");
            tree.fetch_current_statement();
            tree.next();
            Ok(())
        } else {
            Err(Fault { kind: FaultKind::ExpectedSemicolon, at: tree.state as usize })
        }
    } else {
        Err(Fault { kind: FaultKind::ExpectedEndOrElse, at: tree.state as usize })
    }
}

/// Consumes one `while` statement in the printing pass, per `pp_loop`.
#[verifier::rlimit(100)]
pub fn parse_loop(tree: &mut ParseTree) -> (r: Result<(), Fault>)
    requires
        old(tree).wf(),
        (old(tree).state as int) < old(tree).toks().len(),
    ensures
        pframes(old(tree), final(tree)),
        psteps_to(r, pp_loop(old(tree).toks(), ps_of(old(tree))), final(tree)),
    decreases tree.toks().len() - tree.state, 0int,
{
    let ghost toks = old(tree).toks();
    let ghost s0 = ps_of(old(tree));
    tree.current_statement.append("while ");
    tree.next();
    let _condition = parse_cond(tree)?;
    proof {
        lemma_pp_cond_progress(toks, PState { pos: s0.pos + 1, stmt: s0.stmt + "while "@, ..s0 });
    }
    if tree.state as usize >= tree.tokens.len() {
        return Err(Fault { kind: FaultKind::PastEnd, at: tree.state as usize });
    }
    if !matches!(tree.get_token(), Token::Loop) {
        return Err(Fault { kind: FaultKind::ExpectedLoop, at: tree.state as usize });
    }
    tree.current_statement.append(" loop");
    tree.fetch_current_statement();
    tree.next();
    parse_stmt_seq(tree)?;
    if tree.state as usize >= tree.tokens.len() {
        return Err(Fault { kind: FaultKind::PastEnd, at: tree.state as usize });
    }
    if matches!(tree.get_token(), Token::End) {
        tree.current_statement.append("end");
        tree.next();
        if tree.state as usize >= tree.tokens.len() {
            return Err(Fault { kind: FaultKind::PastEnd, at: tree.state as usize });
        }
        if matches!(tree.get_token(), Token::Semicolon) {
            tree.current_statement.append(";");
            tree.fetch_current_statement();
            tree.next();
            Ok(())
        } else {
            Err(Fault { kind: FaultKind::ExpectedSemicolon, at: tree.state as usize })
        }
    } else {
        Err(Fault { kind: FaultKind::ExpectedEnd, at: tree.state as usize })
    }
}

/// Consumes one statement sequence in the printing pass, per
/// `pp_stmt_seq`.
pub fn parse_stmt_seq(tree: &mut ParseTree) -> (r: Result<(), Fault>)
    requires
        old(tree).wf(),
    ensures
        pframes(old(tree), final(tree)),
        psteps_to(r, pp_stmt_seq(old(tree).toks(), ps_of(old(tree))), final(tree)),
    decreases tree.toks().len() - tree.state, 1int,
{
    let ghost toks = old(tree).toks();
    let ghost s0 = ps_of(old(tree));
    if tree.state as usize >= tree.tokens.len() {
        return Err(Fault { kind: FaultKind::PastEnd, at: tree.state as usize });
    }
    if matches!(tree.get_token(), Token::Read) {
        parse_in(tree)?;
        proof {
            lemma_pp_in_progress(toks, s0);
        }
    } else if matches!(tree.get_token(), Token::Write) {
        parse_out(tree)?;
        proof {
            lemma_pp_out_progress(toks, s0);
        }
    } else if matches!(tree.get_token(), Token::If) {
        parse_if(tree)?;
        proof {
            lemma_pp_if_progress(toks, s0);
        }
    } else if matches!(tree.get_token(), Token::While) {
        parse_loop(tree)?;
        proof {
            lemma_pp_loop_progress(toks, s0);
        }
    } else if matches!(tree.get_token(), Token::Identifier(_)) {
        parse_assign(tree)?;
        proof {
            lemma_pp_assign_progress(toks, s0);
        }
    } else {
        return Ok(());
    }
    parse_stmt_seq(tree)
}

/// Consumes one whole program in the printing pass, per `pp_prog`.
pub fn parse_prog(tree: &mut ParseTree) -> (r: Result<(), Fault>)
    requires
        old(tree).wf(),
    ensures
        pframes(old(tree), final(tree)),
        psteps_to(r, pp_prog(old(tree).toks(), ps_of(old(tree))), final(tree)),
{
    if tree.state as usize >= tree.tokens.len() {
        return Err(Fault { kind: FaultKind::PastEnd, at: tree.state as usize });
    }
    if !matches!(tree.get_token(), Token::Program) {
        return Err(Fault { kind: FaultKind::ExpectedProgram, at: tree.state as usize });
    }
    tree.push_statement(String::from_str("program"));
    tree.next();
    parse_decl_seq(tree)?;
    if tree.state as usize >= tree.tokens.len() {
        return Err(Fault { kind: FaultKind::PastEnd, at: tree.state as usize });
    }
    if !matches!(tree.get_token(), Token::Begin) {
        return Err(Fault { kind: FaultKind::ExpectedBegin, at: tree.state as usize });
    }
    tree.push_statement(String::from_str("begin"));
    tree.next();
    parse_stmt_seq(tree)?;
    if tree.state as usize >= tree.tokens.len() {
        return Err(Fault { kind: FaultKind::PastEnd, at: tree.state as usize });
    }
    if matches!(tree.get_token(), Token::End) {
        tree.push_statement(String::from_str("end"));
        Ok(())
    } else {
        Err(Fault { kind: FaultKind::ExpectedEnd, at: tree.state as usize })
    }
}

/// Walks a whole program in the printing pass over `file_tokens`, with
/// `stdin` held unused: the collected statement lines and the variable
/// store are in the returned cursor.
pub fn init_parser(file_tokens: Vec<Token>, stdin: Vec<i32>) -> (r: Result<ParseTree, Fault>)
    requires
        file_tokens@.len() <= u32::MAX as int,
    ensures
        (match r {
            Ok(tree) => {
                &&& tree.toks() == file_tokens.deep_view()
                &&& tree.input@ == stdin@
                &&& tree.output@.len() == 0
                &&& tree.depth == 0
                &&& pp_prog(file_tokens.deep_view(), init_pstate()) == Ok::<PState, Fault>(
                    ps_of(&tree),
                )
            },
            Err(f) => pp_prog(file_tokens.deep_view(), init_pstate()) == Err::<PState, Fault>(f),
        }),
{
    let mut this_parse_tree = ParseTree {
        tokens: file_tokens,
        memory: Vec::new(),
        current_statement: String::new(),
        statements: Vec::new(),
        context: Vec::new(),
        state: 0,
        depth: 0,
        input: stdin,
        input_pos: 0,
        output: Vec::new(),
        fuel: 0,
    };
    proof {
        assert(this_parse_tree.env() =~= Seq::<(Seq<char>, i32)>::empty());
        assert(this_parse_tree.stmts() =~= Seq::<Seq<char>>::empty());
        assert(this_parse_tree.ctxs() =~= Seq::<Seq<char>>::empty());
        assert(ps_of(&this_parse_tree) == init_pstate());
    }
    match parse_prog(&mut this_parse_tree) {
        Ok(()) => Ok(this_parse_tree),
        Err(f) => Err(f),
    }
}

pub proof fn lemma_pp_if_progress(toks: Seq<Lexeme>, st: PState)
    ensures
        (match pp_if(toks, st) {
            Ok(st1) => st.pos < st1.pos <= toks.len(),
            Err(_) => true,
        }),
    decreases toks.len() - st.pos, 0int,
{
    lemma_pp_cond_progress(toks, PState { pos: st.pos + 1, stmt: st.stmt + "if "@, ..st });
    match pp_cond(toks, PState { pos: st.pos + 1, stmt: st.stmt + "if "@, ..st }) {
        Ok((st1, _)) => {
            if 0 <= st1.pos < toks.len() && toks[st1.pos] == Lexeme::Then {
                let sta = PState {
                    pos: st1.pos + 1,
                    stmt: Seq::empty(),
                    stmts: st1.stmts.push(st1.stmt + " then"@),
                    ..st1
                };
                if st.pos < sta.pos <= toks.len() {
                    lemma_pp_stmt_seq_progress(toks, sta);
                    match pp_stmt_seq(toks, sta) {
                        Ok(st2) => {
                            if 0 <= st2.pos < toks.len() && toks[st2.pos] == Lexeme::Else {
                                let stb = PState {
                                    pos: st2.pos + 1,
                                    stmt: Seq::empty(),
                                    stmts: st2.stmts.push(st2.stmt + "else"@),
                                    ..st2
                                };
                                if st.pos < stb.pos <= toks.len() {
                                    lemma_pp_stmt_seq_progress(toks, stb);
                                }
                            }
                        },
                        Err(_) => {},
                    }
                }
            }
        },
        Err(_) => {},
    }
}

pub proof fn lemma_pp_loop_progress(toks: Seq<Lexeme>, st: PState)
    ensures
        (match pp_loop(toks, st) {
            Ok(st1) => st.pos < st1.pos <= toks.len(),
            Err(_) => true,
        }),
    decreases toks.len() - st.pos, 0int,
{
    lemma_pp_cond_progress(toks, PState { pos: st.pos + 1, stmt: st.stmt + "while "@, ..st });
    match pp_cond(toks, PState { pos: st.pos + 1, stmt: st.stmt + "while "@, ..st }) {
        Ok((st1, _)) => {
            if 0 <= st1.pos < toks.len() && toks[st1.pos] == Lexeme::Loop {
                let sta = PState {
                    pos: st1.pos + 1,
                    stmt: Seq::empty(),
                    stmts: st1.stmts.push(st1.stmt + " loop"@),
                    ..st1
                };
                if st.pos < sta.pos <= toks.len() {
                    lemma_pp_stmt_seq_progress(toks, sta);
                }
            }
        },
        Err(_) => {},
    }
}

pub proof fn lemma_pp_stmt_seq_progress(toks: Seq<Lexeme>, st: PState)
    ensures
        (match pp_stmt_seq(toks, st) {
            Ok(st1) => st.pos <= st1.pos <= toks.len(),
            Err(_) => true,
        }),
    decreases toks.len() - st.pos, 1int,
{
    if 0 <= st.pos < toks.len() {
        match toks[st.pos] {
            Lexeme::Read => lemma_pp_in_progress(toks, st),
            Lexeme::Write => lemma_pp_out_progress(toks, st),
            Lexeme::If => lemma_pp_if_progress(toks, st),
            Lexeme::While => lemma_pp_loop_progress(toks, st),
            Lexeme::Identifier(_) => lemma_pp_assign_progress(toks, st),
            _ => {},
        }
        let step: Option<Result<PState, Fault>> = match toks[st.pos] {
            Lexeme::Read => Some(pp_in(toks, st)),
            Lexeme::Write => Some(pp_out(toks, st)),
            Lexeme::If => Some(pp_if(toks, st)),
            Lexeme::While => Some(pp_loop(toks, st)),
            Lexeme::Identifier(_) => Some(pp_assign(toks, st)),
            _ => None,
        };
        match step {
            Some(Ok(st1)) => {
                if st.pos < st1.pos <= toks.len() {
                    lemma_pp_stmt_seq_progress(toks, st1);
                }
            },
            _ => {},
        }
    }
}

} // verus!
