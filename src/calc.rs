//! The evaluator: a value stack, a scope, and a stack of pending capture
//! frames, fed one word token at a time.

use crate::builtins::{builtin_post, builtin_runs};
use crate::dict::{bind, resolve, Dictionary, Entry, Table};
use crate::float::FloatArith;
use crate::integer::{int_literal, int_text, Int};
use crate::value::{trimmed, values_model, words_model, BuiltinWord, Operation, OperationModel, Value, ValueModel};
use std::rc::Rc;
use vstd::prelude::*;

verus! {

/// What the evaluator needs from the program around it: float arithmetic,
/// a place to print lines, and lines of input.
pub trait Host: FloatArith {
    /// Writes one line of output.
    fn print(&mut self, line: String);

    /// Reads all the remaining lines of input.
    fn read_lines(&mut self) -> Vec<String>;
}

/// How deeply blocks, words and sub-evaluators may nest before evaluation
/// stops with `ErrorKind::TooDeep`.
pub const MAX_DEPTH: u32 = 1000;

/// Why evaluation stopped.
#[derive(Debug, PartialEq)]
pub enum ErrorKind {
    DivisionByZero,
    /// The stack held fewer values than an operation takes.
    MissingOperand,
    /// An operand of the wrong kind, with the kind that was expected.
    WrongTypeOperand(Value, &'static str),
    /// A block left nothing on its stack.
    BlockNoResult,
    /// A word that is neither defined nor a literal.
    WordParseError(String),
    /// An integer too large to convert to a float.
    BigIntTooLarge,
    /// An alias target that does not resolve.
    UnknownWord(String),
    /// Nesting deeper than `MAX_DEPTH`.
    TooDeep,
}

pub enum ErrorModel {
    DivisionByZero,
    MissingOperand,
    WrongTypeOperand(ValueModel, Seq<char>),
    BlockNoResult,
    WordParseError(Seq<char>),
    BigIntTooLarge,
    UnknownWord(Seq<char>),
    TooDeep,
}

impl View for ErrorKind {
    type V = ErrorModel;

    open spec fn view(&self) -> ErrorModel {
        match self {
            ErrorKind::DivisionByZero => ErrorModel::DivisionByZero,
            ErrorKind::MissingOperand => ErrorModel::MissingOperand,
            ErrorKind::WrongTypeOperand(v, k) => ErrorModel::WrongTypeOperand(v@, k@),
            ErrorKind::BlockNoResult => ErrorModel::BlockNoResult,
            ErrorKind::WordParseError(w) => ErrorModel::WordParseError(w@),
            ErrorKind::BigIntTooLarge => ErrorModel::BigIntTooLarge,
            ErrorKind::UnknownWord(w) => ErrorModel::UnknownWord(w@),
            ErrorKind::TooDeep => ErrorModel::TooDeep,
        }
    }
}

/// The error of a step, if it failed.
pub open spec fn outcome<T>(r: Result<T, ErrorKind>) -> Option<ErrorModel> {
    match r {
        Ok(_) => None,
        Err(e) => Some(e@),
    }
}

/// A pending multi-word capture.
pub enum Frame {
    /// Words of a block not yet closed, and how many inner blocks are open.
    Reading { block: Vec<String>, level: usize },
    /// A vector literal, whose words go to a child evaluator.
    Collecting { calc: Box<Calc> },
}

pub enum FrameModel {
    Reading { block: Seq<Seq<char>>, level: nat },
    /// A vector literal, with the state of its child evaluator.
    Collecting { child: Snapshot },
}

/// The observable state of an evaluator.
pub struct Snapshot {
    pub stack: Seq<ValueModel>,
    pub chain: Seq<Table>,
    pub frames: Seq<FrameModel>,
}

/// An evaluator.
pub struct Calc {
    dict: Rc<Dictionary>,
    pub data: Vec<Value>,
    state: Vec<Frame>,
}

pub closed spec fn frame_model(f: &Frame) -> FrameModel
    decreases f,
{
    match f {
        Frame::Reading { block, level } => FrameModel::Reading { block: words_model(block@), level: *level as nat },
        Frame::Collecting { calc } => FrameModel::Collecting {
            child: Snapshot { stack: calc.stack(), chain: calc.chain(), frames: frames_of(calc.state@) },
        },
    }
}

pub closed spec fn frames_of(st: Seq<Frame>) -> Seq<FrameModel>
    decreases st,
{
    Seq::new(st.len(), |i: int| if 0 <= i < st.len() { frame_model(&st[i]) } else { FrameModel::Reading { block: Seq::empty(), level: 0 } })
}

/// The kinds of operand that operations ask for.
pub enum Kind {
    Any,
    Int,
    IntCast,
    Numeric,
    Float,
    Block,
    Vector,
    Word,
}

pub open spec fn kind_accepts(k: Kind, v: ValueModel) -> bool {
    match k {
        Kind::Any => true,
        Kind::Int => v is Int,
        Kind::IntCast => match v {
            ValueModel::Int(i) => i64::MIN <= i <= i64::MAX,
            ValueModel::Float(_) => true,
            _ => false,
        },
        Kind::Numeric => v is Int || v is Float,
        Kind::Float => v is Float,
        Kind::Block => v is Block,
        Kind::Vector => v is Vector,
        Kind::Word => v is QuotedWord,
    }
}

pub open spec fn kind_label(k: Kind) -> Seq<char> {
    match k {
        Kind::Any => Seq::empty(),
        Kind::Int => "int"@,
        Kind::IntCast => "int or float"@,
        Kind::Numeric => "int or float"@,
        Kind::Float => "float"@,
        Kind::Block => "block"@,
        Kind::Vector => "vector"@,
        Kind::Word => "quoted word"@,
    }
}

/// Popping one operand of kind `k`: the rest of the stack and the operand,
/// or the stack left and the error.
pub open spec fn pop_kind(s: Seq<ValueModel>, k: Kind) -> Result<(Seq<ValueModel>, ValueModel), (Seq<ValueModel>, ErrorModel)> {
    if s.len() == 0 {
        Err((s, ErrorModel::MissingOperand))
    } else if kind_accepts(k, s.last()) {
        Ok((s.drop_last(), s.last()))
    } else {
        Err((s.drop_last(), ErrorModel::WrongTypeOperand(s.last(), kind_label(k))))
    }
}

/// Popping operands of the given kinds one after the other, topmost first;
/// the first that fails stops the rest, and what was popped stays popped.
pub open spec fn take_operands(s: Seq<ValueModel>, ks: Seq<Kind>) -> Result<(Seq<ValueModel>, Seq<ValueModel>), (Seq<ValueModel>, ErrorModel)>
    decreases ks.len(),
{
    if ks.len() == 0 {
        Ok((s, Seq::empty()))
    } else {
        match pop_kind(s, ks[0]) {
            Err(e) => Err(e),
            Ok((rest, v)) => match take_operands(rest, ks.drop_first()) {
                Ok((r2, vs)) => Ok((r2, seq![v] + vs)),
                Err(e) => Err(e),
            },
        }
    }
}

pub open spec fn pop_result<T>(r: Result<T, ErrorKind>, m: ValueModel, t: Seq<ValueModel>) -> Result<(Seq<ValueModel>, ValueModel), (Seq<ValueModel>, ErrorModel)> {
    match r {
        Ok(_) => Ok((t, m)),
        Err(e) => Err((t, e@)),
    }
}

/// Whether the word is a quoted word: one that starts with `,`.
pub open spec fn is_quoted(w: Seq<char>) -> bool {
    w.len() > 0 && w[0] == ','
}

/// Whether `new` keeps the scopes around the innermost one, and their
/// number: an evaluator changes no scope but its own.
pub open spec fn scope_kept(old: Snapshot, new: Snapshot) -> bool {
    new.chain.len() == old.chain.len() && new.chain.drop_first() == old.chain.drop_first()
}

/// The nesting level of a block being read after the word `w`.
pub open spec fn next_level(level: nat, w: Seq<char>) -> nat {
    if w == seq!['}'] {
        (level - 1) as nat
    } else if w == seq!['{'] {
        if level < usize::MAX { level + 1 } else { level }
    } else {
        level
    }
}

/// What a word does to an evaluator with no pending frame: a quoted word
/// is pushed; a block or vector delimiter opens a frame; a word of the
/// dictionary runs its builtin, runs its block, or pushes its value; any
/// other word must be a literal.
pub open spec fn dispatch_post(old: Snapshot, w: Seq<char>, new: Snapshot, o: Option<ErrorModel>) -> bool {
    let same = new.chain == old.chain && new.frames == old.frames;
    if is_quoted(w) {
        same && o is None && new.stack == old.stack.push(ValueModel::QuotedWord(w.drop_first()))
    } else if w == seq!['{'] {
        o is None && new.stack == old.stack && new.chain == old.chain && new.frames == old.frames.push(
            FrameModel::Reading { block: Seq::empty(), level: 0 },
        )
    } else if w == seq!['['] {
        o is None && new.stack == old.stack && new.chain == old.chain && new.frames == old.frames.push(
            FrameModel::Collecting {
                child: Snapshot {
                    stack: Seq::empty(),
                    chain: seq![Seq::<(Seq<char>, crate::dict::EntryModel)>::empty()] + old.chain,
                    frames: Seq::empty(),
                },
            },
        )
    } else {
        match resolve(old.chain, w) {
            Some(OperationModel::Builtin(b)) => builtin_post(b, old, new, o),
            Some(OperationModel::Value(ValueModel::Block(_))) => true,
            Some(OperationModel::Value(v)) => same && o is None && new.stack == old.stack.push(v),
            None => same && match int_literal(trimmed(w)) {
                Some(i) => o is None && new.stack == old.stack.push(ValueModel::Int(i)),
                None => (o == Some(ErrorModel::WordParseError(w)) && new.stack == old.stack) || (o is None
                    && new.stack.len() == old.stack.len() + 1 && new.stack.drop_last() == old.stack
                    && new.stack.last() is Float),
            },
        }
    }
}

/// How a word dispatched with no pending frame runs the words it stands
/// for, with `depth` levels of nesting left for them: a word bound to a
/// block runs the block's words against this evaluator; a builtin runs
/// words as `builtin_runs` says.
pub open spec fn word_runs(old: Snapshot, w: Seq<char>, new: Snapshot, o: Option<ErrorModel>, depth: nat) -> bool {
    !is_quoted(w) && w != seq!['{'] && w != seq!['['] ==> match resolve(old.chain, w) {
        Some(OperationModel::Builtin(b)) => builtin_runs(b, old, new, o, depth),
        Some(OperationModel::Value(ValueModel::Block(words))) => run_post(old, words, new, o, depth),
        _ => true,
    }
}

/// What a word does to an evaluator, with `depth` levels of nesting left:
/// a pending block takes it verbatim, or closes on an unnested `}`; a
/// pending vector closes on `]`, takes the top value of this evaluator's
/// stack on `arg`, and hands any other word to its child evaluator, being
/// dropped if the child fails; with no pending frame the word is
/// dispatched.
pub open spec fn step_post(old: Snapshot, w: Seq<char>, new: Snapshot, o: Option<ErrorModel>, depth: nat) -> bool
    decreases depth,
{
    if depth == 0 {
        o == Some(ErrorModel::TooDeep) && new == old
    } else if old.frames.len() == 0 {
        dispatch_post(old, w, new, o)
    } else {
        match old.frames.last() {
            FrameModel::Reading { block, level } => new.chain == old.chain && o is None && if w == seq!['}'] && level == 0 {
                new.stack == old.stack.push(ValueModel::Block(block)) && new.frames == old.frames.drop_last()
            } else {
                new.stack == old.stack && new.frames == old.frames.drop_last().push(
                    FrameModel::Reading { block: block.push(w), level: next_level(level, w) },
                )
            },
            FrameModel::Collecting { child } => new.chain == old.chain && if w == seq![']'] {
                o is None && new.stack == old.stack.push(ValueModel::Vector(child.stack)) && new.frames
                    == old.frames.drop_last()
            } else if resolve(old.chain, w) == Some(OperationModel::Builtin(BuiltinWord::Arg)) {
                let n = old.frames.len();
                let grown = FrameModel::Collecting {
                    child: Snapshot { stack: child.stack.push(old.stack.last()), chain: child.chain, frames: child.frames },
                };
                if n == 1 || old.frames[n - 2] is Reading {
                    if old.stack.len() == 0 {
                        o == Some(ErrorModel::MissingOperand) && new.stack == old.stack && new.frames == old.frames.take(
                            if n == 1 { 0 } else { n - 2 },
                        )
                    } else {
                        o is None && new.stack == old.stack.drop_last() && new.frames == old.frames.drop_last().push(grown)
                    }
                } else {
                    let outer = old.frames[n - 2]->child;
                    new.stack == old.stack && if outer.stack.len() == 0 {
                        o == Some(ErrorModel::MissingOperand) && new.frames == old.frames.take(n - 2)
                    } else {
                        o is None && new.frames == old.frames.take(n - 2).push(
                            FrameModel::Collecting {
                                child: Snapshot { stack: outer.stack.drop_last(), chain: outer.chain, frames: outer.frames },
                            },
                        ).push(
                            FrameModel::Collecting {
                                child: Snapshot { stack: child.stack.push(outer.stack.last()), chain: child.chain, frames: child.frames },
                            },
                        )
                    }
                }
            } else {
                &&& new.stack == old.stack
                &&& new.frames.len() == old.frames.len()
                &&& new.frames.drop_last() == old.frames.drop_last()
                &&& new.frames.last() is Collecting
                &&& step_post(child, w, new.frames.last()->child, o, (depth - 1) as nat)
            },
        }
    }
}

/// What running the words `ws` in order does, with `depth` levels of
/// nesting left for each: every word steps as `step_post` says, and the
/// first error stops the run.
pub open spec fn run_post(old: Snapshot, ws: Seq<Seq<char>>, new: Snapshot, o: Option<ErrorModel>, depth: nat) -> bool
    decreases ws.len(),
{
    if ws.len() == 0 {
        o is None && new == old
    } else {
        ||| o is Some && run_post(old, ws.drop_last(), new, o, depth)
        ||| exists|mid: Snapshot| run_post(old, ws.drop_last(), mid, None, depth) && step_post(mid, ws.last(), new, o, depth)
    }
}

proof fn lemma_run_post_stop(old: Snapshot, ws: Seq<Seq<char>>, k: int, new: Snapshot, o: Option<ErrorModel>, depth: nat)
    requires
        0 <= k <= ws.len(),
        o is Some,
        run_post(old, ws.take(k), new, o, depth),
    ensures
        run_post(old, ws, new, o, depth),
    decreases ws.len() - k,
{
    if k < ws.len() {
        let t = ws.take(k + 1);
        assert(t.drop_last() =~= ws.take(k));
        assert(run_post(old, t, new, o, depth));
        lemma_run_post_stop(old, ws, k + 1, new, o, depth);
    } else {
        assert(ws.take(k) =~= ws);
    }
}

/// What a word does, as `step_post` says, and, with no frame pending, how
/// it runs the words it stands for, as `word_runs` says, one level deep.
pub open spec fn full_step(old: Snapshot, w: Seq<char>, new: Snapshot, o: Option<ErrorModel>, depth: nat) -> bool {
    &&& step_post(old, w, new, o, depth)
    &&& depth > 0 && old.frames.len() == 0 ==> word_runs(old, w, new, o, (depth - 1) as nat)
}

/// Like `run_post`, with each word stepping as `full_step` says.
pub open spec fn run_full(old: Snapshot, ws: Seq<Seq<char>>, new: Snapshot, o: Option<ErrorModel>, depth: nat) -> bool
    decreases ws.len(),
{
    if ws.len() == 0 {
        o is None && new == old
    } else {
        ||| o is Some && run_full(old, ws.drop_last(), new, o, depth)
        ||| exists|mid: Snapshot| run_full(old, ws.drop_last(), mid, None, depth) && full_step(mid, ws.last(), new, o, depth)
    }
}

proof fn lemma_run_full_stop(old: Snapshot, ws: Seq<Seq<char>>, k: int, new: Snapshot, o: Option<ErrorModel>, depth: nat)
    requires
        0 <= k <= ws.len(),
        o is Some,
        run_full(old, ws.take(k), new, o, depth),
    ensures
        run_full(old, ws, new, o, depth),
    decreases ws.len() - k,
{
    if k < ws.len() {
        let t = ws.take(k + 1);
        assert(t.drop_last() =~= ws.take(k));
        assert(run_full(old, t, new, o, depth));
        lemma_run_full_stop(old, ws, k + 1, new, o, depth);
    } else {
        assert(ws.take(k) =~= ws);
    }
}

proof fn lemma_literal_step(old: Snapshot, new: Snapshot, o: Option<ErrorModel>, v: int, d: nat)
    requires
        d > 0,
        old.frames.len() == 0,
        resolve(old.chain, int_text(v)) is None,
        step_post(old, int_text(v), new, o, d),
    ensures
        o is None,
        new.stack == old.stack.push(ValueModel::Int(v)),
        new.chain == old.chain,
        new.frames == old.frames,
{
    crate::value::lemma_int_text_literal(v);
    let t = int_text(v);
    assert(t != seq!['{']);
    assert(t != seq!['[']);
}

/// Evaluating the decimal texts of two integers and then `add`, with no
/// frame pending and in a scope where the texts are no words and `add` is
/// the builtin, pushes their sum as an integer.
proof fn lemma_eval_add(
    s0: Snapshot,
    s1: Snapshot,
    s2: Snapshot,
    s3: Snapshot,
    o1: Option<ErrorModel>,
    o2: Option<ErrorModel>,
    o3: Option<ErrorModel>,
    a: int,
    b: int,
)
    requires
        s0.frames.len() == 0,
        resolve(s0.chain, int_text(a)) is None,
        resolve(s0.chain, int_text(b)) is None,
        resolve(s0.chain, "add"@) == Some(OperationModel::Builtin(BuiltinWord::Add)),
        step_post(s0, int_text(a), s1, o1, MAX_DEPTH as nat),
        step_post(s1, int_text(b), s2, o2, MAX_DEPTH as nat),
        step_post(s2, "add"@, s3, o3, MAX_DEPTH as nat),
    ensures
        o1 is None && o2 is None && o3 is None,
        s3.stack == s0.stack.push(ValueModel::Int(a + b)),
        s3.chain == s0.chain,
{
    lemma_literal_step(s0, s1, o1, a, MAX_DEPTH as nat);
    lemma_literal_step(s1, s2, o2, b, MAX_DEPTH as nat);
    reveal_strlit("add");
    assert(s2.stack.drop_last().drop_last() == s0.stack);
    crate::builtins::lemma_add_ints(s2, s3, o3, a, b);
}

/// Evaluating the decimal texts of an integer and of zero and then `div`,
/// with no frame pending and in a scope where the texts are no words and
/// `div` is the builtin, fails with a division by zero and leaves the stack
/// as it was.
proof fn lemma_eval_div_zero(
    s0: Snapshot,
    s1: Snapshot,
    s2: Snapshot,
    s3: Snapshot,
    o1: Option<ErrorModel>,
    o2: Option<ErrorModel>,
    o3: Option<ErrorModel>,
    x: int,
)
    requires
        s0.frames.len() == 0,
        resolve(s0.chain, int_text(x)) is None,
        resolve(s0.chain, int_text(0)) is None,
        resolve(s0.chain, "div"@) == Some(OperationModel::Builtin(BuiltinWord::Div)),
        step_post(s0, int_text(x), s1, o1, MAX_DEPTH as nat),
        step_post(s1, int_text(0), s2, o2, MAX_DEPTH as nat),
        step_post(s2, "div"@, s3, o3, MAX_DEPTH as nat),
    ensures
        o3 == Some(ErrorModel::DivisionByZero),
        s3.stack == s0.stack,
{
    lemma_literal_step(s0, s1, o1, x, MAX_DEPTH as nat);
    lemma_literal_step(s1, s2, o2, 0, MAX_DEPTH as nat);
    reveal_strlit("div");
    assert(s2.stack.drop_last().drop_last() == s0.stack);
    crate::builtins::lemma_div_by_zero(s2, s3, o3);
}

/// For all integers `a` and `b`: a fresh evaluator given the words `a`,
/// `b` and `add` is left with the integer `a + b` alone on its stack.
proof fn lemma_fresh_add(
    s0: Snapshot,
    s1: Snapshot,
    s2: Snapshot,
    s3: Snapshot,
    o1: Option<ErrorModel>,
    o2: Option<ErrorModel>,
    o3: Option<ErrorModel>,
    a: int,
    b: int,
)
    requires
        s0.stack == Seq::<ValueModel>::empty(),
        s0.chain == seq![crate::dict::builtin_table()],
        s0.frames.len() == 0,
        step_post(s0, int_text(a), s1, o1, MAX_DEPTH as nat),
        step_post(s1, int_text(b), s2, o2, MAX_DEPTH as nat),
        step_post(s2, "add"@, s3, o3, MAX_DEPTH as nat),
    ensures
        o1 is None && o2 is None && o3 is None,
        s3.stack == seq![ValueModel::Int(a + b)],
{
    crate::value::lemma_int_text_literal(a);
    crate::value::lemma_int_text_literal(b);
    crate::dict::lemma_builtin_scope(int_text(a));
    crate::dict::lemma_builtin_scope(int_text(b));
    lemma_eval_add(s0, s1, s2, s3, o1, o2, o3, a, b);
    assert(s3.stack =~= seq![ValueModel::Int(a + b)]);
}

/// For every integer `x`: a fresh evaluator given the words `x`, `0` and
/// `div` fails with a division by zero, and no value is left on its stack.
proof fn lemma_fresh_div_zero(
    s0: Snapshot,
    s1: Snapshot,
    s2: Snapshot,
    s3: Snapshot,
    o1: Option<ErrorModel>,
    o2: Option<ErrorModel>,
    o3: Option<ErrorModel>,
    x: int,
)
    requires
        s0.stack == Seq::<ValueModel>::empty(),
        s0.chain == seq![crate::dict::builtin_table()],
        s0.frames.len() == 0,
        step_post(s0, int_text(x), s1, o1, MAX_DEPTH as nat),
        step_post(s1, int_text(0), s2, o2, MAX_DEPTH as nat),
        step_post(s2, "div"@, s3, o3, MAX_DEPTH as nat),
    ensures
        o3 == Some(ErrorModel::DivisionByZero),
        s3.stack == Seq::<ValueModel>::empty(),
{
    crate::value::lemma_int_text_literal(x);
    crate::value::lemma_int_text_literal(0);
    crate::dict::lemma_builtin_scope(int_text(x));
    crate::dict::lemma_builtin_scope(int_text(0));
    lemma_eval_div_zero(s0, s1, s2, s3, o1, o2, o3, x);
}

/// The run of the three words `x`, `y`, `z` is three steps, none of which
/// failed before the last.
proof fn lemma_run_three(
    s0: Snapshot,
    x: Seq<char>,
    y: Seq<char>,
    z: Seq<char>,
    s3: Snapshot,
    o: Option<ErrorModel>,
    d: nat,
) -> (r: (Snapshot, Snapshot, Option<ErrorModel>, Option<ErrorModel>))
    requires
        run_post(s0, seq![x, y, z], s3, o, d),
        forall|s1: Snapshot, o1: Option<ErrorModel>| step_post(s0, x, s1, o1, d) ==> o1 is None,
        forall|s1: Snapshot, s2: Snapshot, o1: Option<ErrorModel>, o2: Option<ErrorModel>|
            step_post(s0, x, s1, o1, d) && step_post(s1, y, s2, o2, d) ==> o2 is None,
    ensures
        step_post(s0, x, r.0, r.2, d),
        step_post(r.0, y, r.1, r.3, d),
        step_post(r.1, z, s3, o, d),
{
    let w3 = seq![x, y, z];
    let w2 = seq![x, y];
    let w1 = seq![x];
    let w0 = Seq::<Seq<char>>::empty();
    assert(w3.drop_last() =~= w2);
    assert(w2.drop_last() =~= w1);
    assert(w1.drop_last() =~= w0);
    // a run of `x` alone from `s0` is its step
    assert forall|t: Snapshot, p: Option<ErrorModel>| run_post(s0, w1, t, p, d) implies step_post(s0, x, t, p, d) by {
        if p is Some && run_post(s0, w1.drop_last(), t, p, d) {
        } else {
            let m = choose|mid: Snapshot| run_post(s0, w1.drop_last(), mid, None, d) && step_post(mid, w1.last(), t, p, d);
            assert(m == s0);
        }
    }
    assert forall|t: Snapshot, p: Option<ErrorModel>| run_post(s0, w2, t, p, d) implies exists|m: Snapshot, q: Option<ErrorModel>| step_post(s0, x, m, q, d) && step_post(m, y, t, p, d) by {
        if p is Some && run_post(s0, w2.drop_last(), t, p, d) {
            assert(step_post(s0, x, t, p, d));
        } else {
            let m = choose|mid: Snapshot| run_post(s0, w2.drop_last(), mid, None, d) && step_post(mid, w2.last(), t, p, d);
            assert(step_post(s0, x, m, None, d) && step_post(m, y, t, p, d));
        }
    }
    if o is Some && run_post(s0, w3.drop_last(), s3, o, d) {
        let (m, q) = choose|m: Snapshot, q: Option<ErrorModel>| step_post(s0, x, m, q, d) && step_post(m, y, s3, o, d);
        assert(false);
        (m, m, q, q)
    } else {
        let m2 = choose|mid: Snapshot| run_post(s0, w3.drop_last(), mid, None, d) && step_post(mid, w3.last(), s3, o, d);
        let (m1, q1) = choose|m: Snapshot, q: Option<ErrorModel>| step_post(s0, x, m, q, d) && step_post(m, y, m2, None, d);
        (m1, m2, q1, None)
    }
}

/// For all integers `a` and `b`: a fresh evaluator that runs the words
/// `a b add` succeeds and is left with the integer `a + b` alone on its
/// stack.
pub proof fn lemma_run_add(s0: Snapshot, s3: Snapshot, o: Option<ErrorModel>, a: int, b: int)
    requires
        s0.stack == Seq::<ValueModel>::empty(),
        s0.chain == seq![crate::dict::builtin_table()],
        s0.frames.len() == 0,
        run_post(s0, seq![int_text(a), int_text(b), "add"@], s3, o, MAX_DEPTH as nat),
    ensures
        o is None,
        s3.stack == seq![ValueModel::Int(a + b)],
{
    let d = MAX_DEPTH as nat;
    crate::dict::lemma_builtin_scope(int_text(a));
    crate::dict::lemma_builtin_scope(int_text(b));
    crate::value::lemma_int_text_literal(a);
    crate::value::lemma_int_text_literal(b);
    assert forall|s1: Snapshot, o1: Option<ErrorModel>| step_post(s0, int_text(a), s1, o1, d) implies o1 is None by {
        lemma_literal_step(s0, s1, o1, a, d);
    }
    assert forall|s1: Snapshot, s2: Snapshot, o1: Option<ErrorModel>, o2: Option<ErrorModel>|
        step_post(s0, int_text(a), s1, o1, d) && step_post(s1, int_text(b), s2, o2, d) implies o2 is None by {
        lemma_literal_step(s0, s1, o1, a, d);
        lemma_literal_step(s1, s2, o2, b, d);
    }
    let (s1, s2, o1, o2) = lemma_run_three(s0, int_text(a), int_text(b), "add"@, s3, o, d);
    lemma_fresh_add(s0, s1, s2, s3, o1, o2, o, a, b);
}

/// For every integer `x`: a fresh evaluator that runs the words `x 0 div`
/// fails with a division by zero, and no value is left on its stack.
pub proof fn lemma_run_div_zero(s0: Snapshot, s3: Snapshot, o: Option<ErrorModel>, x: int)
    requires
        s0.stack == Seq::<ValueModel>::empty(),
        s0.chain == seq![crate::dict::builtin_table()],
        s0.frames.len() == 0,
        run_post(s0, seq![int_text(x), int_text(0), "div"@], s3, o, MAX_DEPTH as nat),
    ensures
        o == Some(ErrorModel::DivisionByZero),
        s3.stack == Seq::<ValueModel>::empty(),
{
    let d = MAX_DEPTH as nat;
    crate::dict::lemma_builtin_scope(int_text(x));
    crate::dict::lemma_builtin_scope(int_text(0));
    crate::value::lemma_int_text_literal(x);
    crate::value::lemma_int_text_literal(0);
    assert forall|s1: Snapshot, o1: Option<ErrorModel>| step_post(s0, int_text(x), s1, o1, d) implies o1 is None by {
        lemma_literal_step(s0, s1, o1, x, d);
    }
    assert forall|s1: Snapshot, s2: Snapshot, o1: Option<ErrorModel>, o2: Option<ErrorModel>|
        step_post(s0, int_text(x), s1, o1, d) && step_post(s1, int_text(0), s2, o2, d) implies o2 is None by {
        lemma_literal_step(s0, s1, o1, x, d);
        lemma_literal_step(s1, s2, o2, 0, d);
    }
    let (s1, s2, o1, o2) = lemma_run_three(s0, int_text(x), int_text(0), "div"@, s3, o, d);
    lemma_fresh_div_zero(s0, s1, s2, s3, o1, o2, o, x);
}

/// Whether the word consists of the one character `c`.
fn is_token(word: &str, c: char) -> (r: bool)
    ensures
        r == (word@ == seq![c]),
{
    if word.unicode_len() == 1 {
        let d = word.get_char(0);
        assert(d == c ==> word@ =~= seq![c]);
        d == c
    } else {
        false
    }
}

impl Calc {
    /// The value stack, bottom first.
    pub closed spec fn stack(&self) -> Seq<ValueModel> {
        values_model(self.data@)
    }

    /// The evaluator's scope and its ancestors, innermost first.
    pub closed spec fn chain(&self) -> Seq<Table> {
        self.dict.chain()
    }

    /// The pending capture frames, innermost last.
    pub closed spec fn frames(&self) -> Seq<FrameModel> {
        frames_of(self.state@)
    }

    pub open spec fn snap(&self) -> Snapshot {
        Snapshot { stack: self.stack(), chain: self.chain(), frames: self.frames() }
    }

    /// An idle evaluator with an empty stack, in a scope of the builtin
    /// words.
    pub fn new() -> (r: Calc)
        ensures
            r.stack() == Seq::<ValueModel>::empty(),
            r.chain() == seq![crate::dict::builtin_table()],
            r.frames() == Seq::<FrameModel>::empty(),
    {
        let r = Calc { dict: Rc::new(Dictionary::default()), data: Vec::new(), state: Vec::new() };
        assert(r.stack() =~= Seq::<ValueModel>::empty());
        assert(r.frames() =~= Seq::<FrameModel>::empty());
        r
    }

    /// An idle evaluator with an empty stack, in a fresh scope whose parent
    /// is this evaluator's scope.
    pub fn sub_calc(&self) -> (r: Calc)
        ensures
            r.stack() == Seq::<ValueModel>::empty(),
            r.chain() == seq![Seq::<(Seq<char>, crate::dict::EntryModel)>::empty()] + self.chain(),
            r.frames() == Seq::<FrameModel>::empty(),
    {
        let r = Calc { dict: Rc::new(Dictionary::child_of(&self.dict)), data: Vec::new(), state: Vec::new() };
        assert(r.stack() =~= Seq::<ValueModel>::empty());
        assert(r.frames() =~= Seq::<FrameModel>::empty());
        r
    }

    /// Pops the top value.
    pub fn get_operand(&mut self) -> (r: Result<Value, ErrorKind>)
        ensures
            pop_kind(old(self).stack(), Kind::Any) == pop_result(r, if r is Ok { r->Ok_0@ } else { ValueModel::Undef }, final(self).stack()),
            final(self).chain() == old(self).chain(),
            final(self).frames() == old(self).frames(),
    {
        let ghost s = self.data@;
        match self.data.pop() {
            Some(v) => {
                assert(values_model(self.data@) =~= values_model(s).drop_last());
                Ok(v)
            },
            None => Err(ErrorKind::MissingOperand),
        }
    }

    /// Pops an integer.
    pub fn get_int(&mut self) -> (r: Result<Int, ErrorKind>)
        ensures
            pop_kind(old(self).stack(), Kind::Int) == pop_result(
                r,
                ValueModel::Int(if r is Ok { r->Ok_0@ } else { 0 }),
                final(self).stack(),
            ),
            final(self).chain() == old(self).chain(),
            final(self).frames() == old(self).frames(),
    {
        match self.get_operand() {
            Err(e) => Err(e),
            Ok(Value::Int(i)) => Ok(i),
            Ok(v) => Err(ErrorKind::WrongTypeOperand(v, "int")),
        }
    }

    /// Pops an integer that fits in an `i64`, or a float cast to one by
    /// `fl`.
    pub fn get_int_cast<F: FloatArith>(&mut self, fl: &F) -> (r: Result<i64, ErrorKind>)
        ensures
            pop_kind(old(self).stack(), Kind::IntCast) == pop_result(
                r,
                if old(self).stack().len() > 0 { old(self).stack().last() } else { ValueModel::Undef },
                final(self).stack(),
            ),
            r matches Ok(n) ==> (old(self).stack().last() matches ValueModel::Int(i) ==> n == i),
            final(self).chain() == old(self).chain(),
            final(self).frames() == old(self).frames(),
    {
        match self.get_operand() {
            Err(e) => Err(e),
            Ok(v) => match v.as_int_cast(fl) {
                Some(n) => Ok(n),
                None => Err(ErrorKind::WrongTypeOperand(v, "int or float")),
            },
        }
    }

    /// Pops a float.
    pub fn get_float(&mut self) -> (r: Result<u64, ErrorKind>)
        ensures
            pop_kind(old(self).stack(), Kind::Float) == pop_result(
                r,
                ValueModel::Float(if r is Ok { r->Ok_0 } else { 0 }),
                final(self).stack(),
            ),
            final(self).chain() == old(self).chain(),
            final(self).frames() == old(self).frames(),
    {
        match self.get_operand() {
            Err(e) => Err(e),
            Ok(Value::Float(x)) => Ok(x),
            Ok(v) => Err(ErrorKind::WrongTypeOperand(v, "float")),
        }
    }

    /// Pops a float, or an integer converted by `fl`; an integer that `fl`
    /// cannot convert is reported as of the wrong kind.
    pub fn get_float_cast<F: FloatArith>(&mut self, fl: &F) -> (r: Result<u64, ErrorKind>)
        ensures
            ({
                let s = old(self).stack();
                match pop_kind(s, Kind::Numeric) {
                    Err((t, e)) => final(self).stack() == t && (r matches Err(x) && x@ == e),
                    Ok((t, v)) => final(self).stack() == t && (match v {
                        ValueModel::Float(x) => r == Ok::<u64, ErrorKind>(x),
                        _ => r is Ok || (r matches Err(x) && x@ == ErrorModel::WrongTypeOperand(v, "int or float"@)),
                    }),
                }
            }),
            final(self).chain() == old(self).chain(),
            final(self).frames() == old(self).frames(),
    {
        match self.get_operand() {
            Err(e) => Err(e),
            Ok(v) => match v.as_float_cast(fl) {
                Some(x) => Ok(x),
                None => Err(ErrorKind::WrongTypeOperand(v, "int or float")),
            },
        }
    }

    /// Pops a block.
    pub fn get_block(&mut self) -> (r: Result<Vec<String>, ErrorKind>)
        ensures
            pop_kind(old(self).stack(), Kind::Block) == pop_result(
                r,
                ValueModel::Block(if r is Ok { words_model(r->Ok_0@) } else { Seq::empty() }),
                final(self).stack(),
            ),
            final(self).chain() == old(self).chain(),
            final(self).frames() == old(self).frames(),
    {
        match self.get_operand() {
            Err(e) => Err(e),
            Ok(v) => match v.into_block() {
                Ok(b) => Ok(b),
                Err(v) => Err(ErrorKind::WrongTypeOperand(v, "block")),
            },
        }
    }

    /// Pops a vector.
    pub fn get_vector(&mut self) -> (r: Result<Vec<Value>, ErrorKind>)
        ensures
            pop_kind(old(self).stack(), Kind::Vector) == pop_result(
                r,
                ValueModel::Vector(if r is Ok { values_model(r->Ok_0@) } else { Seq::empty() }),
                final(self).stack(),
            ),
            final(self).chain() == old(self).chain(),
            final(self).frames() == old(self).frames(),
    {
        match self.get_operand() {
            Err(e) => Err(e),
            Ok(v) => match v.into_vector() {
                Ok(items) => Ok(items),
                Err(v) => Err(ErrorKind::WrongTypeOperand(v, "vector")),
            },
        }
    }

    /// Pops a quoted word.
    pub fn get_word(&mut self) -> (r: Result<String, ErrorKind>)
        ensures
            pop_kind(old(self).stack(), Kind::Word) == pop_result(
                r,
                ValueModel::QuotedWord(if r is Ok { r->Ok_0@ } else { Seq::empty() }),
                final(self).stack(),
            ),
            final(self).chain() == old(self).chain(),
            final(self).frames() == old(self).frames(),
    {
        match self.get_operand() {
            Err(e) => Err(e),
            Ok(v) => match v.into_word() {
                Ok(w) => Ok(w),
                Err(v) => Err(ErrorKind::WrongTypeOperand(v, "quoted word")),
            },
        }
    }

    /// Binds `name` in this evaluator's own scope.
    pub(crate) fn bind_word(&mut self, name: String, e: Entry)
        ensures
            final(self).chain() == old(self).chain().update(0, bind(old(self).chain()[0], name@, e@)),
            final(self).stack() == old(self).stack(),
            final(self).frames() == old(self).frames(),
            scope_kept(old(self).snap(), final(self).snap()),
    {
        proof {
            self.dict.lemma_chain_nonempty();
            let c = self.chain();
            assert(c.update(0, bind(c[0], name@, e@)).drop_first() =~= c.drop_first());
        }
        let mut d = Rc::new(Dictionary::new());
        std::mem::swap(&mut d, &mut self.dict);
        let mut inner = match Rc::try_unwrap(d) {
            Ok(x) => x,
            Err(shared) => shared.copy(),
        };
        inner.put(name, e);
        self.dict = Rc::new(inner);
    }

    /// Whether `word` resolves in this evaluator's scope.
    pub(crate) fn resolves(&self, word: &str) -> (r: bool)
        ensures
            r == resolve(self.chain(), word@) is Some,
    {
        self.dict.lookup(word).is_some()
    }

    /// The words visible to this evaluator, each with its aliases.
    pub fn available_words(&self) -> (r: Vec<(String, Vec<String>)>)
        ensures
            crate::dict::lists_chain(r@, self.chain()),
    {
        self.dict.available_words()
    }

    /// Prints each value of the stack, bottom first, leaving it as it is.
    pub fn print_stack<H: Host>(&self, h: &mut H) {
        let mut i: usize = 0;
        while i < self.data.len()
            invariant
                i <= self.data@.len(),
            decreases self.data@.len() - i,
        {
            let line = self.data[i].render(&*h);
            h.print(line);
            i += 1;
        }
    }

    fn pop_frame(&mut self) -> (r: Option<Frame>)
        ensures
            final(self).stack() == old(self).stack(),
            final(self).chain() == old(self).chain(),
            old(self).frames().len() == 0 ==> r is None && final(self).frames() == old(self).frames(),
            old(self).frames().len() > 0 ==> (r matches Some(f) && frame_model(&f) == old(self).frames().last()
                && final(self).frames() == old(self).frames().drop_last()),
    {
        let ghost st = self.state@;
        let r = self.state.pop();
        proof {
            if st.len() > 0 {
                assert(self.frames() =~= Seq::new(st.len(), |i: int| frame_model(&st[i])).drop_last());
            }
        }
        r
    }

    fn push_frame(&mut self, f: Frame)
        ensures
            final(self).stack() == old(self).stack(),
            final(self).chain() == old(self).chain(),
            final(self).frames() == old(self).frames().push(frame_model(&f)),
    {
        let ghost st = self.state@;
        let ghost m = frame_model(&f);
        self.state.push(f);
        assert(self.frames() =~= Seq::new(st.len(), |i: int| frame_model(&st[i])).push(m));
    }

    /// Runs the words of a block, in order, against this evaluator; the
    /// first error stops it.
    pub(crate) fn run_block<H: Host>(&mut self, block: &Vec<String>, h: &mut H, depth: u32) -> (r: Result<(), ErrorKind>)
        ensures
            scope_kept(old(self).snap(), final(self).snap()),
            block@.len() == 0 ==> r is Ok && final(self).snap() == old(self).snap(),
            run_post(old(self).snap(), words_model(block@), final(self).snap(), outcome(r), depth as nat),
            run_full(old(self).snap(), words_model(block@), final(self).snap(), outcome(r), depth as nat),
        decreases depth, 5nat,
    {
        let ghost s0 = self.snap();
        let ghost ws = words_model(block@);
        let mut i: usize = 0;
        while i < block.len()
            invariant
                i <= block@.len(),
                s0 == old(self).snap(),
                ws == words_model(block@),
                scope_kept(old(self).snap(), self.snap()),
                i == 0 ==> self.snap() == s0,
                run_post(s0, ws.take(i as int), self.snap(), None, depth as nat),
                run_full(s0, ws.take(i as int), self.snap(), None, depth as nat),
            decreases block@.len() - i,
        {
            let ghost mid = self.snap();
            let r = self.run_one_at(block[i].as_str(), h, depth);
            proof {
                let t = ws.take(i + 1);
                assert(t.drop_last() =~= ws.take(i as int));
                assert(t.last() == block@[i as int]@);
                assert(run_post(s0, t.drop_last(), mid, None, depth as nat) && step_post(mid, t.last(), self.snap(), outcome(r), depth as nat));
                assert(run_post(s0, t, self.snap(), outcome(r), depth as nat));
                assert(run_full(s0, t.drop_last(), mid, None, depth as nat) && full_step(mid, t.last(), self.snap(), outcome(r), depth as nat));
                assert(run_full(s0, t, self.snap(), outcome(r), depth as nat));
                if r is Err {
                    lemma_run_post_stop(s0, ws, i + 1, self.snap(), outcome(r), depth as nat);
                    lemma_run_full_stop(s0, ws, i + 1, self.snap(), outcome(r), depth as nat);
                }
            }
            match r {
                Ok(()) => {},
                Err(e) => return Err(e),
            }
            i += 1;
        }
        proof {
            assert(ws.take(block@.len() as int) =~= ws);
        }
        Ok(())
    }

    /// Runs the words in order; the first error stops it.
    pub fn run<H: Host>(&mut self, words: &Vec<String>, h: &mut H) -> (r: Result<(), ErrorKind>)
        ensures
            scope_kept(old(self).snap(), final(self).snap()),
            words@.len() == 0 ==> r is Ok && final(self).snap() == old(self).snap(),
            run_post(old(self).snap(), words_model(words@), final(self).snap(), outcome(r), MAX_DEPTH as nat),
            run_full(old(self).snap(), words_model(words@), final(self).snap(), outcome(r), MAX_DEPTH as nat),
    {
        self.run_block(words, h, MAX_DEPTH)
    }

    /// Feeds one word to the evaluator.
    pub fn run_one<H: Host>(&mut self, word: &str, h: &mut H) -> (r: Result<(), ErrorKind>)
        ensures
            scope_kept(old(self).snap(), final(self).snap()),
            step_post(old(self).snap(), word@, final(self).snap(), outcome(r), MAX_DEPTH as nat),
            old(self).frames().len() == 0 ==> word_runs(
                old(self).snap(),
                word@,
                final(self).snap(),
                outcome(r),
                (MAX_DEPTH - 1) as nat,
            ),
    {
        self.run_one_at(word, h, MAX_DEPTH)
    }

    pub(crate) fn run_one_at<H: Host>(&mut self, word: &str, h: &mut H, depth: u32) -> (r: Result<(), ErrorKind>)
        ensures
            scope_kept(old(self).snap(), final(self).snap()),
            step_post(old(self).snap(), word@, final(self).snap(), outcome(r), depth as nat),
            depth > 0 && old(self).frames().len() == 0 ==> word_runs(
                old(self).snap(),
                word@,
                final(self).snap(),
                outcome(r),
                (depth - 1) as nat,
            ),
        decreases depth, 4nat,
    {
        if depth == 0 {
            return Err(ErrorKind::TooDeep);
        }
        let ghost s0 = self.snap();
        match self.pop_frame() {
            Some(Frame::Reading { mut block, level }) => {
                let close = is_token(word, '}');
                if close && level == 0 {
                    self.push(Value::Block(block));
                } else {
                    let ghost b0 = block@;
                    block.push(word.to_owned());
                    assert(words_model(block@) =~= words_model(b0).push(word@));
                    let next = if close {
                        level - 1
                    } else if is_token(word, '{') {
                        if level < usize::MAX {
                            level + 1
                        } else {
                            level
                        }
                    } else {
                        level
                    };
                    self.push_frame(Frame::Reading { block, level: next });
                }
                Ok(())
            },
            Some(Frame::Collecting { mut calc }) => {
                if is_token(word, ']') {
                    let child = *calc;
                    proof {
                        crate::value::lemma_vector_model(child.data);
                    }
                    self.push(Value::Vector(child.data));
                    return Ok(());
                }
                let is_arg = match self.dict.lookup(word) {
                    Some(Operation::Builtin(BuiltinWord::Arg)) => true,
                    _ => false,
                };
                if is_arg {
                    match self.pop_frame() {
                        Some(Frame::Collecting { calc: mut outer }) => {
                            let ghost outer0 = outer.snap();
                            let ghost calc0 = calc.snap();
                            proof {
                                assert(s0.frames[s0.frames.len() - 2] == FrameModel::Collecting { child: outer0 });
                                assert(s0.frames.last() == FrameModel::Collecting { child: calc0 });
                            }
                            match outer.get_operand() {
                                Ok(v) => calc.push(v),
                                Err(e) => {
                                    proof {
                                        assert(self.frames() =~= s0.frames.take(s0.frames.len() - 2));
                                    }
                                    return Err(e);
                                },
                            }
                            let ghost below = self.frames();
                            self.push_frame(Frame::Collecting { calc: outer });
                            proof {
                                assert(below =~= s0.frames.take(s0.frames.len() - 2));
                                assert(self.frames().drop_last() =~= below);
                                assert(self.frames().last() == FrameModel::Collecting {
                                    child: Snapshot { stack: outer0.stack.drop_last(), chain: outer0.chain, frames: outer0.frames },
                                });
                                assert(calc.snap() == Snapshot { stack: calc0.stack.push(outer0.stack.last()), chain: calc0.chain, frames: calc0.frames });
                                assert(self.frames() =~= s0.frames.take(s0.frames.len() - 2).push(FrameModel::Collecting {
                                    child: Snapshot { stack: outer0.stack.drop_last(), chain: outer0.chain, frames: outer0.frames },
                                }));
                            }
                        },
                        Some(Frame::Reading { block, level }) => {
                            match self.get_operand() {
                                Ok(v) => calc.push(v),
                                Err(e) => {
                                    proof {
                                        assert(self.frames() =~= s0.frames.take(s0.frames.len() - 2));
                                    }
                                    return Err(e);
                                },
                            }
                            let ghost below = self.frames();
                            self.push_frame(Frame::Reading { block, level });
                            proof {
                                assert(below =~= s0.frames.take(s0.frames.len() - 2));
                                assert(self.frames() =~= s0.frames.drop_last());
                            }
                        },
                        None => match self.get_operand() {
                            Ok(v) => calc.push(v),
                            Err(e) => return Err(e),
                        },
                    }
                } else {
                    let ghost c0 = calc.snap();
                    let r1 = calc.run_one_at(word, h, depth - 1);
                    if let Err(e) = r1 {
                        let ghost rest = self.frames();
                        self.push_frame(Frame::Collecting { calc });
                        proof {
                            assert(self.frames().drop_last() =~= rest);
                        }
                        return Err(e);
                    }
                }
                let ghost rest = self.frames();
                self.push_frame(Frame::Collecting { calc });
                proof {
                    assert(self.frames().drop_last() =~= rest);
                }
                Ok(())
            },
            None => self.dispatch(word, h, depth),
        }
    }

    /// Handles a word with no pending frame.
    fn dispatch<H: Host>(&mut self, word: &str, h: &mut H, depth: u32) -> (r: Result<(), ErrorKind>)
        requires
            depth > 0,
        ensures
            scope_kept(old(self).snap(), final(self).snap()),
            dispatch_post(old(self).snap(), word@, final(self).snap(), outcome(r)),
            word_runs(old(self).snap(), word@, final(self).snap(), outcome(r), (depth - 1) as nat),
        decreases depth, 3nat,
    {
        let n = word.unicode_len();
        if n > 0 && word.get_char(0) == ',' {
            let rest = word.substring_char(1, n);
            assert(rest@ =~= word@.drop_first());
            self.push(Value::QuotedWord(rest.to_owned()));
            return Ok(());
        }
        if is_token(word, '{') {
            let block: Vec<String> = Vec::new();
            assert(words_model(block@) =~= Seq::<Seq<char>>::empty());
            self.push_frame(Frame::Reading { block, level: 0 });
            return Ok(());
        }
        if is_token(word, '[') {
            let sub = self.sub_calc();
            self.push_frame(Frame::Collecting { calc: Box::new(sub) });
            return Ok(());
        }
        proof {
            assert(!is_quoted(word@));
            assert(word@ != seq!['{']);
            assert(word@ != seq!['[']);
        }
        match self.dict.lookup(word) {
            Some(Operation::Builtin(b)) => self.run_builtin(b, h, depth),
            Some(Operation::Value(Value::Block(block))) => self.run_block(&block, h, depth - 1),
            Some(Operation::Value(v)) => {
                self.push(v);
                Ok(())
            },
            None => match Value::parse(word, &*h) {
                Some(v) => {
                    proof {
                        crate::builtins::lemma_push_drop(self.stack(), v@);
                    }
                    self.push(v);
                    Ok(())
                },
                None => Err(ErrorKind::WordParseError(word.to_owned())),
            },
        }
    }

    /// Pushes a value.
    pub fn push(&mut self, v: Value)
        ensures
            final(self).stack() == old(self).stack().push(v@),
            final(self).chain() == old(self).chain(),
            final(self).frames() == old(self).frames(),
    {
        let ghost s = self.data@;
        self.data.push(v);
        assert(values_model(self.data@) =~= values_model(s).push(v@));
    }
}

} // verus!
