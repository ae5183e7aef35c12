//! The builtin operations, each stated over the stack it finds and the
//! stack it leaves.

use crate::calc::{
    kind_accepts, outcome, pop_kind, scope_kept, take_operands, Calc, ErrorKind, ErrorModel, Host,
    Kind, Snapshot,
};
use crate::calc::{run_post, step_post};
use crate::dict::{bind, resolve, Entry, EntryModel, Table};
use crate::float::{is_float_zero, FloatArith, FloatBinary, FloatUnary};
use crate::integer::{int_add, int_cmp, int_literal, int_mul, int_sub, Int};
use crate::value::trimmed;
use crate::value::{values_model, BuiltinWord, Operation, OperationModel, Value, ValueModel};
use vstd::prelude::*;

verus! {

/// The operands that a builtin pops before it acts, topmost first.
pub open spec fn operand_kinds(b: BuiltinWord) -> Seq<Kind> {
    match b {
        BuiltinWord::Add | BuiltinWord::Sub | BuiltinWord::Mul => seq![Kind::Any, Kind::Any],
        BuiltinWord::Div | BuiltinWord::Mod | BuiltinWord::Pow | BuiltinWord::Log => seq![
            Kind::Numeric,
            Kind::Numeric,
        ],
        BuiltinWord::Sqrt | BuiltinWord::Exp | BuiltinWord::Ln | BuiltinWord::Sin | BuiltinWord::Cos
        | BuiltinWord::Tan | BuiltinWord::Asin | BuiltinWord::Acos | BuiltinWord::Atan => seq![
            Kind::Numeric,
        ],
        BuiltinWord::Print | BuiltinWord::Duplicate | BuiltinWord::Apply => seq![Kind::Any],
        BuiltinWord::Dump | BuiltinWord::Stdin | BuiltinWord::Arg => seq![],
        BuiltinWord::Pop => seq![Kind::Any],
        BuiltinWord::MapEach | BuiltinWord::Filter | BuiltinWord::Fold1 => seq![Kind::Block, Kind::Vector],
        BuiltinWord::Fold => seq![Kind::Block, Kind::Any, Kind::Vector],
        BuiltinWord::Length => seq![Kind::Vector],
        BuiltinWord::Swap | BuiltinWord::Over => seq![Kind::Any, Kind::Any],
        BuiltinWord::Repeat => seq![Kind::IntCast, Kind::Block],
        BuiltinWord::Roll3 => seq![Kind::Any, Kind::Any, Kind::Any],
        BuiltinWord::Min | BuiltinWord::Max | BuiltinWord::Cmp => seq![Kind::Int, Kind::Int],
        BuiltinWord::If => seq![Kind::Any, Kind::Any, Kind::Int],
        BuiltinWord::Def => seq![Kind::Any, Kind::Word],
        BuiltinWord::Alias => seq![Kind::Word, Kind::Word],
    }
}

/// The exact result of integer `add`, `sub` and `mul` on `x` (deeper) and
/// `y` (topmost).
pub open spec fn int_op(b: BuiltinWord, x: int, y: int) -> int {
    match b {
        BuiltinWord::Add => x + y,
        BuiltinWord::Sub => x - y,
        _ => x * y,
    }
}

/// A float pushed on `rest`, or, where some operand is an integer
/// (`converts`), the failure to convert it.
pub open spec fn float_result(rest: Seq<ValueModel>, t: Seq<ValueModel>, o: Option<ErrorModel>, converts: bool) -> bool {
    ||| o is None && t.len() == rest.len() + 1 && t.drop_last() == rest && t.last() is Float
    ||| converts && o == Some(ErrorModel::BigIntTooLarge) && t == rest
}

/// `add`, `sub` and `mul`: integers give the exact integer; a float operand
/// makes the result a float; anything else is of the wrong kind, the deeper
/// operand being reported first.
pub open spec fn arith_post(
    b: BuiltinWord,
    rest: Seq<ValueModel>,
    y: ValueModel,
    x: ValueModel,
    t: Seq<ValueModel>,
    o: Option<ErrorModel>,
) -> bool {
    if !kind_accepts(Kind::Numeric, x) {
        o == Some(ErrorModel::WrongTypeOperand(x, "int or float"@)) && t == rest
    } else if !kind_accepts(Kind::Numeric, y) {
        o == Some(ErrorModel::WrongTypeOperand(y, "int or float"@)) && t == rest
    } else {
        match (x, y) {
            (ValueModel::Int(a), ValueModel::Int(c)) => o is None && t == rest.push(ValueModel::Int(int_op(b, a, c))),
            _ => float_result(rest, t, o, x is Int || y is Int),
        }
    }
}

/// Whether a numeric value is zero once cast to a float.
pub open spec fn is_zero_number(v: ValueModel) -> bool {
    match v {
        ValueModel::Int(i) => i == 0,
        ValueModel::Float(x) => is_float_zero(x),
        _ => false,
    }
}

/// -1, 0 or 1 as `d` is below, at or above zero.
pub open spec fn sign(d: int) -> int {
    if d < 0 { -1 } else if d == 0 { 0 } else { 1 }
}

/// Whether `k` is `s` with some elements left out, the rest in order.
pub open spec fn is_subsequence(k: Seq<ValueModel>, s: Seq<ValueModel>) -> bool {
    exists|ix: Seq<int>|
        ix.len() == k.len() && (forall|j: int| 0 <= j < ix.len() ==> 0 <= #[trigger] ix[j] < s.len() && k[j] == s[ix[j]])
            && (forall|j: int, l: int| 0 <= j < l < ix.len() ==> ix[j] < ix[l])
}

/// What a builtin does once its operands `vs` are popped, leaving `rest`.
pub open spec fn effect(
    b: BuiltinWord,
    rest: Seq<ValueModel>,
    vs: Seq<ValueModel>,
    old: Snapshot,
    new: Snapshot,
    o: Option<ErrorModel>,
) -> bool {
    let t = new.stack;
    let kept = new.chain == old.chain && new.frames == old.frames;
    match b {
        BuiltinWord::Add | BuiltinWord::Sub | BuiltinWord::Mul => kept && arith_post(b, rest, vs[0], vs[1], t, o),
        BuiltinWord::Div => kept && if is_zero_number(vs[0]) {
            o == Some(ErrorModel::DivisionByZero) && t == rest
        } else {
            float_result(rest, t, o, vs[0] is Int || vs[1] is Int)
        },
        BuiltinWord::Mod | BuiltinWord::Pow | BuiltinWord::Log | BuiltinWord::Sqrt | BuiltinWord::Exp
        | BuiltinWord::Ln | BuiltinWord::Sin | BuiltinWord::Cos | BuiltinWord::Tan | BuiltinWord::Asin
        | BuiltinWord::Acos | BuiltinWord::Atan => kept && float_result(
            rest,
            t,
            o,
            vs[0] is Int || (vs.len() > 1 && vs[1] is Int),
        ),
        BuiltinWord::Print | BuiltinWord::Dump | BuiltinWord::Arg => kept && o is None && t == rest,
        BuiltinWord::Stdin => kept && o is None && t.len() == rest.len() + 1 && t.drop_last() == rest
            && t.last() is Vector && exists|lines: Seq<Seq<char>>| #[trigger] lines_parsed(lines, t.last()->Vector_0),
        BuiltinWord::Pop => kept && o is None && t == rest,
        BuiltinWord::Duplicate => kept && o is None && t == rest + seq![vs[0], vs[0]],
        BuiltinWord::Swap => kept && o is None && t == rest + seq![vs[0], vs[1]],
        BuiltinWord::Over => kept && o is None && t == rest + seq![vs[1], vs[0], vs[1]],
        BuiltinWord::Roll3 => kept && o is None && t == rest + seq![vs[1], vs[2], vs[0]],
        BuiltinWord::Length => kept && o is None && t == rest.push(ValueModel::Int(vs[0]->Vector_0.len() as int)),
        BuiltinWord::Min => kept && o is None && t == rest.push(
            ValueModel::Int(if vs[0]->Int_0 <= vs[1]->Int_0 { vs[0]->Int_0 } else { vs[1]->Int_0 }),
        ),
        BuiltinWord::Max => kept && o is None && t == rest.push(
            ValueModel::Int(if vs[0]->Int_0 >= vs[1]->Int_0 { vs[0]->Int_0 } else { vs[1]->Int_0 }),
        ),
        BuiltinWord::Cmp => kept && o is None && t == rest.push(ValueModel::Int(sign(vs[1]->Int_0 - vs[0]->Int_0))),
        BuiltinWord::Def => o is None && t == rest && new.frames == old.frames && new.chain == old.chain.update(
            0,
            bind(old.chain[0], vs[1]->QuotedWord_0, EntryModel::Op(OperationModel::Value(vs[0]))),
        ),
        BuiltinWord::Alias => new.frames == old.frames && t == rest && if resolve(old.chain, vs[0]->QuotedWord_0) is None {
            o == Some(ErrorModel::UnknownWord(vs[0]->QuotedWord_0)) && new.chain == old.chain
        } else {
            o is None && new.chain == old.chain.update(
                0,
                bind(old.chain[0], vs[1]->QuotedWord_0, EntryModel::Alias(vs[0]->QuotedWord_0)),
            )
        },
        BuiltinWord::MapEach => kept && (o is Some ==> t == rest) && (o is None ==> t.len() == rest.len() + 1
            && t.drop_last() == rest && t.last() is Vector
            && t.last()->Vector_0.len() == vs[1]->Vector_0.len()
            && (vs[0]->Block_0.len() == 0 ==> t.last()->Vector_0 == vs[1]->Vector_0)),
        BuiltinWord::Filter => kept && (o is Some ==> t == rest) && (o is None ==> t.len() == rest.len() + 1
            && t.drop_last() == rest && t.last() is Vector
            && is_subsequence(t.last()->Vector_0, vs[1]->Vector_0)),
        BuiltinWord::Fold => kept && (o is Some ==> t == rest) && (o is None ==> t.len() == rest.len() + 1 && t.drop_last() == rest)
            && (vs[2]->Vector_0.len() == 0 ==> o is None && t == rest.push(vs[1])),
        BuiltinWord::Fold1 => kept && (o is Some ==> t == rest)
            && (vs[1]->Vector_0.len() == 0 ==> o is None && t == rest)
            && (vs[1]->Vector_0.len() == 1 ==> o is None && t == rest.push(vs[1]->Vector_0[0]))
            && (vs[1]->Vector_0.len() > 0 && o is None ==> t.len() == rest.len() + 1 && t.drop_last() == rest),
        BuiltinWord::Repeat => (match vs[0] {
            ValueModel::Int(n) => n <= 0,
            _ => false,
        }) ==> kept && o is None && t == rest,
        BuiltinWord::Apply => !(vs[0] is QuotedWord || vs[0] is Block) ==> kept && o is None && t == rest,
        BuiltinWord::If => {
            let chosen = if vs[2]->Int_0 != 0 { vs[1] } else { vs[0] };
            !(chosen is Block) ==> kept && o is None && t == rest.push(chosen)
        },
    }
}

/// Whether `mid` is `old` with the operands of `b` popped as they should be.
pub open spec fn popped(b: BuiltinWord, old: Snapshot, mid: Snapshot, vs: Seq<ValueModel>) -> bool {
    &&& take_operands(old.stack, operand_kinds(b)) == Ok::<(Seq<ValueModel>, Seq<ValueModel>), (Seq<ValueModel>, ErrorModel)>((mid.stack, vs))
    &&& mid.chain == old.chain
    &&& mid.frames == old.frames
}

/// What a builtin does to the evaluator: its operands are popped, and
/// where that fails the error stops it; else it acts as `effect` says.
pub open spec fn builtin_post(b: BuiltinWord, old: Snapshot, new: Snapshot, o: Option<ErrorModel>) -> bool {
    match take_operands(old.stack, operand_kinds(b)) {
        Err((t, e)) => o == Some(e) && new.stack == t && new.chain == old.chain && new.frames == old.frames,
        Ok((rest, vs)) => effect(b, rest, vs, old, new, o),
    }
}

/// Whether running `block` in a fresh sub-evaluator, in a child scope of
/// `chain`, on `item` alone can succeed and leave `v` on top.
pub open spec fn block_gives(chain: Seq<Table>, block: Seq<Seq<char>>, item: ValueModel, v: ValueModel, depth: nat) -> bool
{
    exists|s: Snapshot|
        #[trigger] run_post(
            Snapshot {
                stack: seq![item],
                chain: seq![Seq::<(Seq<char>, EntryModel)>::empty()] + chain,
                frames: Seq::empty(),
            },
            block,
            s,
            None,
            depth,
        ) && s.stack.len() > 0 && s.stack.last() == v
}

/// What `map` gives, element by element: where it succeeds, the element
/// at each index of its result is what the block gives on the element at
/// that index of its input.
pub open spec fn map_runs(old: Snapshot, new: Snapshot, o: Option<ErrorModel>, depth: nat) -> bool
{
    match take_operands(old.stack, operand_kinds(BuiltinWord::MapEach)) {
        Ok((rest, vs)) => {
            &&& o is None ==> forall|i: int|
                0 <= i < vs[1]->Vector_0.len() ==> block_gives(
                    old.chain,
                    vs[0]->Block_0,
                    vs[1]->Vector_0[i],
                    #[trigger] new.stack.last()->Vector_0[i],
                    depth,
                )
            &&& o matches Some(e) ==> fails_at_some(old.chain, vs[0]->Block_0, vs[1]->Vector_0, e, depth)
        },
        Err(_) => true,
    }
}

/// Whether running `block` in a fresh sub-evaluator, in a child scope of
/// `chain`, on `item` alone can succeed and leave some value on top.
pub open spec fn gives_some(chain: Seq<Table>, block: Seq<Seq<char>>, item: ValueModel, depth: nat) -> bool {
    exists|v: ValueModel| #[trigger] block_gives(chain, block, item, v, depth)
}

/// Whether running `block` in a fresh sub-evaluator, in a child scope of
/// `chain`, on `item` alone can end in the error `e`: the run fails with
/// `e`, or it succeeds with nothing left and `e` is `BlockNoResult`.
pub open spec fn block_fails(chain: Seq<Table>, block: Seq<Seq<char>>, item: ValueModel, e: ErrorModel, depth: nat) -> bool {
    exists|s: Snapshot, p: Option<ErrorModel>|
        #[trigger] run_post(
            Snapshot {
                stack: seq![item],
                chain: seq![Seq::<(Seq<char>, EntryModel)>::empty()] + chain,
                frames: Seq::empty(),
            },
            block,
            s,
            p,
            depth,
        ) && (p == Some(e) || (p is None && s.stack.len() == 0 && e == ErrorModel::BlockNoResult))
}

/// Whether a per-element run of `block` over `items`, stopping at the
/// first failure, can end in `e`: the runs on the elements before some
/// index succeed with a value, and the run on that element fails with `e`.
pub open spec fn fails_at_some(chain: Seq<Table>, block: Seq<Seq<char>>, items: Seq<ValueModel>, e: ErrorModel, depth: nat) -> bool {
    exists|i: int|
        0 <= i < items.len() && (forall|j: int| 0 <= j < i ==> gives_some(chain, block, #[trigger] items[j], depth))
            && #[trigger] block_fails(chain, block, items[i], e, depth)
}

/// Whether folding `items` with `block` from `start` can end in `e`: the
/// fold fails with `e`, or it succeeds with nothing left and `e` is
/// `BlockNoResult`.
pub open spec fn fold_fails(start: Snapshot, block: Seq<Seq<char>>, items: Seq<ValueModel>, e: ErrorModel, depth: nat) -> bool {
    exists|end: Snapshot, p: Option<ErrorModel>|
        #[trigger] fold_post(start, block, items, end, p, depth) && (p == Some(e) || (p is None && end.stack.len() == 0
            && e == ErrorModel::BlockNoResult))
}

/// The evaluator state left once the operands of `b` are popped.
pub open spec fn after_operands(b: BuiltinWord, old: Snapshot) -> Snapshot {
    Snapshot { stack: take_operands(old.stack, operand_kinds(b))->Ok_0.0, chain: old.chain, frames: old.frames }
}

/// The operands of `b`, topmost first.
pub open spec fn operands(b: BuiltinWord, old: Snapshot) -> Seq<ValueModel> {
    take_operands(old.stack, operand_kinds(b))->Ok_0.1
}

/// A fresh sub-evaluator, in a child scope of `chain`, holding `v` alone.
pub open spec fn seeded(chain: Seq<Table>, v: ValueModel) -> Snapshot {
    Snapshot {
        stack: seq![v],
        chain: seq![Seq::<(Seq<char>, EntryModel)>::empty()] + chain,
        frames: Seq::empty(),
    }
}

/// Running `block` `n` times in a row; the first error stops it.
pub open spec fn repeat_post(old: Snapshot, block: Seq<Seq<char>>, n: nat, new: Snapshot, o: Option<ErrorModel>, depth: nat) -> bool
    decreases n,
{
    if n == 0 {
        o is None && new == old
    } else {
        ||| o is Some && repeat_post(old, block, (n - 1) as nat, new, o, depth)
        ||| exists|mid: Snapshot| repeat_post(old, block, (n - 1) as nat, mid, None, depth) && run_post(mid, block, new, o, depth)
    }
}

/// `s` with `v` pushed on its stack.
pub open spec fn pushed(s: Snapshot, v: ValueModel) -> Snapshot {
    Snapshot { stack: s.stack.push(v), chain: s.chain, frames: s.frames }
}

/// Pushing each of `items` in turn and running `block` after each; the
/// first error stops it.
pub open spec fn fold_post(old: Snapshot, block: Seq<Seq<char>>, items: Seq<ValueModel>, new: Snapshot, o: Option<ErrorModel>, depth: nat) -> bool
    decreases items.len(),
{
    if items.len() == 0 {
        o is None && new == old
    } else {
        ||| o is Some && fold_post(old, block, items.drop_last(), new, o, depth)
        ||| exists|mid: Snapshot|
            fold_post(old, block, items.drop_last(), mid, None, depth) && #[trigger] run_post(
                pushed(mid, items.last()),
                block,
                new,
                o,
                depth,
            )
    }
}

proof fn lemma_fold_step(
    start: Snapshot,
    block: Seq<Seq<char>>,
    items: Seq<ValueModel>,
    mid: Snapshot,
    new: Snapshot,
    o: Option<ErrorModel>,
    depth: nat,
)
    requires
        items.len() > 0,
        fold_post(start, block, items.drop_last(), mid, None, depth),
        run_post(pushed(mid, items.last()), block, new, o, depth),
    ensures
        fold_post(start, block, items, new, o, depth),
{
}

/// Whether folding `items` with `block` from a sub-evaluator that starts
/// as `start` can succeed and leave `v` on top.
pub open spec fn fold_gives(start: Snapshot, block: Seq<Seq<char>>, items: Seq<ValueModel>, v: ValueModel, depth: nat) -> bool {
    exists|end: Snapshot| #[trigger] fold_post(start, block, items, end, None, depth) && end.stack.len() > 0 && end.stack.last() == v
}

/// How the builtins that run words do so, with `depth` levels of nesting
/// left for those words.
pub open spec fn builtin_runs(b: BuiltinWord, old: Snapshot, new: Snapshot, o: Option<ErrorModel>, depth: nat) -> bool {
    let mid = after_operands(b, old);
    let vs = operands(b, old);
    match b {
        BuiltinWord::MapEach => map_runs(old, new, o, depth),
        BuiltinWord::Filter => filter_runs(old, new, o, depth),
        BuiltinWord::Fold => take_operands(old.stack, operand_kinds(b)) is Ok ==> {
            &&& o is None ==> fold_gives(seeded(old.chain, vs[1]), vs[0]->Block_0, vs[2]->Vector_0, new.stack.last(), depth)
            &&& o matches Some(e) ==> fold_fails(seeded(old.chain, vs[1]), vs[0]->Block_0, vs[2]->Vector_0, e, depth)
        },
        BuiltinWord::Fold1 => take_operands(old.stack, operand_kinds(b)) is Ok && vs[1]->Vector_0.len() > 0 ==> {
            &&& o is None ==> fold_gives(
                seeded(old.chain, vs[1]->Vector_0[0]),
                vs[0]->Block_0,
                vs[1]->Vector_0.drop_first(),
                new.stack.last(),
                depth,
            )
            &&& o matches Some(e) ==> fold_fails(
                seeded(old.chain, vs[1]->Vector_0[0]),
                vs[0]->Block_0,
                vs[1]->Vector_0.drop_first(),
                e,
                depth,
            )
        },
        BuiltinWord::Repeat => take_operands(old.stack, operand_kinds(b)) is Ok ==> {
            &&& vs[0] is Int ==> repeat_post(
                mid,
                vs[1]->Block_0,
                if vs[0]->Int_0 > 0 { vs[0]->Int_0 as nat } else { 0 },
                new,
                o,
                depth,
            )
            &&& exists|k: nat| #[trigger] repeat_post(mid, vs[1]->Block_0, k, new, o, depth)
        },
        BuiltinWord::Apply => take_operands(old.stack, operand_kinds(b)) is Ok ==> match vs[0] {
            ValueModel::QuotedWord(w) => step_post(mid, w, new, o, depth),
            ValueModel::Block(words) => run_post(mid, words, new, o, depth),
            _ => true,
        },
        BuiltinWord::If => take_operands(old.stack, operand_kinds(b)) is Ok ==> {
            let chosen = if vs[2]->Int_0 != 0 { vs[1] } else { vs[0] };
            chosen is Block ==> run_post(mid, chosen->Block_0, new, o, depth)
        },
        _ => true,
    }
}

/// Whether `filter` keeps an element on which its block left `v`: a
/// nonzero integer or `true`; a float never counts.
pub open spec fn truthy(v: ValueModel) -> bool {
    match v {
        ValueModel::Int(i) => i != 0,
        ValueModel::Bool(b) => b,
        _ => false,
    }
}

/// The elements of `items` whose result in `rs`, at the same index, is
/// truthy, in order.
pub open spec fn kept(items: Seq<ValueModel>, rs: Seq<ValueModel>) -> Seq<ValueModel>
    decreases items.len(),
{
    if items.len() == 0 {
        Seq::empty()
    } else {
        let k = kept(items.drop_last(), rs);
        if truthy(rs[items.len() - 1]) {
            k.push(items.last())
        } else {
            k
        }
    }
}

/// What `filter` gives: where it succeeds, its result keeps the elements
/// on which the block gives a truthy value, in order.
pub open spec fn filter_runs(old: Snapshot, new: Snapshot, o: Option<ErrorModel>, depth: nat) -> bool {
    match take_operands(old.stack, operand_kinds(BuiltinWord::Filter)) {
        Ok((rest, vs)) => {
            &&& o is None ==> exists|rs: Seq<ValueModel>|
                rs.len() == vs[1]->Vector_0.len() && (forall|i: int|
                    0 <= i < rs.len() ==> block_gives(old.chain, vs[0]->Block_0, vs[1]->Vector_0[i], #[trigger] rs[i], depth))
                    && new.stack.last()->Vector_0 == kept(vs[1]->Vector_0, rs)
            &&& o matches Some(e) ==> fails_at_some(old.chain, vs[0]->Block_0, vs[1]->Vector_0, e, depth)
        },
        Err(_) => true,
    }
}

proof fn lemma_fails_at(
    chain: Seq<Table>,
    block: Seq<Seq<char>>,
    items: Seq<ValueModel>,
    gs: Seq<ValueModel>,
    i: int,
    e: ErrorModel,
    depth: nat,
)
    requires
        0 <= i < items.len(),
        forall|j: int| 0 <= j < i ==> block_gives(chain, block, items[j], #[trigger] gs[j], depth),
        block_fails(chain, block, items[i], e, depth),
    ensures
        fails_at_some(chain, block, items, e, depth),
{
    assert forall|j: int| 0 <= j < i implies gives_some(chain, block, #[trigger] items[j], depth) by {
        assert(block_gives(chain, block, items[j], gs[j], depth));
    }
}

proof fn lemma_fold_stop(start: Snapshot, block: Seq<Seq<char>>, items: Seq<ValueModel>, k: int, end: Snapshot, o: Option<ErrorModel>, depth: nat)
    requires
        0 <= k <= items.len(),
        o is Some,
        fold_post(start, block, items.take(k), end, o, depth),
    ensures
        fold_post(start, block, items, end, o, depth),
    decreases items.len() - k,
{
    if k < items.len() {
        let t = items.take(k + 1);
        assert(t.drop_last() =~= items.take(k));
        assert(fold_post(start, block, t, end, o, depth));
        lemma_fold_stop(start, block, items, k + 1, end, o, depth);
    } else {
        assert(items.take(k) =~= items);
    }
}

proof fn lemma_repeat_stop(old: Snapshot, block: Seq<Seq<char>>, k: nat, n: nat, new: Snapshot, o: Option<ErrorModel>, depth: nat)
    requires
        k <= n,
        o is Some,
        repeat_post(old, block, k, new, o, depth),
    ensures
        repeat_post(old, block, n, new, o, depth),
    decreases n - k,
{
    if k < n {
        assert(repeat_post(old, block, (k + 1) as nat, new, o, depth));
        lemma_repeat_stop(old, block, (k + 1) as nat, n, new, o, depth);
    }
}

proof fn lemma_kept_prefix(items: Seq<ValueModel>, rs: Seq<ValueModel>, rs2: Seq<ValueModel>)
    requires
        items.len() <= rs.len(),
        rs.len() <= rs2.len(),
        forall|j: int| 0 <= j < rs.len() ==> rs2[j] == rs[j],
    ensures
        kept(items, rs2) == kept(items, rs),
    decreases items.len(),
{
    if items.len() > 0 {
        lemma_kept_prefix(items.drop_last(), rs, rs2);
    }
}

pub(crate) proof fn lemma_push_drop(s: Seq<ValueModel>, v: ValueModel)
    ensures
        #[trigger] s.push(v).drop_last() == s,
        s.push(v).last() == v,
        s.push(v).len() == s.len() + 1,
{
    assert(s.push(v).drop_last() =~= s);
}

pub(crate) proof fn lemma_take_one(s: Seq<ValueModel>, k: Kind)
    ensures
        take_operands(s, seq![k]) == match pop_kind(s, k) {
            Err(e) => Err(e),
            Ok((r, v)) => Ok::<(Seq<ValueModel>, Seq<ValueModel>), (Seq<ValueModel>, ErrorModel)>((r, seq![v])),
        },
{
    let ks = seq![k];
    assert(ks.drop_first() =~= Seq::<Kind>::empty());
    if let Ok((r, v)) = pop_kind(s, k) {
        assert(take_operands(r, Seq::<Kind>::empty()) == Ok::<(Seq<ValueModel>, Seq<ValueModel>), (Seq<ValueModel>, ErrorModel)>((r, Seq::empty())));
        assert(seq![v] + Seq::<ValueModel>::empty() =~= seq![v]);
    }
}

pub(crate) proof fn lemma_take_two(s: Seq<ValueModel>, k1: Kind, k2: Kind)
    ensures
        take_operands(s, seq![k1, k2]) == match pop_kind(s, k1) {
            Err(e) => Err(e),
            Ok((r1, v1)) => match pop_kind(r1, k2) {
                Err(e) => Err(e),
                Ok((r2, v2)) => Ok::<(Seq<ValueModel>, Seq<ValueModel>), (Seq<ValueModel>, ErrorModel)>((r2, seq![v1, v2])),
            },
        },
{
    let ks = seq![k1, k2];
    assert(ks.drop_first() =~= seq![k2]);
    if let Ok((r1, v1)) = pop_kind(s, k1) {
        lemma_take_one(r1, k2);
        if let Ok((r2, v2)) = pop_kind(r1, k2) {
            assert(seq![v1] + seq![v2] =~= seq![v1, v2]);
        }
    }
}

pub(crate) proof fn lemma_take_three(s: Seq<ValueModel>, k1: Kind, k2: Kind, k3: Kind)
    ensures
        take_operands(s, seq![k1, k2, k3]) == match pop_kind(s, k1) {
            Err(e) => Err(e),
            Ok((r1, v1)) => match pop_kind(r1, k2) {
                Err(e) => Err(e),
                Ok((r2, v2)) => match pop_kind(r2, k3) {
                    Err(e) => Err(e),
                    Ok((r3, v3)) => Ok::<(Seq<ValueModel>, Seq<ValueModel>), (Seq<ValueModel>, ErrorModel)>((r3, seq![v1, v2, v3])),
                },
            },
        },
{
    let ks = seq![k1, k2, k3];
    assert(ks.drop_first() =~= seq![k2, k3]);
    if let Ok((r1, v1)) = pop_kind(s, k1) {
        lemma_take_two(r1, k2, k3);
        if let Ok((r2, v2)) = pop_kind(r1, k2) {
            if let Ok((r3, v3)) = pop_kind(r2, k3) {
                assert(seq![v1] + seq![v2, v3] =~= seq![v1, v2, v3]);
            }
        }
    }
}

/// Adding two integers leaves their exact sum in their place.
pub proof fn lemma_add_ints(old: Snapshot, new: Snapshot, o: Option<ErrorModel>, a: int, b: int)
    requires
        old.stack.len() >= 2,
        old.stack[old.stack.len() - 2] == ValueModel::Int(a),
        old.stack.last() == ValueModel::Int(b),
        builtin_post(BuiltinWord::Add, old, new, o),
    ensures
        o is None,
        new.stack == old.stack.drop_last().drop_last().push(ValueModel::Int(a + b)),
{
    lemma_take_two(old.stack, Kind::Any, Kind::Any);
    assert(old.stack.drop_last().last() == ValueModel::Int(a));
}

/// Dividing any number by zero fails with a division by zero, and both
/// operands are gone.
pub proof fn lemma_div_by_zero(old: Snapshot, new: Snapshot, o: Option<ErrorModel>)
    requires
        old.stack.len() >= 2,
        kind_accepts(Kind::Numeric, old.stack[old.stack.len() - 2]),
        is_zero_number(old.stack.last()),
        builtin_post(BuiltinWord::Div, old, new, o),
    ensures
        o == Some(ErrorModel::DivisionByZero),
        new.stack == old.stack.drop_last().drop_last(),
{
    lemma_take_two(old.stack, Kind::Numeric, Kind::Numeric);
    assert(old.stack.drop_last().last() == old.stack[old.stack.len() - 2]);
}

/// `map` leaves, in place of a block and a vector, a vector of the same
/// length whose element at each index is what the block gives on the
/// element at that index; with an empty block, the vector itself.
pub proof fn lemma_map_by_index(
    old: Snapshot,
    new: Snapshot,
    block: Seq<Seq<char>>,
    items: Seq<ValueModel>,
    depth: nat,
)
    requires
        old.stack.len() >= 2,
        old.stack[old.stack.len() - 2] == ValueModel::Vector(items),
        old.stack.last() == ValueModel::Block(block),
        builtin_post(BuiltinWord::MapEach, old, new, None),
        map_runs(old, new, None, depth),
    ensures
        new.stack.drop_last() == old.stack.drop_last().drop_last(),
        new.stack.last() is Vector,
        new.stack.last()->Vector_0.len() == items.len(),
        forall|i: int| 0 <= i < items.len() ==> block_gives(old.chain, block, items[i], #[trigger] new.stack.last()->Vector_0[i], depth),
        block.len() == 0 ==> new.stack.last() == ValueModel::Vector(items),
{
    lemma_take_two(old.stack, Kind::Block, Kind::Vector);
    assert(old.stack.drop_last().last() == old.stack[old.stack.len() - 2]);
}

/// `filter` leaves, in place of a block and a vector, a vector of the
/// elements on which the block gives a nonzero integer or `true`, in their
/// order: a subsequence of the input.
pub proof fn lemma_filter_keeps_order(
    old: Snapshot,
    new: Snapshot,
    block: Seq<Seq<char>>,
    items: Seq<ValueModel>,
    depth: nat,
)
    requires
        old.stack.len() >= 2,
        old.stack[old.stack.len() - 2] == ValueModel::Vector(items),
        old.stack.last() == ValueModel::Block(block),
        builtin_post(BuiltinWord::Filter, old, new, None),
        filter_runs(old, new, None, depth),
    ensures
        new.stack.drop_last() == old.stack.drop_last().drop_last(),
        new.stack.last() is Vector,
        is_subsequence(new.stack.last()->Vector_0, items),
        exists|rs: Seq<ValueModel>|
            rs.len() == items.len() && (forall|i: int| 0 <= i < rs.len() ==> block_gives(old.chain, block, items[i], #[trigger] rs[i], depth))
                && new.stack.last()->Vector_0 == kept(items, rs),
{
    lemma_take_two(old.stack, Kind::Block, Kind::Vector);
    assert(old.stack.drop_last().last() == old.stack[old.stack.len() - 2]);
}

/// `fold1` on an empty vector only drops the block and the vector.
pub proof fn lemma_fold1_empty(old: Snapshot, new: Snapshot, o: Option<ErrorModel>, block: Seq<Seq<char>>)
    requires
        old.stack.len() >= 2,
        old.stack[old.stack.len() - 2] == ValueModel::Vector(Seq::empty()),
        old.stack.last() == ValueModel::Block(block),
        builtin_post(BuiltinWord::Fold1, old, new, o),
    ensures
        o is None,
        new.stack == old.stack.drop_last().drop_last(),
{
    lemma_take_two(old.stack, Kind::Block, Kind::Vector);
    assert(old.stack.drop_last().last() == old.stack[old.stack.len() - 2]);
}

/// `fold` on an empty vector gives its initial value unchanged.
pub proof fn lemma_fold_empty(
    old: Snapshot,
    new: Snapshot,
    o: Option<ErrorModel>,
    block: Seq<Seq<char>>,
    init: ValueModel,
)
    requires
        old.stack.len() >= 3,
        old.stack[old.stack.len() - 3] == ValueModel::Vector(Seq::empty()),
        old.stack[old.stack.len() - 2] == init,
        old.stack.last() == ValueModel::Block(block),
        builtin_post(BuiltinWord::Fold, old, new, o),
    ensures
        o is None,
        new.stack == old.stack.drop_last().drop_last().drop_last().push(init),
{
    lemma_take_three(old.stack, Kind::Block, Kind::Any, Kind::Vector);
    assert(old.stack.drop_last().last() == old.stack[old.stack.len() - 2]);
    assert(old.stack.drop_last().drop_last().last() == old.stack[old.stack.len() - 3]);
}

impl Calc {
    pub fn builtin_swap(&mut self) -> (r: Result<(), ErrorKind>)
        ensures
            builtin_post(BuiltinWord::Swap, old(self).snap(), final(self).snap(), outcome(r)),
            scope_kept(old(self).snap(), final(self).snap()),
    {
        proof {
            lemma_take_two(self.stack(), Kind::Any, Kind::Any);
        }
        let a = match self.get_operand() {
            Ok(v) => v,
            Err(e) => return Err(e),
        };
        let b = match self.get_operand() {
            Ok(v) => v,
            Err(e) => return Err(e),
        };
        let ghost rest = self.stack();
        let ghost (va, vb) = (a@, b@);
        self.push(a);
        self.push(b);
        assert(self.stack() =~= rest + seq![va, vb]);
        Ok(())
    }

    pub fn builtin_over(&mut self) -> (r: Result<(), ErrorKind>)
        ensures
            builtin_post(BuiltinWord::Over, old(self).snap(), final(self).snap(), outcome(r)),
            scope_kept(old(self).snap(), final(self).snap()),
    {
        proof {
            lemma_take_two(self.stack(), Kind::Any, Kind::Any);
        }
        let a = match self.get_operand() {
            Ok(v) => v,
            Err(e) => return Err(e),
        };
        let b = match self.get_operand() {
            Ok(v) => v,
            Err(e) => return Err(e),
        };
        let ghost rest = self.stack();
        let ghost (va, vb) = (a@, b@);
        self.push(b.copy());
        self.push(a);
        self.push(b);
        assert(self.stack() =~= rest + seq![vb, va, vb]);
        Ok(())
    }

    pub fn builtin_roll3(&mut self) -> (r: Result<(), ErrorKind>)
        ensures
            builtin_post(BuiltinWord::Roll3, old(self).snap(), final(self).snap(), outcome(r)),
            scope_kept(old(self).snap(), final(self).snap()),
    {
        proof {
            lemma_take_three(self.stack(), Kind::Any, Kind::Any, Kind::Any);
        }
        let a = match self.get_operand() {
            Ok(v) => v,
            Err(e) => return Err(e),
        };
        let b = match self.get_operand() {
            Ok(v) => v,
            Err(e) => return Err(e),
        };
        let c = match self.get_operand() {
            Ok(v) => v,
            Err(e) => return Err(e),
        };
        let ghost rest = self.stack();
        let ghost (va, vb, vc) = (a@, b@, c@);
        self.push(b);
        self.push(c);
        self.push(a);
        assert(self.stack() =~= rest + seq![vb, vc, va]);
        Ok(())
    }

    pub fn builtin_duplicate(&mut self) -> (r: Result<(), ErrorKind>)
        ensures
            builtin_post(BuiltinWord::Duplicate, old(self).snap(), final(self).snap(), outcome(r)),
            scope_kept(old(self).snap(), final(self).snap()),
    {
        proof {
            lemma_take_one(self.stack(), Kind::Any);
        }
        let v = match self.get_operand() {
            Ok(v) => v,
            Err(e) => return Err(e),
        };
        let ghost rest = self.stack();
        let ghost m = v@;
        self.push(v.copy());
        self.push(v);
        assert(self.stack() =~= rest + seq![m, m]);
        Ok(())
    }

    /// Drops the top value.
    pub fn builtin_pop(&mut self) -> (r: Result<(), ErrorKind>)
        ensures
            builtin_post(BuiltinWord::Pop, old(self).snap(), final(self).snap(), outcome(r)),
            scope_kept(old(self).snap(), final(self).snap()),
    {
        proof {
            lemma_take_one(self.stack(), Kind::Any);
        }
        match self.get_operand() {
            Ok(_) => Ok(()),
            Err(e) => Err(e),
        }
    }

    pub fn builtin_length(&mut self) -> (r: Result<(), ErrorKind>)
        ensures
            builtin_post(BuiltinWord::Length, old(self).snap(), final(self).snap(), outcome(r)),
            scope_kept(old(self).snap(), final(self).snap()),
    {
        proof {
            lemma_take_one(self.stack(), Kind::Vector);
        }
        let v = match self.get_vector() {
            Ok(v) => v,
            Err(e) => return Err(e),
        };
        self.push(Value::Int(Int::from_u64(v.len() as u64)));
        Ok(())
    }

    pub fn builtin_min(&mut self) -> (r: Result<(), ErrorKind>)
        ensures
            builtin_post(BuiltinWord::Min, old(self).snap(), final(self).snap(), outcome(r)),
            scope_kept(old(self).snap(), final(self).snap()),
    {
        proof {
            lemma_take_two(self.stack(), Kind::Int, Kind::Int);
        }
        let a = match self.get_int() {
            Ok(v) => v,
            Err(e) => return Err(e),
        };
        let b = match self.get_int() {
            Ok(v) => v,
            Err(e) => return Err(e),
        };
        if int_cmp(&a, &b) <= 0 {
            self.push(Value::Int(a));
        } else {
            self.push(Value::Int(b));
        }
        Ok(())
    }

    pub fn builtin_max(&mut self) -> (r: Result<(), ErrorKind>)
        ensures
            builtin_post(BuiltinWord::Max, old(self).snap(), final(self).snap(), outcome(r)),
            scope_kept(old(self).snap(), final(self).snap()),
    {
        proof {
            lemma_take_two(self.stack(), Kind::Int, Kind::Int);
        }
        let a = match self.get_int() {
            Ok(v) => v,
            Err(e) => return Err(e),
        };
        let b = match self.get_int() {
            Ok(v) => v,
            Err(e) => return Err(e),
        };
        if int_cmp(&a, &b) >= 0 {
            self.push(Value::Int(a));
        } else {
            self.push(Value::Int(b));
        }
        Ok(())
    }

    /// Compares the deeper operand with the topmost one: -1, 0 or 1.
    pub fn builtin_cmp(&mut self) -> (r: Result<(), ErrorKind>)
        ensures
            builtin_post(BuiltinWord::Cmp, old(self).snap(), final(self).snap(), outcome(r)),
            scope_kept(old(self).snap(), final(self).snap()),
    {
        proof {
            lemma_take_two(self.stack(), Kind::Int, Kind::Int);
        }
        let a = match self.get_int() {
            Ok(v) => v,
            Err(e) => return Err(e),
        };
        let b = match self.get_int() {
            Ok(v) => v,
            Err(e) => return Err(e),
        };
        let c = int_cmp(&b, &a);
        self.push(Value::Int(Int::from_i64(c as i64)));
        Ok(())
    }

    /// Binds a quoted word to a value in the current scope.
    pub fn builtin_def(&mut self) -> (r: Result<(), ErrorKind>)
        ensures
            builtin_post(BuiltinWord::Def, old(self).snap(), final(self).snap(), outcome(r)),
            scope_kept(old(self).snap(), final(self).snap()),
    {
        proof {
            lemma_take_two(self.stack(), Kind::Any, Kind::Word);
        }
        let value = match self.get_operand() {
            Ok(v) => v,
            Err(e) => return Err(e),
        };
        let name = match self.get_word() {
            Ok(v) => v,
            Err(e) => return Err(e),
        };
        self.bind_word(name, Entry::Op(Operation::Value(value)));
        Ok(())
    }

    /// Binds a quoted word as an alias of another, which must resolve.
    pub fn builtin_alias(&mut self) -> (r: Result<(), ErrorKind>)
        ensures
            builtin_post(BuiltinWord::Alias, old(self).snap(), final(self).snap(), outcome(r)),
            scope_kept(old(self).snap(), final(self).snap()),
    {
        proof {
            lemma_take_two(self.stack(), Kind::Word, Kind::Word);
        }
        let target = match self.get_word() {
            Ok(v) => v,
            Err(e) => return Err(e),
        };
        let name = match self.get_word() {
            Ok(v) => v,
            Err(e) => return Err(e),
        };
        if !self.resolves(target.as_str()) {
            return Err(ErrorKind::UnknownWord(target));
        }
        self.bind_word(name, Entry::Alias(target));
        Ok(())
    }

    /// Pops an integer or a float.
    fn get_number(&mut self) -> (r: Result<Value, ErrorKind>)
        ensures
            pop_kind(old(self).stack(), Kind::Numeric) == crate::calc::pop_result(
                r,
                if r is Ok { r->Ok_0@ } else { ValueModel::Undef },
                final(self).stack(),
            ),
            r matches Ok(v) ==> (v is Int || v is Float),
            final(self).chain() == old(self).chain(),
            final(self).frames() == old(self).frames(),
    {
        match self.get_operand() {
            Err(e) => Err(e),
            Ok(Value::Int(i)) => Ok(Value::Int(i)),
            Ok(Value::Float(x)) => Ok(Value::Float(x)),
            Ok(v) => Err(ErrorKind::WrongTypeOperand(v, "int or float")),
        }
    }

    /// `add`, `sub` and `mul`.
    fn perform_binop<H: Host>(&mut self, b: BuiltinWord, h: &mut H) -> (r: Result<(), ErrorKind>)
        requires
            b == BuiltinWord::Add || b == BuiltinWord::Sub || b == BuiltinWord::Mul,
        ensures
            builtin_post(b, old(self).snap(), final(self).snap(), outcome(r)),
            scope_kept(old(self).snap(), final(self).snap()),
    {
        proof {
            lemma_take_two(self.stack(), Kind::Any, Kind::Any);
        }
        let op = match b {
            BuiltinWord::Add => FloatBinary::Add,
            BuiltinWord::Sub => FloatBinary::Sub,
            _ => FloatBinary::Mul,
        };
        let y = match self.get_operand() {
            Ok(v) => v,
            Err(e) => return Err(e),
        };
        let x = match self.get_operand() {
            Ok(v) => v,
            Err(e) => return Err(e),
        };
        match (x, y) {
            (Value::Int(a), Value::Int(c)) => {
                let n = match b {
                    BuiltinWord::Add => int_add(&a, &c),
                    BuiltinWord::Sub => int_sub(&a, &c),
                    _ => int_mul(&a, &c),
                };
                self.push(Value::Int(n));
            },
            (Value::Float(a), Value::Float(c)) => {
                let z = h.binary(op, a, c);
                proof {
                    lemma_push_drop(self.stack(), ValueModel::Float(z));
                }
                self.push(Value::Float(z));
            },
            (Value::Int(a), Value::Float(c)) => match h.from_int(&a) {
                Some(fa) => {
                    let z = h.binary(op, fa, c);
                    proof {
                        lemma_push_drop(self.stack(), ValueModel::Float(z));
                    }
                    self.push(Value::Float(z));
                },
                None => return Err(ErrorKind::BigIntTooLarge),
            },
            (Value::Float(a), Value::Int(c)) => match h.from_int(&c) {
                Some(fc) => {
                    let z = h.binary(op, a, fc);
                    proof {
                        lemma_push_drop(self.stack(), ValueModel::Float(z));
                    }
                    self.push(Value::Float(z));
                },
                None => return Err(ErrorKind::BigIntTooLarge),
            },
            (Value::Int(_), y) => return Err(ErrorKind::WrongTypeOperand(y, "int or float")),
            (Value::Float(_), y) => return Err(ErrorKind::WrongTypeOperand(y, "int or float")),
            (x, _) => return Err(ErrorKind::WrongTypeOperand(x, "int or float")),
        }
        Ok(())
    }

    /// Divides the deeper operand by the topmost one, both as floats; a
    /// divisor equal to zero is refused before anything is converted.
    pub fn builtin_div<H: Host>(&mut self, h: &mut H) -> (r: Result<(), ErrorKind>)
        ensures
            builtin_post(BuiltinWord::Div, old(self).snap(), final(self).snap(), outcome(r)),
            scope_kept(old(self).snap(), final(self).snap()),
    {
        proof {
            lemma_take_two(self.stack(), Kind::Numeric, Kind::Numeric);
        }
        let y = match self.get_number() {
            Ok(v) => v,
            Err(e) => return Err(e),
        };
        let x = match self.get_number() {
            Ok(v) => v,
            Err(e) => return Err(e),
        };
        let zero = match &y {
            Value::Int(i) => i.is_zero(),
            Value::Float(f) => *f == 0 || *f == 0x8000_0000_0000_0000,
            _ => false,
        };
        if zero {
            return Err(ErrorKind::DivisionByZero);
        }
        self.push_float_binary(FloatBinary::Div, &x, &y, h)
    }

    /// Pushes `op` of two numbers as floats.
    fn push_float_binary<H: Host>(&mut self, op: FloatBinary, x: &Value, y: &Value, h: &mut H) -> (r: Result<(), ErrorKind>)
        requires
            x@ is Int || x@ is Float,
            y@ is Int || y@ is Float,
        ensures
            float_result(old(self).stack(), final(self).stack(), outcome(r), x@ is Int || y@ is Int),
            final(self).chain() == old(self).chain(),
            final(self).frames() == old(self).frames(),
    {
        let yf = match y.as_float_cast(&*h) {
            Some(f) => f,
            None => return Err(ErrorKind::BigIntTooLarge),
        };
        let xf = match x.as_float_cast(&*h) {
            Some(f) => f,
            None => return Err(ErrorKind::BigIntTooLarge),
        };
        let z = h.binary(op, xf, yf);
        proof {
            lemma_push_drop(self.stack(), ValueModel::Float(z));
        }
        self.push(Value::Float(z));
        Ok(())
    }

    /// `mod`, `pow` and `log`: float functions of the deeper operand and the
    /// topmost one.
    fn perform_float_binary<H: Host>(&mut self, b: BuiltinWord, op: FloatBinary, h: &mut H) -> (r: Result<(), ErrorKind>)
        requires
            b == BuiltinWord::Mod || b == BuiltinWord::Pow || b == BuiltinWord::Log,
        ensures
            builtin_post(b, old(self).snap(), final(self).snap(), outcome(r)),
            scope_kept(old(self).snap(), final(self).snap()),
    {
        proof {
            lemma_take_two(self.stack(), Kind::Numeric, Kind::Numeric);
        }
        let y = match self.get_number() {
            Ok(v) => v,
            Err(e) => return Err(e),
        };
        let x = match self.get_number() {
            Ok(v) => v,
            Err(e) => return Err(e),
        };
        self.push_float_binary(op, &x, &y, h)
    }

    /// The float functions of one operand.
    fn perform_unary<H: Host>(&mut self, b: BuiltinWord, op: FloatUnary, h: &mut H) -> (r: Result<(), ErrorKind>)
        requires
            b == BuiltinWord::Sqrt || b == BuiltinWord::Exp || b == BuiltinWord::Ln || b == BuiltinWord::Sin
                || b == BuiltinWord::Cos || b == BuiltinWord::Tan || b == BuiltinWord::Asin
                || b == BuiltinWord::Acos || b == BuiltinWord::Atan,
        ensures
            builtin_post(b, old(self).snap(), final(self).snap(), outcome(r)),
            scope_kept(old(self).snap(), final(self).snap()),
    {
        proof {
            lemma_take_one(self.stack(), Kind::Numeric);
        }
        let v = match self.get_number() {
            Ok(v) => v,
            Err(e) => return Err(e),
        };
        let x = match v.as_float_cast(&*h) {
            Some(f) => f,
            None => return Err(ErrorKind::BigIntTooLarge),
        };
        let z = h.unary(op, x);
        proof {
            lemma_push_drop(self.stack(), ValueModel::Float(z));
        }
        self.push(Value::Float(z));
        Ok(())
    }

    /// Runs `block` in a fresh sub-evaluator on each element of a vector,
    /// and collects the value each leaves on top.
    pub fn builtin_map<H: Host>(&mut self, h: &mut H, depth: u32) -> (r: Result<(), ErrorKind>)
        requires
            depth > 0,
        ensures
            builtin_post(BuiltinWord::MapEach, old(self).snap(), final(self).snap(), outcome(r)),
            map_runs(old(self).snap(), final(self).snap(), outcome(r), (depth - 1) as nat),
            scope_kept(old(self).snap(), final(self).snap()),
        decreases depth, 1nat,
    {
        proof {
            lemma_take_two(self.stack(), Kind::Block, Kind::Vector);
        }
        let block = match self.get_block() {
            Ok(v) => v,
            Err(e) => return Err(e),
        };
        let items = match self.get_vector() {
            Ok(v) => v,
            Err(e) => return Err(e),
        };
        let ghost s1 = self.snap();
        let ghost vs = seq![ValueModel::Block(crate::value::words_model(block@)), ValueModel::Vector(values_model(items@))];
        assert(popped(BuiltinWord::MapEach, old(self).snap(), s1, vs));
        let mut result: Vec<Value> = Vec::new();
        let mut i: usize = 0;
        while i < items.len()
            invariant
                depth > 0,
                popped(BuiltinWord::MapEach, old(self).snap(), s1, vs),
                vs == seq![ValueModel::Block(crate::value::words_model(block@)), ValueModel::Vector(values_model(items@))],
                self.snap() == s1,
                i <= items@.len(),
                result@.len() == i,
                forall|j: int| 0 <= j < i ==> block_gives(s1.chain, crate::value::words_model(block@), items@[j]@, #[trigger] result@[j]@, (depth - 1) as nat),
                block@.len() == 0 ==> forall|j: int| 0 <= j < i ==> result@[j]@ == items@[j]@,
            decreases items@.len() - i,
        {
            let mut sub = self.sub_calc();
            sub.push(items[i].copy());
            let ghost start = sub.snap();
            assert(start.stack =~= seq![items@[i as int]@]);
            let r1 = sub.run_block(&block, h, depth - 1);
            let ghost done = sub.snap();
            let ghost bw = crate::value::words_model(block@);
            let ghost im = values_model(items@);
            proof {
                assert forall|j: int| 0 <= j < i implies block_gives(s1.chain, bw, im[j], #[trigger] values_model(result@)[j], (depth - 1) as nat) by {
                    assert(block_gives(s1.chain, bw, items@[j]@, result@[j]@, (depth - 1) as nat));
                }
            }
            match r1 {
                Ok(()) => {},
                Err(e) => {
                    proof {
                        assert(run_post(start, bw, done, Some(e@), (depth - 1) as nat));
                        assert(block_fails(s1.chain, bw, im[i as int], e@, (depth - 1) as nat));
                        lemma_fails_at(s1.chain, bw, im, values_model(result@), i as int, e@, (depth - 1) as nat);
                    }
                    return Err(e);
                },
            }
            let ghost before = result@;
            match sub.get_operand() {
                Ok(v) => result.push(v),
                Err(_) => {
                    proof {
                        assert(run_post(start, bw, done, None, (depth - 1) as nat));
                        assert(block_fails(s1.chain, bw, im[i as int], ErrorModel::BlockNoResult, (depth - 1) as nat));
                        lemma_fails_at(s1.chain, bw, im, values_model(result@), i as int, ErrorModel::BlockNoResult, (depth - 1) as nat);
                    }
                    return Err(ErrorKind::BlockNoResult);
                },
            }
            proof {
                assert(run_post(start, crate::value::words_model(block@), done, None, (depth - 1) as nat));
                assert(block_gives(s1.chain, crate::value::words_model(block@), items@[i as int]@, result@[i as int]@, (depth - 1) as nat));
                assert forall|j: int| 0 <= j < i + 1 implies block_gives(s1.chain, crate::value::words_model(block@), items@[j]@, #[trigger] result@[j]@, (depth - 1) as nat) by {
                    if j < i {
                        assert(result@[j] == before[j]);
                    }
                }
            }
            i += 1;
        }
        proof {
            crate::value::lemma_vector_model(result);
            lemma_push_drop(self.stack(), Value::Vector(result)@);
            if block@.len() == 0 {
                assert(values_model(result@) =~= values_model(items@));
            }
        }
        self.push(Value::Vector(result));
        Ok(())
    }

    /// Keeps the elements of a vector for which `block`, run in a fresh
    /// sub-evaluator on the element, leaves a nonzero integer or `true`.
    pub fn builtin_filter<H: Host>(&mut self, h: &mut H, depth: u32) -> (r: Result<(), ErrorKind>)
        requires
            depth > 0,
        ensures
            builtin_post(BuiltinWord::Filter, old(self).snap(), final(self).snap(), outcome(r)),
            filter_runs(old(self).snap(), final(self).snap(), outcome(r), (depth - 1) as nat),
            scope_kept(old(self).snap(), final(self).snap()),
        decreases depth, 1nat,
    {
        proof {
            lemma_take_two(self.stack(), Kind::Block, Kind::Vector);
        }
        let block = match self.get_block() {
            Ok(v) => v,
            Err(e) => return Err(e),
        };
        let items = match self.get_vector() {
            Ok(v) => v,
            Err(e) => return Err(e),
        };
        let ghost s1 = self.snap();
        let ghost vs = seq![ValueModel::Block(crate::value::words_model(block@)), ValueModel::Vector(values_model(items@))];
        assert(popped(BuiltinWord::Filter, old(self).snap(), s1, vs));
        let mut result: Vec<Value> = Vec::new();
        let ghost mut ix: Seq<int> = Seq::empty();
        let ghost mut rs: Seq<ValueModel> = Seq::empty();
        let ghost bw = crate::value::words_model(block@);
        let ghost im = values_model(items@);
        let mut i: usize = 0;
        while i < items.len()
            invariant
                depth > 0,
                popped(BuiltinWord::Filter, old(self).snap(), s1, vs),
                vs == seq![ValueModel::Block(bw), ValueModel::Vector(im)],
                self.snap() == s1,
                i <= items@.len(),
                bw == crate::value::words_model(block@),
                im == values_model(items@),
                rs.len() == i,
                forall|j: int| 0 <= j < i ==> block_gives(s1.chain, bw, items@[j]@, #[trigger] rs[j], (depth - 1) as nat),
                values_model(result@) == kept(im.take(i as int), rs),
                ix.len() == result@.len(),
                forall|j: int| 0 <= j < ix.len() ==> 0 <= #[trigger] ix[j] < i && result@[j]@ == items@[ix[j]]@,
                forall|j: int, l: int| 0 <= j < l < ix.len() ==> ix[j] < ix[l],
            decreases items@.len() - i,
        {
            let mut sub = self.sub_calc();
            sub.push(items[i].copy());
            let ghost start = sub.snap();
            assert(start.stack =~= seq![items@[i as int]@]);
            let r1 = sub.run_block(&block, h, depth - 1);
            let ghost done = sub.snap();
            proof {
                assert forall|j: int| 0 <= j < i implies block_gives(s1.chain, bw, im[j], #[trigger] rs[j], (depth - 1) as nat) by {
                    assert(block_gives(s1.chain, bw, items@[j]@, rs[j], (depth - 1) as nat));
                }
            }
            match r1 {
                Ok(()) => {},
                Err(e) => {
                    proof {
                        assert(run_post(start, bw, done, Some(e@), (depth - 1) as nat));
                        assert(block_fails(s1.chain, bw, im[i as int], e@, (depth - 1) as nat));
                        lemma_fails_at(s1.chain, bw, im, rs, i as int, e@, (depth - 1) as nat);
                    }
                    return Err(e);
                },
            }
            let top = match sub.get_operand() {
                Ok(v) => v,
                Err(_) => {
                    proof {
                        assert(run_post(start, bw, done, None, (depth - 1) as nat));
                        assert(block_fails(s1.chain, bw, im[i as int], ErrorModel::BlockNoResult, (depth - 1) as nat));
                        lemma_fails_at(s1.chain, bw, im, rs, i as int, ErrorModel::BlockNoResult, (depth - 1) as nat);
                    }
                    return Err(ErrorKind::BlockNoResult);
                },
            };
            let keep = match &top {
                Value::Int(x) => !x.is_zero(),
                Value::Bool(b) => *b,
                _ => false,
            };
            let ghost before = result@;
            let ghost r0 = rs;
            proof {
                assert(run_post(start, bw, done, None, (depth - 1) as nat));
                assert(block_gives(s1.chain, bw, items@[i as int]@, top@, (depth - 1) as nat));
                rs = rs.push(top@);
                assert forall|j: int| 0 <= j < i + 1 implies block_gives(s1.chain, bw, items@[j]@, #[trigger] rs[j], (depth - 1) as nat) by {
                    if j < i {
                        assert(rs[j] == r0[j]);
                    }
                }
                assert(keep == truthy(top@));
                let t = im.take(i + 1);
                assert(t.drop_last() =~= im.take(i as int));
                assert(t.last() == items@[i as int]@);
                lemma_kept_prefix(im.take(i as int), r0, rs);
            }
            if keep {
                result.push(items[i].copy());
                proof {
                    ix = ix.push(i as int);
                    assert(values_model(result@) =~= values_model(before).push(items@[i as int]@));
                }
            } else {
                proof {
                    assert(values_model(result@) =~= values_model(before));
                }
            }
            i += 1;
        }
        proof {
            crate::value::lemma_vector_model(result);
            lemma_push_drop(self.stack(), Value::Vector(result)@);
            let k = values_model(result@);
            let s = values_model(items@);
            assert(ix.len() == k.len() && (forall|j: int| 0 <= j < ix.len() ==> 0 <= #[trigger] ix[j] < s.len() && k[j] == s[ix[j]])
                && (forall|j: int, l: int| 0 <= j < l < ix.len() ==> ix[j] < ix[l]));
            assert(is_subsequence(k, s));
            assert(im.take(items@.len() as int) =~= im);
        }
        self.push(Value::Vector(result));
        Ok(())
    }

    /// Folds a vector from an initial value: one sub-evaluator gets the
    /// initial value, then each element in turn followed by a run of
    /// `block`; the value left on top is the result.
    pub fn builtin_fold<H: Host>(&mut self, h: &mut H, depth: u32) -> (r: Result<(), ErrorKind>)
        requires
            depth > 0,
        ensures
            builtin_post(BuiltinWord::Fold, old(self).snap(), final(self).snap(), outcome(r)),
            builtin_runs(BuiltinWord::Fold, old(self).snap(), final(self).snap(), outcome(r), (depth - 1) as nat),
            scope_kept(old(self).snap(), final(self).snap()),
        decreases depth, 1nat,
    {
        proof {
            lemma_take_three(self.stack(), Kind::Block, Kind::Any, Kind::Vector);
        }
        let block = match self.get_block() {
            Ok(v) => v,
            Err(e) => return Err(e),
        };
        let init = match self.get_operand() {
            Ok(v) => v,
            Err(e) => return Err(e),
        };
        let items = match self.get_vector() {
            Ok(v) => v,
            Err(e) => return Err(e),
        };
        let ghost s1 = self.snap();
        let ghost vs = seq![ValueModel::Block(crate::value::words_model(block@)), init@, ValueModel::Vector(values_model(items@))];
        assert(popped(BuiltinWord::Fold, old(self).snap(), s1, vs));
        assert(operands(BuiltinWord::Fold, old(self).snap()) == vs);
        let ghost bw = crate::value::words_model(block@);
        let ghost im = values_model(items@);
        let mut sub = self.sub_calc();
        sub.push(init);
        let ghost start = sub.snap();
        assert(start.stack =~= seq![vs[1]]);
        assert(start == seeded(old(self).chain(), vs[1]));
        let mut i: usize = 0;
        while i < items.len()
            invariant
                depth > 0,
                bw == crate::value::words_model(block@),
                im == values_model(items@),
                i <= items@.len(),
                fold_post(start, bw, im.take(i as int), sub.snap(), None, (depth - 1) as nat),
                popped(BuiltinWord::Fold, old(self).snap(), s1, vs),
                operands(BuiltinWord::Fold, old(self).snap()) == vs,
                start == seeded(old(self).chain(), vs[1]),
                vs[0] == ValueModel::Block(bw),
                vs.len() == 3,
                vs[2] == ValueModel::Vector(values_model(items@)),
                self.snap() == s1,
                i <= items@.len(),
                i == 0 ==> sub.stack() == seq![vs[1]],
            decreases items@.len() - i,
        {
            let ghost mid = sub.snap();
            sub.push(items[i].copy());
            let ghost after_push = sub.snap();
            let r = sub.run_block(&block, h, depth - 1);
            proof {
                let t = im.take(i + 1);
                assert(t.drop_last() =~= im.take(i as int));
                assert(t.last() == items@[i as int]@);
                assert(after_push == pushed(mid, t.last()));
                lemma_fold_step(start, bw, t, mid, sub.snap(), outcome(r), (depth - 1) as nat);
                assert(fold_post(start, bw, t, sub.snap(), outcome(r), (depth - 1) as nat));
                if r is Err {
                    lemma_fold_stop(start, bw, im, i + 1, sub.snap(), outcome(r), (depth - 1) as nat);
                    assert(fold_fails(start, bw, im, outcome(r)->0, (depth - 1) as nat));
                }
            }
            match r {
                Ok(()) => {},
                Err(e) => return Err(e),
            }
            i += 1;
        }
        proof {
            assert(im.take(items@.len() as int) =~= im);
        }
        let ghost end = sub.snap();
        match sub.get_operand() {
            Ok(v) => {
                proof {
                    lemma_push_drop(self.stack(), v@);
                }
                self.push(v);
                Ok(())
            },
            Err(_) => {
                proof {
                    assert(fold_post(start, bw, im, end, None, (depth - 1) as nat) && end.stack.len() == 0);
                    assert(fold_fails(start, bw, im, ErrorModel::BlockNoResult, (depth - 1) as nat));
                }
                Err(ErrorKind::BlockNoResult)
            },
        }
    }

    /// Like `fold`, with the first element as the initial value; an empty
    /// vector gives nothing and no error.
    pub fn builtin_fold1<H: Host>(&mut self, h: &mut H, depth: u32) -> (r: Result<(), ErrorKind>)
        requires
            depth > 0,
        ensures
            builtin_post(BuiltinWord::Fold1, old(self).snap(), final(self).snap(), outcome(r)),
            builtin_runs(BuiltinWord::Fold1, old(self).snap(), final(self).snap(), outcome(r), (depth - 1) as nat),
            scope_kept(old(self).snap(), final(self).snap()),
        decreases depth, 1nat,
    {
        proof {
            lemma_take_two(self.stack(), Kind::Block, Kind::Vector);
        }
        let block = match self.get_block() {
            Ok(v) => v,
            Err(e) => return Err(e),
        };
        let items = match self.get_vector() {
            Ok(v) => v,
            Err(e) => return Err(e),
        };
        let ghost s1 = self.snap();
        let ghost vs = seq![ValueModel::Block(crate::value::words_model(block@)), ValueModel::Vector(values_model(items@))];
        assert(popped(BuiltinWord::Fold1, old(self).snap(), s1, vs));
        if items.len() == 0 {
            return Ok(());
        }
        assert(operands(BuiltinWord::Fold1, old(self).snap()) == vs);
        let ghost bw = crate::value::words_model(block@);
        let ghost rest = values_model(items@).drop_first();
        let mut sub = self.sub_calc();
        sub.push(items[0].copy());
        let ghost start = sub.snap();
        assert(start.stack =~= seq![items@[0]@]);
        assert(start == seeded(old(self).chain(), vs[1]->Vector_0[0]));
        let mut i: usize = 1;
        while i < items.len()
            invariant
                depth > 0,
                bw == crate::value::words_model(block@),
                rest == values_model(items@).drop_first(),
                fold_post(start, bw, rest.take(i - 1), sub.snap(), None, (depth - 1) as nat),
                popped(BuiltinWord::Fold1, old(self).snap(), s1, vs),
                operands(BuiltinWord::Fold1, old(self).snap()) == vs,
                start == seeded(old(self).chain(), vs[1]->Vector_0[0]),
                vs[0] == ValueModel::Block(bw),
                vs.len() == 2,
                vs[1] == ValueModel::Vector(values_model(items@)),
                self.snap() == s1,
                1 <= i <= items@.len(),
                i == 1 ==> sub.stack() == seq![items@[0]@],
            decreases items@.len() - i,
        {
            let ghost mid = sub.snap();
            sub.push(items[i].copy());
            let ghost after_push = sub.snap();
            let r = sub.run_block(&block, h, depth - 1);
            proof {
                let t = rest.take(i as int);
                assert(t.drop_last() =~= rest.take(i - 1));
                assert(t.last() == items@[i as int]@);
                assert(after_push == pushed(mid, t.last()));
                lemma_fold_step(start, bw, t, mid, sub.snap(), outcome(r), (depth - 1) as nat);
                assert(fold_post(start, bw, t, sub.snap(), outcome(r), (depth - 1) as nat));
                if r is Err {
                    lemma_fold_stop(start, bw, rest, i as int, sub.snap(), outcome(r), (depth - 1) as nat);
                    assert(fold_fails(start, bw, rest, outcome(r)->0, (depth - 1) as nat));
                }
            }
            match r {
                Ok(()) => {},
                Err(e) => return Err(e),
            }
            i += 1;
        }
        proof {
            assert(rest.take(items@.len() - 1) =~= rest);
        }
        let ghost end = sub.snap();
        match sub.get_operand() {
            Ok(v) => {
                proof {
                    lemma_push_drop(self.stack(), v@);
                }
                self.push(v);
                Ok(())
            },
            Err(_) => {
                proof {
                    assert(fold_post(start, bw, rest, end, None, (depth - 1) as nat) && end.stack.len() == 0);
                    assert(fold_fails(start, bw, rest, ErrorModel::BlockNoResult, (depth - 1) as nat));
                }
                Err(ErrorKind::BlockNoResult)
            },
        }
    }

    /// Runs a block a number of times against this evaluator; a count of
    /// zero or less runs it not at all.
    pub fn builtin_repeat<H: Host>(&mut self, h: &mut H, depth: u32) -> (r: Result<(), ErrorKind>)
        requires
            depth > 0,
        ensures
            builtin_post(BuiltinWord::Repeat, old(self).snap(), final(self).snap(), outcome(r)),
            builtin_runs(BuiltinWord::Repeat, old(self).snap(), final(self).snap(), outcome(r), (depth - 1) as nat),
            scope_kept(old(self).snap(), final(self).snap()),
        decreases depth, 1nat,
    {
        proof {
            lemma_take_two(self.stack(), Kind::IntCast, Kind::Block);
        }
        let n = match self.get_int_cast(&*h) {
            Ok(v) => v,
            Err(e) => return Err(e),
        };
        let block = match self.get_block() {
            Ok(v) => v,
            Err(e) => return Err(e),
        };
        let ghost s1 = self.snap();
        let ghost vs = seq![old(self).stack().last(), ValueModel::Block(crate::value::words_model(block@))];
        assert(popped(BuiltinWord::Repeat, old(self).snap(), s1, vs));
        assert(s1 == after_operands(BuiltinWord::Repeat, old(self).snap()));
        assert(operands(BuiltinWord::Repeat, old(self).snap()) == vs);
        let ghost bw = crate::value::words_model(block@);
        let mut k: i64 = 0;
        while k < n
            invariant
                depth > 0,
                0 <= k,
                n > 0 ==> k <= n,
                bw == crate::value::words_model(block@),
                repeat_post(s1, bw, k as nat, self.snap(), None, (depth - 1) as nat),
                s1 == after_operands(BuiltinWord::Repeat, old(self).snap()),
                operands(BuiltinWord::Repeat, old(self).snap()) == vs,
                vs[1] == ValueModel::Block(bw),
                popped(BuiltinWord::Repeat, old(self).snap(), s1, vs),
                vs.len() == 2,
                vs[0] matches ValueModel::Int(i) ==> i == n,
                k == 0 ==> self.snap() == s1,
                n <= 0 ==> k == 0,
                scope_kept(old(self).snap(), self.snap()),
            decreases n - k,
        {
            let ghost mid = self.snap();
            let r = self.run_block(&block, h, depth - 1);
            proof {
                assert(repeat_post(s1, bw, (k + 1) as nat, self.snap(), outcome(r), (depth - 1) as nat));
                if r is Err {
                    assert(repeat_post(s1, bw, (k + 1) as nat, self.snap(), outcome(r), (depth - 1) as nat));
                    assert(repeat_post(after_operands(BuiltinWord::Repeat, old(self).snap()), operands(BuiltinWord::Repeat, old(self).snap())[1]->Block_0, (k + 1) as nat, self.snap(), outcome(r), (depth - 1) as nat));
                    assert(vs[0] matches ValueModel::Int(c) ==> c > 0 && c as nat == n as nat);
                    lemma_repeat_stop(s1, bw, (k + 1) as nat, n as nat, self.snap(), outcome(r), (depth - 1) as nat);
                }
            }
            match r {
                Ok(()) => {},
                Err(e) => return Err(e),
            }
            k += 1;
        }
        proof {
            let kk: nat = k as nat;
            assert(repeat_post(s1, bw, kk, self.snap(), None, (depth - 1) as nat));
            assert(repeat_post(after_operands(BuiltinWord::Repeat, old(self).snap()), operands(BuiltinWord::Repeat, old(self).snap())[1]->Block_0, kk, self.snap(), None, (depth - 1) as nat));
        }
        Ok(())
    }

    /// Runs a quoted word or a block against this evaluator; any other
    /// value is dropped.
    pub fn builtin_apply<H: Host>(&mut self, h: &mut H, depth: u32) -> (r: Result<(), ErrorKind>)
        requires
            depth > 0,
        ensures
            builtin_post(BuiltinWord::Apply, old(self).snap(), final(self).snap(), outcome(r)),
            builtin_runs(BuiltinWord::Apply, old(self).snap(), final(self).snap(), outcome(r), (depth - 1) as nat),
            scope_kept(old(self).snap(), final(self).snap()),
        decreases depth, 1nat,
    {
        proof {
            lemma_take_one(self.stack(), Kind::Any);
        }
        let op = match self.get_operand() {
            Ok(v) => v,
            Err(e) => return Err(e),
        };
        proof {
            assert(self.snap() == after_operands(BuiltinWord::Apply, old(self).snap()));
            assert(operands(BuiltinWord::Apply, old(self).snap()) == seq![op@]);
        }
        match op {
            Value::QuotedWord(w) => self.run_one_at(w.as_str(), h, depth - 1),
            Value::Block(b) => self.run_block(&b, h, depth - 1),
            _ => Ok(()),
        }
    }

    /// Pops an else-branch, a then-branch and an integer test; the branch
    /// chosen runs if it is a block, else is pushed.
    pub fn buildin_if<H: Host>(&mut self, h: &mut H, depth: u32) -> (r: Result<(), ErrorKind>)
        requires
            depth > 0,
        ensures
            builtin_post(BuiltinWord::If, old(self).snap(), final(self).snap(), outcome(r)),
            builtin_runs(BuiltinWord::If, old(self).snap(), final(self).snap(), outcome(r), (depth - 1) as nat),
            scope_kept(old(self).snap(), final(self).snap()),
        decreases depth, 1nat,
    {
        proof {
            lemma_take_three(self.stack(), Kind::Any, Kind::Any, Kind::Int);
        }
        let else_part = match self.get_operand() {
            Ok(v) => v,
            Err(e) => return Err(e),
        };
        let then_part = match self.get_operand() {
            Ok(v) => v,
            Err(e) => return Err(e),
        };
        let test = match self.get_int() {
            Ok(v) => v,
            Err(e) => return Err(e),
        };
        proof {
            assert(self.snap() == after_operands(BuiltinWord::If, old(self).snap()));
            assert(operands(BuiltinWord::If, old(self).snap()) == seq![else_part@, then_part@, ValueModel::Int(test@)]);
        }
        let chosen = if !test.is_zero() {
            then_part
        } else {
            else_part
        };
        match chosen {
            Value::Block(b) => self.run_block(&b, h, depth - 1),
            v => {
                proof {
                    lemma_push_drop(self.stack(), v@);
                }
                self.push(v);
                Ok(())
            },
        }
    }

    pub(crate) fn run_builtin<H: Host>(&mut self, b: BuiltinWord, h: &mut H, depth: u32) -> (r: Result<(), ErrorKind>)
        requires
            depth > 0,
        ensures
            builtin_post(b, old(self).snap(), final(self).snap(), outcome(r)),
            builtin_runs(b, old(self).snap(), final(self).snap(), outcome(r), (depth - 1) as nat),
            scope_kept(old(self).snap(), final(self).snap()),
        decreases depth, 2nat,
    {
        match b {
            BuiltinWord::Add => self.perform_binop(b, h),
            BuiltinWord::Sub => self.perform_binop(b, h),
            BuiltinWord::Mul => self.perform_binop(b, h),
            BuiltinWord::Div => self.builtin_div(h),
            BuiltinWord::Mod => self.perform_float_binary(b, FloatBinary::Rem, h),
            BuiltinWord::Pow => self.perform_float_binary(b, FloatBinary::Pow, h),
            BuiltinWord::Log => self.perform_float_binary(b, FloatBinary::Log, h),
            BuiltinWord::Sqrt => self.perform_unary(b, FloatUnary::Sqrt, h),
            BuiltinWord::Exp => self.perform_unary(b, FloatUnary::Exp, h),
            BuiltinWord::Ln => self.perform_unary(b, FloatUnary::Ln, h),
            BuiltinWord::Sin => self.perform_unary(b, FloatUnary::Sin, h),
            BuiltinWord::Cos => self.perform_unary(b, FloatUnary::Cos, h),
            BuiltinWord::Tan => self.perform_unary(b, FloatUnary::Tan, h),
            BuiltinWord::Asin => self.perform_unary(b, FloatUnary::Asin, h),
            BuiltinWord::Acos => self.perform_unary(b, FloatUnary::Acos, h),
            BuiltinWord::Atan => self.perform_unary(b, FloatUnary::Atan, h),
            BuiltinWord::Print => self.builtin_print(h),
            BuiltinWord::Dump => {
                self.print_stack(h);
                proof {
                    assert(take_operands(self.stack(), operand_kinds(b)) == Ok::<(Seq<ValueModel>, Seq<ValueModel>), (Seq<ValueModel>, ErrorModel)>((self.stack(), Seq::empty())));
                }
                Ok(())
            },
            BuiltinWord::Arg => {
                proof {
                    assert(take_operands(self.stack(), operand_kinds(b)) == Ok::<(Seq<ValueModel>, Seq<ValueModel>), (Seq<ValueModel>, ErrorModel)>((self.stack(), Seq::empty())));
                }
                Ok(())
            },
            BuiltinWord::Pop => self.builtin_pop(),
            BuiltinWord::Duplicate => self.builtin_duplicate(),
            BuiltinWord::Stdin => self.builtin_stdin(h),
            BuiltinWord::MapEach => self.builtin_map(h, depth),
            BuiltinWord::Fold => self.builtin_fold(h, depth),
            BuiltinWord::Fold1 => self.builtin_fold1(h, depth),
            BuiltinWord::Filter => self.builtin_filter(h, depth),
            BuiltinWord::Length => self.builtin_length(),
            BuiltinWord::Swap => self.builtin_swap(),
            BuiltinWord::Over => self.builtin_over(),
            BuiltinWord::Repeat => self.builtin_repeat(h, depth),
            BuiltinWord::Roll3 => self.builtin_roll3(),
            BuiltinWord::Def => self.builtin_def(),
            BuiltinWord::Alias => self.builtin_alias(),
            BuiltinWord::Apply => self.builtin_apply(h, depth),
            BuiltinWord::Min => self.builtin_min(),
            BuiltinWord::Max => self.builtin_max(),
            BuiltinWord::Cmp => self.builtin_cmp(),
            BuiltinWord::If => self.buildin_if(h, depth),
        }
    }

    /// Pops and prints the top value.
    pub fn builtin_print<H: Host>(&mut self, h: &mut H) -> (r: Result<(), ErrorKind>)
        ensures
            builtin_post(BuiltinWord::Print, old(self).snap(), final(self).snap(), outcome(r)),
            scope_kept(old(self).snap(), final(self).snap()),
    {
        proof {
            lemma_take_one(self.stack(), Kind::Any);
        }
        let v = match self.get_operand() {
            Ok(v) => v,
            Err(e) => return Err(e),
        };
        let line = v.render(&*h);
        h.print(line);
        Ok(())
    }

    /// Pushes a vector of the literals read from the input lines; lines
    /// that are no literal are skipped.
    /// Pushes a vector of the literals read from the input lines; lines
    /// that are no literal are skipped.
    pub fn builtin_stdin<H: Host>(&mut self, h: &mut H) -> (r: Result<(), ErrorKind>)
        ensures
            builtin_post(BuiltinWord::Stdin, old(self).snap(), final(self).snap(), outcome(r)),
            scope_kept(old(self).snap(), final(self).snap()),
    {
        let lines = h.read_lines();
        let items = parse_lines(&lines, &*h);
        let ghost rest = self.stack();
        let ghost before = self.snap();
        proof {
            crate::value::lemma_vector_model(items);
        }
        let out = Value::Vector(items);
        self.push(out);
        assert(self.stack().last() is Vector);
        assert(self.stack().drop_last() == rest);
        assert(lines_parsed(crate::value::words_model(lines@), self.stack().last()->Vector_0));
        assert(self.snap().chain == before.chain);
        assert(take_operands(rest, operand_kinds(BuiltinWord::Stdin)) == Ok::<(Seq<ValueModel>, Seq<ValueModel>), (Seq<ValueModel>, ErrorModel)>((rest, Seq::empty())));
        Ok(())
    }
}

/// What a line of input reads as: the integer its trimmed text denotes,
/// else some float.
pub open spec fn line_value(line: Seq<char>, v: ValueModel) -> bool {
    match int_literal(trimmed(line)) {
        Some(n) => v == ValueModel::Int(n),
        None => v is Float,
    }
}

/// Whether `vs` is what reading `lines` gives: the values of some of the
/// lines, in order, each read as `line_value` says, every integer literal
/// among them included.
pub open spec fn lines_parsed(lines: Seq<Seq<char>>, vs: Seq<ValueModel>) -> bool {
    exists|ix: Seq<int>|
        ix.len() == vs.len() && (forall|j: int, l: int| 0 <= j < l < ix.len() ==> ix[j] < ix[l]) && (forall|j: int|
            0 <= j < ix.len() ==> 0 <= #[trigger] ix[j] < lines.len() && line_value(lines[ix[j]], vs[j])) && (forall|i: int|
            0 <= i < lines.len() && (#[trigger] int_literal(trimmed(lines[i]))) is Some ==> ix.contains(i))
}

/// Reads each line as a literal, in order, skipping the lines that are
/// none.
pub fn parse_lines<F: FloatArith>(lines: &Vec<String>, fl: &F) -> (r: Vec<Value>)
    ensures
        lines_parsed(crate::value::words_model(lines@), values_model(r@)),
{
    let ghost ls = crate::value::words_model(lines@);
    let mut items: Vec<Value> = Vec::new();
    let ghost mut ix: Seq<int> = Seq::empty();
    let mut i: usize = 0;
    while i < lines.len()
        invariant
            i <= lines@.len(),
            ls == crate::value::words_model(lines@),
            ix.len() == items@.len(),
            forall|j: int, l: int| 0 <= j < l < ix.len() ==> ix[j] < ix[l],
            forall|j: int| 0 <= j < ix.len() ==> 0 <= #[trigger] ix[j] < i && line_value(ls[ix[j]], items@[j]@),
            forall|k: int| 0 <= k < i && (#[trigger] int_literal(trimmed(ls[k]))) is Some ==> ix.contains(k),
        decreases lines@.len() - i,
    {
        let ghost ix0 = ix;
        let ghost before = items@;
        assert(ls[i as int] == lines@[i as int]@);
        match Value::parse(lines[i].as_str(), fl) {
            Some(v) => {
                items.push(v);
                proof {
                    ix = ix.push(i as int);
                    assert forall|j: int| 0 <= j < ix.len() implies 0 <= #[trigger] ix[j] < i + 1 && line_value(ls[ix[j]], items@[j]@) by {
                        if j < ix0.len() {
                            assert(ix[j] == ix0[j]);
                            assert(items@[j] == before[j]);
                        }
                    }
                    assert forall|k: int| 0 <= k < i + 1 && (#[trigger] int_literal(trimmed(ls[k]))) is Some implies ix.contains(k) by {
                        if k < i {
                            let j = choose|j: int| 0 <= j < ix0.len() && ix0[j] == k;
                            assert(ix[j] == k);
                        } else {
                            assert(ix[ix.len() - 1] == k);
                        }
                    }
                }
            },
            None => {},
        }
        i += 1;
    }
    proof {
        assert(ix.len() == values_model(items@).len());
        assert(forall|j: int| 0 <= j < ix.len() ==> values_model(items@)[j] == items@[j]@);
    }
    items
}

} // verus!
