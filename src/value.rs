//! Runtime values, builtin word tags and the literal syntax.

use crate::float::FloatArith;
use crate::integer::{
    decimal, int_literal, int_parse, int_text, int_to_text, is_digit, lemma_decimal_digits,
    lemma_int_text_round_trip, Int,
};
use vstd::prelude::*;

verus! {

broadcast use vstd::std_specs::vec::group_vec_axioms;

/// The fixed set of primitive operations.
#[derive(Debug, Copy, Clone, PartialEq, Eq, Structural)]
pub enum BuiltinWord {
    Add,
    Sub,
    Mul,
    Div,
    Mod,
    Sqrt,
    Pow,
    Exp,
    Log,
    Ln,
    Sin,
    Cos,
    Tan,
    Asin,
    Acos,
    Atan,
    Fold,
    Fold1,
    MapEach,
    Filter,
    Repeat,
    Max,
    Min,
    Cmp,
    Alias,
    Def,
    Apply,
    Arg,
    Swap,
    Duplicate,
    Pop,
    Over,
    Roll3,
    Print,
    Dump,
    Stdin,
    Length,
    If,
}

/// A runtime value. A float is held as the bit pattern of an IEEE 754
/// binary64 number; a block holds its word tokens verbatim.
#[derive(Debug, PartialEq)]
pub enum Value {
    Undef,
    Bool(bool),
    Int(Int),
    Float(u64),
    Vector(Vec<Value>),
    Block(Vec<String>),
    QuotedWord(String),
}

/// What a word of the dictionary stands for.
#[derive(Debug, PartialEq)]
pub enum Operation {
    Builtin(BuiltinWord),
    Value(Value),
}

/// The mathematical content of a value.
pub enum ValueModel {
    Undef,
    Bool(bool),
    Int(int),
    Float(u64),
    Vector(Seq<ValueModel>),
    Block(Seq<Seq<char>>),
    QuotedWord(Seq<char>),
}

/// The content of an operation.
pub enum OperationModel {
    Builtin(BuiltinWord),
    Value(ValueModel),
}

pub open spec fn words_model(b: Seq<String>) -> Seq<Seq<char>> {
    Seq::new(b.len(), |i: int| b[i]@)
}

pub open spec fn model_of(v: &Value) -> ValueModel
    decreases v,
{
    match v {
        Value::Undef => ValueModel::Undef,
        Value::Bool(b) => ValueModel::Bool(*b),
        Value::Int(i) => ValueModel::Int(i@),
        Value::Float(x) => ValueModel::Float(*x),
        Value::Vector(items) => ValueModel::Vector(
            Seq::new(
                items@.len(),
                |i: int|
                    if 0 <= i < items@.len() {
                        model_of(&items@[i])
                    } else {
                        ValueModel::Undef
                    },
            ),
        ),
        Value::Block(b) => ValueModel::Block(words_model(b@)),
        Value::QuotedWord(w) => ValueModel::QuotedWord(w@),
    }
}

impl View for Value {
    type V = ValueModel;

    open spec fn view(&self) -> ValueModel {
        model_of(self)
    }
}

impl View for Operation {
    type V = OperationModel;

    open spec fn view(&self) -> OperationModel {
        match self {
            Operation::Builtin(b) => OperationModel::Builtin(*b),
            Operation::Value(v) => OperationModel::Value(v@),
        }
    }
}

/// The models of a sequence of values.
pub open spec fn values_model(s: Seq<Value>) -> Seq<ValueModel> {
    Seq::new(s.len(), |i: int| s[i]@)
}

/// A copy of a list of words.
pub(crate) fn copy_words(b: &Vec<String>) -> (r: Vec<String>)
    ensures
        words_model(r@) == words_model(b@),
{
    let mut r: Vec<String> = Vec::new();
    let mut i: usize = 0;
    while i < b.len()
        invariant
            i <= b@.len(),
            r@.len() == i,
            forall|j: int| 0 <= j < i ==> r@[j]@ == b@[j]@,
        decreases b@.len() - i,
    {
        r.push(b[i].clone());
        i += 1;
    }
    assert(words_model(r@) =~= words_model(b@));
    r
}

impl Value {
    /// A copy of the value.
    pub fn copy(&self) -> (r: Value)
        ensures
            r@ == self@,
        decreases self,
    {
        match self {
            Value::Undef => Value::Undef,
            Value::Bool(b) => Value::Bool(*b),
            Value::Int(i) => Value::Int(i.copy()),
            Value::Float(x) => Value::Float(*x),
            Value::Vector(items) => {
                assert(decreases_to!(*self => *items));
                let mut r: Vec<Value> = Vec::new();
                let mut i: usize = 0;
                while i < items.len()
                    invariant
                        decreases_to!(*self => *items),
                        i <= items@.len(),
                        r@.len() == i,
                        forall|j: int| 0 <= j < i ==> r@[j]@ == items@[j]@,
                    decreases items@.len() - i,
                {
                    proof {
                        assert(decreases_to!(*items => items@[i as int]));
                    }
                    r.push(items[i].copy());
                    i += 1;
                }
                let ghost m = self@;
                assert(r@.len() == items@.len());
                let out = Value::Vector(r);
                assert(out@ =~= self@) by {
                    if let ValueModel::Vector(a) = out@ {
                        if let ValueModel::Vector(b) = self@ {
                            assert(a =~= b);
                        }
                    }
                }
                out
            },
            Value::Block(b) => Value::Block(copy_words(b)),
            Value::QuotedWord(w) => Value::QuotedWord(w.clone()),
        }
    }
}

impl Operation {
    /// A copy of the operation.
    pub fn copy(&self) -> (r: Operation)
        ensures
            r@ == self@,
    {
        match self {
            Operation::Builtin(b) => Operation::Builtin(*b),
            Operation::Value(v) => Operation::Value(v.copy()),
        }
    }
}

/// The characters of Unicode's White_Space property.
pub open spec fn is_white_space(c: char) -> bool {
    ||| '\t' <= c <= '\r'
    ||| c == ' '
    ||| c == '\u{85}'
    ||| c == '\u{a0}'
    ||| c == '\u{1680}'
    ||| '\u{2000}' <= c <= '\u{200a}'
    ||| c == '\u{2028}'
    ||| c == '\u{2029}'
    ||| c == '\u{202f}'
    ||| c == '\u{205f}'
    ||| c == '\u{3000}'
}

pub open spec fn trim_start(s: Seq<char>) -> Seq<char>
    decreases s.len(),
{
    if s.len() > 0 && is_white_space(s[0]) {
        trim_start(s.drop_first())
    } else {
        s
    }
}

pub open spec fn trim_end(s: Seq<char>) -> Seq<char>
    decreases s.len(),
{
    if s.len() > 0 && is_white_space(s.last()) {
        trim_end(s.drop_last())
    } else {
        s
    }
}

/// `s` without leading and trailing white space.
pub open spec fn trimmed(s: Seq<char>) -> Seq<char> {
    trim_end(trim_start(s))
}

/// Relies on `str::trim`, which drops leading and trailing characters of
/// Unicode's White_Space property.
#[verifier::external_body]
fn trim(s: &str) -> (r: &str)
    ensures
        r@ == trimmed(s@),
{
    s.trim()
}

proof fn lemma_trim_unchanged(s: Seq<char>)
    requires
        s.len() > 0,
        !is_white_space(s[0]),
        !is_white_space(s.last()),
    ensures
        trimmed(s) == s,
{
}

/// The decimal text of an integer reads back as that integer, also after
/// trimming, and starts with `-` or a digit.
pub proof fn lemma_int_text_literal(v: int)
    ensures
        int_literal(trimmed(int_text(v))) == Some(v),
        int_text(v).len() > 0,
        int_text(v)[0] == '-' || is_digit(int_text(v)[0]),
{
    let t = int_text(v);
    let m: nat = if v < 0 { (-v) as nat } else { v as nat };
    lemma_decimal_digits(m);
    let d = decimal(m);
    assert(is_digit(d[0]));
    assert(is_digit(d[d.len() - 1]));
    if v < 0 {
        assert(t[0] == '-');
        assert(t.last() == d.last());
    } else {
        assert(t == d);
    }
    lemma_trim_unchanged(t);
    lemma_int_text_round_trip(v);
}

/// Reading back the text of an integer value gives the same integer.
pub proof fn lemma_int_round_trip(x: Value)
    requires
        x is Int,
    ensures
        int_literal(trimmed(text(&x))) == Some(x@->Int_0),
{
    lemma_int_text_literal(x@->Int_0);
}

pub(crate) proof fn lemma_vector_model(items: Vec<Value>)
    ensures
        Value::Vector(items)@ == ValueModel::Vector(values_model(items@)),
{
    let v = Value::Vector(items);
    if let ValueModel::Vector(a) = v@ {
        assert(a =~= values_model(items@));
    }
}

/// The text of a value without floats: integers in decimal, vectors as
/// `[e1, e2] len: 2`, blocks as a placeholder, quoted words bare.
pub open spec fn text(v: &Value) -> Seq<char>
    decreases v,
{
    match v {
        Value::Undef => "undef"@,
        Value::Bool(b) => if *b { "true"@ } else { "false"@ },
        Value::Int(i) => int_text(i@),
        Value::Float(_) => Seq::empty(),
        Value::Vector(items) => "["@ + joined(texts(items@)) + "] len: "@ + int_text(items@.len() as int),
        Value::Block(_) => "<block>"@,
        Value::QuotedWord(w) => w@,
    }
}

/// The texts of each of the values.
pub open spec fn texts(s: Seq<Value>) -> Seq<Seq<char>>
    decreases s,
{
    Seq::new(s.len(), |i: int| if 0 <= i < s.len() { text(&s[i]) } else { Seq::empty() })
}

/// How many floats a value holds, at any depth.
pub open spec fn float_count(v: &Value) -> nat
    decreases v,
{
    match v {
        Value::Float(_) => 1,
        Value::Vector(items) => floats_before(items@, items@.len() as int),
        _ => 0,
    }
}

/// How many floats the first `i` values hold.
pub open spec fn floats_before(s: Seq<Value>, i: int) -> nat
    decreases s, i,
{
    if i <= 0 || i > s.len() {
        0
    } else {
        floats_before(s, i - 1) + float_count(&s[i - 1])
    }
}

/// The text of a value whose floats, in the order they appear, are written
/// `fs`.
pub open spec fn shown(v: &Value, fs: Seq<Seq<char>>) -> Seq<char>
    decreases v,
{
    match v {
        Value::Float(_) => if fs.len() > 0 { fs[0] } else { Seq::empty() },
        Value::Vector(items) => "["@ + joined(shown_items(items@, fs)) + "] len: "@ + int_text(items@.len() as int),
        _ => text(v),
    }
}

/// The texts of each of the values, the floats of each written by its
/// share of `fs`.
pub open spec fn shown_items(s: Seq<Value>, fs: Seq<Seq<char>>) -> Seq<Seq<char>>
    decreases s,
{
    Seq::new(
        s.len(),
        |i: int|
            if 0 <= i < s.len() {
                shown(&s[i], fs.subrange(floats_before(s, i) as int, floats_before(s, i + 1) as int))
            } else {
                Seq::empty()
            },
    )
}

proof fn lemma_floats_before_grows(s: Seq<Value>, k: int, i: int)
    requires
        0 <= k <= i <= s.len(),
    ensures
        floats_before(s, k) <= floats_before(s, i),
    decreases i - k,
{
    if k < i {
        lemma_floats_before_grows(s, k, i - 1);
    }
}

/// The parts separated by `, `.
pub open spec fn joined(parts: Seq<Seq<char>>) -> Seq<char>
    decreases parts.len(),
{
    if parts.len() == 0 {
        Seq::empty()
    } else if parts.len() == 1 {
        parts[0]
    } else {
        joined(parts.drop_last()) + ", "@ + parts.last()
    }
}

/// Whether the value holds no float, at any depth.
pub open spec fn float_free(v: &Value) -> bool
    decreases v,
{
    match v {
        Value::Float(_) => false,
        Value::Vector(items) => forall|i: int| 0 <= i < items@.len() ==> float_free(#[trigger] &items@[i]),
        _ => true,
    }
}

impl Value {
    /// Reads a literal: after trimming white space, a base-10 integer if
    /// the text is one, else a float if `fl` reads one, else nothing.
    pub fn parse<F: FloatArith>(s: &str, fl: &F) -> (r: Option<Value>)
        ensures
            int_literal(trimmed(s@)) matches Some(v) ==> r matches Some(x) && x@ == ValueModel::Int(v),
            int_literal(trimmed(s@)) is None ==> r is None || r->0@ is Float,
    {
        let t = trim(s);
        match int_parse(t) {
            Some(i) => Some(Value::Int(i)),
            None => match fl.parse(t) {
                Some(x) => Some(Value::Float(x)),
                None => None,
            },
        }
    }

    pub fn as_bool(&self) -> (r: Option<bool>)
        ensures
            r == (match self@ {
                ValueModel::Bool(b) => Some(b),
                _ => None,
            }),
    {
        match self {
            Value::Bool(b) => Some(*b),
            _ => None,
        }
    }

    pub fn as_int(&self) -> (r: Option<Int>)
        ensures
            match self@ {
                ValueModel::Int(i) => r matches Some(x) && x@ == i,
                _ => r is None,
            },
    {
        match self {
            Value::Int(i) => Some(i.copy()),
            _ => None,
        }
    }

    /// An integer as an `i64` where it fits; a float cast by `fl`.
    pub fn as_int_cast<F: FloatArith>(&self, fl: &F) -> (r: Option<i64>)
        ensures
            match self@ {
                ValueModel::Int(i) => r == (if i64::MIN <= i <= i64::MAX { Some(i as i64) } else { None::<i64> }),
                ValueModel::Float(_) => r is Some,
                _ => r is None,
            },
    {
        match self {
            Value::Int(i) => crate::integer::int_to_i64(i),
            Value::Float(x) => Some(fl.to_i64(*x)),
            _ => None,
        }
    }

    pub fn as_float(&self) -> (r: Option<u64>)
        ensures
            r == (match self@ {
                ValueModel::Float(x) => Some(x),
                _ => None,
            }),
    {
        match self {
            Value::Float(x) => Some(*x),
            _ => None,
        }
    }

    /// A float as it is; an integer converted by `fl`.
    pub fn as_float_cast<F: FloatArith>(&self, fl: &F) -> (r: Option<u64>)
        ensures
            match self@ {
                ValueModel::Float(x) => r == Some(x),
                ValueModel::Int(_) => true,
                _ => r is None,
            },
    {
        match self {
            Value::Float(x) => Some(*x),
            Value::Int(i) => fl.from_int(i),
            _ => None,
        }
    }

    pub fn into_vector(self) -> (r: Result<Vec<Value>, Value>)
        ensures
            match self@ {
                ValueModel::Vector(items) => r matches Ok(v) && values_model(v@) == items,
                _ => r == Err::<Vec<Value>, Value>(self),
            },
    {
        match self {
            Value::Vector(v) => {
                proof {
                    lemma_vector_model(v);
                }
                Ok(v)
            },
            v => Err(v),
        }
    }

    pub fn into_block(self) -> (r: Result<Vec<String>, Value>)
        ensures
            match self@ {
                ValueModel::Block(b) => r matches Ok(v) && words_model(v@) == b,
                _ => r == Err::<Vec<String>, Value>(self),
            },
    {
        match self {
            Value::Block(b) => Ok(b),
            v => Err(v),
        }
    }

    pub fn into_word(self) -> (r: Result<String, Value>)
        ensures
            match self@ {
                ValueModel::QuotedWord(w) => r matches Ok(s) && s@ == w,
                _ => r == Err::<String, Value>(self),
            },
    {
        match self {
            Value::QuotedWord(w) => Ok(w),
            v => Err(v),
        }
    }

    /// The display text of the value; floats are written by `fl`.
    pub fn render<F: FloatArith>(&self, fl: &F) -> (r: String)
        ensures
            float_free(self) ==> r@ == text(self),
            exists|fs: Seq<Seq<char>>| fs.len() == float_count(self) && r@ == #[trigger] shown(self, fs),
        decreases self,
    {
        match self {
            Value::Undef => {
                let r = String::from_str("undef");
                assert(r@ == shown(self, Seq::empty()));
                r
            },
            Value::Bool(b) => {
                let r = if *b {
                    String::from_str("true")
                } else {
                    String::from_str("false")
                };
                assert(r@ == shown(self, Seq::empty()));
                r
            },
            Value::Int(i) => {
                let r = int_to_text(i);
                assert(r@ == shown(self, Seq::empty()));
                r
            },
            Value::Float(x) => {
                let r = fl.render(*x);
                assert(r@ == shown(self, seq![r@]));
                r
            },
            Value::Vector(items) => {
                let ghost parts = texts(items@);
                let ghost mut acc: Seq<Seq<char>> = Seq::empty();
                let ghost mut shown_parts: Seq<Seq<char>> = Seq::empty();
                let mut r = String::from_str("[");
                let mut i: usize = 0;
                while i < items.len()
                    invariant
                        decreases_to!(*self => *items),
                        acc.len() == floats_before(items@, i as int),
                        shown_parts.len() == i,
                        forall|k: int| 0 <= k < i ==> #[trigger] shown_parts[k] == shown(&items@[k], acc.subrange(floats_before(items@, k) as int, floats_before(items@, k + 1) as int)),
                        r@ == "["@ + joined(shown_parts),
                        float_free(self) ==> forall|k: int| 0 <= k < items@.len() ==> float_free(#[trigger] &items@[k]),
                        parts == texts(items@),
                        text(self) == "["@ + joined(parts) + "] len: "@ + int_text(items@.len() as int),
                        i <= items@.len(),
                        float_free(self) ==> r@ == "["@ + joined(parts.take(i as int)),
                    decreases items@.len() - i,
                {
                    proof {
                        assert(decreases_to!(*items => items@[i as int]));
                    }
                    let part = items[i].render(fl);
                    let ghost sp0 = shown_parts;
                    let ghost acc0 = acc;
                    if i > 0 {
                        r.append(", ");
                    }
                    r.append(part.as_str());
                    proof {
                        let fsi = choose|fs: Seq<Seq<char>>| fs.len() == float_count(&items@[i as int]) && part@ == #[trigger] shown(&items@[i as int], fs);
                        acc = acc0 + fsi;
                        shown_parts = sp0.push(part@);
                        assert(acc.subrange(floats_before(items@, i as int) as int, floats_before(items@, i + 1) as int) =~= fsi);
                        assert forall|k: int| 0 <= k < i + 1 implies #[trigger] shown_parts[k] == shown(&items@[k], acc.subrange(floats_before(items@, k) as int, floats_before(items@, k + 1) as int)) by {
                            if k < i {
                                lemma_floats_before_grows(items@, k + 1, i as int);
                                lemma_floats_before_grows(items@, k, k + 1);
                                assert(acc.subrange(floats_before(items@, k) as int, floats_before(items@, k + 1) as int) =~= acc0.subrange(floats_before(items@, k) as int, floats_before(items@, k + 1) as int));
                            }
                        }
                        assert(shown_parts.drop_last() =~= sp0);
                        if i == 0 {
                            assert(joined(shown_parts) == shown_parts[0]);
                        }
                        if float_free(self) {
                            assert(float_free(&items@[i as int]));
                            let t = parts.take(i + 1);
                            assert(t.drop_last() =~= parts.take(i as int));
                            if i == 0 {
                                assert(joined(t) == t[0]);
                            }
                        }
                    }
                    i += 1;
                }
                r.append("] len: ");
                let n = int_to_text(&Int::from_u64(items.len() as u64));
                r.append(n.as_str());
                proof {
                    assert(parts.take(items@.len() as int) =~= parts);
                    assert(shown_parts =~= shown_items(items@, acc));
                    assert(r@ == shown(self, acc));
                    assert(acc.len() == float_count(self));
                }
                r
            },
            Value::Block(_) => {
                let r = String::from_str("<block>");
                assert(r@ == shown(self, Seq::empty()));
                r
            },
            Value::QuotedWord(w) => {
                let r = w.clone();
                assert(r@ == shown(self, Seq::empty()));
                r
            },
        }
    }

    /// The name of the value's kind, for diagnostics.
    pub fn type_of(&self) -> (r: &'static str)
        ensures
            r@ == kind_name(self@),
    {
        match self {
            Value::Undef => "undef",
            Value::Bool(_) => "type",
            Value::Int(_) => "int",
            Value::Float(_) => "float",
            Value::Vector(_) => "vector",
            Value::Block(_) => "block",
            Value::QuotedWord(_) => "quoted word",
        }
    }
}

pub open spec fn kind_name(v: ValueModel) -> Seq<char> {
    match v {
        ValueModel::Undef => "undef"@,
        ValueModel::Bool(_) => "type"@,
        ValueModel::Int(_) => "int"@,
        ValueModel::Float(_) => "float"@,
        ValueModel::Vector(_) => "vector"@,
        ValueModel::Block(_) => "block"@,
        ValueModel::QuotedWord(_) => "quoted word"@,
    }
}

} // verus!
