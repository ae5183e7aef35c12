use num::bigint::{BigInt, Sign};
use num::ToPrimitive;
use pnc::calc::{Calc, ErrorKind, Host};
use pnc::float::{FloatArith, FloatBinary, FloatUnary};
use pnc::integer::Int;
use pnc::value::Value;

struct TestHost {
    printed: Vec<String>,
    input: Vec<String>,
    ints_convert: bool,
}

impl TestHost {
    fn new() -> TestHost {
        TestHost { printed: Vec::new(), input: Vec::new(), ints_convert: true }
    }
}

impl FloatArith for TestHost {
    fn parse(&self, s: &str) -> Option<u64> {
        s.parse::<f64>().ok().map(f64::to_bits)
    }

    fn from_int(&self, i: &Int) -> Option<u64> {
        if !self.ints_convert {
            return None;
        }
        let (neg, limbs) = i.sign_and_limbs();
        let b = BigInt::from_slice(if neg { Sign::Minus } else { Sign::Plus }, limbs);
        b.to_f64().map(f64::to_bits)
    }

    fn to_i64(&self, x: u64) -> i64 {
        f64::from_bits(x) as i64
    }

    fn unary(&self, op: FloatUnary, x: u64) -> u64 {
        let x = f64::from_bits(x);
        let r = match op {
            FloatUnary::Sqrt => x.sqrt(),
            FloatUnary::Exp => x.exp(),
            FloatUnary::Ln => x.ln(),
            FloatUnary::Sin => x.sin(),
            FloatUnary::Cos => x.cos(),
            FloatUnary::Tan => x.tan(),
            FloatUnary::Asin => x.asin(),
            FloatUnary::Acos => x.acos(),
            FloatUnary::Atan => x.atan(),
        };
        r.to_bits()
    }

    fn binary(&self, op: FloatBinary, x: u64, y: u64) -> u64 {
        let (x, y) = (f64::from_bits(x), f64::from_bits(y));
        let r = match op {
            FloatBinary::Add => x + y,
            FloatBinary::Sub => x - y,
            FloatBinary::Mul => x * y,
            FloatBinary::Div => x / y,
            FloatBinary::Rem => x % y,
            FloatBinary::Pow => x.powf(y),
            FloatBinary::Log => x.log(y),
        };
        r.to_bits()
    }

    fn render(&self, x: u64) -> String {
        format!("{}", f64::from_bits(x))
    }
}

impl Host for TestHost {
    fn print(&mut self, line: String) {
        self.printed.push(line);
    }

    fn read_lines(&mut self) -> Vec<String> {
        std::mem::take(&mut self.input)
    }
}

fn words(ws: &[&str]) -> Vec<String> {
    ws.iter().map(|w| w.to_string()).collect()
}

fn ival(n: i64) -> Value {
    Value::Int(Int::from_i64(n))
}

fn float(x: f64) -> Value {
    Value::Float(x.to_bits())
}

fn eval(ws: &[&str]) -> (Calc, Result<(), ErrorKind>) {
    let mut calc = Calc::new();
    let mut h = TestHost::new();
    let r = calc.run(&words(ws), &mut h);
    (calc, r)
}

fn big(s: &str) -> Value {
    Value::parse(s, &TestHost::new()).unwrap()
}

#[test]
fn two_plus_three() {
    let (calc, r) = eval(&["2", "3", "add"]);
    assert_eq!(r, Ok(()));
    assert_eq!(calc.data, vec![ival(5)]);
}

#[test]
fn roll3_cycles_three_values() {
    let (calc, r) = eval(&["1", "2", "3", "roll3"]);
    assert_eq!(r, Ok(()));
    assert_eq!(calc.data, vec![ival(2), ival(1), ival(3)]);
}

#[test]
fn dup_then_mul_squares() {
    let (calc, r) = eval(&["5", "dup", "mul"]);
    assert_eq!(r, Ok(()));
    assert_eq!(calc.data, vec![ival(25)]);
}

#[test]
fn vector_literal_collects() {
    let (calc, r) = eval(&["[", "1", "2", "3", "]"]);
    assert_eq!(r, Ok(()));
    assert_eq!(calc.data, vec![Value::Vector(vec![ival(1), ival(2), ival(3)])]);
}

#[test]
fn apply_runs_block() {
    let (calc, r) = eval(&["5", "{", "1", "add", "}", "apply"]);
    assert_eq!(r, Ok(()));
    assert_eq!(calc.data, vec![ival(6)]);
}

#[test]
fn division_by_zero_leaves_nothing() {
    let (calc, r) = eval(&["10", "0", "div"]);
    assert_eq!(r, Err(ErrorKind::DivisionByZero));
    assert!(calc.data.is_empty());
}

#[test]
fn division_by_float_zero() {
    for x in ["7", "-2.5", "0"] {
        for z in ["0.0", "-0.0", "0"] {
            let (calc, r) = eval(&[x, z, "div"]);
            assert_eq!(r, Err(ErrorKind::DivisionByZero));
            assert!(calc.data.is_empty());
        }
    }
}

#[test]
fn division_gives_float() {
    let (calc, r) = eval(&["7", "2", "div"]);
    assert_eq!(r, Ok(()));
    assert_eq!(calc.data, vec![float(3.5)]);
}

#[test]
fn big_integer_arithmetic_is_exact() {
    let (calc, r) = eval(&[
        "123456789012345678901234567890",
        "987654321098765432109876543210",
        "add",
    ]);
    assert_eq!(r, Ok(()));
    assert_eq!(calc.data, vec![big("1111111110111111111011111111100")]);
    let (calc, _) = eval(&["-4294967296", "4294967297", "mul"]);
    assert_eq!(calc.data, vec![big("-18446744078004518912")]);
    let (calc, _) = eval(&["3", "10", "sub"]);
    assert_eq!(calc.data, vec![ival(-7)]);
}

#[test]
fn add_of_ints_for_several_values() {
    for (a, b) in [(0i64, 0i64), (-1, 1), (i64::MAX, 1), (i64::MIN, -1), (12, -30)] {
        let (calc, r) = eval(&[&a.to_string(), &b.to_string(), "add"]);
        assert_eq!(r, Ok(()));
        let expected = (a as i128 + b as i128).to_string();
        assert_eq!(calc.data, vec![big(&expected)]);
    }
}

#[test]
fn mixed_arithmetic_widens_to_float() {
    let (calc, r) = eval(&["1", "2.5", "add"]);
    assert_eq!(r, Ok(()));
    assert_eq!(calc.data, vec![float(3.5)]);
    let (calc, _) = eval(&["1.5", "2", "mul"]);
    assert_eq!(calc.data, vec![float(3.0)]);
}

#[test]
fn int_too_large_for_float() {
    let mut calc = Calc::new();
    let mut h = TestHost::new();
    h.ints_convert = false;
    let r = calc.run(&words(&["1", "2.5", "add"]), &mut h);
    assert_eq!(r, Err(ErrorKind::BigIntTooLarge));
    assert!(calc.data.is_empty());
}

#[test]
fn missing_operand() {
    let (calc, r) = eval(&["1", "add"]);
    assert_eq!(r, Err(ErrorKind::MissingOperand));
    assert!(calc.data.is_empty());
}

#[test]
fn wrong_type_operand_reports_deeper_first() {
    let (_, r) = eval(&[",x", ",y", "add"]);
    assert_eq!(r, Err(ErrorKind::WrongTypeOperand(Value::QuotedWord("x".to_string()), "int or float")));
    let (_, r) = eval(&["1", ",y", "add"]);
    assert_eq!(r, Err(ErrorKind::WrongTypeOperand(Value::QuotedWord("y".to_string()), "int or float")));
    let (_, r) = eval(&["1", "len"]);
    assert_eq!(r, Err(ErrorKind::WrongTypeOperand(ival(1), "vector")));
}

#[test]
fn unparsable_word() {
    let (calc, r) = eval(&["1", "frobnicate"]);
    assert_eq!(r, Err(ErrorKind::WordParseError("frobnicate".to_string())));
    assert_eq!(calc.data, vec![ival(1)]);
}

#[test]
fn alias_to_unknown_word_fails() {
    let (_, r) = eval(&[",plus", ",nothing", "alias"]);
    assert_eq!(r, Err(ErrorKind::UnknownWord("nothing".to_string())));
}

#[test]
fn alias_and_def() {
    let (calc, r) = eval(&[",plus", ",add", "alias", "1", "2", "plus"]);
    assert_eq!(r, Ok(()));
    assert_eq!(calc.data, vec![ival(3)]);
    let (calc, r) = eval(&[",five", "5", "def", "five", "five", "mul"]);
    assert_eq!(r, Ok(()));
    assert_eq!(calc.data, vec![ival(25)]);
    let (calc, r) = eval(&[",sq", "{", "dup", "mul", "}", "def", "7", "sq"]);
    assert_eq!(r, Ok(()));
    assert_eq!(calc.data, vec![ival(49)]);
}

#[test]
fn map_results_and_errors() {
    let (calc, r) = eval(&["[", "1", "2", "3", "]", "{", "dup", "mul", "}", "map"]);
    assert_eq!(r, Ok(()));
    assert_eq!(calc.data, vec![Value::Vector(vec![ival(1), ival(4), ival(9)])]);
    let (calc, r) = eval(&["[", "1", "]", "{", "7", "}", "map"]);
    assert_eq!(r, Ok(()));
    assert_eq!(calc.data, vec![Value::Vector(vec![ival(7)])]);
    let (calc, r) = eval(&["10", "[", "1", "]", "{", "add", "add", "}", "map"]);
    assert_eq!(r, Err(ErrorKind::MissingOperand));
    assert_eq!(calc.data, vec![ival(10)]);
    let (_, r) = eval(&["[", "1", "2", "3", "]", "{", "1", "sub", "}", "filter"]);
    assert_eq!(r, Ok(()));
    let (calc, _) = eval(&["[", "1", "2", "3", "]", "{", "1", "sub", "}", "filter"]);
    assert_eq!(calc.data, vec![Value::Vector(vec![ival(2), ival(3)])]);
}

#[test]
fn recursion_goes_deep() {
    // counts down from 100 by a word that calls itself through `if`
    let (calc, r) = eval(&[
        ",down", "{", "dup", "{", "1", "sub", "down", "}", "{", "}", "if", "}", "def", "100", "down",
    ]);
    assert_eq!(r, Ok(()));
    assert_eq!(calc.data, vec![ival(0)]);
}

#[test]
fn self_recursive_word_stops() {
    let (_, r) = eval(&[",loop", "{", "loop", "}", "def", "loop"]);
    assert_eq!(r, Err(ErrorKind::TooDeep));
}

#[test]
fn block_without_result() {
    let (_, r) = eval(&["[", "1", "]", "{", "pop", "}", "map"]);
    assert_eq!(r, Err(ErrorKind::BlockNoResult));
}

#[test]
fn map_keeps_length_and_order() {
    let (calc, r) = eval(&["[", "1", "2", "3", "]", "{", "10", "mul", "}", "map"]);
    assert_eq!(r, Ok(()));
    assert_eq!(calc.data, vec![Value::Vector(vec![ival(10), ival(20), ival(30)])]);
    let (calc, _) = eval(&["[", "4", "5", "]", "{", "}", "map"]);
    assert_eq!(calc.data, vec![Value::Vector(vec![ival(4), ival(5)])]);
    let (calc, _) = eval(&["[", "]", "{", "1", "add", "}", "map"]);
    assert_eq!(calc.data, vec![Value::Vector(vec![])]);
}

#[test]
fn filter_keeps_subsequence_in_order() {
    let (calc, r) = eval(&["[", "1", "2", "3", "4", "5", "]", "{", "2", "swap", "cmp", "}", "filter"]);
    assert_eq!(r, Ok(()));
    // `2 swap cmp` gives -1, 0 or 1 as the element is below, at or above 2.
    assert_eq!(calc.data, vec![Value::Vector(vec![ival(1), ival(3), ival(4), ival(5)])]);
}

#[test]
fn filter_ignores_float_results() {
    let (calc, r) = eval(&["[", "1", "2", "]", "{", "pop", "1.5", "}", "filter"]);
    assert_eq!(r, Ok(()));
    assert_eq!(calc.data, vec![Value::Vector(vec![])]);
}

#[test]
fn fold1_on_empty_vector_is_no_op() {
    let (calc, r) = eval(&["7", "[", "]", "{", "add", "}", "fold1"]);
    assert_eq!(r, Ok(()));
    assert_eq!(calc.data, vec![ival(7)]);
}

#[test]
fn fold_on_empty_vector_gives_initial_value() {
    let (calc, r) = eval(&["[", "]", "42", "{", "add", "}", "fold"]);
    assert_eq!(r, Ok(()));
    assert_eq!(calc.data, vec![ival(42)]);
}

#[test]
fn folds_sum_a_vector() {
    let (calc, r) = eval(&["[", "1", "2", "3", "]", "10", "{", "add", "}", "fold"]);
    assert_eq!(r, Ok(()));
    assert_eq!(calc.data, vec![ival(16)]);
    let (calc, r) = eval(&["[", "1", "2", "3", "]", "{", "mul", "}", "fold1"]);
    assert_eq!(r, Ok(()));
    assert_eq!(calc.data, vec![ival(6)]);
}

#[test]
fn integer_text_reads_back() {
    let h = TestHost::new();
    for s in ["0", "-1", "42", "-98765432109876543210987654321", "18446744073709551616"] {
        let v = Value::parse(s, &h).unwrap();
        assert_eq!(v.render(&h), s);
        assert_eq!(Value::parse(&v.render(&h), &h), Some(v));
    }
}

#[test]
fn float_text_reads_back() {
    let h = TestHost::new();
    for x in [0.1f64, -2.5, 1e-300, 1.0 / 3.0, 123.456] {
        let v = float(x);
        assert_eq!(Value::parse(&v.render(&h), &h), Some(v));
    }
    // A float with an integral value is written without a fraction, and
    // reads back as an integer.
    assert_eq!(Value::parse(&float(3.0).render(&h), &h), Some(ival(3)));
}

#[test]
fn literal_parsing() {
    let h = TestHost::new();
    assert_eq!(Value::parse(" 42 ", &h), Some(ival(42)));
    assert_eq!(Value::parse("+7", &h), Some(ival(7)));
    assert_eq!(Value::parse("1_000", &h), Some(ival(1000)));
    assert_eq!(Value::parse("2.5", &h), Some(float(2.5)));
    assert_eq!(Value::parse("1e3", &h), Some(float(1000.0)));
    assert_eq!(Value::parse("abc", &h), None);
    assert_eq!(Value::parse("", &h), None);
}

#[test]
fn display_text() {
    let h = TestHost::new();
    let v = Value::Vector(vec![ival(1), float(2.5), Value::QuotedWord("w".to_string())]);
    assert_eq!(v.render(&h), "[1, 2.5, w] len: 3");
    assert_eq!(Value::Vector(vec![]).render(&h), "[] len: 0");
    let w = Value::Vector(vec![Value::Vector(vec![ival(1)]), float(2.5)]);
    assert_eq!(w.render(&h), "[[1] len: 1, 2.5] len: 2");
    assert_eq!(Value::Block(vec!["1".to_string()]).render(&h), "<block>");
    assert_eq!(Value::Undef.render(&h), "undef");
    assert_eq!(Value::Bool(true).render(&h), "true");
    assert_eq!(ival(-12).render(&h), "-12");
}

#[test]
fn stack_shuffles() {
    let (calc, _) = eval(&["1", "2", "swap"]);
    assert_eq!(calc.data, vec![ival(2), ival(1)]);
    let (calc, _) = eval(&["1", "2", "over"]);
    assert_eq!(calc.data, vec![ival(1), ival(2), ival(1)]);
    let (calc, r) = eval(&["1", "pop"]);
    assert_eq!(r, Ok(()));
    assert!(calc.data.is_empty());
    let (_, r) = eval(&["pop"]);
    assert_eq!(r, Err(ErrorKind::MissingOperand));
}

#[test]
fn comparisons() {
    let (calc, _) = eval(&["1", "2", "cmp"]);
    assert_eq!(calc.data, vec![ival(-1)]);
    let (calc, _) = eval(&["2", "1", "cmp"]);
    assert_eq!(calc.data, vec![ival(1)]);
    let (calc, _) = eval(&["3", "3", "cmp"]);
    assert_eq!(calc.data, vec![ival(0)]);
    let (calc, _) = eval(&["3", "-8", "min"]);
    assert_eq!(calc.data, vec![ival(-8)]);
    let (calc, _) = eval(&["3", "-8", "max"]);
    assert_eq!(calc.data, vec![ival(3)]);
    let (_, r) = eval(&["1.5", "2", "min"]);
    assert_eq!(r, Err(ErrorKind::WrongTypeOperand(float(1.5), "int")));
}

#[test]
fn length_of_vector() {
    let (calc, r) = eval(&["[", "1", "2", "]", "len"]);
    assert_eq!(r, Ok(()));
    assert_eq!(calc.data, vec![ival(2)]);
}

#[test]
fn repeat_and_if() {
    let (calc, r) = eval(&["1", "{", "2", "mul", "}", "3", "repeat"]);
    assert_eq!(r, Ok(()));
    assert_eq!(calc.data, vec![ival(8)]);
    let (calc, _) = eval(&["1", "{", "2", "mul", "}", "-2", "repeat"]);
    assert_eq!(calc.data, vec![ival(1)]);
    let (calc, _) = eval(&["1", ",yes", ",no", "if"]);
    assert_eq!(calc.data, vec![Value::QuotedWord("yes".to_string())]);
    let (calc, _) = eval(&["0", "{", "1", "}", "{", "2", "}", "if"]);
    assert_eq!(calc.data, vec![ival(2)]);
}

#[test]
fn apply_quoted_word_and_other_values() {
    let (calc, r) = eval(&["2", "3", ",add", "apply"]);
    assert_eq!(r, Ok(()));
    assert_eq!(calc.data, vec![ival(5)]);
    let (calc, _) = eval(&["2", "9", "apply"]);
    assert_eq!(calc.data, vec![ival(2)]);
}

#[test]
fn nested_blocks_are_kept_verbatim() {
    let (calc, r) = eval(&["{", "{", "1", "}", "}"]);
    assert_eq!(r, Ok(()));
    assert_eq!(calc.data, vec![Value::Block(words(&["{", "1", "}"]))]);
}

#[test]
fn arg_takes_from_enclosing_stack() {
    let (calc, r) = eval(&["5", "[", "arg", "1", "]"]);
    assert_eq!(r, Ok(()));
    assert_eq!(calc.data, vec![Value::Vector(vec![ival(5), ival(1)])]);
}

#[test]
fn float_functions() {
    let (calc, r) = eval(&["16", "sqrt"]);
    assert_eq!(r, Ok(()));
    assert_eq!(calc.data, vec![float(4.0)]);
    let (calc, _) = eval(&["2", "10", "pow"]);
    assert_eq!(calc.data, vec![float(1024.0)]);
    let (calc, _) = eval(&["7", "4", "mod"]);
    assert_eq!(calc.data, vec![float(3.0)]);
    let (calc, _) = eval(&["8", "2", "log"]);
    assert_eq!(calc.data, vec![float(3.0)]);
}

#[test]
fn print_dump_and_stdin() {
    let mut calc = Calc::new();
    let mut h = TestHost::new();
    h.input = words(&["1", "not a number", " 2.5 "]);
    let r = calc.run(&words(&["7", "print", "3", "dump", "stdin"]), &mut h);
    assert_eq!(r, Ok(()));
    assert_eq!(h.printed, words(&["7", "3"]));
    assert_eq!(calc.data, vec![ival(3), Value::Vector(vec![ival(1), float(2.5)])]);
}

#[test]
fn run_one_keeps_pending_block() {
    let mut calc = Calc::new();
    let mut h = TestHost::new();
    assert_eq!(calc.run_one("{", &mut h), Ok(()));
    assert_eq!(calc.run_one("add", &mut h), Ok(()));
    assert!(calc.data.is_empty());
    assert_eq!(calc.run_one("}", &mut h), Ok(()));
    assert_eq!(calc.data, vec![Value::Block(words(&["add"]))]);
}

#[test]
fn sub_calc_sees_parent_words() {
    let mut calc = Calc::new();
    let mut h = TestHost::new();
    calc.run(&words(&[",two", "2", "def"]), &mut h).unwrap();
    let mut sub = calc.sub_calc();
    assert_eq!(sub.run(&words(&["two", "two", "add", ",three", "3", "def"]), &mut h), Ok(()));
    assert_eq!(sub.data, vec![ival(4)]);
    assert_eq!(calc.run(&words(&["three"]), &mut h), Err(ErrorKind::WordParseError("three".to_string())));
}
