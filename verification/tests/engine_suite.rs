//! The script engine: operators, producers, and the stack machine.

use metatree::operator::Impl;
use metatree::resolver::Arg;
use metatree::resolver::NullaryOp;
use metatree::resolver::ResolverContext;
use metatree::resolver::ScriptOp;
use metatree::resolver::UnaryOp;
use metatree::resolver::run_script;
use metatree::sorter::PathInfo;
use metatree::stream::Error;
use metatree::stream::Dedup;
use metatree::stream::Flatten;
use metatree::stream::Unique;
use metatree::stream::Stream;
use metatree::values::Decimal;
use metatree::values::MetaVal;

fn s(x: &str) -> MetaVal {
    MetaVal::Str(x.to_string())
}

fn i(x: i64) -> MetaVal {
    MetaVal::Int(x)
}

fn d(m: i64, e: u32) -> MetaVal {
    MetaVal::Dec(Decimal::new(m, e))
}

fn sample_string() -> MetaVal {
    s("string")
}

fn core_nested_sequence() -> Vec<MetaVal> {
    vec![
        sample_string(),
        i(27),
        d(31415, 4),
        MetaVal::Bul(true),
        MetaVal::Nil,
        MetaVal::Sequence(vec![i(1), i(2)]),
    ]
}

fn string_stream() -> Vec<MetaVal> {
    vec![s("string_0"), s("string_1"), s("string_2"), s("string_3"), s("string_4")]
}

#[test]
fn test_nth() {
    let inputs_and_expected: Vec<(Vec<Result<MetaVal, Error>>, usize, Result<MetaVal, Error>)> = vec![
        (vec![], 1usize, Err(Error::OutOfBounds)),
        (
            core_nested_sequence().into_iter().map(Result::Ok).collect(),
            0,
            Ok(sample_string()),
        ),
        (
            core_nested_sequence().into_iter().map(Result::Ok).collect(),
            100,
            Err(Error::OutOfBounds),
        ),
        (
            vec![Ok(MetaVal::Bul(true)), Ok(MetaVal::Bul(true)), Err(Error::Sentinel)],
            1,
            Ok(MetaVal::Bul(true)),
        ),
        (
            vec![Err(Error::Sentinel), Ok(MetaVal::Bul(true)), Ok(MetaVal::Bul(true))],
            1,
            Err(Error::Sentinel),
        ),
    ];

    for (input_a, input_b, expected) in inputs_and_expected {
        let produced = Impl::nth(Stream::new(input_a), input_b);
        assert_eq!(expected, produced);
    }
}

#[test]
fn test_nth_s() {
    let inputs_and_expected: Vec<(Vec<MetaVal>, usize, Result<MetaVal, Error>)> = vec![
        (vec![], 1usize, Err(Error::OutOfBounds)),
        (core_nested_sequence(), 0, Ok(sample_string())),
        (core_nested_sequence(), 100, Err(Error::OutOfBounds)),
        (vec![MetaVal::Bul(true), MetaVal::Bul(true)], 1, Ok(MetaVal::Bul(true))),
    ];

    for (input_a, input_b, expected) in inputs_and_expected {
        let produced = Impl::nth_s(input_a, input_b);
        assert_eq!(expected, produced);
    }
}

fn stackify(vals: Vec<MetaVal>) -> Vec<Arg> {
    vec![Arg::Producer(Stream::of_vals(vals))]
}

#[test]
fn unary_test_process() {
    let op = UnaryOp::Collect;
    let mut stack = stackify(string_stream());
    op.process(&mut stack).expect("process failed");
    assert_eq!(1, stack.len());
    match stack.pop().expect("stack is empty") {
        Arg::Value(MetaVal::Sequence(seq)) => {
            assert_eq!(string_stream(), seq);
        },
        _ => {
            panic!("unexpected operand");
        },
    }

    let op = UnaryOp::Rev;
    let mut stack = stackify(string_stream());
    op.process(&mut stack).expect("process failed");
    assert_eq!(1, stack.len());
    match stack.pop().expect("stack is empty") {
        Arg::Value(MetaVal::Sequence(seq)) => {
            assert_eq!(
                vec![s("string_4"), s("string_3"), s("string_2"), s("string_1"), s("string_0")],
                seq
            );
        },
        _ => {
            panic!("unexpected operand");
        },
    }

    let op = UnaryOp::Count;
    let mut stack = stackify(string_stream());
    op.process(&mut stack).expect("process failed");
    assert_eq!(1, stack.len());
    match stack.pop().expect("stack is empty") {
        Arg::Value(MetaVal::Int(n)) => {
            assert_eq!(5, n);
        },
        _ => {
            panic!("unexpected operand");
        },
    }

    let op = UnaryOp::First;
    let mut stack = stackify(string_stream());
    op.process(&mut stack).expect("process failed");
    assert_eq!(1, stack.len());
    match stack.pop().expect("stack is empty") {
        Arg::Value(mv) => {
            assert_eq!(s("string_0"), mv);
        },
        _ => {
            panic!("unexpected operand");
        },
    }

    let op = UnaryOp::Last;
    let mut stack = stackify(string_stream());
    op.process(&mut stack).expect("process failed");
    assert_eq!(1, stack.len());
    match stack.pop().expect("stack is empty") {
        Arg::Value(mv) => {
            assert_eq!(s("string_4"), mv);
        },
        _ => {
            panic!("unexpected operand");
        },
    }

    let numbers_i = vec![i(2), i(-9), i(9), i(0)];
    let numbers_d = vec![d(31415, 4), d(-27182, 4), i(0)];

    let op = UnaryOp::MaxIn;
    let mut stack = stackify(numbers_i.clone_all());
    op.process(&mut stack).expect("process failed");
    match stack.pop().expect("stack is empty") {
        Arg::Value(mv) => {
            assert_eq!(i(9), mv);
        },
        _ => {
            panic!("unexpected operand");
        },
    }
    let mut stack = stackify(numbers_d.clone_all());
    op.process(&mut stack).expect("process failed");
    match stack.pop().expect("stack is empty") {
        Arg::Value(mv) => {
            assert_eq!(d(31415, 4), mv);
        },
        _ => {
            panic!("unexpected operand");
        },
    }

    let op = UnaryOp::MinIn;
    let mut stack = stackify(numbers_i.clone_all());
    op.process(&mut stack).expect("process failed");
    match stack.pop().expect("stack is empty") {
        Arg::Value(mv) => {
            assert_eq!(i(-9), mv);
        },
        _ => {
            panic!("unexpected operand");
        },
    }
    let mut stack = stackify(numbers_d.clone_all());
    op.process(&mut stack).expect("process failed");
    match stack.pop().expect("stack is empty") {
        Arg::Value(mv) => {
            assert_eq!(d(-27182, 4), mv);
        },
        _ => {
            panic!("unexpected operand");
        },
    }
}

trait CloneAll {
    fn clone_all(&self) -> Vec<MetaVal>;
}

impl CloneAll for Vec<MetaVal> {
    fn clone_all(&self) -> Vec<MetaVal> {
        self.iter().map(|v| v.duplicate()).collect()
    }
}

fn sample_context() -> ResolverContext {
    ResolverContext {
        parents_pairs: vec![
            Ok((PathInfo::new("0/0_1".to_string()), s("A"))),
            Ok((PathInfo::new("0".to_string()), s("R"))),
        ],
        children_pairs: vec![
            Ok((PathInfo::new("0/0_1/0_1_2".to_string()), s("C"))),
        ],
    }
}

#[test]
fn nullary_test_process() {
    let rc = sample_context();

    let op = NullaryOp::Parents;
    let mut stack: Vec<Arg> = Vec::new();
    op.process(&rc, &mut stack);
    assert_eq!(1, stack.len());
    match stack.pop().expect("stack is empty") {
        Arg::Producer(_) => {},
        _ => {
            panic!("unexpected operand found on stack");
        },
    }

    let op = NullaryOp::Children;
    let mut stack: Vec<Arg> = Vec::new();
    op.process(&rc, &mut stack);
    assert_eq!(1, stack.len());
    match stack.pop().expect("stack is empty") {
        Arg::Producer(_) => {},
        _ => {
            panic!("unexpected operand found on stack");
        },
    }
}

#[test]
fn parents_collect_gathers_ancestor_values() {
    // An item whose ancestors define the requested field at two levels
    // yields those values nearest-first when collected.
    let rc = sample_context();
    let program = vec![ScriptOp::Nullary(NullaryOp::Parents), ScriptOp::Unary(UnaryOp::Collect)];
    let produced = run_script(program, Vec::new(), &rc).expect("script failed");
    assert_eq!(MetaVal::Sequence(vec![s("A"), s("R")]), produced);
}

#[test]
fn leftover_operands_report_an_unbalanced_stack() {
    // A run that ends with more than one operand names the imbalance.
    let rc = sample_context();
    let stack = vec![Arg::Value(i(1)), Arg::Value(i(2))];
    let produced = run_script(Vec::new(), stack, &rc);
    assert_eq!(Err(Error::UnbalancedStack), produced);
}

#[test]
fn sum_and_product_fold_exactly() {
    let mut stack = stackify(vec![i(1), i(2), d(5, 1)]);
    UnaryOp::Sum.process(&mut stack).expect("process failed");
    match stack.pop().expect("stack is empty") {
        Arg::Value(mv) => {
            assert_eq!(d(35, 1), mv);
        },
        _ => panic!("unexpected operand"),
    }

    let mut stack = stackify(vec![i(2), d(25, 1), i(4)]);
    UnaryOp::Product.process(&mut stack).expect("process failed");
    match stack.pop().expect("stack is empty") {
        Arg::Value(mv) => {
            assert_eq!(d(20, 0), mv);
        },
        _ => panic!("unexpected operand"),
    }
}

#[test]
fn sort_orders_and_all_equal_answers() {
    let mut stack = stackify(vec![i(3), i(1), d(25, 1), i(2)]);
    UnaryOp::Sort.process(&mut stack).expect("process failed");
    match stack.pop().expect("stack is empty") {
        Arg::Value(MetaVal::Sequence(seq)) => {
            assert_eq!(vec![i(1), i(2), d(25, 1), i(3)], seq);
        },
        _ => panic!("unexpected operand"),
    }

    let mut stack = stackify(vec![i(1), s("one")]);
    assert_eq!(Err(Error::NotComparable), UnaryOp::Sort.process(&mut stack));

    let mut stack = stackify(vec![s("x"), s("x"), s("x")]);
    UnaryOp::AllEqual.process(&mut stack).expect("process failed");
    match stack.pop().expect("stack is empty") {
        Arg::Value(MetaVal::Bul(b)) => assert!(b),
        _ => panic!("unexpected operand"),
    }

    let mut stack = stackify(Vec::new());
    UnaryOp::AllEqual.process(&mut stack).expect("process failed");
    match stack.pop().expect("stack is empty") {
        Arg::Value(MetaVal::Bul(b)) => assert!(b),
        _ => panic!("unexpected operand"),
    }

    let mut stack = stackify(Vec::new());
    assert_eq!(Err(Error::EmptyIterable), UnaryOp::MaxIn.process(&mut stack));
}

#[test]
fn step_by_zero_and_nth_overflow_error() {
    // A zero step is rejected outright; an index beyond the end is out
    // of bounds.
    assert!(matches!(
        Impl::step_by(Stream::of_vals(vec![i(1), i(2)]), 0),
        Err(Error::ZeroStep)
    ));
    assert_eq!(Err(Error::OutOfBounds), Impl::nth_s(vec![i(1)], 1));
}

#[test]
fn adaptors_cut_and_join_streams() {
    let st = Impl::step_by(Stream::of_vals(vec![i(0), i(1), i(2), i(3), i(4)]), 2).unwrap();
    match metatree::operator::force_stream(st) {
        Ok(vs) => assert_eq!(vec![i(0), i(2), i(4)], vs),
        Err(_) => panic!("unexpected error"),
    }

    let chained = Impl::chain_s(vec![i(1)], vec![i(2), i(3)]);
    assert_eq!(vec![i(1), i(2), i(3)], chained);

    assert_eq!(vec![i(3)], Impl::skip_s(vec![i(1), i(2), i(3)], 2));
    assert_eq!(vec![i(1), i(2)], Impl::take_s(vec![i(1), i(2), i(3)], 2));

    let inter = Impl::interleave_s(vec![i(1), i(3)], vec![i(2), i(4), i(5)]);
    assert_eq!(vec![i(1), i(2), i(3), i(4), i(5)], inter);

    let spersed = Impl::intersperse_s(vec![i(1), i(2), i(3)], i(0));
    assert_eq!(vec![i(1), i(0), i(2), i(0), i(3)], spersed);

    let zipped = Impl::zip_s(vec![i(1), i(2)], vec![i(3), i(4), i(5)]);
    assert_eq!(
        vec![
            MetaVal::Sequence(vec![i(1), i(3)]),
            MetaVal::Sequence(vec![i(2), i(4)]),
        ],
        zipped
    );
}

#[test]
fn collect_round_trip_keeps_first_and_count() {
    // Collecting an error-free stream keeps its length, and the first
    // collected value is the stream's first value.
    let source = vec![i(7), i(8), i(9)];

    let mut stack = stackify(source.clone_all());
    UnaryOp::First.process(&mut stack).expect("process failed");
    let first_direct = match stack.pop().expect("stack is empty") {
        Arg::Value(mv) => mv,
        _ => panic!("unexpected operand"),
    };

    let mut stack = stackify(source.clone_all());
    UnaryOp::Collect.process(&mut stack).expect("process failed");
    let collected = match stack.pop().expect("stack is empty") {
        Arg::Value(MetaVal::Sequence(seq)) => seq,
        _ => panic!("unexpected operand"),
    };

    assert_eq!(first_direct, collected[0].duplicate());
    assert_eq!(source.len(), collected.len());
}

#[test]
fn arithmetic_errors_are_reported() {
    let mut stack = stackify(vec![i(i64::MAX), i(1)]);
    assert_eq!(Err(Error::NumericOverflow), UnaryOp::Sum.process(&mut stack));

    let mut stack = stackify(vec![i(1), s("two")]);
    assert_eq!(Err(Error::NotNumeric), UnaryOp::Sum.process(&mut stack));

    let mut stack = vec![Arg::Value(MetaVal::Bul(true))];
    assert_eq!(Err(Error::NotIterable), UnaryOp::Count.process(&mut stack));

    let mut stack: Vec<Arg> = Vec::new();
    assert_eq!(Err(Error::EmptyStack), UnaryOp::Count.process(&mut stack));
}

#[test]
fn producers_transform_streams() {
    let flat = Flatten::new(Stream::of_vals(vec![
        MetaVal::Sequence(vec![i(1), i(2)]),
        i(3),
        MetaVal::Sequence(vec![]),
        i(4),
    ]));
    match metatree::operator::force_stream(flat.into_stream()) {
        Ok(vs) => assert_eq!(vec![i(1), i(2), i(3), i(4)], vs),
        Err(_) => panic!("unexpected error"),
    }

    let dedup = Dedup::new(Stream::of_vals(vec![i(1), i(1), i(2), i(2), i(1)]));
    match metatree::operator::force_stream(dedup.into_stream()) {
        Ok(vs) => assert_eq!(vec![i(1), i(2), i(1)], vs),
        Err(_) => panic!("unexpected error"),
    }

    let unique = Unique::new(Stream::of_vals(vec![i(1), i(1), i(2), i(2), i(1)]));
    match metatree::operator::force_stream(unique.into_stream()) {
        Ok(vs) => assert_eq!(vec![i(1), i(2)], vs),
        Err(_) => panic!("unexpected error"),
    }
}
