//! Lazy value streams and their producers.  A stream is a single-use
//! source of value results; producers wrap a stream and transform what it
//! yields.  Errors ride along as items and surface when a consumer forces
//! the stream.

use vstd::prelude::*;

use crate::values::MetaKey;
use crate::values::MetaVal;
use crate::values::ValSpec;
use crate::values::val_view;
use crate::values::vals_view;
use crate::values::entries_view;
use crate::values::lookup_entry;
use crate::values::lemma_vals_view_len;
use crate::values::lemma_vals_view_index;
use crate::values::lemma_entries_view_len;
use crate::values::lemma_entries_view_index;
use crate::sorter::PathInfo;

verus! {

/// What can go wrong while a script runs.
#[derive(Debug, Clone, Copy, PartialEq, Eq, Structural)]
pub enum Error {
    /// A placeholder error injected by tests.
    Sentinel,
    /// An operand that is neither a stream nor a sequence value.
    NotIterable,
    /// A value that is neither an integer nor a decimal.
    NotNumeric,
    /// An operand that is not a boolean value.
    NotBoolean,
    /// An operand that is not an unsigned machine integer.
    NotUsize,
    /// An operand that is not a predicate.
    NotPredicate,
    /// An operand that is not a converter.
    NotConverter,
    /// An operand that is not a producer.
    NotProducer,
    /// An index beyond the end of an iterable.
    OutOfBounds,
    /// No item satisfied the predicate.
    ItemNotFound,
    /// A reducer that needs at least one item got none.
    EmptyIterable,
    /// Two values of kinds the value order does not relate.
    NotComparable,
    /// A step of zero handed to the stepping adaptor.
    ZeroStep,
    /// An arithmetic result beyond the number representation.
    NumericOverflow,
    /// An error the underlying value stream reported.
    ValueStream,
    /// An operator that found no operand to pop.
    EmptyStack,
    /// A program that ended with more than one operand left.
    UnbalancedStack,
}

/// A total test over one value.
#[derive(Debug, Clone, Copy, PartialEq, Eq, Structural)]
pub enum Pred1 {
    IsNil,
    IsStr,
    IsInt,
    IsDec,
    IsBul,
    IsSequence,
    IsMapping,
    IsNumber,
}

/// What a predicate holds of a value.
pub open spec fn pred_spec(p: Pred1, v: ValSpec) -> bool {
    match p {
        Pred1::IsNil => v is Nil,
        Pred1::IsStr => v is Str,
        Pred1::IsInt => v is Int,
        Pred1::IsDec => v is Dec,
        Pred1::IsBul => v is Bul,
        Pred1::IsSequence => v is Sequence,
        Pred1::IsMapping => v is Mapping,
        Pred1::IsNumber => v is Int || v is Dec,
    }
}

impl Pred1 {
    /// Tests one value; predicates are total.
    pub fn test(&self, v: &MetaVal) -> (r: bool)
        ensures
            r == pred_spec(*self, v@),
    {
        match self {
            Pred1::IsNil => matches!(v, MetaVal::Nil),
            Pred1::IsStr => matches!(v, MetaVal::Str(_)),
            Pred1::IsInt => matches!(v, MetaVal::Int(_)),
            Pred1::IsDec => matches!(v, MetaVal::Dec(_)),
            Pred1::IsBul => matches!(v, MetaVal::Bul(_)),
            Pred1::IsSequence => matches!(v, MetaVal::Sequence(_)),
            Pred1::IsMapping => matches!(v, MetaVal::Mapping(_)),
            Pred1::IsNumber => matches!(v, MetaVal::Int(_)) || matches!(v, MetaVal::Dec(_)),
        }
    }
}

/// A fallible mapping over one value.
#[derive(Debug, PartialEq, Eq)]
pub enum UnaryConv {
    /// The value itself, unchanged.
    Identity,
    /// The entry a key names inside a mapping value; fails on other
    /// values and on a missing key.
    Access(MetaKey),
}

/// What a converter makes of a value.
pub open spec fn conv_spec(c: UnaryConv, v: ValSpec) -> Result<ValSpec, Error> {
    match c {
        UnaryConv::Identity => Ok(v),
        UnaryConv::Access(k) => match v {
            ValSpec::Mapping(es) => match lookup_entry(es, k@) {
                Some(v2) => Ok(v2),
                None => Err(Error::ItemNotFound),
            },
            _ => Err(Error::ItemNotFound),
        },
    }
}

impl UnaryConv {
    /// Converts one value, or reports why it cannot.
    pub fn convert(&self, v: MetaVal) -> (r: Result<MetaVal, Error>)
        ensures
            match r {
                Ok(v2) => conv_spec(*self, v@) == Ok::<ValSpec, Error>(v2@),
                Err(e) => conv_spec(*self, v@) == Err::<ValSpec, Error>(e),
            },
    {
        match self {
            UnaryConv::Identity => Ok(v),
            UnaryConv::Access(k) => {
                let ghost vv: ValSpec = v@;
                match v {
                    MetaVal::Mapping(mut es) => {
                        proof {
                            assert(vv == ValSpec::Mapping(entries_view(es@)));
                        }
                        match find_entry(&es, k) {
                            Some(j) => {
                                let kv: (MetaKey, MetaVal) = es.remove(j);
                                Ok(kv.1)
                            },
                            None => Err(Error::ItemNotFound),
                        }
                    },
                    _ => Err(Error::ItemNotFound),
                }
            },
        }
    }
}

/// The index of the first entry whose key matches, if any.
fn find_entry(es: &Vec<(MetaKey, MetaVal)>, k: &MetaKey) -> (r: Option<usize>)
    ensures
        match r {
            Some(j) => {
                &&& j < es@.len()
                &&& lookup_entry(entries_view(es@), k@) == Some(val_view(es@[j as int].1))
            },
            None => lookup_entry(entries_view(es@), k@) == None::<ValSpec>,
        },
{
    let n: usize = es.len();
    proof {
        lemma_entries_view_len(es@);
    }
    let mut i: usize = 0;
    while i < n
        invariant
            n == es@.len(),
            i <= n,
            forall|l: int| 0 <= l < i ==> es@[l].0@ != k@,
        decreases n - i,
    {
        proof {
            lemma_entries_view_index(es@, i as int);
        }
        if es[i].0.eq_key(k) {
            proof {
                assert forall|l: int| 0 <= l < i implies entries_view(es@)[l].0 != k@ by {
                    lemma_entries_view_index(es@, l);
                }
                crate::values::lemma_lookup_entry_at(entries_view(es@), k@, i as int);
            }
            return Some(i);
        }
        i = i + 1;
    }
    proof {
        assert forall|l: int| 0 <= l < es@.len() implies entries_view(es@)[l].0 != k@ by {
            lemma_entries_view_index(es@, l);
        }
        crate::values::lemma_lookup_entry_none(entries_view(es@), k@);
    }
    None
}

/// The views of a list of value results.
pub open spec fn sres_view(its: Seq<Result<MetaVal, Error>>) -> Seq<Result<ValSpec, Error>>
    decreases its,
{
    if its.len() == 0 {
        Seq::empty()
    } else {
        let head: Result<ValSpec, Error> = match its[0] {
            Ok(v) => Ok(val_view(v)),
            Err(e) => Err(e),
        };
        seq![head] + sres_view(its.subrange(1, its.len() as int))
    }
}

/// A result list's view has one element per item, in order.
pub broadcast proof fn lemma_sres_view_len(its: Seq<Result<MetaVal, Error>>)
    ensures
        #[trigger] sres_view(its).len() == its.len(),
    decreases its,
{
    if its.len() > 0 {
        lemma_sres_view_len(its.subrange(1, its.len() as int));
    }
}

/// Indexing a result list's view gives the view of the indexed item.
pub broadcast proof fn lemma_sres_view_index(its: Seq<Result<MetaVal, Error>>, i: int)
    requires
        0 <= i < its.len(),
    ensures
        sres_view(its).len() == its.len(),
        #[trigger] sres_view(its)[i] == match its[i] {
            Ok(v) => Ok::<ValSpec, Error>(val_view(v)),
            Err(e) => Err::<ValSpec, Error>(e),
        },
    decreases its,
{
    lemma_sres_view_len(its);
    if i > 0 {
        lemma_sres_view_index(its.subrange(1, its.len() as int), i - 1);
    }
}

/// Appending one result appends its view.
pub proof fn lemma_sres_snoc(
    before: Seq<Result<MetaVal, Error>>,
    after: Seq<Result<MetaVal, Error>>,
    x: Result<MetaVal, Error>,
)
    requires
        after == before.push(x),
    ensures
        sres_view(after) == sres_view(before).push(
            match x {
                Ok(v) => Ok::<ValSpec, Error>(val_view(v)),
                Err(e) => Err::<ValSpec, Error>(e),
            },
        ),
{
    lemma_sres_view_len(after);
    lemma_sres_view_len(before);
    let xv: Result<ValSpec, Error> = match x {
        Ok(v) => Ok(val_view(v)),
        Err(e) => Err(e),
    };
    assert forall|l: int| 0 <= l < after.len() implies sres_view(after)[l] == sres_view(
        before,
    ).push(xv)[l] by {
        lemma_sres_view_index(after, l);
        if l < before.len() {
            lemma_sres_view_index(before, l);
        }
    }
    assert(sres_view(after) =~= sres_view(before).push(xv));
}

/// Appends one result to a building list, tracking the view.
pub fn push_sres(items: &mut Vec<Result<MetaVal, Error>>, it: Result<MetaVal, Error>)
    ensures
        sres_view(final(items)@) == sres_view(old(items)@).push(
            match it {
                Ok(v) => Ok::<ValSpec, Error>(val_view(v)),
                Err(e) => Err::<ValSpec, Error>(e),
            },
        ),
{
    let ghost itg: Result<MetaVal, Error> = it;
    let ghost before: Seq<Result<MetaVal, Error>> = items@;
    items.push(it);
    proof {
        assert(items@ == before.push(itg));
        lemma_sres_snoc(before, items@, itg);
    }
}

/// A lazy, single-use stream of value results.
#[derive(Debug)]
pub struct Stream {
    items: Vec<Result<MetaVal, Error>>,
}

impl Stream {
    /// The items still to come, in order.
    pub closed spec fn remaining(self) -> Seq<Result<ValSpec, Error>> {
        sres_view(self.items@)
    }

    /// A stream over the given results.
    pub fn new(items: Vec<Result<MetaVal, Error>>) -> (r: Stream)
        ensures
            r.remaining() == sres_view(items@),
    {
        Stream { items }
    }

    /// A stream over plain values, none of them errors.
    pub fn of_vals(vals: Vec<MetaVal>) -> (r: Stream)
        ensures
            r.remaining() == all_ok(vals_view(vals@)),
    {
        let n: usize = vals.len();
        proof {
            lemma_vals_view_len(vals@);
        }
        let mut vals: Vec<MetaVal> = vals;
        let ghost vview: Seq<ValSpec> = vals_view(vals@);
        let mut items: Vec<Result<MetaVal, Error>> = Vec::new();
        let mut i: usize = 0;
        proof {
            assert(sres_view(items@) =~= all_ok(vview.subrange(0, 0)));
            assert forall|l: int| 0 <= l < n implies val_view(#[trigger] vals@[l]) == vview[l] by {
                lemma_vals_view_index(vals@, l);
            }
        }
        while i < n
            invariant
                vals@.len() == n - i,
                vview.len() == n,
                i <= n,
                forall|l: int| 0 <= l < n - i ==> val_view(#[trigger] vals@[l]) == vview[i + l],
                sres_view(items@) == all_ok(vview.subrange(0, i as int)),
            decreases n - i,
        {
            let ghost vals_before: Seq<MetaVal> = vals@;
            let v: MetaVal = vals.remove(0);
            proof {
                assert(val_view(v) == vview[i as int]);
                assert(forall|l: int|
                    0 <= l < n - i - 1 ==> #[trigger] vals@[l] == vals_before[l + 1]);
            }
            push_sres(&mut items, Ok(v));
            proof {
                assert(sres_view(items@) =~= all_ok(vview.subrange(0, i as int + 1)));
            }
            i = i + 1;
        }
        proof {
            assert(vview.subrange(0, n as int) =~= vview);
        }
        Stream { items }
    }

    /// How many items are still to come.
    pub fn len(&self) -> (r: usize)
        ensures
            r == self.remaining().len(),
    {
        proof {
            lemma_sres_view_len(self.items@);
        }
        self.items.len()
    }

    /// Hands out the next item.
    pub fn next(&mut self) -> (r: Option<Result<MetaVal, Error>>)
        ensures
            match r {
                Some(it) => {
                    &&& old(self).remaining().len() > 0
                    &&& (match it {
                        Ok(v) => Ok::<ValSpec, Error>(val_view(v)),
                        Err(e) => Err::<ValSpec, Error>(e),
                    }) == old(self).remaining()[0]
                    &&& final(self).remaining() == old(self).remaining().subrange(
                        1,
                        old(self).remaining().len() as int,
                    )
                },
                None => {
                    &&& old(self).remaining().len() == 0
                    &&& final(self).remaining() == old(self).remaining()
                },
            },
    {
        proof {
            lemma_sres_view_len(self.items@);
        }
        if self.items.len() == 0 {
            return None;
        }
        let ghost before: Seq<Result<MetaVal, Error>> = self.items@;
        let it: Result<MetaVal, Error> = self.items.remove(0);
        proof {
            assert(self.items@ =~= before.subrange(1, before.len() as int));
            lemma_sres_view_index(before, 0);
        }
        Some(it)
    }

    /// Takes all remaining items at once, in order.
    pub fn into_items(self) -> (r: Vec<Result<MetaVal, Error>>)
        ensures
            sres_view(r@) == self.remaining(),
    {
        self.items
    }
}

/// A sequence of values, each marked successful.
pub open spec fn all_ok(vs: Seq<ValSpec>) -> Seq<Result<ValSpec, Error>> {
    vs.map_values(|v: ValSpec| Ok::<ValSpec, Error>(v))
}

/// A stream seeded from resolved `(path, value)` pairs: the values in
/// order, with each failed pair surfacing as a value-stream error.
#[derive(Debug)]
pub struct Source {
    inner: Stream,
}

impl Source {
    /// The items still to come, in order.
    pub closed spec fn remaining(self) -> Seq<Result<ValSpec, Error>> {
        self.inner.remaining()
    }

    /// Seeds a source from resolved pairs.
    pub fn new(pairs: Vec<Result<(PathInfo, MetaVal), String>>) -> (r: Source)
        ensures
            r.remaining().len() == pairs@.len(),
            forall|i: int|
                0 <= i < pairs@.len() ==> r.remaining()[i] == match #[trigger] pairs@[i] {
                    Ok(pv) => Ok::<ValSpec, Error>(val_view(pv.1)),
                    Err(_) => Err::<ValSpec, Error>(Error::ValueStream),
                },
    {
        let n: usize = pairs.len();
        let mut pairs: Vec<Result<(PathInfo, MetaVal), String>> = pairs;
        let ghost pview: Seq<Result<(PathInfo, MetaVal), String>> = pairs@;
        let mut items: Vec<Result<MetaVal, Error>> = Vec::new();
        let mut i: usize = 0;
        while i < n
            invariant
                pview.len() == n,
                pairs@ == pview.subrange(i as int, n as int),
                i <= n,
                sres_view(items@).len() == i,
                forall|l: int|
                    0 <= l < i ==> sres_view(items@)[l] == match #[trigger] pview[l] {
                        Ok(pv) => Ok::<ValSpec, Error>(val_view(pv.1)),
                        Err(_) => Err::<ValSpec, Error>(Error::ValueStream),
                    },
            decreases n - i,
        {
            proof {
                assert(pairs@[0] == pview[i as int]);
            }
            let ghost items_before: Seq<Result<MetaVal, Error>> = items@;
            let head: Result<(PathInfo, MetaVal), String> = pairs.remove(0);
            proof {
                assert(pairs@ =~= pview.subrange(i as int + 1, n as int));
            }
            match head {
                Ok(pv) => {
                    push_sres(&mut items, Ok(pv.1));
                },
                Err(_) => {
                    push_sres(&mut items, Err(Error::ValueStream));
                },
            }
            proof {
                assert(forall|l: int|
                    0 <= l < i ==> #[trigger] sres_view(items@)[l] == sres_view(
                        items_before,
                    )[l]);
            }
            i = i + 1;
        }
        Source { inner: Stream::new(items) }
    }

    /// Hands out the next item.
    pub fn next(&mut self) -> (r: Option<Result<MetaVal, Error>>)
        ensures
            stream_next_post(old(self).remaining(), final(self).remaining(), r),
    {
        self.inner.next()
    }

    /// The stream of what this producer still yields.
    pub fn into_stream(self) -> (r: Stream)
        ensures
            r.remaining() == self.remaining(),
    {
        self.inner
    }
}

/// The contract every producer's `next` satisfies: the head of what
/// remained comes out, and the rest remains.
pub open spec fn stream_next_post(
    before: Seq<Result<ValSpec, Error>>,
    after: Seq<Result<ValSpec, Error>>,
    r: Option<Result<MetaVal, Error>>,
) -> bool {
    match r {
        Some(it) => {
            &&& before.len() > 0
            &&& (match it {
                Ok(v) => Ok::<ValSpec, Error>(val_view(v)),
                Err(e) => Err::<ValSpec, Error>(e),
            }) == before[0]
            &&& after == before.subrange(1, before.len() as int)
        },
        None => {
            &&& before.len() == 0
            &&& after == before
        },
    }
}

/// A stream over a fixed list of plain values.
#[derive(Debug)]
pub struct Fixed {
    inner: Stream,
}

impl Fixed {
    /// The items still to come, in order.
    pub closed spec fn remaining(self) -> Seq<Result<ValSpec, Error>> {
        self.inner.remaining()
    }

    /// A producer over the given values, none of them errors.
    pub fn new(v: Vec<MetaVal>) -> (r: Fixed)
        ensures
            r.remaining() == all_ok(vals_view(v@)),
    {
        Fixed { inner: Stream::of_vals(v) }
    }

    /// Hands out the next item.
    pub fn next(&mut self) -> (r: Option<Result<MetaVal, Error>>)
        ensures
            stream_next_post(old(self).remaining(), final(self).remaining(), r),
    {
        self.inner.next()
    }

    /// The stream of what this producer still yields.
    pub fn into_stream(self) -> (r: Stream)
        ensures
            r.remaining() == self.remaining(),
    {
        self.inner
    }
}

/// A stream over a fixed list of value results, taken as they are.
#[derive(Debug)]
pub struct Raw {
    inner: Stream,
}

impl Raw {
    /// The items still to come, in order.
    pub closed spec fn remaining(self) -> Seq<Result<ValSpec, Error>> {
        self.inner.remaining()
    }

    /// A producer over the given results.
    pub fn new(v: Vec<Result<MetaVal, Error>>) -> (r: Raw)
        ensures
            r.remaining() == sres_view(v@),
    {
        Raw { inner: Stream::new(v) }
    }

    /// Hands out the next item.
    pub fn next(&mut self) -> (r: Option<Result<MetaVal, Error>>)
        ensures
            stream_next_post(old(self).remaining(), final(self).remaining(), r),
    {
        self.inner.next()
    }

    /// The stream of what this producer still yields.
    pub fn into_stream(self) -> (r: Stream)
        ensures
            r.remaining() == self.remaining(),
    {
        self.inner
    }
}

/// One level of sequence unrolling: a successful sequence value spreads
/// into its elements; everything else passes through.
pub open spec fn flatten_spec(s: Seq<Result<ValSpec, Error>>) -> Seq<Result<ValSpec, Error>>
    decreases s.len(),
{
    if s.len() == 0 {
        Seq::empty()
    } else {
        let rest = flatten_spec(s.subrange(1, s.len() as int));
        match s[0] {
            Ok(ValSpec::Sequence(es)) => all_ok(es) + rest,
            other => seq![other] + rest,
        }
    }
}

/// A producer that unrolls one level of sequence values.
#[derive(Debug)]
pub struct Flatten {
    inner: Stream,
}

impl Flatten {
    /// The items still to come, in order.
    pub closed spec fn remaining(self) -> Seq<Result<ValSpec, Error>> {
        self.inner.remaining()
    }

    /// Wraps a stream, unrolling each successful sequence value by one
    /// level.
    pub fn new(upstream: Stream) -> (r: Flatten)
        ensures
            r.remaining() == flatten_spec(upstream.remaining()),
    {
        let ghost inview: Seq<Result<ValSpec, Error>> = upstream.remaining();
        let mut input: Vec<Result<MetaVal, Error>> = upstream.into_items();
        let n: usize = input.len();
        proof {
            lemma_sres_view_len(input@);
        }
        let mut items: Vec<Result<MetaVal, Error>> = Vec::new();
        let mut i: usize = 0;
        proof {
            assert(inview.subrange(0, n as int) =~= inview);
            assert(sres_view(items@) + flatten_spec(inview) =~= flatten_spec(inview));
        }
        while i < n
            invariant
                inview.len() == n,
                sres_view(input@) == inview.subrange(i as int, n as int),
                i <= n,
                flatten_spec(inview) == sres_view(items@) + flatten_spec(
                    inview.subrange(i as int, n as int),
                ),
            decreases n - i,
        {
            let ghost rest = inview.subrange(i as int, n as int);
            proof {
                lemma_sres_view_len(input@);
                lemma_sres_view_index(input@, 0);
                assert(rest[0] == inview[i as int]);
                assert(rest.subrange(1, rest.len() as int) =~= inview.subrange(
                    i as int + 1,
                    n as int,
                ));
            }
            let ghost input_before: Seq<Result<MetaVal, Error>> = input@;
            let head: Result<MetaVal, Error> = input.remove(0);
            proof {
                assert(input@ =~= input_before.subrange(1, input_before.len() as int));
                assert(sres_view(input@) =~= inview.subrange(i as int + 1, n as int));
            }
            let ghost items_before: Seq<Result<MetaVal, Error>> = items@;
            match head {
                Ok(MetaVal::Sequence(vs)) => {
                    let ghost es: Seq<ValSpec> = vals_view(vs@);
                    proof {
                        assert(rest[0] == Ok::<ValSpec, Error>(ValSpec::Sequence(es)));
                        crate::values::lemma_vals_view_len(vs@);
                    }
                    let m: usize = vs.len();
                    let mut vs: Vec<MetaVal> = vs;
                    let mut j: usize = 0;
                    proof {
                        assert forall|l: int| 0 <= l < m implies val_view(#[trigger] vs@[l])
                            == es[l] by {
                            lemma_vals_view_index(vs@, l);
                        }
                        assert(sres_view(items@) + all_ok(es.subrange(0, 0))
                            =~= sres_view(items@));
                    }
                    while j < m
                        invariant
                            es.len() == m,
                            vs@.len() == m - j,
                            j <= m,
                            forall|l: int|
                                0 <= l < m - j ==> val_view(#[trigger] vs@[l]) == es[j + l],
                            sres_view(items@) == sres_view(items_before) + all_ok(
                                es.subrange(0, j as int),
                            ),
                        decreases m - j,
                    {
                        let ghost vs_before: Seq<MetaVal> = vs@;
                        let v: MetaVal = vs.remove(0);
                        proof {
                            assert(val_view(v) == es[j as int]);
                            assert(forall|l: int|
                                0 <= l < m - j - 1 ==> #[trigger] vs@[l] == vs_before[l + 1]);
                        }
                        push_sres(&mut items, Ok(v));
                        proof {
                            assert(sres_view(items@) =~= sres_view(items_before) + all_ok(
                                es.subrange(0, j as int + 1),
                            ));
                        }
                        j = j + 1;
                    }
                    proof {
                        assert(es.subrange(0, m as int) =~= es);
                        assert(flatten_spec(rest) == all_ok(es) + flatten_spec(
                            inview.subrange(i as int + 1, n as int),
                        ));
                        assert((sres_view(items_before) + all_ok(es)) + flatten_spec(
                            inview.subrange(i as int + 1, n as int),
                        ) =~= sres_view(items_before) + (all_ok(es) + flatten_spec(
                            inview.subrange(i as int + 1, n as int),
                        )));
                    }
                },
                Ok(other) => {
                    let ghost ov: ValSpec = val_view(other);
                    proof {
                        assert(rest[0] == Ok::<ValSpec, Error>(ov));
                        assert(!(ov is Sequence));
                        assert(flatten_spec(rest) == seq![Ok::<ValSpec, Error>(ov)]
                            + flatten_spec(inview.subrange(i as int + 1, n as int)));
                    }
                    push_sres(&mut items, Ok(other));
                    proof {
                        assert(sres_view(items@) =~= sres_view(items_before).push(
                            Ok::<ValSpec, Error>(ov),
                        ));
                        assert(sres_view(items_before) + (seq![Ok::<ValSpec, Error>(ov)]
                            + flatten_spec(inview.subrange(i as int + 1, n as int)))
                            =~= sres_view(items@) + flatten_spec(
                            inview.subrange(i as int + 1, n as int),
                        ));
                    }
                },
                Err(e) => {
                    proof {
                        assert(rest[0] == Err::<ValSpec, Error>(e));
                        assert(flatten_spec(rest) == seq![Err::<ValSpec, Error>(e)]
                            + flatten_spec(inview.subrange(i as int + 1, n as int)));
                    }
                    push_sres(&mut items, Err(e));
                    proof {
                        assert(sres_view(items@) =~= sres_view(items_before).push(
                            Err::<ValSpec, Error>(e),
                        ));
                        assert(sres_view(items_before) + (seq![Err::<ValSpec, Error>(e)]
                            + flatten_spec(inview.subrange(i as int + 1, n as int)))
                            =~= sres_view(items@) + flatten_spec(
                            inview.subrange(i as int + 1, n as int),
                        ));
                    }
                },
            }
            i = i + 1;
        }
        proof {
            assert(inview.subrange(n as int, n as int) =~= Seq::<
                Result<ValSpec, Error>,
            >::empty());
            assert(sres_view(items@) + Seq::<Result<ValSpec, Error>>::empty() =~= sres_view(
                items@,
            ));
        }
        Flatten { inner: Stream::new(items) }
    }

    /// Hands out the next item.
    pub fn next(&mut self) -> (r: Option<Result<MetaVal, Error>>)
        ensures
            stream_next_post(old(self).remaining(), final(self).remaining(), r),
    {
        self.inner.next()
    }

    /// The stream of what this producer still yields.
    pub fn into_stream(self) -> (r: Stream)
        ensures
            r.remaining() == self.remaining(),
    {
        self.inner
    }
}

/// Adjacent duplicate removal: a successful value equal to the last
/// successful value emitted is skipped; errors pass through and do not
/// disturb what counts as the last value.
pub open spec fn dedup_spec(s: Seq<Result<ValSpec, Error>>, last: Option<ValSpec>) -> Seq<
    Result<ValSpec, Error>,
>
    decreases s.len(),
{
    if s.len() == 0 {
        Seq::empty()
    } else {
        let rest = s.subrange(1, s.len() as int);
        match s[0] {
            Err(e) => seq![Err::<ValSpec, Error>(e)] + dedup_spec(rest, last),
            Ok(v) => if last == Some(v) {
                dedup_spec(rest, last)
            } else {
                seq![Ok::<ValSpec, Error>(v)] + dedup_spec(rest, Some(v))
            },
        }
    }
}

/// A producer that removes adjacent duplicates.
#[derive(Debug)]
pub struct Dedup {
    inner: Stream,
}

impl Dedup {
    /// The items still to come, in order.
    pub closed spec fn remaining(self) -> Seq<Result<ValSpec, Error>> {
        self.inner.remaining()
    }

    /// Wraps a stream, removing each successful value equal to the one
    /// emitted just before it.
    pub fn new(upstream: Stream) -> (r: Dedup)
        ensures
            r.remaining() == dedup_spec(upstream.remaining(), None::<ValSpec>),
    {
        let ghost inview: Seq<Result<ValSpec, Error>> = upstream.remaining();
        let mut input: Vec<Result<MetaVal, Error>> = upstream.into_items();
        let n: usize = input.len();
        proof {
            lemma_sres_view_len(input@);
        }
        let mut items: Vec<Result<MetaVal, Error>> = Vec::new();
        let mut last: Option<MetaVal> = None;
        let mut i: usize = 0;
        proof {
            assert(inview.subrange(0, n as int) =~= inview);
            assert(sres_view(items@) + dedup_spec(inview, None::<ValSpec>) =~= dedup_spec(
                inview,
                None::<ValSpec>,
            ));
        }
        while i < n
            invariant
                inview.len() == n,
                sres_view(input@) == inview.subrange(i as int, n as int),
                i <= n,
                dedup_spec(inview, None::<ValSpec>) == sres_view(items@) + dedup_spec(
                    inview.subrange(i as int, n as int),
                    opt_val_view(last),
                ),
            decreases n - i,
        {
            let ghost rest = inview.subrange(i as int, n as int);
            let ghost lastv: Option<ValSpec> = opt_val_view(last);
            proof {
                lemma_sres_view_len(input@);
                lemma_sres_view_index(input@, 0);
                assert(rest[0] == inview[i as int]);
                assert(rest.subrange(1, rest.len() as int) =~= inview.subrange(
                    i as int + 1,
                    n as int,
                ));
            }
            let ghost input_before: Seq<Result<MetaVal, Error>> = input@;
            let head: Result<MetaVal, Error> = input.remove(0);
            proof {
                assert(input@ =~= input_before.subrange(1, input_before.len() as int));
                assert(sres_view(input@) =~= inview.subrange(i as int + 1, n as int));
            }
            let ghost items_before: Seq<Result<MetaVal, Error>> = items@;
            match head {
                Err(e) => {
                    proof {
                        assert(dedup_spec(rest, lastv) == seq![Err::<ValSpec, Error>(e)]
                            + dedup_spec(inview.subrange(i as int + 1, n as int), lastv));
                    }
                    push_sres(&mut items, Err(e));
                    proof {
                        assert(sres_view(items_before) + (seq![Err::<ValSpec, Error>(e)]
                            + dedup_spec(inview.subrange(i as int + 1, n as int), lastv))
                            =~= sres_view(items@) + dedup_spec(
                            inview.subrange(i as int + 1, n as int),
                            lastv,
                        ));
                    }
                },
                Ok(v) => {
                    let ghost vv: ValSpec = val_view(v);
                    let same: bool = match &last {
                        Some(prev) => prev.eq_val(&v),
                        None => false,
                    };
                    proof {
                        assert(same <==> lastv == Some(vv));
                    }
                    if !same {
                        let keep: MetaVal = v.duplicate();
                        push_sres(&mut items, Ok(v));
                        last = Some(keep);
                        proof {
                            assert(opt_val_view(last) == Some(vv));
                            assert(dedup_spec(rest, lastv) == seq![Ok::<ValSpec, Error>(vv)]
                                + dedup_spec(
                                inview.subrange(i as int + 1, n as int),
                                Some(vv),
                            ));
                            assert(sres_view(items_before) + (seq![Ok::<ValSpec, Error>(vv)]
                                + dedup_spec(
                                inview.subrange(i as int + 1, n as int),
                                Some(vv),
                            )) =~= sres_view(items@) + dedup_spec(
                                inview.subrange(i as int + 1, n as int),
                                Some(vv),
                            ));
                        }
                    } else {
                        proof {
                            assert(dedup_spec(rest, lastv) == dedup_spec(
                                inview.subrange(i as int + 1, n as int),
                                lastv,
                            ));
                        }
                    }
                },
            }
            i = i + 1;
        }
        proof {
            assert(inview.subrange(n as int, n as int) =~= Seq::<
                Result<ValSpec, Error>,
            >::empty());
            assert(sres_view(items@) + Seq::<Result<ValSpec, Error>>::empty() =~= sres_view(
                items@,
            ));
        }
        Dedup { inner: Stream::new(items) }
    }

    /// Hands out the next item.
    pub fn next(&mut self) -> (r: Option<Result<MetaVal, Error>>)
        ensures
            stream_next_post(old(self).remaining(), final(self).remaining(), r),
    {
        self.inner.next()
    }

    /// The stream of what this producer still yields.
    pub fn into_stream(self) -> (r: Stream)
        ensures
            r.remaining() == self.remaining(),
    {
        self.inner
    }
}

/// The view of an optional value.
pub open spec fn opt_val_view(o: Option<MetaVal>) -> Option<ValSpec> {
    match o {
        Some(v) => Some(val_view(v)),
        None => None,
    }
}

/// Whole-history duplicate removal: a successful value seen before is
/// skipped, wherever it stood; errors pass through.
pub open spec fn unique_spec(s: Seq<Result<ValSpec, Error>>, seen: Seq<ValSpec>) -> Seq<
    Result<ValSpec, Error>,
>
    decreases s.len(),
{
    if s.len() == 0 {
        Seq::empty()
    } else {
        let rest = s.subrange(1, s.len() as int);
        match s[0] {
            Err(e) => seq![Err::<ValSpec, Error>(e)] + unique_spec(rest, seen),
            Ok(v) => if seen.contains(v) {
                unique_spec(rest, seen)
            } else {
                seq![Ok::<ValSpec, Error>(v)] + unique_spec(rest, seen.push(v))
            },
        }
    }
}

/// A producer that removes all duplicates across the whole history.
#[derive(Debug)]
pub struct Unique {
    inner: Stream,
}

impl Unique {
    /// The items still to come, in order.
    pub closed spec fn remaining(self) -> Seq<Result<ValSpec, Error>> {
        self.inner.remaining()
    }

    /// Wraps a stream, keeping only the first occurrence of each
    /// successful value.
    pub fn new(upstream: Stream) -> (r: Unique)
        ensures
            r.remaining() == unique_spec(upstream.remaining(), Seq::<ValSpec>::empty()),
    {
        let ghost inview: Seq<Result<ValSpec, Error>> = upstream.remaining();
        let mut input: Vec<Result<MetaVal, Error>> = upstream.into_items();
        let n: usize = input.len();
        proof {
            lemma_sres_view_len(input@);
        }
        let mut items: Vec<Result<MetaVal, Error>> = Vec::new();
        let mut seen: Vec<MetaVal> = Vec::new();
        let mut i: usize = 0;
        proof {
            assert(inview.subrange(0, n as int) =~= inview);
            assert(vals_view(seen@) =~= Seq::<ValSpec>::empty());
            assert(sres_view(items@) + unique_spec(inview, Seq::<ValSpec>::empty())
                =~= unique_spec(inview, Seq::<ValSpec>::empty()));
        }
        while i < n
            invariant
                inview.len() == n,
                sres_view(input@) == inview.subrange(i as int, n as int),
                i <= n,
                unique_spec(inview, Seq::<ValSpec>::empty()) == sres_view(items@) + unique_spec(
                    inview.subrange(i as int, n as int),
                    vals_view(seen@),
                ),
            decreases n - i,
        {
            let ghost rest = inview.subrange(i as int, n as int);
            let ghost seenv: Seq<ValSpec> = vals_view(seen@);
            proof {
                lemma_sres_view_len(input@);
                lemma_sres_view_index(input@, 0);
                assert(rest[0] == inview[i as int]);
                assert(rest.subrange(1, rest.len() as int) =~= inview.subrange(
                    i as int + 1,
                    n as int,
                ));
            }
            let ghost input_before: Seq<Result<MetaVal, Error>> = input@;
            let head: Result<MetaVal, Error> = input.remove(0);
            proof {
                assert(input@ =~= input_before.subrange(1, input_before.len() as int));
                assert(sres_view(input@) =~= inview.subrange(i as int + 1, n as int));
            }
            let ghost items_before: Seq<Result<MetaVal, Error>> = items@;
            match head {
                Err(e) => {
                    proof {
                        assert(unique_spec(rest, seenv) == seq![Err::<ValSpec, Error>(e)]
                            + unique_spec(inview.subrange(i as int + 1, n as int), seenv));
                    }
                    push_sres(&mut items, Err(e));
                    proof {
                        assert(sres_view(items_before) + (seq![Err::<ValSpec, Error>(e)]
                            + unique_spec(inview.subrange(i as int + 1, n as int), seenv))
                            =~= sres_view(items@) + unique_spec(
                            inview.subrange(i as int + 1, n as int),
                            seenv,
                        ));
                    }
                },
                Ok(v) => {
                    let ghost vv: ValSpec = val_view(v);
                    let dup: bool = contains_val(&seen, &v);
                    if !dup {
                        let keep: MetaVal = v.duplicate();
                        push_sres(&mut items, Ok(v));
                        let ghost seen_before: Seq<MetaVal> = seen@;
                        let ghost keepg: MetaVal = keep;
                        seen.push(keep);
                        proof {
                            assert(seen@ == seen_before.push(keepg));
                            crate::values::lemma_vals_view_snoc(seen_before, seen@, keepg);
                            assert(vals_view(seen@) =~= seenv.push(vv));
                            assert(unique_spec(rest, seenv) == seq![Ok::<ValSpec, Error>(vv)]
                                + unique_spec(
                                inview.subrange(i as int + 1, n as int),
                                seenv.push(vv),
                            ));
                            assert(sres_view(items_before) + (seq![Ok::<ValSpec, Error>(vv)]
                                + unique_spec(
                                inview.subrange(i as int + 1, n as int),
                                seenv.push(vv),
                            )) =~= sres_view(items@) + unique_spec(
                                inview.subrange(i as int + 1, n as int),
                                seenv.push(vv),
                            ));
                        }
                    } else {
                        proof {
                            assert(unique_spec(rest, seenv) == unique_spec(
                                inview.subrange(i as int + 1, n as int),
                                seenv,
                            ));
                        }
                    }
                },
            }
            i = i + 1;
        }
        proof {
            assert(inview.subrange(n as int, n as int) =~= Seq::<
                Result<ValSpec, Error>,
            >::empty());
            assert(sres_view(items@) + Seq::<Result<ValSpec, Error>>::empty() =~= sres_view(
                items@,
            ));
        }
        Unique { inner: Stream::new(items) }
    }

    /// Hands out the next item.
    pub fn next(&mut self) -> (r: Option<Result<MetaVal, Error>>)
        ensures
            stream_next_post(old(self).remaining(), final(self).remaining(), r),
    {
        self.inner.next()
    }

    /// The stream of what this producer still yields.
    pub fn into_stream(self) -> (r: Stream)
        ensures
            r.remaining() == self.remaining(),
    {
        self.inner
    }
}

/// Whether a list of values holds one equal to the given value.
fn contains_val(seen: &Vec<MetaVal>, v: &MetaVal) -> (r: bool)
    ensures
        r <==> vals_view(seen@).contains(v@),
{
    let n: usize = seen.len();
    proof {
        lemma_vals_view_len(seen@);
    }
    let mut i: usize = 0;
    while i < n
        invariant
            n == seen@.len(),
            i <= n,
            forall|l: int| 0 <= l < i ==> vals_view(seen@)[l] != v@,
        decreases n - i,
    {
        proof {
            lemma_vals_view_index(seen@, i as int);
        }
        if seen[i].eq_val(v) {
            proof {
                assert(vals_view(seen@)[i as int] == v@);
            }
            return true;
        }
        i = i + 1;
    }
    proof {
        if vals_view(seen@).contains(v@) {
            let l = choose|l: int|
                0 <= l < vals_view(seen@).len() && vals_view(seen@)[l] == v@;
        }
    }
    false
}

/// Keeping only the successful values a predicate accepts; errors pass
/// through.
pub open spec fn filter_spec(s: Seq<Result<ValSpec, Error>>, p: Pred1) -> Seq<
    Result<ValSpec, Error>,
>
    decreases s.len(),
{
    if s.len() == 0 {
        Seq::empty()
    } else {
        let rest = filter_spec(s.subrange(1, s.len() as int), p);
        match s[0] {
            Err(e) => seq![Err::<ValSpec, Error>(e)] + rest,
            Ok(v) => if pred_spec(p, v) {
                seq![Ok::<ValSpec, Error>(v)] + rest
            } else {
                rest
            },
        }
    }
}

/// A producer that keeps only the values its predicate accepts.
#[derive(Debug)]
pub struct Filter {
    inner: Stream,
}

impl Filter {
    /// The items still to come, in order.
    pub closed spec fn remaining(self) -> Seq<Result<ValSpec, Error>> {
        self.inner.remaining()
    }

    /// Wraps a stream, keeping the values the predicate accepts.
    pub fn new(upstream: Stream, pred: Pred1) -> (r: Filter)
        ensures
            r.remaining() == filter_spec(upstream.remaining(), pred),
    {
        let ghost inview: Seq<Result<ValSpec, Error>> = upstream.remaining();
        let mut input: Vec<Result<MetaVal, Error>> = upstream.into_items();
        let n: usize = input.len();
        proof {
            lemma_sres_view_len(input@);
        }
        let mut items: Vec<Result<MetaVal, Error>> = Vec::new();
        let mut i: usize = 0;
        proof {
            assert(inview.subrange(0, n as int) =~= inview);
            assert(sres_view(items@) + filter_spec(inview, pred) =~= filter_spec(inview, pred));
        }
        while i < n
            invariant
                inview.len() == n,
                sres_view(input@) == inview.subrange(i as int, n as int),
                i <= n,
                filter_spec(inview, pred) == sres_view(items@) + filter_spec(
                    inview.subrange(i as int, n as int),
                    pred,
                ),
            decreases n - i,
        {
            let ghost rest = inview.subrange(i as int, n as int);
            proof {
                lemma_sres_view_len(input@);
                lemma_sres_view_index(input@, 0);
                assert(rest[0] == inview[i as int]);
                assert(rest.subrange(1, rest.len() as int) =~= inview.subrange(
                    i as int + 1,
                    n as int,
                ));
            }
            let ghost input_before: Seq<Result<MetaVal, Error>> = input@;
            let head: Result<MetaVal, Error> = input.remove(0);
            proof {
                assert(input@ =~= input_before.subrange(1, input_before.len() as int));
                assert(sres_view(input@) =~= inview.subrange(i as int + 1, n as int));
            }
            let ghost items_before: Seq<Result<MetaVal, Error>> = items@;
            match head {
                Err(e) => {
                    push_sres(&mut items, Err(e));
                    proof {
                        assert(sres_view(items_before) + (seq![Err::<ValSpec, Error>(e)]
                            + filter_spec(inview.subrange(i as int + 1, n as int), pred))
                            =~= sres_view(items@) + filter_spec(
                            inview.subrange(i as int + 1, n as int),
                            pred,
                        ));
                    }
                },
                Ok(v) => {
                    let ghost vv: ValSpec = val_view(v);
                    if pred.test(&v) {
                        push_sres(&mut items, Ok(v));
                        proof {
                            assert(sres_view(items_before) + (seq![Ok::<ValSpec, Error>(vv)]
                                + filter_spec(inview.subrange(i as int + 1, n as int), pred))
                                =~= sres_view(items@) + filter_spec(
                                inview.subrange(i as int + 1, n as int),
                                pred,
                            ));
                        }
                    } else {
                        proof {
                            assert(filter_spec(rest, pred) == filter_spec(
                                inview.subrange(i as int + 1, n as int),
                                pred,
                            ));
                        }
                    }
                },
            }
            i = i + 1;
        }
        proof {
            assert(inview.subrange(n as int, n as int) =~= Seq::<
                Result<ValSpec, Error>,
            >::empty());
            assert(sres_view(items@) + Seq::<Result<ValSpec, Error>>::empty() =~= sres_view(
                items@,
            ));
        }
        Filter { inner: Stream::new(items) }
    }

    /// Hands out the next item.
    pub fn next(&mut self) -> (r: Option<Result<MetaVal, Error>>)
        ensures
            stream_next_post(old(self).remaining(), final(self).remaining(), r),
    {
        self.inner.next()
    }

    /// The stream of what this producer still yields.
    pub fn into_stream(self) -> (r: Stream)
        ensures
            r.remaining() == self.remaining(),
    {
        self.inner
    }
}

/// Converting each successful value; a conversion failure becomes the
/// item's error, and upstream errors pass through.
pub open spec fn mapc_spec(s: Seq<Result<ValSpec, Error>>, c: UnaryConv) -> Seq<
    Result<ValSpec, Error>,
>
    decreases s.len(),
{
    if s.len() == 0 {
        Seq::empty()
    } else {
        let rest = mapc_spec(s.subrange(1, s.len() as int), c);
        let head: Result<ValSpec, Error> = match s[0] {
            Err(e) => Err(e),
            Ok(v) => conv_spec(c, v),
        };
        seq![head] + rest
    }
}

/// A producer that converts each successful value.
#[derive(Debug)]
pub struct MapConv {
    inner: Stream,
}

impl MapConv {
    /// The items still to come, in order.
    pub closed spec fn remaining(self) -> Seq<Result<ValSpec, Error>> {
        self.inner.remaining()
    }

    /// Wraps a stream, converting each value it yields.
    pub fn new(upstream: Stream, conv: UnaryConv) -> (r: MapConv)
        ensures
            r.remaining() == mapc_spec(upstream.remaining(), conv),
    {
        let ghost inview: Seq<Result<ValSpec, Error>> = upstream.remaining();
        let mut input: Vec<Result<MetaVal, Error>> = upstream.into_items();
        let n: usize = input.len();
        proof {
            lemma_sres_view_len(input@);
        }
        let mut items: Vec<Result<MetaVal, Error>> = Vec::new();
        let mut i: usize = 0;
        proof {
            assert(inview.subrange(0, n as int) =~= inview);
            assert(sres_view(items@) + mapc_spec(inview, conv) =~= mapc_spec(inview, conv));
        }
        while i < n
            invariant
                inview.len() == n,
                sres_view(input@) == inview.subrange(i as int, n as int),
                i <= n,
                mapc_spec(inview, conv) == sres_view(items@) + mapc_spec(
                    inview.subrange(i as int, n as int),
                    conv,
                ),
            decreases n - i,
        {
            let ghost rest = inview.subrange(i as int, n as int);
            proof {
                lemma_sres_view_len(input@);
                lemma_sres_view_index(input@, 0);
                assert(rest[0] == inview[i as int]);
                assert(rest.subrange(1, rest.len() as int) =~= inview.subrange(
                    i as int + 1,
                    n as int,
                ));
            }
            let ghost input_before: Seq<Result<MetaVal, Error>> = input@;
            let head: Result<MetaVal, Error> = input.remove(0);
            proof {
                assert(input@ =~= input_before.subrange(1, input_before.len() as int));
                assert(sres_view(input@) =~= inview.subrange(i as int + 1, n as int));
            }
            let ghost items_before: Seq<Result<MetaVal, Error>> = items@;
            let ghost headv: Result<ValSpec, Error> = match rest[0] {
                Err(e) => Err(e),
                Ok(v) => conv_spec(conv, v),
            };
            proof {
                assert(mapc_spec(rest, conv) == seq![headv] + mapc_spec(
                    inview.subrange(i as int + 1, n as int),
                    conv,
                ));
            }
            match head {
                Err(e) => {
                    push_sres(&mut items, Err(e));
                },
                Ok(v) => {
                    match conv.convert(v) {
                        Ok(v2) => {
                            push_sres(&mut items, Ok(v2));
                        },
                        Err(e) => {
                            push_sres(&mut items, Err(e));
                        },
                    }
                },
            }
            proof {
                assert(sres_view(items@) =~= sres_view(items_before).push(headv));
                assert(sres_view(items_before) + (seq![headv] + mapc_spec(
                    inview.subrange(i as int + 1, n as int),
                    conv,
                )) =~= sres_view(items@) + mapc_spec(
                    inview.subrange(i as int + 1, n as int),
                    conv,
                ));
            }
            i = i + 1;
        }
        proof {
            assert(inview.subrange(n as int, n as int) =~= Seq::<
                Result<ValSpec, Error>,
            >::empty());
            assert(sres_view(items@) + Seq::<Result<ValSpec, Error>>::empty() =~= sres_view(
                items@,
            ));
        }
        MapConv { inner: Stream::new(items) }
    }

    /// Hands out the next item.
    pub fn next(&mut self) -> (r: Option<Result<MetaVal, Error>>)
        ensures
            stream_next_post(old(self).remaining(), final(self).remaining(), r),
    {
        self.inner.next()
    }

    /// The stream of what this producer still yields.
    pub fn into_stream(self) -> (r: Stream)
        ensures
            r.remaining() == self.remaining(),
    {
        self.inner
    }
}

} // verus!
