//! The operator library of the script engine: consumers that force an
//! iterable into one value, and adaptors that wrap it into another
//! iterable.  Each operator has a stream form and a sequence form, and
//! both are pinned to the same specifications.

use vstd::prelude::*;

use crate::stream::Error;
use crate::stream::Filter;
use crate::stream::MapConv;
use crate::stream::Pred1;
use crate::stream::Stream;
use crate::stream::UnaryConv;
use crate::stream::all_ok;
use crate::stream::conv_spec;
use crate::stream::filter_spec;
use crate::stream::mapc_spec;
use crate::stream::pred_spec;
use crate::stream::push_sres;
use crate::stream::sres_view;
use crate::stream::lemma_sres_view_len;
use crate::stream::lemma_sres_view_index;
use crate::values::MetaVal;
use crate::values::ValSpec;
use crate::values::val_view;
use crate::values::vals_view;
use crate::values::lemma_vals_view_len;
use crate::values::lemma_vals_view_index;
use crate::values::lemma_vals_view_snoc;

verus! {

/// An operand that can be iterated: a lazy stream or an eager sequence.
#[derive(Debug)]
pub enum IterableLike {
    Stream(Stream),
    Sequence(Vec<MetaVal>),
}

impl IterableLike {
    /// Whether this iterable is a lazy stream.
    pub fn is_lazy(&self) -> (r: bool)
        ensures
            r == (self is Stream),
    {
        matches!(self, IterableLike::Stream(_))
    }

    /// Whether this iterable is an eager sequence.
    pub fn is_eager(&self) -> (r: bool)
        ensures
            r == (self is Sequence),
    {
        !self.is_lazy()
    }

    /// The item results this iterable will yield, in order.
    pub open spec fn items_spec(self) -> Seq<Result<ValSpec, Error>> {
        match self {
            IterableLike::Stream(st) => st.remaining(),
            IterableLike::Sequence(vs) => all_ok(vals_view(vs@)),
        }
    }

    /// The stream of this iterable's items.
    pub fn into_stream(self) -> (r: Stream)
        ensures
            r.remaining() == self.items_spec(),
    {
        match self {
            IterableLike::Stream(st) => st,
            IterableLike::Sequence(vs) => Stream::of_vals(vs),
        }
    }
}

/// Forcing a stream: the values up to the end, or the first error met.
pub open spec fn force_spec(s: Seq<Result<ValSpec, Error>>) -> Result<Seq<ValSpec>, Error>
    decreases s.len(),
{
    if s.len() == 0 {
        Ok(Seq::empty())
    } else {
        match s[0] {
            Err(e) => Err(e),
            Ok(v) => match force_spec(s.subrange(1, s.len() as int)) {
                Ok(vs) => Ok(seq![v] + vs),
                Err(e) => Err(e),
            },
        }
    }
}

/// Forcing an all-successful stream yields exactly its values.
pub proof fn lemma_force_all_ok(vs: Seq<ValSpec>)
    ensures
        force_spec(all_ok(vs)) == Ok::<Seq<ValSpec>, Error>(vs),
    decreases vs.len(),
{
    let s = all_ok(vs);
    if vs.len() == 0 {
        assert(force_spec(s) == Ok::<Seq<ValSpec>, Error>(Seq::empty()));
        assert(vs =~= Seq::<ValSpec>::empty());
    } else {
        assert(s[0] == Ok::<ValSpec, Error>(vs[0]));
        assert(s.subrange(1, s.len() as int) =~= all_ok(vs.subrange(1, vs.len() as int)));
        lemma_force_all_ok(vs.subrange(1, vs.len() as int));
        assert(seq![vs[0]] + vs.subrange(1, vs.len() as int) =~= vs);
    }
}

/// Forces a stream into the list of its values, or the first error met.
#[verifier::loop_isolation(false)]
pub fn force_stream(vp: Stream) -> (r: Result<Vec<MetaVal>, Error>)
    ensures
        match r {
            Ok(out) => force_spec(vp.remaining()) == Ok::<Seq<ValSpec>, Error>(vals_view(out@)),
            Err(e) => force_spec(vp.remaining()) == Err::<Seq<ValSpec>, Error>(e),
        },
{
    let ghost inview: Seq<Result<ValSpec, Error>> = vp.remaining();
    let mut input: Vec<Result<MetaVal, Error>> = vp.into_items();
    let n: usize = input.len();
    proof {
        lemma_sres_view_len(input@);
    }
    let mut out: Vec<MetaVal> = Vec::new();
    let mut i: usize = 0;
    proof {
        assert(inview.subrange(0, n as int) =~= inview);
        assert(vals_view(out@) =~= Seq::<ValSpec>::empty());
    }
    while i < n
        invariant
            inview.len() == n,
            sres_view(input@) == inview.subrange(i as int, n as int),
            i <= n,
            force_spec(inview) == match force_spec(inview.subrange(i as int, n as int)) {
                Ok(vs) => Ok::<Seq<ValSpec>, Error>(vals_view(out@) + vs),
                Err(e) => Err::<Seq<ValSpec>, Error>(e),
            },
        decreases n - i,
    {
        let ghost rest = inview.subrange(i as int, n as int);
        proof {
            lemma_sres_view_len(input@);
            lemma_sres_view_index(input@, 0);
            assert(rest[0] == inview[i as int]);
            assert(rest.subrange(1, rest.len() as int) =~= inview.subrange(
                i as int + 1,
                n as int,
            ));
        }
        let ghost input_before: Seq<Result<MetaVal, Error>> = input@;
        let head: Result<MetaVal, Error> = input.remove(0);
        proof {
            assert(input@ =~= input_before.subrange(1, input_before.len() as int));
            assert(sres_view(input@) =~= inview.subrange(i as int + 1, n as int));
        }
        match head {
            Err(e) => {
                return Err(e);
            },
            Ok(v) => {
                let ghost out_before: Seq<MetaVal> = out@;
                let ghost vg: MetaVal = v;
                out.push(v);
                proof {
                    assert(out@ == out_before.push(vg));
                    lemma_vals_view_snoc(out_before, out@, vg);
                    match force_spec(inview.subrange(i as int + 1, n as int)) {
                        Ok(vs) => {
                            assert(vals_view(out_before) + (seq![val_view(vg)] + vs)
                                =~= vals_view(out@) + vs);
                        },
                        Err(_) => {},
                    }
                }
            },
        }
        i = i + 1;
    }
    proof {
        assert(inview.subrange(n as int, n as int) =~= Seq::<Result<ValSpec, Error>>::empty());
        assert(vals_view(out@) + Seq::<ValSpec>::empty() =~= vals_view(out@));
    }
    Ok(out)
}

/// The item at an index, or the first error met before it, or an
/// out-of-bounds report where the stream is too short.
pub open spec fn nth_spec(s: Seq<Result<ValSpec, Error>>, n: int) -> Result<ValSpec, Error>
    decreases s.len(),
{
    if s.len() == 0 {
        Err(Error::OutOfBounds)
    } else {
        match s[0] {
            Err(e) => Err(e),
            Ok(v) => if n == 0 {
                Ok(v)
            } else {
                nth_spec(s.subrange(1, s.len() as int), n - 1)
            },
        }
    }
}

/// Whether every value satisfies the predicate, or the first error met
/// before a failing value.
pub open spec fn all_spec(s: Seq<Result<ValSpec, Error>>, p: Pred1) -> Result<bool, Error>
    decreases s.len(),
{
    if s.len() == 0 {
        Ok(true)
    } else {
        match s[0] {
            Err(e) => Err(e),
            Ok(v) => if !pred_spec(p, v) {
                Ok(false)
            } else {
                all_spec(s.subrange(1, s.len() as int), p)
            },
        }
    }
}

/// Whether some value satisfies the predicate, or the first error met
/// before a satisfying value.
pub open spec fn any_spec(s: Seq<Result<ValSpec, Error>>, p: Pred1) -> Result<bool, Error>
    decreases s.len(),
{
    if s.len() == 0 {
        Ok(false)
    } else {
        match s[0] {
            Err(e) => Err(e),
            Ok(v) => if pred_spec(p, v) {
                Ok(true)
            } else {
                any_spec(s.subrange(1, s.len() as int), p)
            },
        }
    }
}

/// The first value satisfying the predicate, the first error met before
/// it, or a not-found report.
pub open spec fn find_spec(s: Seq<Result<ValSpec, Error>>, p: Pred1) -> Result<ValSpec, Error>
    decreases s.len(),
{
    if s.len() == 0 {
        Err(Error::ItemNotFound)
    } else {
        match s[0] {
            Err(e) => Err(e),
            Ok(v) => if pred_spec(p, v) {
                Ok(v)
            } else {
                find_spec(s.subrange(1, s.len() as int), p)
            },
        }
    }
}

/// The position of the first value satisfying the predicate, under the
/// same error rules as [`find_spec`].
pub open spec fn position_spec(s: Seq<Result<ValSpec, Error>>, p: Pred1) -> Result<int, Error>
    decreases s.len(),
{
    if s.len() == 0 {
        Err(Error::ItemNotFound)
    } else {
        match s[0] {
            Err(e) => Err(e),
            Ok(v) => if pred_spec(p, v) {
                Ok(0)
            } else {
                match position_spec(s.subrange(1, s.len() as int), p) {
                    Ok(i) => Ok(i + 1),
                    Err(e) => Err(e),
                }
            },
        }
    }
}

/// Namespace for the implementations of the operator library.
#[derive(Debug)]
pub struct Impl;

/// Whether a scan short-circuits on every value or on any value.
#[derive(Debug, Clone, Copy, PartialEq, Eq)]
enum AllAny {
    All,
    Any,
}

impl AllAny {
    /// The truth value that ends the scan early.
    fn target(self) -> (r: bool)
        ensures
            r == (self is Any),
    {
        match self {
            AllAny::All => false,
            AllAny::Any => true,
        }
    }
}

impl Impl {
    /// The item at an index of a stream.
    #[verifier::loop_isolation(false)]
    pub fn nth(vp: Stream, n: usize) -> (r: Result<MetaVal, Error>)
        ensures
            match r {
                Ok(v) => nth_spec(vp.remaining(), n as int) == Ok::<ValSpec, Error>(v@),
                Err(e) => nth_spec(vp.remaining(), n as int) == Err::<ValSpec, Error>(e),
            },
    {
        let ghost inview: Seq<Result<ValSpec, Error>> = vp.remaining();
        let mut vp: Stream = vp;
        let mut i: usize = 0;
        loop
            invariant
                i <= n,
                nth_spec(inview, n as int) == nth_spec(vp.remaining(), n as int - i),
            decreases vp.remaining().len() + (n - i),
        {
            let ghost rem = vp.remaining();
            match vp.next() {
                None => {
                    return Err(Error::OutOfBounds);
                },
                Some(it) => {
                    proof {
                        assert(vp.remaining() =~= rem.subrange(1, rem.len() as int));
                    }
                    match it {
                        Err(e) => {
                            return Err(e);
                        },
                        Ok(v) => {
                            if i == n {
                                return Ok(v);
                            }
                            i = i + 1;
                        },
                    }
                },
            }
        }
    }

    /// The item at an index of a sequence.
    pub fn nth_s(seq_vals: Vec<MetaVal>, n: usize) -> (r: Result<MetaVal, Error>)
        ensures
            match r {
                Ok(v) => n < vals_view(seq_vals@).len() && v@ == vals_view(seq_vals@)[n as int],
                Err(e) => n >= vals_view(seq_vals@).len() && e == Error::OutOfBounds,
            },
    {
        proof {
            lemma_vals_view_len(seq_vals@);
        }
        if n < seq_vals.len() {
            let mut seq_vals: Vec<MetaVal> = seq_vals;
            let ghost s0: Seq<MetaVal> = seq_vals@;
            let v: MetaVal = seq_vals.remove(n);
            proof {
                lemma_vals_view_index(s0, n as int);
            }
            Ok(v)
        } else {
            Err(Error::OutOfBounds)
        }
    }

    /// Whether every or any value of a stream meets the predicate.
    #[verifier::loop_isolation(false)]
    fn all_any(vp: Stream, u_pred: &Pred1, flag: AllAny) -> (r: Result<bool, Error>)
        ensures
            match flag {
                AllAny::All => (match r {
                    Ok(b) => all_spec(vp.remaining(), *u_pred) == Ok::<bool, Error>(b),
                    Err(e) => all_spec(vp.remaining(), *u_pred) == Err::<bool, Error>(e),
                }),
                AllAny::Any => (match r {
                    Ok(b) => any_spec(vp.remaining(), *u_pred) == Ok::<bool, Error>(b),
                    Err(e) => any_spec(vp.remaining(), *u_pred) == Err::<bool, Error>(e),
                }),
            },
    {
        let ghost inview: Seq<Result<ValSpec, Error>> = vp.remaining();
        let target: bool = flag.target();
        let mut vp: Stream = vp;
        loop
            invariant
                flag is All ==> all_spec(inview, *u_pred) == all_spec(vp.remaining(), *u_pred),
                flag is Any ==> any_spec(inview, *u_pred) == any_spec(vp.remaining(), *u_pred),
                target == (flag is Any),
            decreases vp.remaining().len(),
        {
            let ghost rem = vp.remaining();
            match vp.next() {
                None => {
                    return Ok(!target);
                },
                Some(it) => {
                    proof {
                        assert(vp.remaining() =~= rem.subrange(1, rem.len() as int));
                    }
                    match it {
                        Err(e) => {
                            return Err(e);
                        },
                        Ok(v) => {
                            if u_pred.test(&v) == target {
                                return Ok(target);
                            }
                        },
                    }
                },
            }
        }
    }

    /// Whether every value of a stream meets the predicate.
    pub fn all(vp: Stream, u_pred: &Pred1) -> (r: Result<bool, Error>)
        ensures
            match r {
                Ok(b) => all_spec(vp.remaining(), *u_pred) == Ok::<bool, Error>(b),
                Err(e) => all_spec(vp.remaining(), *u_pred) == Err::<bool, Error>(e),
            },
    {
        Self::all_any(vp, u_pred, AllAny::All)
    }

    /// Whether every value of a sequence meets the predicate.
    pub fn all_s(seq_vals: Vec<MetaVal>, u_pred: &Pred1) -> (r: bool)
        ensures
            r == forall|i: int|
                0 <= i < vals_view(seq_vals@).len() ==> pred_spec(
                    *u_pred,
                    #[trigger] vals_view(seq_vals@)[i],
                ),
    {
        let ghost vs: Seq<ValSpec> = vals_view(seq_vals@);
        let st: Stream = Stream::of_vals(seq_vals);
        let r: Result<bool, Error> = Self::all_any(st, u_pred, AllAny::All);
        proof {
            lemma_all_spec_all_ok(vs, *u_pred);
        }
        match r {
            Ok(b) => b,
            Err(_) => {
                proof {
                    assert(false);
                }
                false
            },
        }
    }

    /// Whether any value of a stream meets the predicate.
    pub fn any(vp: Stream, u_pred: &Pred1) -> (r: Result<bool, Error>)
        ensures
            match r {
                Ok(b) => any_spec(vp.remaining(), *u_pred) == Ok::<bool, Error>(b),
                Err(e) => any_spec(vp.remaining(), *u_pred) == Err::<bool, Error>(e),
            },
    {
        Self::all_any(vp, u_pred, AllAny::Any)
    }

    /// Whether any value of a sequence meets the predicate.
    pub fn any_s(seq_vals: Vec<MetaVal>, u_pred: &Pred1) -> (r: bool)
        ensures
            r == exists|i: int|
                0 <= i < vals_view(seq_vals@).len() && pred_spec(
                    *u_pred,
                    #[trigger] vals_view(seq_vals@)[i],
                ),
    {
        let ghost vs: Seq<ValSpec> = vals_view(seq_vals@);
        let st: Stream = Stream::of_vals(seq_vals);
        let r: Result<bool, Error> = Self::all_any(st, u_pred, AllAny::Any);
        proof {
            lemma_any_spec_all_ok(vs, *u_pred);
        }
        match r {
            Ok(b) => b,
            Err(_) => {
                proof {
                    assert(false);
                }
                false
            },
        }
    }

    /// The first value of a stream meeting the predicate.
    #[verifier::loop_isolation(false)]
    pub fn find(vp: Stream, u_pred: &Pred1) -> (r: Result<MetaVal, Error>)
        ensures
            match r {
                Ok(v) => find_spec(vp.remaining(), *u_pred) == Ok::<ValSpec, Error>(v@),
                Err(e) => find_spec(vp.remaining(), *u_pred) == Err::<ValSpec, Error>(e),
            },
    {
        let ghost inview: Seq<Result<ValSpec, Error>> = vp.remaining();
        let mut vp: Stream = vp;
        loop
            invariant
                find_spec(inview, *u_pred) == find_spec(vp.remaining(), *u_pred),
            decreases vp.remaining().len(),
        {
            let ghost rem = vp.remaining();
            match vp.next() {
                None => {
                    return Err(Error::ItemNotFound);
                },
                Some(it) => {
                    proof {
                        assert(vp.remaining() =~= rem.subrange(1, rem.len() as int));
                    }
                    match it {
                        Err(e) => {
                            return Err(e);
                        },
                        Ok(v) => {
                            if u_pred.test(&v) {
                                return Ok(v);
                            }
                        },
                    }
                },
            }
        }
    }

    /// The first value of a sequence meeting the predicate.
    pub fn find_s(seq_vals: Vec<MetaVal>, u_pred: &Pred1) -> (r: Result<MetaVal, Error>)
        ensures
            match r {
                Ok(v) => find_spec(all_ok(vals_view(seq_vals@)), *u_pred) == Ok::<
                    ValSpec,
                    Error,
                >(v@),
                Err(e) => find_spec(all_ok(vals_view(seq_vals@)), *u_pred) == Err::<
                    ValSpec,
                    Error,
                >(e),
            },
    {
        Self::find(Stream::of_vals(seq_vals), u_pred)
    }

    /// The position of the first value of a stream meeting the predicate.
    #[verifier::loop_isolation(false)]
    pub fn position(vp: Stream, u_pred: &Pred1) -> (r: Result<usize, Error>)
        ensures
            match r {
                Ok(i) => position_spec(vp.remaining(), *u_pred) == Ok::<int, Error>(i as int),
                Err(e) => position_spec(vp.remaining(), *u_pred) == Err::<int, Error>(e),
            },
    {
        let ghost inview: Seq<Result<ValSpec, Error>> = vp.remaining();
        let total: usize = vp.len();
        let mut vp: Stream = vp;
        let mut i: usize = 0;
        loop
            invariant
                position_spec(inview, *u_pred) == match position_spec(
                    vp.remaining(),
                    *u_pred,
                ) {
                    Ok(j) => Ok::<int, Error>(j + i),
                    Err(e) => Err::<int, Error>(e),
                },
                vp.remaining().len() + i <= total,
            decreases vp.remaining().len(),
        {
            let ghost rem = vp.remaining();
            match vp.next() {
                None => {
                    return Err(Error::ItemNotFound);
                },
                Some(it) => {
                    proof {
                        assert(vp.remaining() =~= rem.subrange(1, rem.len() as int));
                    }
                    match it {
                        Err(e) => {
                            return Err(e);
                        },
                        Ok(v) => {
                            if u_pred.test(&v) {
                                return Ok(i);
                            }
                            i = i + 1;
                        },
                    }
                },
            }
        }
    }

    /// The position of the first value of a sequence meeting the
    /// predicate.
    pub fn position_s(seq_vals: Vec<MetaVal>, u_pred: &Pred1) -> (r: Result<usize, Error>)
        ensures
            match r {
                Ok(i) => position_spec(all_ok(vals_view(seq_vals@)), *u_pred) == Ok::<
                    int,
                    Error,
                >(i as int),
                Err(e) => position_spec(all_ok(vals_view(seq_vals@)), *u_pred) == Err::<
                    int,
                    Error,
                >(e),
            },
    {
        Self::position(Stream::of_vals(seq_vals), u_pred)
    }
}

/// Every item of a sequence of results is successful.
pub open spec fn oks_only(s: Seq<Result<ValSpec, Error>>) -> bool {
    forall|i: int| 0 <= i < s.len() ==> (#[trigger] s[i]) is Ok
}

/// Forcing a stream of successes yields exactly their values.
pub proof fn lemma_force_oks(s: Seq<Result<ValSpec, Error>>)
    requires
        oks_only(s),
    ensures
        force_spec(s) is Ok,
        all_ok(force_spec(s)->Ok_0) == s,
    decreases s.len(),
{
    if s.len() == 0 {
        assert(all_ok(force_spec(s)->Ok_0) =~= s);
    } else {
        assert(s[0] is Ok);
        let tail = s.subrange(1, s.len() as int);
        assert(forall|i: int| 0 <= i < tail.len() ==> (#[trigger] tail[i]) is Ok);
        lemma_force_oks(tail);
        let vs = force_spec(s)->Ok_0;
        assert(vs == seq![s[0]->Ok_0] + force_spec(tail)->Ok_0);
        assert forall|l: int| 0 <= l < s.len() implies all_ok(vs)[l] == s[l] by {
            if l > 0 {
                assert(all_ok(force_spec(tail)->Ok_0)[l - 1] == tail[l - 1]);
                assert(vs[l] == force_spec(tail)->Ok_0[l - 1]);
            }
        }
        assert(all_ok(force_spec(s)->Ok_0) =~= s);
    }
}

/// Every `k`-th item of a stream, starting with the first.
pub open spec fn step_spec(s: Seq<Result<ValSpec, Error>>, k: int) -> Seq<
    Result<ValSpec, Error>,
>
    decreases s.len(),
{
    if s.len() == 0 || k < 1 {
        Seq::empty()
    } else if s.len() <= k {
        seq![s[0]]
    } else {
        seq![s[0]] + step_spec(s.subrange(k, s.len() as int), k)
    }
}

/// Pairing two streams positionally: each pair becomes a two-element
/// sequence value; an error on either side becomes the pair's error, the
/// left side first.
pub open spec fn zip_spec(a: Seq<Result<ValSpec, Error>>, b: Seq<Result<ValSpec, Error>>) -> Seq<
    Result<ValSpec, Error>,
>
    decreases a.len(),
{
    if a.len() == 0 || b.len() == 0 {
        Seq::empty()
    } else {
        let head: Result<ValSpec, Error> = match (a[0], b[0]) {
            (Err(e), _) => Err(e),
            (Ok(_), Err(e)) => Err(e),
            (Ok(va), Ok(vb)) => Ok(ValSpec::Sequence(seq![va, vb])),
        };
        seq![head] + zip_spec(a.subrange(1, a.len() as int), b.subrange(1, b.len() as int))
    }
}

/// Dropping the leading values a predicate accepts; the first error or
/// rejected value ends the dropping and everything from it on stays.
pub open spec fn skip_while_spec(s: Seq<Result<ValSpec, Error>>, p: Pred1) -> Seq<
    Result<ValSpec, Error>,
>
    decreases s.len(),
{
    if s.len() == 0 {
        s
    } else {
        match s[0] {
            Err(_) => s,
            Ok(v) => if pred_spec(p, v) {
                skip_while_spec(s.subrange(1, s.len() as int), p)
            } else {
                s
            },
        }
    }
}

/// Keeping the leading values a predicate accepts; an error is emitted
/// and ends the stream, and the first rejected value ends it silently.
pub open spec fn take_while_spec(s: Seq<Result<ValSpec, Error>>, p: Pred1) -> Seq<
    Result<ValSpec, Error>,
>
    decreases s.len(),
{
    if s.len() == 0 {
        s
    } else {
        match s[0] {
            Err(e) => seq![Err::<ValSpec, Error>(e)],
            Ok(v) => if pred_spec(p, v) {
                seq![Ok::<ValSpec, Error>(v)] + take_while_spec(
                    s.subrange(1, s.len() as int),
                    p,
                )
            } else {
                Seq::empty()
            },
        }
    }
}

/// The separator value slipped between every two adjacent items.
pub open spec fn intersperse_spec(s: Seq<Result<ValSpec, Error>>, sep: ValSpec) -> Seq<
    Result<ValSpec, Error>,
>
    decreases s.len(),
{
    if s.len() <= 1 {
        s
    } else {
        seq![s[0], Ok::<ValSpec, Error>(sep)] + intersperse_spec(
            s.subrange(1, s.len() as int),
            sep,
        )
    }
}

/// The items of two streams alternating, starting on the left; when one
/// side runs out the other continues alone.
pub open spec fn interleave_spec(
    a: Seq<Result<ValSpec, Error>>,
    b: Seq<Result<ValSpec, Error>>,
) -> Seq<Result<ValSpec, Error>>
    decreases a.len() + b.len(),
{
    if a.len() == 0 {
        b
    } else {
        seq![a[0]] + interleave_spec(b, a.subrange(1, a.len() as int))
    }
}

impl Impl {
    /// Every `k`-th item of a stream; a step of zero is an error.
    pub fn step_by(vp: Stream, step: usize) -> (r: Result<Stream, Error>)
        ensures
            match r {
                Ok(out) => step != 0 && out.remaining() == step_spec(
                    vp.remaining(),
                    step as int,
                ),
                Err(e) => step == 0 && e == Error::ZeroStep,
            },
    {
        if step == 0 {
            return Err(Error::ZeroStep);
        }
        let ghost inview: Seq<Result<ValSpec, Error>> = vp.remaining();
        let input: Vec<Result<MetaVal, Error>> = vp.into_items();
        let n: usize = input.len();
        proof {
            lemma_sres_view_len(input@);
        }
        let mut items: Vec<Result<MetaVal, Error>> = Vec::new();
        let mut i: usize = 0;
        proof {
            assert(inview.subrange(0, n as int) =~= inview);
            assert(sres_view(items@) + step_spec(inview, step as int) =~= step_spec(
                inview,
                step as int,
            ));
        }
        #[verifier::loop_isolation(false)]
        while i < n
            invariant
                i <= n,
                step_spec(inview, step as int) == sres_view(items@) + step_spec(
                    inview.subrange(i as int, n as int),
                    step as int,
                ),
            decreases n - i,
        {
            let ghost rest = inview.subrange(i as int, n as int);
            proof {
                lemma_sres_view_index(input@, i as int);
                assert(rest[0] == inview[i as int]);
            }
            let ghost items_before: Seq<Result<MetaVal, Error>> = items@;
            let ghost headv: Result<ValSpec, Error> = rest[0];
            let head: Result<MetaVal, Error> = dup_res(&input[i]);
            push_sres(&mut items, head);
            proof {
                assert(sres_view(items@) =~= sres_view(items_before).push(headv));
            }
            if step < n - i {
                proof {
                    assert(rest.len() > step);
                    assert(rest.subrange(step as int, rest.len() as int) =~= inview.subrange(
                        i as int + step as int,
                        n as int,
                    ));
                    assert(step_spec(rest, step as int) == seq![headv] + step_spec(
                        inview.subrange(i as int + step as int, n as int),
                        step as int,
                    ));
                    assert(sres_view(items_before) + (seq![headv] + step_spec(
                        inview.subrange(i as int + step as int, n as int),
                        step as int,
                    )) =~= sres_view(items@) + step_spec(
                        inview.subrange(i as int + step as int, n as int),
                        step as int,
                    ));
                }
                i = i + step;
            } else {
                proof {
                    assert(rest.len() <= step);
                    assert(step_spec(rest, step as int) == seq![headv]);
                    assert(inview.subrange(n as int, n as int) =~= Seq::<
                        Result<ValSpec, Error>,
                    >::empty());
                    assert(step_spec(
                        inview.subrange(n as int, n as int),
                        step as int,
                    ) =~= Seq::<Result<ValSpec, Error>>::empty());
                    assert(sres_view(items_before) + seq![headv] =~= sres_view(items@));
                    assert(sres_view(items@) + Seq::<Result<ValSpec, Error>>::empty()
                        =~= sres_view(items@));
                }
                i = n;
            }
        }
        proof {
            assert(inview.subrange(n as int, n as int) =~= Seq::<
                Result<ValSpec, Error>,
            >::empty());
            assert(sres_view(items@) + Seq::<Result<ValSpec, Error>>::empty() =~= sres_view(
                items@,
            ));
        }
        Ok(Stream::new(items))
    }

    /// One stream, then the other.
    pub fn chain(vp_a: Stream, vp_b: Stream) -> (r: Stream)
        ensures
            r.remaining() == vp_a.remaining() + vp_b.remaining(),
    {
        let ghost av: Seq<Result<ValSpec, Error>> = vp_a.remaining();
        let ghost bv: Seq<Result<ValSpec, Error>> = vp_b.remaining();
        let mut items: Vec<Result<MetaVal, Error>> = vp_a.into_items();
        let mut more: Vec<Result<MetaVal, Error>> = vp_b.into_items();
        let n: usize = more.len();
        proof {
            lemma_sres_view_len(more@);
        }
        let mut i: usize = 0;
        proof {
            assert(sres_view(items@) + bv.subrange(0, 0) =~= sres_view(items@));
        }
        #[verifier::loop_isolation(false)]
        while more.len() > 0
            invariant
                sres_view(items@) + sres_view(more@) == av + bv,
            decreases more@.len(),
        {
            let ghost more_before: Seq<Result<MetaVal, Error>> = more@;
            let ghost items_before: Seq<Result<MetaVal, Error>> = items@;
            proof {
                lemma_sres_view_len(more@);
                lemma_sres_view_index(more@, 0);
            }
            let head: Result<MetaVal, Error> = more.remove(0);
            proof {
                assert(more@ =~= more_before.subrange(1, more_before.len() as int));
            }
            let ghost headv: Result<ValSpec, Error> = match &head {
                Ok(v) => Ok(val_view(*v)),
                Err(e) => Err(*e),
            };
            push_sres(&mut items, head);
            proof {
                assert(sres_view(more_before) =~= seq![headv] + sres_view(more@));
                assert(sres_view(items@) + sres_view(more@) =~= (sres_view(items_before)
                    + sres_view(more_before)));
            }
        }
        proof {
            lemma_sres_view_len(more@);
            assert(sres_view(more@) =~= Seq::<Result<ValSpec, Error>>::empty());
            assert(sres_view(items@) + sres_view(more@) =~= sres_view(items@));
        }
        Stream::new(items)
    }

    /// One sequence, then the other.
    pub fn chain_s(seq_a: Vec<MetaVal>, seq_b: Vec<MetaVal>) -> (r: Vec<MetaVal>)
        ensures
            vals_view(r@) == vals_view(seq_a@) + vals_view(seq_b@),
    {
        let ghost av: Seq<ValSpec> = vals_view(seq_a@);
        let ghost bv: Seq<ValSpec> = vals_view(seq_b@);
        let mut out: Vec<MetaVal> = seq_a;
        let mut more: Vec<MetaVal> = seq_b;
        proof {
            lemma_vals_view_len(more@);
            assert(vals_view(out@) + bv.subrange(0, 0) =~= vals_view(out@));
        }
        #[verifier::loop_isolation(false)]
        while more.len() > 0
            invariant
                vals_view(out@) + vals_view(more@) == av + bv,
            decreases more@.len(),
        {
            let ghost more_before: Seq<MetaVal> = more@;
            let ghost out_before: Seq<MetaVal> = out@;
            proof {
                lemma_vals_view_len(more@);
                lemma_vals_view_index(more@, 0);
            }
            let head: MetaVal = more.remove(0);
            let ghost headg: MetaVal = head;
            proof {
                assert(more@ =~= more_before.subrange(1, more_before.len() as int));
            }
            out.push(head);
            proof {
                assert(out@ == out_before.push(headg));
                lemma_vals_view_snoc(out_before, out@, headg);
                assert(vals_view(more_before) =~= seq![val_view(headg)] + vals_view(more@));
                assert(vals_view(out@) + vals_view(more@) =~= vals_view(out_before)
                    + vals_view(more_before));
            }
        }
        proof {
            lemma_vals_view_len(more@);
            assert(vals_view(more@) =~= Seq::<ValSpec>::empty());
            assert(vals_view(out@) + vals_view(more@) =~= vals_view(out@));
        }
        out
    }

    /// Pairs two streams positionally into two-element sequence values.
    pub fn zip(vp_a: Stream, vp_b: Stream) -> (r: Stream)
        ensures
            r.remaining() == zip_spec(vp_a.remaining(), vp_b.remaining()),
    {
        let ghost av: Seq<Result<ValSpec, Error>> = vp_a.remaining();
        let ghost bv: Seq<Result<ValSpec, Error>> = vp_b.remaining();
        let mut a: Stream = vp_a;
        let mut b: Stream = vp_b;
        let mut items: Vec<Result<MetaVal, Error>> = Vec::new();
        proof {
            assert(sres_view(items@) + zip_spec(av, bv) =~= zip_spec(av, bv));
        }
        #[verifier::loop_isolation(false)]
        loop
            invariant
                zip_spec(av, bv) == sres_view(items@) + zip_spec(a.remaining(), b.remaining()),
            decreases a.remaining().len(),
        {
            let ghost arem = a.remaining();
            let ghost brem = b.remaining();
            if a.len() == 0 || b.len() == 0 {
                proof {
                    assert(zip_spec(arem, brem) =~= Seq::<Result<ValSpec, Error>>::empty());
                    assert(sres_view(items@) + zip_spec(arem, brem) =~= sres_view(items@));
                }
                return Stream::new(items);
            }
            let ha: Result<MetaVal, Error> = match a.next() {
                Some(it) => it,
                None => {
                    proof {
                        assert(false);
                    }
                    Err(Error::Sentinel)
                },
            };
            let hb: Result<MetaVal, Error> = match b.next() {
                Some(it) => it,
                None => {
                    proof {
                        assert(false);
                    }
                    Err(Error::Sentinel)
                },
            };
            proof {
                assert(a.remaining() =~= arem.subrange(1, arem.len() as int));
                assert(b.remaining() =~= brem.subrange(1, brem.len() as int));
            }
            let ghost items_before: Seq<Result<MetaVal, Error>> = items@;
            let ghost headv: Result<ValSpec, Error> = match (arem[0], brem[0]) {
                (Err(e), _) => Err(e),
                (Ok(_), Err(e)) => Err(e),
                (Ok(va), Ok(vb)) => Ok(ValSpec::Sequence(seq![va, vb])),
            };
            match (ha, hb) {
                (Err(e), _) => {
                    push_sres(&mut items, Err(e));
                },
                (Ok(_), Err(e)) => {
                    push_sres(&mut items, Err(e));
                },
                (Ok(va), Ok(vb)) => {
                    let mut pair: Vec<MetaVal> = Vec::new();
                    let ghost vag: MetaVal = va;
                    let ghost vbg: MetaVal = vb;
                    pair.push(va);
                    pair.push(vb);
                    proof {
                        assert(pair@ =~= seq![vag, vbg]);
                        crate::values::lemma_vals_view_len(pair@);
                        crate::values::lemma_vals_view_index(pair@, 0);
                        crate::values::lemma_vals_view_index(pair@, 1);
                        assert(vals_view(pair@) =~= seq![val_view(vag), val_view(vbg)]);
                    }
                    push_sres(&mut items, Ok(MetaVal::Sequence(pair)));
                },
            }
            proof {
                assert(sres_view(items@) =~= items_view_push(items_before, headv));
                assert(zip_spec(arem, brem) == seq![headv] + zip_spec(
                    a.remaining(),
                    b.remaining(),
                ));
                assert(sres_view(items_before) + (seq![headv] + zip_spec(
                    a.remaining(),
                    b.remaining(),
                )) =~= sres_view(items@) + zip_spec(a.remaining(), b.remaining()));
            }
        }
    }

    /// All items of a stream but the first `n`.
    pub fn skip(vp: Stream, n: usize) -> (r: Stream)
        ensures
            r.remaining() == if n < vp.remaining().len() {
                vp.remaining().subrange(n as int, vp.remaining().len() as int)
            } else {
                Seq::<Result<ValSpec, Error>>::empty()
            },
    {
        let ghost inview: Seq<Result<ValSpec, Error>> = vp.remaining();
        let mut input: Vec<Result<MetaVal, Error>> = vp.into_items();
        proof {
            lemma_sres_view_len(input@);
        }
        let k: usize = if n <= input.len() {
            n
        } else {
            input.len()
        };
        let mut i: usize = 0;
        proof {
            assert(sres_view(input@) =~= inview.subrange(0, inview.len() as int));
        }
        #[verifier::loop_isolation(false)]
        while i < k
            invariant
                i <= k,
                k <= inview.len(),
                sres_view(input@) == inview.subrange(i as int, inview.len() as int),
            decreases k - i,
        {
            let ghost inp_before: Seq<Result<MetaVal, Error>> = input@;
            proof {
                lemma_sres_view_len(input@);
            }
            let _ = input.remove(0);
            proof {
                assert(input@ =~= inp_before.subrange(1, inp_before.len() as int));
                lemma_sres_view_tail(inp_before);
                assert(sres_view(input@) =~= inview.subrange(i + 1, inview.len() as int));
            }
            i = i + 1;
        }
        proof {
            if n >= inview.len() {
                assert(sres_view(input@) =~= Seq::<Result<ValSpec, Error>>::empty());
            }
        }
        Stream::new(input)
    }

    /// All values of a sequence but the first `n`.
    pub fn skip_s(seq_vals: Vec<MetaVal>, n: usize) -> (r: Vec<MetaVal>)
        ensures
            vals_view(r@) == if n < vals_view(seq_vals@).len() {
                vals_view(seq_vals@).subrange(n as int, vals_view(seq_vals@).len() as int)
            } else {
                Seq::<ValSpec>::empty()
            },
    {
        let ghost inview: Seq<ValSpec> = vals_view(seq_vals@);
        let mut input: Vec<MetaVal> = seq_vals;
        proof {
            lemma_vals_view_len(input@);
        }
        let k: usize = if n <= input.len() {
            n
        } else {
            input.len()
        };
        let mut i: usize = 0;
        proof {
            assert(vals_view(input@) =~= inview.subrange(0, inview.len() as int));
        }
        #[verifier::loop_isolation(false)]
        while i < k
            invariant
                i <= k,
                k <= inview.len(),
                vals_view(input@) == inview.subrange(i as int, inview.len() as int),
            decreases k - i,
        {
            let ghost inp_before: Seq<MetaVal> = input@;
            proof {
                lemma_vals_view_len(input@);
            }
            let _ = input.remove(0);
            proof {
                assert(input@ =~= inp_before.subrange(1, inp_before.len() as int));
                lemma_vals_view_tail(inp_before);
                assert(vals_view(input@) =~= inview.subrange(i + 1, inview.len() as int));
            }
            i = i + 1;
        }
        proof {
            if n >= inview.len() {
                assert(vals_view(input@) =~= Seq::<ValSpec>::empty());
            }
        }
        input
    }

    /// The first `n` items of a stream.
    pub fn take(vp: Stream, n: usize) -> (r: Stream)
        ensures
            r.remaining() == vp.remaining().subrange(
                0,
                if n <= vp.remaining().len() {
                    n as int
                } else {
                    vp.remaining().len() as int
                },
            ),
    {
        let ghost inview: Seq<Result<ValSpec, Error>> = vp.remaining();
        let mut input: Vec<Result<MetaVal, Error>> = vp.into_items();
        proof {
            lemma_sres_view_len(input@);
        }
        let mut items: Vec<Result<MetaVal, Error>> = Vec::new();
        let mut i: usize = 0;
        proof {
            assert(sres_view(items@) =~= inview.subrange(0, 0));
        }
        #[verifier::loop_isolation(false)]
        while i < n && input.len() > 0
            invariant
                i <= n,
                i <= inview.len(),
                sres_view(input@) == inview.subrange(i as int, inview.len() as int),
                sres_view(items@) == inview.subrange(0, i as int),
            decreases n - i,
        {
            let ghost inp_before: Seq<Result<MetaVal, Error>> = input@;
            let ghost items_before: Seq<Result<MetaVal, Error>> = items@;
            proof {
                lemma_sres_view_len(input@);
                lemma_sres_view_index(input@, 0);
            }
            let head: Result<MetaVal, Error> = input.remove(0);
            proof {
                assert(input@ =~= inp_before.subrange(1, inp_before.len() as int));
                lemma_sres_view_tail(inp_before);
                assert(sres_view(input@) =~= inview.subrange(i + 1, inview.len() as int));
            }
            push_sres(&mut items, head);
            proof {
                assert(sres_view(items@) =~= inview.subrange(0, i + 1));
            }
            i = i + 1;
        }
        proof {
            lemma_sres_view_len(input@);
            if n <= inview.len() {
                assert(i == n || (i < n && sres_view(input@).len() == 0));
                if i < n {
                    assert(i == inview.len());
                    assert(inview.subrange(0, i as int) =~= inview.subrange(
                        0,
                        if n <= inview.len() {
                            n as int
                        } else {
                            inview.len() as int
                        },
                    ));
                }
            } else {
                assert(sres_view(input@).len() == 0);
                assert(i == inview.len());
            }
        }
        Stream::new(items)
    }

    /// The first `n` values of a sequence.
    pub fn take_s(seq_vals: Vec<MetaVal>, n: usize) -> (r: Vec<MetaVal>)
        ensures
            vals_view(r@) == vals_view(seq_vals@).subrange(
                0,
                if n <= vals_view(seq_vals@).len() {
                    n as int
                } else {
                    vals_view(seq_vals@).len() as int
                },
            ),
    {
        let ghost inview: Seq<ValSpec> = vals_view(seq_vals@);
        let mut input: Vec<MetaVal> = seq_vals;
        proof {
            lemma_vals_view_len(input@);
        }
        let n_keep: usize = if n <= input.len() {
            n
        } else {
            input.len()
        };
        let ghost before: Seq<MetaVal> = input@;
        input.truncate(n_keep);
        proof {
            assert(input@ == before.subrange(0, n_keep as int));
            lemma_vals_view_len(input@);
            assert forall|l: int| 0 <= l < n_keep implies vals_view(input@)[l] == inview.subrange(
                0,
                if n <= inview.len() {
                    n as int
                } else {
                    inview.len() as int
                },
            )[l] by {
                lemma_vals_view_index(input@, l);
                lemma_vals_view_index(before, l);
                assert(input@[l] == before[l]);
            }
            assert(vals_view(input@) =~= inview.subrange(
                0,
                if n <= inview.len() {
                    n as int
                } else {
                    inview.len() as int
                },
            ));
        }
        input
    }
}

impl Impl {
    /// Keeps the values of a stream that the predicate accepts.
    pub fn filter(vp: Stream, u_pred: &Pred1) -> (r: Stream)
        ensures
            r.remaining() == filter_spec(vp.remaining(), *u_pred),
    {
        Filter::new(vp, *u_pred).into_stream()
    }

    /// Keeps the values of a sequence that the predicate accepts.
    pub fn filter_s(seq_vals: Vec<MetaVal>, u_pred: &Pred1) -> (r: Result<Vec<MetaVal>, Error>)
        ensures
            match r {
                Ok(out) => force_spec(filter_spec(all_ok(vals_view(seq_vals@)), *u_pred))
                    == Ok::<Seq<ValSpec>, Error>(vals_view(out@)),
                Err(e) => force_spec(filter_spec(all_ok(vals_view(seq_vals@)), *u_pred))
                    == Err::<Seq<ValSpec>, Error>(e),
            },
    {
        force_stream(Self::filter(Stream::of_vals(seq_vals), u_pred))
    }

    /// Converts each value of a stream.
    pub fn map(vp: Stream, u_conv: UnaryConv) -> (r: Stream)
        ensures
            r.remaining() == mapc_spec(vp.remaining(), u_conv),
    {
        MapConv::new(vp, u_conv).into_stream()
    }

    /// Converts each value of a sequence, stopping at the first failure.
    pub fn map_s(seq_vals: Vec<MetaVal>, u_conv: UnaryConv) -> (r: Result<Vec<MetaVal>, Error>)
        ensures
            match r {
                Ok(out) => force_spec(mapc_spec(all_ok(vals_view(seq_vals@)), u_conv)) == Ok::<
                    Seq<ValSpec>,
                    Error,
                >(vals_view(out@)),
                Err(e) => force_spec(mapc_spec(all_ok(vals_view(seq_vals@)), u_conv)) == Err::<
                    Seq<ValSpec>,
                    Error,
                >(e),
            },
    {
        force_stream(Self::map(Stream::of_vals(seq_vals), u_conv))
    }

    /// Every `k`-th value of a sequence; a step of zero is an error.
    pub fn step_by_s(seq_vals: Vec<MetaVal>, step: usize) -> (r: Result<Vec<MetaVal>, Error>)
        ensures
            match r {
                Ok(out) => step != 0 && force_spec(
                    step_spec(all_ok(vals_view(seq_vals@)), step as int),
                ) == Ok::<Seq<ValSpec>, Error>(vals_view(out@)),
                Err(e) => step == 0 && e == Error::ZeroStep,
            },
    {
        let ghost vs: Seq<ValSpec> = vals_view(seq_vals@);
        match Self::step_by(Stream::of_vals(seq_vals), step) {
            Err(e) => Err(e),
            Ok(st) => {
                proof {
                    lemma_step_oks(all_ok(vs), step as int);
                    lemma_force_oks(step_spec(all_ok(vs), step as int));
                }
                match force_stream(st) {
                    Ok(out) => Ok(out),
                    Err(_) => {
                        proof {
                            assert(false);
                        }
                        Err(Error::Sentinel)
                    },
                }
            },
        }
    }

    /// Pairs two sequences positionally into two-element sequence values.
    pub fn zip_s(seq_a: Vec<MetaVal>, seq_b: Vec<MetaVal>) -> (r: Vec<MetaVal>)
        ensures
            all_ok(vals_view(r@)) == zip_spec(
                all_ok(vals_view(seq_a@)),
                all_ok(vals_view(seq_b@)),
            ),
    {
        let ghost av: Seq<ValSpec> = vals_view(seq_a@);
        let ghost bv: Seq<ValSpec> = vals_view(seq_b@);
        let st: Stream = Self::zip(Stream::of_vals(seq_a), Stream::of_vals(seq_b));
        proof {
            lemma_zip_oks(all_ok(av), all_ok(bv));
            lemma_force_oks(zip_spec(all_ok(av), all_ok(bv)));
        }
        match force_stream(st) {
            Ok(out) => out,
            Err(_) => {
                proof {
                    assert(false);
                }
                Vec::new()
            },
        }
    }

    /// Drops the leading items of a stream whose values the predicate
    /// accepts.
    pub fn skip_while(vp: Stream, u_pred: &Pred1) -> (r: Stream)
        ensures
            r.remaining() == skip_while_spec(vp.remaining(), *u_pred),
    {
        let ghost inview: Seq<Result<ValSpec, Error>> = vp.remaining();
        let mut input: Vec<Result<MetaVal, Error>> = vp.into_items();
        proof {
            lemma_sres_view_len(input@);
            assert(skip_while_spec(inview, *u_pred) == skip_while_spec(
                sres_view(input@),
                *u_pred,
            ));
        }
        #[verifier::loop_isolation(false)]
        loop
            invariant
                skip_while_spec(inview, *u_pred) == skip_while_spec(
                    sres_view(input@),
                    *u_pred,
                ),
            decreases input@.len(),
        {
            proof {
                lemma_sres_view_len(input@);
            }
            if input.len() == 0 {
                return Stream::new(input);
            }
            proof {
                lemma_sres_view_index(input@, 0);
            }
            let keep_going: bool = match &input[0] {
                Ok(v) => u_pred.test(v),
                Err(_) => false,
            };
            if !keep_going {
                proof {
                    assert(skip_while_spec(sres_view(input@), *u_pred) == sres_view(input@));
                }
                return Stream::new(input);
            }
            let ghost inp_before: Seq<Result<MetaVal, Error>> = input@;
            let _ = input.remove(0);
            proof {
                assert(input@ =~= inp_before.subrange(1, inp_before.len() as int));
                lemma_sres_view_tail(inp_before);
            }
        }
    }

    /// Drops the leading values of a sequence that the predicate accepts.
    pub fn skip_while_s(seq_vals: Vec<MetaVal>, u_pred: &Pred1) -> (r: Result<
        Vec<MetaVal>,
        Error,
    >)
        ensures
            match r {
                Ok(out) => force_spec(
                    skip_while_spec(all_ok(vals_view(seq_vals@)), *u_pred),
                ) == Ok::<Seq<ValSpec>, Error>(vals_view(out@)),
                Err(e) => force_spec(skip_while_spec(all_ok(vals_view(seq_vals@)), *u_pred))
                    == Err::<Seq<ValSpec>, Error>(e),
            },
    {
        force_stream(Self::skip_while(Stream::of_vals(seq_vals), u_pred))
    }

    /// Keeps the leading items of a stream whose values the predicate
    /// accepts.
    pub fn take_while(vp: Stream, u_pred: &Pred1) -> (r: Stream)
        ensures
            r.remaining() == take_while_spec(vp.remaining(), *u_pred),
    {
        let ghost inview: Seq<Result<ValSpec, Error>> = vp.remaining();
        let mut input: Vec<Result<MetaVal, Error>> = vp.into_items();
        proof {
            lemma_sres_view_len(input@);
        }
        let mut items: Vec<Result<MetaVal, Error>> = Vec::new();
        proof {
            assert(sres_view(items@) + take_while_spec(sres_view(input@), *u_pred)
                =~= take_while_spec(inview, *u_pred));
        }
        #[verifier::loop_isolation(false)]
        loop
            invariant
                take_while_spec(inview, *u_pred) == sres_view(items@) + take_while_spec(
                    sres_view(input@),
                    *u_pred,
                ),
            decreases input@.len(),
        {
            proof {
                lemma_sres_view_len(input@);
            }
            if input.len() == 0 {
                proof {
                    assert(take_while_spec(sres_view(input@), *u_pred) =~= Seq::<
                        Result<ValSpec, Error>,
                    >::empty());
                    assert(sres_view(items@) + take_while_spec(sres_view(input@), *u_pred)
                        =~= sres_view(items@));
                }
                return Stream::new(items);
            }
            proof {
                lemma_sres_view_index(input@, 0);
            }
            let ghost rest = sres_view(input@);
            let ghost items_before: Seq<Result<MetaVal, Error>> = items@;
            let ghost inp_before: Seq<Result<MetaVal, Error>> = input@;
            let head: Result<MetaVal, Error> = input.remove(0);
            proof {
                assert(input@ =~= inp_before.subrange(1, inp_before.len() as int));
                lemma_sres_view_tail(inp_before);
            }
            match head {
                Err(e) => {
                    push_sres(&mut items, Err(e));
                    proof {
                        assert(take_while_spec(rest, *u_pred) == seq![Err::<ValSpec, Error>(e)]);
                        assert(sres_view(items@) =~= sres_view(items_before).push(
                            Err::<ValSpec, Error>(e),
                        ));
                        assert(sres_view(items_before) + take_while_spec(rest, *u_pred)
                            =~= sres_view(items@));
                    }
                    return Stream::new(items);
                },
                Ok(v) => {
                    let ghost vv: ValSpec = val_view(v);
                    if u_pred.test(&v) {
                        push_sres(&mut items, Ok(v));
                        proof {
                            assert(take_while_spec(rest, *u_pred) == seq![Ok::<
                                ValSpec,
                                Error,
                            >(vv)] + take_while_spec(sres_view(input@), *u_pred));
                            assert(sres_view(items_before) + (seq![Ok::<ValSpec, Error>(vv)]
                                + take_while_spec(sres_view(input@), *u_pred)) =~= sres_view(
                                items@,
                            ) + take_while_spec(sres_view(input@), *u_pred));
                        }
                    } else {
                        proof {
                            assert(take_while_spec(rest, *u_pred) =~= Seq::<
                                Result<ValSpec, Error>,
                            >::empty());
                            assert(sres_view(items_before) + take_while_spec(rest, *u_pred)
                                =~= sres_view(items_before));
                        }
                        return Stream::new(items);
                    }
                },
            }
        }
    }

    /// Keeps the leading values of a sequence that the predicate accepts.
    pub fn take_while_s(seq_vals: Vec<MetaVal>, u_pred: &Pred1) -> (r: Result<
        Vec<MetaVal>,
        Error,
    >)
        ensures
            match r {
                Ok(out) => force_spec(
                    take_while_spec(all_ok(vals_view(seq_vals@)), *u_pred),
                ) == Ok::<Seq<ValSpec>, Error>(vals_view(out@)),
                Err(e) => force_spec(take_while_spec(all_ok(vals_view(seq_vals@)), *u_pred))
                    == Err::<Seq<ValSpec>, Error>(e),
            },
    {
        force_stream(Self::take_while(Stream::of_vals(seq_vals), u_pred))
    }

    /// Slips a separator value between every two adjacent items of a
    /// stream.
    pub fn intersperse(vp: Stream, mv: MetaVal) -> (r: Stream)
        ensures
            r.remaining() == intersperse_spec(vp.remaining(), mv@),
    {
        let ghost inview: Seq<Result<ValSpec, Error>> = vp.remaining();
        let ghost sep: ValSpec = mv@;
        let mut input: Vec<Result<MetaVal, Error>> = vp.into_items();
        proof {
            lemma_sres_view_len(input@);
        }
        let mut items: Vec<Result<MetaVal, Error>> = Vec::new();
        proof {
            assert(sres_view(items@) + intersperse_spec(sres_view(input@), sep)
                =~= intersperse_spec(inview, sep));
        }
        #[verifier::loop_isolation(false)]
        loop
            invariant
                intersperse_spec(inview, sep) == sres_view(items@) + intersperse_spec(
                    sres_view(input@),
                    sep,
                ),
            decreases input@.len(),
        {
            proof {
                lemma_sres_view_len(input@);
            }
            if input.len() == 0 {
                proof {
                    assert(sres_view(items@) + intersperse_spec(sres_view(input@), sep)
                        =~= sres_view(items@));
                }
                return Stream::new(items);
            }
            proof {
                lemma_sres_view_index(input@, 0);
            }
            let ghost rest = sres_view(input@);
            let ghost items_before: Seq<Result<MetaVal, Error>> = items@;
            let ghost inp_before: Seq<Result<MetaVal, Error>> = input@;
            let head: Result<MetaVal, Error> = input.remove(0);
            proof {
                assert(input@ =~= inp_before.subrange(1, inp_before.len() as int));
                lemma_sres_view_tail(inp_before);
            }
            let ghost headv: Result<ValSpec, Error> = rest[0];
            push_sres(&mut items, head);
            if input.len() == 0 {
                proof {
                    assert(intersperse_spec(rest, sep) == rest);
                    assert(rest =~= seq![headv]);
                    assert(sres_view(items@) =~= sres_view(items_before).push(headv));
                    assert(sres_view(items_before) + rest =~= sres_view(items@));
                    assert(sres_view(input@) =~= Seq::<Result<ValSpec, Error>>::empty());
                    assert(intersperse_spec(sres_view(input@), sep) =~= Seq::<
                        Result<ValSpec, Error>,
                    >::empty());
                    assert(sres_view(items@) + intersperse_spec(sres_view(input@), sep)
                        =~= sres_view(items@));
                }
                return Stream::new(items);
            }
            let ghost items_mid: Seq<Result<MetaVal, Error>> = items@;
            push_sres(&mut items, Ok(mv.duplicate()));
            proof {
                assert(rest.len() > 1);
                assert(intersperse_spec(rest, sep) == seq![
                    rest[0],
                    Ok::<ValSpec, Error>(sep),
                ] + intersperse_spec(sres_view(input@), sep));
                assert(sres_view(items_mid) =~= sres_view(items_before).push(headv));
                assert(sres_view(items@) =~= sres_view(items_mid).push(
                    Ok::<ValSpec, Error>(sep),
                ));
                assert(sres_view(items_before) + (seq![rest[0], Ok::<ValSpec, Error>(sep)]
                    + intersperse_spec(sres_view(input@), sep)) =~= sres_view(items@)
                    + intersperse_spec(sres_view(input@), sep));
            }
        }
    }

    /// Slips a separator value between every two adjacent values of a
    /// sequence.
    pub fn intersperse_s(seq_vals: Vec<MetaVal>, mv: MetaVal) -> (r: Vec<MetaVal>)
        ensures
            all_ok(vals_view(r@)) == intersperse_spec(all_ok(vals_view(seq_vals@)), mv@),
    {
        let ghost vs: Seq<ValSpec> = vals_view(seq_vals@);
        let ghost sep: ValSpec = mv@;
        let st: Stream = Self::intersperse(Stream::of_vals(seq_vals), mv);
        proof {
            lemma_intersperse_oks(all_ok(vs), sep);
            lemma_force_oks(intersperse_spec(all_ok(vs), sep));
        }
        match force_stream(st) {
            Ok(out) => out,
            Err(_) => {
                proof {
                    assert(false);
                }
                Vec::new()
            },
        }
    }

    /// Alternates the items of two streams, starting on the left.
    pub fn interleave(vp_a: Stream, vp_b: Stream) -> (r: Stream)
        ensures
            r.remaining() == interleave_spec(vp_a.remaining(), vp_b.remaining()),
    {
        let ghost av: Seq<Result<ValSpec, Error>> = vp_a.remaining();
        let ghost bv: Seq<Result<ValSpec, Error>> = vp_b.remaining();
        let mut a: Vec<Result<MetaVal, Error>> = vp_a.into_items();
        let mut b: Vec<Result<MetaVal, Error>> = vp_b.into_items();
        let mut items: Vec<Result<MetaVal, Error>> = Vec::new();
        proof {
            lemma_sres_view_len(a@);
            lemma_sres_view_len(b@);
            assert(sres_view(items@) + interleave_spec(sres_view(a@), sres_view(b@))
                =~= interleave_spec(av, bv));
        }
        #[verifier::loop_isolation(false)]
        loop
            invariant
                interleave_spec(av, bv) == sres_view(items@) + interleave_spec(
                    sres_view(a@),
                    sres_view(b@),
                ),
            decreases a@.len() + b@.len(),
        {
            proof {
                lemma_sres_view_len(a@);
                lemma_sres_view_len(b@);
            }
            if a.len() == 0 {
                // The left side is done: the right side continues alone.
                let mut j: usize = 0;
                let ghost brem: Seq<Result<ValSpec, Error>> = sres_view(b@);
                proof {
                    assert(interleave_spec(sres_view(a@), sres_view(b@)) == sres_view(b@));
                }
                #[verifier::loop_isolation(false)]
                loop
                    invariant
                        interleave_spec(av, bv) == sres_view(items@) + sres_view(b@),
                    decreases b@.len(),
                {
                    proof {
                        lemma_sres_view_len(b@);
                    }
                    if b.len() == 0 {
                        proof {
                            assert(sres_view(b@) =~= Seq::<Result<ValSpec, Error>>::empty());
                            assert(sres_view(items@) + sres_view(b@) =~= sres_view(items@));
                        }
                        return Stream::new(items);
                    }
                    proof {
                        lemma_sres_view_index(b@, 0);
                    }
                    let ghost items_before: Seq<Result<MetaVal, Error>> = items@;
                    let ghost b_before: Seq<Result<MetaVal, Error>> = b@;
                    let ghost headv: Result<ValSpec, Error> = sres_view(b@)[0];
                    let head: Result<MetaVal, Error> = b.remove(0);
                    proof {
                        assert(b@ =~= b_before.subrange(1, b_before.len() as int));
                        lemma_sres_view_tail(b_before);
                    }
                    push_sres(&mut items, head);
                    proof {
                        assert(sres_view(items@) =~= sres_view(items_before).push(headv));
                        assert(sres_view(b_before) =~= seq![headv] + sres_view(b@));
                        assert(sres_view(items_before) + (seq![headv] + sres_view(b@))
                            =~= sres_view(items@) + sres_view(b@));
                    }
                }
            }
            proof {
                lemma_sres_view_index(a@, 0);
            }
            let ghost arem = sres_view(a@);
            let ghost brem = sres_view(b@);
            let ghost items_before: Seq<Result<MetaVal, Error>> = items@;
            let ghost a_before: Seq<Result<MetaVal, Error>> = a@;
            let ghost headv: Result<ValSpec, Error> = sres_view(a@)[0];
            let head: Result<MetaVal, Error> = a.remove(0);
            proof {
                assert(a@ =~= a_before.subrange(1, a_before.len() as int));
                lemma_sres_view_tail(a_before);
            }
            push_sres(&mut items, head);
            // The sides swap roles after each emission.
            core::mem::swap(&mut a, &mut b);
            proof {
                assert(sres_view(items@) =~= sres_view(items_before).push(headv));
                assert(interleave_spec(arem, brem) == seq![headv] + interleave_spec(
                    brem,
                    sres_view(b@),
                ));
                assert(sres_view(a@) == brem);
                assert(sres_view(items_before) + (seq![headv] + interleave_spec(
                    brem,
                    sres_view(b@),
                )) =~= sres_view(items@) + interleave_spec(sres_view(a@), sres_view(b@)));
            }
        }
    }

    /// Alternates the values of two sequences, starting on the left.
    pub fn interleave_s(seq_a: Vec<MetaVal>, seq_b: Vec<MetaVal>) -> (r: Vec<MetaVal>)
        ensures
            all_ok(vals_view(r@)) == interleave_spec(
                all_ok(vals_view(seq_a@)),
                all_ok(vals_view(seq_b@)),
            ),
    {
        let ghost av: Seq<ValSpec> = vals_view(seq_a@);
        let ghost bv: Seq<ValSpec> = vals_view(seq_b@);
        let st: Stream = Self::interleave(Stream::of_vals(seq_a), Stream::of_vals(seq_b));
        proof {
            lemma_interleave_oks(all_ok(av), all_ok(bv));
            lemma_force_oks(interleave_spec(all_ok(av), all_ok(bv)));
        }
        match force_stream(st) {
            Ok(out) => out,
            Err(_) => {
                proof {
                    assert(false);
                }
                Vec::new()
            },
        }
    }
}

/// Stepping keeps only items of the stream, so successes stay successes.
proof fn lemma_step_oks(s: Seq<Result<ValSpec, Error>>, k: int)
    requires
        oks_only(s),
    ensures
        oks_only(step_spec(s, k)),
    decreases s.len(),
{
    if s.len() == 0 || k < 1 {
    } else if s.len() <= k {
        assert(s[0] is Ok);
        assert forall|i: int| 0 <= i < step_spec(s, k).len() implies (#[trigger] step_spec(
            s,
            k,
        )[i]) is Ok by {}
    } else {
        let tail = s.subrange(k, s.len() as int);
        assert(forall|i: int| 0 <= i < tail.len() ==> (#[trigger] tail[i]) is Ok);
        lemma_step_oks(tail, k);
        assert(s[0] is Ok);
        assert forall|i: int| 0 <= i < step_spec(s, k).len() implies (#[trigger] step_spec(
            s,
            k,
        )[i]) is Ok by {
            if i > 0 {
                assert(step_spec(s, k)[i] == step_spec(tail, k)[i - 1]);
            }
        }
    }
}

/// Zipping two all-successful streams yields only successes.
proof fn lemma_zip_oks(a: Seq<Result<ValSpec, Error>>, b: Seq<Result<ValSpec, Error>>)
    requires
        oks_only(a),
        oks_only(b),
    ensures
        oks_only(zip_spec(a, b)),
    decreases a.len(),
{
    if a.len() == 0 || b.len() == 0 {
    } else {
        assert(a[0] is Ok);
        assert(b[0] is Ok);
        let ta = a.subrange(1, a.len() as int);
        let tb = b.subrange(1, b.len() as int);
        assert(forall|i: int| 0 <= i < ta.len() ==> (#[trigger] ta[i]) is Ok);
        assert(forall|i: int| 0 <= i < tb.len() ==> (#[trigger] tb[i]) is Ok);
        lemma_zip_oks(ta, tb);
        assert forall|i: int| 0 <= i < zip_spec(a, b).len() implies (#[trigger] zip_spec(
            a,
            b,
        )[i]) is Ok by {
            if i > 0 {
                assert(zip_spec(a, b)[i] == zip_spec(ta, tb)[i - 1]);
            }
        }
    }
}

/// Interspersing an all-successful stream yields only successes.
proof fn lemma_intersperse_oks(s: Seq<Result<ValSpec, Error>>, sep: ValSpec)
    requires
        oks_only(s),
    ensures
        oks_only(intersperse_spec(s, sep)),
    decreases s.len(),
{
    if s.len() <= 1 {
    } else {
        let tail = s.subrange(1, s.len() as int);
        assert(forall|i: int| 0 <= i < tail.len() ==> (#[trigger] tail[i]) is Ok);
        lemma_intersperse_oks(tail, sep);
        assert(s[0] is Ok);
        assert forall|i: int| 0 <= i < intersperse_spec(s, sep).len() implies (
        #[trigger] intersperse_spec(s, sep)[i]) is Ok by {
            if i > 1 {
                assert(intersperse_spec(s, sep)[i] == intersperse_spec(tail, sep)[i - 2]);
            }
        }
    }
}

/// Interleaving two all-successful streams yields only successes.
proof fn lemma_interleave_oks(a: Seq<Result<ValSpec, Error>>, b: Seq<Result<ValSpec, Error>>)
    requires
        oks_only(a),
        oks_only(b),
    ensures
        oks_only(interleave_spec(a, b)),
    decreases a.len() + b.len(),
{
    if a.len() == 0 {
    } else {
        assert(a[0] is Ok);
        let ta = a.subrange(1, a.len() as int);
        assert(forall|i: int| 0 <= i < ta.len() ==> (#[trigger] ta[i]) is Ok);
        lemma_interleave_oks(b, ta);
        assert forall|i: int| 0 <= i < interleave_spec(a, b).len() implies (
        #[trigger] interleave_spec(a, b)[i]) is Ok by {
            if i > 0 {
                assert(interleave_spec(a, b)[i] == interleave_spec(b, ta)[i - 1]);
            }
        }
    }
}

/// A copy of one value result with an equal view.
fn dup_res(r: &Result<MetaVal, Error>) -> (out: Result<MetaVal, Error>)
    ensures
        (match out {
            Ok(v) => Ok::<ValSpec, Error>(val_view(v)),
            Err(e) => Err::<ValSpec, Error>(e),
        }) == (match *r {
            Ok(v) => Ok::<ValSpec, Error>(val_view(v)),
            Err(e) => Err::<ValSpec, Error>(e),
        }),
{
    match r {
        Ok(v) => Ok(v.duplicate()),
        Err(e) => Err(*e),
    }
}

/// The view of one pushed result.
pub open spec fn items_view_push(
    before: Seq<Result<MetaVal, Error>>,
    headv: Result<ValSpec, Error>,
) -> Seq<Result<ValSpec, Error>> {
    sres_view(before).push(headv)
}

/// The view of a result list's tail is the tail of its view.
pub proof fn lemma_sres_view_tail(s: Seq<Result<MetaVal, Error>>)
    requires
        s.len() > 0,
    ensures
        sres_view(s.subrange(1, s.len() as int)) == sres_view(s).subrange(
            1,
            sres_view(s).len() as int,
        ),
{
    lemma_sres_view_len(s);
    lemma_sres_view_len(s.subrange(1, s.len() as int));
    assert forall|l: int| 0 <= l < s.len() - 1 implies sres_view(
        s.subrange(1, s.len() as int),
    )[l] == sres_view(s).subrange(1, sres_view(s).len() as int)[l] by {
        lemma_sres_view_index(s.subrange(1, s.len() as int), l);
        lemma_sres_view_index(s, l + 1);
    }
    assert(sres_view(s.subrange(1, s.len() as int)) =~= sres_view(s).subrange(
        1,
        sres_view(s).len() as int,
    ));
}

/// The view of a list's tail is the tail of its view.
pub proof fn lemma_vals_view_tail(s: Seq<MetaVal>)
    requires
        s.len() > 0,
    ensures
        vals_view(s.subrange(1, s.len() as int)) == vals_view(s).subrange(
            1,
            vals_view(s).len() as int,
        ),
{
    lemma_vals_view_len(s);
    lemma_vals_view_len(s.subrange(1, s.len() as int));
    assert forall|l: int| 0 <= l < s.len() - 1 implies vals_view(
        s.subrange(1, s.len() as int),
    )[l] == vals_view(s).subrange(1, vals_view(s).len() as int)[l] by {
        lemma_vals_view_index(s.subrange(1, s.len() as int), l);
        lemma_vals_view_index(s, l + 1);
    }
    assert(vals_view(s.subrange(1, s.len() as int)) =~= vals_view(s).subrange(
        1,
        vals_view(s).len() as int,
    ));
}

/// On an all-successful stream, the every-value scan never errs and
/// agrees with the pointwise reading.
pub proof fn lemma_all_spec_all_ok(vs: Seq<ValSpec>, p: Pred1)
    ensures
        all_spec(all_ok(vs), p) == Ok::<bool, Error>(
            forall|i: int| 0 <= i < vs.len() ==> pred_spec(p, #[trigger] vs[i]),
        ),
    decreases vs.len(),
{
    let s = all_ok(vs);
    if vs.len() == 0 {
    } else {
        assert(s[0] == Ok::<ValSpec, Error>(vs[0]));
        assert(s.subrange(1, s.len() as int) =~= all_ok(vs.subrange(1, vs.len() as int)));
        lemma_all_spec_all_ok(vs.subrange(1, vs.len() as int), p);
        let tail = vs.subrange(1, vs.len() as int);
        if pred_spec(p, vs[0]) {
            assert((forall|i: int| 0 <= i < vs.len() ==> pred_spec(p, #[trigger] vs[i]))
                <==> (forall|i: int| 0 <= i < tail.len() ==> pred_spec(p, #[trigger] tail[i])))
                by {
                if forall|i: int| 0 <= i < tail.len() ==> pred_spec(p, #[trigger] tail[i]) {
                    assert forall|i: int| 0 <= i < vs.len() implies pred_spec(
                        p,
                        #[trigger] vs[i],
                    ) by {
                        if i > 0 {
                            assert(tail[i - 1] == vs[i]);
                        }
                    }
                }
            }
        } else {
            assert(!pred_spec(p, vs[0]));
        }
    }
}

/// On an all-successful stream, the any-value scan never errs and agrees
/// with the pointwise reading.
pub proof fn lemma_any_spec_all_ok(vs: Seq<ValSpec>, p: Pred1)
    ensures
        any_spec(all_ok(vs), p) == Ok::<bool, Error>(
            exists|i: int| 0 <= i < vs.len() && pred_spec(p, #[trigger] vs[i]),
        ),
    decreases vs.len(),
{
    let s = all_ok(vs);
    if vs.len() == 0 {
    } else {
        assert(s[0] == Ok::<ValSpec, Error>(vs[0]));
        assert(s.subrange(1, s.len() as int) =~= all_ok(vs.subrange(1, vs.len() as int)));
        lemma_any_spec_all_ok(vs.subrange(1, vs.len() as int), p);
        let tail = vs.subrange(1, vs.len() as int);
        if pred_spec(p, vs[0]) {
            assert(exists|i: int| 0 <= i < vs.len() && pred_spec(p, #[trigger] vs[i]));
        } else {
            assert((exists|i: int| 0 <= i < vs.len() && pred_spec(p, #[trigger] vs[i])) <==> (
            exists|i: int| 0 <= i < tail.len() && pred_spec(p, #[trigger] tail[i]))) by {
                if exists|i: int| 0 <= i < vs.len() && pred_spec(p, #[trigger] vs[i]) {
                    let i = choose|i: int| 0 <= i < vs.len() && pred_spec(p, #[trigger] vs[i]);
                    assert(i > 0);
                    assert(tail[i - 1] == vs[i]);
                }
                if exists|i: int| 0 <= i < tail.len() && pred_spec(p, #[trigger] tail[i]) {
                    let i = choose|i: int|
                        0 <= i < tail.len() && pred_spec(p, #[trigger] tail[i]);
                    assert(vs[i + 1] == tail[i]);
                }
            }
        }
    }
}

} // verus!
