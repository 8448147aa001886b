//! The stack machine that runs scripts: operands, the context that seeds
//! value streams, and the nullary and unary operators.

use vstd::prelude::*;

use crate::numbers::Number;
use crate::numbers::add_num;
use crate::numbers::mul_num;
use crate::numbers::cmp_num;
use crate::numbers::frac_add;
use crate::numbers::frac_mul;
use crate::numbers::frac_lt;
use crate::operator::force_spec;
use crate::operator::force_stream;
use crate::operator::IterableLike;
use crate::order::cmp_val;
use crate::order::cmp_val_spec;
use crate::sorter::PathInfo;
use crate::stream::Error;
use crate::stream::Pred1;
use crate::stream::Source;
use crate::stream::Stream;
use crate::stream::UnaryConv;
use crate::values::Decimal;
use crate::values::MetaVal;
use crate::values::ValSpec;
use crate::values::val_view;
use crate::values::vals_view;
use crate::values::lemma_vals_view_len;
use crate::values::lemma_vals_view_index;
use crate::values::lemma_vals_view_snoc;

verus! {

/// Whether a value is numeric, and its mantissa/scale fraction.
pub open spec fn num_frac(v: ValSpec) -> Option<(int, nat)> {
    match v {
        ValSpec::Int(i) => Some((i, 0)),
        ValSpec::Dec(m, s) => Some((m, s)),
        _ => None,
    }
}

/// The fraction behind a numeric value, or zero for any other.
pub open spec fn frac_of(v: ValSpec) -> (int, nat) {
    match num_frac(v) {
        Some(f) => f,
        None => (0, 0),
    }
}

/// Whether every value of a sequence is numeric.
pub open spec fn all_numeric(vs: Seq<ValSpec>) -> bool {
    forall|i: int| 0 <= i < vs.len() ==> num_frac(#[trigger] vs[i]) is Some
}

/// The exact sum of a sequence of numeric values, as a fraction.
pub open spec fn sum_frac(vs: Seq<ValSpec>) -> (int, nat)
    decreases vs.len(),
{
    if vs.len() == 0 {
        (0, 0)
    } else {
        let prev = sum_frac(vs.drop_last());
        let last = frac_of(vs.last());
        frac_add(prev.0, prev.1, last.0, last.1)
    }
}

/// The exact product of a sequence of numeric values, as a fraction.
pub open spec fn product_frac(vs: Seq<ValSpec>) -> (int, nat)
    decreases vs.len(),
{
    if vs.len() == 0 {
        (1, 0)
    } else {
        let prev = product_frac(vs.drop_last());
        let last = frac_of(vs.last());
        frac_mul(prev.0, prev.1, last.0, last.1)
    }
}

/// Two equal fractions stay equal when the same fraction is added.
proof fn lemma_frac_add_congruence(a: (int, nat), b: (int, nat), c: (int, nat))
    requires
        crate::values::Decimal::frac_eq(a.0, a.1, b.0, b.1),
    ensures
        crate::values::Decimal::frac_eq(
            frac_add(a.0, a.1, c.0, c.1).0,
            frac_add(a.0, a.1, c.0, c.1).1,
            frac_add(b.0, b.1, c.0, c.1).0,
            frac_add(b.0, b.1, c.0, c.1).1,
        ),
{
    let pa = crate::values::pow10(a.1);
    let pb = crate::values::pow10(b.1);
    let pc = crate::values::pow10(c.1);
    crate::numbers::lemma_pow10_adds(a.1, c.1);
    crate::numbers::lemma_pow10_adds(b.1, c.1);
    assert((a.0 * pc) * (pb * pc) == (b.0 * pc) * (pa * pc)) by (nonlinear_arith)
        requires
            a.0 * pb == b.0 * pa,
    ;
    assert((c.0 * pa) * (pb * pc) == (c.0 * pb) * (pa * pc)) by (nonlinear_arith);
    assert((a.0 * pc + c.0 * pa) * (pb * pc) == (a.0 * pc) * (pb * pc) + (c.0 * pa) * (pb
        * pc)) by (nonlinear_arith);
    assert((b.0 * pc + c.0 * pb) * (pa * pc) == (b.0 * pc) * (pa * pc) + (c.0 * pb) * (pa
        * pc)) by (nonlinear_arith);
}

/// Two equal fractions stay equal when multiplied by the same fraction.
proof fn lemma_frac_mul_congruence(a: (int, nat), b: (int, nat), c: (int, nat))
    requires
        crate::values::Decimal::frac_eq(a.0, a.1, b.0, b.1),
    ensures
        crate::values::Decimal::frac_eq(
            frac_mul(a.0, a.1, c.0, c.1).0,
            frac_mul(a.0, a.1, c.0, c.1).1,
            frac_mul(b.0, b.1, c.0, c.1).0,
            frac_mul(b.0, b.1, c.0, c.1).1,
        ),
{
    let pa = crate::values::pow10(a.1);
    let pb = crate::values::pow10(b.1);
    let pc = crate::values::pow10(c.1);
    crate::numbers::lemma_pow10_adds(a.1, c.1);
    crate::numbers::lemma_pow10_adds(b.1, c.1);
    assert((a.0 * c.0) * (pb * pc) == (b.0 * c.0) * (pa * pc)) by (nonlinear_arith)
        requires
            a.0 * pb == b.0 * pa,
    ;
}

/// A value no smaller than another stays so seen from anything larger.
proof fn lemma_frac_ge_trans(c: (int, nat), b: (int, nat), v: (int, nat))
    requires
        frac_lt(b.0, b.1, c.0, c.1),
        !frac_lt(b.0, b.1, v.0, v.1),
    ensures
        !frac_lt(c.0, c.1, v.0, v.1),
{
    let pb = crate::values::pow10(b.1);
    let pc = crate::values::pow10(c.1);
    let pv = crate::values::pow10(v.1);
    crate::values::lemma_pow10_pos(b.1);
    crate::values::lemma_pow10_pos(c.1);
    crate::values::lemma_pow10_pos(v.1);
    assert(!(c.0 * pv < v.0 * pc)) by (nonlinear_arith)
        requires
            b.0 * pc < c.0 * pb,
            !(b.0 * pv < v.0 * pb),
            pb >= 1,
            pc >= 1,
            pv >= 1,
    ;
}

/// A value no larger than another stays so seen from anything smaller.
proof fn lemma_frac_le_trans(c: (int, nat), b: (int, nat), v: (int, nat))
    requires
        frac_lt(c.0, c.1, b.0, b.1),
        !frac_lt(v.0, v.1, b.0, b.1),
    ensures
        !frac_lt(v.0, v.1, c.0, c.1),
{
    let pb = crate::values::pow10(b.1);
    let pc = crate::values::pow10(c.1);
    let pv = crate::values::pow10(v.1);
    crate::values::lemma_pow10_pos(b.1);
    crate::values::lemma_pow10_pos(c.1);
    crate::values::lemma_pow10_pos(v.1);
    assert(!(v.0 * pc < c.0 * pv)) by (nonlinear_arith)
        requires
            c.0 * pb < b.0 * pc,
            !(v.0 * pb < b.0 * pv),
            pb >= 1,
            pc >= 1,
            pv >= 1,
    ;
}

/// Reads a value as a number, or reports that it is not one.
fn to_number(v: &MetaVal) -> (r: Result<Number, Error>)
    ensures
        match r {
            Ok(n) => num_frac(v@) == Some((n.mantissa(), n.scale())) && (n is Int <==> v@ is Int),
            Err(e) => num_frac(v@) == None::<(int, nat)> && e == Error::NotNumeric,
        },
{
    match v {
        MetaVal::Int(i) => Ok(Number::Int(*i)),
        MetaVal::Dec(d) => {
            let p: (i64, u32) = d.parts();
            proof {
                assert(v@ == ValSpec::Dec(d.mantissa(), d.scale()));
            }
            Ok(Number::Dec(*d))
        },
        _ => Err(Error::NotNumeric),
    }
}

/// The mantissa bound that the machine representation gives every
/// number.
proof fn lemma_number_bounds(n: Number)
    ensures
        -0x8000000000000000 <= n.mantissa() <= 0x7fffffffffffffff,
{
    match n {
        Number::Int(_) => {
        },
        Number::Dec(d) => {
            d.lemma_bounds();
        },
    }
}

/// The state of the running left fold that sums a value list: the
/// accumulator's exact mantissa, scale, and integer kind after the whole
/// prefix, or the error at which the fold stops.  This is the whole
/// behaviour of [`sum_vals`]: the fold fails with `NotNumeric` at the
/// first non-numeric value and with `NumericOverflow` where the reduced
/// intermediate result leaves the representation.
pub open spec fn sum_fold(vs: Seq<ValSpec>) -> Result<(int, nat, bool), Error>
    decreases vs.len(),
{
    if vs.len() == 0 {
        Ok((0, 0, true))
    } else {
        match sum_fold(vs.drop_last()) {
            Err(e) => Err(e),
            Ok(st) => match num_frac(vs.last()) {
                None => Err(Error::NotNumeric),
                Some(f) => if st.2 && vs.last() is Int {
                    if -0x8000000000000000 <= st.0 + f.0 <= 0x7fffffffffffffff {
                        Ok((st.0 + f.0, 0, true))
                    } else {
                        Err(Error::NumericOverflow)
                    }
                } else {
                    let t = frac_add(st.0, st.1, f.0, f.1);
                    let red = crate::numbers::dec_reduce(t.0, t.1);
                    if -0x8000000000000000 <= red.0 <= 0x7fffffffffffffff && red.1
                        <= crate::values::MAX_SCALE as nat {
                        Ok((red.0, red.1, false))
                    } else {
                        Err(Error::NumericOverflow)
                    }
                },
            },
        }
    }
}

/// The state of the running left fold that multiplies a value list, under
/// the same stopping rules as [`sum_fold`].
pub open spec fn product_fold(vs: Seq<ValSpec>) -> Result<(int, nat, bool), Error>
    decreases vs.len(),
{
    if vs.len() == 0 {
        Ok((1, 0, true))
    } else {
        match product_fold(vs.drop_last()) {
            Err(e) => Err(e),
            Ok(st) => match num_frac(vs.last()) {
                None => Err(Error::NotNumeric),
                Some(f) => if st.2 && vs.last() is Int {
                    if -0x8000000000000000 <= st.0 * f.0 <= 0x7fffffffffffffff {
                        Ok((st.0 * f.0, 0, true))
                    } else {
                        Err(Error::NumericOverflow)
                    }
                } else {
                    let t = frac_mul(st.0, st.1, f.0, f.1);
                    let red = crate::numbers::dec_reduce(t.0, t.1);
                    if -0x8000000000000000 <= red.0 <= 0x7fffffffffffffff && red.1
                        <= crate::values::MAX_SCALE as nat {
                        Ok((red.0, red.1, false))
                    } else {
                        Err(Error::NumericOverflow)
                    }
                },
            },
        }
    }
}

/// Once the sum fold stops on a prefix, every extension stops the same
/// way.
proof fn lemma_sum_fold_err_persists(vs: Seq<ValSpec>, j: int)
    requires
        0 <= j <= vs.len(),
        sum_fold(vs.subrange(0, j)) is Err,
    ensures
        sum_fold(vs) == sum_fold(vs.subrange(0, j)),
    decreases vs.len() - j,
{
    if j == vs.len() {
        assert(vs.subrange(0, j) =~= vs);
    } else {
        let p1 = vs.subrange(0, j + 1);
        assert(p1.drop_last() =~= vs.subrange(0, j));
        lemma_sum_fold_err_persists(vs, j + 1);
    }
}

/// Once the product fold stops on a prefix, every extension stops the
/// same way.
proof fn lemma_product_fold_err_persists(vs: Seq<ValSpec>, j: int)
    requires
        0 <= j <= vs.len(),
        product_fold(vs.subrange(0, j)) is Err,
    ensures
        product_fold(vs) == product_fold(vs.subrange(0, j)),
    decreases vs.len() - j,
{
    if j == vs.len() {
        assert(vs.subrange(0, j) =~= vs);
    } else {
        let p1 = vs.subrange(0, j + 1);
        assert(p1.drop_last() =~= vs.subrange(0, j));
        lemma_product_fold_err_persists(vs, j + 1);
    }
}

/// Folds a list of values into their exact sum, widening integers into
/// decimals as needed.  Fails with `NotNumeric` at the first value that
/// is not a number, and with `NumericOverflow` where an intermediate
/// result leaves the number representation; [`sum_fold`] says exactly
/// which, so the result is `Ok` on every other input.
pub fn sum_vals(vals: &Vec<MetaVal>) -> (r: Result<Number, Error>)
    ensures
        match r {
            Ok(n) => {
                &&& all_numeric(vals_view(vals@))
                &&& crate::values::Decimal::frac_eq(
                    n.mantissa(),
                    n.scale(),
                    sum_frac(vals_view(vals@)).0,
                    sum_frac(vals_view(vals@)).1,
                )
                &&& sum_fold(vals_view(vals@)) == Ok::<(int, nat, bool), Error>(
                    (n.mantissa(), n.scale(), n is Int),
                )
            },
            Err(e) => sum_fold(vals_view(vals@)) == Err::<(int, nat, bool), Error>(e),
        },
{
    let n: usize = vals.len();
    proof {
        lemma_vals_view_len(vals@);
    }
    let ghost vv: Seq<ValSpec> = vals_view(vals@);
    let mut acc: Number = Number::Int(0);
    let mut i: usize = 0;
    proof {
        assert(vv.subrange(0, 0) =~= Seq::<ValSpec>::empty());
    }
    #[verifier::loop_isolation(false)]
    while i < n
        invariant
            i <= n,
            all_numeric(vv.subrange(0, i as int)),
            crate::values::Decimal::frac_eq(
                acc.mantissa(),
                acc.scale(),
                sum_frac(vv.subrange(0, i as int)).0,
                sum_frac(vv.subrange(0, i as int)).1,
            ),
            sum_fold(vv.subrange(0, i as int)) == Ok::<(int, nat, bool), Error>(
                (acc.mantissa(), acc.scale(), acc is Int),
            ),
        decreases n - i,
    {
        proof {
            lemma_vals_view_index(vals@, i as int);
        }
        let ghost pre = vv.subrange(0, i as int);
        let ghost pre2 = vv.subrange(0, i as int + 1);
        proof {
            assert(pre2.drop_last() =~= pre);
            assert(pre2.last() == vv[i as int]);
        }
        let cur: Number = match to_number(&vals[i]) {
            Ok(nb) => nb,
            Err(e) => {
                proof {
                    assert(sum_fold(pre2) == Err::<(int, nat, bool), Error>(Error::NotNumeric));
                    lemma_sum_fold_err_persists(vv, i as int + 1);
                }
                return Err(e);
            },
        };
        let next: Number = match add_num(&acc, &cur) {
            Some(nb) => nb,
            None => {
                proof {
                    assert(sum_fold(pre2) == Err::<(int, nat, bool), Error>(
                        Error::NumericOverflow,
                    ));
                    lemma_sum_fold_err_persists(vv, i as int + 1);
                }
                return Err(Error::NumericOverflow);
            },
        };
        proof {
            assert(sum_frac(pre2) == frac_add(
                sum_frac(pre).0,
                sum_frac(pre).1,
                cur.mantissa(),
                cur.scale(),
            ));
            lemma_frac_add_congruence(
                (acc.mantissa(), acc.scale()),
                sum_frac(pre),
                (cur.mantissa(), cur.scale()),
            );
            lemma_frac_eq_trans(
                (next.mantissa(), next.scale()),
                frac_add(acc.mantissa(), acc.scale(), cur.mantissa(), cur.scale()),
                frac_add(sum_frac(pre).0, sum_frac(pre).1, cur.mantissa(), cur.scale()),
            );
            assert(forall|l: int| 0 <= l < i + 1 ==> num_frac(#[trigger] pre2[l]) is Some);
            lemma_number_bounds(next);
            assert(sum_fold(pre2) == Ok::<(int, nat, bool), Error>(
                (next.mantissa(), next.scale(), next is Int),
            ));
        }
        acc = next;
        i = i + 1;
    }
    proof {
        assert(vv.subrange(0, n as int) =~= vv);
    }
    Ok(acc)
}

/// Folds a list of values into their exact product, under the same rules
/// as [`sum_vals`]; [`product_fold`] says exactly when and how it fails,
/// so the result is `Ok` on every other input.
pub fn product_vals(vals: &Vec<MetaVal>) -> (r: Result<Number, Error>)
    ensures
        match r {
            Ok(n) => {
                &&& all_numeric(vals_view(vals@))
                &&& crate::values::Decimal::frac_eq(
                    n.mantissa(),
                    n.scale(),
                    product_frac(vals_view(vals@)).0,
                    product_frac(vals_view(vals@)).1,
                )
                &&& product_fold(vals_view(vals@)) == Ok::<(int, nat, bool), Error>(
                    (n.mantissa(), n.scale(), n is Int),
                )
            },
            Err(e) => product_fold(vals_view(vals@)) == Err::<(int, nat, bool), Error>(e),
        },
{
    let n: usize = vals.len();
    proof {
        lemma_vals_view_len(vals@);
    }
    let ghost vv: Seq<ValSpec> = vals_view(vals@);
    let mut acc: Number = Number::Int(1);
    let mut i: usize = 0;
    proof {
        assert(vv.subrange(0, 0) =~= Seq::<ValSpec>::empty());
    }
    #[verifier::loop_isolation(false)]
    while i < n
        invariant
            i <= n,
            all_numeric(vv.subrange(0, i as int)),
            crate::values::Decimal::frac_eq(
                acc.mantissa(),
                acc.scale(),
                product_frac(vv.subrange(0, i as int)).0,
                product_frac(vv.subrange(0, i as int)).1,
            ),
            product_fold(vv.subrange(0, i as int)) == Ok::<(int, nat, bool), Error>(
                (acc.mantissa(), acc.scale(), acc is Int),
            ),
        decreases n - i,
    {
        proof {
            lemma_vals_view_index(vals@, i as int);
        }
        let ghost pre = vv.subrange(0, i as int);
        let ghost pre2 = vv.subrange(0, i as int + 1);
        proof {
            assert(pre2.drop_last() =~= pre);
            assert(pre2.last() == vv[i as int]);
        }
        let cur: Number = match to_number(&vals[i]) {
            Ok(nb) => nb,
            Err(e) => {
                proof {
                    assert(product_fold(pre2) == Err::<(int, nat, bool), Error>(
                        Error::NotNumeric,
                    ));
                    lemma_product_fold_err_persists(vv, i as int + 1);
                }
                return Err(e);
            },
        };
        let next: Number = match mul_num(&acc, &cur) {
            Some(nb) => nb,
            None => {
                proof {
                    assert(product_fold(pre2) == Err::<(int, nat, bool), Error>(
                        Error::NumericOverflow,
                    ));
                    lemma_product_fold_err_persists(vv, i as int + 1);
                }
                return Err(Error::NumericOverflow);
            },
        };
        proof {
            assert(product_frac(pre2) == frac_mul(
                product_frac(pre).0,
                product_frac(pre).1,
                cur.mantissa(),
                cur.scale(),
            ));
            lemma_frac_mul_congruence(
                (acc.mantissa(), acc.scale()),
                product_frac(pre),
                (cur.mantissa(), cur.scale()),
            );
            lemma_frac_eq_trans(
                (next.mantissa(), next.scale()),
                frac_mul(acc.mantissa(), acc.scale(), cur.mantissa(), cur.scale()),
                frac_mul(product_frac(pre).0, product_frac(pre).1, cur.mantissa(), cur.scale()),
            );
            assert(forall|l: int| 0 <= l < i + 1 ==> num_frac(#[trigger] pre2[l]) is Some);
            lemma_number_bounds(next);
            assert(product_fold(pre2) == Ok::<(int, nat, bool), Error>(
                (next.mantissa(), next.scale(), next is Int),
            ));
        }
        acc = next;
        i = i + 1;
    }
    proof {
        assert(vv.subrange(0, n as int) =~= vv);
    }
    Ok(acc)
}

/// Equality of fractions is transitive.
proof fn lemma_frac_eq_trans(a: (int, nat), b: (int, nat), c: (int, nat))
    requires
        crate::values::Decimal::frac_eq(a.0, a.1, b.0, b.1),
        crate::values::Decimal::frac_eq(b.0, b.1, c.0, c.1),
    ensures
        crate::values::Decimal::frac_eq(a.0, a.1, c.0, c.1),
{
    let pa = crate::values::pow10(a.1);
    let pb = crate::values::pow10(b.1);
    let pc = crate::values::pow10(c.1);
    crate::values::lemma_pow10_pos(b.1);
    assert(a.0 * pc * pb == c.0 * pa * pb) by (nonlinear_arith)
        requires
            a.0 * pb == b.0 * pa,
            b.0 * pc == c.0 * pb,
    ;
    assert(a.0 * pc == c.0 * pa) by (nonlinear_arith)
        requires
            a.0 * pc * pb == c.0 * pa * pb,
            pb >= 1,
    ;
}

/// The largest or smallest of a list of numeric values: an element of the
/// list that no other element exceeds on the chosen side.
pub fn extreme_vals(vals: &Vec<MetaVal>, want_max: bool) -> (r: Result<Number, Error>)
    ensures
        match r {
            Ok(m) => {
                &&& all_numeric(vals_view(vals@))
                &&& vals_view(vals@).len() > 0
                &&& exists|i: int|
                    0 <= i < vals_view(vals@).len() && num_frac(#[trigger] vals_view(vals@)[i])
                        == Some((m.mantissa(), m.scale()))
                &&& want_max ==> forall|i: int|
                    0 <= i < vals_view(vals@).len() ==> !frac_lt(
                        m.mantissa(),
                        m.scale(),
                        frac_of(#[trigger] vals_view(vals@)[i]).0,
                        frac_of(vals_view(vals@)[i]).1,
                    )
                &&& !want_max ==> forall|i: int|
                    0 <= i < vals_view(vals@).len() ==> !frac_lt(
                        frac_of(#[trigger] vals_view(vals@)[i]).0,
                        frac_of(vals_view(vals@)[i]).1,
                        m.mantissa(),
                        m.scale(),
                    )
            },
            Err(Error::EmptyIterable) => vals_view(vals@).len() == 0,
            Err(e) => e == Error::NotNumeric && !all_numeric(vals_view(vals@)),
        },
{
    let n: usize = vals.len();
    proof {
        lemma_vals_view_len(vals@);
    }
    let ghost vv: Seq<ValSpec> = vals_view(vals@);
    if n == 0 {
        return Err(Error::EmptyIterable);
    }
    proof {
        lemma_vals_view_index(vals@, 0);
    }
    let mut best: Number = match to_number(&vals[0]) {
        Ok(nb) => nb,
        Err(e) => {
            proof {
                assert(num_frac(vv[0]) is None);
            }
            return Err(e);
        },
    };
    let ghost mut best_at: int = 0;
    let mut i: usize = 1;
    #[verifier::loop_isolation(false)]
    while i < n
        invariant
            1 <= i <= n,
            0 <= best_at < i,
            num_frac(vv[best_at]) == Some((best.mantissa(), best.scale())),
            all_numeric(vv.subrange(0, i as int)),
            want_max ==> forall|l: int|
                0 <= l < i ==> !frac_lt(
                    best.mantissa(),
                    best.scale(),
                    frac_of(#[trigger] vv[l]).0,
                    frac_of(vv[l]).1,
                ),
            !want_max ==> forall|l: int|
                0 <= l < i ==> !frac_lt(
                    frac_of(#[trigger] vv[l]).0,
                    frac_of(vv[l]).1,
                    best.mantissa(),
                    best.scale(),
                ),
        decreases n - i,
    {
        proof {
            lemma_vals_view_index(vals@, i as int);
        }
        let cur: Number = match to_number(&vals[i]) {
            Ok(nb) => nb,
            Err(e) => {
                proof {
                    assert(num_frac(vv[i as int]) is None);
                }
                return Err(e);
            },
        };
        let o: core::cmp::Ordering = cmp_num(&best, &cur);
        let better: bool = if want_max {
            matches!(o, core::cmp::Ordering::Less)
        } else {
            matches!(o, core::cmp::Ordering::Greater)
        };
        let ghost prev_best: Number = best;
        if better {
            best = cur;
            proof {
                best_at = i as int;
            }
        }
        proof {
            assert(forall|l: int| 0 <= l < i + 1 ==> num_frac(
                #[trigger] vv.subrange(0, i as int + 1)[l],
            ) is Some);
            if better {
                if want_max {
                    assert forall|l: int| 0 <= l < i + 1 implies !frac_lt(
                        best.mantissa(),
                        best.scale(),
                        frac_of(#[trigger] vv[l]).0,
                        frac_of(vv[l]).1,
                    ) by {
                        if l < i {
                            lemma_frac_ge_trans(
                                (best.mantissa(), best.scale()),
                                (prev_best.mantissa(), prev_best.scale()),
                                frac_of(vv[l]),
                            );
                        }
                    }
                } else {
                    assert forall|l: int| 0 <= l < i + 1 implies !frac_lt(
                        frac_of(#[trigger] vv[l]).0,
                        frac_of(vv[l]).1,
                        best.mantissa(),
                        best.scale(),
                    ) by {
                        if l < i {
                            lemma_frac_le_trans(
                                (best.mantissa(), best.scale()),
                                (prev_best.mantissa(), prev_best.scale()),
                                frac_of(vv[l]),
                            );
                        }
                    }
                }
            }
        }
        i = i + 1;
    }
    proof {
        assert(vv.subrange(0, n as int) =~= vv);
    }
    Ok(best)
}

/// Reversing the operands of a character comparison reverses its answer.
pub proof fn lemma_cmp_chars_flip(a: Seq<char>, b: Seq<char>)
    ensures
        crate::order::cmp_chars(a, b) == reverse_ordering(crate::order::cmp_chars(b, a)),
    decreases a.len() + b.len(),
{
    if a.len() > 0 && b.len() > 0 && !((a[0] as u32) < (b[0] as u32)) && !((a[0] as u32) > (
    b[0] as u32)) {
        lemma_cmp_chars_flip(a.subrange(1, a.len() as int), b.subrange(1, b.len() as int));
    }
}

/// The mirror image of an ordering.
pub open spec fn reverse_ordering(o: core::cmp::Ordering) -> core::cmp::Ordering {
    match o {
        core::cmp::Ordering::Less => core::cmp::Ordering::Greater,
        core::cmp::Ordering::Equal => core::cmp::Ordering::Equal,
        core::cmp::Ordering::Greater => core::cmp::Ordering::Less,
    }
}

/// The mirror image of an optional ordering.
pub open spec fn reverse_opt_ordering(o: Option<core::cmp::Ordering>) -> Option<
    core::cmp::Ordering,
> {
    match o {
        Some(x) => Some(reverse_ordering(x)),
        None => None,
    }
}

/// Reversing the operands of a value comparison reverses its answer.
pub proof fn lemma_cmp_val_flip(a: ValSpec, b: ValSpec)
    ensures
        cmp_val_spec(a, b) == reverse_opt_ordering(cmp_val_spec(b, a)),
    decreases a, b,
{
    match (a, b) {
        (ValSpec::Str(x), ValSpec::Str(y)) => {
            lemma_cmp_chars_flip(x, y);
        },
        (ValSpec::Sequence(x), ValSpec::Sequence(y)) => {
            lemma_cmp_elems_flip(x, y);
        },
        _ => {},
    }
}

/// Reversing the operands of a sequence comparison reverses its answer.
proof fn lemma_cmp_elems_flip(a: Seq<ValSpec>, b: Seq<ValSpec>)
    ensures
        crate::order::cmp_elems_spec(a, b) == reverse_opt_ordering(
            crate::order::cmp_elems_spec(b, a),
        ),
    decreases a, b,
{
    if a.len() > 0 && b.len() > 0 {
        lemma_cmp_val_flip(a[0], b[0]);
        match crate::order::cmp_val_spec(a[0], b[0]) {
            Some(core::cmp::Ordering::Equal) => {
                lemma_cmp_elems_flip(
                    a.subrange(1, a.len() as int),
                    b.subrange(1, b.len() as int),
                );
            },
            _ => {},
        }
    }
}

/// Whether one value is at most another under the value order.
pub open spec fn le_ok(a: ValSpec, b: ValSpec) -> bool {
    cmp_val_spec(a, b) == Some(core::cmp::Ordering::Less) || cmp_val_spec(a, b) == Some(
        core::cmp::Ordering::Equal,
    )
}

/// Whether adjacent values of a sequence are in order under the value
/// order.
pub open spec fn sorted_adjacent(vs: Seq<ValSpec>) -> bool {
    forall|i: int| 0 <= i < vs.len() - 1 ==> #[trigger] le_ok(vs[i], vs[i + 1])
}

/// The stable insertion point of a value into a list: after every value
/// not strictly greater than it; fails on the first incomparable pair.
fn insert_pos_vals(out: &Vec<MetaVal>, x: &MetaVal) -> (r: Result<usize, Error>)
    ensures
        match r {
            Ok(j) => {
                &&& j <= out@.len()
                &&& forall|l: int| 0 <= l < j ==> #[trigger] le_ok(vals_view(out@)[l], x@)
                &&& j < out@.len() ==> cmp_val_spec(vals_view(out@)[j as int], x@) == Some(
                    core::cmp::Ordering::Greater,
                )
            },
            Err(e) => {
                &&& e == Error::NotComparable
                &&& exists|l: int|
                    0 <= l < out@.len() && cmp_val_spec(
                        #[trigger] vals_view(out@)[l],
                        x@,
                    ) is None
            },
        },
{
    let m: usize = out.len();
    proof {
        lemma_vals_view_len(out@);
    }
    let mut j: usize = 0;
    #[verifier::loop_isolation(false)]
    while j < m
        invariant
            j <= m,
            m == out@.len(),
            forall|l: int| 0 <= l < j ==> #[trigger] le_ok(vals_view(out@)[l], x@),
        decreases m - j,
    {
        proof {
            lemma_vals_view_index(out@, j as int);
        }
        match cmp_val(&out[j], x) {
            None => {
                proof {
                    assert(cmp_val_spec(vals_view(out@)[j as int], x@) is None);
                }
                return Err(Error::NotComparable);
            },
            Some(core::cmp::Ordering::Greater) => {
                return Ok(j);
            },
            Some(_) => {
                j = j + 1;
            },
        }
    }
    Ok(m)
}

/// Sorts a list of values under the value order: the result holds the
/// same values, with every adjacent pair in order.  Fails only where two
/// values of the list do not compare, so a list whose values are
/// pairwise comparable always sorts.
pub fn sort_vals(vals: Vec<MetaVal>) -> (r: Result<Vec<MetaVal>, Error>)
    ensures
        match r {
            Ok(out) => {
                &&& vals_view(out@).to_multiset() == vals_view(vals@).to_multiset()
                &&& sorted_adjacent(vals_view(out@))
            },
            Err(e) => {
                &&& e == Error::NotComparable
                &&& exists|i: int, j: int|
                    0 <= i < vals_view(vals@).len() && 0 <= j < vals_view(vals@).len()
                        && (#[trigger] cmp_val_spec(
                        vals_view(vals@)[i],
                        vals_view(vals@)[j],
                    )) is None
            },
        },
{
    let n: usize = vals.len();
    proof {
        lemma_vals_view_len(vals@);
    }
    let ghost vv: Seq<ValSpec> = vals_view(vals@);
    let mut input: Vec<MetaVal> = vals;
    let mut out: Vec<MetaVal> = Vec::new();
    proof {
        broadcast use vstd::seq_lib::group_seq_properties;

        assert(vals_view(out@) =~= Seq::<ValSpec>::empty());
        assert(vals_view(out@).to_multiset().add(vals_view(input@).to_multiset())
            =~= vv.to_multiset());
    }
    #[verifier::loop_isolation(false)]
    while input.len() > 0
        invariant
            vals_view(out@).to_multiset().add(vals_view(input@).to_multiset())
                == vv.to_multiset(),
            sorted_adjacent(vals_view(out@)),
        decreases input@.len(),
    {
        proof {
            broadcast use vstd::seq_lib::group_seq_properties;

            lemma_vals_view_len(input@);
            lemma_vals_view_index(input@, 0);
        }
        let ghost inp_before: Seq<MetaVal> = input@;
        let x: MetaVal = input.remove(0);
        let ghost xv: ValSpec = val_view(x);
        proof {
            assert(input@ =~= inp_before.subrange(1, inp_before.len() as int));
            crate::operator::lemma_vals_view_tail(inp_before);
            assert(vals_view(inp_before) =~= seq![xv] + vals_view(input@));
            assert(vals_view(inp_before).to_multiset() =~= vals_view(
                input@,
            ).to_multiset().insert(xv)) by {
                lemma_cons_multiset(xv, vals_view(input@));
            }
        }
        // Scan for the first element strictly greater than x.
        let j: usize = match insert_pos_vals(&out, &x) {
            Ok(j) => j,
            Err(e) => {
                proof {
                    broadcast use vstd::seq_lib::group_to_multiset_ensures;

                    let ov = vals_view(out@);
                    lemma_vals_view_len(out@);
                    let l = choose|l: int|
                        0 <= l < out@.len() && cmp_val_spec(#[trigger] ov[l], xv) is None;
                    let ovl = ov[l];
                    // Both members of the failing pair count in the
                    // original multiset: one from the sorted prefix, one
                    // as the value just taken from the input.
                    assert(ov.contains(ovl));
                    assert(ov.to_multiset().count(ovl) > 0);
                    assert(vv.to_multiset().count(ovl) > 0);
                    assert(vv.contains(ovl));
                    assert(vals_view(inp_before).to_multiset().count(xv) > 0) by {
                        assert(vals_view(inp_before)[0] == xv);
                        assert(vals_view(inp_before).contains(xv));
                    }
                    assert(vv.to_multiset().count(xv) > 0);
                    assert(vv.contains(xv));
                    let wi = choose|wi: int| 0 <= wi < vv.len() && vv[wi] == ovl;
                    let wj = choose|wj: int| 0 <= wj < vv.len() && vv[wj] == xv;
                    assert(cmp_val_spec(vv[wi], vv[wj]) is None);
                }
                return Err(e);
            },
        };
        let ghost out_before: Seq<MetaVal> = out@;
        out.insert(j, x);
        proof {
            broadcast use vstd::seq_lib::group_seq_properties;

            assert(out@ == out_before.insert(j as int, out@[j as int]));
            lemma_vals_view_splice(out_before, out@, j as int);
            lemma_vals_view_len(out@);
            lemma_vals_view_len(out_before);
            let ov = vals_view(out_before);
            let ov2 = vals_view(out@);
            let spliced = ov.subrange(0, j as int) + seq![xv] + ov.subrange(
                j as int,
                ov.len() as int,
            );
            assert(out@[j as int] == out_before.insert(j as int, out@[j as int])[j as int]);
            assert(ov2[j as int] == val_view(out@[j as int]));
            assert(val_view(out@[j as int]) == xv) by {
                assert(out_before.subrange(0, j as int).push(out@[j as int])[j as int] == out@[
                    j as int
                ]);
            }
            assert(ov2 =~= spliced);
            // The same values, with the fresh one counted once more.
            lemma_splice_multiset(ov, xv, j as int);
            assert(spliced.to_multiset() == ov.to_multiset().insert(xv));
            assert(ov2.to_multiset() == ov.to_multiset().insert(xv));
            // Order holds around the insertion point.
            assert forall|l: int| 0 <= l < ov2.len() - 1 implies #[trigger] le_ok(
                ov2[l],
                ov2[l + 1],
            ) by {
                if l + 1 < j {
                    assert(ov2[l] == ov[l]);
                    assert(ov2[l + 1] == ov[l + 1]);
                    assert(le_ok(ov[l], ov[l + 1]));
                } else if l + 1 == j {
                    assert(ov2[l] == ov[l]);
                    assert(ov2[l + 1] == xv);
                    assert(le_ok(ov[l], xv));
                } else if l == j {
                    assert(ov2[l] == xv);
                    assert(ov2[l + 1] == ov[l]);
                    assert(cmp_val_spec(ov[l], xv) == Some(core::cmp::Ordering::Greater));
                    lemma_cmp_val_flip(xv, ov[l]);
                    assert(le_ok(xv, ov[l]));
                } else {
                    assert(ov2[l] == ov[l - 1]);
                    assert(ov2[l + 1] == ov[l]);
                    let i = l - 1;
                    assert(le_ok(ov[i], ov[i + 1]));
                }
            }
        }
    }
    proof {
        lemma_vals_view_len(input@);
        assert(vals_view(input@) =~= Seq::<ValSpec>::empty());
        assert(vals_view(out@).to_multiset().add(vals_view(input@).to_multiset())
            =~= vals_view(out@).to_multiset());
    }
    Ok(out)
}

/// Prepending one value adds it to a sequence's multiset.
proof fn lemma_cons_multiset(x: ValSpec, s: Seq<ValSpec>)
    ensures
        (seq![x] + s).to_multiset() == s.to_multiset().insert(x),
    decreases s.len(),
{
    broadcast use vstd::seq_lib::group_seq_properties;

    let w = seq![x] + s;
    if s.len() == 0 {
        assert(w =~= Seq::<ValSpec>::empty().push(x));
        assert(w.to_multiset() =~= s.to_multiset().insert(x));
    } else {
        assert(w =~= (seq![x] + s.drop_last()).push(s.last()));
        lemma_cons_multiset(x, s.drop_last());
        assert(w.to_multiset() =~= (seq![x] + s.drop_last()).to_multiset().insert(s.last()));
        assert(s =~= s.drop_last().push(s.last()));
        assert(s.to_multiset() =~= s.drop_last().to_multiset().insert(s.last()));
        assert(w.to_multiset() =~= s.to_multiset().insert(x));
    }
}

/// Splicing one value into a sequence adds it to the multiset.
proof fn lemma_splice_multiset(s: Seq<ValSpec>, x: ValSpec, j: int)
    requires
        0 <= j <= s.len(),
    ensures
        (s.subrange(0, j) + seq![x] + s.subrange(j, s.len() as int)).to_multiset()
            == s.to_multiset().insert(x),
    decreases s.len() - j,
{
    broadcast use vstd::seq_lib::group_seq_properties;

    let w = s.subrange(0, j) + seq![x] + s.subrange(j, s.len() as int);
    if j == s.len() {
        assert(w =~= s.push(x));
        assert(w.to_multiset() =~= s.to_multiset().insert(x));
    } else {
        let t = s.drop_last();
        assert(t.subrange(0, j) =~= s.subrange(0, j));
        assert(t.subrange(j, t.len() as int) =~= s.subrange(j, s.len() as int).drop_last());
        lemma_splice_multiset(t, x, j);
        let wt = t.subrange(0, j) + seq![x] + t.subrange(j, t.len() as int);
        assert(w =~= wt.push(s.last()));
        assert(w.to_multiset() =~= wt.to_multiset().insert(s.last()));
        assert(s =~= t.push(s.last()));
        assert(s.to_multiset() =~= t.to_multiset().insert(s.last()));
        assert(w.to_multiset() =~= s.to_multiset().insert(x)) by {
            assert(wt.to_multiset() == t.to_multiset().insert(x));
            assert(w.to_multiset() =~= t.to_multiset().insert(x).insert(s.last()));
            assert(t.to_multiset().insert(x).insert(s.last()) =~= t.to_multiset().insert(
                s.last(),
            ).insert(x));
        }
    }
}

/// A value pushed onto the operand stack.  A well-formed program leaves
/// exactly one value operand when it ends.
#[derive(Debug)]
pub enum Arg {
    /// A lazy, single-use value producer.
    Producer(Stream),
    /// A plain metadata value.
    Value(MetaVal),
    /// An unsigned machine integer, for indexed operators.
    Usize(usize),
    /// A unary predicate.
    Pred1(Pred1),
    /// A unary converter.
    UnaryConv(UnaryConv),
}

/// The items an operand yields when treated as an iterable: a producer's
/// stream, or the elements of a sequence value.
pub open spec fn iter_of(a: Arg) -> Option<Seq<Result<ValSpec, Error>>> {
    match a {
        Arg::Producer(st) => Some(st.remaining()),
        Arg::Value(v) => match val_view(v) {
            ValSpec::Sequence(es) => Some(crate::stream::all_ok(es)),
            _ => None,
        },
        _ => None,
    }
}

impl Arg {
    /// Treats this operand as an iterable, or reports that it is not one.
    pub fn into_iterable(self) -> (r: Result<IterableLike, Error>)
        ensures
            match r {
                Ok(it) => iter_of(self) == Some(it.items_spec()),
                Err(e) => iter_of(self) == None::<Seq<Result<ValSpec, Error>>> && e
                    == Error::NotIterable,
            },
    {
        match self {
            Arg::Producer(st) => Ok(IterableLike::Stream(st)),
            Arg::Value(v) => {
                let ghost vv: ValSpec = val_view(v);
                match v {
                    MetaVal::Sequence(vs) => {
                        proof {
                            assert(vv == ValSpec::Sequence(vals_view(vs@)));
                        }
                        Ok(IterableLike::Sequence(vs))
                    },
                    _ => Err(Error::NotIterable),
                }
            },
            _ => Err(Error::NotIterable),
        }
    }
}

/// The resolved surroundings a script runs in: the value streams seeded
/// from the item's ancestors and from its descendants, as the caller
/// walked and resolved them.
#[derive(Debug)]
pub struct ResolverContext {
    /// One `(path, value)` result per ancestor, nearest first.
    pub parents_pairs: Vec<Result<(PathInfo, MetaVal), String>>,
    /// One `(path, value)` result per descendant, in walk order.
    pub children_pairs: Vec<Result<(PathInfo, MetaVal), String>>,
}

/// An operator that takes no operand: it seeds a stream from the context.
#[derive(Debug, Clone, Copy, PartialEq, Eq)]
pub enum NullaryOp {
    /// The field's values along the item's ancestors.
    Parents,
    /// The field's values beneath the item.
    Children,
}

/// The view of one resolved pair result, as a stream item.
pub open spec fn pair_item_view(p: Result<(PathInfo, MetaVal), String>) -> Result<
    ValSpec,
    Error,
> {
    match p {
        Ok(pv) => Ok(val_view(pv.1)),
        Err(_) => Err(Error::ValueStream),
    }
}

/// Duplicates a list of resolved pairs, preserving each item's view.
fn duplicate_pairs(pairs: &Vec<Result<(PathInfo, MetaVal), String>>) -> (r: Vec<
    Result<(PathInfo, MetaVal), String>,
>)
    ensures
        r@.len() == pairs@.len(),
        forall|i: int|
            0 <= i < pairs@.len() ==> pair_item_view(#[trigger] r@[i]) == pair_item_view(
                pairs@[i],
            ),
{
    let n: usize = pairs.len();
    let mut out: Vec<Result<(PathInfo, MetaVal), String>> = Vec::new();
    let mut i: usize = 0;
    #[verifier::loop_isolation(false)]
    while i < n
        invariant
            i <= n,
            n == pairs@.len(),
            out@.len() == i,
            forall|l: int|
                0 <= l < i ==> pair_item_view(#[trigger] out@[l]) == pair_item_view(
                    pairs@[l],
                ),
        decreases n - i,
    {
        let ghost out_before: Seq<Result<(PathInfo, MetaVal), String>> = out@;
        match &pairs[i] {
            Ok(pv) => {
                out.push(Ok((pv.0.duplicate(), pv.1.duplicate())));
            },
            Err(e) => {
                out.push(Err(e.clone()));
            },
        }
        proof {
            assert(forall|l: int| 0 <= l < i ==> #[trigger] out@[l] == out_before[l]);
        }
        i = i + 1;
    }
    out
}

impl NullaryOp {
    /// Seeds a value stream from the context and pushes it.
    pub fn process(&self, rc: &ResolverContext, stack: &mut Vec<Arg>)
        ensures
            final(stack)@.len() == old(stack)@.len() + 1,
            forall|i: int|
                0 <= i < old(stack)@.len() ==> #[trigger] final(stack)@[i] == old(stack)@[i],
            final(stack)@.last() is Producer,
            iter_of(final(stack)@.last()) matches Some(items) && items.len() == (match *self {
                NullaryOp::Parents => rc.parents_pairs@.len(),
                NullaryOp::Children => rc.children_pairs@.len(),
            }) && forall|i: int|
                0 <= i < items.len() ==> #[trigger] items[i] == pair_item_view(
                    match *self {
                        NullaryOp::Parents => rc.parents_pairs@[i],
                        NullaryOp::Children => rc.children_pairs@[i],
                    },
                ),
    {
        let pairs: Vec<Result<(PathInfo, MetaVal), String>> = match self {
            NullaryOp::Parents => duplicate_pairs(&rc.parents_pairs),
            NullaryOp::Children => duplicate_pairs(&rc.children_pairs),
        };
        let ghost pview: Seq<Result<(PathInfo, MetaVal), String>> = pairs@;
        let src: Source = Source::new(pairs);
        let st: Stream = src.into_stream();
        let ghost items: Seq<Result<ValSpec, Error>> = st.remaining();
        let ghost stg: Stream = st;
        let ghost stack_before: Seq<Arg> = stack@;
        stack.push(Arg::Producer(st));
        proof {
            assert(forall|i: int|
                0 <= i < stack_before.len() ==> #[trigger] stack@[i] == stack_before[i]);
            assert(stack@.last() == Arg::Producer(stg));
            assert(iter_of(stack@.last()) == Some(items));
            assert forall|i: int| 0 <= i < items.len() implies #[trigger] items[i]
                == pair_item_view(
                match *self {
                    NullaryOp::Parents => rc.parents_pairs@[i],
                    NullaryOp::Children => rc.children_pairs@[i],
                },
            ) by {
                assert(items[i] == pair_item_view(pview[i]));
            }
        }
    }
}

/// An operator that takes one iterable operand and pushes one value.
#[derive(Debug, Clone, Copy, PartialEq, Eq)]
pub enum UnaryOp {
    /// All items, as one sequence value.
    Collect,
    /// How many items there are.
    Count,
    /// The first value, or nil on an empty iterable.
    First,
    /// The last value, or nil on an empty iterable.
    Last,
    /// The largest numeric value.
    MaxIn,
    /// The smallest numeric value.
    MinIn,
    /// All items in reverse, as one sequence value.
    Rev,
    /// The exact sum of the numeric values; zero on an empty iterable.
    Sum,
    /// The exact product of the numeric values; one on an empty iterable.
    Product,
    /// Whether every value equals the first; true on an empty iterable.
    AllEqual,
    /// All items sorted under the value order, as one sequence value.
    Sort,
}

impl UnaryOp {
    /// Pops one iterable operand, folds it, and pushes the one result
    /// value.  The popped operand is consumed even when the fold fails.
    pub fn process(&self, stack: &mut Vec<Arg>) -> (r: Result<(), Error>)
        ensures
            match r {
                Ok(()) => {
                    &&& old(stack)@.len() > 0
                    &&& iter_of(old(stack)@.last()) is Some
                    &&& final(stack)@.len() == old(stack)@.len()
                    &&& forall|i: int|
                        0 <= i < old(stack)@.len() - 1 ==> #[trigger] final(stack)@[i] == old(
                            stack,
                        )@[i]
                    &&& final(stack)@.last() matches Arg::Value(out)
                    &&& unary_ok_post(*self, iter_of(old(stack)@.last())->0, val_view(
                        final(stack)@.last()->Value_0,
                    ))
                },
                Err(e) => if old(stack)@.len() == 0 {
                    e == Error::EmptyStack && final(stack)@ == old(stack)@
                } else {
                    &&& final(stack)@ == old(stack)@.drop_last()
                    &&& match iter_of(old(stack)@.last()) {
                        None => e == Error::NotIterable,
                        Some(items) => unary_err_post(*self, items, e),
                    }
                },
            },
    {
        let popped: Arg = match stack.pop() {
            Some(a) => a,
            None => {
                return Err(Error::EmptyStack);
            },
        };
        proof {
            assert(stack@ == old(stack)@.drop_last());
            assert(popped == old(stack)@.last());
        }
        let it: IterableLike = match popped.into_iterable() {
            Ok(it) => it,
            Err(e) => {
                return Err(e);
            },
        };
        let ghost items: Seq<Result<ValSpec, Error>> = it.items_spec();
        let st: Stream = it.into_stream();
        let out: MetaVal = match self {
            UnaryOp::Collect => {
                match force_stream(st) {
                    Ok(vs) => MetaVal::Sequence(vs),
                    Err(e) => {
                        return Err(e);
                    },
                }
            },
            UnaryOp::Count => {
                let vs: Vec<MetaVal> = match force_stream(st) {
                    Ok(vs) => vs,
                    Err(e) => {
                        return Err(e);
                    },
                };
                proof {
                    lemma_vals_view_len(vs@);
                }
                if vs.len() as u64 > i64::MAX as u64 {
                    return Err(Error::NumericOverflow);
                }
                MetaVal::Int(vs.len() as i64)
            },
            UnaryOp::First => {
                let mut st: Stream = st;
                match st.next() {
                    None => MetaVal::Nil,
                    Some(Ok(v)) => v,
                    Some(Err(e)) => {
                        return Err(e);
                    },
                }
            },
            UnaryOp::Last => {
                let mut vs: Vec<MetaVal> = match force_stream(st) {
                    Ok(vs) => vs,
                    Err(e) => {
                        return Err(e);
                    },
                };
                proof {
                    lemma_vals_view_len(vs@);
                }
                if vs.len() == 0 {
                    MetaVal::Nil
                } else {
                    let ghost vsnap: Seq<MetaVal> = vs@;
                    let v: MetaVal = vs.remove(vs.len() - 1);
                    proof {
                        lemma_vals_view_index(vsnap, vsnap.len() - 1);
                    }
                    v
                }
            },
            UnaryOp::MaxIn => {
                let vs: Vec<MetaVal> = match force_stream(st) {
                    Ok(vs) => vs,
                    Err(e) => {
                        return Err(e);
                    },
                };
                match extreme_vals(&vs, true) {
                    Ok(n) => n.into_val(),
                    Err(e) => {
                        return Err(e);
                    },
                }
            },
            UnaryOp::MinIn => {
                let vs: Vec<MetaVal> = match force_stream(st) {
                    Ok(vs) => vs,
                    Err(e) => {
                        return Err(e);
                    },
                };
                match extreme_vals(&vs, false) {
                    Ok(n) => n.into_val(),
                    Err(e) => {
                        return Err(e);
                    },
                }
            },
            UnaryOp::Rev => {
                let vs: Vec<MetaVal> = match force_stream(st) {
                    Ok(vs) => vs,
                    Err(e) => {
                        return Err(e);
                    },
                };
                MetaVal::Sequence(reverse_vals(vs))
            },
            UnaryOp::Sum => {
                let vs: Vec<MetaVal> = match force_stream(st) {
                    Ok(vs) => vs,
                    Err(e) => {
                        return Err(e);
                    },
                };
                match sum_vals(&vs) {
                    Ok(n) => n.into_val(),
                    Err(e) => {
                        return Err(e);
                    },
                }
            },
            UnaryOp::Product => {
                let vs: Vec<MetaVal> = match force_stream(st) {
                    Ok(vs) => vs,
                    Err(e) => {
                        return Err(e);
                    },
                };
                match product_vals(&vs) {
                    Ok(n) => n.into_val(),
                    Err(e) => {
                        return Err(e);
                    },
                }
            },
            UnaryOp::AllEqual => {
                let vs: Vec<MetaVal> = match force_stream(st) {
                    Ok(vs) => vs,
                    Err(e) => {
                        return Err(e);
                    },
                };
                MetaVal::Bul(all_equal_vals(&vs))
            },
            UnaryOp::Sort => {
                let vs: Vec<MetaVal> = match force_stream(st) {
                    Ok(vs) => vs,
                    Err(e) => {
                        return Err(e);
                    },
                };
                match sort_vals(vs) {
                    Ok(ws) => MetaVal::Sequence(ws),
                    Err(e) => {
                        return Err(e);
                    },
                }
            },
        };
        let ghost outv: ValSpec = val_view(out);
        let ghost outg: MetaVal = out;
        proof {
            assert(unary_ok_post(*self, items, outv));
        }
        let ghost stack_mid: Seq<Arg> = stack@;
        stack.push(Arg::Value(out));
        proof {
            assert(stack@ == stack_mid.push(Arg::Value(outg)));
            assert(stack@.last() == Arg::Value(outg));
            assert(val_view(stack@.last()->Value_0) == outv);
            assert(forall|i: int|
                0 <= i < old(stack)@.len() - 1 ==> #[trigger] stack@[i] == old(stack)@[i]);
        }
        Ok(())
    }
}

impl Arg {
    /// Reads this operand as an index, accepting a non-negative integer
    /// value as well.
    pub fn into_usize(self) -> (r: Result<usize, Error>)
        ensures
            match r {
                Ok(u) => (self matches Arg::Usize(w) && w == u) || (self matches Arg::Value(v)
                    && val_view(v) == ValSpec::Int(u as int)),
                Err(e) => {
                    &&& e == Error::NotUsize
                    &&& !(self is Usize)
                    &&& !(self matches Arg::Value(v) && val_view(v) matches ValSpec::Int(i) && 0
                        <= i <= usize::MAX as int)
                },
            },
    {
        match self {
            Arg::Usize(u) => Ok(u),
            Arg::Value(MetaVal::Int(i)) => {
                if i < 0 {
                    Err(Error::NotUsize)
                } else if i as u64 > usize::MAX as u64 {
                    Err(Error::NotUsize)
                } else {
                    Ok(i as usize)
                }
            },
            _ => Err(Error::NotUsize),
        }
    }

    /// Reads this operand as a boolean value.
    pub fn into_bool(self) -> (r: Result<bool, Error>)
        ensures
            match r {
                Ok(b) => self matches Arg::Value(v) && val_view(v) == ValSpec::Bul(b),
                Err(e) => {
                    &&& e == Error::NotBoolean
                    &&& !(self matches Arg::Value(v) && val_view(v) is Bul)
                },
            },
    {
        match self {
            Arg::Value(MetaVal::Bul(b)) => Ok(b),
            _ => Err(Error::NotBoolean),
        }
    }

    /// Reads this operand as a predicate.
    pub fn into_pred(self) -> (r: Result<Pred1, Error>)
        ensures
            match r {
                Ok(p) => self == Arg::Pred1(p),
                Err(e) => !(self is Pred1) && e == Error::NotPredicate,
            },
    {
        match self {
            Arg::Pred1(p) => Ok(p),
            _ => Err(Error::NotPredicate),
        }
    }

    /// Reads this operand as a converter.
    pub fn into_conv(self) -> (r: Result<UnaryConv, Error>)
        ensures
            match r {
                Ok(c) => self matches Arg::UnaryConv(c2) && c2 == c,
                Err(e) => !(self is UnaryConv) && e == Error::NotConverter,
            },
    {
        match self {
            Arg::UnaryConv(c) => Ok(c),
            _ => Err(Error::NotConverter),
        }
    }

    /// Reads this operand as a producer.
    pub fn into_producer(self) -> (r: Result<Stream, Error>)
        ensures
            match r {
                Ok(st) => self matches Arg::Producer(st2) && st2.remaining() == st.remaining(),
                Err(e) => !(self is Producer) && e == Error::NotProducer,
            },
    {
        match self {
            Arg::Producer(st) => Ok(st),
            _ => Err(Error::NotProducer),
        }
    }
}

/// One step of a script program.
#[derive(Debug, Clone, Copy, PartialEq, Eq)]
pub enum ScriptOp {
    /// Seeds a stream from the context.
    Nullary(NullaryOp),
    /// Folds the top iterable into one value.
    Unary(UnaryOp),
}

/// How one operator relates the stack before it to the stack after it,
/// when it succeeds: what that operator's own `process` ensures.
pub open spec fn script_step(op: ScriptOp, rc: ResolverContext, before: Seq<Arg>, after: Seq<
    Arg,
>) -> bool {
    match op {
        ScriptOp::Nullary(nop) => {
            &&& after.len() == before.len() + 1
            &&& forall|i: int| 0 <= i < before.len() ==> #[trigger] after[i] == before[i]
            &&& after.last() is Producer
            &&& iter_of(after.last()) matches Some(items) && items.len() == (match nop {
                NullaryOp::Parents => rc.parents_pairs@.len(),
                NullaryOp::Children => rc.children_pairs@.len(),
            }) && (forall|i: int|
                0 <= i < items.len() ==> #[trigger] items[i] == pair_item_view(
                    match nop {
                        NullaryOp::Parents => rc.parents_pairs@[i],
                        NullaryOp::Children => rc.children_pairs@[i],
                    },
                ))
        },
        ScriptOp::Unary(uop) => {
            &&& before.len() > 0
            &&& iter_of(before.last()) is Some
            &&& after.len() == before.len()
            &&& forall|i: int| 0 <= i < before.len() - 1 ==> #[trigger] after[i] == before[i]
            &&& after.last() matches Arg::Value(out)
            &&& unary_ok_post(uop, iter_of(before.last())->0, val_view(after.last()->Value_0))
        },
    }
}

/// Whether one operator fails on the given stack with the given error:
/// what that operator's own `process` ensures of its error.
pub open spec fn script_step_fails(op: ScriptOp, before: Seq<Arg>, e: Error) -> bool {
    match op {
        ScriptOp::Nullary(_) => false,
        ScriptOp::Unary(uop) => if before.len() == 0 {
            e == Error::EmptyStack
        } else {
            match iter_of(before.last()) {
                None => e == Error::NotIterable,
                Some(items) => unary_err_post(uop, items, e),
            }
        },
    }
}

/// Whether a stack trace records the run of the first `k` operators of a
/// program: the initial stack, then one stack per step, each related to
/// the next by the operator that ran.
pub open spec fn script_trace_to(
    program: Seq<ScriptOp>,
    rc: ResolverContext,
    init: Seq<Arg>,
    trace: Seq<Seq<Arg>>,
    k: int,
) -> bool {
    &&& 0 <= k <= program.len()
    &&& trace.len() == k + 1
    &&& trace[0] == init
    &&& forall|j: int|
        0 <= j < k ==> script_step(program[j], rc, #[trigger] trace[j], trace[j + 1])
}

/// How the run's result reads off the stack left when the program ends:
/// the one value left, a producer on top forced into a sequence value,
/// and the exact error for every other stack.
pub open spec fn script_result(stack: Seq<Arg>, r: Result<MetaVal, Error>) -> bool {
    if stack.len() == 0 {
        r == Err::<MetaVal, Error>(Error::EmptyStack)
    } else if stack.len() != 1 {
        r == Err::<MetaVal, Error>(Error::UnbalancedStack)
    } else {
        match stack[0] {
            Arg::Value(v) => r == Ok::<MetaVal, Error>(v),
            Arg::Producer(st) => match r {
                Ok(v) => val_view(v) matches ValSpec::Sequence(vs) && force_spec(st.remaining())
                    == Ok::<Seq<ValSpec>, Error>(vs),
                Err(e) => force_spec(st.remaining()) == Err::<Seq<ValSpec>, Error>(e),
            },
            _ => r == Err::<MetaVal, Error>(Error::NotProducer),
        }
    }
}

/// Runs a linear program over an operand stack, one operator at a time,
/// and hands back the one value a well-formed program leaves.  A producer
/// left on top is forced into a sequence value first.  The result is a
/// fold of the program over the operator contracts: some trace of
/// intermediate stacks joins the initial stack to the answer, either
/// running every operator and reading the result off the last stack, or
/// stopping at the first operator that fails, with its error.
pub fn run_script(
    program: Vec<ScriptOp>,
    initial_stack: Vec<Arg>,
    rc: &ResolverContext,
) -> (r: Result<MetaVal, Error>)
    ensures
        match r {
            Ok(v) => exists|trace: Seq<Seq<Arg>>|
                #[trigger] script_trace_to(
                    program@,
                    *rc,
                    initial_stack@,
                    trace,
                    program@.len() as int,
                ) && script_result(trace.last(), Ok(v)),
            Err(e) => exists|trace: Seq<Seq<Arg>>, k: int|
                #[trigger] script_trace_to(program@, *rc, initial_stack@, trace, k) && if k
                    < program@.len() {
                    script_step_fails(program@[k], trace.last(), e)
                } else {
                    script_result(trace.last(), Err(e))
                },
        },
        program@.len() == 0 && initial_stack@.len() == 1 && initial_stack@[0] is Value ==> r
            == Ok::<MetaVal, Error>(initial_stack@[0]->Value_0),
        program@.len() == 0 && initial_stack@.len() == 1 && initial_stack@[0] is Producer
            ==> (match r {
            Ok(v) => v@ matches ValSpec::Sequence(vs) && force_spec(
                initial_stack@[0]->Producer_0.remaining(),
            ) == Ok::<Seq<ValSpec>, Error>(vs),
            Err(e) => force_spec(initial_stack@[0]->Producer_0.remaining()) == Err::<
                Seq<ValSpec>,
                Error,
            >(e),
        }),
        program@.len() == 0 && initial_stack@.len() == 0 ==> r == Err::<MetaVal, Error>(
            Error::EmptyStack,
        ),
{
    let mut stack: Vec<Arg> = initial_stack;
    let n: usize = program.len();
    let mut i: usize = 0;
    let ghost init: Seq<Arg> = stack@;
    let ghost mut trace: Seq<Seq<Arg>> = seq![init];
    #[verifier::loop_isolation(false)]
    while i < n
        invariant
            i <= n,
            n == 0 ==> stack@ == initial_stack@,
            trace.len() == i + 1,
            trace[0] == init,
            trace.last() == stack@,
            forall|j: int|
                0 <= j < i ==> script_step(program@[j], *rc, #[trigger] trace[j], trace[j + 1]),
        decreases n - i,
    {
        let ghost before: Seq<Arg> = stack@;
        match &program[i] {
            ScriptOp::Nullary(op) => {
                op.process(rc, &mut stack);
                proof {
                    assert(script_step(program@[i as int], *rc, before, stack@));
                }
            },
            ScriptOp::Unary(op) => {
                match op.process(&mut stack) {
                    Ok(()) => {
                        proof {
                            assert(script_step(program@[i as int], *rc, before, stack@));
                        }
                    },
                    Err(e) => {
                        proof {
                            assert(script_step_fails(program@[i as int], before, e));
                            assert(script_trace_to(program@, *rc, init, trace, i as int));
                        }
                        return Err(e);
                    },
                }
            },
        }
        proof {
            trace = trace.push(stack@);
        }
        i = i + 1;
    }
    proof {
        assert(script_trace_to(program@, *rc, init, trace, n as int));
    }
    let ghost end: Seq<Arg> = stack@;
    let top: Arg = match stack.pop() {
        Some(a) => a,
        None => {
            proof {
                assert(script_result(end, Err::<MetaVal, Error>(Error::EmptyStack)));
            }
            return Err(Error::EmptyStack);
        },
    };
    if stack.len() != 0 {
        // A well-formed program consumes everything beneath its result.
        proof {
            assert(script_result(end, Err::<MetaVal, Error>(Error::UnbalancedStack)));
        }
        return Err(Error::UnbalancedStack);
    }
    proof {
        assert(end.len() == 1);
        assert(end[0] == top);
    }
    match top {
        Arg::Value(v) => {
            proof {
                assert(script_result(end, Ok::<MetaVal, Error>(v)));
            }
            Ok(v)
        },
        Arg::Producer(st) => {
            let ghost stg: Stream = st;
            match force_stream(st) {
                Ok(vs) => {
                    proof {
                        crate::values::lemma_vals_view_len(vs@);
                        assert(script_result(
                            end,
                            Ok::<MetaVal, Error>(MetaVal::Sequence(vs)),
                        ));
                    }
                    Ok(MetaVal::Sequence(vs))
                },
                Err(e) => {
                    proof {
                        assert(script_result(end, Err::<MetaVal, Error>(e)));
                    }
                    Err(e)
                },
            }
        },
        _ => {
            proof {
                assert(script_result(end, Err::<MetaVal, Error>(Error::NotProducer)));
            }
            Err(Error::NotProducer)
        },
    }
}

/// What holds of the pushed value after a successful unary fold, given
/// the items the popped iterable held.
pub open spec fn unary_ok_post(op: UnaryOp, items: Seq<Result<ValSpec, Error>>, out: ValSpec) -> bool {
    match op {
        UnaryOp::Collect => force_spec(items) == Ok::<Seq<ValSpec>, Error>(
            out->Sequence_0,
        ) && out is Sequence,
        UnaryOp::Count => force_spec(items) is Ok && out == ValSpec::Int(
            force_spec(items)->Ok_0.len() as int,
        ),
        UnaryOp::First => if items.len() == 0 {
            out == ValSpec::Nil
        } else {
            items[0] == Ok::<ValSpec, Error>(out)
        },
        UnaryOp::Last => force_spec(items) matches Ok(vs) && (if vs.len() == 0 {
            out == ValSpec::Nil
        } else {
            out == vs.last()
        }),
        UnaryOp::MaxIn => force_spec(items) matches Ok(vs) && all_numeric(vs) && vs.len() > 0
            && (exists|i: int|
            0 <= i < vs.len() && num_frac(#[trigger] vs[i]) == num_frac(out)) && (forall|i: int|
            0 <= i < vs.len() ==> !frac_lt(
                frac_of(out).0,
                frac_of(out).1,
                frac_of(#[trigger] vs[i]).0,
                frac_of(vs[i]).1,
            )),
        UnaryOp::MinIn => force_spec(items) matches Ok(vs) && all_numeric(vs) && vs.len() > 0
            && (exists|i: int|
            0 <= i < vs.len() && num_frac(#[trigger] vs[i]) == num_frac(out)) && (forall|i: int|
            0 <= i < vs.len() ==> !frac_lt(
                frac_of(#[trigger] vs[i]).0,
                frac_of(vs[i]).1,
                frac_of(out).0,
                frac_of(out).1,
            )),
        UnaryOp::Rev => force_spec(items) matches Ok(vs) && out == ValSpec::Sequence(
            vs.reverse(),
        ),
        UnaryOp::Sum => force_spec(items) matches Ok(vs) && all_numeric(vs)
            && num_frac(out) is Some && Decimal::frac_eq(
            frac_of(out).0,
            frac_of(out).1,
            sum_frac(vs).0,
            sum_frac(vs).1,
        ),
        UnaryOp::Product => force_spec(items) matches Ok(vs) && all_numeric(vs)
            && num_frac(out) is Some && Decimal::frac_eq(
            frac_of(out).0,
            frac_of(out).1,
            product_frac(vs).0,
            product_frac(vs).1,
        ),
        UnaryOp::AllEqual => force_spec(items) matches Ok(vs) && out == ValSpec::Bul(
            forall|i: int| 0 <= i < vs.len() ==> #[trigger] vs[i] == vs[0],
        ),
        UnaryOp::Sort => force_spec(items) matches Ok(vs) && out matches ValSpec::Sequence(ws)
            && ws.to_multiset() == vs.to_multiset() && sorted_adjacent(ws),
    }
}

/// What holds of the error after a failed unary fold, given the items the
/// popped iterable held.  Each operator fails exactly where its defining
/// fold does, so on any other items [`UnaryOp::process`] is bound to
/// succeed.
pub open spec fn unary_err_post(op: UnaryOp, items: Seq<Result<ValSpec, Error>>, e: Error) -> bool {
    match op {
        UnaryOp::Collect | UnaryOp::Last | UnaryOp::Rev | UnaryOp::AllEqual => force_spec(items)
            == Err::<Seq<ValSpec>, Error>(e),
        UnaryOp::Count => match force_spec(items) {
            Err(e0) => e == e0,
            Ok(vs) => e == Error::NumericOverflow && vs.len() > 0x7fffffffffffffff,
        },
        UnaryOp::First => items.len() > 0 && items[0] == Err::<ValSpec, Error>(e),
        UnaryOp::MaxIn | UnaryOp::MinIn => match force_spec(items) {
            Err(e0) => e == e0,
            Ok(vs) => if vs.len() == 0 {
                e == Error::EmptyIterable
            } else {
                e == Error::NotNumeric && !all_numeric(vs)
            },
        },
        UnaryOp::Sum => match force_spec(items) {
            Err(e0) => e == e0,
            Ok(vs) => sum_fold(vs) == Err::<(int, nat, bool), Error>(e),
        },
        UnaryOp::Product => match force_spec(items) {
            Err(e0) => e == e0,
            Ok(vs) => product_fold(vs) == Err::<(int, nat, bool), Error>(e),
        },
        UnaryOp::Sort => match force_spec(items) {
            Err(e0) => e == e0,
            Ok(vs) => e == Error::NotComparable && exists|i: int, j: int|
                0 <= i < vs.len() && 0 <= j < vs.len() && (#[trigger] cmp_val_spec(
                    vs[i],
                    vs[j],
                )) is None,
        },
    }
}

/// The values of a list in reverse order.
fn reverse_vals(vals: Vec<MetaVal>) -> (r: Vec<MetaVal>)
    ensures
        vals_view(r@) == vals_view(vals@).reverse(),
{
    let ghost vv: Seq<ValSpec> = vals_view(vals@);
    let mut input: Vec<MetaVal> = vals;
    let mut out: Vec<MetaVal> = Vec::new();
    proof {
        lemma_vals_view_len(input@);
    }
    #[verifier::loop_isolation(false)]
    while input.len() > 0
        invariant
            vals_view(input@).len() + vals_view(out@).len() == vv.len(),
            vals_view(input@) == vv.subrange(0, vals_view(input@).len() as int),
            forall|l: int|
                0 <= l < vals_view(out@).len() ==> #[trigger] vals_view(out@)[l] == vv[vv.len()
                    - 1 - l],
        decreases input@.len(),
    {
        proof {
            lemma_vals_view_len(input@);
            lemma_vals_view_index(input@, input@.len() - 1);
        }
        let ghost inp_before: Seq<MetaVal> = input@;
        let ghost out_before: Seq<MetaVal> = out@;
        let last_idx: usize = input.len() - 1;
        let v: MetaVal = input.remove(last_idx);
        let ghost vg: MetaVal = v;
        proof {
            assert(input@ =~= inp_before.subrange(0, inp_before.len() - 1));
            lemma_vals_view_prefix(inp_before, input@);
        }
        out.push(v);
        proof {
            assert(out@ == out_before.push(vg));
            lemma_vals_view_snoc(out_before, out@, vg);
            lemma_vals_view_len(out@);
            assert(val_view(vg) == vals_view(inp_before).last());
        }
    }
    proof {
        lemma_vals_view_len(input@);
        lemma_vals_view_len(out@);
        assert forall|l: int| 0 <= l < vv.len() implies vals_view(out@)[l] == vv.reverse()[l]
            by {}
        assert(vals_view(out@) =~= vv.reverse());
    }
    out
}

/// Dropping the last element of a value list drops the last of its view.
proof fn lemma_vals_view_prefix(before: Seq<MetaVal>, after: Seq<MetaVal>)
    requires
        before.len() > 0,
        after == before.subrange(0, before.len() - 1),
    ensures
        vals_view(after) == vals_view(before).drop_last(),
{
    lemma_vals_view_len(after);
    lemma_vals_view_len(before);
    assert forall|l: int| 0 <= l < after.len() implies vals_view(after)[l] == vals_view(
        before,
    ).drop_last()[l] by {
        lemma_vals_view_index(after, l);
        lemma_vals_view_index(before, l);
        assert(after[l] == before[l]);
    }
    assert(vals_view(after) =~= vals_view(before).drop_last());
}

/// Whether every value of a list equals the first.
fn all_equal_vals(vals: &Vec<MetaVal>) -> (r: bool)
    ensures
        r == forall|i: int|
            0 <= i < vals_view(vals@).len() ==> #[trigger] vals_view(vals@)[i] == vals_view(
                vals@,
            )[0],
{
    let n: usize = vals.len();
    proof {
        lemma_vals_view_len(vals@);
    }
    if n == 0 {
        return true;
    }
    let mut i: usize = 1;
    #[verifier::loop_isolation(false)]
    while i < n
        invariant
            1 <= i <= n,
            forall|l: int|
                0 <= l < i ==> #[trigger] vals_view(vals@)[l] == vals_view(vals@)[0],
        decreases n - i,
    {
        proof {
            lemma_vals_view_index(vals@, i as int);
            lemma_vals_view_index(vals@, 0);
        }
        if !vals[i].eq_val(&vals[0]) {
            proof {
                assert(vals_view(vals@)[i as int] != vals_view(vals@)[0]);
            }
            return false;
        }
        i = i + 1;
    }
    true
}

/// Splicing one element of a value list splices its view.
proof fn lemma_vals_view_splice(before: Seq<MetaVal>, after: Seq<MetaVal>, j: int)
    requires
        0 <= j <= before.len(),
        after == before.insert(j, after[j]),
        after.len() == before.len() + 1,
    ensures
        vals_view(after).len() == after.len(),
        forall|l: int| 0 <= l < j ==> vals_view(after)[l] == vals_view(before)[l],
        vals_view(after)[j] == val_view(after[j]),
        forall|l: int|
            j < l < after.len() ==> vals_view(after)[l] == vals_view(before)[l - 1],
{
    lemma_vals_view_len(after);
    lemma_vals_view_len(before);
    assert forall|l: int| 0 <= l < j implies vals_view(after)[l] == vals_view(before)[l] by {
        lemma_vals_view_index(after, l);
        lemma_vals_view_index(before, l);
        assert(after[l] == before[l]);
    }
    lemma_vals_view_index(after, j);
    assert forall|l: int| j < l < after.len() implies vals_view(after)[l] == vals_view(
        before,
    )[l - 1] by {
        lemma_vals_view_index(after, l);
        lemma_vals_view_index(before, l - 1);
        assert(after[l] == before[l - 1]);
    }
}

} // verus!

