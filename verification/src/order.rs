//! The partial order on metadata values: values of comparable kinds order
//! totally; comparing incompatible kinds yields nothing, which callers
//! surface as a `NotComparable` error.

use vstd::prelude::*;

use core::cmp::Ordering;
use crate::numbers::Number;
use crate::numbers::cmp_num;
use crate::numbers::frac_lt;
use crate::values::KeySpec;
use crate::values::MetaKey;
use crate::values::MetaVal;
use crate::values::ValSpec;
use crate::values::vals_view;
use crate::values::lemma_vals_view_len;
use crate::values::lemma_vals_view_index;

verus! {

/// Lexicographic order on character sequences.
pub open spec fn cmp_chars(a: Seq<char>, b: Seq<char>) -> Ordering
    decreases a.len(),
{
    if a.len() == 0 && b.len() == 0 {
        Ordering::Equal
    } else if a.len() == 0 {
        Ordering::Less
    } else if b.len() == 0 {
        Ordering::Greater
    } else if (a[0] as u32) < (b[0] as u32) {
        Ordering::Less
    } else if (a[0] as u32) > (b[0] as u32) {
        Ordering::Greater
    } else {
        cmp_chars(a.subrange(1, a.len() as int), b.subrange(1, b.len() as int))
    }
}

/// Whether a value is of a numeric kind.
pub open spec fn is_numeric(v: ValSpec) -> bool {
    v is Int || v is Dec
}

/// The mantissa of a numeric value.
pub open spec fn num_mantissa_of(v: ValSpec) -> int {
    match v {
        ValSpec::Int(i) => i,
        ValSpec::Dec(m, _) => m,
        _ => 0,
    }
}

/// The scale of a numeric value.
pub open spec fn num_scale_of(v: ValSpec) -> nat {
    match v {
        ValSpec::Dec(_, s) => s,
        _ => 0,
    }
}

/// The order on two values, where defined: strings lexicographically,
/// numbers numerically with integers widened into decimals, booleans with
/// false first, sequences lexicographically element by element.  Mappings
/// and mixed kinds do not compare.
pub open spec fn cmp_val_spec(a: ValSpec, b: ValSpec) -> Option<Ordering>
    decreases a,
{
    match (a, b) {
        (ValSpec::Nil, ValSpec::Nil) => Some(Ordering::Equal),
        (ValSpec::Str(x), ValSpec::Str(y)) => Some(cmp_chars(x, y)),
        (ValSpec::Bul(x), ValSpec::Bul(y)) => if x == y {
            Some(Ordering::Equal)
        } else if !x {
            Some(Ordering::Less)
        } else {
            Some(Ordering::Greater)
        },
        (ValSpec::Sequence(x), ValSpec::Sequence(y)) => cmp_elems_spec(x, y),
        _ => {
            if is_numeric(a) && is_numeric(b) {
                let ma = num_mantissa_of(a);
                let sa = num_scale_of(a);
                let mb = num_mantissa_of(b);
                let sb = num_scale_of(b);
                if frac_lt(ma, sa, mb, sb) {
                    Some(Ordering::Less)
                } else if frac_lt(mb, sb, ma, sa) {
                    Some(Ordering::Greater)
                } else {
                    Some(Ordering::Equal)
                }
            } else {
                None
            }
        },
    }
}

/// Lexicographic comparison of two value sequences, element by element.
pub open spec fn cmp_elems_spec(a: Seq<ValSpec>, b: Seq<ValSpec>) -> Option<Ordering>
    decreases a,
{
    if a.len() == 0 && b.len() == 0 {
        Some(Ordering::Equal)
    } else if a.len() == 0 {
        Some(Ordering::Less)
    } else if b.len() == 0 {
        Some(Ordering::Greater)
    } else {
        match cmp_val_spec(a[0], b[0]) {
            None => None,
            Some(Ordering::Equal) => cmp_elems_spec(
                a.subrange(1, a.len() as int),
                b.subrange(1, b.len() as int),
            ),
            Some(o) => Some(o),
        }
    }
}

/// Compares two strings lexicographically by character.
pub fn cmp_str(a: &String, b: &String) -> (r: Ordering)
    ensures
        r == cmp_chars(a@, b@),
{
    let la: usize = a.as_str().unicode_len();
    let lb: usize = b.as_str().unicode_len();
    let n: usize = if la < lb {
        la
    } else {
        lb
    };
    let mut i: usize = 0;
    proof {
        assert(a@.subrange(0, la as int) =~= a@);
        assert(b@.subrange(0, lb as int) =~= b@);
    }
    while i < n
        invariant
            la == a@.len(),
            lb == b@.len(),
            n == if la < lb {
                la
            } else {
                lb
            },
            i <= n,
            cmp_chars(a@, b@) == cmp_chars(
                a@.subrange(i as int, la as int),
                b@.subrange(i as int, lb as int),
            ),
            forall|j: int| 0 <= j < i ==> a@[j] == b@[j],
        decreases n - i,
    {
        let ca: char = a.as_str().get_char(i);
        let cb: char = b.as_str().get_char(i);
        let ghost ra: Seq<char> = a@.subrange(i as int, la as int);
        let ghost rb: Seq<char> = b@.subrange(i as int, lb as int);
        proof {
            assert(ra[0] == a@[i as int]);
            assert(rb[0] == b@[i as int]);
            assert(ra.subrange(1, ra.len() as int) =~= a@.subrange(i as int + 1, la as int));
            assert(rb.subrange(1, rb.len() as int) =~= b@.subrange(i as int + 1, lb as int));
        }
        if (ca as u32) < (cb as u32) {
            return Ordering::Less;
        }
        if (ca as u32) > (cb as u32) {
            return Ordering::Greater;
        }
        proof {
            assert(ca as u32 == cb as u32);
            assert(ca == cb) by {
                assert(ca as u32 == cb as u32);
            };
        }
        i = i + 1;
    }
    proof {
        assert(a@.subrange(i as int, la as int).len() == la - i);
        assert(b@.subrange(i as int, lb as int).len() == lb - i);
    }
    if la < lb {
        Ordering::Less
    } else if la > lb {
        Ordering::Greater
    } else {
        Ordering::Equal
    }
}

/// Compares two metadata values under the value order, or reports that
/// their kinds do not compare.
pub fn cmp_val(a: &MetaVal, b: &MetaVal) -> (r: Option<Ordering>)
    ensures
        r == cmp_val_spec(a@, b@),
    decreases a,
{
    match (a, b) {
        (MetaVal::Nil, MetaVal::Nil) => Some(Ordering::Equal),
        (MetaVal::Str(x), MetaVal::Str(y)) => Some(cmp_str(x, y)),
        (MetaVal::Bul(x), MetaVal::Bul(y)) => {
            if *x == *y {
                Some(Ordering::Equal)
            } else if !*x {
                Some(Ordering::Less)
            } else {
                Some(Ordering::Greater)
            }
        },
        (MetaVal::Sequence(x), MetaVal::Sequence(y)) => cmp_elems(x, y),
        (MetaVal::Int(x), MetaVal::Int(y)) => Some(cmp_num(&Number::Int(*x), &Number::Int(*y))),
        (MetaVal::Int(x), MetaVal::Dec(y)) => Some(cmp_num(&Number::Int(*x), &Number::Dec(*y))),
        (MetaVal::Dec(x), MetaVal::Int(y)) => Some(cmp_num(&Number::Dec(*x), &Number::Int(*y))),
        (MetaVal::Dec(x), MetaVal::Dec(y)) => Some(cmp_num(&Number::Dec(*x), &Number::Dec(*y))),
        _ => None,
    }
}

/// Compares two value sequences lexicographically.
fn cmp_elems(a: &Vec<MetaVal>, b: &Vec<MetaVal>) -> (r: Option<Ordering>)
    ensures
        r == cmp_elems_spec(vals_view(a@), vals_view(b@)),
    decreases a@,
{
    proof {
        lemma_vals_view_len(a@);
        lemma_vals_view_len(b@);
    }
    let la: usize = a.len();
    let lb: usize = b.len();
    let n: usize = if la < lb {
        la
    } else {
        lb
    };
    let mut i: usize = 0;
    proof {
        assert(vals_view(a@).subrange(0, la as int) =~= vals_view(a@));
        assert(vals_view(b@).subrange(0, lb as int) =~= vals_view(b@));
    }
    while i < n
        invariant
            la == a@.len() == vals_view(a@).len(),
            lb == b@.len() == vals_view(b@).len(),
            n == if la < lb {
                la
            } else {
                lb
            },
            i <= n,
            cmp_elems_spec(vals_view(a@), vals_view(b@)) == cmp_elems_spec(
                vals_view(a@).subrange(i as int, la as int),
                vals_view(b@).subrange(i as int, lb as int),
            ),
        decreases n - i,
    {
        let ghost ra: Seq<ValSpec> = vals_view(a@).subrange(i as int, la as int);
        let ghost rb: Seq<ValSpec> = vals_view(b@).subrange(i as int, lb as int);
        proof {
            lemma_vals_view_index(a@, i as int);
            lemma_vals_view_index(b@, i as int);
            assert(ra[0] == val_view_of(a@[i as int]));
            assert(rb[0] == val_view_of(b@[i as int]));
            assert(ra.subrange(1, ra.len() as int) =~= vals_view(a@).subrange(
                i as int + 1,
                la as int,
            ));
            assert(rb.subrange(1, rb.len() as int) =~= vals_view(b@).subrange(
                i as int + 1,
                lb as int,
            ));
        }
        match cmp_val(&a[i], &b[i]) {
            None => {
                return None;
            },
            Some(Ordering::Equal) => {
                i = i + 1;
            },
            Some(o) => {
                return Some(o);
            },
        }
    }
    proof {
        assert(vals_view(a@).subrange(i as int, la as int).len() == la - i);
        assert(vals_view(b@).subrange(i as int, lb as int).len() == lb - i);
    }
    if la < lb {
        Some(Ordering::Less)
    } else if la > lb {
        Some(Ordering::Greater)
    } else {
        Some(Ordering::Equal)
    }
}

/// The view of one value, under its name in this module's proofs.
pub open spec fn val_view_of(v: MetaVal) -> ValSpec {
    crate::values::val_view(v)
}

/// The order on mapping keys: strings lexicographically, integers
/// numerically; mixed kinds do not compare.
pub open spec fn cmp_key_spec(a: KeySpec, b: KeySpec) -> Option<Ordering> {
    match (a, b) {
        (KeySpec::Str(x), KeySpec::Str(y)) => Some(cmp_chars(x, y)),
        (KeySpec::Int(x), KeySpec::Int(y)) => if x < y {
            Some(Ordering::Less)
        } else if x > y {
            Some(Ordering::Greater)
        } else {
            Some(Ordering::Equal)
        },
        _ => None,
    }
}

/// Compares two mapping keys.
pub fn cmp_key(a: &MetaKey, b: &MetaKey) -> (r: Option<Ordering>)
    ensures
        r == cmp_key_spec(a@, b@),
{
    match (a, b) {
        (MetaKey::Str(x), MetaKey::Str(y)) => Some(cmp_str(x, y)),
        (MetaKey::Int(x), MetaKey::Int(y)) => {
            if *x < *y {
                Some(Ordering::Less)
            } else if *x > *y {
                Some(Ordering::Greater)
            } else {
                Some(Ordering::Equal)
            }
        },
        _ => None,
    }
}

} // verus!
