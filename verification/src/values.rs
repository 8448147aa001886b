//! The value model: metadata values, mapping keys, and the fixed-precision
//! decimal number that stands behind decimal-valued metadata.

use vstd::prelude::*;

verus! {

/// Ten raised to `n`, the denominator behind a decimal of scale `n`.
pub open spec fn pow10(n: nat) -> int
    decreases n,
{
    if n == 0 {
        1
    } else {
        10 * pow10((n - 1) as nat)
    }
}

/// Powers of ten are positive.
pub proof fn lemma_pow10_pos(n: nat)
    ensures
        pow10(n) >= 1,
    decreases n,
{
    if n > 0 {
        lemma_pow10_pos((n - 1) as nat);
    }
}

/// A signed decimal number with a mantissa and a decimal scale: the value
/// `mantissa / 10^scale`.  The representation is kept normalized (no trailing
/// zeros in the mantissa unless the scale is zero) so that structural
/// equality coincides with numeric equality, and the scale is bounded so
/// that comparisons and arithmetic can widen into `i128` without overflow.
#[derive(Debug, Clone, Copy, PartialEq, Eq, Hash)]
pub struct Decimal {
    m: i64,
    s: u32,
}

/// The largest scale a `Decimal` may carry.
pub const MAX_SCALE: u32 = 18;

impl Decimal {
    /// The signed mantissa.
    pub closed spec fn mantissa(self) -> int {
        self.m as int
    }

    /// The decimal scale: the value is `mantissa / 10^scale`.
    pub closed spec fn scale(self) -> nat {
        self.s as nat
    }

    #[verifier::type_invariant]
    pub closed spec fn inv(self) -> bool {
        self.s <= MAX_SCALE && (self.s == 0 || self.m % 10 != 0)
    }

    /// The two mantissa/scale pairs denote the same number.
    pub open spec fn frac_eq(m1: int, s1: nat, m2: int, s2: nat) -> bool {
        m1 * pow10(s2) == m2 * pow10(s1)
    }

    /// Builds the decimal `m / 10^s`, normalizing away trailing zeros.
    pub fn new(m: i64, s: u32) -> (r: Decimal)
        requires
            s <= MAX_SCALE,
        ensures
            Self::frac_eq(r.mantissa(), r.scale(), m as int, s as nat),
            r.scale() <= s,
    {
        if m == i64::MIN {
            // The minimal mantissa is not divisible by ten, so it is already
            // in normal form; it also cannot be negated below.
            proof {
                lemma_pow10_pos(s as nat);
            }
            return Decimal { m, s };
        }
        let neg: bool = m < 0;
        let mag0: u64 = if neg {
            (-m) as u64
        } else {
            m as u64
        };
        let mut mag: u64 = mag0;
        let mut s_cur: u32 = s;
        while s_cur > 0 && mag % 10 == 0
            invariant
                s_cur <= s <= MAX_SCALE,
                mag <= mag0 <= i64::MAX as u64,
                (mag as int) * pow10(s as nat) == (mag0 as int) * pow10(s_cur as nat),
            decreases s_cur,
        {
            let q: u64 = mag / 10;
            proof {
                assert(mag as int == 10 * (q as int));
                assert(pow10(s_cur as nat) == 10 * pow10((s_cur - 1) as nat));
                assert((q as int) * pow10(s as nat) == (mag0 as int) * pow10((s_cur - 1) as nat))
                    by (nonlinear_arith)
                    requires
                        mag as int == 10 * (q as int),
                        (mag as int) * pow10(s as nat) == (mag0 as int) * pow10(s_cur as nat),
                        pow10(s_cur as nat) == 10 * pow10((s_cur - 1) as nat),
                ;
            }
            mag = q;
            s_cur = s_cur - 1;
        }
        let m_fin: i64 = if neg {
            -(mag as i64)
        } else {
            mag as i64
        };
        proof {
            lemma_pow10_pos(s as nat);
            lemma_pow10_pos(s_cur as nat);
            if neg {
                assert((m_fin as int) * pow10(s as nat) == (m as int) * pow10(s_cur as nat))
                    by (nonlinear_arith)
                    requires
                        m_fin as int == -(mag as int),
                        m as int == -(mag0 as int),
                        (mag as int) * pow10(s as nat) == (mag0 as int) * pow10(s_cur as nat),
                ;
            }
            if s_cur > 0 {
                assert(mag % 10 != 0);
                if neg {
                    assert(m_fin as int == -(mag as int));
                    assert(m_fin % 10 != 0);
                }
            }
        }
        Decimal { m: m_fin, s: s_cur }
    }

    /// Builds the decimal `m / 10^s`, rejecting scales beyond [`MAX_SCALE`].
    /// This is the entry point for callers that read scales from input.
    pub fn checked_new(m: i64, s: u32) -> (r: Option<Decimal>)
        ensures
            match r {
                Some(d) => s <= MAX_SCALE && Self::frac_eq(
                    d.mantissa(),
                    d.scale(),
                    m as int,
                    s as nat,
                ),
                None => s > MAX_SCALE,
            },
    {
        if s <= MAX_SCALE {
            Some(Self::new(m, s))
        } else {
            None
        }
    }

    /// The mantissa and scale as machine values.
    pub fn parts(&self) -> (r: (i64, u32))
        ensures
            r.0 as int == self.mantissa(),
            r.1 as nat == self.scale(),
            r.1 <= MAX_SCALE,
    {
        proof {
            use_type_invariant(self);
        }
        (self.m, self.s)
    }

    /// Builds a decimal from an already-reduced mantissa and scale.
    pub(crate) fn from_reduced(m: i64, s: u32) -> (r: Decimal)
        requires
            s <= MAX_SCALE,
            s == 0 || m as int % 10 != 0,
        ensures
            r.mantissa() == m as int,
            r.scale() == s as nat,
    {
        Decimal { m, s }
    }

    /// The mantissa bound that the machine representation gives every
    /// decimal.
    pub proof fn lemma_bounds(self)
        ensures
            -0x8000000000000000 <= self.mantissa() <= 0x7fffffffffffffff,
    {
    }

    /// Structural equality, which by normalization is numeric equality.
    pub fn eq_dec(&self, other: &Decimal) -> (r: bool)
        ensures
            r <==> (self.mantissa() == other.mantissa() && self.scale() == other.scale()),
    {
        self.m == other.m && self.s == other.s
    }
}

/// Spec-level mirror of [`MetaKey`].
pub enum KeySpec {
    Str(Seq<char>),
    Int(int),
}

/// A key in a metadata mapping: either a string or an integer.  String keys
/// compare lexicographically, integer keys numerically; the two kinds are
/// never mixed by the decoders.
#[derive(Debug, Clone, PartialEq, Eq, Hash)]
pub enum MetaKey {
    Str(String),
    Int(i64),
}

impl View for MetaKey {
    type V = KeySpec;

    open spec fn view(&self) -> KeySpec {
        match self {
            MetaKey::Str(s) => KeySpec::Str(s@),
            MetaKey::Int(i) => KeySpec::Int(*i as int),
        }
    }
}

impl MetaKey {
    /// Structural equality on keys.
    pub fn eq_key(&self, other: &MetaKey) -> (r: bool)
        ensures
            r <==> self@ == other@,
    {
        match (self, other) {
            (MetaKey::Str(a), MetaKey::Str(b)) => a.eq(b),
            (MetaKey::Int(a), MetaKey::Int(b)) => *a == *b,
            _ => false,
        }
    }

    /// A copy whose view equals this key's view.
    pub fn duplicate(&self) -> (r: MetaKey)
        ensures
            r@ == self@,
    {
        match self {
            MetaKey::Str(s) => MetaKey::Str(s.clone()),
            MetaKey::Int(i) => MetaKey::Int(*i),
        }
    }
}

/// Spec-level mirror of [`MetaVal`]: strings become character sequences,
/// machine integers become mathematical ones, and decimals become their
/// normalized mantissa/scale pair.
pub enum ValSpec {
    Nil,
    Str(Seq<char>),
    Int(int),
    Dec(int, nat),
    Bul(bool),
    Sequence(Seq<ValSpec>),
    Mapping(Seq<(KeySpec, ValSpec)>),
}

/// A metadata value: the sum of nothing, strings, integers, decimals,
/// booleans, ordered sequences, and ordered mappings.
#[derive(Debug, PartialEq, Eq, Hash)]
pub enum MetaVal {
    Nil,
    Str(String),
    Int(i64),
    Dec(Decimal),
    Bul(bool),
    Sequence(Vec<MetaVal>),
    Mapping(Vec<(MetaKey, MetaVal)>),
}

/// The view of a metadata value, descending through sequences and mappings.
pub open spec fn val_view(v: MetaVal) -> ValSpec
    decreases v,
{
    match v {
        MetaVal::Nil => ValSpec::Nil,
        MetaVal::Str(s) => ValSpec::Str(s@),
        MetaVal::Int(i) => ValSpec::Int(i as int),
        MetaVal::Dec(d) => ValSpec::Dec(d.mantissa(), d.scale()),
        MetaVal::Bul(b) => ValSpec::Bul(b),
        MetaVal::Sequence(vs) => ValSpec::Sequence(vals_view(vs@)),
        MetaVal::Mapping(es) => ValSpec::Mapping(entries_view(es@)),
    }
}

/// The views of the elements of a value sequence.
pub open spec fn vals_view(vs: Seq<MetaVal>) -> Seq<ValSpec>
    decreases vs,
{
    if vs.len() == 0 {
        Seq::empty()
    } else {
        seq![val_view(vs[0])] + vals_view(vs.subrange(1, vs.len() as int))
    }
}

/// The views of the entries of a value mapping.
pub open spec fn entries_view(es: Seq<(MetaKey, MetaVal)>) -> Seq<(KeySpec, ValSpec)>
    decreases es,
{
    if es.len() == 0 {
        Seq::empty()
    } else {
        seq![(es[0].0@, val_view(es[0].1))] + entries_view(es.subrange(1, es.len() as int))
    }
}

/// A value sequence's view has one element per value, in order.
pub broadcast proof fn lemma_vals_view_len(vs: Seq<MetaVal>)
    ensures
        #[trigger] vals_view(vs).len() == vs.len(),
    decreases vs,
{
    if vs.len() > 0 {
        lemma_vals_view_len(vs.subrange(1, vs.len() as int));
    }
}

/// Indexing a value sequence's view gives the view of the indexed value.
pub broadcast proof fn lemma_vals_view_index(vs: Seq<MetaVal>, i: int)
    requires
        0 <= i < vs.len(),
    ensures
        vals_view(vs).len() == vs.len(),
        #[trigger] vals_view(vs)[i] == val_view(vs[i]),
    decreases vs,
{
    lemma_vals_view_len(vs);
    if i > 0 {
        lemma_vals_view_index(vs.subrange(1, vs.len() as int), i - 1);
    }
}

/// A value mapping's view has one entry per entry, in order.
pub broadcast proof fn lemma_entries_view_len(es: Seq<(MetaKey, MetaVal)>)
    ensures
        #[trigger] entries_view(es).len() == es.len(),
    decreases es,
{
    if es.len() > 0 {
        lemma_entries_view_len(es.subrange(1, es.len() as int));
    }
}

/// Indexing a value mapping's view gives the views of the indexed entry.
pub broadcast proof fn lemma_entries_view_index(es: Seq<(MetaKey, MetaVal)>, i: int)
    requires
        0 <= i < es.len(),
    ensures
        entries_view(es).len() == es.len(),
        #[trigger] entries_view(es)[i] == (es[i].0@, val_view(es[i].1)),
    decreases es,
{
    lemma_entries_view_len(es);
    if i > 0 {
        lemma_entries_view_index(es.subrange(1, es.len() as int), i - 1);
    }
}

impl View for MetaVal {
    type V = ValSpec;

    open spec fn view(&self) -> ValSpec {
        val_view(*self)
    }
}

/// Structural equality of two value sequences, element by element.
fn eq_vals(a: &Vec<MetaVal>, b: &Vec<MetaVal>) -> (r: bool)
    ensures
        r <==> vals_view(a@) == vals_view(b@),
    decreases a@,
{
    proof {
        lemma_vals_view_len(a@);
        lemma_vals_view_len(b@);
    }
    if a.len() != b.len() {
        proof {
            assert(vals_view(a@).len() != vals_view(b@).len());
        }
        return false;
    }
    let n: usize = a.len();
    let mut i: usize = 0;
    while i < n
        invariant
            n == a@.len() == b@.len(),
            i <= n,
            forall|j: int| 0 <= j < i ==> vals_view(a@)[j] == vals_view(b@)[j],
        decreases n - i,
    {
        proof {
            lemma_vals_view_index(a@, i as int);
            lemma_vals_view_index(b@, i as int);
        }
        if !a[i].eq_val(&b[i]) {
            proof {
                assert(vals_view(a@)[i as int] != vals_view(b@)[i as int]);
            }
            return false;
        }
        i = i + 1;
    }
    proof {
        assert forall|j: int| 0 <= j < n implies vals_view(a@)[j] == vals_view(b@)[j] by {}
        assert(vals_view(a@) =~= vals_view(b@));
    }
    true
}

/// Structural equality of two value mappings, entry by entry in order.
fn eq_entries(a: &Vec<(MetaKey, MetaVal)>, b: &Vec<(MetaKey, MetaVal)>) -> (r: bool)
    ensures
        r <==> entries_view(a@) == entries_view(b@),
    decreases a@,
{
    proof {
        lemma_entries_view_len(a@);
        lemma_entries_view_len(b@);
    }
    if a.len() != b.len() {
        proof {
            assert(entries_view(a@).len() != entries_view(b@).len());
        }
        return false;
    }
    let n: usize = a.len();
    let mut i: usize = 0;
    while i < n
        invariant
            n == a@.len() == b@.len(),
            i <= n,
            forall|j: int| 0 <= j < i ==> entries_view(a@)[j] == entries_view(b@)[j],
        decreases n - i,
    {
        proof {
            lemma_entries_view_index(a@, i as int);
            lemma_entries_view_index(b@, i as int);
        }
        if !a[i].0.eq_key(&b[i].0) || !a[i].1.eq_val(&b[i].1) {
            proof {
                assert(entries_view(a@)[i as int] != entries_view(b@)[i as int]);
            }
            return false;
        }
        i = i + 1;
    }
    proof {
        assert(entries_view(a@) =~= entries_view(b@));
    }
    true
}

impl MetaVal {
    /// Structural equality of metadata values: equal views.  Mapping
    /// equality here follows entry order, matching the view.
    pub fn eq_val(&self, other: &MetaVal) -> (r: bool)
        ensures
            r <==> self@ == other@,
        decreases self,
    {
        match (self, other) {
            (MetaVal::Nil, MetaVal::Nil) => true,
            (MetaVal::Str(a), MetaVal::Str(b)) => a.eq(b),
            (MetaVal::Int(a), MetaVal::Int(b)) => *a == *b,
            (MetaVal::Dec(a), MetaVal::Dec(b)) => a.eq_dec(b),
            (MetaVal::Bul(a), MetaVal::Bul(b)) => *a == *b,
            (MetaVal::Sequence(a), MetaVal::Sequence(b)) => eq_vals(a, b),
            (MetaVal::Mapping(a), MetaVal::Mapping(b)) => eq_entries(a, b),
            _ => false,
        }
    }

    /// A copy whose view equals this value's view.
    pub fn duplicate(&self) -> (r: MetaVal)
        ensures
            r@ == self@,
        decreases self,
    {
        match self {
            MetaVal::Nil => MetaVal::Nil,
            MetaVal::Str(s) => MetaVal::Str(s.clone()),
            MetaVal::Int(i) => MetaVal::Int(*i),
            MetaVal::Dec(d) => MetaVal::Dec(*d),
            MetaVal::Bul(b) => MetaVal::Bul(*b),
            MetaVal::Sequence(vs) => MetaVal::Sequence(duplicate_vals(vs)),
            MetaVal::Mapping(es) => MetaVal::Mapping(duplicate_entries(es)),
        }
    }
}

/// A copy of a value sequence whose element views are unchanged.
fn duplicate_vals(vs: &Vec<MetaVal>) -> (r: Vec<MetaVal>)
    ensures
        vals_view(r@) == vals_view(vs@),
    decreases vs@,
{
    let n: usize = vs.len();
    let mut out: Vec<MetaVal> = Vec::new();
    let mut i: usize = 0;
    while i < n
        invariant
            n == vs@.len(),
            i <= n,
            out@.len() == i,
            forall|j: int| 0 <= j < i ==> val_view(out@[j]) == val_view(vs@[j]),
        decreases n - i,
    {
        let e: MetaVal = vs[i].duplicate();
        out.push(e);
        i = i + 1;
    }
    proof {
        lemma_vals_view_eq_pointwise(out@, vs@);
    }
    out
}

/// A copy of a value mapping whose entry views are unchanged.
fn duplicate_entries(es: &Vec<(MetaKey, MetaVal)>) -> (r: Vec<(MetaKey, MetaVal)>)
    ensures
        entries_view(r@) == entries_view(es@),
    decreases es@,
{
    let n: usize = es.len();
    let mut out: Vec<(MetaKey, MetaVal)> = Vec::new();
    let mut i: usize = 0;
    while i < n
        invariant
            n == es@.len(),
            i <= n,
            out@.len() == i,
            forall|j: int| 0 <= j < i ==> out@[j].0@ == es@[j].0@ && val_view(out@[j].1)
                == val_view(es@[j].1),
        decreases n - i,
    {
        let k: MetaKey = es[i].0.duplicate();
        let v: MetaVal = es[i].1.duplicate();
        out.push((k, v));
        i = i + 1;
    }
    proof {
        lemma_entries_view_eq_pointwise(out@, es@);
    }
    out
}

/// The value a key names inside a mapping's entry list: the first entry
/// whose key matches, if any.
pub open spec fn lookup_entry(es: Seq<(KeySpec, ValSpec)>, k: KeySpec) -> Option<ValSpec>
    decreases es.len(),
{
    if es.len() == 0 {
        None
    } else if es[0].0 == k {
        Some(es[0].1)
    } else {
        lookup_entry(es.subrange(1, es.len() as int), k)
    }
}

/// Resolving a key path on a value: descend mappings key by key; a missing
/// key or a non-mapping step yields absence.
pub open spec fn lookup_path(v: ValSpec, path: Seq<KeySpec>) -> Option<ValSpec>
    decreases path.len(),
{
    if path.len() == 0 {
        Some(v)
    } else {
        match v {
            ValSpec::Mapping(es) => match lookup_entry(es, path[0]) {
                Some(v2) => lookup_path(v2, path.subrange(1, path.len() as int)),
                None => None,
            },
            _ => None,
        }
    }
}

/// The views of a borrowed key path.
pub open spec fn keypath_view(ks: Seq<&MetaKey>) -> Seq<KeySpec> {
    Seq::new(ks.len(), |i: int| ks[i]@)
}

/// If the first matching key sits at position `j`, the lookup returns that
/// entry's value.
pub proof fn lemma_lookup_entry_at(es: Seq<(KeySpec, ValSpec)>, k: KeySpec, j: int)
    requires
        0 <= j < es.len(),
        es[j].0 == k,
        forall|l: int| 0 <= l < j ==> es[l].0 != k,
    ensures
        lookup_entry(es, k) == Some(es[j].1),
    decreases j,
{
    if j > 0 {
        lemma_lookup_entry_at(es.subrange(1, es.len() as int), k, j - 1);
    }
}

/// If no key matches, the lookup returns nothing.
pub proof fn lemma_lookup_entry_none(es: Seq<(KeySpec, ValSpec)>, k: KeySpec)
    requires
        forall|l: int| 0 <= l < es.len() ==> es[l].0 != k,
    ensures
        lookup_entry(es, k) == None::<ValSpec>,
    decreases es.len(),
{
    if es.len() > 0 {
        lemma_lookup_entry_none(es.subrange(1, es.len() as int), k);
    }
}

/// The index of the first entry whose key matches `k`, if any.
fn find_key_index(es: &Vec<(MetaKey, MetaVal)>, k: &MetaKey) -> (r: Option<usize>)
    ensures
        match r {
            Some(j) => {
                &&& j < es@.len()
                &&& es@[j as int].0@ == k@
                &&& lookup_entry(entries_view(es@), k@) == Some(val_view(es@[j as int].1))
            },
            None => lookup_entry(entries_view(es@), k@) == None::<ValSpec>,
        },
{
    let n: usize = es.len();
    let mut i: usize = 0;
    while i < n
        invariant
            n == es@.len(),
            i <= n,
            forall|l: int| 0 <= l < i ==> es@[l].0@ != k@,
        decreases n - i,
    {
        if es[i].0.eq_key(k) {
            proof {
                lemma_entries_view_len(es@);
                assert forall|l: int| 0 <= l < i implies entries_view(es@)[l].0 != k@ by {
                    lemma_entries_view_index(es@, l);
                }
                lemma_entries_view_index(es@, i as int);
                lemma_lookup_entry_at(entries_view(es@), k@, i as int);
            }
            return Some(i);
        }
        i = i + 1;
    }
    proof {
        lemma_entries_view_len(es@);
        assert forall|l: int| 0 <= l < es@.len() implies entries_view(es@)[l].0 != k@ by {
            lemma_entries_view_index(es@, l);
        }
        lemma_lookup_entry_none(entries_view(es@), k@);
    }
    None
}

impl MetaVal {
    /// Borrows the value a key path names inside this value, descending
    /// mappings step by step; a missing key or a non-mapping step yields
    /// nothing.
    pub fn get_key_path<'a>(&'a self, key_path: &[&MetaKey]) -> (r: Option<&'a MetaVal>)
        ensures
            match r {
                Some(v) => lookup_path(self@, keypath_view(key_path@)) == Some(v@),
                None => lookup_path(self@, keypath_view(key_path@)) == None::<ValSpec>,
            },
    {
        let ghost full: Seq<KeySpec> = keypath_view(key_path@);
        let n: usize = key_path.len();
        let mut curr: &MetaVal = self;
        let mut i: usize = 0;
        proof {
            assert(full.subrange(0, n as int) =~= full);
        }
        while i < n
            invariant
                n == key_path@.len(),
                i <= n,
                full == keypath_view(key_path@),
                lookup_path(self@, full) == lookup_path(curr@, full.subrange(i as int, n as int)),
            decreases n - i,
        {
            let ghost rest: Seq<KeySpec> = full.subrange(i as int, n as int);
            proof {
                assert(rest[0] == key_path@[i as int]@);
                assert(rest.subrange(1, rest.len() as int) =~= full.subrange(
                    i as int + 1,
                    n as int,
                ));
            }
            match curr {
                MetaVal::Mapping(es) => {
                    match find_key_index(es, key_path[i]) {
                        Some(j) => {
                            curr = &es[j].1;
                            i = i + 1;
                        },
                        None => {
                            return None;
                        },
                    }
                },
                _ => {
                    return None;
                },
            }
        }
        proof {
            assert(full.subrange(n as int, n as int) =~= Seq::<KeySpec>::empty());
        }
        Some(curr)
    }

    /// Moves out the value a key path names inside this value, consuming it;
    /// the named value itself is returned.
    pub fn resolve_key_path(self, key_path: &[&MetaKey]) -> (r: Option<MetaVal>)
        ensures
            match r {
                Some(v) => lookup_path(self@, keypath_view(key_path@)) == Some(v@),
                None => lookup_path(self@, keypath_view(key_path@)) == None::<ValSpec>,
            },
    {
        let ghost full: Seq<KeySpec> = keypath_view(key_path@);
        let ghost orig: ValSpec = self@;
        let n: usize = key_path.len();
        let mut curr: MetaVal = self;
        let mut i: usize = 0;
        proof {
            assert(full.subrange(0, n as int) =~= full);
        }
        while i < n
            invariant
                n == key_path@.len(),
                i <= n,
                full == keypath_view(key_path@),
                orig == self@,
                lookup_path(orig, full) == lookup_path(curr@, full.subrange(i as int, n as int)),
            decreases n - i,
        {
            let ghost rest: Seq<KeySpec> = full.subrange(i as int, n as int);
            let ghost cs: ValSpec = curr@;
            proof {
                assert(rest[0] == key_path@[i as int]@);
                assert(rest.subrange(1, rest.len() as int) =~= full.subrange(
                    i as int + 1,
                    n as int,
                ));
            }
            match curr {
                MetaVal::Mapping(mut es) => {
                    proof {
                        assert(cs == ValSpec::Mapping(entries_view(es@)));
                    }
                    match find_key_index(&es, key_path[i]) {
                        Some(j) => {
                            let v: (MetaKey, MetaVal) = es.remove(j);
                            curr = v.1;
                            i = i + 1;
                        },
                        None => {
                            return None;
                        },
                    }
                },
                _ => {
                    return None;
                },
            }
        }
        proof {
            assert(full.subrange(n as int, n as int) =~= Seq::<KeySpec>::empty());
        }
        Some(curr)
    }
}

/// Appending one value appends its view.
pub proof fn lemma_vals_view_snoc(before: Seq<MetaVal>, after: Seq<MetaVal>, x: MetaVal)
    requires
        after == before.push(x),
    ensures
        vals_view(after) == vals_view(before).push(val_view(x)),
{
    lemma_vals_view_len(after);
    lemma_vals_view_len(before);
    assert forall|l: int| 0 <= l < after.len() implies vals_view(after)[l] == vals_view(
        before,
    ).push(val_view(x))[l] by {
        lemma_vals_view_index(after, l);
        if l < before.len() {
            lemma_vals_view_index(before, l);
        }
    }
    assert(vals_view(after) =~= vals_view(before).push(val_view(x)));
}

/// Two value sequences with pointwise equal views have equal views.
pub proof fn lemma_vals_view_eq_pointwise(a: Seq<MetaVal>, b: Seq<MetaVal>)
    requires
        a.len() == b.len(),
        forall|j: int| 0 <= j < a.len() ==> val_view(a[j]) == val_view(b[j]),
    ensures
        vals_view(a) == vals_view(b),
{
    lemma_vals_view_len(a);
    lemma_vals_view_len(b);
    assert forall|j: int| 0 <= j < a.len() implies vals_view(a)[j] == vals_view(b)[j] by {
        lemma_vals_view_index(a, j);
        lemma_vals_view_index(b, j);
    }
    assert(vals_view(a) =~= vals_view(b));
}

/// Two entry lists with pointwise equal views have equal views.
pub proof fn lemma_entries_view_eq_pointwise(a: Seq<(MetaKey, MetaVal)>, b: Seq<(MetaKey, MetaVal)>)
    requires
        a.len() == b.len(),
        forall|j: int| 0 <= j < a.len() ==> a[j].0@ == b[j].0@ && val_view(a[j].1) == val_view(
            b[j].1,
        ),
    ensures
        entries_view(a) == entries_view(b),
{
    lemma_entries_view_len(a);
    lemma_entries_view_len(b);
    assert forall|j: int| 0 <= j < a.len() implies entries_view(a)[j] == entries_view(b)[j] by {
        lemma_entries_view_index(a, j);
        lemma_entries_view_index(b, j);
    }
    assert(entries_view(a) =~= entries_view(b));
}

} // verus!
