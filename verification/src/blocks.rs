//! Blocks of metadata: insertion-ordered mappings from string field names to
//! values, the keyed and sequential collections of blocks a sidecar can
//! carry, and the shapes a parsed sidecar takes.

use vstd::prelude::*;

use crate::values::MetaVal;
use crate::values::ValSpec;
use crate::values::val_view;

verus! {

/// The view of a block: field names as character sequences, values by view,
/// in insertion order.
pub open spec fn bentries_view(es: Seq<(String, MetaVal)>) -> Seq<(Seq<char>, ValSpec)>
    decreases es,
{
    if es.len() == 0 {
        Seq::empty()
    } else {
        seq![(es[0].0@, val_view(es[0].1))] + bentries_view(es.subrange(1, es.len() as int))
    }
}

/// A block's view has one entry per field, in order.
pub broadcast proof fn lemma_bentries_view_len(es: Seq<(String, MetaVal)>)
    ensures
        #[trigger] bentries_view(es).len() == es.len(),
    decreases es,
{
    if es.len() > 0 {
        lemma_bentries_view_len(es.subrange(1, es.len() as int));
    }
}

/// Indexing a block's view gives the view of the indexed field.
pub broadcast proof fn lemma_bentries_view_index(es: Seq<(String, MetaVal)>, i: int)
    requires
        0 <= i < es.len(),
    ensures
        bentries_view(es).len() == es.len(),
        #[trigger] bentries_view(es)[i] == (es[i].0@, val_view(es[i].1)),
    decreases es,
{
    lemma_bentries_view_len(es);
    if i > 0 {
        lemma_bentries_view_index(es.subrange(1, es.len() as int), i - 1);
    }
}

/// Whether no two entries of a name-keyed list share a name.
pub open spec fn names_unique<V>(s: Seq<(Seq<char>, V)>) -> bool {
    forall|i: int, j: int| 0 <= i < j < s.len() ==> s[i].0 != s[j].0
}

/// Whether no two entries share a field name.
pub open spec fn keys_unique(s: Seq<(Seq<char>, ValSpec)>) -> bool {
    names_unique(s)
}

/// What a name carries in a name-keyed list: the first entry whose name
/// matches, if any.
pub open spec fn assoc_lookup<V>(s: Seq<(Seq<char>, V)>, k: Seq<char>) -> Option<V>
    decreases s.len(),
{
    if s.len() == 0 {
        None
    } else if s[0].0 == k {
        Some(s[0].1)
    } else {
        assoc_lookup(s.subrange(1, s.len() as int), k)
    }
}

/// The value a field name carries in a block view.
pub open spec fn block_lookup(s: Seq<(Seq<char>, ValSpec)>, k: Seq<char>) -> Option<ValSpec> {
    assoc_lookup(s, k)
}

/// If the first matching name sits at position `j`, the lookup returns that
/// entry's value.
pub proof fn lemma_assoc_lookup_at<V>(s: Seq<(Seq<char>, V)>, k: Seq<char>, j: int)
    requires
        0 <= j < s.len(),
        s[j].0 == k,
        forall|l: int| 0 <= l < j ==> s[l].0 != k,
    ensures
        assoc_lookup(s, k) == Some(s[j].1),
    decreases j,
{
    if j > 0 {
        lemma_assoc_lookup_at(s.subrange(1, s.len() as int), k, j - 1);
    }
}

/// A name-keyed list with the first entry of the given name removed, or
/// unchanged when the name is absent.
pub open spec fn assoc_remove<V>(s: Seq<(Seq<char>, V)>, k: Seq<char>) -> Seq<(Seq<char>, V)>
    decreases s.len(),
{
    if s.len() == 0 {
        s
    } else if s[0].0 == k {
        s.subrange(1, s.len() as int)
    } else {
        seq![s[0]] + assoc_remove(s.subrange(1, s.len() as int), k)
    }
}

/// Removing the first entry named `k` splices the list at its position.
pub proof fn lemma_assoc_remove_at<V>(s: Seq<(Seq<char>, V)>, k: Seq<char>, j: int)
    requires
        0 <= j < s.len(),
        s[j].0 == k,
        forall|l: int| 0 <= l < j ==> s[l].0 != k,
    ensures
        assoc_remove(s, k) == s.subrange(0, j) + s.subrange(j + 1, s.len() as int),
    decreases j,
{
    if j == 0 {
        assert(s.subrange(0, 0) =~= Seq::<(Seq<char>, V)>::empty());
        assert(assoc_remove(s, k) =~= s.subrange(0, 0) + s.subrange(1, s.len() as int));
    } else {
        let tail = s.subrange(1, s.len() as int);
        assert(forall|l: int| 0 <= l < j - 1 ==> tail[l] == s[l + 1]);
        assert(tail[j - 1] == s[j]);
        lemma_assoc_remove_at(tail, k, j - 1);
        assert(tail.subrange(0, j - 1) =~= s.subrange(1, j));
        assert(tail.subrange(j, tail.len() as int) =~= s.subrange(j + 1, s.len() as int));
        assert(seq![s[0]] + (s.subrange(1, j) + s.subrange(j + 1, s.len() as int)) =~= s.subrange(
            0,
            j,
        ) + s.subrange(j + 1, s.len() as int));
    }
}

/// Where the name is absent, removal changes nothing.
pub proof fn lemma_assoc_remove_absent<V>(s: Seq<(Seq<char>, V)>, k: Seq<char>)
    requires
        forall|l: int| 0 <= l < s.len() ==> s[l].0 != k,
    ensures
        assoc_remove(s, k) == s,
    decreases s.len(),
{
    if s.len() > 0 {
        lemma_assoc_remove_absent(s.subrange(1, s.len() as int), k);
        assert(seq![s[0]] + s.subrange(1, s.len() as int) =~= s);
    }
}

/// A failed lookup means no entry bears the name.
pub proof fn lemma_assoc_none_forall<V>(s: Seq<(Seq<char>, V)>, k: Seq<char>)
    requires
        assoc_lookup(s, k) is None,
    ensures
        forall|l: int| 0 <= l < s.len() ==> s[l].0 != k,
    decreases s.len(),
{
    if s.len() > 0 {
        lemma_assoc_none_forall(s.subrange(1, s.len() as int), k);
        assert forall|l: int| 0 <= l < s.len() implies s[l].0 != k by {
            if l > 0 {
                assert(s.subrange(1, s.len() as int)[l - 1] == s[l]);
            }
        }
    }
}

/// A lookup succeeds exactly when some entry bears the name.
pub proof fn lemma_assoc_lookup_iff_present<V>(s: Seq<(Seq<char>, V)>, k: Seq<char>)
    ensures
        assoc_lookup(s, k) is Some <==> exists|l: int| 0 <= l < s.len() && (#[trigger] s[l]).0
            == k,
{
    if assoc_lookup(s, k) is Some {
        lemma_assoc_present_converse(s, k);
    }
    if exists|l: int| 0 <= l < s.len() && (#[trigger] s[l]).0 == k {
        let l = choose|l: int| 0 <= l < s.len() && (#[trigger] s[l]).0 == k;
        lemma_assoc_lookup_at_exists(s, k);
    }
}

/// A successful lookup points at some entry.
proof fn lemma_assoc_present_converse<V>(s: Seq<(Seq<char>, V)>, k: Seq<char>)
    requires
        assoc_lookup(s, k) is Some,
    ensures
        exists|l: int| 0 <= l < s.len() && (#[trigger] s[l]).0 == k,
    decreases s.len(),
{
    if s[0].0 == k {
        assert(s[0].0 == k);
    } else {
        lemma_assoc_present_converse(s.subrange(1, s.len() as int), k);
        let l = choose|l: int|
            0 <= l < s.len() - 1 && (#[trigger] s.subrange(1, s.len() as int)[l]).0 == k;
        assert(s[l + 1].0 == k);
    }
}

/// If no name matches, the lookup returns nothing.
pub proof fn lemma_assoc_lookup_none<V>(s: Seq<(Seq<char>, V)>, k: Seq<char>)
    requires
        forall|l: int| 0 <= l < s.len() ==> s[l].0 != k,
    ensures
        assoc_lookup(s, k) == None::<V>,
    decreases s.len(),
{
    if s.len() > 0 {
        lemma_assoc_lookup_none(s.subrange(1, s.len() as int), k);
    }
}

/// An insertion-ordered mapping from field names to metadata values, with
/// each name held at most once.  Ordering is preserved for reproducibility;
/// it carries no meaning for equality.
#[derive(Debug, PartialEq, Eq)]
pub struct Block {
    entries: Vec<(String, MetaVal)>,
}

impl View for Block {
    type V = Seq<(Seq<char>, ValSpec)>;

    closed spec fn view(&self) -> Seq<(Seq<char>, ValSpec)> {
        bentries_view(self.entries@)
    }
}

impl Block {
    /// Well-formedness: no two fields share a name.  Constructors establish
    /// it and mutating methods preserve it.
    pub open spec fn wf(self) -> bool {
        keys_unique(self@)
    }

    /// The empty block.
    pub fn new() -> (r: Block)
        ensures
            r@ == Seq::<(Seq<char>, ValSpec)>::empty(),
            r.wf(),
    {
        Block { entries: Vec::new() }
    }

    /// How many fields the block holds.
    pub fn len(&self) -> (r: usize)
        ensures
            r == self@.len(),
    {
        proof {
            lemma_bentries_view_len(self.entries@);
        }
        self.entries.len()
    }

    /// Borrows the name and value of the field at a position.
    pub fn entry_at(&self, i: usize) -> (r: (&String, &MetaVal))
        requires
            i < self@.len(),
        ensures
            (r.0@, r.1@) == self@[i as int],
    {
        proof {
            lemma_bentries_view_len(self.entries@);
            lemma_bentries_view_index(self.entries@, i as int);
        }
        (&self.entries[i].0, &self.entries[i].1)
    }

    /// The index of the field named `k`, if the block holds one.
    fn position_of(&self, k: &String) -> (r: Option<usize>)
        ensures
            match r {
                Some(j) => {
                    &&& j < self@.len()
                    &&& self@[j as int].0 == k@
                    &&& block_lookup(self@, k@) == Some(self@[j as int].1)
                    &&& forall|l: int| 0 <= l < j ==> self@[l].0 != k@
                },
                None => block_lookup(self@, k@) == None::<ValSpec>,
            },
    {
        let n: usize = self.entries.len();
        proof {
            lemma_bentries_view_len(self.entries@);
        }
        let mut i: usize = 0;
        while i < n
            invariant
                n == self.entries@.len() == self@.len(),
                i <= n,
                self@ == bentries_view(self.entries@),
                forall|l: int| 0 <= l < i ==> self@[l].0 != k@,
            decreases n - i,
        {
            proof {
                lemma_bentries_view_index(self.entries@, i as int);
            }
            if self.entries[i].0.eq(k) {
                proof {
                    lemma_assoc_lookup_at(self@, k@, i as int);
                }
                return Some(i);
            }
            i = i + 1;
        }
        proof {
            lemma_assoc_lookup_none(self@, k@);
        }
        None
    }

    /// Whether the block holds a field named `k`.
    pub fn contains_key(&self, k: &String) -> (r: bool)
        ensures
            r <==> block_lookup(self@, k@) is Some,
    {
        self.position_of(k).is_some()
    }

    /// Borrows the value of the field named `k`, if any.
    pub fn get(&self, k: &String) -> (r: Option<&MetaVal>)
        ensures
            match r {
                Some(v) => block_lookup(self@, k@) == Some(v@),
                None => block_lookup(self@, k@) == None::<ValSpec>,
            },
    {
        match self.position_of(k) {
            Some(j) => {
                proof {
                    lemma_bentries_view_len(self.entries@);
                    lemma_bentries_view_index(self.entries@, j as int);
                }
                Some(&self.entries[j].1)
            },
            None => None,
        }
    }

    /// Sets the field named `k` to `v`: an existing field keeps its
    /// position and takes the new value; a new field goes to the end.
    pub fn insert(&mut self, k: String, v: MetaVal)
        requires
            old(self).wf(),
        ensures
            final(self).wf(),
            block_lookup(final(self)@, k@) == Some(v@),
            final(self)@.len() == if block_lookup(old(self)@, k@) is Some {
                old(self)@.len()
            } else {
                old(self)@.len() + 1
            },
            block_lookup(old(self)@, k@) is None ==> final(self)@[old(self)@.len() as int] == (
                k@,
                v@,
            ),
            forall|l: int|
                0 <= l < old(self)@.len() && old(self)@[l].0 != k@ ==> final(self)@[l] == old(
                    self,
                )@[l],
            forall|l: int| 0 <= l < old(self)@.len() ==> final(self)@[l].0 == old(self)@[l].0,
            forall|kk: Seq<char>| kk != k@ ==> block_lookup(final(self)@, kk) == block_lookup(
                old(self)@,
                kk,
            ),
    {
        proof {
            lemma_bentries_view_len(self.entries@);
        }
        let ghost before: Seq<(String, MetaVal)> = self.entries@;
        match self.position_of(&k) {
            Some(j) => {
                let kv: (String, MetaVal) = (k, v);
                self.entries.set(j, kv);
                proof {
                    lemma_set_entry_view(before, self.entries@, j as int);
                    assert(forall|l: int|
                        0 <= l < self@.len() ==> self@[l].0 == bentries_view(before)[l].0);
                    lemma_assoc_lookup_at(self@, kv.0@, j as int);
                    assert forall|kk: Seq<char>| kk != kv.0@ implies block_lookup(self@, kk)
                        == block_lookup(bentries_view(before), kk) by {
                        lemma_lookup_same_keys(bentries_view(before), self@, kk);
                    }
                    assert(keys_unique(self@));
                }
            },
            None => {
                let ghost kspec: Seq<char> = k@;
                let ghost vspec: ValSpec = val_view(v);
                self.entries.push((k, v));
                proof {
                    assert(self.entries@.subrange(0, before.len() as int) =~= before);
                    lemma_push_entry_view(before, self.entries@);
                    lemma_bentries_view_len(before);
                    lemma_bentries_view_len(self.entries@);
                    let n = before.len() as int;
                    assert(self@[n] == (kspec, vspec));
                    assert(forall|l: int| 0 <= l < n ==> self@[l] == bentries_view(before)[l]);
                    assert(forall|l: int| 0 <= l < n ==> bentries_view(before)[l].0 != kspec)
                        by {
                        if exists|l: int|
                            0 <= l < n && bentries_view(before)[l].0 == kspec {
                            let l = choose|l: int|
                                0 <= l < n && bentries_view(before)[l].0 == kspec;
                            lemma_assoc_lookup_at_exists(bentries_view(before), kspec);
                        }
                    }
                    lemma_assoc_lookup_at(self@, kspec, n);
                    assert forall|kk: Seq<char>| kk != kspec implies block_lookup(self@, kk)
                        == block_lookup(bentries_view(before), kk) by {
                        lemma_lookup_append_one(bentries_view(before), self@, kk, n);
                    }
                    assert(keys_unique(self@)) by {
                        assert(forall|l: int| 0 <= l < n ==> self@[l] == bentries_view(before)[l]);
                        assert(self@[n].0 == kspec);
                    }
                }
            },
        }
    }

    /// Removes and returns the value of the field named `k`, if any; the
    /// other fields keep their relative order.
    pub fn remove(&mut self, k: &String) -> (r: Option<MetaVal>)
        requires
            old(self).wf(),
        ensures
            final(self).wf(),
            match r {
                Some(v) => {
                    &&& block_lookup(old(self)@, k@) == Some(v@)
                    &&& final(self)@.len() == old(self)@.len() - 1
                },
                None => {
                    &&& block_lookup(old(self)@, k@) == None::<ValSpec>
                    &&& final(self)@ == old(self)@
                },
            },
            block_lookup(final(self)@, k@) == None::<ValSpec>,
            forall|kk: Seq<char>| kk != k@ ==> block_lookup(final(self)@, kk) == block_lookup(
                old(self)@,
                kk,
            ),
    {
        proof {
            lemma_bentries_view_len(self.entries@);
        }
        let ghost before: Seq<(String, MetaVal)> = self.entries@;
        match self.position_of(k) {
            Some(j) => {
                let kv: (String, MetaVal) = self.entries.remove(j);
                proof {
                    assert(forall|l: int|
                        0 <= l < j ==> self.entries@[l] == before[l]);
                    assert(forall|l: int|
                        j <= l < self.entries@.len() ==> self.entries@[l] == before[l + 1]);
                    lemma_remove_entry_view(before, self.entries@, j as int);
                    lemma_lookup_after_remove(bentries_view(before), self@, k@, j as int);
                    assert(keys_unique(self@));
                    lemma_bentries_view_index(before, j as int);
                    assert(kv.1@ == bentries_view(before)[j as int].1);
                }
                Some(kv.1)
            },
            None => None,
        }
    }
}

impl Block {
    /// A copy whose view equals this block's view.
    pub fn duplicate(&self) -> (r: Block)
        ensures
            r@ == self@,
    {
        let n: usize = self.entries.len();
        proof {
            lemma_bentries_view_len(self.entries@);
        }
        let mut out: Vec<(String, MetaVal)> = Vec::new();
        let mut i: usize = 0;
        while i < n
            invariant
                n == self.entries@.len(),
                i <= n,
                out@.len() == i,
                forall|l: int|
                    0 <= l < i ==> out@[l].0@ == self.entries@[l].0@ && val_view(out@[l].1)
                        == val_view(self.entries@[l].1),
            decreases n - i,
        {
            let k: String = self.entries[i].0.clone();
            let v: MetaVal = self.entries[i].1.duplicate();
            out.push((k, v));
            i = i + 1;
        }
        proof {
            lemma_bentries_view_eq_pointwise(out@, self.entries@);
        }
        Block { entries: out }
    }
}

/// Two entry lists with pointwise equal names and value views have equal
/// block views.
proof fn lemma_bentries_view_eq_pointwise(a: Seq<(String, MetaVal)>, b: Seq<(String, MetaVal)>)
    requires
        a.len() == b.len(),
        forall|l: int|
            0 <= l < a.len() ==> a[l].0@ == b[l].0@ && val_view(a[l].1) == val_view(b[l].1),
    ensures
        bentries_view(a) == bentries_view(b),
{
    lemma_bentries_view_len(a);
    lemma_bentries_view_len(b);
    assert forall|l: int| 0 <= l < a.len() implies bentries_view(a)[l] == bentries_view(b)[l] by {
        lemma_bentries_view_index(a, l);
        lemma_bentries_view_index(b, l);
    }
    assert(bentries_view(a) =~= bentries_view(b));
}

/// The view of a keyed collection of blocks: entry names as character
/// sequences and blocks by view, in insertion order.
pub open spec fn bmentries_view(es: Seq<(String, Block)>) -> Seq<
    (Seq<char>, Seq<(Seq<char>, ValSpec)>),
>
    decreases es,
{
    if es.len() == 0 {
        Seq::empty()
    } else {
        seq![(es[0].0@, es[0].1@)] + bmentries_view(es.subrange(1, es.len() as int))
    }
}

/// A keyed collection's view has one entry per name, in order.
pub broadcast proof fn lemma_bmentries_view_len(es: Seq<(String, Block)>)
    ensures
        #[trigger] bmentries_view(es).len() == es.len(),
    decreases es,
{
    if es.len() > 0 {
        lemma_bmentries_view_len(es.subrange(1, es.len() as int));
    }
}

/// Indexing a keyed collection's view gives the views of the indexed entry.
pub broadcast proof fn lemma_bmentries_view_index(es: Seq<(String, Block)>, i: int)
    requires
        0 <= i < es.len(),
    ensures
        bmentries_view(es).len() == es.len(),
        #[trigger] bmentries_view(es)[i] == (es[i].0@, es[i].1@),
    decreases es,
{
    lemma_bmentries_view_len(es);
    if i > 0 {
        lemma_bmentries_view_index(es.subrange(1, es.len() as int), i - 1);
    }
}

/// An insertion-ordered mapping from entry names to blocks, as a siblings
/// sidecar with a keyed shape carries it.
#[derive(Debug, PartialEq, Eq)]
pub struct BlockMapping {
    entries: Vec<(String, Block)>,
}

impl View for BlockMapping {
    type V = Seq<(Seq<char>, Seq<(Seq<char>, ValSpec)>)>;

    closed spec fn view(&self) -> Seq<(Seq<char>, Seq<(Seq<char>, ValSpec)>)> {
        bmentries_view(self.entries@)
    }
}

impl BlockMapping {
    /// Well-formedness: entry names are unique and each block is
    /// well-formed.
    pub open spec fn wf(self) -> bool {
        &&& names_unique(self@)
        &&& forall|i: int| 0 <= i < self@.len() ==> keys_unique(#[trigger] self@[i].1)
    }

    /// The empty mapping.
    pub fn new() -> (r: BlockMapping)
        ensures
            r@ == Seq::<(Seq<char>, Seq<(Seq<char>, ValSpec)>)>::empty(),
            r.wf(),
    {
        BlockMapping { entries: Vec::new() }
    }

    /// How many entries the mapping holds.
    pub fn len(&self) -> (r: usize)
        ensures
            r == self@.len(),
    {
        proof {
            lemma_bmentries_view_len(self.entries@);
        }
        self.entries.len()
    }

    /// The index of the entry named `k`, if the mapping holds one.
    fn position_of(&self, k: &String) -> (r: Option<usize>)
        ensures
            match r {
                Some(j) => {
                    &&& j < self@.len()
                    &&& self@[j as int].0 == k@
                    &&& assoc_lookup(self@, k@) == Some(self@[j as int].1)
                    &&& forall|l: int| 0 <= l < j ==> self@[l].0 != k@
                },
                None => assoc_lookup(self@, k@) == None::<Seq<(Seq<char>, ValSpec)>>,
            },
    {
        let n: usize = self.entries.len();
        proof {
            lemma_bmentries_view_len(self.entries@);
        }
        let mut i: usize = 0;
        while i < n
            invariant
                n == self.entries@.len() == self@.len(),
                i <= n,
                self@ == bmentries_view(self.entries@),
                forall|l: int| 0 <= l < i ==> self@[l].0 != k@,
            decreases n - i,
        {
            proof {
                lemma_bmentries_view_index(self.entries@, i as int);
            }
            if self.entries[i].0.eq(k) {
                proof {
                    lemma_assoc_lookup_at(self@, k@, i as int);
                }
                return Some(i);
            }
            i = i + 1;
        }
        proof {
            lemma_assoc_lookup_none(self@, k@);
        }
        None
    }

    /// Whether the mapping holds an entry named `k`.
    pub fn contains_name(&self, k: &String) -> (r: bool)
        ensures
            r <==> assoc_lookup(self@, k@) is Some,
    {
        self.position_of(k).is_some()
    }

    /// Appends an entry under a name the mapping does not hold yet; keyed
    /// sidecar shapes carry each name once.
    pub fn push_entry(&mut self, k: String, b: Block)
        requires
            old(self).wf(),
            b.wf(),
            assoc_lookup(old(self)@, k@) is None,
        ensures
            final(self).wf(),
            final(self)@ == old(self)@.push((k@, b@)),
    {
        proof {
            lemma_bmentries_view_len(self.entries@);
        }
        let ghost before: Seq<(String, Block)> = self.entries@;
        let ghost kspec: Seq<char> = k@;
        let ghost bspec: Seq<(Seq<char>, ValSpec)> = b@;
        self.entries.push((k, b));
        proof {
            assert(self.entries@.subrange(0, before.len() as int) =~= before);
            lemma_bmentries_push_view(before, self.entries@);
            lemma_bmentries_view_len(before);
            lemma_bmentries_view_len(self.entries@);
            let n = before.len() as int;
            assert(self@[n] == (kspec, bspec));
            assert(forall|l: int| 0 <= l < n ==> self@[l] == bmentries_view(before)[l]);
            assert(forall|l: int| 0 <= l < n ==> bmentries_view(before)[l].0 != kspec) by {
                if exists|l: int| 0 <= l < n && bmentries_view(before)[l].0 == kspec {
                    let l = choose|l: int| 0 <= l < n && bmentries_view(before)[l].0 == kspec;
                    lemma_assoc_lookup_at_exists(bmentries_view(before), kspec);
                }
            }
            assert(self@ =~= bmentries_view(before).push((kspec, bspec)));
        }
    }

    /// Removes and returns the block under a name, if any; the other
    /// entries keep their relative order.
    pub fn remove_by_name(&mut self, k: &String) -> (r: Option<Block>)
        requires
            old(self).wf(),
        ensures
            final(self).wf(),
            match r {
                Some(b) => {
                    &&& assoc_lookup(old(self)@, k@) == Some(b@)
                    &&& b.wf()
                    &&& final(self)@.len() == old(self)@.len() - 1
                },
                None => {
                    &&& assoc_lookup(old(self)@, k@) == None::<Seq<(Seq<char>, ValSpec)>>
                    &&& final(self)@ == old(self)@
                },
            },
            assoc_lookup(final(self)@, k@) == None::<Seq<(Seq<char>, ValSpec)>>,
            forall|kk: Seq<char>| kk != k@ ==> assoc_lookup(final(self)@, kk) == assoc_lookup(
                old(self)@,
                kk,
            ),
            final(self)@ == assoc_remove(old(self)@, k@),
    {
        proof {
            lemma_bmentries_view_len(self.entries@);
        }
        let ghost before: Seq<(String, Block)> = self.entries@;
        match self.position_of(k) {
            Some(j) => {
                let kv: (String, Block) = self.entries.remove(j);
                proof {
                    assert(forall|l: int| 0 <= l < j ==> self.entries@[l] == before[l]);
                    assert(forall|l: int|
                        j <= l < self.entries@.len() ==> self.entries@[l] == before[l + 1]);
                    lemma_bmentries_remove_view(before, self.entries@, j as int);
                    lemma_lookup_after_remove(bmentries_view(before), self@, k@, j as int);
                    lemma_bmentries_view_index(before, j as int);
                    assert(kv.1@ == bmentries_view(before)[j as int].1);
                    lemma_assoc_remove_at(bmentries_view(before), k@, j as int);
                    assert(self@ =~= bmentries_view(before).subrange(0, j as int)
                        + bmentries_view(before).subrange(
                        j as int + 1,
                        bmentries_view(before).len() as int,
                    ));
                }
                Some(kv.1)
            },
            None => {
                proof {
                    lemma_assoc_none_forall(self@, k@);
                    lemma_assoc_remove_absent(self@, k@);
                }
                None
            },
        }
    }

    /// Removes and returns the first entry, if any.
    pub fn pop_front(&mut self) -> (r: Option<(String, Block)>)
        requires
            old(self).wf(),
        ensures
            final(self).wf(),
            match r {
                Some(kb) => {
                    &&& old(self)@.len() > 0
                    &&& (kb.0@, kb.1@) == old(self)@[0]
                    &&& kb.1.wf()
                    &&& final(self)@ == old(self)@.subrange(1, old(self)@.len() as int)
                },
                None => {
                    &&& old(self)@.len() == 0
                    &&& final(self)@ == old(self)@
                },
            },
    {
        proof {
            lemma_bmentries_view_len(self.entries@);
        }
        if self.entries.len() == 0 {
            return None;
        }
        let ghost before: Seq<(String, Block)> = self.entries@;
        let kv: (String, Block) = self.entries.remove(0);
        proof {
            assert(forall|l: int|
                0 <= l < self.entries@.len() ==> self.entries@[l] == before[l + 1]);
            lemma_bmentries_remove_view(before, self.entries@, 0);
            lemma_bmentries_view_index(before, 0);
            assert(self@ =~= bmentries_view(before).subrange(
                1,
                bmentries_view(before).len() as int,
            ));
            assert(kv.1@ == bmentries_view(before)[0].1);
            assert(keys_unique(kv.1@));
            assert(names_unique(self@)) by {
                assert(forall|l: int|
                    0 <= l < self@.len() ==> self@[l] == bmentries_view(before)[l + 1]);
            }
            assert forall|i: int| 0 <= i < self@.len() implies keys_unique(
                #[trigger] self@[i].1,
            ) by {
                assert(self@[i] == bmentries_view(before)[i + 1]);
            }
        }
        Some(kv)
    }
}

/// Pushing one entry appends one element to a keyed collection's view.
proof fn lemma_bmentries_push_view(before: Seq<(String, Block)>, after: Seq<(String, Block)>)
    requires
        after.len() == before.len() + 1,
        after.subrange(0, before.len() as int) == before,
    ensures
        bmentries_view(after).len() == after.len(),
        forall|l: int|
            0 <= l < before.len() ==> bmentries_view(after)[l] == bmentries_view(before)[l],
        bmentries_view(after)[before.len() as int] == (
            after[before.len() as int].0@,
            after[before.len() as int].1@,
        ),
{
    lemma_bmentries_view_len(after);
    lemma_bmentries_view_len(before);
    assert forall|l: int| 0 <= l < before.len() implies bmentries_view(after)[l] == bmentries_view(
        before,
    )[l] by {
        lemma_bmentries_view_index(after, l);
        lemma_bmentries_view_index(before, l);
        assert(after[l] == before[l]);
    }
    lemma_bmentries_view_index(after, before.len() as int);
}

/// Removing one entry splices a keyed collection's view at that position.
proof fn lemma_bmentries_remove_view(
    before: Seq<(String, Block)>,
    after: Seq<(String, Block)>,
    j: int,
)
    requires
        0 <= j < before.len(),
        after.len() == before.len() - 1,
        forall|l: int| 0 <= l < j ==> after[l] == before[l],
        forall|l: int| j <= l < after.len() ==> after[l] == before[l + 1],
    ensures
        bmentries_view(after).len() == after.len(),
        forall|l: int| 0 <= l < j ==> bmentries_view(after)[l] == bmentries_view(before)[l],
        forall|l: int|
            j <= l < after.len() ==> bmentries_view(after)[l] == bmentries_view(before)[l + 1],
{
    lemma_bmentries_view_len(after);
    lemma_bmentries_view_len(before);
    assert forall|l: int| 0 <= l < j implies bmentries_view(after)[l] == bmentries_view(
        before,
    )[l] by {
        lemma_bmentries_view_index(after, l);
        lemma_bmentries_view_index(before, l);
    }
    assert forall|l: int| j <= l < after.len() implies bmentries_view(after)[l] == bmentries_view(
        before,
    )[l + 1] by {
        lemma_bmentries_view_index(after, l);
        lemma_bmentries_view_index(before, l + 1);
    }
}

/// The views of a sequence of blocks, in order.
pub open spec fn blockseq_view(bs: Seq<Block>) -> Seq<Seq<(Seq<char>, ValSpec)>>
    decreases bs,
{
    if bs.len() == 0 {
        Seq::empty()
    } else {
        seq![bs[0]@] + blockseq_view(bs.subrange(1, bs.len() as int))
    }
}

/// A block sequence's view has one element per block, in order.
pub broadcast proof fn lemma_blockseq_view_len(bs: Seq<Block>)
    ensures
        #[trigger] blockseq_view(bs).len() == bs.len(),
    decreases bs,
{
    if bs.len() > 0 {
        lemma_blockseq_view_len(bs.subrange(1, bs.len() as int));
    }
}

/// Indexing a block sequence's view gives the view of the indexed block.
pub broadcast proof fn lemma_blockseq_view_index(bs: Seq<Block>, i: int)
    requires
        0 <= i < bs.len(),
    ensures
        blockseq_view(bs).len() == bs.len(),
        #[trigger] blockseq_view(bs)[i] == bs[i]@,
    decreases bs,
{
    lemma_blockseq_view_len(bs);
    if i > 0 {
        lemma_blockseq_view_index(bs.subrange(1, bs.len() as int), i - 1);
    }
}

/// Whether every block in a sequence is well-formed.
pub open spec fn blockseq_wf(bs: Seq<Block>) -> bool {
    forall|i: int| 0 <= i < bs.len() ==> (#[trigger] bs[i]).wf()
}

/// The shapes a parsed sidecar takes: one block describing a directory, a
/// positional sequence of blocks, or a mapping from entry names to blocks.
#[derive(Debug)]
pub enum MetaStructure {
    One(Block),
    Sequence(Vec<Block>),
    Mapping(BlockMapping),
}

impl MetaStructure {
    /// Well-formedness of the shape's blocks and, for the keyed shape, of
    /// its names.
    pub open spec fn wf(self) -> bool {
        match self {
            MetaStructure::One(b) => b.wf(),
            MetaStructure::Sequence(bs) => blockseq_wf(bs@),
            MetaStructure::Mapping(m) => m.wf(),
        }
    }
}

/// Setting one entry changes exactly that position of the view.
proof fn lemma_set_entry_view(before: Seq<(String, MetaVal)>, after: Seq<(String, MetaVal)>, j: int)
    requires
        0 <= j < before.len(),
        after == before.update(j, after[j]),
        after.len() == before.len(),
    ensures
        bentries_view(after).len() == before.len(),
        forall|l: int|
            0 <= l < before.len() && l != j ==> bentries_view(after)[l] == bentries_view(before)[l],
        bentries_view(after)[j] == (after[j].0@, val_view(after[j].1)),
    decreases before.len(),
{
    lemma_bentries_view_len(after);
    lemma_bentries_view_len(before);
    assert forall|l: int| 0 <= l < before.len() && l != j implies bentries_view(after)[l]
        == bentries_view(before)[l] by {
        lemma_bentries_view_index(after, l);
        lemma_bentries_view_index(before, l);
    }
    lemma_bentries_view_index(after, j);
}

/// Pushing one entry appends one element to the view.
proof fn lemma_push_entry_view(before: Seq<(String, MetaVal)>, after: Seq<(String, MetaVal)>)
    requires
        after.len() == before.len() + 1,
        after.subrange(0, before.len() as int) == before,
    ensures
        bentries_view(after).len() == after.len(),
        forall|l: int|
            0 <= l < before.len() ==> bentries_view(after)[l] == bentries_view(before)[l],
        bentries_view(after)[before.len() as int] == (
            after[before.len() as int].0@,
            val_view(after[before.len() as int].1),
        ),
{
    lemma_bentries_view_len(after);
    lemma_bentries_view_len(before);
    assert forall|l: int| 0 <= l < before.len() implies bentries_view(after)[l] == bentries_view(
        before,
    )[l] by {
        lemma_bentries_view_index(after, l);
        lemma_bentries_view_index(before, l);
        assert(after[l] == before[l]);
    }
    lemma_bentries_view_index(after, before.len() as int);
}

/// Removing one entry splices the view at that position.
proof fn lemma_remove_entry_view(
    before: Seq<(String, MetaVal)>,
    after: Seq<(String, MetaVal)>,
    j: int,
)
    requires
        0 <= j < before.len(),
        after.len() == before.len() - 1,
        forall|l: int| 0 <= l < j ==> after[l] == before[l],
        forall|l: int| j <= l < after.len() ==> after[l] == before[l + 1],
    ensures
        bentries_view(after).len() == after.len(),
        forall|l: int| 0 <= l < j ==> bentries_view(after)[l] == bentries_view(before)[l],
        forall|l: int|
            j <= l < after.len() ==> bentries_view(after)[l] == bentries_view(before)[l + 1],
{
    lemma_bentries_view_len(after);
    lemma_bentries_view_len(before);
    assert forall|l: int| 0 <= l < j implies bentries_view(after)[l] == bentries_view(before)[l] by {
        lemma_bentries_view_index(after, l);
        lemma_bentries_view_index(before, l);
    }
    assert forall|l: int| j <= l < after.len() implies bentries_view(after)[l] == bentries_view(
        before,
    )[l + 1] by {
        lemma_bentries_view_index(after, l);
        lemma_bentries_view_index(before, l + 1);
    }
}

/// Two views that agree on every entry whose name is `kk` agree on looking
/// `kk` up, provided they pair positions with equal names one-to-one.
proof fn lemma_lookup_same_keys<V>(
    a: Seq<(Seq<char>, V)>,
    b: Seq<(Seq<char>, V)>,
    kk: Seq<char>,
)
    requires
        a.len() == b.len(),
        forall|l: int| 0 <= l < a.len() ==> a[l].0 == b[l].0,
        forall|l: int| 0 <= l < a.len() && a[l].0 == kk ==> a[l].1 == b[l].1,
    ensures
        assoc_lookup(a, kk) == assoc_lookup(b, kk),
    decreases a.len(),
{
    if a.len() > 0 {
        if a[0].0 != kk {
            lemma_lookup_same_keys(
                a.subrange(1, a.len() as int),
                b.subrange(1, b.len() as int),
                kk,
            );
        }
    }
}

/// Appending one entry leaves lookups of other names unchanged.
proof fn lemma_lookup_append_one<V>(
    a: Seq<(Seq<char>, V)>,
    b: Seq<(Seq<char>, V)>,
    kk: Seq<char>,
    n: int,
)
    requires
        b.len() == a.len() + 1,
        n == a.len(),
        forall|l: int| 0 <= l < n ==> b[l] == a[l],
        b[n].0 != kk,
    ensures
        assoc_lookup(b, kk) == assoc_lookup(a, kk),
    decreases a.len(),
{
    if a.len() == 0 {
    } else {
        if a[0].0 != kk {
            lemma_lookup_append_one(
                a.subrange(1, a.len() as int),
                b.subrange(1, b.len() as int),
                kk,
                n - 1,
            );
        }
    }
}

/// If some position carries the name, the lookup finds a value.
proof fn lemma_assoc_lookup_at_exists<V>(s: Seq<(Seq<char>, V)>, kk: Seq<char>)
    requires
        exists|l: int| 0 <= l < s.len() && s[l].0 == kk,
    ensures
        assoc_lookup(s, kk) is Some,
    decreases s.len(),
{
    if s[0].0 == kk {
    } else {
        let l = choose|l: int| 0 <= l < s.len() && s[l].0 == kk;
        assert(0 <= l - 1 < s.len() - 1 && s.subrange(1, s.len() as int)[l - 1].0 == kk);
        lemma_assoc_lookup_at_exists(s.subrange(1, s.len() as int), kk);
    }
}

/// Removing the only entry named `k` makes `k` absent and leaves other
/// names unchanged.
proof fn lemma_lookup_after_remove<V>(
    a: Seq<(Seq<char>, V)>,
    b: Seq<(Seq<char>, V)>,
    k: Seq<char>,
    j: int,
)
    requires
        names_unique(a),
        0 <= j < a.len(),
        a[j].0 == k,
        b.len() == a.len() - 1,
        forall|l: int| 0 <= l < j ==> b[l] == a[l],
        forall|l: int| j <= l < b.len() ==> b[l] == a[l + 1],
    ensures
        assoc_lookup(b, k) == None::<V>,
        forall|kk: Seq<char>| kk != k ==> assoc_lookup(b, kk) == assoc_lookup(a, kk),
        names_unique(b),
{
    assert forall|l: int| 0 <= l < b.len() implies b[l].0 != k by {
        if l < j {
            assert(b[l] == a[l]);
        } else {
            assert(b[l] == a[l + 1]);
        }
    }
    lemma_assoc_lookup_none(b, k);
    assert forall|kk: Seq<char>| kk != k implies assoc_lookup(b, kk) == assoc_lookup(a, kk) by {
        lemma_lookup_skip_one(a, b, kk, j);
    }
    assert forall|i: int, l: int| 0 <= i < l < b.len() implies b[i].0 != b[l].0 by {
        let ia = if i < j {
            i
        } else {
            i + 1
        };
        let la = if l < j {
            l
        } else {
            l + 1
        };
        assert(b[i] == a[ia]);
        assert(b[l] == a[la]);
    }
}

/// Skipping one entry of a different name leaves a lookup unchanged.
proof fn lemma_lookup_skip_one<V>(
    a: Seq<(Seq<char>, V)>,
    b: Seq<(Seq<char>, V)>,
    kk: Seq<char>,
    j: int,
)
    requires
        0 <= j < a.len(),
        a[j].0 != kk,
        b.len() == a.len() - 1,
        forall|l: int| 0 <= l < j ==> b[l] == a[l],
        forall|l: int| j <= l < b.len() ==> b[l] == a[l + 1],
    ensures
        assoc_lookup(b, kk) == assoc_lookup(a, kk),
    decreases a.len(),
{
    if j == 0 {
        assert(b =~= a.subrange(1, a.len() as int));
    } else {
        if a[0].0 != kk {
            lemma_lookup_skip_one(
                a.subrange(1, a.len() as int),
                b.subrange(1, b.len() as int),
                kk,
                j - 1,
            );
        }
    }
}

} // verus!
