//! Collecting a field from the sub-tree beneath an item: a depth-first,
//! pre-order walk that emits the field's value at each node that defines
//! it and does not descend past such a node.

use vstd::prelude::*;

use crate::blocks::Block;
use crate::blocks::block_lookup;
use crate::values::MetaVal;
use crate::values::ValSpec;
use crate::values::val_view;
use crate::values::vals_view;
use crate::sorter::PathInfo;

verus! {

/// Why an aggregation cannot proceed.
#[derive(Debug)]
pub enum Error {
    /// The metadata of a node cannot be processed.
    CannotProcessMetadata(String),
    /// The paths beneath a node cannot be selected.
    CannotSelectPaths(String),
}

/// Different ways to process child metadata into desired outputs.
#[derive(Debug, Clone, Copy, PartialEq, Eq, Hash)]
pub enum AggMethod {
    /// All collected values, in emission order, as one sequence value.
    Collect,
    /// The first collected value, or nothing.
    First,
}

/// One node of the walked sub-tree, as the caller read it: the node's
/// path, whether it is a directory, its flattened block, and its selected
/// children in the sorter's order.
#[derive(Debug)]
pub struct FsNode {
    pub path: PathInfo,
    pub is_dir: bool,
    pub block: Block,
    pub children: Vec<FsNode>,
}

/// What the walk beneath one node emits: the node's own pair where its
/// block defines the field, else whatever its children emit, in order.
pub open spec fn agg_spec(n: FsNode, k: Seq<char>) -> Seq<(ValSpec, (Seq<char>, Option<u64>))>
    decreases n,
{
    match block_lookup(n.block@, k) {
        Some(v) => seq![(v, n.path@)],
        None => agg_children(n.children@, k),
    }
}

/// What a list of sibling sub-trees emits, left to right.
pub open spec fn agg_children(cs: Seq<FsNode>, k: Seq<char>) -> Seq<
    (ValSpec, (Seq<char>, Option<u64>)),
>
    decreases cs,
{
    if cs.len() == 0 {
        Seq::empty()
    } else {
        agg_spec(cs[0], k) + agg_children(cs.subrange(1, cs.len() as int), k)
    }
}

/// The views of collected pairs.
pub open spec fn pairs_view(ps: Seq<(MetaVal, PathInfo)>) -> Seq<
    (ValSpec, (Seq<char>, Option<u64>)),
>
    decreases ps,
{
    if ps.len() == 0 {
        Seq::empty()
    } else {
        seq![(val_view(ps[0].0), ps[0].1@)] + pairs_view(ps.subrange(1, ps.len() as int))
    }
}

/// A pair list's view has one element per pair, in order.
pub broadcast proof fn lemma_pairs_view_len(ps: Seq<(MetaVal, PathInfo)>)
    ensures
        #[trigger] pairs_view(ps).len() == ps.len(),
    decreases ps,
{
    if ps.len() > 0 {
        lemma_pairs_view_len(ps.subrange(1, ps.len() as int));
    }
}

/// Indexing a pair list's view gives the view of the indexed pair.
pub broadcast proof fn lemma_pairs_view_index(ps: Seq<(MetaVal, PathInfo)>, i: int)
    requires
        0 <= i < ps.len(),
    ensures
        pairs_view(ps).len() == ps.len(),
        #[trigger] pairs_view(ps)[i] == (val_view(ps[i].0), ps[i].1@),
    decreases ps,
{
    lemma_pairs_view_len(ps);
    if i > 0 {
        lemma_pairs_view_index(ps.subrange(1, ps.len() as int), i - 1);
    }
}

/// Appending one pair appends its view.
proof fn lemma_pairs_snoc(
    before: Seq<(MetaVal, PathInfo)>,
    after: Seq<(MetaVal, PathInfo)>,
    x: (MetaVal, PathInfo),
)
    requires
        after == before.push(x),
    ensures
        pairs_view(after) == pairs_view(before).push((val_view(x.0), x.1@)),
{
    lemma_pairs_view_len(after);
    lemma_pairs_view_len(before);
    assert forall|l: int| 0 <= l < after.len() implies pairs_view(after)[l] == pairs_view(
        before,
    ).push((val_view(x.0), x.1@))[l] by {
        lemma_pairs_view_index(after, l);
        if l < before.len() {
            lemma_pairs_view_index(before, l);
        }
    }
    assert(pairs_view(after) =~= pairs_view(before).push((val_view(x.0), x.1@)));
}

/// Two pair-list views concatenate as the lists do.
proof fn lemma_pairs_view_concat(a: Seq<(MetaVal, PathInfo)>, b: Seq<(MetaVal, PathInfo)>)
    ensures
        pairs_view(a + b) == pairs_view(a) + pairs_view(b),
    decreases a.len(),
{
    if a.len() == 0 {
        assert(a + b =~= b);
        assert(pairs_view(a) =~= Seq::<(ValSpec, (Seq<char>, Option<u64>))>::empty());
        assert(pairs_view(a) + pairs_view(b) =~= pairs_view(b));
    } else {
        assert((a + b)[0] == a[0]);
        assert((a + b).subrange(1, (a + b).len() as int) =~= a.subrange(1, a.len() as int) + b);
        lemma_pairs_view_concat(a.subrange(1, a.len() as int), b);
        assert(seq![(val_view(a[0].0), a[0].1@)] + (pairs_view(a.subrange(1, a.len() as int))
            + pairs_view(b)) =~= pairs_view(a) + pairs_view(b));
    }
}

/// Whether one path lies strictly beneath another: the ancestor is a
/// proper prefix, ending at a separator.
pub open spec fn strict_descendant(p: Seq<char>, q: Seq<char>) -> bool {
    p.len() > q.len() && p.subrange(0, q.len() as int) == q && p[q.len() as int] == '/'
}

/// Whether one path is another or lies strictly beneath it.
pub open spec fn descendant_or_self(p: Seq<char>, q: Seq<char>) -> bool {
    p == q || strict_descendant(p, q)
}

/// Well-formedness of a walked tree: every child's path lies strictly
/// beneath its parent's, and no sibling's path lies beneath another's.
pub open spec fn node_wf(n: FsNode) -> bool
    decreases n,
{
    &&& children_paths_independent(n.children@)
    &&& children_wf(n.children@, n.path@.0)
}

/// Well-formedness of a list of sibling sub-trees under one base path.
pub open spec fn children_wf(cs: Seq<FsNode>, base: Seq<char>) -> bool
    decreases cs,
{
    if cs.len() == 0 {
        true
    } else {
        &&& strict_descendant(cs[0].path@.0, base)
        &&& node_wf(cs[0])
        &&& children_wf(cs.subrange(1, cs.len() as int), base)
    }
}

/// No sibling's path equals or lies beneath another sibling's.
pub open spec fn children_paths_independent(cs: Seq<FsNode>) -> bool {
    forall|i: int, j: int|
        0 <= i < cs.len() && 0 <= j < cs.len() && i != j ==> !descendant_or_self(
            (#[trigger] cs[i]).path@.0,
            (#[trigger] cs[j]).path@.0,
        )
}

/// Lying strictly beneath is transitive, and composes with equality.
proof fn lemma_descendant_trans(p: Seq<char>, a: Seq<char>, b: Seq<char>)
    requires
        descendant_or_self(p, a),
        descendant_or_self(a, b),
    ensures
        descendant_or_self(p, b),
{
    if p != a && a != b {
        assert(p.subrange(0, b.len() as int) =~= p.subrange(0, a.len() as int).subrange(
            0,
            b.len() as int,
        ));
        assert(p[b.len() as int] == a[b.len() as int]);
    }
}

/// Two ancestors of one path are nested one beneath the other.
proof fn lemma_ancestors_nested(p: Seq<char>, a: Seq<char>, b: Seq<char>)
    requires
        descendant_or_self(p, a),
        descendant_or_self(p, b),
    ensures
        descendant_or_self(a, b) || descendant_or_self(b, a),
{
    if p == a || p == b {
    } else {
        if a.len() == b.len() {
            assert(a =~= b);
        } else if a.len() < b.len() {
            assert(b.subrange(0, a.len() as int) =~= p.subrange(0, b.len() as int).subrange(
                0,
                a.len() as int,
            ));
            assert(b.subrange(0, a.len() as int) =~= p.subrange(0, a.len() as int));
            assert(b[a.len() as int] == p[a.len() as int]);
        } else {
            assert(a.subrange(0, b.len() as int) =~= p.subrange(0, a.len() as int).subrange(
                0,
                b.len() as int,
            ));
            assert(a.subrange(0, b.len() as int) =~= p.subrange(0, b.len() as int));
            assert(a[b.len() as int] == p[b.len() as int]);
        }
    }
}

/// Every path the walk beneath a node emits is the node's path or lies
/// strictly beneath it.
proof fn lemma_agg_in_subtree(n: FsNode, k: Seq<char>)
    requires
        node_wf(n),
    ensures
        forall|i: int|
            0 <= i < agg_spec(n, k).len() ==> descendant_or_self(
                (#[trigger] agg_spec(n, k)[i]).1.0,
                n.path@.0,
            ),
    decreases n,
{
    match block_lookup(n.block@, k) {
        Some(v) => {
            assert(agg_spec(n, k) == seq![(v, n.path@)]);
            assert(agg_spec(n, k)[0].1.0 == n.path@.0);
        },
        None => {
            lemma_agg_children_in_subtrees(n.children@, k, n.path@.0);
            assert(agg_spec(n, k) == agg_children(n.children@, k));
            assert forall|i: int| 0 <= i < agg_spec(n, k).len() implies descendant_or_self(
                (#[trigger] agg_spec(n, k)[i]).1.0,
                n.path@.0,
            ) by {
                assert(agg_spec(n, k)[i] == agg_children(n.children@, k)[i]);
            }
        },
    }
}

/// Every path a list of sibling sub-trees emits lies strictly beneath
/// the shared base path.
proof fn lemma_agg_children_in_subtrees(cs: Seq<FsNode>, k: Seq<char>, base: Seq<char>)
    requires
        children_wf(cs, base),
    ensures
        forall|i: int|
            0 <= i < agg_children(cs, k).len() ==> strict_descendant(
                (#[trigger] agg_children(cs, k)[i]).1.0,
                base,
            ),
    decreases cs,
{
    if cs.len() > 0 {
        let head = agg_spec(cs[0], k);
        let rest = cs.subrange(1, cs.len() as int);
        lemma_agg_in_subtree(cs[0], k);
        lemma_agg_children_in_subtrees(rest, k, base);
        assert forall|i: int| 0 <= i < agg_children(cs, k).len() implies strict_descendant(
            (#[trigger] agg_children(cs, k)[i]).1.0,
            base,
        ) by {
            if i < head.len() {
                assert(agg_children(cs, k)[i] == head[i]);
                lemma_descendant_trans(head[i].1.0, cs[0].path@.0, base);
                assert(agg_children(cs, k)[i].1.0 != base) by {
                    if head[i].1.0 == base {
                        assert(descendant_or_self(base, cs[0].path@.0));
                        assert(strict_descendant(cs[0].path@.0, base));
                        assert(cs[0].path@.0.len() > base.len());
                        assert(base.len() > cs[0].path@.0.len() || base == cs[0].path@.0);
                    }
                }
            } else {
                assert(agg_children(cs, k)[i] == agg_children(rest, k)[i - head.len()]);
            }
        }
    }
}

/// Every path a list of sibling sub-trees emits belongs to one sibling's
/// sub-tree.
proof fn lemma_agg_children_member(cs: Seq<FsNode>, k: Seq<char>, idx: int)
    requires
        forall|w: int| 0 <= w < cs.len() ==> node_wf(#[trigger] cs[w]),
        0 <= idx < agg_children(cs, k).len(),
    ensures
        exists|w: int|
            0 <= w < cs.len() && descendant_or_self(
                agg_children(cs, k)[idx].1.0,
                (#[trigger] cs[w]).path@.0,
            ),
    decreases cs,
{
    let head = agg_spec(cs[0], k);
    let rest = cs.subrange(1, cs.len() as int);
    if idx < head.len() {
        lemma_agg_in_subtree(cs[0], k);
        assert(agg_children(cs, k)[idx] == head[idx]);
        assert(descendant_or_self(agg_children(cs, k)[idx].1.0, cs[0].path@.0));
    } else {
        assert(forall|w: int| 0 <= w < rest.len() ==> #[trigger] rest[w] == cs[w + 1]);
        lemma_agg_children_member(rest, k, idx - head.len());
        assert(agg_children(cs, k)[idx] == agg_children(rest, k)[idx - head.len()]);
        let w = choose|w: int|
            0 <= w < rest.len() && descendant_or_self(
                agg_children(rest, k)[idx - head.len()].1.0,
                (#[trigger] rest[w]).path@.0,
            );
        assert(cs[w + 1] == rest[w]);
        assert(descendant_or_self(agg_children(cs, k)[idx].1.0, cs[w + 1].path@.0));
    }
}

/// A well-formed sibling list is made of well-formed sub-trees beneath
/// the base.
proof fn lemma_children_wf_pointwise(cs: Seq<FsNode>, base: Seq<char>)
    requires
        children_wf(cs, base),
    ensures
        forall|w: int| 0 <= w < cs.len() ==> node_wf(#[trigger] cs[w]),
        forall|w: int|
            0 <= w < cs.len() ==> strict_descendant((#[trigger] cs[w]).path@.0, base),
    decreases cs,
{
    if cs.len() > 0 {
        let rest = cs.subrange(1, cs.len() as int);
        lemma_children_wf_pointwise(rest, base);
        assert forall|w: int| 0 <= w < cs.len() implies node_wf(#[trigger] cs[w])
            && strict_descendant(cs[w].path@.0, base) by {
            if w > 0 {
                assert(rest[w - 1] == cs[w]);
            }
        }
    }
}

/// Aggregator pruning: no emitted pair's path lies strictly beneath
/// another emitted pair's path, because the walk stops at each node that
/// defines the field.
pub proof fn law_aggregator_pruning(n: FsNode, k: Seq<char>)
    requires
        node_wf(n),
    ensures
        forall|i: int, j: int|
            0 <= i < agg_spec(n, k).len() && 0 <= j < agg_spec(n, k).len() && i != j
                ==> !strict_descendant(
                (#[trigger] agg_spec(n, k)[i]).1.0,
                (#[trigger] agg_spec(n, k)[j]).1.0,
            ),
    decreases n,
{
    match block_lookup(n.block@, k) {
        Some(v) => {
            assert(agg_spec(n, k) == seq![(v, n.path@)]);
            assert(agg_spec(n, k).len() == 1);
        },
        None => {
            lemma_children_wf_pointwise(n.children@, n.path@.0);
            law_aggregator_pruning_children(n.children@, k);
            assert(agg_spec(n, k) == agg_children(n.children@, k));
            assert forall|i: int, j: int|
                0 <= i < agg_spec(n, k).len() && 0 <= j < agg_spec(n, k).len() && i != j
                implies !strict_descendant(
                (#[trigger] agg_spec(n, k)[i]).1.0,
                (#[trigger] agg_spec(n, k)[j]).1.0,
            ) by {
                assert(agg_spec(n, k)[i] == agg_children(n.children@, k)[i]);
                assert(agg_spec(n, k)[j] == agg_children(n.children@, k)[j]);
            }
        },
    }
}

/// Pruning across a list of independent sibling sub-trees.
proof fn law_aggregator_pruning_children(cs: Seq<FsNode>, k: Seq<char>)
    requires
        children_paths_independent(cs),
        forall|w: int| 0 <= w < cs.len() ==> node_wf(#[trigger] cs[w]),
    ensures
        forall|i: int, j: int|
            0 <= i < agg_children(cs, k).len() && 0 <= j < agg_children(cs, k).len() && i != j
                ==> !strict_descendant(
                (#[trigger] agg_children(cs, k)[i]).1.0,
                (#[trigger] agg_children(cs, k)[j]).1.0,
            ),
    decreases cs,
{
    if cs.len() > 0 {
        let c0 = cs[0];
        let head = agg_spec(c0, k);
        let rest = cs.subrange(1, cs.len() as int);
        law_aggregator_pruning(c0, k);
        assert(children_paths_independent(rest)) by {
            assert(forall|i: int|
                0 <= i < rest.len() ==> #[trigger] rest[i] == cs[i + 1]);
        }
        assert(forall|w: int| 0 <= w < rest.len() ==> node_wf(#[trigger] rest[w])) by {
            assert(forall|i: int|
                0 <= i < rest.len() ==> #[trigger] rest[i] == cs[i + 1]);
        }
        law_aggregator_pruning_children(rest, k);
        lemma_agg_in_subtree(c0, k);
        assert forall|i: int, j: int|
            0 <= i < agg_children(cs, k).len() && 0 <= j < agg_children(cs, k).len() && i != j
            implies !strict_descendant(
            (#[trigger] agg_children(cs, k)[i]).1.0,
            (#[trigger] agg_children(cs, k)[j]).1.0,
        ) by {
            let out = agg_children(cs, k);
            let hl = head.len() as int;
            if i < hl && j < hl {
                assert(out[i] == head[i]);
                assert(out[j] == head[j]);
            } else if i >= hl && j >= hl {
                assert(out[i] == agg_children(rest, k)[i - hl]);
                assert(out[j] == agg_children(rest, k)[j - hl]);
            } else {
                // One path comes from the first sibling's sub-tree, the
                // other from a later sibling's; their roots are
                // independent, so neither path can lie beneath the other.
                let (fi, li) = if i < hl {
                    (i, j)
                } else {
                    (j, i)
                };
                assert(out[fi] == head[fi]);
                assert(out[li] == agg_children(rest, k)[li - hl]);
                let p_first = head[fi].1.0;
                let p_later = agg_children(rest, k)[li - hl].1.0;
                assert(descendant_or_self(p_first, cs[0].path@.0));
                lemma_agg_children_member(rest, k, li - hl);
                let w = choose|w: int|
                    0 <= w < rest.len() && descendant_or_self(
                        p_later,
                        (#[trigger] rest[w]).path@.0,
                    );
                assert(cs[w + 1] == rest[w]);
                assert(exists|u: int|
                    1 <= u < cs.len() && descendant_or_self(
                        p_later,
                        (#[trigger] cs[u]).path@.0,
                    )) by {
                    assert(descendant_or_self(p_later, cs[w + 1].path@.0));
                }
                lemma_cross_sibling_independent(cs, k, p_first, p_later);
                if strict_descendant(out[i].1.0, out[j].1.0) {
                    assert(false);
                }
            }
        }
    }
}

/// A path beneath the first sibling and a path beneath a later sibling
/// never lie one beneath the other.
proof fn lemma_cross_sibling_independent(
    cs: Seq<FsNode>,
    k: Seq<char>,
    p_first: Seq<char>,
    p_later: Seq<char>,
)
    requires
        cs.len() > 0,
        children_paths_independent(cs),
        descendant_or_self(p_first, cs[0].path@.0),
        exists|w: int|
            1 <= w < cs.len() && descendant_or_self(p_later, (#[trigger] cs[w]).path@.0),
    ensures
        !strict_descendant(p_first, p_later),
        !strict_descendant(p_later, p_first),
{
    let w = choose|w: int|
        1 <= w < cs.len() && descendant_or_self(p_later, (#[trigger] cs[w]).path@.0);
    assert(!descendant_or_self(cs[0].path@.0, cs[w].path@.0));
    assert(!descendant_or_self(cs[w].path@.0, cs[0].path@.0));
    if strict_descendant(p_first, p_later) {
        lemma_descendant_trans(p_first, p_later, cs[w].path@.0);
        lemma_ancestors_nested(p_first, cs[0].path@.0, cs[w].path@.0);
        assert(false);
    }
    if strict_descendant(p_later, p_first) {
        lemma_descendant_trans(p_later, p_first, cs[0].path@.0);
        lemma_ancestors_nested(p_later, cs[0].path@.0, cs[w].path@.0);
        assert(false);
    }
}

/// The aggregator over a walked sub-tree.
#[derive(Debug)]
pub struct MetaAggregator;

impl MetaAggregator {
    /// Removes and returns the requested field from a flattened block.
    pub fn resolve_field(mb: &mut Block, field: &String) -> (r: Option<MetaVal>)
        requires
            old(mb).wf(),
        ensures
            final(mb).wf(),
            match r {
                Some(v) => block_lookup(old(mb)@, field@) == Some(v@),
                None => block_lookup(old(mb)@, field@) == None::<ValSpec>,
            },
    {
        mb.remove(field)
    }

    /// Walks the sub-tree beneath a node in depth-first pre-order and
    /// collects `(value, path)` pairs: a node that defines the field
    /// contributes its pair and is not descended into.  Over well-formed
    /// trees, [`law_aggregator_pruning`] shows that no collected path
    /// lies beneath another.
    pub fn resolve_field_children_helper(node: &FsNode, field: &String) -> (r: Vec<
        (MetaVal, PathInfo),
    >)
        ensures
            pairs_view(r@) == agg_spec(*node, field@),
        decreases *node,
    {
        let mut out: Vec<(MetaVal, PathInfo)> = Vec::new();
        match node.block.get(field) {
            Some(v) => {
                let pair: (MetaVal, PathInfo) = (v.duplicate(), node.path.duplicate());
                let ghost pv: (ValSpec, (Seq<char>, Option<u64>)) = (
                    val_view(pair.0),
                    pair.1@,
                );
                let ghost before: Seq<(MetaVal, PathInfo)> = out@;
                out.push(pair);
                proof {
                    lemma_pairs_snoc(before, out@, out@[out@.len() - 1]);
                    assert(pairs_view(out@) =~= agg_spec(*node, field@));
                }
            },
            None => {
                let collected: Vec<(MetaVal, PathInfo)> = collect_children(
                    &node.children,
                    field,
                );
                proof {
                    assert(pairs_view(collected@) == agg_children(node.children@, field@));
                }
                return collected;
            },
        }
        out
    }

    /// Folds the collected pairs under an aggregation method: the first
    /// value (or nil), or all values as one sequence.
    pub fn resolve_field_children(node: &FsNode, field: &String, agg_method: AggMethod) -> (r:
        MetaVal)
        ensures
            r@ == match agg_method {
                AggMethod::First => if agg_spec(*node, field@).len() > 0 {
                    agg_spec(*node, field@)[0].0
                } else {
                    ValSpec::Nil
                },
                AggMethod::Collect => ValSpec::Sequence(
                    agg_spec(*node, field@).map_values(
                        |p: (ValSpec, (Seq<char>, Option<u64>))| p.0,
                    ),
                ),
            },
    {
        let mut pairs: Vec<(MetaVal, PathInfo)> = Self::resolve_field_children_helper(
            node,
            field,
        );
        proof {
            lemma_pairs_view_len(pairs@);
        }
        match agg_method {
            AggMethod::First => {
                if pairs.len() == 0 {
                    MetaVal::Nil
                } else {
                    let ghost ps_before: Seq<(MetaVal, PathInfo)> = pairs@;
                    let pair: (MetaVal, PathInfo) = pairs.remove(0);
                    proof {
                        lemma_pairs_view_index(ps_before, 0);
                    }
                    pair.0
                }
            },
            AggMethod::Collect => {
                let n: usize = pairs.len();
                let ghost pview: Seq<(ValSpec, (Seq<char>, Option<u64>))> = pairs_view(pairs@);
                let mut vals: Vec<MetaVal> = Vec::new();
                let mut i: usize = 0;
                while i < n
                    invariant
                        n == pairs@.len(),
                        pview == pairs_view(pairs@),
                        pview.len() == n,
                        i <= n,
                        vals@.len() == i,
                        forall|l: int| 0 <= l < i ==> val_view(#[trigger] vals@[l]) == pview[l].0,
                    decreases n - i,
                {
                    proof {
                        lemma_pairs_view_index(pairs@, i as int);
                    }
                    let v: MetaVal = pairs[i].0.duplicate();
                    vals.push(v);
                    i = i + 1;
                }
                proof {
                    crate::values::lemma_vals_view_len(vals@);
                    assert forall|l: int| 0 <= l < n implies vals_view(vals@)[l] == pview
                        .map_values(|p: (ValSpec, (Seq<char>, Option<u64>))| p.0)[l] by {
                        crate::values::lemma_vals_view_index(vals@, l);
                    }
                    assert(vals_view(vals@) =~= pview.map_values(
                        |p: (ValSpec, (Seq<char>, Option<u64>))| p.0,
                    ));
                }
                MetaVal::Sequence(vals)
            },
        }
    }
}

/// Collects the emissions of a list of sibling sub-trees, left to right.
fn collect_children(children: &Vec<FsNode>, field: &String) -> (r: Vec<(MetaVal, PathInfo)>)
    ensures
        pairs_view(r@) == agg_children(children@, field@),
    decreases children@,
{
    let n: usize = children.len();
    let mut out: Vec<(MetaVal, PathInfo)> = Vec::new();
    let mut i: usize = 0;
    proof {
        assert(children@.subrange(0, 0) =~= Seq::<FsNode>::empty());
        assert(pairs_view(out@) =~= agg_children(children@.subrange(0, 0), field@));
    }
    while i < n
        invariant
            n == children@.len(),
            i <= n,
            pairs_view(out@) == agg_children(children@.subrange(0, i as int), field@),
        decreases n - i,
    {
        let mut sub: Vec<(MetaVal, PathInfo)> = MetaAggregator::resolve_field_children_helper(
            &children[i],
            field,
        );
        let ghost out_before: Seq<(MetaVal, PathInfo)> = out@;
        let ghost sub_snapshot: Seq<(MetaVal, PathInfo)> = sub@;
        append_pairs(&mut out, sub);
        proof {
            lemma_pairs_view_concat(out_before, sub_snapshot);
            lemma_agg_children_snoc(children@, field@, i as int);
        }
        i = i + 1;
    }
    proof {
        assert(children@.subrange(0, n as int) =~= children@);
    }
    out
}

/// Extending a sibling prefix by one node appends that node's emissions.
proof fn lemma_agg_children_snoc(cs: Seq<FsNode>, k: Seq<char>, i: int)
    requires
        0 <= i < cs.len(),
    ensures
        agg_children(cs.subrange(0, i + 1), k) == agg_children(cs.subrange(0, i), k) + agg_spec(
            cs[i],
            k,
        ),
    decreases i,
{
    let a = cs.subrange(0, i + 1);
    let b = cs.subrange(0, i);
    if i == 0 {
        assert(a =~= seq![cs[0]]);
        assert(b =~= Seq::<FsNode>::empty());
        assert(a.subrange(1, 1) =~= b);
        assert(agg_children(a, k) =~= agg_children(b, k) + agg_spec(cs[0], k));
    } else {
        let tail = cs.subrange(1, cs.len() as int);
        assert(tail[i - 1] == cs[i]);
        lemma_agg_children_snoc(tail, k, i - 1);
        assert(a[0] == cs[0]);
        assert(b[0] == cs[0]);
        assert(a.subrange(1, a.len() as int) =~= tail.subrange(0, i));
        assert(b.subrange(1, b.len() as int) =~= tail.subrange(0, i - 1));
        assert(agg_spec(cs[0], k) + (agg_children(tail.subrange(0, i - 1), k) + agg_spec(
            cs[i],
            k,
        )) =~= (agg_spec(cs[0], k) + agg_children(tail.subrange(0, i - 1), k)) + agg_spec(
            cs[i],
            k,
        ));
    }
}

/// Moves all pairs of one list onto the end of another.
fn append_pairs(out: &mut Vec<(MetaVal, PathInfo)>, mut more: Vec<(MetaVal, PathInfo)>)
    ensures
        final(out)@ == old(out)@ + more@,
{
    let ghost more0: Seq<(MetaVal, PathInfo)> = more@;
    let n: usize = more.len();
    let mut i: usize = 0;
    let ghost base: Seq<(MetaVal, PathInfo)> = out@;
    while i < n
        invariant
            n == more0.len(),
            more@ == more0.subrange(i as int, n as int),
            i <= n,
            out@ == base + more0.subrange(0, i as int),
        decreases n - i,
    {
        let x: (MetaVal, PathInfo) = more.remove(0);
        proof {
            assert(more0.subrange(i as int, n as int)[0] == more0[i as int]);
        }
        out.push(x);
        proof {
            assert(more@ =~= more0.subrange(i as int + 1, n as int));
            assert(out@ =~= base + more0.subrange(0, i as int + 1));
        }
        i = i + 1;
    }
    proof {
        assert(more0.subrange(0, n as int) =~= more0);
    }
}

impl AggMethod {
    /// Folds a list of values: the first (or nil), or all of them as one
    /// sequence value.
    pub fn aggregate(&self, mvs: Vec<MetaVal>) -> (r: MetaVal)
        ensures
            r@ == match *self {
                AggMethod::First => if vals_view(mvs@).len() > 0 {
                    vals_view(mvs@)[0]
                } else {
                    ValSpec::Nil
                },
                AggMethod::Collect => ValSpec::Sequence(vals_view(mvs@)),
            },
    {
        proof {
            crate::values::lemma_vals_view_len(mvs@);
        }
        match self {
            AggMethod::First => {
                let mut mvs: Vec<MetaVal> = mvs;
                if mvs.len() == 0 {
                    MetaVal::Nil
                } else {
                    let ghost m0: Seq<MetaVal> = mvs@;
                    let v: MetaVal = mvs.remove(0);
                    proof {
                        crate::values::lemma_vals_view_index(m0, 0);
                    }
                    v
                }
            },
            AggMethod::Collect => MetaVal::Sequence(mvs),
        }
    }
}

} // verus!
