//! Merging ancestor metadata into one flattened block.  Levels are applied
//! from the root toward the item: a key keeps the value of the deepest
//! level that defines it, at the position where it was first seen.

use vstd::prelude::*;

use crate::blocks::Block;
use crate::blocks::MetaStructure;
use crate::blocks::block_lookup;
use crate::blocks::blockseq_view;
use crate::blocks::blockseq_wf;
use crate::blocks::lemma_blockseq_view_len;
use crate::blocks::lemma_blockseq_view_index;
use crate::values::MetaVal;
use crate::values::ValSpec;
use crate::plexer::Plexer;
use crate::plexer::Error;
use crate::plexer::PlexItemSpec;
use crate::plexer::plex_spec;
use crate::plexer::plexitem_view;
use crate::sorter::PathInfo;
use crate::sorter::Sorter;
use crate::sorter::presults_view;

verus! {

/// What a key resolves to across a stack of levels: the value of the
/// deepest level that defines it.
pub open spec fn deepest(levels: Seq<Seq<(Seq<char>, ValSpec)>>, k: Seq<char>) -> Option<ValSpec>
    decreases levels.len(),
{
    if levels.len() == 0 {
        None
    } else {
        match block_lookup(levels.last(), k) {
            Some(v) => Some(v),
            None => deepest(levels.drop_last(), k),
        }
    }
}

/// The deepest level that defines a key decides its merged value.
pub proof fn lemma_deepest_at(levels: Seq<Seq<(Seq<char>, ValSpec)>>, k: Seq<char>, i: int)
    requires
        0 <= i < levels.len(),
        block_lookup(levels[i], k) is Some,
        forall|j: int| i < j < levels.len() ==> block_lookup(#[trigger] levels[j], k) is None,
    ensures
        deepest(levels, k) == block_lookup(levels[i], k),
    decreases levels.len(),
{
    if i == levels.len() - 1 {
    } else {
        assert(levels.drop_last() =~= levels.subrange(0, levels.len() - 1));
        assert(forall|j: int|
            i < j < levels.len() - 1 ==> #[trigger] levels.drop_last()[j] == levels[j]);
        lemma_deepest_at(levels.drop_last(), k, i);
    }
}

/// The keys of a block view, in order.
pub open spec fn bkeys(s: Seq<(Seq<char>, ValSpec)>) -> Seq<Seq<char>> {
    s.map_values(|e: (Seq<char>, ValSpec)| e.0)
}

/// The keys already seen, extended by a level's new keys in level order.
pub open spec fn add_new_keys(acc: Seq<Seq<char>>, level: Seq<(Seq<char>, ValSpec)>) -> Seq<
    Seq<char>,
>
    decreases level.len(),
{
    if level.len() == 0 {
        acc
    } else {
        let acc2 = if acc.contains(level[0].0) {
            acc
        } else {
            acc.push(level[0].0)
        };
        add_new_keys(acc2, level.subrange(1, level.len() as int))
    }
}

/// The first-seen order of keys across a stack of levels, root first.
pub open spec fn merged_keys_from(
    acc: Seq<Seq<char>>,
    levels: Seq<Seq<(Seq<char>, ValSpec)>>,
) -> Seq<Seq<char>>
    decreases levels.len(),
{
    if levels.len() == 0 {
        acc
    } else {
        merged_keys_from(add_new_keys(acc, levels[0]), levels.subrange(1, levels.len() as int))
    }
}

/// Merges a stack of blocks, root first, into one flattened block: each
/// key takes the value of the deepest level that defines it, at the
/// position where it was first seen.
pub fn merge_blocks(levels: &Vec<Block>) -> (r: Block)
    requires
        blockseq_wf(levels@),
    ensures
        r.wf(),
        forall|k: Seq<char>| block_lookup(r@, k) == deepest(blockseq_view(levels@), k),
        bkeys(r@) == merged_keys_from(Seq::empty(), blockseq_view(levels@)),
{
    let n: usize = levels.len();
    proof {
        lemma_blockseq_view_len(levels@);
    }
    let ghost lview: Seq<Seq<(Seq<char>, ValSpec)>> = blockseq_view(levels@);
    let mut acc: Block = Block::new();
    let mut i: usize = 0;
    proof {
        assert forall|k: Seq<char>| block_lookup(acc@, k) == deepest(
            lview.subrange(0, 0),
            k,
        ) by {
            assert(lview.subrange(0, 0) =~= Seq::<Seq<(Seq<char>, ValSpec)>>::empty());
        }
        assert(lview.subrange(0, n as int) =~= lview);
        assert(bkeys(acc@) =~= Seq::<Seq<char>>::empty());
    }
    #[verifier::loop_isolation(false)]
    while i < n
        invariant
            n == levels@.len(),
            lview == blockseq_view(levels@),
            lview.len() == n,
            blockseq_wf(levels@),
            i <= n,
            acc.wf(),
            forall|k: Seq<char>|
                block_lookup(acc@, k) == deepest(lview.subrange(0, i as int), k),
            merged_keys_from(Seq::empty(), lview) == merged_keys_from(
                bkeys(acc@),
                lview.subrange(i as int, n as int),
            ),
        decreases n - i,
    {
        proof {
            lemma_blockseq_view_index(levels@, i as int);
            assert(levels@[i as int].wf());
        }
        let level: &Block = &levels[i];
        let m: usize = level.len();
        let mut j: usize = 0;
        let ghost keys_at_level: Seq<Seq<char>> = bkeys(acc@);
        proof {
            assert(lview[i as int].subrange(0, 0) =~= Seq::<(Seq<char>, ValSpec)>::empty());
            assert(lview[i as int].subrange(0, m as int) =~= lview[i as int]);
        }
        #[verifier::loop_isolation(false)]
        while j < m
            invariant
                n == levels@.len(),
                lview == blockseq_view(levels@),
                lview.len() == n,
                i < n,
                m == level@.len(),
                level@ == lview[i as int],
                crate::blocks::keys_unique(level@),
                j <= m,
                acc.wf(),
                forall|k: Seq<char>|
                    block_lookup(acc@, k) == match block_lookup(
                        #[trigger] lview[i as int].subrange(0, j as int),
                        k,
                    ) {
                        Some(v) => Some(v),
                        None => deepest(lview.subrange(0, i as int), k),
                    },
                add_new_keys(keys_at_level, lview[i as int]) == add_new_keys(
                    bkeys(acc@),
                    lview[i as int].subrange(j as int, m as int),
                ),
            decreases m - j,
        {
            let entry: (&String, &MetaVal) = level.entry_at(j);
            let key: String = entry.0.clone();
            let v: MetaVal = entry.1.duplicate();
            let ghost kv: Seq<char> = key@;
            let ghost vv: ValSpec = crate::values::val_view(v);
            proof {
                assert((kv, vv) == level@[j as int]);
            }
            let ghost keys_before: Seq<Seq<char>> = bkeys(acc@);
            let ghost acc_before: Seq<(Seq<char>, ValSpec)> = acc@;
            acc.insert(key, v);
            proof {
                // The key list evolves exactly as the first-seen fold says.
                let lrest = lview[i as int].subrange(j as int, m as int);
                let lrest2 = lview[i as int].subrange(j as int + 1, m as int);
                assert(lrest[0] == lview[i as int][j as int]);
                assert(lrest.subrange(1, lrest.len() as int) =~= lrest2);
                crate::blocks::lemma_assoc_lookup_iff_present(acc_before, kv);
                assert(block_lookup(acc_before, kv) is Some <==> keys_before.contains(kv)) by {
                    if exists|l: int|
                        0 <= l < acc_before.len() && (#[trigger] acc_before[l]).0 == kv {
                        let l = choose|l: int|
                            0 <= l < acc_before.len() && (#[trigger] acc_before[l]).0 == kv;
                        assert(bkeys(acc_before)[l] == kv);
                    }
                    if keys_before.contains(kv) {
                        let l = choose|l: int|
                            0 <= l < keys_before.len() && keys_before[l] == kv;
                        assert(acc_before[l].0 == kv);
                    }
                }
                if block_lookup(acc_before, kv) is Some {
                    assert(bkeys(acc@) =~= keys_before);
                } else {
                    assert(acc@[acc_before.len() as int] == (kv, vv));
                    assert(bkeys(acc@) =~= keys_before.push(kv));
                }
                assert(add_new_keys(keys_before, lrest) == add_new_keys(bkeys(acc@), lrest2));
                let pre = lview[i as int].subrange(0, j as int);
                let pre2 = lview[i as int].subrange(0, j as int + 1);
                assert forall|k: Seq<char>| block_lookup(acc@, k) == (match block_lookup(
                    pre2,
                    k,
                ) {
                    Some(v2) => Some(v2),
                    None => deepest(lview.subrange(0, i as int), k),
                }) by {
                    lemma_prefix_lookup_step(lview[i as int], j as int, k);
                    if k == kv {
                        // The fresh entry wins; uniqueness within the level
                        // means the prefix had no earlier entry for it.
                        assert forall|l: int| 0 <= l < j implies pre[l].0 != k by {
                            assert(pre[l] == level@[l]);
                        }
                        crate::blocks::lemma_assoc_lookup_none(pre, k);
                        assert(block_lookup(pre2, k) == Some(vv)) by {
                            assert(pre2[j as int] == level@[j as int]);
                            assert(forall|l: int| 0 <= l < j ==> pre2[l] == level@[l]);
                            assert(forall|l: int| 0 <= l < j ==> pre2[l].0 != k);
                            crate::blocks::lemma_assoc_lookup_at(pre2, k, j as int);
                        }
                    }
                }
            }
            j = j + 1;
        }
        proof {
            let pre2 = lview[i as int].subrange(0, m as int);
            assert(pre2 =~= lview[i as int]);
            assert forall|k: Seq<char>| block_lookup(acc@, k) == deepest(
                lview.subrange(0, i as int + 1),
                k,
            ) by {
                let upto = lview.subrange(0, i as int + 1);
                assert(upto.last() == lview[i as int]);
                assert(upto.drop_last() =~= lview.subrange(0, i as int));
            }
            // One whole level folded into the first-seen key order.
            assert(lview[i as int].subrange(m as int, m as int) =~= Seq::<
                (Seq<char>, ValSpec),
            >::empty());
            assert(add_new_keys(keys_at_level, lview[i as int]) == bkeys(acc@));
            let lrest = lview.subrange(i as int, n as int);
            assert(lrest[0] == lview[i as int]);
            assert(lrest.subrange(1, lrest.len() as int) =~= lview.subrange(
                i as int + 1,
                n as int,
            ));
        }
        i = i + 1;
    }
    proof {
        assert(lview.subrange(0, n as int) =~= lview);
        assert(lview.subrange(n as int, n as int) =~= Seq::<
            Seq<(Seq<char>, ValSpec)>,
        >::empty());
    }
    acc
}

/// One step of looking a key up in a growing prefix of a level.
proof fn lemma_prefix_lookup_step(level: Seq<(Seq<char>, ValSpec)>, j: int, k: Seq<char>)
    requires
        0 <= j < level.len(),
    ensures
        level[j].0 != k ==> block_lookup(level.subrange(0, j + 1), k) == block_lookup(
            level.subrange(0, j),
            k,
        ),
    decreases j,
{
    let a = level.subrange(0, j + 1);
    let b = level.subrange(0, j);
    if level[j].0 != k {
        if j == 0 {
            assert(b =~= Seq::<(Seq<char>, ValSpec)>::empty());
            assert(a =~= seq![level[0]]);
            assert(a.subrange(1, 1) =~= b);
        } else {
            if level[0].0 == k {
            } else {
                let tail = level.subrange(1, level.len() as int);
                assert(tail[j - 1] == level[j]);
                lemma_prefix_lookup_step(tail, j - 1, k);
                assert(a.subrange(1, a.len() as int) =~= tail.subrange(0, j));
                assert(b.subrange(1, b.len() as int) =~= tail.subrange(0, j - 1));
                assert(a[0] == level[0]);
                assert(b[0] == level[0]);
            }
        }
    }
}

/// Whether an emission is a successful pair for the given path.
pub open spec fn is_pair_for(it: PlexItemSpec, p: (Seq<char>, Option<u64>)) -> bool {
    match it {
        PlexItemSpec::Pair(pp, _) => pp == p,
        _ => false,
    }
}

/// Picks out of a plexed schema the block paired with one path: the first
/// successful pair carrying that path, if the plexer emits one.
pub fn block_for_path(
    schema: MetaStructure,
    file_path_results: Vec<Result<PathInfo, String>>,
    sorter: &Sorter,
    wanted: &PathInfo,
) -> (r: Option<Block>)
    requires
        schema.wf(),
    ensures
        match r {
            Some(b) => exists|i: int|
                0 <= i < plex_spec(schema, presults_view(file_path_results@), *sorter).len()
                    && #[trigger] plex_spec(
                    schema,
                    presults_view(file_path_results@),
                    *sorter,
                )[i] == PlexItemSpec::Pair(wanted@, b@),
            None => forall|i: int|
                0 <= i < plex_spec(schema, presults_view(file_path_results@), *sorter).len()
                    ==> !is_pair_for(
                    #[trigger] plex_spec(schema, presults_view(file_path_results@), *sorter)[i],
                    wanted@,
                ),
        },
{
    let ghost full: Seq<PlexItemSpec> = plex_spec(
        schema,
        presults_view(file_path_results@),
        *sorter,
    );
    let plexer: Plexer = Plexer::new(schema, file_path_results, sorter);
    let items: Vec<Result<(PathInfo, Block), Error>> = plexer.into_items();
    proof {
        assert(crate::plexer::plexitems_view(items@) == full);
    }
    let r: Option<Block> = scan_items(&items, wanted);
    proof {
        match &r {
            Some(b) => {
                let i = choose|i: int|
                    0 <= i < crate::plexer::plexitems_view(items@).len()
                        && #[trigger] crate::plexer::plexitems_view(items@)[i]
                        == PlexItemSpec::Pair(wanted@, b@);
                assert(plex_spec(schema, presults_view(file_path_results@), *sorter)[i]
                    == PlexItemSpec::Pair(wanted@, b@));
            },
            None => {
                assert forall|i: int|
                    0 <= i < plex_spec(
                        schema,
                        presults_view(file_path_results@),
                        *sorter,
                    ).len() implies !is_pair_for(
                    #[trigger] plex_spec(schema, presults_view(file_path_results@), *sorter)[i],
                    wanted@,
                ) by {
                    assert(plex_spec(schema, presults_view(file_path_results@), *sorter)[i]
                        == crate::plexer::plexitems_view(items@)[i]);
                }
            },
        }
    }
    r
}

/// Scans plexer emissions for the first successful pair carrying a path.
fn scan_items(items: &Vec<Result<(PathInfo, Block), Error>>, wanted: &PathInfo) -> (r: Option<
    Block,
>)
    ensures
        match r {
            Some(b) => exists|i: int|
                0 <= i < crate::plexer::plexitems_view(items@).len()
                    && #[trigger] crate::plexer::plexitems_view(items@)[i]
                    == PlexItemSpec::Pair(wanted@, b@),
            None => forall|i: int|
                0 <= i < crate::plexer::plexitems_view(items@).len() ==> !is_pair_for(
                    #[trigger] crate::plexer::plexitems_view(items@)[i],
                    wanted@,
                ),
        },
{
    let n: usize = items.len();
    proof {
        crate::plexer::lemma_plexitems_view_len(items@);
    }
    let ghost full: Seq<PlexItemSpec> = crate::plexer::plexitems_view(items@);
    let mut idx: usize = 0;
    while idx < n
        invariant
            n == items@.len(),
            full == crate::plexer::plexitems_view(items@),
            full.len() == n,
            idx <= n,
            forall|i: int| 0 <= i < idx ==> !is_pair_for(#[trigger] full[i], wanted@),
        decreases n - idx,
    {
        proof {
            crate::plexer::lemma_plexitems_view_index(items@, idx as int);
        }
        match &items[idx] {
            Ok(pb) => {
                let p: &PathInfo = &pb.0;
                let b: &Block = &pb.1;
                proof {
                    assert(items@[idx as int] is Ok);
                    assert(items@[idx as int]->Ok_0 == *pb);
                    assert(plexitem_view(items@[idx as int]) == PlexItemSpec::Pair(p@, b@));
                }
                if p.path.eq(&wanted.path) && mtime_eq(&p.mtime, &wanted.mtime) {
                    let ghost bv: Seq<(Seq<char>, ValSpec)> = b@;
                    let out: Block = b.duplicate();
                    proof {
                        assert(p@ == wanted@);
                        assert(full[idx as int] == PlexItemSpec::Pair(wanted@, bv));
                        assert(out@ == bv);
                        assert(crate::plexer::plexitems_view(items@)[idx as int]
                            == PlexItemSpec::Pair(wanted@, out@));
                    }
                    return Some(out);
                }
                proof {
                    assert(p@ != wanted@);
                    assert(!is_pair_for(full[idx as int], wanted@));
                }
            },
            Err(_) => {
                proof {
                    assert(!is_pair_for(full[idx as int], wanted@));
                }
            },
        }
        idx = idx + 1;
    }
    proof {
        assert forall|i: int|
            0 <= i < crate::plexer::plexitems_view(items@).len() implies !is_pair_for(
            #[trigger] crate::plexer::plexitems_view(items@)[i],
            wanted@,
        ) by {
            assert(crate::plexer::plexitems_view(items@)[i] == full[i]);
        }
    }
    None
}

/// Whether two optional modification times are equal.
fn mtime_eq(a: &Option<u64>, b: &Option<u64>) -> (r: bool)
    ensures
        r <==> (*a == *b),
{
    match (a, b) {
        (Some(x), Some(y)) => *x == *y,
        (None, None) => true,
        _ => false,
    }
}

} // verus!
