//! The laws the library states of itself, proved over the same
//! specifications its functions promise.

use vstd::prelude::*;
use vstd::multiset::Multiset;

use crate::operator::all_spec;
use crate::operator::any_spec;
use crate::operator::force_spec;
use crate::operator::nth_spec;
use crate::operator::oks_only;
use crate::operator::lemma_force_oks;
use crate::plexer::PlexItemSpec;
use crate::plexer::one_spec;
use crate::plexer::seq_spec;
use crate::selection::Selection;
use crate::selection::dir_match_spec;
use crate::selection::file_match_spec;
use crate::sorter::last_component;
use crate::stream::Error;
use crate::stream::all_ok;
use crate::values::ValSpec;

verus! {

/// Selection determinism: whether a path matches as a file or as a
/// directory depends only on the selection and the path's final
/// component.
pub proof fn law_selection_determinism(sel: Selection, p1: Seq<char>, p2: Seq<char>)
    requires
        last_component(p1) == last_component(p2),
    ensures
        file_match_spec(sel, p1) == file_match_spec(sel, p2),
        dir_match_spec(sel, p1) == dir_match_spec(sel, p2),
{
}

/// Plexer conservation for the single-block shape: one successful path
/// pairs with the block; every further path and a never-paired block are
/// each reported once, in path order.
pub proof fn law_plexer_conservation_one(
    b: Seq<(Seq<char>, ValSpec)>,
    paths: Seq<Result<(Seq<char>, Option<u64>), Seq<char>>>,
)
    requires
        forall|i: int| 0 <= i < paths.len() ==> (#[trigger] paths[i]) is Ok,
    ensures
        one_spec(Some(b), paths).len() == if paths.len() == 0 {
            1int
        } else {
            paths.len() as int
        },
        paths.len() == 0 ==> one_spec(Some(b), paths) == seq![PlexItemSpec::UnusedBlockItem(b)],
        paths.len() > 0 ==> one_spec(Some(b), paths)[0] == PlexItemSpec::Pair(
            paths[0]->Ok_0,
            b,
        ),
        forall|i: int|
            1 <= i < paths.len() ==> one_spec(Some(b), paths)[i] == PlexItemSpec::UnusedPath(
                (#[trigger] paths[i])->Ok_0,
            ),
{
    lemma_one_spec_tail(paths);
    if paths.len() > 0 {
        let rest = paths.subrange(1, paths.len() as int);
        assert(one_spec(Some(b), paths) == seq![
            PlexItemSpec::Pair(paths[0]->Ok_0, b),
        ] + one_spec(None::<Seq<(Seq<char>, ValSpec)>>, rest));
    }
}

/// A block-less plexer reports each successful path unused, in order.
proof fn lemma_one_spec_tail(paths: Seq<Result<(Seq<char>, Option<u64>), Seq<char>>>)
    requires
        forall|i: int| 0 <= i < paths.len() ==> (#[trigger] paths[i]) is Ok,
    ensures
        one_spec(None::<Seq<(Seq<char>, ValSpec)>>, paths).len() == paths.len(),
        forall|i: int|
            0 <= i < paths.len() ==> one_spec(None::<Seq<(Seq<char>, ValSpec)>>, paths)[i]
                == PlexItemSpec::UnusedPath((#[trigger] paths[i])->Ok_0),
    decreases paths.len(),
{
    if paths.len() > 0 {
        let rest = paths.subrange(1, paths.len() as int);
        assert(forall|i: int| 0 <= i < rest.len() ==> (#[trigger] rest[i]) is Ok);
        lemma_one_spec_tail(rest);
        assert forall|i: int|
            0 <= i < paths.len() implies one_spec(None::<Seq<(Seq<char>, ValSpec)>>, paths)[i]
            == PlexItemSpec::UnusedPath((#[trigger] paths[i])->Ok_0) by {
            if i > 0 {
                assert(rest[i - 1] == paths[i]);
            }
        }
    }
}

/// Plexer conservation for the sequence shape: with `k` blocks and `m`
/// successful sorted paths, exactly the first `min(k, m)` positions pair
/// block and path, and the remaining `|k - m|` positions each report one
/// leftover, preserving path order.
pub proof fn law_plexer_conservation_seq(
    blocks: Seq<Seq<(Seq<char>, ValSpec)>>,
    paths: Seq<Result<(Seq<char>, Option<u64>), Seq<char>>>,
)
    requires
        forall|i: int| 0 <= i < paths.len() ==> (#[trigger] paths[i]) is Ok,
    ensures
        seq_spec(blocks, paths).len() == if blocks.len() >= paths.len() {
            blocks.len()
        } else {
            paths.len()
        },
        forall|i: int|
            0 <= i < blocks.len() && i < paths.len() ==> seq_spec(blocks, paths)[i]
                == PlexItemSpec::Pair((#[trigger] paths[i])->Ok_0, blocks[i]),
        forall|i: int|
            paths.len() <= i < blocks.len() ==> seq_spec(blocks, paths)[i]
                == PlexItemSpec::UnusedBlockItem(#[trigger] blocks[i]),
        forall|i: int|
            blocks.len() <= i < paths.len() ==> seq_spec(blocks, paths)[i]
                == PlexItemSpec::UnusedPath((#[trigger] paths[i])->Ok_0),
    decreases blocks.len() + paths.len(),
{
    if paths.len() == 0 {
        if blocks.len() > 0 {
            law_plexer_conservation_seq(blocks.subrange(1, blocks.len() as int), paths);
            assert forall|i: int|
                paths.len() <= i < blocks.len() implies seq_spec(blocks, paths)[i]
                == PlexItemSpec::UnusedBlockItem(#[trigger] blocks[i]) by {
                if i > 0 {
                    assert(blocks.subrange(1, blocks.len() as int)[i - 1] == blocks[i]);
                }
            }
        }
    } else {
        let prest = paths.subrange(1, paths.len() as int);
        let brest = if blocks.len() == 0 {
            blocks
        } else {
            blocks.subrange(1, blocks.len() as int)
        };
        assert(forall|i: int| 0 <= i < prest.len() ==> (#[trigger] prest[i]) is Ok);
        law_plexer_conservation_seq(brest, prest);
        assert forall|i: int|
            0 <= i < blocks.len() && i < paths.len() implies seq_spec(blocks, paths)[i]
            == PlexItemSpec::Pair((#[trigger] paths[i])->Ok_0, blocks[i]) by {
            if i > 0 {
                assert(prest[i - 1] == paths[i]);
                assert(brest[i - 1] == blocks[i]);
            }
        }
        assert forall|i: int|
            paths.len() <= i < blocks.len() implies seq_spec(blocks, paths)[i]
            == PlexItemSpec::UnusedBlockItem(#[trigger] blocks[i]) by {
            assert(brest[i - 1] == blocks[i]);
        }
        assert forall|i: int|
            blocks.len() <= i < paths.len() implies seq_spec(blocks, paths)[i]
            == PlexItemSpec::UnusedPath((#[trigger] paths[i])->Ok_0) by {
            if i > 0 {
                assert(prest[i - 1] == paths[i]);
            }
        }
    }
}

/// The successful entries of a path result list, in order.
pub open spec fn ok_paths(
    paths: Seq<Result<(Seq<char>, Option<u64>), Seq<char>>>,
) -> Seq<Result<(Seq<char>, Option<u64>), Seq<char>>>
    decreases paths.len(),
{
    if paths.len() == 0 {
        Seq::empty()
    } else {
        let rest = ok_paths(paths.subrange(1, paths.len() as int));
        match paths[0] {
            Err(_) => rest,
            Ok(_) => seq![paths[0]] + rest,
        }
    }
}

/// The error texts of a path result list, in order.
pub open spec fn err_paths(
    paths: Seq<Result<(Seq<char>, Option<u64>), Seq<char>>>,
) -> Seq<Seq<char>>
    decreases paths.len(),
{
    if paths.len() == 0 {
        Seq::empty()
    } else {
        let rest = err_paths(paths.subrange(1, paths.len() as int));
        match paths[0] {
            Err(e) => seq![e] + rest,
            Ok(_) => rest,
        }
    }
}

/// The emissions that are not passed-through errors, in order.
pub open spec fn data_items(out: Seq<PlexItemSpec>) -> Seq<PlexItemSpec>
    decreases out.len(),
{
    if out.len() == 0 {
        Seq::empty()
    } else {
        let rest = data_items(out.subrange(1, out.len() as int));
        match out[0] {
            PlexItemSpec::IoErr(_) => rest,
            _ => seq![out[0]] + rest,
        }
    }
}

/// The passed-through error texts among the emissions, in order.
pub open spec fn io_errs(out: Seq<PlexItemSpec>) -> Seq<Seq<char>>
    decreases out.len(),
{
    if out.len() == 0 {
        Seq::empty()
    } else {
        let rest = io_errs(out.subrange(1, out.len() as int));
        match out[0] {
            PlexItemSpec::IoErr(e) => seq![e] + rest,
            _ => rest,
        }
    }
}

/// Plexer error transparency for the single-block shape: a path error
/// passes through without touching the binding, so the emissions are the
/// input's error texts, in order, woven into exactly what plexing the
/// successful paths alone emits.
pub proof fn law_plexer_error_transparency_one(
    ob: Option<Seq<(Seq<char>, ValSpec)>>,
    paths: Seq<Result<(Seq<char>, Option<u64>), Seq<char>>>,
)
    ensures
        data_items(one_spec(ob, paths)) == one_spec(ob, ok_paths(paths)),
        io_errs(one_spec(ob, paths)) == err_paths(paths),
    decreases paths.len(),
{
    let out = one_spec(ob, paths);
    if paths.len() == 0 {
        assert(ok_paths(paths) =~= paths);
        match ob {
            Some(b) => {
                assert(out == seq![PlexItemSpec::UnusedBlockItem(b)]);
                assert(out.len() == 1);
                assert(out[0] == PlexItemSpec::UnusedBlockItem(b));
                let tail = out.subrange(1, out.len() as int);
                assert(tail.len() == 0);
                assert(data_items(tail) == Seq::<PlexItemSpec>::empty());
                assert(io_errs(tail) == Seq::<Seq<char>>::empty());
                assert(data_items(out) == seq![out[0]] + data_items(tail));
                assert(data_items(out) =~= out);
                assert(io_errs(out) =~= Seq::<Seq<char>>::empty());
            },
            None => {
            },
        }
    } else {
        let rest = paths.subrange(1, paths.len() as int);
        match paths[0] {
            Err(e) => {
                law_plexer_error_transparency_one(ob, rest);
                assert(out == seq![PlexItemSpec::IoErr(e)] + one_spec(ob, rest));
                assert(out[0] == PlexItemSpec::IoErr(e));
                assert(out.subrange(1, out.len() as int) =~= one_spec(ob, rest));
                assert(ok_paths(paths) == ok_paths(rest));
                assert(data_items(out) == one_spec(ob, ok_paths(paths)));
                assert(io_errs(out) =~= seq![e] + err_paths(rest));
                assert(err_paths(paths) == seq![e] + err_paths(rest));
            },
            Ok(p) => {
                law_plexer_error_transparency_one(
                    None::<Seq<(Seq<char>, ValSpec)>>,
                    rest,
                );
                let head = match ob {
                    Some(b) => PlexItemSpec::Pair(p, b),
                    None => PlexItemSpec::UnusedPath(p),
                };
                assert(out == seq![head] + one_spec(None::<Seq<(Seq<char>, ValSpec)>>, rest));
                assert(out[0] == head);
                assert(out.subrange(1, out.len() as int) =~= one_spec(
                    None::<Seq<(Seq<char>, ValSpec)>>,
                    rest,
                ));
                assert(data_items(out) =~= seq![head] + one_spec(
                    None::<Seq<(Seq<char>, ValSpec)>>,
                    ok_paths(rest),
                ));
                let okp = ok_paths(paths);
                assert(okp == seq![paths[0]] + ok_paths(rest));
                assert(okp.len() > 0 && okp[0] == paths[0]);
                assert(okp.subrange(1, okp.len() as int) =~= ok_paths(rest));
                assert(one_spec(ob, okp) == seq![head] + one_spec(
                    None::<Seq<(Seq<char>, ValSpec)>>,
                    ok_paths(rest),
                ));
                assert(io_errs(out) == err_paths(rest));
                assert(err_paths(paths) == err_paths(rest));
            },
        }
    }
}

/// Plexer error transparency for the sequence shape: a path error passes
/// through without consuming a block, so the emissions are the input's
/// error texts, in order, woven into exactly what plexing the successful
/// paths alone emits.
pub proof fn law_plexer_error_transparency_seq(
    blocks: Seq<Seq<(Seq<char>, ValSpec)>>,
    paths: Seq<Result<(Seq<char>, Option<u64>), Seq<char>>>,
)
    ensures
        data_items(seq_spec(blocks, paths)) == seq_spec(blocks, ok_paths(paths)),
        io_errs(seq_spec(blocks, paths)) == err_paths(paths),
    decreases blocks.len() + paths.len(),
{
    let out = seq_spec(blocks, paths);
    if paths.len() == 0 {
        assert(ok_paths(paths) =~= paths);
        if blocks.len() == 0 {
        } else {
            let brest = blocks.subrange(1, blocks.len() as int);
            law_plexer_error_transparency_seq(brest, paths);
            assert(out == seq![PlexItemSpec::UnusedBlockItem(blocks[0])] + seq_spec(
                brest,
                paths,
            ));
            assert(out[0] == PlexItemSpec::UnusedBlockItem(blocks[0]));
            assert(out.subrange(1, out.len() as int) =~= seq_spec(brest, paths));
            assert(data_items(out) == out);
            assert(io_errs(out) =~= Seq::<Seq<char>>::empty());
        }
    } else {
        let prest = paths.subrange(1, paths.len() as int);
        match paths[0] {
            Err(e) => {
                law_plexer_error_transparency_seq(blocks, prest);
                assert(out == seq![PlexItemSpec::IoErr(e)] + seq_spec(blocks, prest));
                assert(out[0] == PlexItemSpec::IoErr(e));
                assert(out.subrange(1, out.len() as int) =~= seq_spec(blocks, prest));
                assert(ok_paths(paths) == ok_paths(prest));
                assert(data_items(out) == seq_spec(blocks, ok_paths(paths)));
                assert(io_errs(out) =~= seq![e] + err_paths(prest));
                assert(err_paths(paths) == seq![e] + err_paths(prest));
            },
            Ok(p) => {
                let brest = if blocks.len() == 0 {
                    blocks
                } else {
                    blocks.subrange(1, blocks.len() as int)
                };
                law_plexer_error_transparency_seq(brest, prest);
                let head = if blocks.len() == 0 {
                    PlexItemSpec::UnusedPath(p)
                } else {
                    PlexItemSpec::Pair(p, blocks[0])
                };
                assert(out == seq![head] + seq_spec(brest, prest));
                assert(out[0] == head);
                assert(out.subrange(1, out.len() as int) =~= seq_spec(brest, prest));
                assert(data_items(out) =~= seq![head] + seq_spec(brest, ok_paths(prest)));
                let okp = ok_paths(paths);
                assert(okp == seq![paths[0]] + ok_paths(prest));
                assert(okp.len() > 0 && okp[0] == paths[0]);
                assert(okp.subrange(1, okp.len() as int) =~= ok_paths(prest));
                assert(seq_spec(blocks, okp) == seq![head] + seq_spec(brest, ok_paths(prest)));
                assert(io_errs(out) == err_paths(prest));
                assert(err_paths(paths) == err_paths(prest));
            },
        }
    }
}

/// The path one emission carries, if it carries one.
pub open spec fn emitted_path(it: PlexItemSpec) -> Option<(Seq<char>, Option<u64>)> {
    match it {
        PlexItemSpec::Pair(p, _) => Some(p),
        PlexItemSpec::UnusedPath(p) => Some(p),
        PlexItemSpec::Nameless(p) => Some(p),
        _ => None,
    }
}

/// The block one emission carries, if it carries one.
pub open spec fn emitted_block(it: PlexItemSpec) -> Option<Seq<(Seq<char>, ValSpec)>> {
    match it {
        PlexItemSpec::Pair(_, b) => Some(b),
        PlexItemSpec::UnusedBlockItem(b) => Some(b),
        PlexItemSpec::UnusedTagged(b, _) => Some(b),
        _ => None,
    }
}

/// The paths a list of emissions carries, in order.
pub open spec fn paths_of_items(out: Seq<PlexItemSpec>) -> Seq<(Seq<char>, Option<u64>)>
    decreases out.len(),
{
    if out.len() == 0 {
        Seq::empty()
    } else {
        match emitted_path(out[0]) {
            Some(p) => seq![p] + paths_of_items(out.subrange(1, out.len() as int)),
            None => paths_of_items(out.subrange(1, out.len() as int)),
        }
    }
}

/// The blocks a list of emissions carries, as a multiset.
pub open spec fn blocks_of_items(out: Seq<PlexItemSpec>) -> Multiset<Seq<(Seq<char>, ValSpec)>>
    decreases out.len(),
{
    if out.len() == 0 {
        Multiset::empty()
    } else {
        match emitted_block(out[0]) {
            Some(b) => blocks_of_items(out.subrange(1, out.len() as int)).insert(b),
            None => blocks_of_items(out.subrange(1, out.len() as int)),
        }
    }
}

/// The blocks a keyed mapping holds, as a multiset.
pub open spec fn blocks_of_mapping(
    m: Seq<(Seq<char>, Seq<(Seq<char>, ValSpec)>)>,
) -> Multiset<Seq<(Seq<char>, ValSpec)>>
    decreases m.len(),
{
    if m.len() == 0 {
        Multiset::empty()
    } else {
        blocks_of_mapping(m.subrange(1, m.len() as int)).insert(m[0].1)
    }
}

/// Removing an absent name leaves a keyed list's lookups alone; removing
/// a present one removes exactly its block from the multiset.
proof fn lemma_blocks_of_remove(
    m: Seq<(Seq<char>, Seq<(Seq<char>, ValSpec)>)>,
    name: Seq<char>,
    b: Seq<(Seq<char>, ValSpec)>,
)
    requires
        crate::blocks::assoc_lookup(m, name) == Some(b),
    ensures
        blocks_of_mapping(m) == blocks_of_mapping(crate::blocks::assoc_remove(m, name)).insert(
            b,
        ),
    decreases m.len(),
{
    if m.len() > 0 {
        if m[0].0 == name {
        } else {
            lemma_blocks_of_remove(m.subrange(1, m.len() as int), name, b);
            let rem = crate::blocks::assoc_remove(m, name);
            assert(rem == seq![m[0]] + crate::blocks::assoc_remove(
                m.subrange(1, m.len() as int),
                name,
            ));
            assert(rem[0] == m[0]);
            assert(rem.subrange(1, rem.len() as int) =~= crate::blocks::assoc_remove(
                m.subrange(1, m.len() as int),
                name,
            ));
            assert(blocks_of_mapping(rem) == blocks_of_mapping(
                crate::blocks::assoc_remove(m.subrange(1, m.len() as int), name),
            ).insert(m[0].1));
            assert(blocks_of_mapping(m).remove(b) =~= blocks_of_mapping(rem)) by {
                assert(blocks_of_mapping(m) == blocks_of_mapping(
                    m.subrange(1, m.len() as int),
                ).insert(m[0].1));
            }
            assert(blocks_of_mapping(m) =~= blocks_of_mapping(rem).insert(b)) by {
                assert(blocks_of_mapping(m.subrange(1, m.len() as int)).count(b) >= 1) by {
                    lemma_blocks_of_contains(m.subrange(1, m.len() as int), name, b);
                }
            }
        }
    }
}

/// A block a lookup finds is counted in the mapping's block multiset.
proof fn lemma_blocks_of_contains(
    m: Seq<(Seq<char>, Seq<(Seq<char>, ValSpec)>)>,
    name: Seq<char>,
    b: Seq<(Seq<char>, ValSpec)>,
)
    requires
        crate::blocks::assoc_lookup(m, name) == Some(b),
    ensures
        blocks_of_mapping(m).count(b) >= 1,
    decreases m.len(),
{
    if m.len() > 0 {
        if m[0].0 == name {
        } else {
            lemma_blocks_of_contains(m.subrange(1, m.len() as int), name, b);
        }
    }
}

/// Names that survive a removal keep their lookups.
proof fn lemma_remove_keeps_other_lookups(
    m: Seq<(Seq<char>, Seq<(Seq<char>, ValSpec)>)>,
    name: Seq<char>,
    kk: Seq<char>,
)
    requires
        kk != name,
    ensures
        crate::blocks::assoc_lookup(crate::blocks::assoc_remove(m, name), kk)
            == crate::blocks::assoc_lookup(m, kk),
    decreases m.len(),
{
    if m.len() > 0 {
        let tail = m.subrange(1, m.len() as int);
        if m[0].0 == name {
        } else {
            lemma_remove_keeps_other_lookups(tail, name, kk);
            let rem = crate::blocks::assoc_remove(m, name);
            assert(rem == seq![m[0]] + crate::blocks::assoc_remove(tail, name));
            assert(rem[0] == m[0]);
            assert(rem.subrange(1, rem.len() as int) =~= crate::blocks::assoc_remove(
                tail,
                name,
            ));
        }
    }
}

/// Plexer conservation for the keyed mapping shape, over a successful,
/// fully named path list: the emissions carry exactly the input paths in
/// their order; the emitted blocks are exactly the mapping's blocks; and
/// every successful pairing is faithful to the mapping.
pub proof fn law_plexer_conservation_map(
    m: Seq<(Seq<char>, Seq<(Seq<char>, ValSpec)>)>,
    paths: Seq<Result<(Seq<char>, Option<u64>), Seq<char>>>,
)
    requires
        forall|i: int| 0 <= i < paths.len() ==> (#[trigger] paths[i]) is Ok,
        crate::blocks::names_unique(m),
    ensures
        paths_of_items(crate::plexer::map_spec(m, paths)) == paths.map_values(
            |p: Result<(Seq<char>, Option<u64>), Seq<char>>| p->Ok_0,
        ),
        blocks_of_items(crate::plexer::map_spec(m, paths)) == blocks_of_mapping(m),
        forall|i: int|
            0 <= i < crate::plexer::map_spec(m, paths).len() && (#[trigger] crate::plexer::map_spec(
                m,
                paths,
            )[i]) is Pair ==> crate::blocks::assoc_lookup(
                m,
                last_component(crate::plexer::map_spec(m, paths)[i]->Pair_0.0),
            ) == Some(crate::plexer::map_spec(m, paths)[i]->Pair_1),
    decreases paths.len(), m.len(),
{
    let out = crate::plexer::map_spec(m, paths);
    if paths.len() == 0 {
        if m.len() == 0 {
            assert(paths_of_items(out) =~= paths.map_values(
                |p: Result<(Seq<char>, Option<u64>), Seq<char>>| p->Ok_0,
            ));
        } else {
            law_plexer_conservation_map(m.subrange(1, m.len() as int), paths);
            let rest = crate::plexer::map_spec(m.subrange(1, m.len() as int), paths);
            assert(out == seq![PlexItemSpec::UnusedTagged(m[0].1, m[0].0)] + rest);
            assert(out[0] == PlexItemSpec::UnusedTagged(m[0].1, m[0].0));
            assert(out.subrange(1, out.len() as int) =~= rest);
            assert(paths_of_items(out) =~= paths.map_values(
                |p: Result<(Seq<char>, Option<u64>), Seq<char>>| p->Ok_0,
            ));
            lemma_map_spec_tail_tags(m.subrange(1, m.len() as int), paths);
            assert forall|i: int| 0 <= i < out.len() && (#[trigger] out[i]) is Pair implies
                crate::blocks::assoc_lookup(m, last_component(out[i]->Pair_0.0)) == Some(
                out[i]->Pair_1,
            ) by {
                if i > 0 {
                    assert(rest[i - 1] == out[i]);
                    assert(rest[i - 1] is UnusedTagged);
                }
            }
        }
    } else {
        let prest = paths.subrange(1, paths.len() as int);
        assert(forall|i: int| 0 <= i < prest.len() ==> (#[trigger] prest[i]) is Ok);
        let p = paths[0]->Ok_0;
        let name = last_component(p.0);
        if name.len() == 0 {
            law_plexer_conservation_map(m, prest);
            let rest = crate::plexer::map_spec(m, prest);
            assert(out == seq![PlexItemSpec::Nameless(p)] + rest);
            assert(out.subrange(1, out.len() as int) =~= rest);
            lemma_law_map_head_path(m, paths, out, rest, p);
        } else {
            match crate::blocks::assoc_lookup(m, name) {
                Some(b) => {
                    let m2 = crate::blocks::assoc_remove(m, name);
                    lemma_assoc_remove_unique(m, name);
                    law_plexer_conservation_map(m2, prest);
                    let rest = crate::plexer::map_spec(m2, prest);
                    assert(out == seq![PlexItemSpec::Pair(p, b)] + rest);
                    assert(out.subrange(1, out.len() as int) =~= rest);
                    lemma_law_map_head_path(m2, paths, out, rest, p);
                    lemma_blocks_of_remove(m, name, b);
                    assert(blocks_of_items(out) == blocks_of_items(rest).insert(b));
                    assert forall|i: int|
                        0 <= i < out.len() && (#[trigger] out[i]) is Pair implies
                        crate::blocks::assoc_lookup(m, last_component(out[i]->Pair_0.0))
                        == Some(out[i]->Pair_1) by {
                        if i > 0 {
                            assert(rest[i - 1] == out[i]);
                            let nm = last_component(out[i]->Pair_0.0);
                            assert(crate::blocks::assoc_lookup(m2, nm) == Some(
                                out[i]->Pair_1,
                            ));
                            if nm == name {
                                lemma_removed_name_absent(m, name);
                                assert(false);
                            } else {
                                lemma_remove_keeps_other_lookups(m, name, nm);
                            }
                        }
                    }
                },
                None => {
                    law_plexer_conservation_map(m, prest);
                    let rest = crate::plexer::map_spec(m, prest);
                    assert(out == seq![PlexItemSpec::UnusedPath(p)] + rest);
                    assert(out.subrange(1, out.len() as int) =~= rest);
                    lemma_law_map_head_path(m, paths, out, rest, p);
                    assert forall|i: int|
                        0 <= i < out.len() && (#[trigger] out[i]) is Pair implies
                        crate::blocks::assoc_lookup(m, last_component(out[i]->Pair_0.0))
                        == Some(out[i]->Pair_1) by {
                        if i > 0 {
                            assert(rest[i - 1] == out[i]);
                        }
                    }
                },
            }
        }
    }
}

/// With no paths left, a mapping's emissions are all tagged leftovers.
proof fn lemma_map_spec_tail_tags(
    m: Seq<(Seq<char>, Seq<(Seq<char>, ValSpec)>)>,
    paths: Seq<Result<(Seq<char>, Option<u64>), Seq<char>>>,
)
    requires
        paths.len() == 0,
    ensures
        forall|i: int|
            0 <= i < crate::plexer::map_spec(m, paths).len() ==> (
            #[trigger] crate::plexer::map_spec(m, paths)[i]) is UnusedTagged,
    decreases m.len(),
{
    if m.len() > 0 {
        lemma_map_spec_tail_tags(m.subrange(1, m.len() as int), paths);
        let out = crate::plexer::map_spec(m, paths);
        let rest = crate::plexer::map_spec(m.subrange(1, m.len() as int), paths);
        assert forall|i: int| 0 <= i < out.len() implies (#[trigger] out[i]) is UnusedTagged
            by {
            if i > 0 {
                assert(out[i] == rest[i - 1]);
            }
        }
    }
}

/// The head emission carries the head path; the rest carry the rest.
proof fn lemma_law_map_head_path(
    m_rest: Seq<(Seq<char>, Seq<(Seq<char>, ValSpec)>)>,
    paths: Seq<Result<(Seq<char>, Option<u64>), Seq<char>>>,
    out: Seq<PlexItemSpec>,
    rest: Seq<PlexItemSpec>,
    p: (Seq<char>, Option<u64>),
)
    requires
        paths.len() > 0,
        paths[0] is Ok,
        p == paths[0]->Ok_0,
        out.len() == rest.len() + 1,
        emitted_path(out[0]) == Some(p),
        out.subrange(1, out.len() as int) == rest,
        paths_of_items(rest) == paths.subrange(1, paths.len() as int).map_values(
            |q: Result<(Seq<char>, Option<u64>), Seq<char>>| q->Ok_0,
        ),
    ensures
        paths_of_items(out) == paths.map_values(
            |q: Result<(Seq<char>, Option<u64>), Seq<char>>| q->Ok_0,
        ),
{
    assert(paths_of_items(out) == seq![p] + paths_of_items(rest));
    let full = paths.map_values(|q: Result<(Seq<char>, Option<u64>), Seq<char>>| q->Ok_0);
    assert forall|i: int| 0 <= i < paths.len() implies paths_of_items(out)[i] == full[i] by {
        if i > 0 {
            assert(paths.subrange(1, paths.len() as int)[i - 1] == paths[i]);
        }
    }
    assert(paths_of_items(out).len() == paths.len());
    assert(paths_of_items(out) =~= full);
}

/// After removing a name from a uniquely named list, it looks up to
/// nothing.
proof fn lemma_removed_name_absent(
    m: Seq<(Seq<char>, Seq<(Seq<char>, ValSpec)>)>,
    name: Seq<char>,
)
    requires
        crate::blocks::names_unique(m),
    ensures
        crate::blocks::assoc_lookup(crate::blocks::assoc_remove(m, name), name) is None,
    decreases m.len(),
{
    if m.len() > 0 {
        let tail = m.subrange(1, m.len() as int);
        assert(crate::blocks::names_unique(tail)) by {
            assert(forall|i: int, j: int|
                0 <= i < j < tail.len() ==> tail[i] == m[i + 1] && tail[j] == m[j + 1]);
        }
        if m[0].0 == name {
            assert forall|l: int| 0 <= l < tail.len() implies tail[l].0 != name by {
                assert(tail[l] == m[l + 1]);
            }
            crate::blocks::lemma_assoc_lookup_none(tail, name);
        } else {
            lemma_removed_name_absent(tail, name);
            let rem = crate::blocks::assoc_remove(m, name);
            assert(rem == seq![m[0]] + crate::blocks::assoc_remove(tail, name));
            assert(rem[0] == m[0]);
            assert(rem.subrange(1, rem.len() as int) =~= crate::blocks::assoc_remove(
                tail,
                name,
            ));
        }
    }
}

/// Removing an entry of a uniquely named list keeps the names unique.
proof fn lemma_assoc_remove_unique(
    m: Seq<(Seq<char>, Seq<(Seq<char>, ValSpec)>)>,
    name: Seq<char>,
)
    requires
        crate::blocks::names_unique(m),
    ensures
        crate::blocks::names_unique(crate::blocks::assoc_remove(m, name)),
    decreases m.len(),
{
    if m.len() > 0 {
        let tail = m.subrange(1, m.len() as int);
        assert(crate::blocks::names_unique(tail)) by {
            assert(forall|i: int, j: int|
                0 <= i < j < tail.len() ==> tail[i] == m[i + 1] && tail[j] == m[j + 1]);
        }
        if m[0].0 == name {
        } else {
            lemma_assoc_remove_unique(tail, name);
            let rem = crate::blocks::assoc_remove(m, name);
            let rtail = crate::blocks::assoc_remove(tail, name);
            assert(rem == seq![m[0]] + rtail);
            lemma_assoc_remove_subset_names(tail, name);
            assert forall|i: int, j: int| 0 <= i < j < rem.len() implies rem[i].0 != rem[
                j
            ].0 by {
                if i == 0 {
                    assert(rem[j] == rtail[j - 1]);
                    let w = choose|w: int|
                        0 <= w < tail.len() && tail[w] == rtail[j - 1];
                    assert(m[w + 1] == tail[w]);
                } else {
                    assert(rem[i] == rtail[i - 1]);
                    assert(rem[j] == rtail[j - 1]);
                }
            }
        }
    }
}

/// Every entry a removal leaves was an entry before it.
proof fn lemma_assoc_remove_subset_names(
    m: Seq<(Seq<char>, Seq<(Seq<char>, ValSpec)>)>,
    name: Seq<char>,
)
    ensures
        forall|j: int|
            0 <= j < crate::blocks::assoc_remove(m, name).len() ==> exists|w: int|
                0 <= w < m.len() && m[w] == #[trigger] crate::blocks::assoc_remove(m, name)[j],
    decreases m.len(),
{
    if m.len() > 0 {
        let tail = m.subrange(1, m.len() as int);
        let rem = crate::blocks::assoc_remove(m, name);
        if m[0].0 == name {
            assert forall|j: int| 0 <= j < rem.len() implies exists|w: int|
                0 <= w < m.len() && m[w] == #[trigger] rem[j] by {
                assert(m[j + 1] == rem[j]);
            }
        } else {
            lemma_assoc_remove_subset_names(tail, name);
            let rtail = crate::blocks::assoc_remove(tail, name);
            assert(rem == seq![m[0]] + rtail);
            assert forall|j: int| 0 <= j < rem.len() implies exists|w: int|
                0 <= w < m.len() && m[w] == #[trigger] rem[j] by {
                if j == 0 {
                    assert(m[0] == rem[0]);
                } else {
                    assert(rem[j] == rtail[j - 1]);
                    let w = choose|w: int|
                        0 <= w < tail.len() && tail[w] == rtail[j - 1];
                    assert(m[w + 1] == tail[w]);
                }
            }
        }
    }
}

/// Merge precedence: where a key is defined at several ancestor levels,
/// the flattened block carries the value of the deepest level that
/// defines it; this is what `merge_blocks` promises for every key.
pub proof fn law_merge_precedence(
    levels: Seq<Seq<(Seq<char>, ValSpec)>>,
    k: Seq<char>,
    i: int,
)
    requires
        0 <= i < levels.len(),
        crate::blocks::block_lookup(levels[i], k) is Some,
        forall|j: int|
            i < j < levels.len() ==> crate::blocks::block_lookup(#[trigger] levels[j], k)
                is None,
    ensures
        crate::processor::deepest(levels, k) == crate::blocks::block_lookup(levels[i], k),
{
    crate::processor::lemma_deepest_at(levels, k, i);
}

/// Round trip through collecting: forcing an error-free stream keeps its
/// length, and the first collected value is the stream's first value.
pub proof fn law_collect_round_trip(s: Seq<Result<ValSpec, Error>>)
    requires
        oks_only(s),
    ensures
        force_spec(s) is Ok,
        force_spec(s)->Ok_0.len() == s.len(),
        s.len() > 0 ==> s[0] == Ok::<ValSpec, Error>(force_spec(s)->Ok_0[0]),
{
    lemma_force_oks(s);
    assert(all_ok(force_spec(s)->Ok_0).len() == s.len());
    if s.len() > 0 {
        assert(all_ok(force_spec(s)->Ok_0)[0] == s[0]);
    }
}

/// Stream/sequence equivalence for the indexing operator: on a stream of
/// plain values it answers exactly as the sequence form does.
pub proof fn law_nth_equivalence(vs: Seq<ValSpec>, n: int)
    requires
        n >= 0,
    ensures
        nth_spec(all_ok(vs), n) == if n < vs.len() {
            Ok::<ValSpec, Error>(vs[n])
        } else {
            Err::<ValSpec, Error>(Error::OutOfBounds)
        },
    decreases vs.len(),
{
    let s = all_ok(vs);
    if vs.len() > 0 {
        assert(s[0] == Ok::<ValSpec, Error>(vs[0]));
        assert(s.subrange(1, s.len() as int) =~= all_ok(vs.subrange(1, vs.len() as int)));
        if n > 0 {
            law_nth_equivalence(vs.subrange(1, vs.len() as int), n - 1);
        }
    }
}

/// Stream/sequence equivalence for the quantifier operators: on a stream
/// of plain values they answer exactly as the sequence forms do.
pub proof fn law_all_any_equivalence(vs: Seq<ValSpec>, p: crate::stream::Pred1)
    ensures
        all_spec(all_ok(vs), p) == Ok::<bool, Error>(
            forall|i: int| 0 <= i < vs.len() ==> crate::stream::pred_spec(p, #[trigger] vs[i]),
        ),
        any_spec(all_ok(vs), p) == Ok::<bool, Error>(
            exists|i: int| 0 <= i < vs.len() && crate::stream::pred_spec(p, #[trigger] vs[i]),
        ),
{
    crate::operator::lemma_all_spec_all_ok(vs, p);
    crate::operator::lemma_any_spec_all_ok(vs, p);
}

/// Stream/sequence equivalence for chaining: marking two value lists
/// successful and chaining them is marking their concatenation.
pub proof fn law_chain_equivalence(a: Seq<ValSpec>, b: Seq<ValSpec>)
    ensures
        all_ok(a) + all_ok(b) == all_ok(a + b),
{
    assert(all_ok(a) + all_ok(b) =~= all_ok(a + b));
}

/// Stream/sequence equivalence for skipping and taking: on streams of
/// plain values they cut the same subranges the sequence forms cut.
pub proof fn law_skip_take_equivalence(vs: Seq<ValSpec>, n: int)
    requires
        0 <= n <= vs.len(),
    ensures
        all_ok(vs).subrange(n, vs.len() as int) == all_ok(vs.subrange(n, vs.len() as int)),
        all_ok(vs).subrange(0, n) == all_ok(vs.subrange(0, n)),
{
    assert(all_ok(vs).subrange(n, vs.len() as int) =~= all_ok(
        vs.subrange(n, vs.len() as int),
    ));
    assert(all_ok(vs).subrange(0, n) =~= all_ok(vs.subrange(0, n)));
}

/// Two character sequences that compare equal are indistinguishable to
/// the character order.
proof fn lemma_cmp_chars_eq_congruent(x: Seq<char>, a: Seq<char>, b: Seq<char>)
    requires
        crate::order::cmp_chars(a, b) == core::cmp::Ordering::Equal,
    ensures
        crate::order::cmp_chars(x, a) == crate::order::cmp_chars(x, b),
        crate::order::cmp_chars(a, x) == crate::order::cmp_chars(b, x),
    decreases x.len() + a.len() + b.len(),
{
    if a.len() == 0 || b.len() == 0 {
        assert(a.len() == 0 && b.len() == 0);
    } else {
        assert(a[0] as u32 == b[0] as u32);
        if x.len() > 0 {
            lemma_cmp_chars_eq_congruent(
                x.subrange(1, x.len() as int),
                a.subrange(1, a.len() as int),
                b.subrange(1, b.len() as int),
            );
        }
    }
}

/// The character order never turns two non-descents into a descent.
proof fn lemma_cmp_chars_le_trans(a: Seq<char>, b: Seq<char>, c: Seq<char>)
    requires
        crate::order::cmp_chars(a, b) != core::cmp::Ordering::Greater,
        crate::order::cmp_chars(b, c) != core::cmp::Ordering::Greater,
    ensures
        crate::order::cmp_chars(a, c) != core::cmp::Ordering::Greater,
    decreases a.len() + b.len() + c.len(),
{
    if a.len() == 0 {
    } else {
        assert(b.len() > 0);
        assert(c.len() > 0);
        let a0 = a[0] as u32;
        let b0 = b[0] as u32;
        let c0 = c[0] as u32;
        assert(a0 <= b0);
        assert(b0 <= c0);
        if a0 < c0 {
        } else {
            assert(a0 == b0 && b0 == c0);
            lemma_cmp_chars_le_trans(
                a.subrange(1, a.len() as int),
                b.subrange(1, b.len() as int),
                c.subrange(1, c.len() as int),
            );
        }
    }
}

/// The values of a list a predicate keeps, in order.
pub open spec fn keep_vals(vs: Seq<ValSpec>, p: crate::stream::Pred1) -> Seq<ValSpec>
    decreases vs.len(),
{
    if vs.len() == 0 {
        Seq::empty()
    } else {
        let rest = keep_vals(vs.subrange(1, vs.len() as int), p);
        if crate::stream::pred_spec(p, vs[0]) {
            seq![vs[0]] + rest
        } else {
            rest
        }
    }
}

/// Stream/sequence equivalence for filtering: on a stream of plain
/// values the filter keeps exactly the values the predicate accepts, in
/// order, with no errors.
pub proof fn law_filter_equivalence(vs: Seq<ValSpec>, p: crate::stream::Pred1)
    ensures
        crate::stream::filter_spec(all_ok(vs), p) == all_ok(keep_vals(vs, p)),
    decreases vs.len(),
{
    let s = all_ok(vs);
    if vs.len() == 0 {
        assert(crate::stream::filter_spec(s, p) =~= all_ok(keep_vals(vs, p)));
    } else {
        assert(s[0] == Ok::<ValSpec, Error>(vs[0]));
        assert(s.subrange(1, s.len() as int) =~= all_ok(vs.subrange(1, vs.len() as int)));
        law_filter_equivalence(vs.subrange(1, vs.len() as int), p);
        if crate::stream::pred_spec(p, vs[0]) {
            assert(all_ok(seq![vs[0]] + keep_vals(vs.subrange(1, vs.len() as int), p))
                =~= seq![Ok::<ValSpec, Error>(vs[0])] + all_ok(
                keep_vals(vs.subrange(1, vs.len() as int), p),
            ));
        }
    }
}

/// Stream/sequence equivalence for searching: on a stream of plain
/// values, the first accepted value and its position read off the value
/// list pointwise, and a fruitless search is reported.
pub proof fn law_find_position_equivalence(vs: Seq<ValSpec>, p: crate::stream::Pred1)
    ensures
        crate::operator::find_spec(all_ok(vs), p) == (match first_match(vs, p) {
            Some(i) => Ok::<ValSpec, Error>(vs[i]),
            None => Err::<ValSpec, Error>(Error::ItemNotFound),
        }),
        crate::operator::position_spec(all_ok(vs), p) == (match first_match(vs, p) {
            Some(i) => Ok::<int, Error>(i),
            None => Err::<int, Error>(Error::ItemNotFound),
        }),
    decreases vs.len(),
{
    let s = all_ok(vs);
    if vs.len() > 0 {
        assert(s[0] == Ok::<ValSpec, Error>(vs[0]));
        let tail = vs.subrange(1, vs.len() as int);
        assert(s.subrange(1, s.len() as int) =~= all_ok(tail));
        law_find_position_equivalence(tail, p);
        lemma_first_match_bounds(tail, p);
        if !crate::stream::pred_spec(p, vs[0]) {
            match first_match(tail, p) {
                Some(i) => {
                    assert(tail[i] == vs[i + 1]);
                },
                None => {},
            }
        }
    }
}

/// A first match is a position inside the list.
proof fn lemma_first_match_bounds(vs: Seq<ValSpec>, p: crate::stream::Pred1)
    ensures
        match first_match(vs, p) {
            Some(i) => 0 <= i < vs.len(),
            None => true,
        },
    decreases vs.len(),
{
    if vs.len() > 0 && !crate::stream::pred_spec(p, vs[0]) {
        lemma_first_match_bounds(vs.subrange(1, vs.len() as int), p);
    }
}

/// The index of the first value a predicate accepts, if any.
pub open spec fn first_match(vs: Seq<ValSpec>, p: crate::stream::Pred1) -> Option<int>
    decreases vs.len(),
{
    if vs.len() == 0 {
        None
    } else if crate::stream::pred_spec(p, vs[0]) {
        Some(0)
    } else {
        match first_match(vs.subrange(1, vs.len() as int), p) {
            Some(i) => Some(i + 1),
            None => None,
        }
    }
}

/// The name order before the direction is applied: final components
/// first, whole paths as the tie breaker.
pub open spec fn name_base(a: (Seq<char>, Option<u64>), b: (Seq<char>, Option<u64>)) -> core::cmp::Ordering {
    let prim = crate::order::cmp_chars(last_component(a.0), last_component(b.0));
    if prim == core::cmp::Ordering::Equal {
        crate::order::cmp_chars(a.0, b.0)
    } else {
        prim
    }
}

/// The name comparator is its base, with the direction applied.
proof fn lemma_name_cmp_is_base(sorter: crate::sorter::Sorter, a: (Seq<char>, Option<u64>), b: (Seq<char>, Option<u64>))
    requires
        sorter.sort_by is Name,
    ensures
        crate::sorter::cmp_paths_spec(sorter, a, b) == crate::sorter::align_spec(
            sorter.sort_order,
            name_base(a, b),
        ),
{
}

/// Ties under the name base make two paths indistinguishable to it.
proof fn lemma_name_base_eq_congruent(
    a: (Seq<char>, Option<u64>),
    b: (Seq<char>, Option<u64>),
    e: (Seq<char>, Option<u64>),
)
    requires
        name_base(a, b) == core::cmp::Ordering::Equal,
    ensures
        name_base(e, a) == name_base(e, b),
        name_base(a, e) == name_base(b, e),
{
    lemma_cmp_chars_eq_congruent(
        last_component(e.0),
        last_component(a.0),
        last_component(b.0),
    );
    lemma_cmp_chars_eq_congruent(e.0, a.0, b.0);
}

/// The name base never turns two non-descents into a descent.
proof fn lemma_name_base_le_trans(
    a: (Seq<char>, Option<u64>),
    b: (Seq<char>, Option<u64>),
    c: (Seq<char>, Option<u64>),
)
    requires
        name_base(a, b) != core::cmp::Ordering::Greater,
        name_base(b, c) != core::cmp::Ordering::Greater,
    ensures
        name_base(a, c) != core::cmp::Ordering::Greater,
{
    let la = last_component(a.0);
    let lb = last_component(b.0);
    let lc = last_component(c.0);
    lemma_cmp_chars_le_trans(la, lb, lc);
    let pab = crate::order::cmp_chars(la, lb);
    let pbc = crate::order::cmp_chars(lb, lc);
    let pac = crate::order::cmp_chars(la, lc);
    if pab == core::cmp::Ordering::Equal && pbc == core::cmp::Ordering::Equal {
        lemma_cmp_chars_eq_congruent(lc, la, lb);
        lemma_cmp_chars_le_trans(a.0, b.0, c.0);
    } else if pab == core::cmp::Ordering::Equal {
        lemma_cmp_chars_eq_congruent(lc, la, lb);
        crate::resolver::lemma_cmp_chars_flip(la, lc);
    } else if pbc == core::cmp::Ordering::Equal {
        lemma_cmp_chars_eq_congruent(la, lb, lc);
    } else {
        // Both primaries descend strictly; equality in the middle would
        // contradict one of them.
        if pac == core::cmp::Ordering::Equal {
            lemma_cmp_chars_eq_congruent(lb, la, lc);
            crate::resolver::lemma_cmp_chars_flip(la, lb);
        }
    }
}

/// The name comparator flips with its operands.
proof fn lemma_name_base_flip(a: (Seq<char>, Option<u64>), b: (Seq<char>, Option<u64>))
    ensures
        name_base(a, b) == crate::resolver::reverse_ordering(name_base(b, a)),
{
    crate::resolver::lemma_cmp_chars_flip(last_component(a.0), last_component(b.0));
    crate::resolver::lemma_cmp_chars_flip(a.0, b.0);
}

/// Whether a sorter ties two paths.
pub open spec fn sorter_ties(
    sorter: crate::sorter::Sorter,
    a: (Seq<char>, Option<u64>),
    b: (Seq<char>, Option<u64>),
) -> bool {
    crate::sorter::cmp_paths_spec(sorter, a, b) == core::cmp::Ordering::Equal
}

/// The subsequence of a path list tying with a given path.
pub open spec fn ties_with(
    sorter: crate::sorter::Sorter,
    s: Seq<(Seq<char>, Option<u64>)>,
    v: (Seq<char>, Option<u64>),
) -> Seq<(Seq<char>, Option<u64>)>
    decreases s.len(),
{
    if s.len() == 0 {
        Seq::empty()
    } else {
        let rest = ties_with(sorter, s.subrange(1, s.len() as int), v);
        if sorter_ties(sorter, s[0], v) {
            seq![s[0]] + rest
        } else {
            rest
        }
    }
}

/// Extending a list by one element extends its ties accordingly.
proof fn lemma_ties_snoc(
    sorter: crate::sorter::Sorter,
    s: Seq<(Seq<char>, Option<u64>)>,
    x: (Seq<char>, Option<u64>),
    v: (Seq<char>, Option<u64>),
)
    ensures
        ties_with(sorter, s.push(x), v) == if sorter_ties(sorter, x, v) {
            ties_with(sorter, s, v).push(x)
        } else {
            ties_with(sorter, s, v)
        },
    decreases s.len(),
{
    reveal_with_fuel(ties_with, 4);
    let w = s.push(x);
    if s.len() == 0 {
        assert(w =~= seq![x]);
        assert(w.subrange(1, 1) =~= Seq::<(Seq<char>, Option<u64>)>::empty());
        if sorter_ties(sorter, x, v) {
            assert(ties_with(sorter, w, v) =~= ties_with(sorter, s, v).push(x));
        }
    } else {
        assert(w[0] == s[0]);
        assert(w.subrange(1, w.len() as int) =~= s.subrange(1, s.len() as int).push(x));
        lemma_ties_snoc(sorter, s.subrange(1, s.len() as int), x, v);
        if sorter_ties(sorter, s[0], v) {
            if sorter_ties(sorter, x, v) {
                assert(seq![s[0]] + ties_with(sorter, s.subrange(1, s.len() as int), v).push(
                    x,
                ) =~= ties_with(sorter, s, v).push(x));
            }
        }
    }
}

/// Splicing one element into a list splices its ties at the boundary.
proof fn lemma_ties_splice(
    sorter: crate::sorter::Sorter,
    s: Seq<(Seq<char>, Option<u64>)>,
    x: (Seq<char>, Option<u64>),
    v: (Seq<char>, Option<u64>),
    p: int,
)
    requires
        0 <= p <= s.len(),
        // Nothing at or past the insertion point ties with the new
        // element's class.
        sorter_ties(sorter, x, v) ==> forall|l: int|
            p <= l < s.len() ==> !sorter_ties(sorter, #[trigger] s[l], v),
    ensures
        ties_with(sorter, s.subrange(0, p) + seq![x] + s.subrange(p, s.len() as int), v)
            == if sorter_ties(sorter, x, v) {
            ties_with(sorter, s, v).push(x)
        } else {
            ties_with(sorter, s, v)
        },
    decreases s.len() - p,
{
    reveal_with_fuel(ties_with, 4);
    let w = s.subrange(0, p) + seq![x] + s.subrange(p, s.len() as int);
    if p == s.len() {
        assert(w =~= s.push(x));
        lemma_ties_snoc(sorter, s, x, v);
    } else {
        let t = s.drop_last();
        let y = s.last();
        assert(t.subrange(0, p) =~= s.subrange(0, p));
        assert(t.subrange(p, t.len() as int) =~= s.subrange(p, s.len() as int).drop_last());
        lemma_ties_splice(sorter, t, x, v, p);
        let wt = t.subrange(0, p) + seq![x] + t.subrange(p, t.len() as int);
        assert(w =~= wt.push(y));
        lemma_ties_snoc(sorter, wt, y, v);
        lemma_ties_snoc(sorter, t, y, v);
        assert(s =~= t.push(y));
        if sorter_ties(sorter, x, v) {
            assert(!sorter_ties(sorter, y, v)) by {
                assert(s[s.len() - 1] == y);
            }
            assert(forall|l: int| p <= l < t.len() ==> !sorter_ties(sorter, #[trigger] t[l], v))
                by {
                assert(forall|l: int| 0 <= l < t.len() ==> #[trigger] t[l] == s[l]);
            }
        }
    }
}

/// Sort stability, for sorters that order by name: the relative order of
/// paths the sorter ties is preserved.  A sorter by modification time
/// with a missing time ties unrelated paths and is left out here.
pub proof fn law_sort_stability(
    sorter: crate::sorter::Sorter,
    s: Seq<(Seq<char>, Option<u64>)>,
    v: (Seq<char>, Option<u64>),
)
    requires
        sorter.sort_by is Name,
    ensures
        ties_with(sorter, crate::sorter::sort_spec(sorter, s), v) == ties_with(sorter, s, v),
    decreases s.len(),
{
    reveal_with_fuel(ties_with, 4);
    if s.len() > 0 {
        let t = s.drop_last();
        let x = s.last();
        law_sort_stability(sorter, t, v);
        let sorted = crate::sorter::sort_spec(sorter, t);
        lemma_sort_spec_sorted(sorter, t);
        let p = insert_position(sorter, sorted, x);
        lemma_insert_position(sorter, sorted, x);
        crate::sorter::lemma_insert_sorted_at(sorter, sorted, x, p);
        // Everything at or past the insertion point is strictly greater
        // than the new element, so nothing there ties with its class.
        if sorter_ties(sorter, x, v) {
            assert forall|l: int| p <= l < sorted.len() implies !sorter_ties(
                sorter,
                #[trigger] sorted[l],
                v,
            ) by {
                lemma_sorted_tail_greater(sorter, sorted, x, p, l);
                if sorter_ties(sorter, sorted[l], v) {
                    // A tie with the class is a tie with the new element,
                    // which contradicts being strictly greater.
                    lemma_sorter_eq_congruent(sorter, sorted[l], v, x);
                    lemma_sorter_flip(sorter, x, v);
                    lemma_sorter_flip(sorter, sorted[l], x);
                }
            }
        }
        lemma_ties_splice(sorter, sorted, x, v, p);
        lemma_ties_snoc(sorter, t, x, v);
        assert(s =~= t.push(x));
    } else {
        assert(ties_with(sorter, crate::sorter::sort_spec(sorter, s), v) =~= ties_with(
            sorter,
            s,
            v,
        ));
    }
}

/// Where a new element inserts: before the first strictly greater one.
spec fn insert_position(
    sorter: crate::sorter::Sorter,
    sorted: Seq<(Seq<char>, Option<u64>)>,
    x: (Seq<char>, Option<u64>),
) -> int
    decreases sorted.len(),
{
    if sorted.len() == 0 {
        0
    } else if crate::sorter::cmp_paths_spec(sorter, sorted[0], x) is Greater {
        0
    } else {
        1 + insert_position(sorter, sorted.subrange(1, sorted.len() as int), x)
    }
}

/// The insertion position splits the list into a not-greater prefix and
/// a strictly greater element, where one remains.
proof fn lemma_insert_position(
    sorter: crate::sorter::Sorter,
    sorted: Seq<(Seq<char>, Option<u64>)>,
    x: (Seq<char>, Option<u64>),
)
    ensures
        0 <= insert_position(sorter, sorted, x) <= sorted.len(),
        forall|l: int|
            0 <= l < insert_position(sorter, sorted, x) ==> !(crate::sorter::cmp_paths_spec(
                sorter,
                #[trigger] sorted[l],
                x,
            ) is Greater),
        insert_position(sorter, sorted, x) < sorted.len() ==> crate::sorter::cmp_paths_spec(
            sorter,
            sorted[insert_position(sorter, sorted, x)],
            x,
        ) is Greater,
    decreases sorted.len(),
{
    if sorted.len() > 0 && !(crate::sorter::cmp_paths_spec(sorter, sorted[0], x) is Greater) {
        lemma_insert_position(sorter, sorted.subrange(1, sorted.len() as int), x);
        assert forall|l: int| 0 <= l < insert_position(sorter, sorted, x) implies !(
        crate::sorter::cmp_paths_spec(sorter, #[trigger] sorted[l], x) is Greater) by {
            if l > 0 {
                assert(sorted.subrange(1, sorted.len() as int)[l - 1] == sorted[l]);
            }
        }
    }
}

/// The sorter's answer flips with its operands, for name sorters.
proof fn lemma_sorter_flip(
    sorter: crate::sorter::Sorter,
    a: (Seq<char>, Option<u64>),
    b: (Seq<char>, Option<u64>),
)
    requires
        sorter.sort_by is Name,
    ensures
        crate::sorter::cmp_paths_spec(sorter, a, b) == crate::resolver::reverse_ordering(
            crate::sorter::cmp_paths_spec(sorter, b, a),
        ),
{
    lemma_name_base_flip(a, b);
}

/// Ties make two paths indistinguishable to a name sorter.
proof fn lemma_sorter_eq_congruent(
    sorter: crate::sorter::Sorter,
    a: (Seq<char>, Option<u64>),
    b: (Seq<char>, Option<u64>),
    e: (Seq<char>, Option<u64>),
)
    requires
        sorter.sort_by is Name,
        sorter_ties(sorter, a, b),
    ensures
        crate::sorter::cmp_paths_spec(sorter, e, a) == crate::sorter::cmp_paths_spec(
            sorter,
            e,
            b,
        ),
        crate::sorter::cmp_paths_spec(sorter, a, e) == crate::sorter::cmp_paths_spec(
            sorter,
            b,
            e,
        ),
{
    assert(name_base(a, b) == core::cmp::Ordering::Equal);
    lemma_name_base_eq_congruent(a, b, e);
}

/// A name sorter never turns two non-descents into a descent.
proof fn lemma_sorter_le_trans(
    sorter: crate::sorter::Sorter,
    a: (Seq<char>, Option<u64>),
    b: (Seq<char>, Option<u64>),
    c: (Seq<char>, Option<u64>),
)
    requires
        sorter.sort_by is Name,
        !(crate::sorter::cmp_paths_spec(sorter, a, b) is Greater),
        !(crate::sorter::cmp_paths_spec(sorter, b, c) is Greater),
    ensures
        !(crate::sorter::cmp_paths_spec(sorter, a, c) is Greater),
{
    match sorter.sort_order {
        crate::sorter::SortOrder::Ascending => {
            lemma_name_base_le_trans(a, b, c);
        },
        crate::sorter::SortOrder::Descending => {
            lemma_name_base_flip(a, b);
            lemma_name_base_flip(b, c);
            lemma_name_base_le_trans(c, b, a);
            lemma_name_base_flip(a, c);
        },
    }
}

/// The sort of a path list under a name sorter is pairwise in order.
proof fn lemma_sort_spec_sorted(
    sorter: crate::sorter::Sorter,
    s: Seq<(Seq<char>, Option<u64>)>,
)
    requires
        sorter.sort_by is Name,
    ensures
        forall|i: int, j: int|
            0 <= i < j < crate::sorter::sort_spec(sorter, s).len() ==> !(
            crate::sorter::cmp_paths_spec(
                sorter,
                #[trigger] crate::sorter::sort_spec(sorter, s)[i],
                #[trigger] crate::sorter::sort_spec(sorter, s)[j],
            ) is Greater),
    decreases s.len(),
{
    if s.len() > 0 {
        let t = s.drop_last();
        let x = s.last();
        lemma_sort_spec_sorted(sorter, t);
        let sorted = crate::sorter::sort_spec(sorter, t);
        let p = insert_position(sorter, sorted, x);
        lemma_insert_position(sorter, sorted, x);
        crate::sorter::lemma_insert_sorted_at(sorter, sorted, x, p);
        let out = crate::sorter::sort_spec(sorter, s);
        assert(out =~= sorted.subrange(0, p) + seq![x] + sorted.subrange(
            p,
            sorted.len() as int,
        ));
        assert forall|i: int, j: int| 0 <= i < j < out.len() implies !(
        crate::sorter::cmp_paths_spec(sorter, #[trigger] out[i], #[trigger] out[j])
            is Greater) by {
            if i < p && j < p {
                assert(out[i] == sorted[i]);
                assert(out[j] == sorted[j]);
            } else if i < p && j == p {
                assert(out[i] == sorted[i]);
                assert(out[j] == x);
            } else if i < p {
                assert(out[i] == sorted[i]);
                assert(out[j] == sorted[j - 1]);
            } else if i == p {
                assert(out[i] == x);
                assert(out[j] == sorted[j - 1]);
                lemma_sorted_tail_greater(sorter, sorted, x, p, j - 1);
                lemma_sorter_flip(sorter, sorted[j - 1], x);
            } else {
                assert(out[i] == sorted[i - 1]);
                assert(out[j] == sorted[j - 1]);
            }
        }
    }
}

/// Everything at or past the insertion point is strictly greater than
/// the inserted element, in a sorted list under a name sorter.
proof fn lemma_sorted_tail_greater(
    sorter: crate::sorter::Sorter,
    sorted: Seq<(Seq<char>, Option<u64>)>,
    x: (Seq<char>, Option<u64>),
    p: int,
    l: int,
)
    requires
        sorter.sort_by is Name,
        p == insert_position(sorter, sorted, x),
        p <= l < sorted.len(),
        forall|i: int, j: int|
            0 <= i < j < sorted.len() ==> !(crate::sorter::cmp_paths_spec(
                sorter,
                #[trigger] sorted[i],
                #[trigger] sorted[j],
            ) is Greater),
    ensures
        crate::sorter::cmp_paths_spec(sorter, sorted[l], x) is Greater,
{
    lemma_insert_position(sorter, sorted, x);
    if l == p {
    } else {
        // The element at the insertion point is greater than the new
        // one, and the element at `l` does not descend below it.
        if !(crate::sorter::cmp_paths_spec(sorter, sorted[l], x) is Greater) {
            lemma_sorter_le_trans(sorter, sorted[p], sorted[l], x);
        }
    }
}

} // verus!
