//! Binding blocks of metadata to the item paths they describe.  A plexer
//! takes one parsed sidecar shape and a list of candidate path results and
//! emits `(path, block)` pairs, or diagnostics for whatever is left over
//! on either side.

use vstd::prelude::*;

use crate::blocks::Block;
use crate::blocks::BlockMapping;
use crate::blocks::MetaStructure;
use crate::values::ValSpec;
use crate::blocks::assoc_lookup;
use crate::blocks::assoc_remove;
use crate::sorter::PathInfo;
use crate::sorter::Sorter;
use crate::sorter::last_component;
use crate::sorter::presults_view;
use crate::sorter::errs_of;
use crate::sorter::oks_of;
use crate::sorter::errs_as_results;
use crate::sorter::oks_as_results;
use crate::sorter::sort_spec;

verus! {

/// What the plexer can emit besides a successful pair.
#[derive(Debug)]
pub enum Error {
    /// An error the path producer reported, passed through.
    Io(String),
    /// A path with no block left to pair it with.
    UnusedItemPath(PathInfo),
    /// A block with no path left to pair it with.
    UnusedBlock(Block),
    /// A keyed block whose name no path matched.
    UnusedTaggedBlock(Block, String),
    /// A path without a usable file name.
    NamelessItemPath(PathInfo),
}

/// Spec-level mirror of one plexer emission.
pub enum PlexItemSpec {
    Pair((Seq<char>, Option<u64>), Seq<(Seq<char>, ValSpec)>),
    IoErr(Seq<char>),
    UnusedPath((Seq<char>, Option<u64>)),
    UnusedBlockItem(Seq<(Seq<char>, ValSpec)>),
    UnusedTagged(Seq<(Seq<char>, ValSpec)>, Seq<char>),
    Nameless((Seq<char>, Option<u64>)),
}

/// The view of one emission.
pub open spec fn plexitem_view(it: Result<(PathInfo, Block), Error>) -> PlexItemSpec {
    match it {
        Ok((p, b)) => PlexItemSpec::Pair(p@, b@),
        Err(Error::Io(e)) => PlexItemSpec::IoErr(e@),
        Err(Error::UnusedItemPath(p)) => PlexItemSpec::UnusedPath(p@),
        Err(Error::UnusedBlock(b)) => PlexItemSpec::UnusedBlockItem(b@),
        Err(Error::UnusedTaggedBlock(b, t)) => PlexItemSpec::UnusedTagged(b@, t@),
        Err(Error::NamelessItemPath(p)) => PlexItemSpec::Nameless(p@),
    }
}

/// The views of a list of emissions.
pub open spec fn plexitems_view(its: Seq<Result<(PathInfo, Block), Error>>) -> Seq<PlexItemSpec>
    decreases its,
{
    if its.len() == 0 {
        Seq::empty()
    } else {
        seq![plexitem_view(its[0])] + plexitems_view(its.subrange(1, its.len() as int))
    }
}

/// An emission list's view has one element per emission, in order.
pub broadcast proof fn lemma_plexitems_view_len(its: Seq<Result<(PathInfo, Block), Error>>)
    ensures
        #[trigger] plexitems_view(its).len() == its.len(),
    decreases its,
{
    if its.len() > 0 {
        lemma_plexitems_view_len(its.subrange(1, its.len() as int));
    }
}

/// Indexing an emission list's view gives the view of the indexed emission.
pub broadcast proof fn lemma_plexitems_view_index(
    its: Seq<Result<(PathInfo, Block), Error>>,
    i: int,
)
    requires
        0 <= i < its.len(),
    ensures
        plexitems_view(its).len() == its.len(),
        #[trigger] plexitems_view(its)[i] == plexitem_view(its[i]),
    decreases its,
{
    lemma_plexitems_view_len(its);
    if i > 0 {
        lemma_plexitems_view_index(its.subrange(1, its.len() as int), i - 1);
    }
}

/// What plexing one block against a path list emits.  The block pairs with
/// the first successful path; an error from the path producer passes
/// through transparently and leaves the block waiting; later successful
/// paths are unused, and a block never paired is reported once the paths
/// end.
pub open spec fn one_spec(
    ob: Option<Seq<(Seq<char>, ValSpec)>>,
    paths: Seq<Result<(Seq<char>, Option<u64>), Seq<char>>>,
) -> Seq<PlexItemSpec>
    decreases paths.len(),
{
    if paths.len() == 0 {
        match ob {
            Some(b) => seq![PlexItemSpec::UnusedBlockItem(b)],
            None => Seq::empty(),
        }
    } else {
        let rest = paths.subrange(1, paths.len() as int);
        match paths[0] {
            Err(e) => seq![PlexItemSpec::IoErr(e)] + one_spec(ob, rest),
            Ok(p) => match ob {
                Some(b) => seq![PlexItemSpec::Pair(p, b)] + one_spec(
                    None::<Seq<(Seq<char>, ValSpec)>>,
                    rest,
                ),
                None => seq![PlexItemSpec::UnusedPath(p)] + one_spec(
                    None::<Seq<(Seq<char>, ValSpec)>>,
                    rest,
                ),
            },
        }
    }
}

/// What plexing a block sequence against a sorted path list emits: blocks
/// zip positionally with the successful paths; a path error passes through
/// transparently without consuming a block; extra paths and extra blocks
/// are each reported.
pub open spec fn seq_spec(
    blocks: Seq<Seq<(Seq<char>, ValSpec)>>,
    paths: Seq<Result<(Seq<char>, Option<u64>), Seq<char>>>,
) -> Seq<PlexItemSpec>
    decreases blocks.len() + paths.len(),
{
    if paths.len() == 0 {
        if blocks.len() == 0 {
            Seq::empty()
        } else {
            seq![PlexItemSpec::UnusedBlockItem(blocks[0])] + seq_spec(
                blocks.subrange(1, blocks.len() as int),
                paths,
            )
        }
    } else {
        let prest = paths.subrange(1, paths.len() as int);
        let brest = if blocks.len() == 0 {
            blocks
        } else {
            blocks.subrange(1, blocks.len() as int)
        };
        match paths[0] {
            Err(e) => seq![PlexItemSpec::IoErr(e)] + seq_spec(blocks, prest),
            Ok(p) => if blocks.len() == 0 {
                seq![PlexItemSpec::UnusedPath(p)] + seq_spec(brest, prest)
            } else {
                seq![PlexItemSpec::Pair(p, blocks[0])] + seq_spec(brest, prest)
            },
        }
    }
}

/// What plexing a keyed block mapping against a path list emits: each
/// path's file name removes and pairs the block under that name; a path
/// without a usable name or without a block is reported; entries still in
/// the mapping when the paths end are reported in order, with their tags.
pub open spec fn map_spec(
    m: Seq<(Seq<char>, Seq<(Seq<char>, ValSpec)>)>,
    paths: Seq<Result<(Seq<char>, Option<u64>), Seq<char>>>,
) -> Seq<PlexItemSpec>
    decreases paths.len(), m.len(),
{
    if paths.len() == 0 {
        if m.len() == 0 {
            Seq::empty()
        } else {
            seq![PlexItemSpec::UnusedTagged(m[0].1, m[0].0)] + map_spec(
                m.subrange(1, m.len() as int),
                paths,
            )
        }
    } else {
        let prest = paths.subrange(1, paths.len() as int);
        match paths[0] {
            Err(e) => seq![PlexItemSpec::IoErr(e)] + map_spec(m, prest),
            Ok(p) => {
                let name = last_component(p.0);
                if name.len() == 0 {
                    seq![PlexItemSpec::Nameless(p)] + map_spec(m, prest)
                } else {
                    match assoc_lookup(m, name) {
                        Some(b) => seq![PlexItemSpec::Pair(p, b)] + map_spec(
                            assoc_remove(m, name),
                            prest,
                        ),
                        None => seq![PlexItemSpec::UnusedPath(p)] + map_spec(m, prest),
                    }
                }
            },
        }
    }
}

/// The state of a plexer: the emissions not yet handed out, in order.
#[derive(Debug)]
pub struct PlexState {
    items: Vec<Result<(PathInfo, Block), Error>>,
}

impl PlexState {
    /// The emissions still to come, in order.
    pub closed spec fn remaining(self) -> Seq<PlexItemSpec> {
        plexitems_view(self.items@)
    }

    /// A plexer state holding the given emissions.
    fn from_items(items: Vec<Result<(PathInfo, Block), Error>>) -> (r: PlexState)
        ensures
            r.remaining() == plexitems_view(items@),
    {
        PlexState { items }
    }

    /// Takes all remaining emissions at once, in order.
    fn into_items(self) -> (r: Vec<Result<(PathInfo, Block), Error>>)
        ensures
            plexitems_view(r@) == self.remaining(),
    {
        self.items
    }

    /// Hands out the next emission.
    fn next_item(&mut self) -> (r: Option<Result<(PathInfo, Block), Error>>)
        ensures
            match r {
                Some(it) => {
                    &&& old(self).remaining().len() > 0
                    &&& plexitem_view(it) == old(self).remaining()[0]
                    &&& final(self).remaining() == old(self).remaining().subrange(
                        1,
                        old(self).remaining().len() as int,
                    )
                },
                None => {
                    &&& old(self).remaining().len() == 0
                    &&& final(self).remaining() == old(self).remaining()
                },
            },
    {
        proof {
            lemma_plexitems_view_len(self.items@);
        }
        if self.items.len() == 0 {
            return None;
        }
        let ghost before: Seq<Result<(PathInfo, Block), Error>> = self.items@;
        let it: Result<(PathInfo, Block), Error> = self.items.remove(0);
        proof {
            assert(self.items@ =~= before.subrange(1, before.len() as int));
            lemma_plexitems_view_index(before, 0);
        }
        Some(it)
    }
}

/// The view of an optional block.
pub open spec fn opt_block_view(ob: Option<Block>) -> Option<Seq<(Seq<char>, ValSpec)>> {
    match ob {
        Some(b) => Some(b@),
        None => None,
    }
}

/// Appending one emission appends its view.
proof fn lemma_plexitems_snoc(
    before: Seq<Result<(PathInfo, Block), Error>>,
    after: Seq<Result<(PathInfo, Block), Error>>,
    x: Result<(PathInfo, Block), Error>,
)
    requires
        after == before.push(x),
    ensures
        plexitems_view(after) == plexitems_view(before).push(plexitem_view(x)),
{
    lemma_plexitems_view_len(after);
    lemma_plexitems_view_len(before);
    assert forall|l: int| 0 <= l < after.len() implies plexitems_view(after)[l] == plexitems_view(
        before,
    ).push(plexitem_view(x))[l] by {
        lemma_plexitems_view_index(after, l);
        if l < before.len() {
            lemma_plexitems_view_index(before, l);
        }
    }
    assert(plexitems_view(after) =~= plexitems_view(before).push(plexitem_view(x)));
}

/// Appends one emission, tracking the view.
fn push_item(items: &mut Vec<Result<(PathInfo, Block), Error>>, it: Result<(PathInfo, Block), Error>)
    ensures
        plexitems_view(final(items)@) == plexitems_view(old(items)@).push(plexitem_view(it)),
{
    let ghost itg: Result<(PathInfo, Block), Error> = it;
    let ghost before: Seq<Result<(PathInfo, Block), Error>> = items@;
    items.push(it);
    proof {
        assert(items@ == before.push(itg));
        lemma_plexitems_snoc(before, items@, itg);
    }
}

/// Rebracketing a concatenation around one pushed emission.
proof fn lemma_plex_concat_push(a: Seq<PlexItemSpec>, x: PlexItemSpec, b: Seq<PlexItemSpec>)
    ensures
        a + (seq![x] + b) == a.push(x) + b,
{
    assert(a + (seq![x] + b) =~= a.push(x) + b);
}

/// Builds the emissions of the single-block shape.
fn plex_one(block: Block, paths: &Vec<Result<PathInfo, String>>) -> (r: Vec<
    Result<(PathInfo, Block), Error>,
>)
    ensures
        plexitems_view(r@) == one_spec(Some(block@), presults_view(paths@)),
{
    let n: usize = paths.len();
    proof {
        crate::sorter::lemma_presults_view_len(paths@);
    }
    let ghost pview: Seq<Result<(Seq<char>, Option<u64>), Seq<char>>> = presults_view(paths@);
    let ghost full: Seq<PlexItemSpec> = one_spec(Some(block@), pview);
    let mut items: Vec<Result<(PathInfo, Block), Error>> = Vec::new();
    let mut ob: Option<Block> = Some(block);
    let mut i: usize = 0;
    proof {
        assert(pview.subrange(0, n as int) =~= pview);
        assert(plexitems_view(items@) =~= Seq::<PlexItemSpec>::empty());
        assert(Seq::<PlexItemSpec>::empty() + one_spec(opt_block_view(ob), pview) =~= one_spec(
            opt_block_view(ob),
            pview,
        ));
    }
    while i < n
        invariant
            n == paths@.len(),
            pview == presults_view(paths@),
            pview.len() == n,
            i <= n,
            full == plexitems_view(items@) + one_spec(
                opt_block_view(ob),
                pview.subrange(i as int, n as int),
            ),
        decreases n - i,
    {
        let ghost rest = pview.subrange(i as int, n as int);
        let ghost items_before: Seq<Result<(PathInfo, Block), Error>> = items@;
        let ghost ob_before: Option<Seq<(Seq<char>, ValSpec)>> = opt_block_view(ob);
        proof {
            crate::sorter::lemma_presults_view_index(paths@, i as int);
            assert(rest[0] == pview[i as int]);
            assert(rest.subrange(1, rest.len() as int) =~= pview.subrange(
                i as int + 1,
                n as int,
            ));
        }
        match &paths[i] {
            Err(e) => {
                push_item(&mut items, Err(Error::Io(e.clone())));
                proof {
                    assert(plexitems_view(items@) =~= plexitems_view(items_before).push(
                        PlexItemSpec::IoErr(e@),
                    ));
                    assert(one_spec(ob_before, rest) == seq![PlexItemSpec::IoErr(e@)] + one_spec(
                        ob_before,
                        rest.subrange(1, rest.len() as int),
                    ));
                    lemma_plex_concat_push(
                        plexitems_view(items_before),
                        PlexItemSpec::IoErr(e@),
                        one_spec(ob_before, pview.subrange(i as int + 1, n as int)),
                    );
                }
            },
            Ok(p) => {
                let cur: Option<Block> = ob;
                ob = None;
                match cur {
                    Some(bb) => {
                        let ghost bv: Seq<(Seq<char>, ValSpec)> = bb@;
                        push_item(&mut items, Ok((p.duplicate(), bb)));
                        proof {
                                    assert(plexitems_view(items@) =~= plexitems_view(items_before).push(
                                PlexItemSpec::Pair(p@, bv),
                            ));
                            assert(one_spec(ob_before, rest) == seq![PlexItemSpec::Pair(p@, bv)]
                                + one_spec(
                                None::<Seq<(Seq<char>, ValSpec)>>,
                                rest.subrange(1, rest.len() as int),
                            ));
                            lemma_plex_concat_push(
                                plexitems_view(items_before),
                                PlexItemSpec::Pair(p@, bv),
                                one_spec(
                                    None::<Seq<(Seq<char>, ValSpec)>>,
                                    pview.subrange(i as int + 1, n as int),
                                ),
                            );
                        }
                    },
                    None => {
                        push_item(&mut items, Err(Error::UnusedItemPath(p.duplicate())));
                        proof {
                                    assert(plexitems_view(items@) =~= plexitems_view(items_before).push(
                                PlexItemSpec::UnusedPath(p@),
                            ));
                            assert(one_spec(ob_before, rest) == seq![PlexItemSpec::UnusedPath(p@)]
                                + one_spec(
                                None::<Seq<(Seq<char>, ValSpec)>>,
                                rest.subrange(1, rest.len() as int),
                            ));
                            lemma_plex_concat_push(
                                plexitems_view(items_before),
                                PlexItemSpec::UnusedPath(p@),
                                one_spec(
                                    None::<Seq<(Seq<char>, ValSpec)>>,
                                    pview.subrange(i as int + 1, n as int),
                                ),
                            );
                        }
                    },
                }
            },
        }
        i = i + 1;
    }
    proof {
        assert(pview.subrange(n as int, n as int) =~= Seq::<
            Result<(Seq<char>, Option<u64>), Seq<char>>,
        >::empty());
    }
    match ob {
        Some(bb) => {
            let ghost items_before: Seq<Result<(PathInfo, Block), Error>> = items@;
            let ghost bv: Seq<(Seq<char>, ValSpec)> = bb@;
            push_item(&mut items, Err(Error::UnusedBlock(bb)));
            proof {
                assert(plexitems_view(items@) =~= plexitems_view(items_before).push(
                    PlexItemSpec::UnusedBlockItem(bv),
                ));
                assert(plexitems_view(items_before) + seq![PlexItemSpec::UnusedBlockItem(bv)]
                    =~= plexitems_view(items@));
            }
        },
        None => {
            proof {
                assert(plexitems_view(items@) + Seq::<PlexItemSpec>::empty() =~= plexitems_view(
                    items@,
                ));
            }
        },
    }
    items
}

/// Builds the emissions of the positional sequence shape against an
/// already sorted path list.
fn plex_seq(blocks: Vec<Block>, paths: &Vec<Result<PathInfo, String>>) -> (r: Vec<
    Result<(PathInfo, Block), Error>,
>)
    ensures
        plexitems_view(r@) == seq_spec(
            crate::blocks::blockseq_view(blocks@),
            presults_view(paths@),
        ),
{
    let np: usize = paths.len();
    let nb: usize = blocks.len();
    proof {
        crate::sorter::lemma_presults_view_len(paths@);
        crate::blocks::lemma_blockseq_view_len(blocks@);
    }
    let ghost pview: Seq<Result<(Seq<char>, Option<u64>), Seq<char>>> = presults_view(paths@);
    let ghost bview: Seq<Seq<(Seq<char>, ValSpec)>> = crate::blocks::blockseq_view(blocks@);
    let ghost full: Seq<PlexItemSpec> = seq_spec(bview, pview);
    let mut items: Vec<Result<(PathInfo, Block), Error>> = Vec::new();
    let mut bi: usize = 0;
    let mut pi: usize = 0;
    proof {
        assert(pview.subrange(0, np as int) =~= pview);
        assert(bview.subrange(0, nb as int) =~= bview);
        assert(Seq::<PlexItemSpec>::empty() + seq_spec(bview, pview) =~= seq_spec(bview, pview));
    }
    while pi < np || bi < nb
        invariant
            np == paths@.len(),
            nb == blocks@.len(),
            pview == presults_view(paths@),
            bview == crate::blocks::blockseq_view(blocks@),
            pview.len() == np,
            bview.len() == nb,
            pi <= np,
            bi <= nb,
            full == plexitems_view(items@) + seq_spec(
                bview.subrange(bi as int, nb as int),
                pview.subrange(pi as int, np as int),
            ),
        decreases (np - pi) + (nb - bi),
    {
        let ghost prest = pview.subrange(pi as int, np as int);
        let ghost brest = bview.subrange(bi as int, nb as int);
        let ghost items_before: Seq<Result<(PathInfo, Block), Error>> = items@;
        proof {
            if pi < np {
                crate::sorter::lemma_presults_view_index(paths@, pi as int);
                assert(prest[0] == pview[pi as int]);
                assert(prest.subrange(1, prest.len() as int) =~= pview.subrange(
                    pi as int + 1,
                    np as int,
                ));
            }
            if bi < nb {
                crate::blocks::lemma_blockseq_view_index(blocks@, bi as int);
                assert(brest[0] == bview[bi as int]);
                assert(brest.subrange(1, brest.len() as int) =~= bview.subrange(
                    bi as int + 1,
                    nb as int,
                ));
            }
        }
        if pi >= np {
            // Paths are exhausted: the remaining blocks are unused.
            let b: Block = blocks[bi].duplicate();
            let ghost bv: Seq<(Seq<char>, ValSpec)> = b@;
            push_item(&mut items, Err(Error::UnusedBlock(b)));
            proof {
                assert(plexitems_view(items@) =~= plexitems_view(items_before).push(
                    PlexItemSpec::UnusedBlockItem(bv),
                ));
                assert(seq_spec(brest, prest) == seq![PlexItemSpec::UnusedBlockItem(bv)]
                    + seq_spec(bview.subrange(bi as int + 1, nb as int), prest));
                lemma_plex_concat_push(
                    plexitems_view(items_before),
                    PlexItemSpec::UnusedBlockItem(bv),
                    seq_spec(
                        bview.subrange(bi as int + 1, nb as int),
                        pview.subrange(pi as int, np as int),
                    ),
                );
            }
            bi = bi + 1;
        } else {
            match &paths[pi] {
                Err(e) => {
                    // A path error passes through without touching a block.
                    push_item(&mut items, Err(Error::Io(e.clone())));
                    proof {
                            assert(plexitems_view(items@) =~= plexitems_view(items_before).push(
                            PlexItemSpec::IoErr(e@),
                        ));
                        assert(seq_spec(brest, prest) == seq![PlexItemSpec::IoErr(e@)] + seq_spec(
                            bview.subrange(bi as int, nb as int),
                            pview.subrange(pi as int + 1, np as int),
                        ));
                        lemma_plex_concat_push(
                            plexitems_view(items_before),
                            PlexItemSpec::IoErr(e@),
                            seq_spec(
                                bview.subrange(bi as int, nb as int),
                                pview.subrange(pi as int + 1, np as int),
                            ),
                        );
                    }
                    pi = pi + 1;
                },
                Ok(p) => {
                    let ghost badv: int = if bi < nb {
                        bi as int + 1
                    } else {
                        bi as int
                    };
                    proof {
                        if bi >= nb {
                            assert(bview.subrange(bi as int, nb as int) =~= bview.subrange(
                                badv,
                                nb as int,
                            ));
                        }
                    }
                    if bi < nb {
                        let b: Block = blocks[bi].duplicate();
                        let ghost bv: Seq<(Seq<char>, ValSpec)> = b@;
                        push_item(&mut items, Ok((p.duplicate(), b)));
                        proof {
                                    assert(plexitems_view(items@) =~= plexitems_view(items_before).push(
                                PlexItemSpec::Pair(p@, bv),
                            ));
                            assert(seq_spec(brest, prest) == seq![PlexItemSpec::Pair(p@, bv)]
                                + seq_spec(
                                bview.subrange(badv, nb as int),
                                pview.subrange(pi as int + 1, np as int),
                            ));
                            lemma_plex_concat_push(
                                plexitems_view(items_before),
                                PlexItemSpec::Pair(p@, bv),
                                seq_spec(
                                    bview.subrange(badv, nb as int),
                                    pview.subrange(pi as int + 1, np as int),
                                ),
                            );
                        }
                    } else {
                        push_item(&mut items, Err(Error::UnusedItemPath(p.duplicate())));
                        proof {
                                    assert(plexitems_view(items@) =~= plexitems_view(items_before).push(
                                PlexItemSpec::UnusedPath(p@),
                            ));
                            assert(seq_spec(brest, prest) == seq![PlexItemSpec::UnusedPath(p@)]
                                + seq_spec(
                                bview.subrange(badv, nb as int),
                                pview.subrange(pi as int + 1, np as int),
                            ));
                            lemma_plex_concat_push(
                                plexitems_view(items_before),
                                PlexItemSpec::UnusedPath(p@),
                                seq_spec(
                                    bview.subrange(badv, nb as int),
                                    pview.subrange(pi as int + 1, np as int),
                                ),
                            );
                        }
                    }
                    pi = pi + 1;
                    bi = if bi < nb {
                        bi + 1
                    } else {
                        bi
                    };
                },
            }
        }
    }
    proof {
        assert(pview.subrange(np as int, np as int) =~= Seq::<
            Result<(Seq<char>, Option<u64>), Seq<char>>,
        >::empty());
        assert(bview.subrange(nb as int, nb as int) =~= Seq::<
            Seq<(Seq<char>, ValSpec)>,
        >::empty());
        assert(plexitems_view(items@) + Seq::<PlexItemSpec>::empty() =~= plexitems_view(items@));
    }
    items
}

/// Builds the emissions of the keyed mapping shape.
fn plex_map(m: BlockMapping, paths: &Vec<Result<PathInfo, String>>) -> (r: Vec<
    Result<(PathInfo, Block), Error>,
>)
    requires
        m.wf(),
    ensures
        plexitems_view(r@) == map_spec(m@, presults_view(paths@)),
{
    let np: usize = paths.len();
    proof {
        crate::sorter::lemma_presults_view_len(paths@);
    }
    let ghost pview: Seq<Result<(Seq<char>, Option<u64>), Seq<char>>> = presults_view(paths@);
    let ghost full: Seq<PlexItemSpec> = map_spec(m@, pview);
    let mut items: Vec<Result<(PathInfo, Block), Error>> = Vec::new();
    let mut mapping: BlockMapping = m;
    let mut pi: usize = 0;
    proof {
        assert(pview.subrange(0, np as int) =~= pview);
        assert(Seq::<PlexItemSpec>::empty() + map_spec(mapping@, pview) =~= map_spec(
            mapping@,
            pview,
        ));
    }
    while pi < np
        invariant
            np == paths@.len(),
            pview == presults_view(paths@),
            pview.len() == np,
            pi <= np,
            mapping.wf(),
            full == plexitems_view(items@) + map_spec(
                mapping@,
                pview.subrange(pi as int, np as int),
            ),
        decreases np - pi,
    {
        let ghost prest = pview.subrange(pi as int, np as int);
        let ghost items_before: Seq<Result<(PathInfo, Block), Error>> = items@;
        let ghost m_before: Seq<(Seq<char>, Seq<(Seq<char>, ValSpec)>)> = mapping@;
        proof {
            crate::sorter::lemma_presults_view_index(paths@, pi as int);
            assert(prest[0] == pview[pi as int]);
            assert(prest.subrange(1, prest.len() as int) =~= pview.subrange(
                pi as int + 1,
                np as int,
            ));
        }
        match &paths[pi] {
            Err(e) => {
                push_item(&mut items, Err(Error::Io(e.clone())));
                proof {
                    assert(plexitems_view(items@) =~= plexitems_view(items_before).push(
                        PlexItemSpec::IoErr(e@),
                    ));
                    lemma_plex_concat_push(
                        plexitems_view(items_before),
                        PlexItemSpec::IoErr(e@),
                        map_spec(mapping@, pview.subrange(pi as int + 1, np as int)),
                    );
                }
            },
            Ok(p) => {
                let name: String = crate::sorter::last_component_of(&p.path);
                if name.as_str().unicode_len() == 0 {
                    push_item(&mut items, Err(Error::NamelessItemPath(p.duplicate())));
                    proof {
                            assert(plexitems_view(items@) =~= plexitems_view(items_before).push(
                            PlexItemSpec::Nameless(p@),
                        ));
                        lemma_plex_concat_push(
                            plexitems_view(items_before),
                            PlexItemSpec::Nameless(p@),
                            map_spec(mapping@, pview.subrange(pi as int + 1, np as int)),
                        );
                    }
                } else {
                    match mapping.remove_by_name(&name) {
                        Some(b) => {
                            let ghost bv: Seq<(Seq<char>, ValSpec)> = b@;
                            push_item(&mut items, Ok((p.duplicate(), b)));
                            proof {
                                            assert(plexitems_view(items@) =~= plexitems_view(
                                    items_before,
                                ).push(PlexItemSpec::Pair(p@, bv)));
                                assert(mapping@ == crate::blocks::assoc_remove(
                                    m_before,
                                    last_component(p@.0),
                                ));
                                lemma_plex_concat_push(
                                    plexitems_view(items_before),
                                    PlexItemSpec::Pair(p@, bv),
                                    map_spec(
                                        mapping@,
                                        pview.subrange(pi as int + 1, np as int),
                                    ),
                                );
                            }
                        },
                        None => {
                            push_item(&mut items, Err(Error::UnusedItemPath(p.duplicate())));
                            proof {
                                            assert(plexitems_view(items@) =~= plexitems_view(
                                    items_before,
                                ).push(PlexItemSpec::UnusedPath(p@)));
                                lemma_plex_concat_push(
                                    plexitems_view(items_before),
                                    PlexItemSpec::UnusedPath(p@),
                                    map_spec(
                                        mapping@,
                                        pview.subrange(pi as int + 1, np as int),
                                    ),
                                );
                            }
                        },
                    }
                }
            },
        }
        pi = pi + 1;
    }
    proof {
        assert(pview.subrange(np as int, np as int) =~= Seq::<
            Result<(Seq<char>, Option<u64>), Seq<char>>,
        >::empty());
    }
    // The paths are exhausted: report the entries still in the mapping.
    let mut left: usize = mapping.len();
    while left > 0
        invariant
            left == mapping@.len(),
            mapping.wf(),
            full == plexitems_view(items@) + map_spec(
                mapping@,
                Seq::<Result<(Seq<char>, Option<u64>), Seq<char>>>::empty(),
            ),
        decreases left,
    {
        let ghost items_before: Seq<Result<(PathInfo, Block), Error>> = items@;
        let ghost m_before: Seq<(Seq<char>, Seq<(Seq<char>, ValSpec)>)> = mapping@;
        match mapping.pop_front() {
            Some((tag, b)) => {
                let ghost bv: Seq<(Seq<char>, ValSpec)> = b@;
                let ghost tv: Seq<char> = tag@;
                push_item(&mut items, Err(Error::UnusedTaggedBlock(b, tag)));
                proof {
                    assert(plexitems_view(items@) =~= plexitems_view(items_before).push(
                        PlexItemSpec::UnusedTagged(bv, tv),
                    ));
                    assert((tv, bv) == m_before[0]);
                    lemma_plex_concat_push(
                        plexitems_view(items_before),
                        PlexItemSpec::UnusedTagged(bv, tv),
                        map_spec(
                            mapping@,
                            Seq::<Result<(Seq<char>, Option<u64>), Seq<char>>>::empty(),
                        ),
                    );
                }
                left = left - 1;
            },
            None => {
                proof {
                    assert(false);
                }
            },
        }
    }
    proof {
        assert(plexitems_view(items@) + Seq::<PlexItemSpec>::empty() =~= plexitems_view(items@));
    }
    items
}

/// What a plexer bound to a schema and path list emits, in order.  The
/// sequence shape sees the paths sorted under the given sorter, errors
/// first; the other shapes see them as handed in.
pub open spec fn plex_spec(
    schema: MetaStructure,
    paths: Seq<Result<(Seq<char>, Option<u64>), Seq<char>>>,
    sorter: Sorter,
) -> Seq<PlexItemSpec> {
    match schema {
        MetaStructure::One(b) => one_spec(Some(b@), paths),
        MetaStructure::Sequence(bs) => seq_spec(
            crate::blocks::blockseq_view(bs@),
            errs_as_results(errs_of(paths)) + oks_as_results(sort_spec(sorter, oks_of(paths))),
        ),
        MetaStructure::Mapping(m) => map_spec(m@, paths),
    }
}

/// A plexer bound to one parsed sidecar shape: the single-block shape, the
/// positional sequence, or the keyed mapping.
#[derive(Debug)]
pub enum Plexer {
    One(PlexState),
    Sequence(PlexState),
    Mapping(PlexState),
}

impl Plexer {
    /// The emissions still to come, in order.
    pub open spec fn remaining(self) -> Seq<PlexItemSpec> {
        match self {
            Plexer::One(st) => st.remaining(),
            Plexer::Sequence(st) => st.remaining(),
            Plexer::Mapping(st) => st.remaining(),
        }
    }

    /// Binds a parsed sidecar shape to a list of candidate path results.
    /// The sequence shape sorts the paths under the given sorter first.
    pub fn new(
        schema: MetaStructure,
        file_path_results: Vec<Result<PathInfo, String>>,
        sorter: &Sorter,
    ) -> (r: Plexer)
        requires
            schema.wf(),
        ensures
            r.remaining() == plex_spec(schema, presults_view(file_path_results@), *sorter),
    {
        match schema {
            MetaStructure::One(b) => {
                let items = plex_one(b, &file_path_results);
                Plexer::One(PlexState::from_items(items))
            },
            MetaStructure::Sequence(bs) => {
                let mut sorted: Vec<Result<PathInfo, String>> = file_path_results;
                let ghost pview = presults_view(sorted@);
                sorter.sort_path_results(&mut sorted);
                let items = plex_seq(bs, &sorted);
                Plexer::Sequence(PlexState::from_items(items))
            },
            MetaStructure::Mapping(m) => {
                let items = plex_map(m, &file_path_results);
                Plexer::Mapping(PlexState::from_items(items))
            },
        }
    }

    /// Takes all remaining emissions at once, in order.
    pub fn into_items(self) -> (r: Vec<Result<(PathInfo, Block), Error>>)
        ensures
            plexitems_view(r@) == self.remaining(),
    {
        match self {
            Plexer::One(st) => st.into_items(),
            Plexer::Sequence(st) => st.into_items(),
            Plexer::Mapping(st) => st.into_items(),
        }
    }

    /// Hands out the next emission: a `(path, block)` pair or an error.
    pub fn next(&mut self) -> (r: Option<Result<(PathInfo, Block), Error>>)
        ensures
            match r {
                Some(it) => {
                    &&& old(self).remaining().len() > 0
                    &&& plexitem_view(it) == old(self).remaining()[0]
                    &&& final(self).remaining() == old(self).remaining().subrange(
                        1,
                        old(self).remaining().len() as int,
                    )
                },
                None => {
                    &&& old(self).remaining().len() == 0
                    &&& final(self).remaining() == old(self).remaining()
                },
            },
    {
        match self {
            Plexer::One(st) => st.next_item(),
            Plexer::Sequence(st) => st.next_item(),
            Plexer::Mapping(st) => st.next_item(),
        }
    }
}

} // verus!
