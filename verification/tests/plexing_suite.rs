//! Binding blocks to paths, merging ancestor levels, and collecting a
//! field from a walked sub-tree.

use metatree::aggregator::AggMethod;
use metatree::aggregator::FsNode;
use metatree::aggregator::MetaAggregator;
use metatree::blocks::Block;
use metatree::blocks::BlockMapping;
use metatree::blocks::MetaStructure;
use metatree::plexer::Error as PlexError;
use metatree::plexer::Plexer;
use metatree::processor::merge_blocks;
use metatree::sorter::PathInfo;
use metatree::sorter::SortBy;
use metatree::sorter::SortOrder;
use metatree::sorter::Sorter;
use metatree::values::MetaVal;

fn s(x: &str) -> MetaVal {
    MetaVal::Str(x.to_string())
}

fn i(x: i64) -> MetaVal {
    MetaVal::Int(x)
}

fn block(pairs: Vec<(&str, MetaVal)>) -> Block {
    let mut b = Block::new();
    for (k, v) in pairs {
        b.insert(k.to_string(), v);
    }
    b
}

fn sorter() -> Sorter {
    Sorter { sort_by: SortBy::Name, sort_order: SortOrder::Ascending }
}

fn ok_path(p: &str) -> Result<PathInfo, String> {
    Ok(PathInfo::new(p.to_string()))
}

#[test]
fn plex() {
    let block_a = block(vec![
        ("key_1a", s("val_1a")),
        ("key_1b", s("val_1b")),
        ("key_1c", s("val_1c")),
    ]);
    let block_b = block(vec![
        ("key_2a", s("val_2a")),
        ("key_2b", s("val_2b")),
        ("key_2c", s("val_2c")),
    ]);
    let block_c = block(vec![
        ("key_3a", s("val_3a")),
        ("key_3b", s("val_3b")),
        ("key_3c", s("val_3c")),
    ]);

    let mut block_map = BlockMapping::new();
    block_map.push_entry("item_c".to_string(), block_c);
    block_map.push_entry("item_a".to_string(), block_a.duplicate());
    block_map.push_entry("item_b".to_string(), block_b);

    // Single schema: one block pairs with one path.
    let schema = MetaStructure::One(block_a);
    let res_paths = vec![ok_path("item_a")];
    let mut plexer = Plexer::new(schema, res_paths, &sorter());
    assert!(matches!(plexer.next(), Some(Ok((_, _)))));
    assert!(plexer.next().is_none());

    // Mapping schema: each path takes the block under its file name.
    let schema = MetaStructure::Mapping(block_map);
    let res_paths = vec![ok_path("dir/item_a"), ok_path("dir/item_b")];
    let mut plexer = Plexer::new(schema, res_paths, &sorter());
    match plexer.next() {
        Some(Ok((p, b))) => {
            assert_eq!("dir/item_a", p.path);
            assert_eq!(Some(&s("val_1a")), b.get(&"key_1a".to_string()));
        },
        _ => panic!("unexpected plex item"),
    }
    match plexer.next() {
        Some(Ok((p, b))) => {
            assert_eq!("dir/item_b", p.path);
            assert_eq!(Some(&s("val_2b")), b.get(&"key_2b".to_string()));
        },
        _ => panic!("unexpected plex item"),
    }
    match plexer.next() {
        Some(Err(PlexError::UnusedTaggedBlock(_, tag))) => {
            assert_eq!("item_c", tag);
        },
        _ => panic!("unexpected plex item"),
    }
    assert!(plexer.next().is_none());
}

#[test]
fn seq_schema_zips_blocks_with_sorted_paths() {
    // Three blocks against two sorted paths: two pairs, then the spare
    // block is reported unused.
    let b1 = block(vec![("k", i(1))]);
    let b2 = block(vec![("k", i(2))]);
    let b3 = block(vec![("k", i(3))]);
    let schema = MetaStructure::Sequence(vec![b1, b2, b3]);
    let res_paths = vec![ok_path("p1"), ok_path("p2")];
    let mut plexer = Plexer::new(schema, res_paths, &sorter());

    match plexer.next() {
        Some(Ok((p, b))) => {
            assert_eq!("p1", p.path);
            assert_eq!(Some(&i(1)), b.get(&"k".to_string()));
        },
        _ => panic!("unexpected plex item"),
    }
    match plexer.next() {
        Some(Ok((p, b))) => {
            assert_eq!("p2", p.path);
            assert_eq!(Some(&i(2)), b.get(&"k".to_string()));
        },
        _ => panic!("unexpected plex item"),
    }
    match plexer.next() {
        Some(Err(PlexError::UnusedBlock(b))) => {
            assert_eq!(Some(&i(3)), b.get(&"k".to_string()));
        },
        _ => panic!("unexpected plex item"),
    }
    assert!(plexer.next().is_none());
}

fn err_path(msg: &str) -> Result<PathInfo, String> {
    Err(msg.to_string())
}

#[test]
fn path_error_passes_through_single_schema() {
    // A path producer error passes through transparently: the block is
    // not consumed by it and still pairs with the next successful path.
    let schema = MetaStructure::One(block(vec![("k", i(1))]));
    let res_paths = vec![err_path("cannot list"), ok_path("item_a")];
    let mut plexer = Plexer::new(schema, res_paths, &sorter());
    match plexer.next() {
        Some(Err(PlexError::Io(msg))) => assert_eq!("cannot list", msg),
        _ => panic!("unexpected plex item"),
    }
    match plexer.next() {
        Some(Ok((p, b))) => {
            assert_eq!("item_a", p.path);
            assert_eq!(Some(&i(1)), b.get(&"k".to_string()));
        },
        _ => panic!("unexpected plex item"),
    }
    assert!(plexer.next().is_none());
}

#[test]
fn path_error_passes_through_sequence_schema() {
    // Errors sort ahead of the successful paths; each passes through
    // without consuming a block, so the single block still pairs.
    let schema = MetaStructure::Sequence(vec![block(vec![("k", i(7))])]);
    let res_paths = vec![ok_path("p1"), err_path("denied")];
    let mut plexer = Plexer::new(schema, res_paths, &sorter());
    match plexer.next() {
        Some(Err(PlexError::Io(msg))) => assert_eq!("denied", msg),
        _ => panic!("unexpected plex item"),
    }
    match plexer.next() {
        Some(Ok((p, b))) => {
            assert_eq!("p1", p.path);
            assert_eq!(Some(&i(7)), b.get(&"k".to_string()));
        },
        _ => panic!("unexpected plex item"),
    }
    assert!(plexer.next().is_none());
}

#[test]
fn map_schema_reports_a_nameless_path() {
    let mut block_map = BlockMapping::new();
    block_map.push_entry("song".to_string(), block(vec![("k", i(1))]));
    let schema = MetaStructure::Mapping(block_map);
    // A path ending in a separator has no usable file name.
    let res_paths = vec![ok_path("dir/")];
    let mut plexer = Plexer::new(schema, res_paths, &sorter());
    assert!(matches!(plexer.next(), Some(Err(PlexError::NamelessItemPath(_)))));
    assert!(matches!(plexer.next(), Some(Err(PlexError::UnusedTaggedBlock(_, _)))));
    assert!(plexer.next().is_none());
}

#[test]
fn merge_applies_deepest_level_first_seen() {
    // Ancestor levels root to leaf, as in a tree `root/a/b`: the self
    // sidecars of root, `a`, and `b`, and the siblings entry for `b`.
    let levels = vec![
        block(vec![("x", s("R"))]),
        block(vec![("x", s("A")), ("y", s("A"))]),
        block(vec![("y", s("B"))]),
        block(vec![("z", s("Z"))]),
    ];
    let merged = merge_blocks(&levels);

    assert_eq!(Some(&s("A")), merged.get(&"x".to_string()));
    assert_eq!(Some(&s("B")), merged.get(&"y".to_string()));
    assert_eq!(Some(&s("Z")), merged.get(&"z".to_string()));
    assert_eq!(None, merged.get(&"w".to_string()));
    assert_eq!(3, merged.len());

    // Insertion order is first seen: x from the root, then y, then z.
    assert_eq!("x", merged.entry_at(0).0);
    assert_eq!("y", merged.entry_at(1).0);
    assert_eq!("z", merged.entry_at(2).0);
}

fn leaf(path: &str, fields: Vec<(&str, MetaVal)>) -> FsNode {
    FsNode {
        path: PathInfo::new(path.to_string()),
        is_dir: false,
        block: block(fields),
        children: Vec::new(),
    }
}

#[test]
fn aggregator_emits_at_defining_node_without_descending() {
    // The item node itself defines the field: its value is emitted and
    // the children beneath it are never consulted.
    let node = FsNode {
        path: PathInfo::new("root/item".to_string()),
        is_dir: true,
        block: block(vec![("artist", s("X"))]),
        children: vec![leaf("root/item/track", vec![("artist", s("Y"))])],
    };
    let produced = MetaAggregator::resolve_field_children(
        &node,
        &"artist".to_string(),
        AggMethod::First,
    );
    assert_eq!(s("X"), produced);
}

#[test]
fn aggregator_collects_descendants_in_walk_order() {
    let node = FsNode {
        path: PathInfo::new("root".to_string()),
        is_dir: true,
        block: block(vec![]),
        children: vec![
            leaf("root/a", vec![("artist", s("A"))]),
            FsNode {
                path: PathInfo::new("root/b".to_string()),
                is_dir: true,
                block: block(vec![]),
                children: vec![leaf("root/b/c", vec![("artist", s("C"))])],
            },
        ],
    };
    let produced = MetaAggregator::resolve_field_children(
        &node,
        &"artist".to_string(),
        AggMethod::Collect,
    );
    assert_eq!(MetaVal::Sequence(vec![s("A"), s("C")]), produced);

    let missing = MetaAggregator::resolve_field_children(
        &node,
        &"genre".to_string(),
        AggMethod::First,
    );
    assert_eq!(MetaVal::Nil, missing);
}

#[test]
fn test_aggregate() {
    let inputs_and_expected = vec![((AggMethod::First, vec![s("A")]), s("A"))];

    for (input, expected) in inputs_and_expected {
        let (method, values) = input;
        let produced = method.aggregate(values);
        assert_eq!(expected, produced);
    }
}

#[test]
fn resolve_field_removes_and_returns() {
    let mut b = block(vec![("artist", s("X")), ("title", s("T"))]);
    let got = MetaAggregator::resolve_field(&mut b, &"artist".to_string());
    assert_eq!(Some(s("X")), got);
    assert_eq!(None, b.get(&"artist".to_string()));
    assert_eq!(Some(&s("T")), b.get(&"title".to_string()));
    let missing = MetaAggregator::resolve_field(&mut b, &"artist".to_string());
    assert_eq!(None, missing);
}
