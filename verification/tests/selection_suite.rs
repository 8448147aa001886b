//! Selection behaviour: defaults, pattern matching, and directory
//! selection over plain listings.

use metatree::matcher::Matcher;
use metatree::selection::DirEntry;
use metatree::selection::EntryKind;
use metatree::selection::Selection;
use metatree::sorter::PathInfo;
use metatree::sorter::SortBy;
use metatree::sorter::SortOrder;
use metatree::sorter::Sorter;

fn strings(xs: &[&str]) -> Vec<String> {
    xs.iter().map(|s| s.to_string()).collect()
}

fn sel(inc_f: &[&str], exc_f: &[&str], inc_d: &[&str], exc_d: &[&str]) -> Selection {
    Selection::from_patterns(
        &strings(inc_f),
        &strings(exc_f),
        &strings(inc_d),
        &strings(exc_d),
    )
    .unwrap()
}

fn file_entry(path: &str) -> Result<DirEntry, String> {
    Ok(DirEntry { path: PathInfo::new(path.to_string()), kind: EntryKind::File })
}

#[test]
fn default() {
    let selection = Selection::default();

    assert!(selection.is_file_pattern_match(&"all".to_string()));
    assert!(selection.is_file_pattern_match(&"files".to_string()));
    assert!(selection.is_file_pattern_match(&"should".to_string()));
    assert!(selection.is_file_pattern_match(&"pass".to_string()));
    assert!(selection.is_file_pattern_match(&"except".to_string()));
    assert!(selection.is_file_pattern_match(&"for".to_string()));
    assert!(selection.is_file_pattern_match(&"these".to_string()));
    assert!(!selection.is_file_pattern_match(&"item".to_string()));
    assert!(!selection.is_file_pattern_match(&"self".to_string()));

    assert!(selection.is_dir_pattern_match(&"all".to_string()));
    assert!(selection.is_dir_pattern_match(&"dirs".to_string()));
    assert!(selection.is_dir_pattern_match(&"should".to_string()));
    assert!(selection.is_dir_pattern_match(&"pass".to_string()));
    assert!(selection.is_dir_pattern_match(&"even".to_string()));
    assert!(selection.is_dir_pattern_match(&"including".to_string()));
    assert!(selection.is_dir_pattern_match(&"item".to_string()));
    assert!(selection.is_dir_pattern_match(&"self".to_string()));
}

#[test]
fn is_pattern_match() {
    let selection = sel(&["*.flac"], &["*.mp3"], &["*"], &[]);

    assert_eq!(selection.is_file_pattern_match(&"path/to/music.flac".to_string()), true);
    assert_eq!(selection.is_file_pattern_match(&"path/to/music.mp3".to_string()), false);
    assert_eq!(selection.is_file_pattern_match(&"path/to/music.wav".to_string()), false);

    let selection = sel(&["*.flac", "*.wav"], &["*.mp3", "*.ogg"], &["*"], &[]);

    assert_eq!(selection.is_file_pattern_match(&"path/to/music.flac".to_string()), true);
    assert_eq!(selection.is_file_pattern_match(&"path/to/music.wav".to_string()), true);
    assert_eq!(selection.is_file_pattern_match(&"path/to/music.mp3".to_string()), false);
    assert_eq!(selection.is_file_pattern_match(&"path/to/music.ogg".to_string()), false);
    assert_eq!(selection.is_file_pattern_match(&"path/to/music.aac".to_string()), false);

    let selection = sel(&["*"], &["*.mp3", "*.ogg"], &["*"], &[]);

    assert_eq!(selection.is_file_pattern_match(&"path/to/music.flac".to_string()), true);
    assert_eq!(selection.is_file_pattern_match(&"path/to/music.wav".to_string()), true);
    assert_eq!(selection.is_file_pattern_match(&"path/to/music.aac".to_string()), true);
    assert_eq!(selection.is_file_pattern_match(&"path/to/music.mpc".to_string()), true);
    assert_eq!(selection.is_file_pattern_match(&"path/to/music.mp3".to_string()), false);
    assert_eq!(selection.is_file_pattern_match(&"path/to/music.ogg".to_string()), false);

    let selection = sel(&["*.flac", "*.wav"], &["item*", "self*"], &["*"], &[]);

    assert_eq!(selection.is_file_pattern_match(&"path/to/music.flac".to_string()), true);
    assert_eq!(selection.is_file_pattern_match(&"path/to/music.wav".to_string()), true);
    assert_eq!(selection.is_file_pattern_match(&"path/to/item.flac".to_string()), false);
    assert_eq!(selection.is_file_pattern_match(&"path/to/self.flac".to_string()), false);
    assert_eq!(selection.is_file_pattern_match(&"path/to/music.aac".to_string()), false);
    assert_eq!(selection.is_file_pattern_match(&"path/to/music.mpc".to_string()), false);
    assert_eq!(selection.is_file_pattern_match(&"path/to/music.mp3".to_string()), false);
    assert_eq!(selection.is_file_pattern_match(&"path/to/music.ogg".to_string()), false);
}

fn listing() -> Vec<Result<DirEntry, String>> {
    vec![
        file_entry("music.flac"),
        file_entry("music.wav"),
        file_entry("music.aac"),
        file_entry("music.mp3"),
        file_entry("music.ogg"),
        file_entry("item"),
        file_entry("self"),
        file_entry("item.yml"),
        file_entry("self.yml"),
        file_entry("item.flac"),
        file_entry("self.flac"),
    ]
}

fn selected_paths(selection: &Selection, entries: Vec<Result<DirEntry, String>>) -> Vec<String> {
    selection
        .select_in_dir(entries)
        .into_iter()
        .map(|res| res.expect("unexpected IO error").path)
        .collect()
}

#[test]
fn select_in_dir() {
    let inputs_and_expected: Vec<((Vec<&str>, Vec<&str>, Vec<&str>, Vec<&str>), Vec<&str>)> = vec![
        (
            (vec!["music*"], vec!["*.mp3", "*.ogg", "*.aac"], vec!["*"], vec![]),
            vec!["music.flac", "music.wav"],
        ),
        (
            (vec!["*.flac"], vec![], vec!["*"], vec![]),
            vec!["music.flac", "item.flac", "self.flac"],
        ),
        (
            (vec!["music*"], vec![], vec!["*"], vec![]),
            vec!["music.flac", "music.wav", "music.aac", "music.mp3", "music.ogg"],
        ),
        (
            (vec!["item.*", "self.*"], vec!["*.flac"], vec!["*"], vec![]),
            vec!["item.yml", "self.yml"],
        ),
    ];

    for (input, expected) in inputs_and_expected {
        let (inc_f, exc_f, inc_d, exc_d) = input;
        let selection = sel(&inc_f, &exc_f, &inc_d, &exc_d);
        let mut produced = selected_paths(&selection, listing());
        let mut expected: Vec<String> = expected.into_iter().map(|s| s.to_string()).collect();
        produced.sort();
        expected.sort();
        assert_eq!(expected, produced);
    }
}

#[test]
fn select_in_dir_sorted() {
    let sorter = Sorter { sort_by: SortBy::Name, sort_order: SortOrder::Ascending };

    let inputs_and_expected: Vec<((Vec<&str>, Vec<&str>, Vec<&str>, Vec<&str>), Vec<&str>)> = vec![
        (
            (vec!["music*"], vec!["*.mp3", "*.ogg", "*.aac"], vec!["*"], vec![]),
            vec!["music.flac", "music.wav"],
        ),
        (
            (vec!["*.flac"], vec![], vec!["*"], vec![]),
            vec!["item.flac", "music.flac", "self.flac"],
        ),
        (
            (vec!["music*"], vec![], vec!["*"], vec![]),
            vec!["music.aac", "music.flac", "music.mp3", "music.ogg", "music.wav"],
        ),
        (
            (vec!["item.*", "self.*"], vec!["*.flac"], vec!["*"], vec![]),
            vec!["item.yml", "self.yml"],
        ),
    ];

    for (input, expected) in inputs_and_expected {
        let (inc_f, exc_f, inc_d, exc_d) = input;
        let selection = sel(&inc_f, &exc_f, &inc_d, &exc_d);
        let produced: Vec<String> = selection
            .select_in_dir_sorted(listing(), sorter)
            .into_iter()
            .map(|res| res.expect("unexpected IO error").path)
            .collect();
        let expected: Vec<String> = expected.into_iter().map(|s| s.to_string()).collect();
        assert_eq!(expected, produced);
    }
}

#[test]
fn include_and_exclude_compose() {
    // A configuration's flac-only include with an item exclude keeps
    // just the plain music file: the sidecar stems are always excluded
    // on top of the user's patterns.
    let selection = Selection::from_config_patterns(
        &strings(&["*.flac"]),
        &strings(&["item*"]),
        &strings(&["*"]),
        &strings(&[]),
    )
    .unwrap();
    let entries = vec![
        file_entry("music.flac"),
        file_entry("item.flac"),
        file_entry("self.flac"),
        file_entry("music.mp3"),
    ];
    let produced = selected_paths(&selection, entries);
    assert_eq!(vec!["music.flac".to_string()], produced);
}

#[test]
fn matching_sees_only_the_final_component() {
    // Two paths sharing a final component match identically, whatever
    // lies above them.
    let selection = sel(&["*.flac"], &["item*"], &["*"], &[]);
    for name in ["music.flac", "item.flac", "music.mp3"] {
        let shallow = format!("a/{}", name);
        let deep = format!("x/y/z/{}", name);
        assert_eq!(
            selection.is_file_pattern_match(&shallow),
            selection.is_file_pattern_match(&deep)
        );
        assert_eq!(
            selection.is_dir_pattern_match(&shallow),
            selection.is_dir_pattern_match(&deep)
        );
    }
}

#[test]
fn bad_class_pattern_is_rejected() {
    assert!(Matcher::build(&strings(&["music["])).is_err());
    assert!(Matcher::build(&strings(&["a[]b"])).is_err());
    assert!(Matcher::build(&strings(&["a[bc]d"])).is_ok());
}

#[test]
fn class_patterns_match_one_listed_character() {
    let m = Matcher::build(&strings(&["track_[12].flac"])).unwrap();
    assert!(m.is_match("track_1.flac"));
    assert!(m.is_match("track_2.flac"));
    assert!(!m.is_match("track_3.flac"));
    assert!(!m.is_match("track_12.flac"));
}

#[test]
fn question_mark_matches_exactly_one_character() {
    let m = Matcher::build(&strings(&["a?c"])).unwrap();
    assert!(m.is_match("abc"));
    assert!(m.is_match("axc"));
    assert!(!m.is_match("ac"));
    assert!(!m.is_match("abbc"));
}

#[test]
fn mod_time_sorting_orders_by_time_then_path() {
    let sorter = Sorter { sort_by: SortBy::ModTime, sort_order: SortOrder::Ascending };
    let mut paths = vec![
        PathInfo { path: "b".to_string(), mtime: Some(2) },
        PathInfo { path: "a".to_string(), mtime: Some(1) },
        PathInfo { path: "c".to_string(), mtime: Some(1) },
    ];
    sorter.sort_paths(&mut paths);
    let produced: Vec<&str> = paths.iter().map(|p| p.path.as_str()).collect();
    assert_eq!(produced, vec!["a", "c", "b"]);
}

#[test]
fn sorting_is_stable_for_equal_names() {
    // Two entries with the same name and path but different times tie
    // under the name order and must keep their relative order.
    let sorter = Sorter { sort_by: SortBy::Name, sort_order: SortOrder::Ascending };
    let mut paths = vec![
        PathInfo { path: "x/a".to_string(), mtime: Some(9) },
        PathInfo { path: "x/a".to_string(), mtime: Some(1) },
        PathInfo { path: "x/a".to_string(), mtime: Some(5) },
    ];
    sorter.sort_paths(&mut paths);
    let produced: Vec<Option<u64>> = paths.iter().map(|p| p.mtime).collect();
    assert_eq!(produced, vec![Some(9), Some(1), Some(5)]);
}
