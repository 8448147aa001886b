//! Selecting item files and directories: four glob matchers, applied to
//! the final component of a path.  A path is selected when its include
//! matcher accepts that component and its exclude matcher rejects it.

use vstd::prelude::*;

use crate::matcher::Error as MatcherError;
use crate::matcher::Matcher;
use crate::matcher::TokSpec;
use crate::matcher::glob_match;
use crate::matcher::matcher_matches;
use crate::matcher::parse_glob;
use crate::matcher::toks_view;
use crate::matcher::lemma_star_matches_all;
use crate::sorter::PathInfo;
use crate::sorter::Sorter;
use crate::sorter::last_component;
use crate::sorter::last_component_of;
use crate::sorter::presults_view;
use crate::sorter::errs_of;
use crate::sorter::oks_of;
use crate::sorter::errs_as_results;
use crate::sorter::oks_as_results;
use crate::sorter::sort_spec;
use crate::target::Target;
use crate::target::target_stem;

verus! {

/// Why a selection cannot be built.
#[derive(Debug)]
pub enum Error {
    /// A path that does not name a directory was handed in.
    InvalidDirPath(String),
    /// A matcher pattern that cannot be compiled.
    CannotBuildMatcher(MatcherError),
}

/// Whether a path is treated as a file or as a directory.
#[derive(Debug, Clone, Copy, PartialEq, Eq)]
pub enum FileOrDir {
    File,
    Dir,
}

/// What a directory listing shows for one entry, as the caller read it.
#[derive(Debug, Clone, Copy, PartialEq, Eq)]
pub enum EntryKind {
    /// A plain file.
    File,
    /// A directory.
    Dir,
    /// Anything else; such entries are never selected.
    Other,
}

/// One entry of a directory listing: its path and kind.
#[derive(Debug, PartialEq, Eq)]
pub struct DirEntry {
    pub path: PathInfo,
    pub kind: EntryKind,
}

impl View for DirEntry {
    type V = ((Seq<char>, Option<u64>), EntryKind);

    open spec fn view(&self) -> ((Seq<char>, Option<u64>), EntryKind) {
        (self.path@, self.kind)
    }
}

/// A type that represents included and excluded item files and
/// directories.
#[derive(Debug, PartialEq, Eq)]
pub struct Selection {
    pub include_files: Matcher,
    pub exclude_files: Matcher,
    pub include_dirs: Matcher,
    pub exclude_dirs: Matcher,
}

/// Whether a name passes an include matcher and fails an exclude matcher.
pub open spec fn pattern_match_spec(
    inc: Seq<Seq<TokSpec>>,
    exc: Seq<Seq<TokSpec>>,
    name: Seq<char>,
) -> bool {
    matcher_matches(inc, name) && !matcher_matches(exc, name)
}

/// Whether a selection accepts a path as a file, by its final component.
pub open spec fn file_match_spec(sel: Selection, path: Seq<char>) -> bool {
    pattern_match_spec(sel.include_files@, sel.exclude_files@, last_component(path))
}

/// Whether a selection accepts a path as a directory, by its final
/// component.
pub open spec fn dir_match_spec(sel: Selection, path: Seq<char>) -> bool {
    pattern_match_spec(sel.include_dirs@, sel.exclude_dirs@, last_component(path))
}

/// Whether every pattern of a list parses.
pub open spec fn patterns_ok(ps: Seq<String>) -> bool {
    forall|i: int| 0 <= i < ps.len() ==> (#[trigger] parse_glob(ps[i]@)) is Some
}

impl Selection {
    /// Assembles a selection from four compiled matchers.
    pub fn new(
        include_files: Matcher,
        exclude_files: Matcher,
        include_dirs: Matcher,
        exclude_dirs: Matcher,
    ) -> (r: Selection)
        ensures
            r.include_files@ == include_files@,
            r.exclude_files@ == exclude_files@,
            r.include_dirs@ == include_dirs@,
            r.exclude_dirs@ == exclude_dirs@,
    {
        Selection { include_files, exclude_files, include_dirs, exclude_dirs }
    }

    /// Compiles a selection from four pattern lists.  Fails exactly when
    /// some pattern is malformed.
    pub fn from_patterns(
        include_file_patterns: &Vec<String>,
        exclude_file_patterns: &Vec<String>,
        include_dir_patterns: &Vec<String>,
        exclude_dir_patterns: &Vec<String>,
    ) -> (r: Result<Selection, Error>)
        ensures
            match r {
                Ok(sel) => {
                    &&& patterns_ok(include_file_patterns@)
                    &&& patterns_ok(exclude_file_patterns@)
                    &&& patterns_ok(include_dir_patterns@)
                    &&& patterns_ok(exclude_dir_patterns@)
                    &&& sel.include_files@.len() == include_file_patterns@.len()
                    &&& forall|i: int|
                        0 <= i < include_file_patterns@.len() ==> parse_glob(
                            include_file_patterns@[i]@,
                        ) == Some(#[trigger] sel.include_files@[i])
                    &&& sel.exclude_files@.len() == exclude_file_patterns@.len()
                    &&& forall|i: int|
                        0 <= i < exclude_file_patterns@.len() ==> parse_glob(
                            exclude_file_patterns@[i]@,
                        ) == Some(#[trigger] sel.exclude_files@[i])
                    &&& sel.include_dirs@.len() == include_dir_patterns@.len()
                    &&& forall|i: int|
                        0 <= i < include_dir_patterns@.len() ==> parse_glob(
                            include_dir_patterns@[i]@,
                        ) == Some(#[trigger] sel.include_dirs@[i])
                    &&& sel.exclude_dirs@.len() == exclude_dir_patterns@.len()
                    &&& forall|i: int|
                        0 <= i < exclude_dir_patterns@.len() ==> parse_glob(
                            exclude_dir_patterns@[i]@,
                        ) == Some(#[trigger] sel.exclude_dirs@[i])
                },
                Err(e) => {
                    &&& e is CannotBuildMatcher
                    &&& !(patterns_ok(include_file_patterns@) && patterns_ok(
                        exclude_file_patterns@,
                    ) && patterns_ok(include_dir_patterns@) && patterns_ok(
                        exclude_dir_patterns@,
                    ))
                },
            },
    {
        let include_files: Matcher = match Matcher::build(include_file_patterns) {
            Ok(m) => m,
            Err(e) => {
                proof {
                    let w = choose|i: int|
                        0 <= i < include_file_patterns@.len() && parse_glob(#[trigger] include_file_patterns@[i]@)
                            == None::<Seq<TokSpec>>;
                    assert(!patterns_ok(include_file_patterns@));
                }
                return Err(Error::CannotBuildMatcher(e));
            },
        };
        let exclude_files: Matcher = match Matcher::build(exclude_file_patterns) {
            Ok(m) => m,
            Err(e) => {
                proof {
                    let w = choose|i: int|
                        0 <= i < exclude_file_patterns@.len() && parse_glob(#[trigger] exclude_file_patterns@[i]@)
                            == None::<Seq<TokSpec>>;
                    assert(!patterns_ok(exclude_file_patterns@));
                }
                return Err(Error::CannotBuildMatcher(e));
            },
        };
        let include_dirs: Matcher = match Matcher::build(include_dir_patterns) {
            Ok(m) => m,
            Err(e) => {
                proof {
                    let w = choose|i: int|
                        0 <= i < include_dir_patterns@.len() && parse_glob(#[trigger] include_dir_patterns@[i]@)
                            == None::<Seq<TokSpec>>;
                    assert(!patterns_ok(include_dir_patterns@));
                }
                return Err(Error::CannotBuildMatcher(e));
            },
        };
        let exclude_dirs: Matcher = match Matcher::build(exclude_dir_patterns) {
            Ok(m) => m,
            Err(e) => {
                proof {
                    let w = choose|i: int|
                        0 <= i < exclude_dir_patterns@.len() && parse_glob(#[trigger] exclude_dir_patterns@[i]@)
                            == None::<Seq<TokSpec>>;
                    assert(!patterns_ok(exclude_dir_patterns@));
                }
                return Err(Error::CannotBuildMatcher(e));
            },
        };
        proof {
            assert forall|i: int| 0 <= i < include_file_patterns@.len() implies (#[trigger]
            parse_glob(include_file_patterns@[i]@)) is Some by {
                assert(parse_glob(include_file_patterns@[i]@) == Some(include_files@[i]));
            }
            assert forall|i: int| 0 <= i < exclude_file_patterns@.len() implies (#[trigger]
            parse_glob(exclude_file_patterns@[i]@)) is Some by {
                assert(parse_glob(exclude_file_patterns@[i]@) == Some(exclude_files@[i]));
            }
            assert forall|i: int| 0 <= i < include_dir_patterns@.len() implies (#[trigger]
            parse_glob(include_dir_patterns@[i]@)) is Some by {
                assert(parse_glob(include_dir_patterns@[i]@) == Some(include_dirs@[i]));
            }
            assert forall|i: int| 0 <= i < exclude_dir_patterns@.len() implies (#[trigger]
            parse_glob(exclude_dir_patterns@[i]@)) is Some by {
                assert(parse_glob(exclude_dir_patterns@[i]@) == Some(exclude_dirs@[i]));
            }
        }
        Ok(Selection { include_files, exclude_files, include_dirs, exclude_dirs })
    }

    /// Compiles a selection the way a configuration document asks for
    /// one: the user's patterns, with the sidecar stems always excluded
    /// from the files on top of whatever the user excludes.
    pub fn from_config_patterns(
        include_file_patterns: &Vec<String>,
        exclude_file_patterns: &Vec<String>,
        include_dir_patterns: &Vec<String>,
        exclude_dir_patterns: &Vec<String>,
    ) -> (r: Result<Selection, Error>)
        ensures
            match r {
                Ok(sel) => {
                    &&& patterns_ok(include_file_patterns@)
                    &&& patterns_ok(exclude_file_patterns@)
                    &&& patterns_ok(include_dir_patterns@)
                    &&& patterns_ok(exclude_dir_patterns@)
                    &&& forall|name: Seq<char>|
                        #[trigger] matcher_matches(sel.exclude_files@, name) <==> (exists|i: int|
                            0 <= i < exclude_file_patterns@.len() && parse_glob(
                                (#[trigger] exclude_file_patterns@[i])@,
                            ) == Some(sel.exclude_files@[i]) && glob_match(
                                sel.exclude_files@[i],
                                name,
                            )) || starts_with(name, target_stem(Target::Parent)) || starts_with(
                            name,
                            target_stem(Target::Siblings),
                        )
                    &&& sel.include_files@.len() == include_file_patterns@.len()
                    &&& forall|i: int|
                        0 <= i < include_file_patterns@.len() ==> parse_glob(
                            include_file_patterns@[i]@,
                        ) == Some(#[trigger] sel.include_files@[i])
                    &&& sel.include_dirs@.len() == include_dir_patterns@.len()
                    &&& forall|i: int|
                        0 <= i < include_dir_patterns@.len() ==> parse_glob(
                            include_dir_patterns@[i]@,
                        ) == Some(#[trigger] sel.include_dirs@[i])
                    &&& sel.exclude_dirs@.len() == exclude_dir_patterns@.len()
                    &&& forall|i: int|
                        0 <= i < exclude_dir_patterns@.len() ==> parse_glob(
                            exclude_dir_patterns@[i]@,
                        ) == Some(#[trigger] sel.exclude_dirs@[i])
                },
                Err(e) => {
                    &&& e is CannotBuildMatcher
                    &&& !(patterns_ok(include_file_patterns@) && patterns_ok(
                        exclude_file_patterns@,
                    ) && patterns_ok(include_dir_patterns@) && patterns_ok(
                        exclude_dir_patterns@,
                    ))
                },
            },
    {
        let mut sel: Selection = match Selection::from_patterns(
            include_file_patterns,
            exclude_file_patterns,
            include_dir_patterns,
            exclude_dir_patterns,
        ) {
            Ok(sel) => sel,
            Err(e) => {
                return Err(e);
            },
        };
        let ghost user: Seq<Seq<TokSpec>> = sel.exclude_files@;
        let p1: Vec<crate::matcher::Tok> = prefix_pattern(Target::Parent.default_file_name());
        let ghost p1v: Seq<TokSpec> = toks_view(p1@);
        sel.exclude_files.push_pattern(p1);
        let p2: Vec<crate::matcher::Tok> = prefix_pattern(Target::Siblings.default_file_name());
        let ghost p2v: Seq<TokSpec> = toks_view(p2@);
        sel.exclude_files.push_pattern(p2);
        proof {
            let exc = sel.exclude_files@;
            assert(exc =~= user.push(p1v).push(p2v));
            assert(forall|i: int| 0 <= i < user.len() ==> #[trigger] exc[i] == user[i]);
            assert forall|name: Seq<char>|
                #[trigger] matcher_matches(exc, name) <==> (exists|i: int|
                    0 <= i < exclude_file_patterns@.len() && parse_glob(
                        (#[trigger] exclude_file_patterns@[i])@,
                    ) == Some(exc[i]) && glob_match(exc[i], name)) || starts_with(
                    name,
                    target_stem(Target::Parent),
                ) || starts_with(name, target_stem(Target::Siblings)) by {
                lemma_prefix_tokens_match(target_stem(Target::Parent), name);
                lemma_prefix_tokens_match(target_stem(Target::Siblings), name);
                if matcher_matches(exc, name) {
                    let i = choose|i: int| 0 <= i < exc.len() && glob_match(exc[i], name);
                    if i < user.len() {
                        assert(parse_glob(exclude_file_patterns@[i]@) == Some(exc[i]));
                    } else if i == user.len() {
                        assert(exc[i] == p1v);
                    } else {
                        assert(exc[i] == p2v);
                    }
                }
                if starts_with(name, target_stem(Target::Parent)) {
                    assert(glob_match(exc[user.len() as int], name));
                }
                if starts_with(name, target_stem(Target::Siblings)) {
                    assert(glob_match(exc[user.len() as int + 1], name));
                }
                if exists|i: int|
                    0 <= i < exclude_file_patterns@.len() && parse_glob(
                        (#[trigger] exclude_file_patterns@[i])@,
                    ) == Some(exc[i]) && glob_match(exc[i], name) {
                    let i = choose|i: int|
                        0 <= i < exclude_file_patterns@.len() && parse_glob(
                            (#[trigger] exclude_file_patterns@[i])@,
                        ) == Some(exc[i]) && glob_match(exc[i], name);
                    assert(matcher_matches(exc, name));
                }
            }
        }
        Ok(sel)
    }

    /// Whether the final component of a path passes the include matcher
    /// and fails the exclude matcher of the given kind.  Purely lexical:
    /// only the trailing component and the matchers decide.
    pub fn is_pattern_match(&self, path: &String, fod: FileOrDir) -> (r: bool)
        ensures
            r == match fod {
                FileOrDir::File => file_match_spec(*self, path@),
                FileOrDir::Dir => dir_match_spec(*self, path@),
            },
    {
        let name: String = last_component_of(path);
        let (inc, exc): (&Matcher, &Matcher) = match fod {
            FileOrDir::File => (&self.include_files, &self.exclude_files),
            FileOrDir::Dir => (&self.include_dirs, &self.exclude_dirs),
        };
        inc.is_match(name.as_str()) && !exc.is_match(name.as_str())
    }

    /// Whether the path matches as a file, by its final component only.
    pub fn is_file_pattern_match(&self, path: &String) -> (r: bool)
        ensures
            r == file_match_spec(*self, path@),
    {
        self.is_pattern_match(path, FileOrDir::File)
    }

    /// Whether the path matches as a directory, by its final component
    /// only.
    pub fn is_dir_pattern_match(&self, path: &String) -> (r: bool)
        ensures
            r == dir_match_spec(*self, path@),
    {
        self.is_pattern_match(path, FileOrDir::Dir)
    }
}

/// What selecting inside a directory keeps of a listing: files that match
/// as files, directories that match as directories, and every error, in
/// listing order.
pub open spec fn select_spec(
    sel: Selection,
    entries: Seq<Result<((Seq<char>, Option<u64>), EntryKind), Seq<char>>>,
) -> Seq<Result<(Seq<char>, Option<u64>), Seq<char>>>
    decreases entries.len(),
{
    if entries.len() == 0 {
        Seq::empty()
    } else {
        let rest = select_spec(sel, entries.subrange(1, entries.len() as int));
        match entries[0] {
            Err(e) => seq![Err::<(Seq<char>, Option<u64>), Seq<char>>(e)] + rest,
            Ok((p, kind)) => {
                let keep = match kind {
                    EntryKind::File => file_match_spec(sel, p.0),
                    EntryKind::Dir => dir_match_spec(sel, p.0),
                    EntryKind::Other => false,
                };
                if keep {
                    seq![Ok::<(Seq<char>, Option<u64>), Seq<char>>(p)] + rest
                } else {
                    rest
                }
            },
        }
    }
}

/// The views of a directory listing.
pub open spec fn entries_view_of(es: Seq<Result<DirEntry, String>>) -> Seq<
    Result<((Seq<char>, Option<u64>), EntryKind), Seq<char>>,
>
    decreases es,
{
    if es.len() == 0 {
        Seq::empty()
    } else {
        let head: Result<((Seq<char>, Option<u64>), EntryKind), Seq<char>> = match es[0] {
            Ok(e) => Ok(e@),
            Err(s) => Err(s@),
        };
        seq![head] + entries_view_of(es.subrange(1, es.len() as int))
    }
}

/// A listing's view has one element per entry, in order.
pub broadcast proof fn lemma_entries_view_of_len(es: Seq<Result<DirEntry, String>>)
    ensures
        #[trigger] entries_view_of(es).len() == es.len(),
    decreases es,
{
    if es.len() > 0 {
        lemma_entries_view_of_len(es.subrange(1, es.len() as int));
    }
}

impl Selection {
    /// Selects the paths of a directory listing that match this
    /// selection, keeping per-entry errors in place.
    pub fn select_in_dir(&self, entries: Vec<Result<DirEntry, String>>) -> (r: Vec<
        Result<PathInfo, String>,
    >)
        ensures
            presults_view(r@) == select_spec(*self, entries_view_of(entries@)),
    {
        let n: usize = entries.len();
        proof {
            lemma_entries_view_of_len(entries@);
        }
        let ghost inview: Seq<Result<((Seq<char>, Option<u64>), EntryKind), Seq<char>>> =
            entries_view_of(entries@);
        let mut out: Vec<Result<PathInfo, String>> = Vec::new();
        proof {
            assert(inview.subrange(0, n as int) =~= inview);
        }
        // Walk the listing front to back, keeping what the selection
        // accepts and every per-entry error.
        let remaining: Vec<Result<DirEntry, String>> = entries;
        let ghost entries_snapshot: Seq<Result<DirEntry, String>> = remaining@;
        let mut idx: usize = 0;
        while idx < n
            invariant
                n == remaining@.len(),
                remaining@ == entries_snapshot,
                inview == entries_view_of(entries_snapshot),
                inview.len() == n,
                idx <= n,
                select_spec(*self, inview) == presults_view(out@) + select_spec(
                    *self,
                    inview.subrange(idx as int, n as int),
                ),
            decreases n - idx,
        {
            let ghost rest = inview.subrange(idx as int, n as int);
            proof {
                lemma_entries_view_of_index(entries_snapshot, idx as int);
                assert(rest[0] == inview[idx as int]);
                assert(rest.subrange(1, rest.len() as int) =~= inview.subrange(
                    idx as int + 1,
                    n as int,
                ));
                crate::sorter::lemma_presults_view_len(out@);
            }
            let ghost out_before: Seq<Result<PathInfo, String>> = out@;
            match &remaining[idx] {
                Err(e) => {
                    out.push(Err(e.clone()));
                    proof {
                        lemma_presults_push_any(out_before, out@);
                        assert(presults_view(out@) =~= presults_view(out_before).push(
                            Err::<(Seq<char>, Option<u64>), Seq<char>>(e@),
                        ));
                        lemma_concat_push_front(
                            presults_view(out_before),
                            Err::<(Seq<char>, Option<u64>), Seq<char>>(e@),
                            select_spec(*self, inview.subrange(idx as int + 1, n as int)),
                        );
                    }
                },
                Ok(entry) => {
                    let keep: bool = match entry.kind {
                        EntryKind::File => self.is_file_pattern_match(&entry.path.path),
                        EntryKind::Dir => self.is_dir_pattern_match(&entry.path.path),
                        EntryKind::Other => false,
                    };
                    if keep {
                        out.push(Ok(entry.path.duplicate()));
                        proof {
                            lemma_presults_push_any(out_before, out@);
                            assert(presults_view(out@) =~= presults_view(out_before).push(
                                Ok::<(Seq<char>, Option<u64>), Seq<char>>(entry.path@),
                            ));
                            lemma_concat_push_front(
                                presults_view(out_before),
                                Ok::<(Seq<char>, Option<u64>), Seq<char>>(entry.path@),
                                select_spec(*self, inview.subrange(idx as int + 1, n as int)),
                            );
                        }
                    }
                },
            }
            idx = idx + 1;
        }
        proof {
            assert(inview.subrange(n as int, n as int) =~= Seq::<
                Result<((Seq<char>, Option<u64>), EntryKind), Seq<char>>,
            >::empty());
            assert(presults_view(out@) + Seq::<
                Result<(Seq<char>, Option<u64>), Seq<char>>,
            >::empty() =~= presults_view(out@));
        }
        out
    }

    /// Selects matching paths and sorts them: errors first in listing
    /// order, then the selected paths under the sorter's stable order.
    pub fn select_in_dir_sorted(
        &self,
        entries: Vec<Result<DirEntry, String>>,
        sorter: Sorter,
    ) -> (r: Vec<Result<PathInfo, String>>)
        ensures
            presults_view(r@) == errs_as_results(
                errs_of(select_spec(*self, entries_view_of(entries@))),
            ) + oks_as_results(
                sort_spec(sorter, oks_of(select_spec(*self, entries_view_of(entries@)))),
            ),
    {
        let mut selected: Vec<Result<PathInfo, String>> = self.select_in_dir(entries);
        sorter.sort_path_results(&mut selected);
        selected
    }
}

/// Indexing a listing's view gives the view of the indexed entry.
pub broadcast proof fn lemma_entries_view_of_index(es: Seq<Result<DirEntry, String>>, i: int)
    requires
        0 <= i < es.len(),
    ensures
        entries_view_of(es).len() == es.len(),
        #[trigger] entries_view_of(es)[i] == match es[i] {
            Ok(e) => Ok::<((Seq<char>, Option<u64>), EntryKind), Seq<char>>(e@),
            Err(s) => Err::<((Seq<char>, Option<u64>), EntryKind), Seq<char>>(s@),
        },
    decreases es,
{
    lemma_entries_view_of_len(es);
    if i > 0 {
        lemma_entries_view_of_index(es.subrange(1, es.len() as int), i - 1);
    }
}

/// Pushing one result appends its view.
proof fn lemma_presults_push_any(
    before: Seq<Result<PathInfo, String>>,
    after: Seq<Result<PathInfo, String>>,
)
    requires
        after.len() == before.len() + 1,
        forall|l: int| 0 <= l < before.len() ==> after[l] == before[l],
    ensures
        presults_view(after).len() == after.len(),
        forall|l: int|
            0 <= l < before.len() ==> presults_view(after)[l] == presults_view(before)[l],
        presults_view(after)[before.len() as int] == match after[before.len() as int] {
            Ok(p) => Ok::<(Seq<char>, Option<u64>), Seq<char>>(p@),
            Err(e) => Err::<(Seq<char>, Option<u64>), Seq<char>>(e@),
        },
{
    crate::sorter::lemma_presults_view_len(after);
    crate::sorter::lemma_presults_view_len(before);
    assert forall|l: int| 0 <= l < before.len() implies presults_view(after)[l] == presults_view(
        before,
    )[l] by {
        crate::sorter::lemma_presults_view_index(after, l);
        crate::sorter::lemma_presults_view_index(before, l);
    }
    crate::sorter::lemma_presults_view_index(after, before.len() as int);
}

/// Moving a pushed element across a concatenation.
proof fn lemma_concat_push_front(
    a: Seq<Result<(Seq<char>, Option<u64>), Seq<char>>>,
    x: Result<(Seq<char>, Option<u64>), Seq<char>>,
    b: Seq<Result<(Seq<char>, Option<u64>), Seq<char>>>,
)
    ensures
        a + (seq![x] + b) == a.push(x) + b,
{
    assert(a + (seq![x] + b) =~= a.push(x) + b);
}

/// The token sequence matching names that begin with a stem: one
/// single-character class per stem character, then a star.
pub open spec fn prefix_tokens(stem: Seq<char>) -> Seq<TokSpec>
    decreases stem.len(),
{
    if stem.len() == 0 {
        seq![TokSpec::Star]
    } else {
        seq![TokSpec::Class(seq![stem[0]])] + prefix_tokens(
            stem.subrange(1, stem.len() as int),
        )
    }
}

/// Whether a name begins with a stem.
pub open spec fn starts_with(name: Seq<char>, stem: Seq<char>) -> bool {
    name.len() >= stem.len() && name.subrange(0, stem.len() as int) == stem
}

/// A prefix pattern matches exactly the names that begin with its stem.
pub proof fn lemma_prefix_tokens_match(stem: Seq<char>, name: Seq<char>)
    ensures
        glob_match(prefix_tokens(stem), name) <==> starts_with(name, stem),
    decreases stem.len(),
{
    if stem.len() == 0 {
        lemma_star_matches_all(name);
        assert(name.subrange(0, 0) =~= Seq::<char>::empty());
        assert(stem =~= Seq::<char>::empty());
    } else {
        let ts = prefix_tokens(stem);
        assert(ts[0] == TokSpec::Class(seq![stem[0]]));
        assert(ts.subrange(1, ts.len() as int) =~= prefix_tokens(
            stem.subrange(1, stem.len() as int),
        )) by {
            lemma_prefix_tokens_len(stem.subrange(1, stem.len() as int));
        }
        if name.len() > 0 {
            lemma_prefix_tokens_match(
                stem.subrange(1, stem.len() as int),
                name.subrange(1, name.len() as int),
            );
            assert(seq![stem[0]].contains(name[0]) <==> name[0] == stem[0]) by {
                if seq![stem[0]].contains(name[0]) {
                    let w = choose|w: int|
                        0 <= w < 1 && seq![stem[0]][w] == name[0];
                }
                if name[0] == stem[0] {
                    assert(seq![stem[0]][0] == name[0]);
                }
            }
            let sl = stem.len() as int;
            let tail_n = name.subrange(1, name.len() as int);
            let tail_s = stem.subrange(1, sl);
            if name[0] == stem[0] && starts_with(tail_n, tail_s) {
                assert forall|l: int| 0 <= l < sl implies name.subrange(0, sl)[l] == stem[l] by {
                    if l > 0 {
                        assert(tail_n.subrange(0, sl - 1)[l - 1] == tail_n[l - 1]);
                        assert(tail_n[l - 1] == name[l]);
                        assert(tail_s[l - 1] == stem[l]);
                    }
                }
                assert(name.subrange(0, sl) =~= stem);
            }
            if starts_with(name, stem) {
                assert(name[0] == name.subrange(0, sl)[0]);
                assert forall|l: int| 0 <= l < sl - 1 implies tail_n.subrange(0, sl - 1)[l]
                    == tail_s[l] by {
                    assert(tail_n.subrange(0, sl - 1)[l] == tail_n[l]);
                    assert(tail_n[l] == name[l + 1]);
                    assert(name.subrange(0, sl)[l + 1] == name[l + 1]);
                    assert(tail_s[l] == stem[l + 1]);
                }
                assert(tail_n.subrange(0, sl - 1) =~= tail_s);
                assert(starts_with(tail_n, tail_s));
            }
        }
    }
}

/// A prefix pattern has one token per stem character, plus the star.
pub proof fn lemma_prefix_tokens_len(stem: Seq<char>)
    ensures
        prefix_tokens(stem).len() == stem.len() + 1,
    decreases stem.len(),
{
    if stem.len() > 0 {
        lemma_prefix_tokens_len(stem.subrange(1, stem.len() as int));
    }
}

/// Builds the compiled pattern matching names that begin with `stem`.
fn prefix_pattern(stem: &str) -> (r: Vec<crate::matcher::Tok>)
    ensures
        toks_view(r@) == prefix_tokens(stem@),
{
    let n: usize = stem.unicode_len();
    let mut out: Vec<crate::matcher::Tok> = Vec::new();
    let mut i: usize = 0;
    while i < n
        invariant
            n == stem@.len(),
            i <= n,
            out@.len() == i,
            forall|l: int|
                0 <= l < i ==> #[trigger] toks_view(out@)[l] == TokSpec::Class(seq![stem@[l]]),
            toks_view(out@).len() == i,
        decreases n - i,
    {
        let c: char = stem.get_char(i);
        let mut cv: Vec<char> = Vec::new();
        cv.push(c);
        let ghost out_before: Seq<crate::matcher::Tok> = out@;
        let ghost tokg: crate::matcher::Tok = crate::matcher::Tok::Class(cv);
        out.push(crate::matcher::Tok::Class(cv));
        proof {
            assert(out@ == out_before.push(tokg));
            crate::matcher::lemma_toks_view_snoc(out_before, tokg);
            assert(cv@ =~= seq![stem@[i as int]]);
            assert(toks_view(out@)[i as int] == TokSpec::Class(seq![stem@[i as int]]));
            assert(forall|l: int|
                0 <= l < i ==> #[trigger] toks_view(out@)[l] == toks_view(out_before)[l]);
        }
        i = i + 1;
    }
    let ghost out_before: Seq<crate::matcher::Tok> = out@;
    let ghost star: crate::matcher::Tok = crate::matcher::Tok::Star;
    out.push(crate::matcher::Tok::Star);
    proof {
        assert(out@ == out_before.push(star));
        crate::matcher::lemma_toks_view_snoc(out_before, star);
        lemma_prefix_tokens_len(stem@);
        assert forall|l: int| 0 <= l < toks_view(out@).len() implies toks_view(out@)[l]
            == prefix_tokens(stem@)[l] by {
            lemma_prefix_tokens_index(stem@, l);
            if l < n {
                assert(toks_view(out@)[l] == toks_view(out_before)[l]);
            }
        }
        assert(toks_view(out@) =~= prefix_tokens(stem@));
    }
    out
}

/// The tokens of a prefix pattern, position by position.
pub proof fn lemma_prefix_tokens_index(stem: Seq<char>, l: int)
    requires
        0 <= l <= stem.len(),
    ensures
        prefix_tokens(stem).len() == stem.len() + 1,
        l < stem.len() ==> prefix_tokens(stem)[l] == TokSpec::Class(seq![stem[l]]),
        l == stem.len() ==> prefix_tokens(stem)[l] == TokSpec::Star,
    decreases stem.len(),
{
    lemma_prefix_tokens_len(stem);
    if stem.len() > 0 {
        lemma_prefix_tokens_len(stem.subrange(1, stem.len() as int));
        if l > 0 {
            lemma_prefix_tokens_index(stem.subrange(1, stem.len() as int), l - 1);
        }
    }
}

impl Selection {
    /// The default selection: all files but those whose names begin with
    /// a sidecar stem, and all directories.
    pub fn default_sel() -> (r: Selection)
        ensures
            forall|name: Seq<char>| matcher_matches(r.include_files@, name),
            forall|name: Seq<char>|
                matcher_matches(r.exclude_files@, name) <==> (starts_with(
                    name,
                    target_stem(Target::Parent),
                ) || starts_with(name, target_stem(Target::Siblings))),
            forall|name: Seq<char>| matcher_matches(r.include_dirs@, name),
            forall|name: Seq<char>| !matcher_matches(r.exclude_dirs@, name),
    {
        let include_files: Matcher = Matcher::any();
        let include_dirs: Matcher = Matcher::any();
        let exclude_dirs: Matcher = Matcher::empty();
        let p1: Vec<crate::matcher::Tok> = prefix_pattern(Target::Parent.default_file_name());
        let p2: Vec<crate::matcher::Tok> = prefix_pattern(Target::Siblings.default_file_name());
        let exclude_files: Matcher = Matcher::from_two(p1, p2);
        proof {
            assert forall|name: Seq<char>|
                matcher_matches(exclude_files@, name) <==> (starts_with(
                    name,
                    target_stem(Target::Parent),
                ) || starts_with(name, target_stem(Target::Siblings))) by {
                lemma_prefix_tokens_match(target_stem(Target::Parent), name);
                lemma_prefix_tokens_match(target_stem(Target::Siblings), name);
                if matcher_matches(exclude_files@, name) {
                    let i = choose|i: int|
                        0 <= i < exclude_files@.len() && glob_match(exclude_files@[i], name);
                }
                if starts_with(name, target_stem(Target::Parent)) {
                    assert(glob_match(exclude_files@[0], name));
                }
                if starts_with(name, target_stem(Target::Siblings)) {
                    assert(glob_match(exclude_files@[1], name));
                }
            }
        }
        Selection { include_files, exclude_files, include_dirs, exclude_dirs }
    }
}

impl Default for Selection {
    /// The default selection: every file except sidecar-named ones, and
    /// every directory.
    fn default() -> (r: Selection)
        ensures
            forall|name: Seq<char>| matcher_matches(r.include_files@, name),
            forall|name: Seq<char>|
                matcher_matches(r.exclude_files@, name) <==> (starts_with(
                    name,
                    target_stem(Target::Parent),
                ) || starts_with(name, target_stem(Target::Siblings))),
            forall|name: Seq<char>| matcher_matches(r.include_dirs@, name),
            forall|name: Seq<char>| !matcher_matches(r.exclude_dirs@, name),
    {
        Selection::default_sel()
    }
}

} // verus!
