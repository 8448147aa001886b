//! Ordering item paths: by file name or by modification time, ascending or
//! descending, with ties broken by the lexicographic path.  Sorting is
//! stable, and its result is pinned down exactly by a specification-level
//! insertion sort.

use vstd::prelude::*;

use core::cmp::Ordering;
use crate::matcher::find_char;
use crate::order::cmp_chars;
use crate::order::cmp_str;

verus! {

/// The final component of a path: what follows the last `/`, or the whole
/// path when it has none.
pub open spec fn last_component(p: Seq<char>) -> Seq<char>
    decreases p.len(),
{
    match find_char(p, '/') {
        None => p,
        Some(j) => if 0 <= j < p.len() {
            last_component(p.subrange(j + 1, p.len() as int))
        } else {
            p
        },
    }
}

/// A path without a separator is its own final component.
pub proof fn lemma_last_component_whole(p: Seq<char>)
    requires
        forall|l: int| 0 <= l < p.len() ==> p[l] != '/',
    ensures
        last_component(p) == p,
{
    crate::matcher::lemma_find_char(p, '/');
}

/// If the last separator sits at `j`, the final component is what follows.
pub proof fn lemma_last_component_at(p: Seq<char>, j: int)
    requires
        0 <= j < p.len(),
        p[j] == '/',
        forall|l: int| j < l < p.len() ==> p[l] != '/',
    ensures
        last_component(p) == p.subrange(j + 1, p.len() as int),
    decreases p.len(),
{
    crate::matcher::lemma_find_char(p, '/');
    match find_char(p, '/') {
        None => {
            assert(false);
        },
        Some(j0) => {
            assert(j0 <= j);
            let rest = p.subrange(j0 + 1, p.len() as int);
            if j0 == j {
                assert(forall|l: int| 0 <= l < rest.len() ==> rest[l] == p[j + 1 + l]);
                lemma_last_component_whole(rest);
                assert(rest =~= p.subrange(j + 1, p.len() as int));
            } else {
                assert(rest[j - j0 - 1] == p[j]);
                assert(forall|l: int| j - j0 - 1 < l < rest.len() ==> rest[l] == p[j0 + 1 + l]);
                lemma_last_component_at(rest, j - j0 - 1);
                assert(rest.subrange(j - j0, rest.len() as int) =~= p.subrange(
                    j + 1,
                    p.len() as int,
                ));
            }
        },
    }
}

/// The final component of a path string.
pub fn last_component_of(path: &String) -> (r: String)
    ensures
        r@ == last_component(path@),
{
    let n: usize = path.as_str().unicode_len();
    let mut i: usize = n;
    while i > 0
        invariant
            i <= n,
            n == path@.len(),
            forall|l: int| i <= l < n ==> path@[l] != '/',
        decreases i,
    {
        let c: char = path.as_str().get_char(i - 1);
        if c == '/' {
            let r: String = path.as_str().substring_char(i, n).to_owned();
            proof {
                lemma_last_component_at(path@, i - 1);
            }
            return r;
        }
        i = i - 1;
    }
    proof {
        lemma_last_component_whole(path@);
    }
    let r: String = path.as_str().substring_char(0, n).to_owned();
    proof {
        assert(path@.subrange(0, n as int) =~= path@);
    }
    r
}

/// What paths are ordered by.
#[derive(Debug, Clone, Copy, PartialEq, Eq, Hash)]
pub enum SortBy {
    /// The final path component, character by character.
    Name,
    /// The path's modification time, as the caller read it.
    ModTime,
}

/// Represents direction of ordering: ascending or descending.
#[derive(Debug, Clone, Copy, PartialEq, Eq, Hash)]
pub enum SortOrder {
    Ascending,
    Descending,
}

/// All of the information needed to sort item file paths in a desired
/// order.
#[derive(Debug, Clone, Copy, PartialEq, Eq, Hash)]
pub struct Sorter {
    pub sort_by: SortBy,
    pub sort_order: SortOrder,
}

/// A path together with what the caller read of it from the filesystem:
/// its modification time, where that read succeeded.
#[derive(Debug, PartialEq, Eq)]
pub struct PathInfo {
    pub path: String,
    pub mtime: Option<u64>,
}

impl View for PathInfo {
    type V = (Seq<char>, Option<u64>);

    open spec fn view(&self) -> (Seq<char>, Option<u64>) {
        (self.path@, self.mtime)
    }
}

impl PathInfo {
    /// A path with no modification time attached.
    pub fn new(path: String) -> (r: PathInfo)
        ensures
            r@ == (path@, None::<u64>),
    {
        PathInfo { path, mtime: None }
    }

    /// A copy equal to this path.
    pub fn duplicate(&self) -> (r: PathInfo)
        ensures
            r == *self,
            r@ == self@,
    {
        PathInfo { path: self.path.clone(), mtime: self.mtime }
    }
}

/// Reverses an ordering when the direction is descending.
pub open spec fn align_spec(order: SortOrder, o: Ordering) -> Ordering {
    match order {
        SortOrder::Ascending => o,
        SortOrder::Descending => match o {
            Ordering::Less => Ordering::Greater,
            Ordering::Equal => Ordering::Equal,
            Ordering::Greater => Ordering::Less,
        },
    }
}

/// The comparison a sorter makes on two paths: by name or by modification
/// time, ties broken by the lexicographic path; a missing modification
/// time on either side compares equal outright.
pub open spec fn cmp_paths_spec(
    sorter: Sorter,
    a: (Seq<char>, Option<u64>),
    b: (Seq<char>, Option<u64>),
) -> Ordering {
    match sorter.sort_by {
        SortBy::Name => {
            let prim = cmp_chars(last_component(a.0), last_component(b.0));
            align_spec(
                sorter.sort_order,
                if prim is Equal {
                    cmp_chars(a.0, b.0)
                } else {
                    prim
                },
            )
        },
        SortBy::ModTime => match (a.1, b.1) {
            (Some(ta), Some(tb)) => align_spec(
                sorter.sort_order,
                if ta < tb {
                    Ordering::Less
                } else if ta > tb {
                    Ordering::Greater
                } else {
                    cmp_chars(a.0, b.0)
                },
            ),
            _ => Ordering::Equal,
        },
    }
}

impl Sorter {
    /// Compares two paths using this sorting criteria.
    pub fn cmp_paths(&self, a: &PathInfo, b: &PathInfo) -> (r: Ordering)
        ensures
            r == cmp_paths_spec(*self, a@, b@),
    {
        let prim: Ordering = match self.sort_by {
            SortBy::Name => {
                let na: String = last_component_of(&a.path);
                let nb: String = last_component_of(&b.path);
                let o: Ordering = cmp_str(&na, &nb);
                match o {
                    Ordering::Equal => cmp_str(&a.path, &b.path),
                    _ => o,
                }
            },
            SortBy::ModTime => {
                match (&a.mtime, &b.mtime) {
                    (Some(ta), Some(tb)) => {
                        if *ta < *tb {
                            Ordering::Less
                        } else if *ta > *tb {
                            Ordering::Greater
                        } else {
                            cmp_str(&a.path, &b.path)
                        }
                    },
                    _ => {
                        return Ordering::Equal;
                    },
                }
            },
        };
        match self.sort_order {
            SortOrder::Ascending => prim,
            SortOrder::Descending => match prim {
                Ordering::Less => Ordering::Greater,
                Ordering::Equal => Ordering::Equal,
                Ordering::Greater => Ordering::Less,
            },
        }
    }
}

/// The views of a path list.
pub open spec fn paths_view(ps: Seq<PathInfo>) -> Seq<(Seq<char>, Option<u64>)>
    decreases ps,
{
    if ps.len() == 0 {
        Seq::empty()
    } else {
        seq![ps[0]@] + paths_view(ps.subrange(1, ps.len() as int))
    }
}

/// A path list's view has one element per path, in order.
pub broadcast proof fn lemma_paths_view_len(ps: Seq<PathInfo>)
    ensures
        #[trigger] paths_view(ps).len() == ps.len(),
    decreases ps,
{
    if ps.len() > 0 {
        lemma_paths_view_len(ps.subrange(1, ps.len() as int));
    }
}

/// Indexing a path list's view gives the view of the indexed path.
pub broadcast proof fn lemma_paths_view_index(ps: Seq<PathInfo>, i: int)
    requires
        0 <= i < ps.len(),
    ensures
        paths_view(ps).len() == ps.len(),
        #[trigger] paths_view(ps)[i] == ps[i]@,
    decreases ps,
{
    lemma_paths_view_len(ps);
    if i > 0 {
        lemma_paths_view_index(ps.subrange(1, ps.len() as int), i - 1);
    }
}

/// Inserts a value into a sorted sequence: it lands before the first
/// element that compares strictly greater, hence after every element it
/// ties with.
pub open spec fn insert_sorted(
    sorter: Sorter,
    sorted: Seq<(Seq<char>, Option<u64>)>,
    x: (Seq<char>, Option<u64>),
) -> Seq<(Seq<char>, Option<u64>)>
    decreases sorted.len(),
{
    if sorted.len() == 0 {
        seq![x]
    } else if cmp_paths_spec(sorter, sorted[0], x) is Greater {
        seq![x] + sorted
    } else {
        seq![sorted[0]] + insert_sorted(sorter, sorted.subrange(1, sorted.len() as int), x)
    }
}

/// The stable sort of a path list under a sorter: each element in turn
/// inserted into the sorted prefix.
pub open spec fn sort_spec(sorter: Sorter, s: Seq<(Seq<char>, Option<u64>)>) -> Seq<
    (Seq<char>, Option<u64>),
>
    decreases s.len(),
{
    if s.len() == 0 {
        Seq::empty()
    } else {
        insert_sorted(sorter, sort_spec(sorter, s.drop_last()), s.last())
    }
}

/// Where the insertion point sits, the inserted sequence is a splice.
pub proof fn lemma_insert_sorted_at(
    sorter: Sorter,
    sorted: Seq<(Seq<char>, Option<u64>)>,
    x: (Seq<char>, Option<u64>),
    r: int,
)
    requires
        0 <= r <= sorted.len(),
        forall|l: int| 0 <= l < r ==> !(cmp_paths_spec(sorter, sorted[l], x) is Greater),
        r < sorted.len() ==> cmp_paths_spec(sorter, sorted[r], x) is Greater,
    ensures
        insert_sorted(sorter, sorted, x) == sorted.subrange(0, r) + seq![x] + sorted.subrange(
            r,
            sorted.len() as int,
        ),
    decreases r,
{
    if sorted.len() == 0 {
        assert(sorted.subrange(0, 0) =~= Seq::<(Seq<char>, Option<u64>)>::empty());
        assert(insert_sorted(sorter, sorted, x) =~= sorted.subrange(0, 0) + seq![x]
            + sorted.subrange(0, 0));
    } else if r == 0 {
        assert(sorted.subrange(0, 0) =~= Seq::<(Seq<char>, Option<u64>)>::empty());
        assert(sorted.subrange(0, sorted.len() as int) =~= sorted);
        assert(insert_sorted(sorter, sorted, x) =~= sorted.subrange(0, 0) + seq![x]
            + sorted.subrange(0, sorted.len() as int));
    } else {
        let tail = sorted.subrange(1, sorted.len() as int);
        assert(forall|l: int| 0 <= l < r - 1 ==> tail[l] == sorted[l + 1]);
        assert(r - 1 < tail.len() ==> tail[r - 1] == sorted[r]);
        lemma_insert_sorted_at(sorter, tail, x, r - 1);
        assert(tail.subrange(0, r - 1) =~= sorted.subrange(1, r));
        assert(tail.subrange(r - 1, tail.len() as int) =~= sorted.subrange(
            r,
            sorted.len() as int,
        ));
        assert(seq![sorted[0]] + (sorted.subrange(1, r) + seq![x] + sorted.subrange(
            r,
            sorted.len() as int,
        )) =~= sorted.subrange(0, r) + seq![x] + sorted.subrange(r, sorted.len() as int));
    }
}

/// The position where a path slots into an already-sorted list: after
/// every element not strictly greater than it.
fn insertion_point(sorter: &Sorter, out: &Vec<PathInfo>, x: &PathInfo) -> (r: usize)
    ensures
        r <= out@.len(),
        forall|l: int|
            0 <= l < r ==> !(cmp_paths_spec(*sorter, #[trigger] paths_view(out@)[l], x@)
                is Greater),
        r < out@.len() ==> cmp_paths_spec(*sorter, paths_view(out@)[r as int], x@) is Greater,
{
    let n: usize = out.len();
    proof {
        lemma_paths_view_len(out@);
    }
    let mut i: usize = 0;
    while i < n
        invariant
            n == out@.len(),
            i <= n,
            forall|l: int|
                0 <= l < i ==> !(cmp_paths_spec(*sorter, #[trigger] paths_view(out@)[l], x@)
                    is Greater),
        decreases n - i,
    {
        proof {
            lemma_paths_view_index(out@, i as int);
        }
        let o: Ordering = sorter.cmp_paths(&out[i], x);
        if matches!(o, Ordering::Greater) {
            return i;
        }
        i = i + 1;
    }
    n
}

/// Inserts one path into an already-sorted list at its stable position.
fn insert_path(sorter: &Sorter, out: &mut Vec<PathInfo>, x: PathInfo)
    ensures
        paths_view(final(out)@) == insert_sorted(*sorter, paths_view(old(out)@), x@),
{
    proof {
        lemma_paths_view_len(out@);
    }
    let ghost before: Seq<PathInfo> = out@;
    let pos: usize = insertion_point(sorter, out, &x);
    let ghost xv: (Seq<char>, Option<u64>) = x@;
    out.insert(pos, x);
    proof {
        lemma_insert_sorted_at(*sorter, paths_view(before), xv, pos as int);
        lemma_paths_view_len(out@);
        assert(out@ == before.insert(pos as int, out@[pos as int]));
        lemma_paths_view_insert(before, out@, pos as int);
        assert(out@[pos as int]@ == xv);
        let whole = paths_view(before);
        assert forall|l: int| 0 <= l < out@.len() implies paths_view(out@)[l] == (whole.subrange(
            0,
            pos as int,
        ) + seq![xv] + whole.subrange(pos as int, whole.len() as int))[l] by {
            if l < pos {
                lemma_paths_view_index(before, l);
            } else if l > pos {
                lemma_paths_view_index(before, l - 1);
            }
        }
        assert(paths_view(out@) =~= whole.subrange(0, pos as int) + seq![xv] + whole.subrange(
            pos as int,
            whole.len() as int,
        ));
    }
}

/// Inserting one element splices the view at that position.
proof fn lemma_paths_view_insert(before: Seq<PathInfo>, after: Seq<PathInfo>, i: int)
    requires
        0 <= i <= before.len(),
        after == before.insert(i, after[i]),
        after.len() == before.len() + 1,
    ensures
        paths_view(after).len() == after.len(),
        forall|l: int| 0 <= l < i ==> paths_view(after)[l] == paths_view(before)[l],
        paths_view(after)[i] == after[i]@,
        forall|l: int| i < l < after.len() ==> paths_view(after)[l] == paths_view(before)[l - 1],
{
    lemma_paths_view_len(after);
    lemma_paths_view_len(before);
    assert forall|l: int| 0 <= l < i implies paths_view(after)[l] == paths_view(before)[l] by {
        lemma_paths_view_index(after, l);
        lemma_paths_view_index(before, l);
        assert(after[l] == before[l]);
    }
    lemma_paths_view_index(after, i);
    assert forall|l: int| i < l < after.len() implies paths_view(after)[l] == paths_view(
        before,
    )[l - 1] by {
        lemma_paths_view_index(after, l);
        lemma_paths_view_index(before, l - 1);
        assert(after[l] == before[l - 1]);
    }
}

impl Sorter {
    /// Sorts a list of paths stably under this sorter's order.
    pub fn sort_paths(&self, paths: &mut Vec<PathInfo>)
        ensures
            paths_view(final(paths)@) == sort_spec(*self, paths_view(old(paths)@)),
    {
        let n: usize = paths.len();
        proof {
            lemma_paths_view_len(paths@);
        }
        let ghost input: Seq<PathInfo> = paths@;
        let mut out: Vec<PathInfo> = Vec::new();
        let mut i: usize = 0;
        while i < n
            invariant
                n == paths@.len(),
                paths@ == input,
                i <= n,
                paths_view(out@) == sort_spec(*self, paths_view(input.subrange(0, i as int))),
            decreases n - i,
        {
            let x: PathInfo = paths[i].duplicate();
            proof {
                lemma_paths_view_index(input, i as int);
            }
            insert_path(self, &mut out, x);
            proof {
                let pref = input.subrange(0, i as int + 1);
                lemma_paths_view_len(pref);
                lemma_paths_view_len(input.subrange(0, i as int));
                assert(pref.subrange(0, i as int) =~= input.subrange(0, i as int));
                lemma_paths_view_push_rel(pref, input.subrange(0, i as int));
                lemma_paths_view_index(pref, i as int);
                let pv = paths_view(pref);
                assert(pv.len() > 0);
                assert(pv.drop_last() =~= paths_view(input.subrange(0, i as int)));
                assert(pv.last() == input[i as int]@);
            }
            i = i + 1;
        }
        proof {
            assert(input.subrange(0, n as int) =~= input);
        }
        *paths = out;
    }
}

/// The views of a list of path results, each an entry or the text of the
/// error that reading it produced.
pub open spec fn presults_view(s: Seq<Result<PathInfo, String>>) -> Seq<
    Result<(Seq<char>, Option<u64>), Seq<char>>,
>
    decreases s,
{
    if s.len() == 0 {
        Seq::empty()
    } else {
        let head: Result<(Seq<char>, Option<u64>), Seq<char>> = match s[0] {
            Ok(p) => Ok(p@),
            Err(e) => Err(e@),
        };
        seq![head] + presults_view(s.subrange(1, s.len() as int))
    }
}

/// A result list's view has one element per entry, in order.
pub broadcast proof fn lemma_presults_view_len(s: Seq<Result<PathInfo, String>>)
    ensures
        #[trigger] presults_view(s).len() == s.len(),
    decreases s,
{
    if s.len() > 0 {
        lemma_presults_view_len(s.subrange(1, s.len() as int));
    }
}

/// Indexing a result list's view gives the view of the indexed entry.
pub broadcast proof fn lemma_presults_view_index(s: Seq<Result<PathInfo, String>>, i: int)
    requires
        0 <= i < s.len(),
    ensures
        presults_view(s).len() == s.len(),
        #[trigger] presults_view(s)[i] == match s[i] {
            Ok(p) => Ok::<(Seq<char>, Option<u64>), Seq<char>>(p@),
            Err(e) => Err::<(Seq<char>, Option<u64>), Seq<char>>(e@),
        },
    decreases s,
{
    lemma_presults_view_len(s);
    if i > 0 {
        lemma_presults_view_index(s.subrange(1, s.len() as int), i - 1);
    }
}

/// The errors of a result-list view, in their original order.
pub open spec fn errs_of(s: Seq<Result<(Seq<char>, Option<u64>), Seq<char>>>) -> Seq<Seq<char>>
    decreases s.len(),
{
    if s.len() == 0 {
        Seq::empty()
    } else {
        match s[0] {
            Err(e) => seq![e] + errs_of(s.subrange(1, s.len() as int)),
            Ok(_) => errs_of(s.subrange(1, s.len() as int)),
        }
    }
}

/// The successful entries of a result-list view, in their original order.
pub open spec fn oks_of(s: Seq<Result<(Seq<char>, Option<u64>), Seq<char>>>) -> Seq<
    (Seq<char>, Option<u64>),
>
    decreases s.len(),
{
    if s.len() == 0 {
        Seq::empty()
    } else {
        match s[0] {
            Ok(p) => seq![p] + oks_of(s.subrange(1, s.len() as int)),
            Err(_) => oks_of(s.subrange(1, s.len() as int)),
        }
    }
}

/// Tags a sequence of errors back as result values.
pub open spec fn errs_as_results(es: Seq<Seq<char>>) -> Seq<
    Result<(Seq<char>, Option<u64>), Seq<char>>,
> {
    es.map_values(|e: Seq<char>| Err::<(Seq<char>, Option<u64>), Seq<char>>(e))
}

/// Tags a sequence of entries back as result values.
pub open spec fn oks_as_results(ps: Seq<(Seq<char>, Option<u64>)>) -> Seq<
    Result<(Seq<char>, Option<u64>), Seq<char>>,
> {
    ps.map_values(|p: (Seq<char>, Option<u64>)| Ok::<(Seq<char>, Option<u64>), Seq<char>>(p))
}

impl Sorter {
    /// Sorts a list of path results: errors sort to the front in their
    /// original order, and the successful paths follow, sorted stably
    /// under this sorter's order.
    pub fn sort_path_results(&self, res_paths: &mut Vec<Result<PathInfo, String>>)
        ensures
            presults_view(final(res_paths)@) == errs_as_results(
                errs_of(presults_view(old(res_paths)@)),
            ) + oks_as_results(sort_spec(*self, oks_of(presults_view(old(res_paths)@)))),
    {
        let n: usize = res_paths.len();
        proof {
            lemma_presults_view_len(res_paths@);
        }
        let ghost input: Seq<Result<PathInfo, String>> = res_paths@;
        let ghost inview: Seq<Result<(Seq<char>, Option<u64>), Seq<char>>> = presults_view(input);
        let mut errs: Vec<Result<PathInfo, String>> = Vec::new();
        let mut oks: Vec<PathInfo> = Vec::new();
        let mut i: usize = 0;
        proof {
            assert(inview.subrange(0, n as int) =~= inview);
        }
        while i < n
            invariant
                n == res_paths@.len(),
                res_paths@ == input,
                inview == presults_view(input),
                inview.len() == n,
                i <= n,
                presults_view(errs@) == errs_as_results(errs_of(inview.subrange(0, i as int))),
                paths_view(oks@) == oks_of(inview.subrange(0, i as int)),
            decreases n - i,
        {
            let ghost pre = inview.subrange(0, i as int);
            let ghost pre2 = inview.subrange(0, i as int + 1);
            proof {
                lemma_presults_view_index(input, i as int);
                lemma_split_one(inview, i as int);
            }
            match &res_paths[i] {
                Ok(p) => {
                    let ghost oks_before: Seq<PathInfo> = oks@;
                    let ghost pv: (Seq<char>, Option<u64>) = p@;
                    oks.push(p.duplicate());
                    proof {
                        lemma_paths_view_len(oks_before);
                        assert(inview[i as int] == Ok::<(Seq<char>, Option<u64>), Seq<char>>(pv));
                        assert(oks_of(pre2) == oks_of(pre).push(pv));
                        lemma_paths_view_push2(oks_before, oks@);
                        assert(oks_of(pre).len() == oks_before.len());
                        assert(paths_view(oks@)[oks_before.len() as int] == pv);
                        assert(paths_view(oks@) =~= oks_of(pre).push(pv));
                        assert(errs_of(pre2) == errs_of(pre));
                        assert(presults_view(errs@) =~= errs_as_results(errs_of(pre2)));
                    }
                },
                Err(e) => {
                    let ghost errs_before: Seq<Result<PathInfo, String>> = errs@;
                    let ghost ev: Seq<char> = e@;
                    errs.push(Err(e.clone()));
                    proof {
                        lemma_presults_view_len(errs_before);
                        assert(inview[i as int] == Err::<(Seq<char>, Option<u64>), Seq<char>>(ev));
                        assert(errs_of(pre2) == errs_of(pre).push(ev));
                        lemma_presults_view_push2(errs_before, errs@);
                        assert(errs_of(pre).len() == errs_before.len());
                        assert(presults_view(errs@)[errs_before.len() as int] == Err::<
                            (Seq<char>, Option<u64>),
                            Seq<char>,
                        >(ev));
                        assert forall|l: int| 0 <= l < presults_view(errs@).len() implies #[trigger]
                            presults_view(errs@)[l] == errs_as_results(errs_of(pre2))[l] by {
                            if l < errs_before.len() {
                                assert(presults_view(errs@)[l] == presults_view(errs_before)[l]);
                                assert(errs_as_results(errs_of(pre))[l] == Err::<
                                    (Seq<char>, Option<u64>),
                                    Seq<char>,
                                >(errs_of(pre)[l]));
                                assert(errs_as_results(errs_of(pre2))[l] == Err::<
                                    (Seq<char>, Option<u64>),
                                    Seq<char>,
                                >(errs_of(pre2)[l]));
                            } else {
                                assert(errs_as_results(errs_of(pre2))[l] == Err::<
                                    (Seq<char>, Option<u64>),
                                    Seq<char>,
                                >(errs_of(pre2)[l]));
                            }
                        }
                        assert(presults_view(errs@) =~= errs_as_results(errs_of(pre2)));
                        assert(oks_of(pre2) == oks_of(pre));
                        assert(paths_view(oks@) =~= oks_of(pre2));
                    }
                },
            }
            i = i + 1;
        }
        self.sort_paths(&mut oks);
        let mut out: Vec<Result<PathInfo, String>> = errs;
        let ne: usize = out.len();
        let no: usize = oks.len();
        proof {
            lemma_presults_view_len(out@);
            lemma_paths_view_len(oks@);
        }
        let ghost errs_final: Seq<Result<PathInfo, String>> = out@;
        let ghost oks_final: Seq<PathInfo> = oks@;
        let mut j: usize = 0;
        while j < no
            invariant
                no == oks@.len(),
                oks@ == oks_final,
                out@.len() == ne + j,
                ne == errs_final.len(),
                j <= no,
                out@.subrange(0, ne as int) == errs_final,
                forall|l: int| 0 <= l < j ==> out@[ne + l] == Ok::<PathInfo, String>(oks@[l]),
            decreases no - j,
        {
            let ghost out_before: Seq<Result<PathInfo, String>> = out@;
            out.push(Ok(oks[j].duplicate()));
            proof {
                assert(out@.subrange(0, ne as int) =~= errs_final);
                assert(out@[ne + j] == Ok::<PathInfo, String>(oks@[j as int]));
                assert(forall|l: int| 0 <= l < j ==> #[trigger] out@[ne + l] == out_before[ne
                    + l]);
            }
            j = j + 1;
        }
        proof {
            lemma_presults_concat(out@, errs_final, oks_final);
        }
        *res_paths = out;
    }
}

/// Splitting a view list one element past a prefix.
proof fn lemma_split_one(s: Seq<Result<(Seq<char>, Option<u64>), Seq<char>>>, i: int)
    requires
        0 <= i < s.len(),
    ensures
        errs_of(s.subrange(0, i + 1)) == match s[i] {
            Err(e) => errs_of(s.subrange(0, i)).push(e),
            Ok(_) => errs_of(s.subrange(0, i)),
        },
        oks_of(s.subrange(0, i + 1)) == match s[i] {
            Ok(p) => oks_of(s.subrange(0, i)).push(p),
            Err(_) => oks_of(s.subrange(0, i)),
        },
    decreases i,
{
    let a = s.subrange(0, i + 1);
    let b = s.subrange(0, i);
    if i == 0 {
        assert(a =~= seq![s[0]]);
        assert(b =~= Seq::<Result<(Seq<char>, Option<u64>), Seq<char>>>::empty());
        assert(a.subrange(1, 1) =~= b);
        match s[0] {
            Err(e) => {
                assert(errs_of(a) =~= errs_of(b).push(e));
                assert(oks_of(a) =~= oks_of(b));
            },
            Ok(p) => {
                assert(oks_of(a) =~= oks_of(b).push(p));
                assert(errs_of(a) =~= errs_of(b));
            },
        }
    } else {
        let s2 = s.subrange(1, s.len() as int);
        assert(s2[i - 1] == s[i]);
        lemma_split_one(s2, i - 1);
        assert(s2.subrange(0, i) =~= a.subrange(1, a.len() as int));
        assert(s2.subrange(0, i - 1) =~= b.subrange(1, b.len() as int));
        assert(a[0] == s[0]);
        assert(b[0] == s[0]);
        match s[0] {
            Err(e0) => {
                match s[i] {
                    Err(e) => {
                        assert(errs_of(a) =~= errs_of(b).push(e));
                        assert(oks_of(a) =~= oks_of(b));
                    },
                    Ok(p) => {
                        assert(oks_of(a) =~= oks_of(b).push(p));
                        assert(errs_of(a) =~= errs_of(b));
                    },
                }
            },
            Ok(p0) => {
                match s[i] {
                    Err(e) => {
                        assert(errs_of(a) =~= errs_of(b).push(e));
                        assert(oks_of(a) =~= oks_of(b));
                    },
                    Ok(p) => {
                        assert(oks_of(a) =~= oks_of(b).push(p));
                        assert(errs_of(a) =~= errs_of(b));
                    },
                }
            },
        }
    }
}

/// Pushing one path appends one element to the view.
proof fn lemma_paths_view_push2(before: Seq<PathInfo>, after: Seq<PathInfo>)
    requires
        after.len() == before.len() + 1,
        forall|l: int| 0 <= l < before.len() ==> after[l] == before[l],
    ensures
        paths_view(after).len() == after.len(),
        forall|l: int| 0 <= l < before.len() ==> paths_view(after)[l] == paths_view(before)[l],
        paths_view(after)[before.len() as int] == after[before.len() as int]@,
{
    lemma_paths_view_len(after);
    lemma_paths_view_len(before);
    assert forall|l: int| 0 <= l < before.len() implies paths_view(after)[l] == paths_view(
        before,
    )[l] by {
        lemma_paths_view_index(after, l);
        lemma_paths_view_index(before, l);
    }
    lemma_paths_view_index(after, before.len() as int);
}

/// Pushing one result appends one element to the view.
proof fn lemma_presults_view_push2(
    before: Seq<Result<PathInfo, String>>,
    after: Seq<Result<PathInfo, String>>,
)
    requires
        after.len() == before.len() + 1,
        forall|l: int| 0 <= l < before.len() ==> after[l] == before[l],
    ensures
        presults_view(after).len() == after.len(),
        forall|l: int|
            0 <= l < before.len() ==> presults_view(after)[l] == presults_view(before)[l],
        presults_view(after)[before.len() as int] == match after[before.len() as int] {
            Ok(p) => Ok::<(Seq<char>, Option<u64>), Seq<char>>(p@),
            Err(e) => Err::<(Seq<char>, Option<u64>), Seq<char>>(e@),
        },
{
    lemma_presults_view_len(after);
    lemma_presults_view_len(before);
    assert forall|l: int| 0 <= l < before.len() implies presults_view(after)[l] == presults_view(
        before,
    )[l] by {
        lemma_presults_view_index(after, l);
        lemma_presults_view_index(before, l);
    }
    lemma_presults_view_index(after, before.len() as int);
}

/// A list made of errors then successes has the concatenated view.
proof fn lemma_presults_concat(
    whole: Seq<Result<PathInfo, String>>,
    errs: Seq<Result<PathInfo, String>>,
    oks: Seq<PathInfo>,
)
    requires
        whole.len() == errs.len() + oks.len(),
        whole.subrange(0, errs.len() as int) == errs,
        forall|l: int|
            0 <= l < oks.len() ==> whole[errs.len() + l] == Ok::<PathInfo, String>(oks[l]),
    ensures
        presults_view(whole) == presults_view(errs) + oks_as_results(paths_view(oks)),
{
    lemma_presults_view_len(whole);
    lemma_presults_view_len(errs);
    lemma_paths_view_len(oks);
    assert forall|l: int| 0 <= l < whole.len() implies presults_view(whole)[l] == (presults_view(
        errs,
    ) + oks_as_results(paths_view(oks)))[l] by {
        lemma_presults_view_index(whole, l);
        if l < errs.len() {
            lemma_presults_view_index(errs, l);
            assert(whole[l] == errs[l]);
        } else {
            lemma_paths_view_index(oks, l - errs.len());
        }
    }
    assert(presults_view(whole) =~= presults_view(errs) + oks_as_results(paths_view(oks)));
}

/// A list's view extends its shorter prefix's view by one element.
proof fn lemma_paths_view_push_rel(pref: Seq<PathInfo>, shorter: Seq<PathInfo>)
    requires
        pref.len() == shorter.len() + 1,
        pref.subrange(0, shorter.len() as int) == shorter,
    ensures
        paths_view(pref).len() == pref.len(),
        forall|l: int| 0 <= l < shorter.len() ==> paths_view(pref)[l] == paths_view(shorter)[l],
{
    lemma_paths_view_len(pref);
    lemma_paths_view_len(shorter);
    assert forall|l: int| 0 <= l < shorter.len() implies paths_view(pref)[l] == paths_view(
        shorter,
    )[l] by {
        lemma_paths_view_index(pref, l);
        lemma_paths_view_index(shorter, l);
        assert(pref[l] == shorter[l]);
    }
}

impl Default for SortBy {
    /// Paths order by name unless configured otherwise.
    fn default() -> (r: SortBy)
        ensures
            r == SortBy::Name,
    {
        SortBy::Name
    }
}

impl Default for SortOrder {
    /// Paths order ascending unless configured otherwise.
    fn default() -> (r: SortOrder)
        ensures
            r == SortOrder::Ascending,
    {
        SortOrder::Ascending
    }
}

impl Default for Sorter {
    /// The default sorter: by name, ascending.
    fn default() -> (r: Sorter)
        ensures
            r == (Sorter { sort_by: SortBy::Name, sort_order: SortOrder::Ascending }),
    {
        Sorter { sort_by: SortBy::Name, sort_order: SortOrder::Ascending }
    }
}

} // verus!
