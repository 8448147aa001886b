//! Glob matchers over file names.  A pattern is a sequence of literal
//! characters, single-character wildcards `?`, unbounded wildcards `*`, and
//! character classes `[abc]`; a matcher is a set of patterns that accepts a
//! name when any of its patterns matches the whole name.

use vstd::prelude::*;

verus! {

/// Spec-level mirror of [`Tok`].
pub enum TokSpec {
    Star,
    Question,
    Class(Seq<char>),
}

/// One element of a compiled glob pattern.
#[derive(Debug, PartialEq, Eq)]
pub enum Tok {
    /// `*`: any run of characters, empty included.
    Star,
    /// `?`: exactly one character, whichever.
    Question,
    /// One character out of the listed set: a `[...]` class, or a single
    /// literal character as the one-element set.
    Class(Vec<char>),
}

impl View for Tok {
    type V = TokSpec;

    open spec fn view(&self) -> TokSpec {
        match self {
            Tok::Star => TokSpec::Star,
            Tok::Question => TokSpec::Question,
            Tok::Class(cs) => TokSpec::Class(cs@),
        }
    }
}

/// The views of a token sequence.
pub open spec fn toks_view(ts: Seq<Tok>) -> Seq<TokSpec>
    decreases ts,
{
    if ts.len() == 0 {
        Seq::empty()
    } else {
        seq![ts[0]@] + toks_view(ts.subrange(1, ts.len() as int))
    }
}

/// A token sequence's view has one element per token, in order.
pub broadcast proof fn lemma_toks_view_len(ts: Seq<Tok>)
    ensures
        #[trigger] toks_view(ts).len() == ts.len(),
    decreases ts,
{
    if ts.len() > 0 {
        lemma_toks_view_len(ts.subrange(1, ts.len() as int));
    }
}

/// Indexing a token sequence's view gives the view of the indexed token.
pub broadcast proof fn lemma_toks_view_index(ts: Seq<Tok>, i: int)
    requires
        0 <= i < ts.len(),
    ensures
        toks_view(ts).len() == ts.len(),
        #[trigger] toks_view(ts)[i] == ts[i]@,
    decreases ts,
{
    lemma_toks_view_len(ts);
    if i > 0 {
        lemma_toks_view_index(ts.subrange(1, ts.len() as int), i - 1);
    }
}

/// Appending one token appends its view.
pub proof fn lemma_toks_view_snoc(s: Seq<Tok>, t: Tok)
    ensures
        toks_view(s.push(t)) == toks_view(s).push(t@),
    decreases s.len(),
{
    let w = s.push(t);
    if s.len() == 0 {
        assert(w.len() == 1);
        assert(w[0] == t);
        assert(w.subrange(1, 1) =~= Seq::<Tok>::empty());
        assert(w[0]@ == t@);
        assert(toks_view(w) == seq![w[0]@] + toks_view(w.subrange(1, 1)));
        assert(toks_view(w.subrange(1, 1)) == Seq::<TokSpec>::empty());
        assert(toks_view(s) == Seq::<TokSpec>::empty());
        assert(toks_view(w) =~= toks_view(s).push(t@));
    } else {
        assert(w[0] == s[0]);
        assert(w.subrange(1, w.len() as int) =~= s.subrange(1, s.len() as int).push(t));
        lemma_toks_view_snoc(s.subrange(1, s.len() as int), t);
        assert(toks_view(w) =~= toks_view(s).push(t@));
    }
}

/// Whether a pattern matches a whole name.  `*` absorbs any run, `?` and a
/// class absorb one character, a literal matches itself.
pub open spec fn glob_match(ts: Seq<TokSpec>, s: Seq<char>) -> bool
    decreases ts.len(), s.len(),
{
    if ts.len() == 0 {
        s.len() == 0
    } else {
        match ts[0] {
            TokSpec::Star => glob_match(ts.subrange(1, ts.len() as int), s) || (s.len() > 0
                && glob_match(ts, s.subrange(1, s.len() as int))),
            TokSpec::Question => s.len() > 0 && glob_match(
                ts.subrange(1, ts.len() as int),
                s.subrange(1, s.len() as int),
            ),
            TokSpec::Class(cs) => s.len() > 0 && cs.contains(s[0]) && glob_match(
                ts.subrange(1, ts.len() as int),
                s.subrange(1, s.len() as int),
            ),
        }
    }
}

/// The index of the first occurrence of `c` in `p`, if any.
pub open spec fn find_char(p: Seq<char>, c: char) -> Option<int>
    decreases p.len(),
{
    if p.len() == 0 {
        None
    } else if p[0] == c {
        Some(0)
    } else {
        match find_char(p.subrange(1, p.len() as int), c) {
            Some(j) => Some(j + 1),
            None => None,
        }
    }
}

/// What `find_char` returns is a position of `c` preceded by no other.
pub proof fn lemma_find_char(p: Seq<char>, c: char)
    ensures
        match find_char(p, c) {
            Some(j) => 0 <= j < p.len() && p[j] == c && forall|l: int| 0 <= l < j ==> p[l] != c,
            None => forall|l: int| 0 <= l < p.len() ==> p[l] != c,
        },
    decreases p.len(),
{
    if p.len() > 0 && p[0] != c {
        let sub = p.subrange(1, p.len() as int);
        lemma_find_char(sub, c);
        match find_char(sub, c) {
            Some(js) => {
                assert(p[js + 1] == sub[js]);
                assert forall|l: int| 0 <= l < js + 1 implies p[l] != c by {
                    if l > 0 {
                        assert(sub[l - 1] == p[l]);
                    }
                }
            },
            None => {
                assert forall|l: int| 0 <= l < p.len() implies p[l] != c by {
                    if l > 0 {
                        assert(sub[l - 1] == p[l]);
                    }
                }
            },
        }
    }
}

/// Parsing a glob pattern into tokens.  A `[` must be closed by a later
/// `]` with at least one character between them; otherwise the pattern is
/// rejected.
pub open spec fn parse_glob(p: Seq<char>) -> Option<Seq<TokSpec>>
    decreases p.len(),
{
    if p.len() == 0 {
        Some(Seq::empty())
    } else if p[0] == '[' {
        match find_char(p.subrange(1, p.len() as int), ']') {
            None => None,
            Some(j) => if !(1 <= j <= p.len() - 2) {
                None
            } else {
                match parse_glob(p.subrange(j + 2, p.len() as int)) {
                    None => None,
                    Some(ts) => Some(seq![TokSpec::Class(p.subrange(1, j + 1))] + ts),
                }
            },
        }
    } else {
        let t: TokSpec = if p[0] == '*' {
            TokSpec::Star
        } else if p[0] == '?' {
            TokSpec::Question
        } else {
            TokSpec::Class(seq![p[0]])
        };
        match parse_glob(p.subrange(1, p.len() as int)) {
            None => None,
            Some(ts) => Some(seq![t] + ts),
        }
    }
}

/// Why building a matcher can fail.
#[derive(Debug, PartialEq, Eq, Clone, Copy)]
pub enum Error {
    /// A `[` character class that is unclosed or empty.
    BadClass,
}

/// The characters of a string, one by one.
pub fn str_to_chars(s: &str) -> (r: Vec<char>)
    ensures
        r@ == s@,
{
    let n: usize = s.unicode_len();
    let mut out: Vec<char> = Vec::new();
    let mut i: usize = 0;
    while i < n
        invariant
            n == s@.len(),
            i <= n,
            out@ == s@.subrange(0, i as int),
        decreases n - i,
    {
        let c: char = s.get_char(i);
        out.push(c);
        proof {
            assert(out@ =~= s@.subrange(0, i + 1));
        }
        i = i + 1;
    }
    proof {
        assert(out@ =~= s@);
    }
    out
}

/// Parses one glob pattern into its token sequence.
#[verifier::rlimit(60)]
#[verifier::loop_isolation(false)]
fn parse_pattern(p: &str) -> (r: Result<Vec<Tok>, Error>)
    ensures
        match r {
            Ok(ts) => parse_glob(p@) == Some(toks_view(ts@)),
            Err(_) => parse_glob(p@) == None::<Seq<TokSpec>>,
        },
{
    let chars: Vec<char> = str_to_chars(p);
    let n: usize = chars.len();
    let mut out: Vec<Tok> = Vec::new();
    let mut i: usize = 0;
    proof {
        assert(p@.subrange(0, n as int) =~= p@);
        assert(toks_view(out@) =~= Seq::<TokSpec>::empty());
        match parse_glob(p@) {
            Some(ts) => {
                assert(Seq::<TokSpec>::empty() + ts =~= ts);
            },
            None => {},
        }
    }
    while i < n
        invariant
            n == chars@.len(),
            chars@ == p@,
            i <= n,
            parse_glob(p@) == opt_concat(toks_view(out@), parse_glob(p@.subrange(i as int, n as int))),
        decreases n - i,
    {
        let ghost rest: Seq<char> = p@.subrange(i as int, n as int);
        let ghost out_before: Seq<Tok> = out@;
        proof {
            assert(rest[0] == p@[i as int]);
        }
        let c: char = chars[i];
        if c == '[' {
            // Scan for the closing bracket.
            let mut j: usize = i + 1;
            let ghost body: Seq<char> = rest.subrange(1, rest.len() as int);
            proof {
                lemma_find_char(body, ']');
                assert(forall|l: int|
                    0 <= l < body.len() ==> body[l] == p@[i as int + 1 + l]);
            }
            while j < n && chars[j] != ']'
                invariant
                    n == chars@.len(),
                    chars@ == p@,
                    i + 1 <= j <= n,
                    body == p@.subrange(i as int + 1, n as int),
                    forall|l: int| 0 <= l < j - i - 1 ==> body[l] != ']',
                decreases n - j,
            {
                proof {
                    assert(body[j - i - 1] == p@[j as int]);
                }
                j = j + 1;
            }
            if j >= n {
                proof {
                    assert(forall|l: int| 0 <= l < body.len() ==> body[l] != ']');
                    assert(find_char(body, ']') is None);
                    lemma_opt_concat_none(toks_view(out_before));
                }
                return Err(Error::BadClass);
            }
            proof {
                assert(body[j - i - 1] == p@[j as int]);
                assert(body[j - i - 1] == ']');
                lemma_find_char_at(body, ']', j - i - 1);
            }
            if j == i + 1 {
                proof {
                    lemma_opt_concat_none(toks_view(out_before));
                }
                return Err(Error::BadClass);
            }
            let mut cls: Vec<char> = Vec::new();
            let mut l: usize = i + 1;
            while l < j
                invariant
                    i + 1 <= l <= j,
                    j < n,
                    n == chars@.len(),
                    chars@ == p@,
                    cls@ == p@.subrange(i as int + 1, l as int),
                decreases j - l,
            {
                let ch: char = chars[l];
                cls.push(ch);
                proof {
                    assert(cls@ =~= p@.subrange(i as int + 1, l + 1));
                }
                l = l + 1;
            }
            let ghost tokg: Tok = Tok::Class(cls);
            out.push(Tok::Class(cls));
            proof {
                assert(out@ == out_before.push(tokg));
                lemma_toks_view_snoc(out_before, tokg);
                assert(toks_view(out@) == toks_view(out_before).push(tokg@));
                let jj = j - i - 1;
                assert(rest.subrange(1, jj + 1) =~= p@.subrange(i as int + 1, j as int));
                assert(rest.subrange(jj + 2, rest.len() as int) =~= p@.subrange(
                    j as int + 1,
                    n as int,
                ));
                assert(parse_glob(rest) == opt_cons(
                    TokSpec::Class(p@.subrange(i as int + 1, j as int)),
                    parse_glob(p@.subrange(j as int + 1, n as int)),
                ));
                lemma_opt_concat_snoc(
                    toks_view(out_before),
                    TokSpec::Class(p@.subrange(i as int + 1, j as int)),
                    parse_glob(p@.subrange(j as int + 1, n as int)),
                );
                assert(parse_glob(p@) == opt_concat(
                    toks_view(out@),
                    parse_glob(p@.subrange(j as int + 1, n as int)),
                ));
            }
            i = j + 1;
        } else {
            let t: Tok = if c == '*' {
                Tok::Star
            } else if c == '?' {
                Tok::Question
            } else {
                let mut cv: Vec<char> = Vec::new();
                cv.push(c);
                Tok::Class(cv)
            };
            let ghost tv: TokSpec = t@;
            let ghost tokg: Tok = t;
            out.push(t);
            proof {
                if c != '*' && c != '?' {
                    assert(tv == TokSpec::Class(seq![c]));
                }
                assert(out@ == out_before.push(tokg));
                lemma_toks_view_snoc(out_before, tokg);
                assert(toks_view(out@) == toks_view(out_before).push(tv));
                assert(rest.subrange(1, rest.len() as int) =~= p@.subrange(i as int + 1, n as int));
                assert(parse_glob(rest) == opt_cons(
                    tv,
                    parse_glob(p@.subrange(i as int + 1, n as int)),
                ));
                lemma_opt_concat_snoc(
                    toks_view(out_before),
                    tv,
                    parse_glob(p@.subrange(i as int + 1, n as int)),
                );
                assert(parse_glob(p@) == opt_concat(toks_view(out_before), parse_glob(rest)));
                assert(parse_glob(p@) == opt_concat(
                    toks_view(out@),
                    parse_glob(p@.subrange(i as int + 1, n as int)),
                ));
            }
            i = i + 1;
        }
    }
    proof {
        assert(p@.subrange(n as int, n as int) =~= Seq::<char>::empty());
        assert(toks_view(out@) + Seq::<TokSpec>::empty() =~= toks_view(out@));
    }
    Ok(out)
}

/// Prepends a token to a parse result, where it parsed.
pub open spec fn opt_cons(t: TokSpec, r: Option<Seq<TokSpec>>) -> Option<Seq<TokSpec>> {
    match r {
        None => None,
        Some(ts) => Some(seq![t] + ts),
    }
}

/// Concatenates parsed tokens onto a parse result, where it parsed.
pub open spec fn opt_concat(prefix: Seq<TokSpec>, r: Option<Seq<TokSpec>>) -> Option<
    Seq<TokSpec>,
> {
    match r {
        None => None,
        Some(ts) => Some(prefix + ts),
    }
}

/// A failed tail makes the whole concatenation fail.
proof fn lemma_opt_concat_none(prefix: Seq<TokSpec>)
    ensures
        opt_concat(prefix, None::<Seq<TokSpec>>) == None::<Seq<TokSpec>>,
{
}

/// Moving one token from the tail into the prefix keeps the concatenation.
proof fn lemma_opt_concat_snoc(prefix: Seq<TokSpec>, t: TokSpec, r: Option<Seq<TokSpec>>)
    ensures
        opt_concat(prefix, opt_cons(t, r)) == opt_concat(prefix.push(t), r),
{
    match r {
        None => {},
        Some(ts) => {
            assert(prefix + (seq![t] + ts) =~= prefix.push(t) + ts);
        },
    }
}

/// If position `j` holds the first occurrence of `c`, `find_char` finds it.
proof fn lemma_find_char_at(p: Seq<char>, c: char, j: int)
    requires
        0 <= j < p.len(),
        p[j] == c,
        forall|l: int| 0 <= l < j ==> p[l] != c,
    ensures
        find_char(p, c) == Some(j),
    decreases j,
{
    if j > 0 {
        lemma_find_char_at(p.subrange(1, p.len() as int), c, j - 1);
    }
}

/// Whether any character of `cs` equals `c`.
fn class_contains(cs: &Vec<char>, c: char) -> (r: bool)
    ensures
        r <==> cs@.contains(c),
{
    let n: usize = cs.len();
    let mut i: usize = 0;
    while i < n
        invariant
            n == cs@.len(),
            i <= n,
            forall|l: int| 0 <= l < i ==> cs@[l] != c,
        decreases n - i,
    {
        if cs[i] == c {
            return true;
        }
        i = i + 1;
    }
    false
}

/// Whether the pattern from token `ti` on matches the name from character
/// `si` on.
fn glob_match_at(toks: &Vec<Tok>, ti: usize, s: &Vec<char>, si: usize) -> (r: bool)
    requires
        ti <= toks@.len(),
        si <= s@.len(),
    ensures
        r == glob_match(
            toks_view(toks@).subrange(ti as int, toks@.len() as int),
            s@.subrange(si as int, s@.len() as int),
        ),
    decreases toks@.len() - ti, s@.len() - si,
{
    let nt: usize = toks.len();
    let ns: usize = s.len();
    let ghost tv: Seq<TokSpec> = toks_view(toks@).subrange(ti as int, nt as int);
    let ghost sv: Seq<char> = s@.subrange(si as int, ns as int);
    proof {
        lemma_toks_view_len(toks@);
    }
    if ti == nt {
        return si == ns;
    }
    proof {
        lemma_toks_view_index(toks@, ti as int);
        assert(tv[0] == toks@[ti as int]@);
        assert(tv.subrange(1, tv.len() as int) =~= toks_view(toks@).subrange(
            ti as int + 1,
            nt as int,
        ));
        if si < ns {
            assert(sv[0] == s@[si as int]);
            assert(sv.subrange(1, sv.len() as int) =~= s@.subrange(si as int + 1, ns as int));
        }
    }
    match &toks[ti] {
        Tok::Star => {
            if glob_match_at(toks, ti + 1, s, si) {
                return true;
            }
            if si < ns && glob_match_at(toks, ti, s, si + 1) {
                return true;
            }
            false
        },
        Tok::Question => {
            if si == ns {
                return false;
            }
            glob_match_at(toks, ti + 1, s, si + 1)
        },
        Tok::Class(cs) => {
            if si == ns {
                return false;
            }
            if !class_contains(cs, s[si]) {
                return false;
            }
            glob_match_at(toks, ti + 1, s, si + 1)
        },
    }
}

/// The views of a list of compiled patterns.
pub open spec fn patterns_view(ps: Seq<Vec<Tok>>) -> Seq<Seq<TokSpec>>
    decreases ps,
{
    if ps.len() == 0 {
        Seq::empty()
    } else {
        seq![toks_view(ps[0]@)] + patterns_view(ps.subrange(1, ps.len() as int))
    }
}

/// A pattern list's view has one element per pattern, in order.
pub broadcast proof fn lemma_patterns_view_len(ps: Seq<Vec<Tok>>)
    ensures
        #[trigger] patterns_view(ps).len() == ps.len(),
    decreases ps,
{
    if ps.len() > 0 {
        lemma_patterns_view_len(ps.subrange(1, ps.len() as int));
    }
}

/// Indexing a pattern list's view gives the view of the indexed pattern.
pub broadcast proof fn lemma_patterns_view_index(ps: Seq<Vec<Tok>>, i: int)
    requires
        0 <= i < ps.len(),
    ensures
        patterns_view(ps).len() == ps.len(),
        #[trigger] patterns_view(ps)[i] == toks_view(ps[i]@),
    decreases ps,
{
    lemma_patterns_view_len(ps);
    if i > 0 {
        lemma_patterns_view_index(ps.subrange(1, ps.len() as int), i - 1);
    }
}

/// Whether any pattern of the set matches the name.
pub open spec fn matcher_matches(pats: Seq<Seq<TokSpec>>, s: Seq<char>) -> bool {
    exists|i: int| 0 <= i < pats.len() && glob_match(pats[i], s)
}

/// A set of compiled glob patterns.  A name matches when any pattern does;
/// the empty set matches nothing.
#[derive(Debug, PartialEq, Eq)]
pub struct Matcher {
    patterns: Vec<Vec<Tok>>,
}

impl View for Matcher {
    type V = Seq<Seq<TokSpec>>;

    closed spec fn view(&self) -> Seq<Seq<TokSpec>> {
        patterns_view(self.patterns@)
    }
}

impl Matcher {
    /// The matcher that accepts nothing.
    pub fn empty() -> (r: Matcher)
        ensures
            r@ == Seq::<Seq<TokSpec>>::empty(),
            forall|s: Seq<char>| !matcher_matches(r@, s),
    {
        Matcher { patterns: Vec::new() }
    }

    /// The matcher that accepts every name.
    pub fn any() -> (r: Matcher)
        ensures
            r@ == seq![seq![TokSpec::Star]],
            forall|s: Seq<char>| matcher_matches(r@, s),
    {
        let mut star: Vec<Tok> = Vec::new();
        star.push(Tok::Star);
        let mut patterns: Vec<Vec<Tok>> = Vec::new();
        let ghost star_snapshot: Vec<Tok> = star;
        patterns.push(star);
        proof {
            assert(patterns@ =~= seq![star_snapshot]);
            lemma_patterns_view_index(patterns@, 0);
            assert(star_snapshot@ =~= seq![Tok::Star]);
            lemma_toks_view_len(star_snapshot@);
            lemma_toks_view_index(star_snapshot@, 0);
            assert(toks_view(star_snapshot@) =~= seq![TokSpec::Star]);
            assert(patterns_view(patterns@) =~= seq![seq![TokSpec::Star]]);
            assert forall|s: Seq<char>| matcher_matches(patterns_view(patterns@), s) by {
                lemma_star_matches_all(s);
                assert(glob_match(patterns_view(patterns@)[0], s));
            }
        }
        Matcher { patterns }
    }

    /// A matcher of exactly two given compiled patterns.
    pub fn from_two(a: Vec<Tok>, b: Vec<Tok>) -> (r: Matcher)
        ensures
            r@ == seq![toks_view(a@), toks_view(b@)],
    {
        let ghost av: Seq<TokSpec> = toks_view(a@);
        let ghost bv: Seq<TokSpec> = toks_view(b@);
        let mut patterns: Vec<Vec<Tok>> = Vec::new();
        patterns.push(a);
        patterns.push(b);
        proof {
            lemma_patterns_view_len(patterns@);
            lemma_patterns_view_index(patterns@, 0);
            lemma_patterns_view_index(patterns@, 1);
            assert(patterns_view(patterns@) =~= seq![av, bv]);
        }
        Matcher { patterns }
    }

    /// Adds one compiled pattern to the set.
    pub fn push_pattern(&mut self, pat: Vec<Tok>)
        ensures
            final(self)@ == old(self)@.push(toks_view(pat@)),
    {
        let ghost pats_before: Seq<Vec<Tok>> = self.patterns@;
        self.patterns.push(pat);
        proof {
            lemma_patterns_push(pats_before, self.patterns@);
            lemma_patterns_view_len(pats_before);
            assert(patterns_view(self.patterns@) =~= patterns_view(pats_before).push(
                toks_view(self.patterns@[pats_before.len() as int]@),
            ));
        }
    }

    /// Compiles a set of glob patterns.  Fails exactly when some pattern is
    /// malformed.
    pub fn build(patterns: &Vec<String>) -> (r: Result<Matcher, Error>)
        ensures
            match r {
                Ok(m) => {
                    &&& m@.len() == patterns@.len()
                    &&& forall|i: int|
                        0 <= i < patterns@.len() ==> parse_glob(patterns@[i]@) == Some(
                            #[trigger] m@[i],
                        )
                },
                Err(_) => exists|i: int|
                    0 <= i < patterns@.len() && parse_glob(#[trigger] patterns@[i]@)
                        == None::<Seq<TokSpec>>,
            },
    {
        let n: usize = patterns.len();
        let mut out: Vec<Vec<Tok>> = Vec::new();
        let mut i: usize = 0;
        while i < n
            invariant
                n == patterns@.len(),
                i <= n,
                out@.len() == i,
                forall|l: int|
                    0 <= l < i ==> parse_glob(patterns@[l]@) == Some(
                        #[trigger] patterns_view(out@)[l],
                    ),
            decreases n - i,
        {
            let ghost out_before: Seq<Vec<Tok>> = out@;
            match parse_pattern(patterns[i].as_str()) {
                Ok(ts) => {
                    out.push(ts);
                    proof {
                        lemma_patterns_push(out_before, out@);
                        assert(forall|l: int|
                            0 <= l < i ==> patterns_view(out@)[l] == patterns_view(out_before)[l]);
                    }
                },
                Err(e) => {
                    return Err(e);
                },
            }
            i = i + 1;
        }
        proof {
            lemma_patterns_view_len(out@);
        }
        Ok(Matcher { patterns: out })
    }

    /// Whether any pattern of this matcher matches the whole name.
    pub fn is_match(&self, name: &str) -> (r: bool)
        ensures
            r == matcher_matches(self@, name@),
    {
        let chars: Vec<char> = str_to_chars(name);
        let n: usize = self.patterns.len();
        proof {
            lemma_patterns_view_len(self.patterns@);
        }
        let mut i: usize = 0;
        while i < n
            invariant
                n == self.patterns@.len(),
                i <= n,
                chars@ == name@,
                self@ == patterns_view(self.patterns@),
                self@.len() == n,
                forall|l: int| 0 <= l < i ==> !glob_match(self@[l], name@),
            decreases n - i,
        {
            proof {
                lemma_patterns_view_index(self.patterns@, i as int);
                lemma_toks_view_len(self.patterns@[i as int]@);
                assert(toks_view(self.patterns@[i as int]@).subrange(
                    0,
                    self.patterns@[i as int]@.len() as int,
                ) =~= toks_view(self.patterns@[i as int]@));
                assert(chars@.subrange(0, chars@.len() as int) =~= chars@);
            }
            if glob_match_at(&self.patterns[i], 0, &chars, 0) {
                return true;
            }
            i = i + 1;
        }
        false
    }
}

/// Pushing a pattern appends its view to the list's view.
proof fn lemma_patterns_push(before: Seq<Vec<Tok>>, after: Seq<Vec<Tok>>)
    requires
        after.len() == before.len() + 1,
        forall|l: int| 0 <= l < before.len() ==> after[l] == before[l],
    ensures
        patterns_view(after).len() == after.len(),
        forall|l: int|
            0 <= l < before.len() ==> patterns_view(after)[l] == patterns_view(before)[l],
        patterns_view(after)[before.len() as int] == toks_view(after[before.len() as int]@),
{
    lemma_patterns_view_len(after);
    lemma_patterns_view_len(before);
    assert forall|l: int| 0 <= l < before.len() implies patterns_view(after)[l] == patterns_view(
        before,
    )[l] by {
        lemma_patterns_view_index(after, l);
        lemma_patterns_view_index(before, l);
    }
    lemma_patterns_view_index(after, before.len() as int);
}

/// A single `*` matches every name.
pub proof fn lemma_star_matches_all(s: Seq<char>)
    ensures
        glob_match(seq![TokSpec::Star], s),
    decreases s.len(),
{
    let ts = seq![TokSpec::Star];
    assert(ts[0] == TokSpec::Star);
    if s.len() == 0 {
        assert(ts.subrange(1, 1) =~= Seq::<TokSpec>::empty());
        assert(glob_match(ts.subrange(1, 1), s));
    } else {
        lemma_star_matches_all(s.subrange(1, s.len() as int));
        assert(glob_match(ts, s.subrange(1, s.len() as int)));
    }
}

} // verus!
