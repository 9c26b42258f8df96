//! Route patterns matched against paths, and paths resolved against bases.
use crate::params::ParamsMap;
use crate::url::{lemma_split_nonempty, split_on};
use vstd::prelude::*;

verus! {

/// The views of a sequence of strings.
pub open spec fn views(v: Seq<String>) -> Seq<Seq<char>> {
    v.map_values(|s: String| s@)
}

/// The non-empty pieces among `ps`, in order.
pub open spec fn nonempty_pieces(ps: Seq<Seq<char>>) -> Seq<Seq<char>>
    decreases ps.len(),
{
    if ps.len() == 0 {
        Seq::empty()
    } else if ps.last().len() > 0 {
        nonempty_pieces(ps.drop_last()).push(ps.last())
    } else {
        nonempty_pieces(ps.drop_last())
    }
}

/// The segments of a path: the non-empty pieces between its slashes, so that
/// leading, trailing and doubled slashes do not count.
pub open spec fn path_segments(s: Seq<char>) -> Seq<Seq<char>> {
    nonempty_pieces(split_on(s, '/'))
}

/// Segments joined with `/` between them.
pub open spec fn join_segments(s: Seq<Seq<char>>) -> Seq<char>
    decreases s.len(),
{
    if s.len() == 0 {
        Seq::empty()
    } else if s.len() == 1 {
        s[0]
    } else {
        join_segments(s.drop_last()) + seq!['/'] + s.last()
    }
}

/// A pattern segment `:name`, which captures one path segment.
pub open spec fn is_param(s: Seq<char>) -> bool {
    s.len() > 0 && s[0] == ':'
}

/// A pattern segment that begins with `*`: standing last, it captures the
/// rest of the path.
pub open spec fn is_wildcard(s: Seq<char>) -> bool {
    s.len() > 0 && s[0] == '*'
}

/// The key under which the rest of the path is captured.
pub open spec fn wildcard_key() -> Seq<char> {
    seq!['*']
}

/// A pattern segment `:name?`: standing last, it captures one segment if
/// the path has one more.
pub open spec fn is_optional(s: Seq<char>) -> bool {
    s.len() >= 2 && s[0] == ':' && s.last() == '?'
}

/// The name of an optional segment `:name?`.
pub open spec fn optional_name(s: Seq<char>) -> Seq<char> {
    s.subrange(1, s.len() - 1)
}

/// Whether the last segment of a pattern is optional.
pub open spec fn ends_in_optional(pat: Seq<Seq<char>>) -> bool {
    pat.len() > 0 && is_optional(pat.last())
}

/// Whether the last segment of a pattern is a wildcard.
pub open spec fn ends_in_wildcard(pat: Seq<Seq<char>>) -> bool {
    pat.len() > 0 && is_wildcard(pat.last())
}

/// The number of pattern segments that each match one path segment.
pub open spec fn fixed_len(pat: Seq<Seq<char>>) -> int {
    if ends_in_wildcard(pat) || ends_in_optional(pat) {
        pat.len() - 1
    } else {
        pat.len() as int
    }
}

/// Whether pattern segments match path segments: literal segments are equal,
/// each parameter takes one segment, a final wildcard takes the rest, and a
/// final optional segment takes one segment or none; without either, the
/// counts are equal.
pub open spec fn segments_match(pat: Seq<Seq<char>>, segs: Seq<Seq<char>>) -> bool {
    &&& if ends_in_wildcard(pat) {
        segs.len() >= fixed_len(pat)
    } else if ends_in_optional(pat) {
        fixed_len(pat) <= segs.len() <= fixed_len(pat) + 1
    } else {
        segs.len() == fixed_len(pat)
    }
    &&& forall|i: int| 0 <= i < fixed_len(pat) && !is_param(pat[i]) ==> pat[i] == segs[i]
}

/// What the parameters among the first `k` pattern segments capture, a later
/// one winning over an earlier one of the same name.
pub open spec fn captures(pat: Seq<Seq<char>>, segs: Seq<Seq<char>>, k: int) -> Map<
    Seq<char>,
    Seq<char>,
>
    decreases k,
{
    if k <= 0 {
        Map::empty()
    } else if is_param(pat[k - 1]) {
        captures(pat, segs, k - 1).insert(pat[k - 1].drop_first(), segs[k - 1])
    } else {
        captures(pat, segs, k - 1)
    }
}

/// The parameters captured by matching pattern segments against path
/// segments: each `:name` with its segment, `*` with the rest of the path
/// joined by `/`, and a final `:name?` with its segment where there is one.
pub open spec fn segment_params(pat: Seq<Seq<char>>, segs: Seq<Seq<char>>) -> Map<
    Seq<char>,
    Seq<char>,
> {
    let m = captures(pat, segs, fixed_len(pat));
    if ends_in_wildcard(pat) {
        m.insert(wildcard_key(), join_segments(segs.subrange(fixed_len(pat), segs.len() as int)))
    } else if ends_in_optional(pat) && segs.len() > fixed_len(pat) {
        m.insert(optional_name(pat.last()), segs[fixed_len(pat)])
    } else {
        m
    }
}

/// Whether `pattern` matches `path`.
pub open spec fn route_matches(pattern: Seq<char>, path: Seq<char>) -> bool {
    segments_match(path_segments(pattern), path_segments(path))
}

/// The parameters that `pattern` captures from `path`.
pub open spec fn route_params(pattern: Seq<char>, path: Seq<char>) -> Map<Seq<char>, Seq<char>> {
    segment_params(path_segments(pattern), path_segments(path))
}

/// Splits a path into its segments.
pub fn split_segments(s: &str) -> (r: Vec<String>)
    ensures
        views(r@) == path_segments(s@),
{
    let n = s.unicode_len();
    let mut out: Vec<String> = Vec::new();
    let mut start: usize = 0;
    let mut i: usize = 0;
    let ghost mut done: Seq<Seq<char>> = Seq::empty();
    proof {
        assert(s@.subrange(0, 0) =~= Seq::<char>::empty());
        assert(split_on(Seq::<char>::empty(), '/') =~= done.push(Seq::<char>::empty()));
        assert(views(out@) =~= Seq::<Seq<char>>::empty());
    }
    while i < n
        invariant
            n == s@.len(),
            start <= i <= n,
            split_on(s@.subrange(0, i as int), '/') == done.push(
                s@.subrange(start as int, i as int),
            ),
            views(out@) == nonempty_pieces(done),
        decreases n - i,
    {
        let c = s.get_char(i);
        let ghost pre = s@.subrange(0, i as int);
        let ghost cur = s@.subrange(start as int, i as int);
        proof {
            lemma_split_nonempty(pre, '/');
            assert(s@.subrange(0, i + 1).drop_last() =~= pre);
        }
        if c == '/' {
            if start < i {
                let piece = String::from_str(s.substring_char(start, i));
                out.push(piece);
                proof {
                    assert(views(out@) =~= nonempty_pieces(done).push(cur));
                }
            }
            proof {
                assert(done.push(cur).drop_last() =~= done);
                done = done.push(cur);
                assert(s@.subrange(i + 1, i + 1) =~= Seq::<char>::empty());
            }
            start = i + 1;
        } else {
            proof {
                assert(s@.subrange(start as int, i + 1) =~= cur.push(c));
                assert(done.push(cur).update(done.len() as int, cur.push(c)) =~= done.push(
                    cur.push(c),
                ));
            }
        }
        i = i + 1;
    }
    let ghost last = s@.subrange(start as int, n as int);
    if start < n {
        let piece = String::from_str(s.substring_char(start, n));
        out.push(piece);
        proof {
            assert(views(out@) =~= nonempty_pieces(done).push(last));
        }
    }
    proof {
        assert(s@.subrange(0, n as int) =~= s@);
        assert(done.push(last).drop_last() =~= done);
    }
    out
}

/// Joins `segs[from..]` with `/` between them.
fn join_from(segs: &Vec<String>, from: usize) -> (r: String)
    requires
        from <= segs.len(),
    ensures
        r@ == join_segments(views(segs@).subrange(from as int, segs.len() as int)),
{
    let mut out = String::new();
    let mut i: usize = from;
    proof {
        reveal_strlit("/");
        assert(views(segs@).subrange(from as int, from as int) =~= Seq::<Seq<char>>::empty());
    }
    while i < segs.len()
        invariant
            from <= i <= segs.len(),
            out@ == join_segments(views(segs@).subrange(from as int, i as int)),
        decreases segs.len() - i,
    {
        let ghost part = views(segs@).subrange(from as int, i + 1);
        proof {
            reveal_strlit("/");
            assert(part.drop_last() =~= views(segs@).subrange(from as int, i as int));
        }
        if i > from {
            out.append("/");
        }
        out.append(segs[i].as_str());
        i = i + 1;
    }
    out
}

/// Picks among sibling routes: the first pattern, in the order given, that
/// matches `path`, with the parameters it captures; nothing where none does.
pub fn match_first(patterns: &Vec<String>, path: &str) -> (r: Option<(usize, ParamsMap)>)
    ensures
        r matches Some((i, m)) ==> i < patterns.len() && route_matches(patterns@[i as int]@, path@)
            && m@ == route_params(patterns@[i as int]@, path@) && forall|j: int|
            0 <= j < i ==> !route_matches(#[trigger] patterns@[j]@, path@),
        r is None ==> forall|j: int|
            0 <= j < patterns.len() ==> !route_matches(#[trigger] patterns@[j]@, path@),
{
    let mut i: usize = 0;
    while i < patterns.len()
        invariant
            i <= patterns.len(),
            forall|j: int| 0 <= j < i ==> !route_matches(#[trigger] patterns@[j]@, path@),
        decreases patterns.len() - i,
    {
        if let Some(m) = match_route(patterns[i].as_str(), path) {
            return Some((i, m));
        }
        i = i + 1;
    }
    None
}

/// Whether a pattern segment is optional: `:name?`.
fn ends_optional(s: &str) -> (r: bool)
    ensures
        r == is_optional(s@),
{
    let n = s.unicode_len();
    n >= 2 && s.get_char(0) == ':' && s.get_char(n - 1) == '?'
}

/// Matches a path against a route pattern. Segments are compared left to
/// right: a literal segment must be equal, `:name` captures one segment under
/// `name`, and a final segment beginning with `*` captures the rest of the
/// path, joined by `/`, under `*`; a final segment `:name?` captures one
/// segment under `name` where the path has one more, and nothing where it
/// does not. Leading and trailing slashes do not count.
pub fn match_route(pattern: &str, path: &str) -> (r: Option<ParamsMap>)
    ensures
        r is Some <==> route_matches(pattern@, path@),
        r matches Some(m) ==> m@ == route_params(pattern@, path@),
{
    let pat = split_segments(pattern);
    let segs = split_segments(path);
    let ghost ps = views(pat@);
    let ghost ss = views(segs@);
    let np = pat.len();
    let wild = np > 0 && pat[np - 1].as_str().unicode_len() > 0 && pat[np - 1].as_str().get_char(0)
        == '*';
    assert(wild == ends_in_wildcard(ps));
    let opt = !wild && np > 0 && ends_optional(pat[np - 1].as_str());
    assert(opt == (ends_in_optional(ps) && !ends_in_wildcard(ps)));
    let fixed = if wild || opt {
        np - 1
    } else {
        np
    };
    if (wild && segs.len() < fixed) || (opt && (segs.len() < fixed || segs.len() - fixed > 1)) || (
    !wild && !opt && segs.len() != fixed) {
        return None;
    }
    let mut m = ParamsMap::new();
    let mut i: usize = 0;
    while i < fixed
        invariant
            ps == views(pat@),
            ss == views(segs@),
            ps == path_segments(pattern@),
            ss == path_segments(path@),
            fixed as int == fixed_len(ps),
            fixed <= segs.len(),
            fixed <= pat.len(),
            i <= fixed,
            m@ == captures(ps, ss, i as int),
            forall|k: int| 0 <= k < i && !is_param(ps[k]) ==> ps[k] == ss[k],
        decreases fixed - i,
    {
        let p = pat[i].as_str();
        assert(ps[i as int] == pat@[i as int]@);
        assert(ss[i as int] == segs@[i as int]@);
        if p.unicode_len() > 0 && p.get_char(0) == ':' {
            let name = String::from_str(p.substring_char(1, p.unicode_len()));
            proof {
                assert(p@.subrange(1, p@.len() as int) =~= ps[i as int].drop_first());
            }
            m.insert(name, segs[i].clone());
        } else if pat[i] != segs[i] {
            assert(!is_param(ps[i as int]) && ps[i as int] != ss[i as int]);
            return None;
        }
        i = i + 1;
    }
    if wild {
        let key = String::from_str("*");
        proof {
            reveal_strlit("*");
            assert(key@ =~= wildcard_key());
        }
        m.insert(key, join_from(&segs, fixed));
    } else if opt && segs.len() > fixed {
        let last = pat[np - 1].as_str();
        let name = String::from_str(last.substring_char(1, last.unicode_len() - 1));
        assert(ss[fixed as int] == segs@[fixed as int]@);
        m.insert(name, segs[fixed].clone());
    }
    Some(m)
}

/// The segments that a pattern gives with `params` put in place of its
/// parameters, of its wildcard where that holds a non-empty rest, and of its
/// optional segment where that is given.
pub open spec fn filled_segments(pat: Seq<Seq<char>>, params: Map<Seq<char>, Seq<char>>) -> Seq<
    Seq<char>,
> {
    let fixed = Seq::new(
        fixed_len(pat) as nat,
        |i: int|
            if is_param(pat[i]) {
                params[pat[i].drop_first()]
            } else {
                pat[i]
            },
    );
    if ends_in_wildcard(pat) && params.contains_key(wildcard_key()) && params[wildcard_key()].len()
        > 0 {
        fixed.push(params[wildcard_key()])
    } else if ends_in_optional(pat) && params.contains_key(optional_name(pat.last())) {
        fixed.push(params[optional_name(pat.last())])
    } else {
        fixed
    }
}

/// The path that `pattern` gives with `params` substituted, slash-led.
pub open spec fn fill_pattern(pattern: Seq<char>, params: Map<Seq<char>, Seq<char>>) -> Seq<char> {
    seq!['/'] + join_segments(filled_segments(path_segments(pattern), params))
}

/// The segments of `path`, slash-led and slash-separated.
pub open spec fn canonical_path(path: Seq<char>) -> Seq<char> {
    seq!['/'] + join_segments(path_segments(path))
}

/// No two parameters of a pattern share a name, and none is named like the
/// wildcard's key where the pattern has a wildcard, or like the optional
/// segment where it has one.
pub open spec fn distinct_param_names(pat: Seq<Seq<char>>) -> bool {
    &&& forall|i: int, j: int|
        0 <= i < j < fixed_len(pat) && is_param(pat[i]) && is_param(pat[j]) ==> pat[i].drop_first()
            != pat[j].drop_first()
    &&& ends_in_wildcard(pat) ==> forall|i: int|
        0 <= i < fixed_len(pat) && is_param(pat[i]) ==> pat[i].drop_first() != wildcard_key()
    &&& ends_in_optional(pat) ==> forall|i: int|
        0 <= i < fixed_len(pat) && is_param(pat[i]) ==> pat[i].drop_first() != optional_name(
            pat.last(),
        )
}

proof fn lemma_pieces_nonempty(ps: Seq<Seq<char>>)
    ensures
        forall|i: int| 0 <= i < nonempty_pieces(ps).len() ==> nonempty_pieces(ps)[i].len() > 0,
    decreases ps.len(),
{
    if ps.len() > 0 {
        lemma_pieces_nonempty(ps.drop_last());
        let r = nonempty_pieces(ps.drop_last());
        if ps.last().len() > 0 {
            assert forall|i: int| 0 <= i < r.push(ps.last()).len() implies r.push(
                ps.last(),
            )[i].len() > 0 by {
                if i < r.len() {
                    assert(r.push(ps.last())[i] == r[i]);
                }
            }
        }
    }
}

proof fn lemma_join_append(a: Seq<Seq<char>>, b: Seq<Seq<char>>)
    requires
        a.len() > 0,
        b.len() > 0,
    ensures
        join_segments(a + b) == join_segments(a) + seq!['/'] + join_segments(b),
    decreases b.len(),
{
    if b.len() == 1 {
        assert((a + b).drop_last() =~= a);
    } else {
        let b1 = b.drop_last();
        lemma_join_append(a, b1);
        assert((a + b).drop_last() =~= a + b1);
        assert((a + b).last() == b.last());
        assert(join_segments(a) + seq!['/'] + join_segments(b1) + seq!['/'] + b.last()
            =~= join_segments(a) + seq!['/'] + (join_segments(b1) + seq!['/'] + b.last()));
    }
}

proof fn lemma_captures_hold(pat: Seq<Seq<char>>, segs: Seq<Seq<char>>, k: int)
    requires
        0 <= k <= fixed_len(pat),
        fixed_len(pat) <= pat.len(),
        distinct_param_names(pat),
    ensures
        forall|i: int|
            #![trigger pat[i]]
            0 <= i < k && is_param(pat[i]) ==> captures(pat, segs, k).contains_key(
                pat[i].drop_first(),
            ) && captures(pat, segs, k)[pat[i].drop_first()] == segs[i],
        forall|key: Seq<char>|
            #[trigger] captures(pat, segs, k).contains_key(key) ==> exists|i: int|
                0 <= i < k && is_param(pat[i]) && pat[i].drop_first() == key,
    decreases k,
{
    if k > 0 {
        lemma_captures_hold(pat, segs, k - 1);
        let c = captures(pat, segs, k);
        assert forall|i: int| 0 <= i < k && is_param(pat[i]) implies c.contains_key(
            pat[i].drop_first(),
        ) && c[pat[i].drop_first()] == segs[i] by {
            let prev = captures(pat, segs, k - 1);
            if i < k - 1 {
                assert(prev.contains_key(pat[i].drop_first()));
                assert(prev[pat[i].drop_first()] == segs[i]);
                if is_param(pat[k - 1]) {
                    assert(pat[i].drop_first() != pat[k - 1].drop_first());
                    assert(c == prev.insert(pat[k - 1].drop_first(), segs[k - 1]));
                } else {
                    assert(c == prev);
                }
            }
        }
        assert forall|key: Seq<char>| #[trigger] c.contains_key(key) implies exists|i: int|
            0 <= i < k && is_param(pat[i]) && pat[i].drop_first() == key by {
            let prev = captures(pat, segs, k - 1);
            if is_param(pat[k - 1]) && key == pat[k - 1].drop_first() {
                assert(0 <= k - 1 < k && is_param(pat[k - 1]) && pat[k - 1].drop_first() == key);
            } else {
                assert(prev.contains_key(key));
                let i = choose|i: int| 0 <= i < k - 1 && is_param(pat[i]) && pat[i].drop_first() == key;
                assert(0 <= i < k && is_param(pat[i]) && pat[i].drop_first() == key);
            }
        }
    }
}

/// Substituting the parameters that a pattern captures from a path back into
/// the pattern gives that path's segments again, wherever the pattern names
/// each parameter once.
pub proof fn lemma_fill_captured_params(pattern: Seq<char>, path: Seq<char>)
    requires
        route_matches(pattern, path),
        distinct_param_names(path_segments(pattern)),
    ensures
        fill_pattern(pattern, route_params(pattern, path)) == canonical_path(path),
{
    let pat = path_segments(pattern);
    let segs = path_segments(path);
    let fixed = fixed_len(pat);
    let m = route_params(pattern, path);
    lemma_captures_hold(pat, segs, fixed);
    lemma_pieces_nonempty(split_on(path, '/'));
    let f = Seq::new(
        fixed as nat,
        |i: int|
            if is_param(pat[i]) {
                m[pat[i].drop_first()]
            } else {
                pat[i]
            },
    );
    assert(f =~= segs.subrange(0, fixed));
    if ends_in_optional(pat) && !ends_in_wildcard(pat) {
        let name = optional_name(pat.last());
        if segs.len() > fixed {
            assert(f.push(segs[fixed]) =~= segs);
        } else {
            if captures(pat, segs, fixed).contains_key(name) {
                let i = choose|i: int| 0 <= i < fixed && is_param(pat[i]) && pat[i].drop_first() == name;
                assert(false);
            }
            assert(segs.subrange(0, fixed) =~= segs);
        }
    } else if !ends_in_wildcard(pat) {
        assert(segs.subrange(0, fixed) =~= segs);
    } else {
        let rest = segs.subrange(fixed, segs.len() as int);
        if rest.len() == 0 {
            assert(segs.subrange(0, fixed) =~= segs);
        } else {
            assert(join_segments(rest).len() > 0) by {
                if rest.len() > 1 {
                    assert(rest.last().len() > 0);
                }
            }
            assert(filled_segments(pat, m) == f.push(join_segments(rest)));
            if fixed == 0 {
                assert(rest =~= segs);
            } else {
                lemma_join_append(f, rest);
                assert(f + rest =~= segs);
                assert(f.push(join_segments(rest)).drop_last() =~= f);
            }
        }
    }
}

/// `s` without its leading slashes.
pub open spec fn trim_front(s: Seq<char>) -> Seq<char>
    decreases s.len(),
{
    if s.len() > 0 && s[0] == '/' {
        trim_front(s.drop_first())
    } else {
        s
    }
}

/// `s` without its trailing slashes.
pub open spec fn trim_back(s: Seq<char>) -> Seq<char>
    decreases s.len(),
{
    if s.len() > 0 && s.last() == '/' {
        trim_back(s.drop_last())
    } else {
        s
    }
}

/// Whether `s` begins with a query or a fragment.
pub open spec fn starts_query_or_hash(s: Seq<char>) -> bool {
    s.len() > 0 && (s[0] == '?' || s[0] == '#')
}

/// `s` without leading and trailing slashes, led by one slash unless it is
/// empty, begins with a query or fragment, or `omit_slash` holds.
pub open spec fn normalized(s: Seq<char>, omit_slash: bool) -> Seq<char> {
    let t = trim_back(trim_front(s));
    if t.len() == 0 || omit_slash || starts_query_or_hash(t) {
        t
    } else {
        seq!['/'] + t
    }
}

/// The form that `normalized(_, false)` gives.
pub open spec fn is_normal(s: Seq<char>) -> bool {
    s.len() == 0 || (s.last() != '/' && if s[0] == '/' {
        s.len() >= 2 && s[1] != '/' && !starts_query_or_hash(s.drop_first())
    } else {
        s[0] == '?' || s[0] == '#'
    })
}

/// A lower-case ASCII letter or a digit.
pub open spec fn is_scheme_char(c: char) -> bool {
    ('a' <= c && c <= 'z') || ('0' <= c && c <= '9')
}

/// The length of the run of scheme characters that `s` begins with.
pub open spec fn scheme_run(s: Seq<char>) -> nat
    decreases s.len(),
{
    if s.len() > 0 && is_scheme_char(s[0]) {
        1 + scheme_run(s.drop_first())
    } else {
        0
    }
}

/// Whether `s` begins with `//` or with a scheme such as `https://`.
pub open spec fn has_scheme(s: Seq<char>) -> bool {
    ||| (s.len() >= 2 && s[0] == '/' && s[1] == '/')
    ||| {
        let k = scheme_run(s) as int;
        k > 0 && s.len() >= k + 3 && s[k] == ':' && s[k + 1] == '/' && s[k + 2] == '/'
    }
}

/// Whether `p` is a prefix of `s`.
pub open spec fn is_prefix(p: Seq<char>, s: Seq<char>) -> bool {
    p.len() <= s.len() && s.subrange(0, p.len() as int) == p
}

/// The path of a route at `from` under the base `base`: `from` where it
/// already lies under the base, else the base followed by `from`.
pub open spec fn route_prefix(base: Seq<char>, from: Seq<char>) -> Seq<char> {
    let b = normalized(base, false);
    let f = normalized(from, false);
    if is_prefix(b, f) {
        f
    } else {
        b + f
    }
}

/// `path` resolved against `base` and, for a relative path, against the
/// route at `from`; nothing for a path with a scheme or `//`.
pub open spec fn resolved_path(base: Seq<char>, path: Seq<char>, from: Option<Seq<char>>) -> Option<
    Seq<char>,
> {
    if has_scheme(path) {
        None
    } else {
        let result = match from {
            Some(f) => if path.len() > 0 && path[0] == '/' {
                normalized(base, false)
            } else {
                route_prefix(base, f)
            },
            None => normalized(base, false),
        };
        let prefix = if result.len() == 0 {
            seq!['/']
        } else {
            result
        };
        Some(prefix + normalized(path, result.len() == 0))
    }
}

proof fn lemma_trim_back_prefix(s: Seq<char>)
    ensures
        trim_back(s).len() <= s.len(),
        trim_back(s) == s.subrange(0, trim_back(s).len() as int),
        trim_back(s).len() == 0 || trim_back(s).last() != '/',
    decreases s.len(),
{
    if s.len() > 0 && s.last() == '/' {
        lemma_trim_back_prefix(s.drop_last());
        assert(s.drop_last().subrange(0, trim_back(s).len() as int) =~= s.subrange(
            0,
            trim_back(s).len() as int,
        ));
    } else {
        assert(s.subrange(0, s.len() as int) =~= s);
    }
}

proof fn lemma_trim_front_head(s: Seq<char>)
    ensures
        trim_front(s).len() == 0 || trim_front(s)[0] != '/',
    decreases s.len(),
{
    if s.len() > 0 && s[0] == '/' {
        lemma_trim_front_head(s.drop_first());
    }
}

proof fn lemma_normalized_is_normal(s: Seq<char>)
    ensures
        is_normal(normalized(s, false)),
{
    let f = trim_front(s);
    lemma_trim_front_head(s);
    lemma_trim_back_prefix(f);
    let t = trim_back(f);
    if t.len() > 0 {
        assert(t[0] == f[0]);
        if !starts_query_or_hash(t) {
            let n = seq!['/'] + t;
            assert(n.drop_first() =~= t);
            assert(n.last() == t.last());
        }
    }
}

proof fn lemma_normal_fixed(s: Seq<char>)
    requires
        is_normal(s),
    ensures
        normalized(s, false) == s,
{
    if s.len() > 0 {
        if s[0] == '/' {
            let t = s.drop_first();
            assert(trim_front(t) == t);
            assert(trim_front(s) == t);
            assert(t.last() == s.last());
            assert(trim_back(t) == t);
            assert(seq!['/'] + t =~= s);
        } else {
            assert(trim_front(s) == s);
            assert(trim_back(s) == s);
        }
    }
}

proof fn lemma_normal_concat(a: Seq<char>, b: Seq<char>)
    requires
        is_normal(a),
        is_normal(b),
    ensures
        is_normal(a + b),
{
    if a.len() == 0 {
        assert(a + b =~= b);
    } else if b.len() == 0 {
        assert(a + b =~= a);
    } else {
        assert((a + b).last() == b.last());
        assert((a + b)[0] == a[0]);
        if a[0] == '/' {
            assert((a + b)[1] == a[1]);
            assert((a + b).drop_first()[0] == a.drop_first()[0]);
        }
    }
}

/// Resolving a path against a route nested under a base gives what resolving
/// it with no route gives: against the base alone for a path that begins with
/// `/`, and otherwise against the route's own path under that base.
pub proof fn lemma_resolve_under_route(base: Seq<char>, to: Seq<char>, from: Seq<char>)
    ensures
        resolved_path(base, to, Some(from)) == if to.len() > 0 && to[0] == '/' {
            resolved_path(base, to, None)
        } else {
            resolved_path(route_prefix(base, from), to, None)
        },
{
    let r = route_prefix(base, from);
    lemma_normalized_is_normal(base);
    lemma_normalized_is_normal(from);
    lemma_normal_concat(normalized(base, false), normalized(from, false));
    lemma_normal_fixed(r);
}

/// `s` with its leading and trailing slashes removed.
fn trim_slashes(s: &str) -> (r: String)
    ensures
        r@ == trim_back(trim_front(s@)),
{
    let n = s.unicode_len();
    let mut lo: usize = 0;
    proof {
        assert(s@.subrange(0, n as int) =~= s@);
    }
    while lo < n && s.get_char(lo) == '/'
        invariant
            n == s@.len(),
            lo <= n,
            trim_front(s@) == trim_front(s@.subrange(lo as int, n as int)),
        decreases n - lo,
    {
        proof {
            assert(s@.subrange(lo as int, n as int).drop_first() =~= s@.subrange(lo + 1, n as int));
        }
        lo = lo + 1;
    }
    let ghost f = s@.subrange(lo as int, n as int);
    let mut hi: usize = n;
    proof {
        assert(f.subrange(0, (n - lo) as int) =~= f);
    }
    while hi > lo && s.get_char(hi - 1) == '/'
        invariant
            n == s@.len(),
            lo <= hi <= n,
            f == s@.subrange(lo as int, n as int),
            trim_back(f) == trim_back(f.subrange(0, hi - lo)),
        decreases hi,
    {
        proof {
            assert(f.subrange(0, hi - lo).drop_last() =~= f.subrange(0, hi - 1 - lo));
        }
        hi = hi - 1;
    }
    proof {
        assert(f.subrange(0, hi - lo) =~= s@.subrange(lo as int, hi as int));
    }
    String::from_str(s.substring_char(lo, hi))
}

/// `s` without leading and trailing slashes, led by one slash unless it is
/// empty, begins with `?` or `#`, or `omit_slash` is set.
pub fn normalize(s: &str, omit_slash: bool) -> (r: String)
    ensures
        r@ == normalized(s@, omit_slash),
{
    let t = trim_slashes(s);
    let n = t.as_str().unicode_len();
    if n == 0 || omit_slash || t.as_str().get_char(0) == '?' || t.as_str().get_char(0) == '#' {
        t
    } else {
        let out = String::from_str("/");
        proof {
            reveal_strlit("/");
        }
        out.concat(t.as_str())
    }
}

/// A lower-case ASCII letter or a digit.
fn is_scheme_char_exec(c: char) -> (r: bool)
    ensures
        r == is_scheme_char(c),
{
    ('a' <= c && c <= 'z') || ('0' <= c && c <= '9')
}

/// Whether `s` begins with `//` or with a scheme such as `https://`.
pub fn starts_with_scheme(s: &str) -> (r: bool)
    ensures
        r == has_scheme(s@),
{
    let n = s.unicode_len();
    if n >= 2 && s.get_char(0) == '/' && s.get_char(1) == '/' {
        return true;
    }
    let mut k: usize = 0;
    proof {
        assert(s@.subrange(0, n as int) =~= s@);
    }
    while k < n && is_scheme_char_exec(s.get_char(k))
        invariant
            n == s@.len(),
            k <= n,
            scheme_run(s@) == k + scheme_run(s@.subrange(k as int, n as int)),
        decreases n - k,
    {
        proof {
            assert(s@.subrange(k as int, n as int).drop_first() =~= s@.subrange(k + 1, n as int));
        }
        k = k + 1;
    }
    proof {
        if k < n {
            assert(s@.subrange(k as int, n as int)[0] == s@[k as int]);
        }
    }
    k > 0 && n - k >= 3 && s.get_char(k) == ':' && s.get_char(k + 1) == '/' && s.get_char(k + 2)
        == '/'
}

/// Whether `p` is a prefix of `s`.
pub fn has_prefix(p: &str, s: &str) -> (r: bool)
    ensures
        r == is_prefix(p@, s@),
{
    let np = p.unicode_len();
    let ns = s.unicode_len();
    if np > ns {
        return false;
    }
    let mut i: usize = 0;
    while i < np
        invariant
            np == p@.len(),
            ns == s@.len(),
            np <= ns,
            i <= np,
            forall|k: int| 0 <= k < i ==> s@[k] == p@[k],
        decreases np - i,
    {
        if s.get_char(i) != p.get_char(i) {
            assert(s@.subrange(0, np as int)[i as int] != p@[i as int]);
            return false;
        }
        i = i + 1;
    }
    assert(s@.subrange(0, np as int) =~= p@);
    true
}

/// The view of an optional route path.
pub open spec fn route_view(from: Option<&str>) -> Option<Seq<char>> {
    match from {
        Some(f) => Some(f@),
        None => None,
    }
}

/// Resolves `path` against `base` and, where `path` is relative, against the
/// route at `from`, as a link is resolved against a document. Gives nothing
/// for a path that begins with a scheme or `//`.
pub fn resolve_path(base: &str, path: &str, from: Option<&str>) -> (r: Option<String>)
    ensures
        r matches Some(v) ==> resolved_path(base@, path@, route_view(from)) == Some(v@),
        r is None ==> resolved_path(base@, path@, route_view(from)) is None,
{
    if starts_with_scheme(path) {
        return None;
    }
    let base_path = normalize(base, false);
    let result = match from {
        Some(f) => {
            if path.unicode_len() > 0 && path.get_char(0) == '/' {
                base_path
            } else {
                let from_path = normalize(f, false);
                if has_prefix(base_path.as_str(), from_path.as_str()) {
                    from_path
                } else {
                    base_path.concat(from_path.as_str())
                }
            }
        },
        None => base_path,
    };
    let empty = result.as_str().unicode_len() == 0;
    let prefix = if empty {
        proof {
            reveal_strlit("/");
        }
        String::from_str("/")
    } else {
        result
    };
    let rest = normalize(path, empty);
    Some(prefix.concat(rest.as_str()))
}

proof fn lemma_trimmed(s: Seq<char>)
    ensures
        trim_back(trim_front(s)).len() == 0 || (trim_back(trim_front(s))[0] != '/'
            && trim_back(trim_front(s)).last() != '/'),
{
    let f = trim_front(s);
    lemma_trim_front_head(s);
    lemma_trim_back_prefix(f);
    if trim_back(f).len() > 0 {
        assert(trim_back(f)[0] == f[0]);
    }
}

proof fn lemma_trim_fixed(u: Seq<char>)
    requires
        u.len() == 0 || (u[0] != '/' && u.last() != '/'),
    ensures
        trim_back(trim_front(u)) == u,
{
}

/// A path that resolving gave resolves, against the root and with no route,
/// to itself: where the base and the route's path are not a bare query or
/// fragment.
pub proof fn lemma_resolved_path_is_fixed(
    base: Seq<char>,
    to: Seq<char>,
    from: Option<Seq<char>>,
    t: Seq<char>,
)
    requires
        resolved_path(base, to, from) == Some(t),
        !starts_query_or_hash(normalized(base, false)),
        from matches Some(f) ==> !starts_query_or_hash(normalized(f, false)),
    ensures
        resolved_path(Seq::empty(), t, None) == Some(t),
{
    let b = normalized(base, false);
    lemma_normalized_is_normal(base);
    let result = match from {
        Some(f) => if to.len() > 0 && to[0] == '/' {
            b
        } else {
            route_prefix(base, f)
        },
        None => b,
    };
    if let Some(f) = from {
        lemma_normalized_is_normal(f);
        lemma_normal_concat(b, normalized(f, false));
    }
    assert(is_normal(result) && !starts_query_or_hash(result));
    assert(normalized(Seq::<char>::empty(), false) =~= Seq::<char>::empty()) by {
        assert(trim_front(Seq::<char>::empty()) =~= Seq::<char>::empty());
    }
    if result.len() == 0 {
        let u = trim_back(trim_front(to));
        lemma_trimmed(to);
        assert(t == seq!['/'] + u);
        assert(t.drop_first() =~= u);
        assert(trim_front(t) == trim_front(u));
        lemma_trim_fixed(u);
        assert(seq!['/'] + u =~= t);
        if u.len() > 0 {
            assert(t[1] == u[0]);
        }
    } else {
        let n = normalized(to, false);
        lemma_normalized_is_normal(to);
        lemma_normal_concat(result, n);
        assert(t == result + n);
        assert(t[0] == result[0]);
        let u = t.drop_first();
        assert(trim_front(t) == trim_front(u));
        assert(t[1] == u[0]);
        assert(u.last() == t.last());
        lemma_trim_fixed(u);
        assert(seq!['/'] + u =~= t);
    }
}

} // verus!
