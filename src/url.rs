//! URLs split into their parts, query strings, and percent-escaping.
use crate::params::ParamsMap;
use vstd::prelude::*;

verus! {

/// What percent-decoding yields: `None` where the decoded bytes are not UTF-8.
pub uninterp spec fn percent_decoded(s: Seq<char>) -> Option<Seq<char>>;

/// What percent-encoding yields.
pub uninterp spec fn percent_encoded(s: Seq<char>) -> Seq<char>;

/// Whether `s` holds no `%`.
pub open spec fn no_percent(s: Seq<char>) -> bool {
    forall|i: int| 0 <= i < s.len() ==> s[i] != '%'
}

/// Relies on `urlencoding::decode`: each `%XX` becomes the byte it names, and
/// the call fails where the bytes so obtained are not UTF-8; text without `%`
/// comes back as it is.
#[verifier::external_body]
fn percent_decode(s: &str) -> (r: Option<String>)
    ensures
        match r {
            Some(d) => percent_decoded(s@) == Some(d@),
            None => percent_decoded(s@) is None,
        },
        no_percent(s@) ==> r is Some && r.unwrap()@ == s@,
{
    urlencoding::decode(s).ok().map(|d| d.into_owned())
}

/// Relies on `urlencoding::encode`: every byte but ASCII letters, digits and
/// `-`, `.`, `_`, `~` becomes `%XX`. So no `+` is left, and decoding the
/// result gives back the input, which was UTF-8.
#[verifier::external_body]
fn percent_encode(s: &str) -> (r: String)
    ensures
        r@ == percent_encoded(s@),
        percent_decoded(r@) == Some(s@),
        forall|i: int| 0 <= i < r@.len() ==> r@[i] != '+',
{
    urlencoding::encode(s).into_owned()
}

/// `s` with each `+` read as a space.
pub open spec fn plus_as_space(s: Seq<char>) -> Seq<char> {
    s.map_values(|c: char| if c == '+' { ' ' } else { c })
}

/// Form decoding: `+` stands for a space, then percent escapes are decoded;
/// where those do not decode to UTF-8 the text is kept as it is.
pub open spec fn unescaped(s: Seq<char>) -> Seq<char> {
    let t = plus_as_space(s);
    match percent_decoded(t) {
        Some(d) => d,
        None => t,
    }
}

/// Replaces each `+` of `s` with a space.
fn spaces_for_plus(s: &str) -> (r: String)
    ensures
        r@ == plus_as_space(s@),
{
    let n = s.unicode_len();
    let mut out = String::new();
    let mut i: usize = 0;
    proof {
        reveal_strlit(" ");
        assert(s@.subrange(0, 0) =~= Seq::<char>::empty());
        assert(plus_as_space(s@.subrange(0, 0)) =~= Seq::<char>::empty());
    }
    while i < n
        invariant
            n == s@.len(),
            i <= n,
            out@ == plus_as_space(s@.subrange(0, i as int)),
        decreases n - i,
    {
        let c = s.get_char(i);
        proof {
            reveal_strlit(" ");
            assert(s@.subrange(i as int, i + 1) =~= seq![c]);
        }
        if c == '+' {
            out.append(" ");
        } else {
            out.append(s.substring_char(i, i + 1));
        }
        proof {
            assert(plus_as_space(s@.subrange(0, i + 1)) =~= plus_as_space(
                s@.subrange(0, i as int),
            ).push(if c == '+' { ' ' } else { c }));
        }
        i = i + 1;
    }
    proof {
        assert(s@.subrange(0, n as int) =~= s@);
    }
    out
}

/// Decodes a query-string component: `+` becomes a space and percent escapes
/// are decoded; text whose escapes do not decode to UTF-8 is kept.
pub fn unescape(s: &str) -> (r: String)
    ensures
        r@ == unescaped(s@),
        no_percent(s@) ==> r@ == plus_as_space(s@),
{
    let t = spaces_for_plus(s);
    proof {
        if no_percent(s@) {
            assert forall|i: int| 0 <= i < t@.len() implies t@[i] != '%' by {
                assert(t@[i] == (if s@[i] == '+' { ' ' } else { s@[i] }));
            }
        }
    }
    match percent_decode(t.as_str()) {
        Some(d) => d,
        None => t,
    }
}

/// Percent-encodes every character but ASCII letters, digits and `-._~`;
/// `unescape` gives the input back.
pub fn escape(s: &str) -> (r: String)
    ensures
        r@ == percent_encoded(s@),
        unescaped(r@) == s@,
{
    let r = percent_encode(s);
    proof {
        assert(plus_as_space(r@) =~= r@);
    }
    r
}

/// A URL split into its parts.
#[derive(Debug, Default, Clone, PartialEq, Eq)]
pub struct Url {
    pub origin: String,
    pub pathname: String,
    pub search: String,
    pub hash: String,
}

/// `s` without its leading `?` marks.
pub open spec fn query_body(s: Seq<char>) -> Seq<char>
    decreases s.len(),
{
    if s.len() > 0 && s[0] == '?' {
        query_body(s.drop_first())
    } else {
        s
    }
}

/// The pieces of `s` between the occurrences of `sep`; at least one piece.
pub open spec fn split_on(s: Seq<char>, sep: char) -> Seq<Seq<char>>
    decreases s.len(),
{
    if s.len() == 0 {
        seq![Seq::empty()]
    } else {
        let init = split_on(s.drop_last(), sep);
        if s.last() == sep {
            init.push(Seq::empty())
        } else {
            init.update(init.len() - 1, init.last().push(s.last()))
        }
    }
}

/// What comes before the first `sep` of `s` (all of `s` if there is none).
pub open spec fn before_sep(s: Seq<char>, sep: char) -> Seq<char>
    decreases s.len(),
{
    if s.len() == 0 {
        s
    } else if s[0] == sep {
        Seq::empty()
    } else {
        seq![s[0]] + before_sep(s.drop_first(), sep)
    }
}

/// What comes after the first `sep` of `s` (nothing if there is none).
pub open spec fn after_sep(s: Seq<char>, sep: char) -> Seq<char>
    decreases s.len(),
{
    if s.len() == 0 {
        s
    } else if s[0] == sep {
        s.drop_first()
    } else {
        after_sep(s.drop_first(), sep)
    }
}

/// Adds one `key=value` piece of a query to `m`; a piece with an empty key
/// adds nothing.
pub open spec fn with_piece(m: Map<Seq<char>, Seq<char>>, piece: Seq<char>) -> Map<
    Seq<char>,
    Seq<char>,
> {
    let k = before_sep(piece, '=');
    if k.len() == 0 {
        m
    } else {
        m.insert(unescaped(k), unescaped(after_sep(piece, '=')))
    }
}

/// The parameters that the pieces of a query give, later pieces winning.
pub open spec fn params_of_pieces(pieces: Seq<Seq<char>>) -> Map<Seq<char>, Seq<char>>
    decreases pieces.len(),
{
    if pieces.len() == 0 {
        Map::empty()
    } else {
        with_piece(params_of_pieces(pieces.drop_last()), pieces.last())
    }
}

/// The parameters of a query string such as `?a=1&b=two`.
pub open spec fn query_params(search: Seq<char>) -> Map<Seq<char>, Seq<char>> {
    params_of_pieces(split_on(query_body(search), '&'))
}

pub proof fn lemma_split_nonempty(s: Seq<char>, sep: char)
    ensures
        split_on(s, sep).len() >= 1,
    decreases s.len(),
{
    if s.len() > 0 {
        lemma_split_nonempty(s.drop_last(), sep);
    }
}

/// Where the first `sep` of `s` stands at `j`, or `j == s.len()` where there
/// is none, the parts before and after it are slices of `s`.
pub proof fn lemma_sep_at(s: Seq<char>, sep: char, j: int)
    requires
        0 <= j <= s.len(),
        forall|k: int| 0 <= k < j ==> s[k] != sep,
        j < s.len() ==> s[j] == sep,
    ensures
        before_sep(s, sep) == s.subrange(0, j),
        j < s.len() ==> after_sep(s, sep) == s.subrange(j + 1, s.len() as int),
        j == s.len() ==> after_sep(s, sep) == Seq::<char>::empty(),
    decreases s.len(),
{
    if s.len() == 0 {
        assert(s.subrange(0, j) =~= s);
    } else if j == 0 {
        assert(s.subrange(0, 0) =~= Seq::<char>::empty());
        assert(s.drop_first() =~= s.subrange(1, s.len() as int));
    } else {
        let t = s.drop_first();
        assert forall|k: int| 0 <= k < j - 1 implies t[k] != sep by {
            assert(t[k] == s[k + 1]);
        }
        lemma_sep_at(t, sep, j - 1);
        assert(s.subrange(0, j) =~= seq![s[0]] + t.subrange(0, j - 1));
        if j < s.len() {
            assert(t.subrange(j, t.len() as int) =~= s.subrange(j + 1, s.len() as int));
        }
    }
}

impl ParamsMap {
    /// Adds one `key=value` piece of a query; the key and value are unescaped.
    fn add_piece(&mut self, piece: &str)
        ensures
            final(self)@ == with_piece(old(self)@, piece@),
    {
        let n = piece.unicode_len();
        let mut j: usize = 0;
        while j < n && piece.get_char(j) != '='
            invariant
                n == piece@.len(),
                j <= n,
                forall|k: int| 0 <= k < j ==> piece@[k] != '=',
            decreases n - j,
        {
            j = j + 1;
        }
        proof {
            lemma_sep_at(piece@, '=', j as int);
            assert(piece@.subrange(0, j as int).len() == j);
            assert(piece@.subrange(n as int, n as int) =~= Seq::<char>::empty());
        }
        if j > 0 {
            let key = unescape(piece.substring_char(0, j));
            let value = if j < n {
                unescape(piece.substring_char(j + 1, n))
            } else {
                unescape(piece.substring_char(n, n))
            };
            self.insert(key, value);
        }
    }
}

impl Url {
    /// The parameters of the query: split on `&`, each piece on its first
    /// `=`; a piece with an empty key is dropped, a piece without `=` has an
    /// empty value, keys and values are unescaped, and a later piece replaces
    /// an earlier one with the same key.
    pub fn search_params(&self) -> (r: ParamsMap)
        ensures
            r@ == query_params(self.search@),
    {
        let s = self.search.as_str();
        let n = s.unicode_len();
        let mut b: usize = 0;
        proof {
            assert(s@.subrange(0, n as int) =~= s@);
        }
        while b < n && s.get_char(b) == '?'
            invariant
                n == s@.len(),
                b <= n,
                query_body(s@) == query_body(s@.subrange(b as int, n as int)),
            decreases n - b,
        {
            proof {
                assert(s@.subrange(b as int, n as int).drop_first() =~= s@.subrange(
                    b + 1,
                    n as int,
                ));
            }
            b = b + 1;
        }
        let ghost body = s@.subrange(b as int, n as int);
        assert(query_body(s@) == body) by {
            assert(s@.subrange(0, n as int) =~= s@);
        }
        let mut map = ParamsMap::new();
        let mut start: usize = b;
        let mut i: usize = b;
        let ghost mut done: Seq<Seq<char>> = Seq::empty();
        proof {
            assert(body.subrange(0, 0) =~= Seq::<char>::empty());
            assert(s@.subrange(b as int, b as int) =~= Seq::<char>::empty());
            assert(split_on(Seq::<char>::empty(), '&') =~= done.push(Seq::<char>::empty()));
        }
        while i < n
            invariant
                n == s@.len(),
                b <= start <= i <= n,
                body == s@.subrange(b as int, n as int),
                split_on(body.subrange(0, i - b), '&') == done.push(
                    s@.subrange(start as int, i as int),
                ),
                map@ == params_of_pieces(done),
            decreases n - i,
        {
            let c = s.get_char(i);
            let ghost pre = body.subrange(0, i - b);
            let ghost cur = s@.subrange(start as int, i as int);
            proof {
                lemma_split_nonempty(pre, '&');
                assert(body.subrange(0, i + 1 - b).drop_last() =~= pre);
                assert(body.subrange(0, i + 1 - b).last() == c);
            }
            if c == '&' {
                let piece = s.substring_char(start, i);
                map.add_piece(piece);
                proof {
                    assert(done.push(cur).drop_last() =~= done);
                    done = done.push(cur);
                    assert(s@.subrange(i + 1, i + 1) =~= Seq::<char>::empty());
                }
                start = i + 1;
            } else {
                proof {
                    assert(s@.subrange(start as int, i + 1) =~= cur.push(c));
                    assert(done.push(cur).update(done.len() as int, cur.push(c)) =~= done.push(
                        cur.push(c),
                    ));
                }
            }
            i = i + 1;
        }
        let last = s.substring_char(start, n);
        map.add_piece(last);
        proof {
            assert(body.subrange(0, n - b) =~= body);
            assert(done.push(last@).drop_last() =~= done);
        }
        map
    }
}

} // verus!
