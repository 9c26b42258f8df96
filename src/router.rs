//! The router's navigation state: the current location, the referrer stack
//! that coalesces redirect chains, and the handling of clicks on links.
use crate::matching::{resolve_path, resolved_path};
use crate::params::no_params;
use crate::route::RouteContext;
use crate::matching::{is_prefix, lemma_resolved_path_is_fixed, normalized, starts_query_or_hash};
use crate::url::{before_sep, lemma_sep_at, query_params, split_on, unescape, unescaped, Url};
use vstd::prelude::*;

verus! {

/// The most navigations that may be pending at once; one more is refused as
/// a redirect loop.
pub const MAX_REFERRERS: usize = 32;

/// The state payload that travels with a location.
pub struct State {
    pub value: Option<String>,
}

impl View for State {
    type V = Option<Seq<char>>;

    open spec fn view(&self) -> Option<Seq<char>> {
        match self.value {
            Some(s) => Some(s@),
            None => None,
        }
    }
}

impl State {
    /// No state.
    pub fn none() -> (r: State)
        ensures
            r@ is None,
    {
        State { value: None }
    }

    /// Whether both hold the same payload.
    pub fn same_as(&self, other: &State) -> (r: bool)
        ensures
            r == (self@ == other@),
    {
        match (&self.value, &other.value) {
            (Some(a), Some(b)) => a.eq(b),
            (None, None) => true,
            _ => false,
        }
    }

    /// A copy holding the same payload.
    pub fn duplicate(&self) -> (r: State)
        ensures
            r@ == self@,
    {
        match &self.value {
            Some(s) => State { value: Some(s.clone()) },
            None => State { value: None },
        }
    }
}

/// A location exchanged with the history: path, query and fragment, whether
/// it replaces the current entry, whether to scroll, and its state.
pub struct LocationChange {
    pub value: String,
    pub replace: bool,
    pub scroll: bool,
    pub state: State,
}

/// A location change as plain values.
pub struct ChangeView {
    pub value: Seq<char>,
    pub replace: bool,
    pub scroll: bool,
    pub state: Option<Seq<char>>,
}

impl View for LocationChange {
    type V = ChangeView;

    open spec fn view(&self) -> ChangeView {
        ChangeView {
            value: self.value@,
            replace: self.replace,
            scroll: self.scroll,
            state: self.state@,
        }
    }
}

/// The views of a stack of location changes.
pub open spec fn change_views(v: Seq<LocationChange>) -> Seq<ChangeView> {
    v.map_values(|c: LocationChange| c@)
}

/// How a navigation is asked for: `resolve` resolves the target against the
/// base route; `replace`, `scroll` and `state` go with the new location.
pub struct NavigateOptions {
    pub resolve: bool,
    pub replace: bool,
    pub scroll: bool,
    pub state: State,
}

impl Default for NavigateOptions {
    fn default() -> (r: NavigateOptions)
        ensures
            r.resolve,
            !r.replace,
            r.scroll,
            r.state@ is None,
    {
        NavigateOptions { resolve: true, replace: false, scroll: true, state: State::none() }
    }
}

/// Why a navigation was refused.
pub enum NavigationError {
    /// The target resolves to no path.
    NotRoutable(String),
    /// Too many navigations are pending: a redirect loop.
    MaxRedirects,
}

impl NavigationError {
    /// A message for the error: `Path "p" is not routable`, or
    /// `Too many redirects`.
    pub fn message(&self) -> (r: String)
        ensures
            self matches NavigationError::NotRoutable(p) ==> r@ == not_routable_message(p@),
            self is MaxRedirects ==> r@ == max_redirects_message(),
    {
        proof {
            reveal_strlit("Path \"");
            reveal_strlit("\" is not routable");
            reveal_strlit("Too many redirects");
        }
        match self {
            NavigationError::NotRoutable(p) => {
                let s = String::from_str("Path \"");
                s.concat(p.as_str()).concat("\" is not routable")
            },
            NavigationError::MaxRedirects => String::from_str("Too many redirects"),
        }
    }
}

/// The message of a `NotRoutable` error for the path `p`.
pub open spec fn not_routable_message(p: Seq<char>) -> Seq<char> {
    seq!['P', 'a', 't', 'h', ' ', '"'] + p + seq![
        '"',
        ' ',
        'i',
        's',
        ' ',
        'n',
        'o',
        't',
        ' ',
        'r',
        'o',
        'u',
        't',
        'a',
        'b',
        'l',
        'e',
    ]
}

/// The message of a `MaxRedirects` error.
pub open spec fn max_redirects_message() -> Seq<char> {
    seq![
        'T',
        'o',
        'o',
        ' ',
        'm',
        'a',
        'n',
        'y',
        ' ',
        'r',
        'e',
        'd',
        'i',
        'r',
        'e',
        'c',
        't',
        's',
    ]
}

/// A navigation whose location has been set, waiting for the redirects that
/// setting it may have caused: `depth` is the referrer count right after it
/// was pushed, `next` the location it went to.
pub struct PendingNavigation {
    pub depth: usize,
    pub next: LocationChange,
}

/// The settings of a router.
pub struct RouterProps {
    pub base: Option<String>,
}

/// The router's state: its base path and base route, the current location
/// and state, and the referrer stack of pending navigations.
pub struct RouterContext {
    pub base_path: String,
    pub base: RouteContext,
    pub reference: String,
    pub state: State,
    pub referrers: Vec<LocationChange>,
}

/// Where a navigation to `to` leads from the base route `base`: against the
/// route where `resolve` is set, else against the root.
pub open spec fn navigation_target(base: RouteContext, to: Seq<char>, resolve: bool) -> Option<
    Seq<char>,
> {
    if resolve {
        resolved_path(base.base_path@, to, Some(base.path@))
    } else {
        resolved_path(Seq::empty(), to, None)
    }
}

/// The path part of a location: what stands before its first `?` or `#`.
pub open spec fn path_part(s: Seq<char>) -> Seq<char>
    decreases s.len(),
{
    if s.len() == 0 || s[0] == '?' || s[0] == '#' {
        Seq::empty()
    } else {
        seq![s[0]] + path_part(s.drop_first())
    }
}

/// `s` from its first `c` on, that `c` included; nothing if it has none.
pub open spec fn from_char(s: Seq<char>, c: char) -> Seq<char>
    decreases s.len(),
{
    if s.len() == 0 || s[0] == c {
        s
    } else {
        from_char(s.drop_first(), c)
    }
}

/// The fragment of a location, `#` included.
pub open spec fn hash_part(s: Seq<char>) -> Seq<char> {
    from_char(s, '#')
}

/// The query of a location, `?` included: what stands from its first `?`
/// to its fragment.
pub open spec fn search_part(s: Seq<char>) -> Seq<char> {
    from_char(before_sep(s, '#'), '?')
}

/// `s` from its first `c` on.
fn from_first(s: &str, c: char) -> (r: String)
    ensures
        r@ == from_char(s@, c),
{
    let n = s.unicode_len();
    let mut j: usize = 0;
    proof {
        assert(s@.subrange(0, n as int) =~= s@);
    }
    while j < n && s.get_char(j) != c
        invariant
            n == s@.len(),
            j <= n,
            from_char(s@, c) == from_char(s@.subrange(j as int, n as int), c),
        decreases n - j,
    {
        proof {
            assert(s@.subrange(j as int, n as int).drop_first() =~= s@.subrange(j + 1, n as int));
        }
        j = j + 1;
    }
    String::from_str(s.substring_char(j, n))
}

/// `s` up to its first `c`.
fn up_to_first(s: &str, c: char) -> (r: String)
    ensures
        r@ == before_sep(s@, c),
{
    let n = s.unicode_len();
    let mut j: usize = 0;
    while j < n && s.get_char(j) != c
        invariant
            n == s@.len(),
            j <= n,
            forall|k: int| 0 <= k < j ==> s@[k] != c,
        decreases n - j,
    {
        j = j + 1;
    }
    proof {
        lemma_sep_at(s@, c, j as int);
    }
    String::from_str(s.substring_char(0, j))
}

/// The history call that ends a chain of navigations at `next`, given the
/// first frame of the chain: `next` with the first frame's `replace` and
/// `scroll`, unless the chain came back to where it began.
pub open spec fn chain_commit(first: ChangeView, next: ChangeView) -> Option<ChangeView> {
    if next.value != first.value || next.state != first.state {
        Some(ChangeView { replace: first.replace, scroll: first.scroll, ..next })
    } else {
        None
    }
}

/// The view of an optional location change.
pub open spec fn opt_change(c: Option<LocationChange>) -> Option<ChangeView> {
    match c {
        Some(c) => Some(c@),
        None => None,
    }
}

impl RouterContext {
    /// The router's state at the start of a chain of navigations.
    pub open spec fn idle(&self) -> bool {
        self.referrers.len() == 0
    }

    /// What starting a navigation does: `r` is its result, `self` the state
    /// before and `after` the state after.
    pub open spec fn started(
        &self,
        after: RouterContext,
        to: Seq<char>,
        options: NavigateOptions,
        r: Result<Option<PendingNavigation>, NavigationError>,
    ) -> bool {
        let target = navigation_target(self.base, to, options.resolve);
        let frame = ChangeView {
            value: self.reference@,
            replace: options.replace,
            scroll: options.scroll,
            state: self.state@,
        };
        &&& after.base_path == self.base_path
        &&& after.base == self.base
        &&& match target {
            None => r matches Err(NavigationError::NotRoutable(p)) && p@ == to && after == *self,
            Some(t) => if self.referrers.len() >= MAX_REFERRERS {
                r matches Err(NavigationError::MaxRedirects) && after == *self
            } else if t == self.reference@ && options.state@ == self.state@ {
                r matches Ok(None) && after == *self
            } else {
                &&& r matches Ok(Some(p)) && p.depth == after.referrers.len() && p.next@ == (
                ChangeView { value: t, replace: false, scroll: true, state: options.state@ })
                &&& change_views(after.referrers@) == change_views(self.referrers@).push(frame)
                &&& after.reference@ == t
                &&& after.state@ == options.state@
            },
        }
    }

    /// A router at the base path `base` (resolved against the root), whose
    /// history is at `source`. Where the history is at an empty location and
    /// the base resolves, the second result is the redirect to the base path
    /// that the history is to make.
    pub fn new(base: Option<&str>, source: &LocationChange) -> (r: (RouterContext, Option<
        LocationChange,
    >))
        ensures
            r.0.reference@ == source.value@,
            r.0.state@ == source.state@,
            r.0.idle(),
            resolved_path(Seq::empty(), base.unwrap_or("")@, None) matches Some(b) ==> r.0.base_path@
                == b,
            resolved_path(Seq::empty(), base.unwrap_or("")@, None) is None ==> r.0.base_path@.len()
                == 0,
            r.0.base.base_path@ == r.0.base_path@,
            r.0.base.path@ == r.0.base_path@,
            r.0.base.child is None,
            r.0.base.params@ == no_params(),
            r.0.base.loader is None,
            r.1 matches Some(c) <==> (resolved_path(Seq::empty(), base.unwrap_or("")@, None) is Some
                && source.value@.len() == 0),
            r.1 matches Some(c) ==> c@ == (ChangeView {
                value: r.0.base_path@,
                replace: true,
                scroll: false,
                state: None,
            }),
    {
        let b = match base {
            Some(b) => b,
            None => "",
        };
        proof {
            reveal_strlit("");
        }
        let resolved = resolve_path("", b, None);
        let redirect = match &resolved {
            Some(p) => if source.value.as_str().unicode_len() == 0 {
                Some(
                    LocationChange {
                        value: p.clone(),
                        replace: true,
                        scroll: false,
                        state: State::none(),
                    },
                )
            } else {
                None
            },
            None => None,
        };
        let base_path = match resolved {
            Some(p) => p,
            None => String::new(),
        };
        let ctx = RouterContext {
            base: RouteContext::base(base_path.as_str()),
            base_path,
            reference: source.value.clone(),
            state: source.state.duplicate(),
            referrers: Vec::new(),
        };
        (ctx, redirect)
    }

    /// The path part of the current location.
    pub fn pathname(&self) -> (r: String)
        ensures
            r@ == path_part(self.reference@),
    {
        let s = self.reference.as_str();
        let n = s.unicode_len();
        let mut j: usize = 0;
        proof {
            assert(s@.subrange(0, 0) + s@ =~= s@);
            assert(s@.subrange(0, n as int) =~= s@);
        }
        while j < n && s.get_char(j) != '?' && s.get_char(j) != '#'
            invariant
                n == s@.len(),
                j <= n,
                path_part(s@) == s@.subrange(0, j as int) + path_part(s@.subrange(j as int, n as int)),
            decreases n - j,
        {
            proof {
                let rest = s@.subrange(j as int, n as int);
                assert(rest.drop_first() =~= s@.subrange(j + 1, n as int));
                assert(s@.subrange(0, j + 1) =~= s@.subrange(0, j as int).push(s@[j as int]));
                assert(s@.subrange(0, j as int) + (seq![rest[0]] + path_part(rest.drop_first()))
                    =~= s@.subrange(0, j + 1) + path_part(rest.drop_first()));
            }
            j = j + 1;
        }
        proof {
            let rest = s@.subrange(j as int, n as int);
            assert(path_part(rest) =~= Seq::<char>::empty());
            assert(s@.subrange(0, j as int) + Seq::<char>::empty() =~= s@.subrange(0, j as int));
        }
        String::from_str(s.substring_char(0, j))
    }

    /// The query of the current location, `?` included.
    pub fn search(&self) -> (r: String)
        ensures
            r@ == search_part(self.reference@),
    {
        let before = up_to_first(self.reference.as_str(), '#');
        from_first(before.as_str(), '?')
    }

    /// The fragment of the current location, `#` included.
    pub fn hash(&self) -> (r: String)
        ensures
            r@ == hash_part(self.reference@),
    {
        from_first(self.reference.as_str(), '#')
    }

    /// The parameters of the current location's query.
    pub fn query(&self) -> (r: crate::params::ParamsMap)
        ensures
            r@ == query_params(search_part(self.reference@)),
    {
        let url = Url {
            origin: String::new(),
            pathname: self.pathname(),
            search: self.search(),
            hash: String::new(),
        };
        url.search_params()
    }

    /// The base route.
    pub fn base(&self) -> (r: &RouteContext)
        ensures
            *r == self.base,
    {
        &self.base
    }

    /// A location from the history itself: where it differs from the current
    /// location, the location and state take its values. The referrer stack
    /// is not touched.
    pub fn on_history_change(&mut self, change: &LocationChange)
        ensures
            final(self).base_path == old(self).base_path,
            final(self).base == old(self).base,
            final(self).referrers == old(self).referrers,
            change.value@ != old(self).reference@ ==> final(self).reference@ == change.value@
                && final(self).state@ == change.state@,
            change.value@ == old(self).reference@ ==> *final(self) == *old(self),
    {
        if change.value != self.reference {
            self.reference = change.value.clone();
            self.state = change.state.duplicate();
        }
    }

    /// Starts a navigation to `to`: resolves it, refuses it when it resolves
    /// to nothing or when `MAX_REFERRERS` navigations are pending, and where
    /// the location or state changes, pushes the current location onto the
    /// referrer stack and moves to the new one. The result is then to be
    /// handed to `navigate_settle` once what the move caused has run.
    pub fn navigate_from_route(&mut self, to: &str, options: &NavigateOptions) -> (r: Result<
        Option<PendingNavigation>,
        NavigationError,
    >)
        ensures
            old(self).started(*final(self), to@, *options, r),
    {
        let resolved = if options.resolve {
            self.base.resolve_path(to)
        } else {
            proof {
                reveal_strlit("");
            }
            resolve_path("", to, None)
        };
        match resolved {
            None => Err(NavigationError::NotRoutable(String::from_str(to))),
            Some(t) => {
                if self.referrers.len() >= MAX_REFERRERS {
                    return Err(NavigationError::MaxRedirects);
                }
                if t == self.reference && options.state.same_as(&self.state) {
                    return Ok(None);
                }
                let frame = LocationChange {
                    value: self.reference.clone(),
                    replace: options.replace,
                    scroll: options.scroll,
                    state: self.state.duplicate(),
                };
                let ghost before = self.referrers@;
                self.referrers.push(frame);
                proof {
                    assert(change_views(self.referrers@) =~= change_views(before).push(frame@));
                }
                self.reference = t.clone();
                self.state = options.state.duplicate();
                let next = LocationChange {
                    value: t,
                    replace: false,
                    scroll: true,
                    state: options.state.duplicate(),
                };
                Ok(Some(PendingNavigation { depth: self.referrers.len(), next }))
            },
        }
    }

    /// Settles a started navigation: where no navigation was pushed since it
    /// (the stack is still `depth` deep), the chain ends here; otherwise a
    /// later navigation has ended or will end it, and nothing happens.
    pub fn navigate_settle(&mut self, pending: PendingNavigation) -> (r: Option<LocationChange>)
        ensures
            old(self).settled(*final(self), pending, r),
    {
        if self.referrers.len() == pending.depth {
            self.navigate_end(pending.next)
        } else {
            None
        }
    }

    /// What settling `pending` does: `self` is the state before, `after` the
    /// state after, `r` the history call to make.
    pub open spec fn settled(
        &self,
        after: RouterContext,
        pending: PendingNavigation,
        r: Option<LocationChange>,
    ) -> bool {
        &&& self.referrers.len() == pending.depth ==> after.navigation_ended(
            *self,
            pending.next@,
            r,
        )
        &&& self.referrers.len() != pending.depth ==> r is None && after == *self
    }

    /// What ending a chain at `next` did, from the state `before`.
    pub open spec fn navigation_ended(
        &self,
        before: RouterContext,
        next: ChangeView,
        r: Option<LocationChange>,
    ) -> bool {
        &&& self.base_path == before.base_path
        &&& self.base == before.base
        &&& self.reference == before.reference
        &&& self.state == before.state
        &&& if before.referrers.len() == 0 {
            r is None && self.referrers == before.referrers
        } else {
            &&& opt_change(r) == chain_commit(change_views(before.referrers@)[0], next)
            &&& self.idle()
        }
    }

    /// Ends a chain of navigations at `next`: where it leads elsewhere than
    /// the chain's first frame, gives the one history call to make, carrying
    /// the first frame's `replace` and `scroll`; the referrer stack is
    /// cleared.
    pub fn navigate_end(&mut self, next: LocationChange) -> (r: Option<LocationChange>)
        ensures
            final(self).navigation_ended(*old(self), next@, r),
    {
        if self.referrers.len() == 0 {
            return None;
        }
        let first = &self.referrers[0];
        assert(change_views(self.referrers@)[0] == first@);
        let commit = if next.value != first.value || !next.state.same_as(&first.state) {
            Some(
                LocationChange {
                    value: next.value,
                    replace: first.replace,
                    scroll: first.scroll,
                    state: next.state,
                },
            )
        } else {
            None
        };
        self.referrers.clear();
        commit
    }

    /// What a navigation that settles at once does: `r` is its result,
    /// `self` the state before and `after` the state after.
    pub open spec fn navigated(
        &self,
        after: RouterContext,
        to: Seq<char>,
        options: NavigateOptions,
        r: Result<Option<LocationChange>, NavigationError>,
    ) -> bool {
        exists|s: RouterContext, p: Result<Option<PendingNavigation>, NavigationError>|
            {
                &&& #[trigger] self.started(s, to, options, p)
                &&& match p {
                    Ok(Some(pn)) => r matches Ok(c) && after.navigation_ended(s, pn.next@, c),
                    Ok(None) => r matches Ok(None) && after == s,
                    Err(NavigationError::NotRoutable(e)) => r matches Err(
                        NavigationError::NotRoutable(e2),
                    ) && e2@ == e@ && after == s,
                    Err(NavigationError::MaxRedirects) => r matches Err(
                        NavigationError::MaxRedirects,
                    ) && after == s,
                }
            }
    }

    /// Navigates to `to` where nothing runs between the move and its
    /// settling: starts the navigation and settles it at once. Gives the
    /// history call to make, if any.
    pub fn navigate(&mut self, to: &str, options: &NavigateOptions) -> (r: Result<
        Option<LocationChange>,
        NavigationError,
    >)
        ensures
            old(self).navigated(*final(self), to@, *options, r),
    {
        let started = self.navigate_from_route(to, options);
        match started {
            Ok(Some(p)) => {
                let c = self.navigate_settle(p);
                Ok(c)
            },
            Ok(None) => Ok(None),
            Err(e) => Err(e),
        }
    }
}

/// What lower-casing a string yields.
pub uninterp spec fn lowercase_of(s: Seq<char>) -> Seq<char>;

/// Relies on `str::to_lowercase`: the result depends on the characters alone.
#[verifier::external_body]
fn to_lower(s: &str) -> (r: String)
    ensures
        r@ == lowercase_of(s@),
{
    s.to_lowercase()
}

/// An anchor element on a click's path.
pub struct Anchor {
    pub href: String,
    pub target: String,
    /// Whether it has a `state` attribute.
    pub has_state: bool,
    /// Whether it has a `download` attribute.
    pub has_download: bool,
    /// Its `rel` attribute.
    pub rel: Option<String>,
    /// Its `href` parsed against the page, where it parses.
    pub url: Option<Url>,
    /// Whether it has a `replace` attribute.
    pub has_replace: bool,
    /// Whether it has a `noscroll` attribute.
    pub has_noscroll: bool,
}

/// A click, with the nearest anchor on its path.
pub struct ClickEvent {
    pub default_prevented: bool,
    pub button: i16,
    pub meta_key: bool,
    pub alt_key: bool,
    pub ctrl_key: bool,
    pub shift_key: bool,
    pub anchor: Option<Anchor>,
}

/// `s` with each tab read as a space.
pub open spec fn tab_as_space(s: Seq<char>) -> Seq<char> {
    s.map_values(|c: char| if c == '\t' { ' ' } else { c })
}

/// The word `external`.
pub open spec fn external_word() -> Seq<char> {
    seq!['e', 'x', 't', 'e', 'r', 'n', 'a', 'l']
}

/// Whether a `rel` value, split on spaces and tabs, holds `external`.
pub open spec fn rel_is_external(rel: Seq<char>) -> bool {
    split_on(tab_as_space(rel), ' ').contains(external_word())
}

/// The location that a click on `anchor` leads to, where the router takes
/// it over: none where the anchor has a target, no `href` and no state, a
/// download, `rel=external`, an `href` that does not parse, another origin
/// than the page's, or a path outside the base path (compared without case).
pub open spec fn anchor_destination(base_path: Seq<char>, a: Anchor, origin: Seq<char>) -> Option<
    Seq<char>,
> {
    if a.target@.len() > 0 || (a.href@.len() == 0 && !a.has_state) {
        None
    } else if a.has_download || (a.rel matches Some(r) && rel_is_external(r@)) {
        None
    } else {
        match a.url {
            None => None,
            Some(u) => {
                let p = unescaped(u.pathname@);
                if u.origin@ != origin || (base_path.len() > 0 && p.len() > 0 && !is_prefix(
                    lowercase_of(base_path),
                    lowercase_of(p),
                )) {
                    None
                } else {
                    Some(p + unescaped(u.search@) + unescaped(u.hash@))
                }
            },
        }
    }
}

/// Whether the router takes a click over: an unmodified left click, not
/// already handled, on an anchor that leads somewhere it routes.
pub open spec fn click_destination(base_path: Seq<char>, ev: ClickEvent, origin: Seq<char>) -> Option<
    Seq<char>,
> {
    if ev.default_prevented || ev.button != 0 || ev.meta_key || ev.alt_key || ev.ctrl_key
        || ev.shift_key {
        None
    } else {
        match ev.anchor {
            None => None,
            Some(a) => anchor_destination(base_path, a, origin),
        }
    }
}

/// The options of a navigation that a click on `a` asks for.
pub open spec fn click_options(a: Anchor) -> NavigateOptions {
    NavigateOptions {
        resolve: false,
        replace: a.has_replace,
        scroll: !a.has_noscroll,
        state: State { value: None },
    }
}

/// Whether `rel`, split on spaces and tabs, holds the word `external`.
fn has_external_token(rel: &str) -> (r: bool)
    ensures
        r == rel_is_external(rel@),
{
    let n = rel.unicode_len();
    let word = String::from_str("external");
    proof {
        reveal_strlit("external");
        assert(word@ =~= external_word());
    }
    let ghost t = tab_as_space(rel@);
    let mut start: usize = 0;
    let mut i: usize = 0;
    let mut found = false;
    let ghost mut done: Seq<Seq<char>> = Seq::empty();
    proof {
        assert(t.subrange(0, 0) =~= Seq::<char>::empty());
        assert(split_on(Seq::<char>::empty(), ' ') =~= done.push(Seq::<char>::empty()));
    }
    while i < n
        invariant
            n == rel@.len(),
            t == tab_as_space(rel@),
            word@ == external_word(),
            start <= i <= n,
            split_on(t.subrange(0, i as int), ' ') == done.push(t.subrange(start as int, i as int)),
            found == done.contains(external_word()),
            forall|k: int| start <= k < i ==> t[k] == rel@[k],
        decreases n - i,
    {
        let c = rel.get_char(i);
        let ghost pre = t.subrange(0, i as int);
        let ghost cur = t.subrange(start as int, i as int);
        proof {
            crate::url::lemma_split_nonempty(pre, ' ');
            assert(t.subrange(0, i + 1).drop_last() =~= pre);
            assert(t[i as int] == if c == '\t' { ' ' } else { c });
        }
        if c == ' ' || c == '\t' {
            let piece = String::from_str(rel.substring_char(start, i));
            proof {
                assert(piece@ =~= cur);
            }
            let same = piece == word;
            proof {
                assert(done.push(cur).drop_last() =~= done);
                assert(done.push(cur).contains(external_word()) == (done.contains(external_word())
                    || cur == external_word())) by {
                    if cur == external_word() {
                        assert(done.push(cur)[done.len() as int] == cur);
                    }
                    if done.push(cur).contains(external_word()) {
                        let k = choose|k: int| 0 <= k < done.push(cur).len() && done.push(cur)[k]
                            == external_word();
                        if k < done.len() {
                            assert(done[k] == external_word());
                        }
                    }
                    if done.contains(external_word()) {
                        let k = choose|k: int| 0 <= k < done.len() && done[k] == external_word();
                        assert(done.push(cur)[k] == external_word());
                    }
                }
                done = done.push(cur);
                assert(t.subrange(i + 1, i + 1) =~= Seq::<char>::empty());
            }
            found = found || same;
            start = i + 1;
        } else {
            proof {
                assert(t.subrange(start as int, i + 1) =~= cur.push(t[i as int]));
                assert(done.push(cur).update(done.len() as int, cur.push(t[i as int])) =~= done.push(
                    cur.push(t[i as int]),
                ));
            }
        }
        i = i + 1;
    }
    let piece = String::from_str(rel.substring_char(start, n));
    let ghost cur = t.subrange(start as int, n as int);
    proof {
        assert(piece@ =~= cur);
        assert(t.subrange(0, n as int) =~= t);
    }
    let same = piece == word;
    proof {
        let all = done.push(cur);
        assert(all.contains(external_word()) == (done.contains(external_word()) || cur
            == external_word())) by {
            if cur == external_word() {
                assert(all[done.len() as int] == cur);
            }
            if all.contains(external_word()) {
                let k = choose|k: int| 0 <= k < all.len() && all[k] == external_word();
                if k < done.len() {
                    assert(done[k] == external_word());
                }
            }
            if done.contains(external_word()) {
                let k = choose|k: int| 0 <= k < done.len() && done[k] == external_word();
                assert(all[k] == external_word());
            }
        }
    }
    found || same
}

impl RouterContext {
    /// Where a click leads, where the router takes it over.
    fn click_target(&self, ev: &ClickEvent, origin: &str) -> (r: Option<String>)
        ensures
            r matches Some(t) ==> click_destination(self.base_path@, *ev, origin@) == Some(t@),
            r is None ==> click_destination(self.base_path@, *ev, origin@) is None,
    {
        if ev.default_prevented || ev.button != 0 || ev.meta_key || ev.alt_key || ev.ctrl_key
            || ev.shift_key {
            return None;
        }
        let a = match &ev.anchor {
            Some(a) => a,
            None => return None,
        };
        if a.target.as_str().unicode_len() > 0 || (a.href.as_str().unicode_len() == 0
            && !a.has_state) {
            return None;
        }
        if a.has_download {
            return None;
        }
        if let Some(rel) = &a.rel {
            if has_external_token(rel.as_str()) {
                return None;
            }
        }
        let u = match &a.url {
            Some(u) => u,
            None => return None,
        };
        let p = unescape(u.pathname.as_str());
        if !u.origin.eq(&String::from_str(origin)) {
            return None;
        }
        if self.base_path.as_str().unicode_len() > 0 && p.as_str().unicode_len() > 0 {
            let lower_base = to_lower(self.base_path.as_str());
            let lower_path = to_lower(p.as_str());
            if !crate::matching::has_prefix(lower_base.as_str(), lower_path.as_str()) {
                return None;
            }
        }
        let search = unescape(u.search.as_str());
        let hash = unescape(u.hash.as_str());
        Some(p.concat(search.as_str()).concat(hash.as_str()))
    }

    /// Handles a click: where the router takes it over (see
    /// `click_destination`), the page's own navigation is to be prevented and
    /// the router navigates to the anchor's location, unresolved, with
    /// `replace` and `scroll` from the anchor's attributes and no state; the
    /// result is that navigation's. Otherwise nothing changes and the result
    /// is `None`.
    pub fn handle_anchor_click(&mut self, ev: &ClickEvent, origin: &str) -> (r: Option<
        Result<Option<LocationChange>, NavigationError>,
    >)
        ensures
            click_destination(old(self).base_path@, *ev, origin@) is None ==> r is None
                && *final(self) == *old(self),
            click_destination(old(self).base_path@, *ev, origin@) matches Some(to) ==> r matches Some(
                res,
            ) && old(self).navigated(*final(self), to, click_options(ev.anchor.unwrap()), res),
    {
        let to = match self.click_target(ev, origin) {
            Some(t) => t,
            None => return None,
        };
        let a = match &ev.anchor {
            Some(a) => a,
            None => return None,
        };
        let options = NavigateOptions {
            resolve: false,
            replace: a.has_replace,
            scroll: !a.has_noscroll,
            state: State::none(),
        };
        assert(options == click_options(ev.anchor.unwrap()));
        Some(self.navigate(to.as_str(), &options))
    }
}

/// The base path that router settings ask for; empty where none is given.
pub open spec fn props_base(props: RouterProps) -> Seq<char> {
    match props.base {
        Some(b) => b@,
        None => Seq::empty(),
    }
}

/// Sets up a router from its settings, with the history at `source`: the
/// router's state, and the redirect to the base path that the history is to
/// make, if any (see `RouterContext::new`).
#[allow(non_snake_case)]
pub fn Router(props: &RouterProps, source: &LocationChange) -> (r: (RouterContext, Option<
    LocationChange,
>))
    ensures
        r.0.reference@ == source.value@,
        r.0.state@ == source.state@,
        r.0.idle(),
        resolved_path(Seq::empty(), props_base(*props), None) matches Some(b) ==> r.0.base_path@
            == b,
        resolved_path(Seq::empty(), props_base(*props), None) is None ==> r.0.base_path@.len()
            == 0,
        r.0.base.base_path@ == r.0.base_path@,
        r.0.base.path@ == r.0.base_path@,
        r.0.base.child is None,
        r.0.base.params@ == no_params(),
        r.0.base.loader is None,
        r.1 matches Some(c) <==> (resolved_path(
            Seq::empty(),
            match props.base {
                Some(b) => b@,
                None => Seq::empty(),
            },
            None,
        ) is Some && source.value@.len() == 0),
        r.1 matches Some(c) ==> c@ == (ChangeView {
            value: r.0.base_path@,
            replace: true,
            scroll: false,
            state: None,
        }),
{
    proof {
        reveal_strlit("");
    }
    match &props.base {
        Some(b) => RouterContext::new(Some(b.as_str()), source),
        None => RouterContext::new(None, source),
    }
}

/// A click on an anchor that has a target, or whose `href` leads to another
/// origin than the page's, is never taken over: `handle_anchor_click` then
/// leaves the router as it was.
pub proof fn lemma_targeted_or_foreign_click_ignored(
    base_path: Seq<char>,
    ev: ClickEvent,
    origin: Seq<char>,
)
    requires
        ev.anchor matches Some(a) && (a.target@.len() > 0 || (a.url matches Some(u) && u.origin@
            != origin)),
    ensures
        click_destination(base_path, ev, origin) is None,
{
}

/// A chain of three navigations, each started while the one before it was
/// being handled and each settled in turn from the innermost out, makes
/// exactly one history call: to where the last one went, with the `replace`
/// and `scroll` asked for by the first. The innermost settling makes it, the
/// two others make none, and the router ends at the last location with no
/// navigation pending. This holds where the chain does not end where it
/// began.
pub proof fn lemma_redirect_chain_commits_once(
    s0: RouterContext,
    s1: RouterContext,
    s2: RouterContext,
    s3: RouterContext,
    s4: RouterContext,
    s5: RouterContext,
    s6: RouterContext,
    to_a: Seq<char>,
    to_b: Seq<char>,
    to_c: Seq<char>,
    oa: NavigateOptions,
    ob: NavigateOptions,
    oc: NavigateOptions,
    pa: PendingNavigation,
    pb: PendingNavigation,
    pc: PendingNavigation,
    hc: Option<LocationChange>,
    hb: Option<LocationChange>,
    ha: Option<LocationChange>,
)
    requires
        s0.idle(),
        s0.started(s1, to_a, oa, Ok(Some(pa))),
        s1.started(s2, to_b, ob, Ok(Some(pb))),
        s2.started(s3, to_c, oc, Ok(Some(pc))),
        s3.settled(s4, pc, hc),
        s4.settled(s5, pb, hb),
        s5.settled(s6, pa, ha),
        s3.reference@ != s0.reference@ || s3.state@ != s0.state@,
    ensures
        hc matches Some(h) && h.value@ == s3.reference@ && h.replace == oa.replace && h.scroll
            == oa.scroll && h.state@ == oc.state@,
        hb is None,
        ha is None,
        s6.reference == s3.reference,
        s6.idle(),
{
    let v1 = change_views(s1.referrers@);
    let v2 = change_views(s2.referrers@);
    let v3 = change_views(s3.referrers@);
    assert(change_views(s0.referrers@) =~= Seq::<ChangeView>::empty());
    assert(v1.len() == 1 && v2.len() == 2 && v3.len() == 3);
    assert(v2[0] == v1[0]);
    assert(v3[0] == v2[0]);
    assert(s3.referrers@.len() == v3.len());
    assert(s1.referrers@.len() == v1.len());
    assert(s2.referrers@.len() == v2.len());
}

/// Navigating to `to` resolved against the base route does what navigating,
/// with `resolve` off, to the path it resolves to does: the same result and
/// the same state after. This holds where the base route's paths are not a
/// bare query or fragment.
pub proof fn lemma_resolved_navigation(
    ctx: RouterContext,
    after: RouterContext,
    to: Seq<char>,
    options: NavigateOptions,
    t: Seq<char>,
    r: Result<Option<PendingNavigation>, NavigationError>,
)
    requires
        options.resolve,
        navigation_target(ctx.base, to, true) == Some(t),
        !starts_query_or_hash(normalized(ctx.base.base_path@, false)),
        !starts_query_or_hash(normalized(ctx.base.path@, false)),
    ensures
        ctx.started(after, to, options, r) == ctx.started(
            after,
            t,
            NavigateOptions { resolve: false, ..options },
            r,
        ),
{
    lemma_resolved_path_is_fixed(ctx.base.base_path@, to, Some(ctx.base.path@), t);
}

/// A navigation started while `MAX_REFERRERS` navigations are pending is
/// refused as a redirect loop, and leaves the location as it was.
pub proof fn lemma_full_stack_refuses(
    ctx: RouterContext,
    after: RouterContext,
    to: Seq<char>,
    options: NavigateOptions,
    r: Result<Option<PendingNavigation>, NavigationError>,
)
    requires
        ctx.referrers.len() >= MAX_REFERRERS,
        navigation_target(ctx.base, to, options.resolve) is Some,
        ctx.started(after, to, options, r),
    ensures
        r matches Err(NavigationError::MaxRedirects),
        after.reference == ctx.reference,
        after.state == ctx.state,
        after.referrers == ctx.referrers,
{
}

} // verus!
