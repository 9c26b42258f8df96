use leptos_router::loader::{transport_key, transport_url, use_loader, Loader};
use leptos_router::params::ParamsMap;
use leptos_router::route::RouteContext;
use leptos_router::router::{
    Anchor, ClickEvent, LocationChange, NavigateOptions, NavigationError, Router, RouterContext,
    RouterProps, State,
};
use leptos_router::url::Url;

fn change(value: &str) -> LocationChange {
    LocationChange { value: String::from(value), replace: false, scroll: true, state: State::none() }
}

fn router_at(value: &str) -> RouterContext {
    RouterContext::new(None, &change(value)).0
}

fn plain(resolve: bool) -> NavigateOptions {
    NavigateOptions { resolve, replace: false, scroll: true, state: State::none() }
}

#[test]
fn new_router_redirects_empty_location_to_base() {
    let (ctx, redirect) = RouterContext::new(Some("app"), &change(""));
    assert_eq!(ctx.base_path, "/app");
    let r = redirect.expect("redirect");
    assert_eq!(r.value, "/app");
    assert!(r.replace);
    assert!(!r.scroll);
    assert!(ctx.base.params.same_as(&ParamsMap::new()));
    assert!(ctx.base.loader.is_none());
    let (ctx2, none) = RouterContext::new(Some("app"), &change("/app/x"));
    assert!(none.is_none());
    assert_eq!(ctx2.reference, "/app/x");
    let (r, by_props) = Router(&RouterProps { base: None }, &change(""));
    assert_eq!(by_props.expect("redirect").value, "/");
    assert_eq!(r.base_path, "/");
    let (r2, _) = Router(&RouterProps { base: Some(String::from("docs/")) }, &change("/docs"));
    assert_eq!(r2.base_path, "/docs");
    assert_eq!(r2.base.path, "/docs");
}

#[test]
fn default_options() {
    let o = NavigateOptions::default();
    assert!(o.resolve && !o.replace && o.scroll && o.state.value.is_none());
}

#[test]
fn pathname_stops_at_query_or_hash() {
    assert_eq!(router_at("/a/b?x=1#h").pathname(), "/a/b");
    assert_eq!(router_at("/a#h?x").pathname(), "/a");
    assert_eq!(router_at("/plain").pathname(), "/plain");
}

#[test]
fn location_projections() {
    let ctx = router_at("/a/b?x=1&y=two+2#frag?z");
    assert_eq!(ctx.search(), "?x=1&y=two+2");
    assert_eq!(ctx.hash(), "#frag?z");
    let q = ctx.query();
    assert_eq!(q.get("x"), Some(String::from("1")));
    assert_eq!(q.get("y"), Some(String::from("two 2")));
    assert_eq!(q.get("z"), None);
    let plain = router_at("/a#h");
    assert_eq!(plain.search(), "");
    assert_eq!(plain.hash(), "#h");
}

#[test]
fn navigate_commits_one_history_call() {
    let mut ctx = router_at("/start");
    let opts = NavigateOptions { resolve: false, replace: true, scroll: false, state: State::none() };
    let call = ctx.navigate("/next?q=1", &opts).ok().unwrap().expect("history call");
    assert_eq!(call.value, "/next?q=1");
    assert!(call.replace);
    assert!(!call.scroll);
    assert_eq!(ctx.reference, "/next?q=1");
    assert!(ctx.referrers.is_empty());
}

#[test]
fn navigate_to_same_location_does_nothing() {
    let mut ctx = router_at("/same");
    assert!(matches!(ctx.navigate("/same", &plain(true)), Ok(None)));
    assert!(ctx.referrers.is_empty());
}

#[test]
fn navigate_relative_resolves_against_base_route() {
    let mut ctx = router_at("/start");
    let call = ctx.navigate("child", &plain(true)).ok().unwrap().expect("history call");
    assert_eq!(call.value, "/child");
}

#[test]
fn navigate_not_routable() {
    let mut ctx = router_at("/start");
    match ctx.navigate("https://elsewhere.example/x", &plain(false)) {
        Err(NavigationError::NotRoutable(p)) => assert_eq!(p, "https://elsewhere.example/x"),
        _ => panic!("expected NotRoutable"),
    }
    assert_eq!(ctx.reference, "/start");
}

#[test]
fn redirect_chain_coalesces_into_one_history_call() {
    let mut ctx = router_at("/start");
    let opts_a = NavigateOptions { resolve: false, replace: true, scroll: false, state: State::none() };
    let pa = ctx.navigate_from_route("/a", &opts_a).ok().unwrap().unwrap();
    let pb = ctx.navigate_from_route("/b", &plain(false)).ok().unwrap().unwrap();
    let pc = ctx.navigate_from_route("/c", &plain(false)).ok().unwrap().unwrap();
    let mut calls = Vec::new();
    for p in [pc, pb, pa] {
        if let Some(c) = ctx.navigate_settle(p) {
            calls.push(c);
        }
    }
    assert_eq!(calls.len(), 1);
    assert_eq!(calls[0].value, "/c");
    assert!(calls[0].replace);
    assert!(!calls[0].scroll);
    assert_eq!(ctx.reference, "/c");
    assert!(ctx.referrers.is_empty());
}

#[test]
fn chain_back_to_start_makes_no_history_call() {
    let mut ctx = router_at("/start");
    let pa = ctx.navigate_from_route("/a", &plain(false)).ok().unwrap().unwrap();
    let pb = ctx.navigate_from_route("/start", &plain(false)).ok().unwrap().unwrap();
    assert!(ctx.navigate_settle(pb).is_none());
    assert!(ctx.navigate_settle(pa).is_none());
    assert!(ctx.referrers.is_empty());
}

#[test]
fn too_many_pending_navigations_fail() {
    let mut ctx = router_at("/start");
    for i in 0..32 {
        let to = format!("/p{i}");
        assert!(matches!(ctx.navigate_from_route(&to, &plain(false)), Ok(Some(_))));
    }
    assert_eq!(ctx.referrers.len(), 32);
    let r = ctx.navigate_from_route("/one-more", &plain(false));
    assert!(matches!(r, Err(NavigationError::MaxRedirects)));
    assert_eq!(ctx.reference, "/p31");
    assert_eq!(ctx.referrers.len(), 32);
    assert_eq!(NavigationError::MaxRedirects.message(), "Too many redirects");
}

#[test]
fn history_change_updates_location() {
    let mut ctx = router_at("/start");
    let mut c = change("/popped");
    c.state = State { value: Some(String::from("s")) };
    ctx.on_history_change(&c);
    assert_eq!(ctx.reference, "/popped");
    assert_eq!(ctx.state.value, Some(String::from("s")));
    ctx.on_history_change(&change("/popped"));
    assert_eq!(ctx.state.value, Some(String::from("s")));
}

fn anchor(origin: &str, path: &str, target: &str) -> Anchor {
    Anchor {
        href: format!("{origin}{path}"),
        target: String::from(target),
        has_state: false,
        has_download: false,
        rel: None,
        url: Some(Url {
            origin: String::from(origin),
            pathname: String::from(path),
            search: String::new(),
            hash: String::new(),
        }),
        has_replace: false,
        has_noscroll: false,
    }
}

fn click(a: Anchor) -> ClickEvent {
    ClickEvent {
        default_prevented: false,
        button: 0,
        meta_key: false,
        alt_key: false,
        ctrl_key: false,
        shift_key: false,
        anchor: Some(a),
    }
}

const ORIGIN: &str = "http://site.example";

#[test]
fn click_on_plain_link_navigates() {
    let mut ctx = router_at("/start");
    let mut a = anchor(ORIGIN, "/about%20us", "");
    a.url.as_mut().unwrap().search = String::from("?x=a+b");
    a.has_replace = true;
    let r = ctx.handle_anchor_click(&click(a), ORIGIN).expect("taken over");
    let call = r.ok().unwrap().expect("history call");
    assert_eq!(call.value, "/about us?x=a b");
    assert!(call.replace);
    assert_eq!(ctx.reference, "/about us?x=a b");
}

#[test]
fn click_with_target_blank_is_ignored() {
    let mut ctx = router_at("/start");
    assert!(ctx.handle_anchor_click(&click(anchor(ORIGIN, "/x", "_blank")), ORIGIN).is_none());
    assert_eq!(ctx.reference, "/start");
}

#[test]
fn click_to_other_origin_is_ignored() {
    let mut ctx = router_at("/start");
    let a = anchor("http://other.example", "/x", "");
    assert!(ctx.handle_anchor_click(&click(a), ORIGIN).is_none());
    assert_eq!(ctx.reference, "/start");
}

#[test]
fn click_ignored_for_modifiers_download_and_external() {
    let mut ctx = router_at("/start");
    let mut ev = click(anchor(ORIGIN, "/x", ""));
    ev.ctrl_key = true;
    assert!(ctx.handle_anchor_click(&ev, ORIGIN).is_none());
    let mut ev = click(anchor(ORIGIN, "/x", ""));
    ev.button = 1;
    assert!(ctx.handle_anchor_click(&ev, ORIGIN).is_none());
    let mut a = anchor(ORIGIN, "/x", "");
    a.has_download = true;
    assert!(ctx.handle_anchor_click(&click(a), ORIGIN).is_none());
    let mut a = anchor(ORIGIN, "/x", "");
    a.rel = Some(String::from("noopener\texternal"));
    assert!(ctx.handle_anchor_click(&click(a), ORIGIN).is_none());
    let mut a = anchor(ORIGIN, "/x", "");
    a.rel = Some(String::from("externals noopener"));
    assert!(ctx.handle_anchor_click(&click(a), ORIGIN).is_some());
    let mut a = anchor(ORIGIN, "/y", "");
    a.url = None;
    assert!(ctx.handle_anchor_click(&click(a), ORIGIN).is_none());
}

#[test]
fn click_outside_base_path_is_ignored_case_insensitively() {
    let (mut ctx, _) = RouterContext::new(Some("/App"), &change("/App/home"));
    assert!(ctx.handle_anchor_click(&click(anchor(ORIGIN, "/other", "")), ORIGIN).is_none());
    assert_eq!(ctx.reference, "/App/home");
    let r = ctx.handle_anchor_click(&click(anchor(ORIGIN, "/app/page", "")), ORIGIN);
    assert!(r.is_some());
    assert_eq!(ctx.reference, "/app/page");
}

fn route_with(id: &str) -> RouteContext {
    let mut params = ParamsMap::new();
    params.insert(String::from("id"), String::from(id));
    RouteContext::new("", "/contacts/:id", params, Some(Loader::new()))
}

#[test]
fn loader_reuses_resource_for_same_params() {
    let mut route = route_with("1");
    assert_eq!(use_loader(&mut route, "?q", || 10), 10);
    assert_eq!(use_loader(&mut route, "?q", || 11), 10);
    assert_eq!(use_loader(&mut route, "?other", || 12), 12);
}

#[test]
fn loader_creates_fresh_resource_for_new_params() {
    let mut route = route_with("1");
    assert_eq!(use_loader(&mut route, "", || 1), 1);
    let mut params = ParamsMap::new();
    params.insert(String::from("id"), String::from("2"));
    route.params = params;
    assert_eq!(use_loader(&mut route, "", || 2), 2);
    let cached = route.loader.as_ref().unwrap().resource.as_ref().unwrap();
    assert_eq!(cached.params.get("id"), Some(String::from("2")));
}

#[test]
fn route_context_resolves_and_nests() {
    let mut base = RouteContext::base("/base");
    assert_eq!(base.resolve_path("x"), Some(String::from("/base/x")));
    assert!(base.child().is_none());
    base.set_child(RouteContext::new("/base", "/base/inner", ParamsMap::new(), None));
    assert_eq!(base.child().unwrap().resolve_path("y"), Some(String::from("/base/inner/y")));
}

#[test]
fn navigate_end_without_pending_navigation_does_nothing() {
    let mut ctx = router_at("/start");
    assert!(ctx.navigate_end(change("/elsewhere")).is_none());
    assert_eq!(ctx.reference, "/start");
    assert_eq!(ctx.base().path, ctx.base_path);
}

#[test]
fn innermost_route_of_chain() {
    let mut root = RouteContext::base("/");
    let mut mid = RouteContext::new("/", "/contacts", ParamsMap::new(), None);
    mid.set_child(RouteContext::new("/", "/contacts/7", ParamsMap::new(), Some(Loader::new())));
    root.set_child(mid);
    let inner = root.innermost();
    assert_eq!(inner.path, "/contacts/7");
    assert!(inner.loader.is_some());
    assert_eq!(RouteContext::base("/x").innermost().path, "/x");
}

#[test]
fn transport_key_and_url() {
    let mut params = ParamsMap::new();
    params.insert(String::from("id"), String::from("5"));
    let (p, url) = transport_key(&params, "/contacts/5", "?tab=info");
    assert!(p.same_as(&params));
    assert_eq!(url.origin, "");
    assert_eq!(url.pathname, "/contacts/5");
    assert_eq!(url.search, "?tab=info");
    assert_eq!(url.hash, "");
    assert_eq!(transport_url("/contacts/5", "?tab=info"), "/contacts/5?tab=info");
    assert_eq!(transport_url("/contacts", ""), "/contacts");
}

#[test]
fn innermost_resource_of_chain() {
    let mut root = RouteContext::base("/");
    assert_eq!(root.innermost_resource(), None);
    let mut leaf = route_with("3");
    assert_eq!(leaf.innermost_resource(), None);
    use_loader(&mut leaf, "", || 77);
    root.set_child(leaf);
    assert_eq!(root.innermost_resource(), Some(77));
}

#[test]
fn error_messages() {
    assert_eq!(NavigationError::NotRoutable(String::from("x")).message(), "Path \"x\" is not routable");
}

#[test]
fn resolved_navigation_equals_navigation_to_resolved_path() {
    let (mut with_resolve, _) = RouterContext::new(Some("/app"), &change("/app/start"));
    let (mut without, _) = RouterContext::new(Some("/app"), &change("/app/start"));
    let target = with_resolve.base().resolve_path("x/y").expect("resolves");
    assert_eq!(target, "/app/x/y");
    let a = with_resolve.navigate("x/y", &plain(true)).ok().unwrap().expect("history call");
    let b = without.navigate(&target, &plain(false)).ok().unwrap().expect("history call");
    assert_eq!(a.value, b.value);
    assert_eq!(with_resolve.reference, without.reference);
}
