use leptos_router::matching::{match_first, match_route, normalize, resolve_path, split_segments, starts_with_scheme};
use leptos_router::params::ParamsMap;
use leptos_router::url::{escape, unescape, Url};

fn url_with_search(search: &str) -> Url {
    Url {
        origin: String::new(),
        pathname: String::from("/"),
        search: String::from(search),
        hash: String::new(),
    }
}

#[test]
fn search_params_split_and_decode() {
    let p = url_with_search("?a=1&b=two+words&c=%C3%A9&&=x&d&a=3&e=x=y").search_params();
    assert_eq!(p.get("a"), Some(String::from("3")));
    assert_eq!(p.get("b"), Some(String::from("two words")));
    assert_eq!(p.get("c"), Some(String::from("é")));
    assert_eq!(p.get("d"), Some(String::new()));
    assert_eq!(p.get("e"), Some(String::from("x=y")));
    assert_eq!(p.get(""), None);
    assert_eq!(p.get("x"), None);
}

#[test]
fn search_params_of_empty_query() {
    let p = url_with_search("").search_params();
    assert!(p.same_as(&ParamsMap::new()));
    let q = url_with_search("??").search_params();
    assert!(q.same_as(&ParamsMap::new()));
}

#[test]
fn unescape_decodes_plus_and_percent() {
    assert_eq!(unescape("a%2Bb+c"), "a+b c");
    assert_eq!(unescape("%C3%A9t%C3%A9"), "été");
    assert_eq!(unescape("plain"), "plain");
    // escapes that do not decode to UTF-8 leave the text as it is
    assert_eq!(unescape("%FF+x"), "%FF x");
}

#[test]
fn escape_encodes_reserved_characters() {
    assert_eq!(escape("a b+c&d=é"), "a%20b%2Bc%26d%3D%C3%A9");
    assert_eq!(escape("safe-_.~09AZaz"), "safe-_.~09AZaz");
}

#[test]
fn escape_then_unescape_round_trips() {
    for s in ["a b", "1+1=2", "x&y=z", "héllo wörld ✓", "", "+ & = ?"] {
        assert_eq!(unescape(&escape(s)), s);
    }
}

#[test]
fn match_route_named_param() {
    let m = match_route("/contacts/:id", "/contacts/42").expect("matches");
    assert_eq!(m.get("id"), Some(String::from("42")));
    let mut expected = ParamsMap::new();
    expected.insert(String::from("id"), String::from("42"));
    assert!(m.same_as(&expected));
    assert!(match_route("/contacts/:id", "/contacts").is_none());
}

#[test]
fn match_route_literals_and_counts() {
    assert!(match_route("/contacts", "/contacts/").is_some());
    assert!(match_route("/contacts/", "contacts").is_some());
    assert!(match_route("/contacts", "/users").is_none());
    assert!(match_route("/contacts/:id", "/contacts/42/edit").is_none());
    assert!(match_route("/", "/").is_some());
    assert!(match_route("/", "/a").is_none());
}

#[test]
fn match_route_wildcard() {
    let m = match_route("/files/*rest", "/files/a/b/").expect("matches");
    assert_eq!(m.get("*"), Some(String::from("a/b")));
    let e = match_route("/files/*", "/files").expect("matches");
    assert_eq!(e.get("*"), Some(String::new()));
    let p = match_route("/u/:user/*", "/u/ann/x/y").expect("matches");
    assert_eq!(p.get("user"), Some(String::from("ann")));
    assert_eq!(p.get("*"), Some(String::from("x/y")));
}

#[test]
fn match_route_optional_segment() {
    let with = match_route("/posts/:id?", "/posts/9").expect("matches");
    assert_eq!(with.get("id"), Some(String::from("9")));
    let without = match_route("/posts/:id?", "/posts").expect("matches");
    assert_eq!(without.get("id"), None);
    assert!(match_route("/posts/:id?", "/posts/9/10").is_none());
    assert!(match_route("/posts/:id?", "/").is_none());
}

#[test]
fn captured_params_fill_back_into_pattern() {
    let pattern = "/u/:user/posts/:post";
    let path = "/u/ann/posts/7/";
    let m = match_route(pattern, path).expect("matches");
    let mut filled = String::new();
    for seg in split_segments(pattern) {
        filled.push('/');
        if let Some(name) = seg.strip_prefix(':') {
            filled.push_str(&m.get(name).unwrap());
        } else {
            filled.push_str(&seg);
        }
    }
    assert_eq!(filled, "/u/ann/posts/7");
}

#[test]
fn split_segments_drops_empty_pieces() {
    assert_eq!(split_segments("//a///b/"), vec![String::from("a"), String::from("b")]);
    assert!(split_segments("/").is_empty());
}

#[test]
fn normalize_trims_and_leads_with_slash() {
    assert_eq!(normalize("//a/b//", false), "/a/b");
    assert_eq!(normalize("a", true), "a");
    assert_eq!(normalize("?q=1", false), "?q=1");
    assert_eq!(normalize("///", false), "");
}

#[test]
fn scheme_detection() {
    assert!(starts_with_scheme("https://x.com"));
    assert!(starts_with_scheme("//x.com"));
    assert!(!starts_with_scheme("/x"));
    assert!(!starts_with_scheme("HTTP://x"));
    assert!(!starts_with_scheme("mailto:x"));
}

#[test]
fn resolve_path_cases() {
    assert_eq!(resolve_path("", "/a", None), Some(String::from("/a")));
    assert_eq!(resolve_path("", "", None), Some(String::from("/")));
    assert_eq!(resolve_path("", "?q=1", None), Some(String::from("/?q=1")));
    assert_eq!(resolve_path("/base", "child", Some("/base/route")), Some(String::from("/base/route/child")));
    assert_eq!(resolve_path("/base", "child", Some("/route")), Some(String::from("/base/route/child")));
    assert_eq!(resolve_path("/base", "/abs", Some("/base/route")), Some(String::from("/base/abs")));
    assert_eq!(resolve_path("", "https://x.com", None), None);
}

#[test]
fn resolve_against_route_equals_resolve_against_its_prefix() {
    let via_route = resolve_path("/base", "child", Some("/route"));
    let via_prefix = resolve_path("/base/route", "child", None);
    assert_eq!(via_route, via_prefix);
    let abs_route = resolve_path("/base", "/x", Some("/route"));
    let abs_base = resolve_path("/base", "/x", None);
    assert_eq!(abs_route, abs_base);
}

#[test]
fn first_matching_sibling_wins() {
    let routes = vec![String::from("/contacts/new"), String::from("/contacts/:id"), String::from("/*")];
    let (i, m) = match_first(&routes, "/contacts/new").expect("matches");
    assert_eq!(i, 0);
    assert_eq!(m.get("id"), None);
    let (i, m) = match_first(&routes, "/contacts/7").expect("matches");
    assert_eq!(i, 1);
    assert_eq!(m.get("id"), Some(String::from("7")));
    let (i, m) = match_first(&routes, "/about/us").expect("matches");
    assert_eq!(i, 2);
    assert_eq!(m.get("*"), Some(String::from("about/us")));
    assert!(match_first(&routes[..2].to_vec(), "/about").is_none());
}

#[test]
fn unescape_without_percent_only_turns_plus_into_space() {
    assert_eq!(unescape("a+b+c"), "a b c");
    assert_eq!(unescape("no escapes"), "no escapes");
}
