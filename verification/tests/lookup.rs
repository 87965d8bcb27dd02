use bob::{Method, Outcome, RouteError, Router};

fn params_of(outcome: &Outcome<'_>) -> Vec<(String, String)> {
    match outcome {
        Outcome::Match { params, .. } => {
            params.iter().map(|b| (b.name.clone(), b.value.clone())).collect()
        }
        _ => panic!("no match"),
    }
}

fn matched(outcome: &Outcome<'_>) -> Option<String> {
    match outcome {
        Outcome::Match { route, .. } => Some(route.template.clone()),
        Outcome::NoMatch => None,
        Outcome::MalformedPath => panic!("malformed path"),
    }
}

fn pair(name: &str, value: &str) -> (String, String) {
    (name.to_string(), value.to_string())
}

#[test]
fn literal_route_wins_over_parameter_route() {
    let mut router = Router::new();
    router.add(Method::Get, "/users/{id}").unwrap();
    router.add(Method::Get, "/users/me").unwrap();
    let outcome = router.route(Method::Get, "/users/me");
    assert_eq!(matched(&outcome), Some("/users/me".to_string()));
    assert!(params_of(&outcome).is_empty());
    let outcome = router.route(Method::Get, "/users/you");
    assert_eq!(matched(&outcome), Some("/users/{id}".to_string()));
    assert_eq!(params_of(&outcome), vec![pair("id", "you")]);
}

#[test]
fn precedence_does_not_depend_on_the_order_of_registration() {
    let mut router = Router::new();
    router.add(Method::Get, "/users/me").unwrap();
    router.add(Method::Get, "/users/{id}").unwrap();
    let outcome = router.route(Method::Get, "/users/me");
    assert_eq!(matched(&outcome), Some("/users/me".to_string()));
}

#[test]
fn wildcard_takes_all_remaining_segments() {
    let mut router = Router::new();
    router.add(Method::Get, "/files/{rest*}").unwrap();
    let outcome = router.route(Method::Get, "/files/a/b/c");
    assert_eq!(matched(&outcome), Some("/files/{rest*}".to_string()));
    assert_eq!(params_of(&outcome), vec![pair("rest", "a/b/c")]);
    let outcome = router.route(Method::Get, "/files/a");
    assert_eq!(params_of(&outcome), vec![pair("rest", "a")]);
    assert_eq!(matched(&router.route(Method::Get, "/files")), None);
}

#[test]
fn counted_wildcard_takes_exactly_its_count() {
    let mut router = Router::new();
    router.add(Method::Get, "/f/{rest*2}").unwrap();
    let outcome = router.route(Method::Get, "/f/a/b");
    assert_eq!(params_of(&outcome), vec![pair("rest", "a/b")]);
    assert_eq!(matched(&router.route(Method::Get, "/f/a")), None);
    assert_eq!(matched(&router.route(Method::Get, "/f/a/b/c")), None);
}

#[test]
fn optional_parameter_matches_with_and_without_segment() {
    let mut router = Router::new();
    router.add(Method::Get, "/search/{q?}").unwrap();
    let outcome = router.route(Method::Get, "/search");
    assert_eq!(matched(&outcome), Some("/search/{q?}".to_string()));
    assert!(params_of(&outcome).is_empty());
    let outcome = router.route(Method::Get, "/search/term");
    assert_eq!(matched(&outcome), Some("/search/{q?}".to_string()));
    assert_eq!(params_of(&outcome), vec![pair("q", "term")]);
    assert_eq!(matched(&router.route(Method::Get, "/search/a/b")), None);
}

#[test]
fn mixed_segment_binds_between_its_literals() {
    let mut router = Router::new();
    router.add(Method::Get, "/report-{id}.json").unwrap();
    let outcome = router.route(Method::Get, "/report-42.json");
    assert_eq!(matched(&outcome), Some("/report-{id}.json".to_string()));
    assert_eq!(params_of(&outcome), vec![pair("id", "42")]);
    assert_eq!(matched(&router.route(Method::Get, "/report-42.csv")), None);
    assert_eq!(matched(&router.route(Method::Get, "/xreport-42.json")), None);
}

#[test]
fn mixed_segment_with_two_parameters_takes_the_shortest_first() {
    let mut router = Router::new();
    router.add(Method::Get, "/{a}-{b}").unwrap();
    let outcome = router.route(Method::Get, "/x-y-z");
    assert_eq!(params_of(&outcome), vec![pair("a", "x"), pair("b", "y-z")]);
}

#[test]
fn mixed_segment_backtracks_to_a_later_literal() {
    let mut router = Router::new();
    router.add(Method::Get, "/{name}.tar.gz").unwrap();
    let outcome = router.route(Method::Get, "/a.tar.b.tar.gz");
    assert_eq!(params_of(&outcome), vec![pair("name", "a.tar.b")]);
}

#[test]
fn mixed_segment_wins_over_parameter_and_loses_to_literal() {
    let mut router = Router::new();
    router.add(Method::Get, "/{any}").unwrap();
    router.add(Method::Get, "/v{n}").unwrap();
    router.add(Method::Get, "/v1").unwrap();
    assert_eq!(matched(&router.route(Method::Get, "/v1")), Some("/v1".to_string()));
    assert_eq!(matched(&router.route(Method::Get, "/v2")), Some("/v{n}".to_string()));
    assert_eq!(matched(&router.route(Method::Get, "/w2")), Some("/{any}".to_string()));
}

#[test]
fn parameter_wins_over_optional_and_optional_over_wildcard() {
    let mut router = Router::new();
    router.add(Method::Get, "/s/{w*}").unwrap();
    router.add(Method::Get, "/s/{o?}").unwrap();
    router.add(Method::Get, "/s/{p}").unwrap();
    assert_eq!(matched(&router.route(Method::Get, "/s/x")), Some("/s/{p}".to_string()));
    assert_eq!(matched(&router.route(Method::Get, "/s")), Some("/s/{o?}".to_string()));
    assert_eq!(matched(&router.route(Method::Get, "/s/x/y")), Some("/s/{w*}".to_string()));
}

#[test]
fn matcher_backtracks_out_of_a_literal_branch() {
    let mut router = Router::new();
    router.add(Method::Get, "/a/b").unwrap();
    router.add(Method::Get, "/{x}/c").unwrap();
    let outcome = router.route(Method::Get, "/a/c");
    assert_eq!(matched(&outcome), Some("/{x}/c".to_string()));
    assert_eq!(params_of(&outcome), vec![pair("x", "a")]);
}

#[test]
fn literals_match_without_regard_to_case_and_values_keep_theirs() {
    let mut router = Router::new();
    router.add(Method::Get, "/Users/{Id}").unwrap();
    let outcome = router.route(Method::Get, "/USERS/AbC");
    assert_eq!(matched(&outcome), Some("/users/{Id}".to_string()));
    assert_eq!(params_of(&outcome), vec![pair("Id", "AbC")]);
}

#[test]
fn all_literal_template_matches_exactly_its_segments() {
    let mut router = Router::new();
    router.add(Method::Get, "/a/b").unwrap();
    assert_eq!(matched(&router.route(Method::Get, "/a/b")), Some("/a/b".to_string()));
    assert_eq!(matched(&router.route(Method::Get, "/A/B")), Some("/a/b".to_string()));
    assert_eq!(matched(&router.route(Method::Get, "/a/c")), None);
    assert_eq!(matched(&router.route(Method::Get, "/a")), None);
    assert_eq!(matched(&router.route(Method::Get, "/a/b/c")), None);
    assert_eq!(matched(&router.route(Method::Get, "/a/b/")), None);
}

#[test]
fn root_and_trailing_slash() {
    let mut router = Router::new();
    router.add(Method::Get, "/").unwrap();
    router.add(Method::Get, "/path/").unwrap();
    assert_eq!(matched(&router.route(Method::Get, "/")), Some("/".to_string()));
    assert_eq!(matched(&router.route(Method::Get, "/path/")), Some("/path/".to_string()));
    assert_eq!(matched(&router.route(Method::Get, "/path")), None);
}

#[test]
fn path_without_leading_slash_matches_nothing() {
    let mut router = Router::new();
    router.add(Method::Get, "/a").unwrap();
    assert_eq!(matched(&router.route(Method::Get, "a")), None);
    assert_eq!(matched(&router.route(Method::Get, "")), None);
}

#[test]
fn method_without_routes_matches_nothing() {
    let mut router = Router::new();
    router.add(Method::Get, "/a").unwrap();
    assert_eq!(matched(&router.route(Method::Post, "/a")), None);
    assert_eq!(router.count(Method::Post), 0);
    assert_eq!(router.count(Method::Get), 1);
}

#[test]
fn path_is_percent_decoded_once() {
    let mut router = Router::new();
    router.add(Method::Get, "/x/{v}").unwrap();
    let outcome = router.route(Method::Get, "/x/caf%C3%A9");
    assert_eq!(params_of(&outcome), vec![pair("v", "caf\u{e9}")]);
    let outcome = router.route(Method::Get, "/x/a%20b");
    assert_eq!(params_of(&outcome), vec![pair("v", "a b")]);
    let outcome = router.route(Method::Get, "/x/a%2520b");
    assert_eq!(params_of(&outcome), vec![pair("v", "a%20b")]);
    let outcome = router.route(Method::Get, "/%78/%4a");
    assert_eq!(params_of(&outcome), vec![pair("v", "J")]);
}

#[test]
fn malformed_percent_encoding_is_reported() {
    let mut router = Router::new();
    router.add(Method::Get, "/{v}").unwrap();
    assert!(matches!(router.route(Method::Get, "/%zz"), Outcome::MalformedPath));
    assert!(matches!(router.route(Method::Get, "/a%2"), Outcome::MalformedPath));
    assert!(matches!(router.route(Method::Get, "/%"), Outcome::MalformedPath));
    assert!(matches!(router.route(Method::Get, "/%C3"), Outcome::MalformedPath));
    assert!(matches!(router.route(Method::Post, "/%zz"), Outcome::MalformedPath));
}

#[test]
fn second_registration_is_a_duplicate_and_changes_nothing() {
    let mut router = Router::new();
    assert!(router.add(Method::Get, "/test/{id}").is_ok());
    match router.add(Method::Get, "/test/{id}") {
        Err(RouteError::DuplicateRoute { method, fingerprint }) => {
            assert_eq!(method, Method::Get);
            assert_eq!(fingerprint, "/test/{}");
        }
        _ => panic!("no duplicate"),
    }
    assert_eq!(router.count(Method::Get), 1);
    let outcome = router.route(Method::Get, "/test/7");
    assert_eq!(params_of(&outcome), vec![pair("id", "7")]);
    assert!(router.add(Method::Post, "/test/{id}").is_ok());
}

#[test]
fn templates_that_differ_in_case_collide() {
    let mut router = Router::new();
    assert!(router.add(Method::Get, "/Users").is_ok());
    assert!(matches!(
        router.add(Method::Get, "/users"),
        Err(RouteError::DuplicateRoute { .. })
    ));
}

#[test]
fn templates_that_differ_in_names_collide() {
    let mut router = Router::new();
    assert!(router.add(Method::Get, "/u/{a}").is_ok());
    assert!(matches!(router.add(Method::Get, "/u/{b}"), Err(RouteError::DuplicateRoute { .. })));
    assert!(router.add(Method::Get, "/w/{a*}").is_ok());
    assert!(matches!(router.add(Method::Get, "/w/{b*3}"), Err(RouteError::DuplicateRoute { .. })));
    assert!(router.add(Method::Get, "/u/{a?}").is_ok());
}

#[test]
fn invalid_template_leaves_the_table_usable() {
    let mut router = Router::new();
    router.add(Method::Get, "/a").unwrap();
    match router.add(Method::Get, "/a/{b") {
        Err(RouteError::InvalidGrammar { position, .. }) => assert_eq!(position, 5),
        _ => panic!("no grammar error"),
    }
    assert_eq!(matched(&router.route(Method::Get, "/a")), Some("/a".to_string()));
}

#[test]
fn handler_references() {
    let mut router = Router::new();
    router.add(Method::Get, "/a").unwrap();
    router.add(Method::Get, "/b").unwrap();
    router.register(Method::Get, "/c", 77, None).unwrap();
    match router.route(Method::Get, "/b") {
        Outcome::Match { route, index, .. } => {
            assert_eq!(route.handler, 1);
            assert_eq!(index, 1);
            assert_eq!(route.method, Method::Get);
        }
        _ => panic!("no match"),
    }
    match router.route(Method::Get, "/c") {
        Outcome::Match { route, .. } => assert_eq!(route.handler, 77),
        _ => panic!("no match"),
    }
}

#[test]
fn parameter_binds_an_empty_segment() {
    let mut router = Router::new();
    router.add(Method::Get, "/u/{id}").unwrap();
    let outcome = router.route(Method::Get, "/u/");
    assert_eq!(params_of(&outcome), vec![pair("id", "")]);
}

#[test]
fn encoded_slash_separates_segments_after_decoding() {
    let mut router = Router::new();
    router.add(Method::Get, "/a/b").unwrap();
    router.add(Method::Get, "/p/{rest*}").unwrap();
    assert_eq!(matched(&router.route(Method::Get, "/a%2Fb")), Some("/a/b".to_string()));
    let outcome = router.route(Method::Get, "/p/x%2fy/z");
    assert_eq!(params_of(&outcome), vec![pair("rest", "x/y/z")]);
}

#[test]
fn routes_of_different_methods_do_not_meet() {
    let mut router = Router::new();
    router.add(Method::Get, "/a/{x}").unwrap();
    router.add(Method::Post, "/a/b").unwrap();
    router.add(Method::Delete, "/a/{y?}").unwrap();
    assert_eq!(matched(&router.route(Method::Get, "/a/b")), Some("/a/{x}".to_string()));
    assert_eq!(matched(&router.route(Method::Post, "/a/b")), Some("/a/b".to_string()));
    assert_eq!(matched(&router.route(Method::Post, "/a/c")), None);
    assert_eq!(matched(&router.route(Method::Delete, "/a")), Some("/a/{y?}".to_string()));
    assert_eq!(matched(&router.route(Method::Put, "/a")), None);
}
