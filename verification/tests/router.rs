use bob::{parse_params, validate, Method, Outcome, Router, SegmentRecord};
use http_types::Url;

fn template_of(outcome: &Outcome<'_>) -> String {
    match outcome {
        Outcome::Match { route, .. } => route.template.clone(),
        _ => String::new(),
    }
}

#[test]
fn router_can_add_route() {
    let mut router = Router::new();
    assert!(router.add(Method::Get, "/test").is_ok());
}

#[test]
fn router_fails_invalid_path() {
    let mut router = Router::new();
    assert!(router.add(Method::Get, "/{p}{x}b").is_err());
}

#[test]
fn router_can_route() {
    let mut router = Router::new();
    router.add(Method::Get, "/test").unwrap();
    let url = Url::parse("http://test.com/test");
    assert!(!url.is_err());
    let url = url.unwrap();
    let found = template_of(&router.route(Method::Get, url.path()));
    assert_eq!(found, "/test");
}

#[test]
fn router_check_path_regex() {
    let invalids = vec!["path", "/%path/", "/path/{param*}/to"];

    for invalid in invalids {
        let result = validate(invalid);
        assert!(!result.is_ok());
    }

    let valids = vec!["/", "/path", "/path/"];
    for valid in valids {
        let result = validate(valid);
        assert!(result.is_ok());
    }
}

#[test]
fn mod_can_add_route() {
    let mut router = Router::new();
    assert!(router.add(Method::Get, "/test").is_ok());
}

#[test]
fn mod_fails_invalid_path() {
    let mut router = Router::new();
    assert!(router.add(Method::Get, "/{p}{x}b").is_err());
}

#[test]
fn mod_can_route() {
    let mut router = Router::new();
    router.add(Method::Get, "/test").unwrap();
    let url = Url::parse("http://test.com/test");
    assert!(!url.is_err());
    let url = url.unwrap();
    let found = template_of(&router.route(Method::Get, url.path()));
    assert_eq!(found, "/test");
}

#[test]
fn mod_check_path_regex() {
    let invalids = vec!["path", "/%path/", "/path/{param*}/to"];

    for invalid in invalids {
        let result = validate(invalid);
        assert!(!result.is_ok());
    }

    let valids = vec!["/", "/path", "/path/"];
    for valid in valids {
        let result = validate(valid);
        assert!(result.is_ok());
    }
}

#[test]
fn can_parse_params() {
    struct TestCase {
        input: String,
        expected: SegmentRecord,
    }

    let test_cases = vec![
        TestCase {
            input: "foo".to_string(),
            expected: SegmentRecord {
                name: None,
                wildcard: None,
                empty: None,
                literal: Some("foo".to_string()),
                count: None,
            },
        },
        TestCase {
            input: "{foo}".to_string(),
            expected: SegmentRecord {
                name: Some("foo".to_string()),
                wildcard: Some(false),
                empty: Some(false),
                literal: None,
                count: None,
            },
        },
        TestCase {
            input: "{foo*2}".to_string(),
            expected: SegmentRecord {
                name: Some("foo".to_string()),
                wildcard: Some(true),
                empty: Some(false),
                literal: None,
                count: Some(2),
            },
        },
        TestCase {
            input: "{foo*}".to_string(),
            expected: SegmentRecord {
                name: Some("foo".to_string()),
                wildcard: Some(true),
                empty: Some(false),
                literal: None,
                count: None,
            },
        },
    ];

    for test_case in test_cases {
        let actual = parse_params(test_case.input);
        let record = actual.get(0).expect("missing record");
        assert_eq!(record.name, test_case.expected.name, "mismatch name");
        assert_eq!(record.wildcard, test_case.expected.wildcard, "mismatch wildcard");
        assert_eq!(record.empty, test_case.expected.empty, "mismatch empty");
        assert_eq!(record.literal, test_case.expected.literal, "mismatch literal");
        assert_eq!(record.count, test_case.expected.count, "mismatch count");
    }
}

#[test]
fn add_routes() {
    let mut router = Router::new();
    router.add(Method::Get, "/version").unwrap();

    let url = Url::parse("https://example.net/version").unwrap();
    let body = template_of(&router.route(Method::Get, url.path()));
    assert_eq!("/version", &body);
}
