use bob::{parse_params, tokenize, validate, Descriptor, GrammarError, Reason, SegmentRecord, Token};
use fancy_regex::Regex;

fn fault(text: &str) -> (usize, Reason) {
    match validate(text) {
        Ok(_) => panic!("accepted"),
        Err(GrammarError { position, reason }) => (position, reason),
    }
}

#[test]
fn canonical_form_lowers_literals_only() {
    assert_eq!(validate("/Users/{Id}").unwrap(), "/users/{Id}");
    assert_eq!(validate("/A%2FB/c").unwrap(), "/a%2Fb/c");
    assert_eq!(validate("/Report-{Id}.JSON").unwrap(), "/report-{Id}.json");
    assert_eq!(validate("/F/{Rest*12}").unwrap(), "/f/{Rest*12}");
    assert_eq!(validate("/").unwrap(), "/");
}

#[test]
fn validation_is_idempotent() {
    let templates = vec![
        "/",
        "/Path",
        "/Path/",
        "/Users/{Id}",
        "/a%2FB/{x}-{y}.Z",
        "/Files/{Rest*}",
        "/Files/{Rest*3}",
        "/Search/{Q?}",
        "/!$&'()*+,;=-._~/x",
    ];
    for t in templates {
        let once = validate(t).unwrap();
        let twice = validate(&once).unwrap();
        assert_eq!(once, twice);
    }
}

#[test]
fn every_fault_has_its_position_and_reason() {
    assert_eq!(fault(""), (0, Reason::MissingLeadingSlash));
    assert_eq!(fault("path"), (0, Reason::MissingLeadingSlash));
    assert_eq!(fault("//"), (1, Reason::EmptySegment));
    assert_eq!(fault("/a//b"), (3, Reason::EmptySegment));
    assert_eq!(fault("/a b"), (2, Reason::UnexpectedCharacter));
    assert_eq!(fault("/a:b"), (2, Reason::UnexpectedCharacter));
    assert_eq!(fault("/a}"), (2, Reason::UnexpectedCharacter));
    assert_eq!(fault("/\u{e9}"), (1, Reason::UnexpectedCharacter));
    assert_eq!(fault("/%path/"), (1, Reason::BadPercentEncoding));
    assert_eq!(fault("/a%2"), (2, Reason::BadPercentEncoding));
    assert_eq!(fault("/a%2f"), (2, Reason::BadPercentEncoding));
    assert_eq!(fault("/%41"), (1, Reason::RedundantEncoding));
    assert_eq!(fault("/x%7E"), (2, Reason::RedundantEncoding));
    assert_eq!(fault("/{}"), (2, Reason::EmptyName));
    assert_eq!(fault("/{a"), (3, Reason::UnclosedParameter));
    assert_eq!(fault("/{a-b}"), (3, Reason::UnclosedParameter));
    assert_eq!(fault("/{a?"), (4, Reason::UnclosedParameter));
    assert_eq!(fault("/{a*x}"), (4, Reason::UnclosedParameter));
    assert_eq!(fault("/{a*0}"), (4, Reason::BadRepeatCount));
    assert_eq!(fault("/{a*01}"), (4, Reason::BadRepeatCount));
    assert_eq!(fault("/{a*1234567890}"), (4, Reason::BadRepeatCount));
    assert_eq!(fault("/{p}{x}b"), (4, Reason::AdjacentParameters));
    assert_eq!(fault("/a{p?}"), (2, Reason::ModifierInMixedSegment));
    assert_eq!(fault("/{p*}b"), (1, Reason::ModifierInMixedSegment));
    assert_eq!(fault("/path/{param*}/to"), (6, Reason::ModifierNotFinal));
    assert_eq!(fault("/{q?}/x"), (1, Reason::ModifierNotFinal));
    assert_eq!(fault("/{w*2}/x"), (1, Reason::ModifierNotFinal));
    assert_eq!(fault("/{a}/{a}"), (5, Reason::DuplicateName));
}

#[test]
fn accepted_templates() {
    let valid = vec![
        "/",
        "/path",
        "/path/",
        "/a/b/c",
        "/{p}",
        "/{p}/",
        "/{p}/{q}",
        "/a{p}",
        "/{p}b",
        "/a{p}b{q}c",
        "/{p*}",
        "/{p*1}",
        "/{p*123456789}",
        "/x/{p?}",
        "/%2F%7B",
        "/a_b-c.d~e",
    ];
    for t in valid {
        assert!(validate(t).is_ok(), "{}", t);
    }
}

#[test]
fn validator_agrees_with_the_grammar_as_a_pattern() {
    let pattern = Regex::new(r"(?:^\/$)|(?:^(?:\/(?:(?:[\w\!\$&'\(\)\*\+\,;\=\:@\-\.~]|%[A-F0-9]{2})+|(?:\{\w+(?:\*[1-9]\d*)?\})|(?:(?:(?:[\w\!\$&'\(\)\*\+\,;\=\:@\-\.~]|%[A-F0-9]{2})+(?:\{\w+\??\}))+(?:[\w\!\$&'\(\)\*\+\,;\=\:@\-\.~]|%[A-F0-9]{2})*)|(?:(?:\{\w+\??\})(?:(?:[\w\!\$&'\(\)\*\+\,;\=\:@\-\.~]|%[A-F0-9]{2})+(?:\{\w+\??\}))+(?:[\w\!\$&'\(\)\*\+\,;\=\:@\-\.~]|%[A-F0-9]{2})*)|(?:(?:\{\w+\??\})(?:[\w\!\$&'\(\)\*\+\,;\=\:@\-\.~]|%[A-F0-9]{2})+)))*(?:\/(?:\{\w+(?:(?:\*(?:[1-9]\d*)?)|(?:\?))?\})?)?$)").unwrap();
    let texts = vec![
        "/",
        "/path",
        "/path/",
        "path",
        "/%path/",
        "/path/{param*}/to",
        "/{p}{x}b",
        "//",
        "/a//b",
        "/a b",
        "/{}",
        "/{a",
        "/{a*0}",
        "/{a*01}",
        "/{p}/{q}",
        "/a{p}b{q}c",
        "/{p*}",
        "/{p*7}",
        "/x/{p?}",
        "/%2F",
        "/a%2f",
        "/{q?}/x",
        "/a/b/c/",
        "/a{p}",
        "/{p}b",
        "/a?b",
        "/a#b",
    ];
    for t in texts {
        assert_eq!(validate(t).is_ok(), pattern.is_match(t).unwrap(), "{}", t);
    }
}

#[test]
fn tokenizer_gives_segments_names_and_fingerprint() {
    let a = tokenize("/users/{id}/files/{rest*}").unwrap();
    assert_eq!(a.path, "/users/{id}/files/{rest*}");
    assert_eq!(a.fingerprint, "/users/{}/files/{*}");
    assert_eq!(a.params, vec!["id".to_string(), "rest".to_string()]);
    assert_eq!(a.segments.len(), 4);
    assert!(matches!(&a.segments[0], Descriptor::Literal(t) if t == "users"));
    assert!(
        matches!(&a.segments[1], Descriptor::Parameter { name, optional } if name == "id" && !*optional)
    );
    assert!(
        matches!(&a.segments[3], Descriptor::Wildcard { name, count } if name == "rest" && count.is_none())
    );
    assert_eq!(a.count, None);
}

#[test]
fn tokenizer_knows_every_kind_of_segment() {
    let a = tokenize("/report-{id}.json/{n*3}").unwrap();
    assert_eq!(a.fingerprint, "/report-{}.json/{*}");
    assert_eq!(a.count, Some(3));
    match &a.segments[0] {
        Descriptor::Mixed(tokens) => {
            assert_eq!(tokens.len(), 3);
            assert!(matches!(&tokens[0], Token::Literal(t) if t.iter().collect::<String>() == "report-"));
            assert!(matches!(&tokens[1], Token::Required(n) if n.iter().collect::<String>() == "id"));
            assert!(matches!(&tokens[2], Token::Literal(t) if t.iter().collect::<String>() == ".json"));
        }
        _ => panic!("not mixed"),
    }
    assert!(
        matches!(&a.segments[1], Descriptor::Wildcard { name, count } if name == "n" && *count == Some(3))
    );
    let b = tokenize("/s/{q?}").unwrap();
    assert_eq!(b.fingerprint, "/s/{?}");
    assert!(
        matches!(&b.segments[1], Descriptor::Parameter { name, optional } if name == "q" && *optional)
    );
    let c = tokenize("/a%2Fb/").unwrap();
    assert_eq!(c.fingerprint, "/a%2fb/");
    assert!(matches!(&c.segments[1], Descriptor::Literal(t) if t.is_empty()));
    assert!(tokenize("/a/{b").is_err());
}

#[test]
fn parse_params_gives_every_piece_of_a_mixed_segment() {
    let records = parse_params("a{p}b".to_string());
    assert_eq!(records.len(), 3);
    assert_eq!(records[0].literal, Some("a".to_string()));
    assert_eq!(records[1].name, Some("p".to_string()));
    assert_eq!(records[1].wildcard, Some(false));
    assert_eq!(records[2].literal, Some("b".to_string()));
    let optional = parse_params("{q?}".to_string());
    assert_eq!(optional[0].empty, Some(true));
    assert_eq!(optional[0].wildcard, Some(false));
    assert!(parse_params("a/b".to_string()).is_empty());
    assert!(parse_params("{a".to_string()).is_empty());
    assert!(parse_params("".to_string()).is_empty());
}

#[test]
fn record_is_built_field_by_field() {
    let record = SegmentRecord::new()
        .with_name("n".to_string())
        .with_wildcard(true)
        .with_count(4)
        .with_empty(false);
    assert_eq!(record.name, Some("n".to_string()));
    assert_eq!(record.count, Some(4));
    assert_eq!(record.empty, Some(false));
    assert_eq!(record.wildcard, Some(true));
    assert_eq!(record.literal, None);
    assert!(matches!(record.token(), Some(Token::Wildcard(_, Some(4)))));
    let literal = SegmentRecord::new().with_literal("x".to_string());
    assert!(matches!(literal.token(), Some(Token::Literal(_))));
    assert!(SegmentRecord::new().token().is_none());
    assert!(SegmentRecord::new().with_name("n".to_string()).token().is_none());
    let both = SegmentRecord::new()
        .with_name("n".to_string())
        .with_wildcard(true)
        .with_empty(true);
    assert!(both.token().is_none());
    let counted = SegmentRecord::new()
        .with_name("n".to_string())
        .with_wildcard(false)
        .with_empty(false)
        .with_count(1);
    assert!(counted.token().is_none());
}

#[test]
fn record_as_text() {
    let record = SegmentRecord::new()
        .with_name("n".to_string())
        .with_wildcard(false)
        .with_count(-120);
    assert_eq!(record.render(), "name: n \nwildcard: True\nliteral: None \ncount: -120");
    let literal = SegmentRecord::new().with_literal("x".to_string()).with_count(0);
    assert_eq!(literal.render(), "name: None \nwildcard: None\nliteral: x \ncount: 0");
    let bare = SegmentRecord::new().with_count(i32::MIN);
    assert_eq!(bare.render(), "name: None \nwildcard: None\nliteral: None \ncount: -2147483648");
    let large = SegmentRecord::new().with_count(2147483647);
    assert_eq!(large.render(), "name: None \nwildcard: None\nliteral: None \ncount: 2147483647");
}
