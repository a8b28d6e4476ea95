use atomic_store::authentication::{auth_values_from_headers, check_auth_values, AuthValues};
use atomic_store::commits::{Commit, CommitOpts};
use atomic_store::errors::ErrorKind;
use atomic_store::helpers::{empty_to_nothing, try_extension, ContentType};
use atomic_store::atoms::Atom;
use atomic_store::resources::{PropVal, Resource};
use atomic_store::serialize::{parse_resource, serialize_parse_round_trip, serialize_resource};
use atomic_store::store::Db;
use atomic_store::urls;
use atomic_store::values::{DataType, Value};

fn init() -> Db {
    let mut store = Db::init("https://localhost");
    let agent = store.create_agent(None).unwrap();
    store.set_default_agent(agent);
    store.populate().unwrap();
    store
}

#[test]
fn value_validation_exact() {
    assert_eq!(Value::new("30", &DataType::Integer).unwrap().to_string(), "30");
    assert_eq!(
        Value::new("-7", &DataType::Integer).unwrap().to_int().unwrap(),
        -7
    );
    assert!(Value::new("3x", &DataType::Integer).is_err());
    assert_eq!(
        Value::new("true", &DataType::Boolean).unwrap().to_bool().unwrap(),
        true
    );
    assert!(Value::new("yes", &DataType::Boolean).is_err());
    assert_eq!(Value::new("age", &DataType::Slug).unwrap().to_string(), "age");
    assert!(Value::new("Age", &DataType::Slug).is_err());
    assert!(Value::new("", &DataType::Slug).is_err());
    assert_eq!(
        Value::new("2024-01-30", &DataType::Date).unwrap().to_string(),
        "2024-01-30"
    );
    assert!(Value::new("2024-1-30", &DataType::Date).is_err());
    assert_eq!(Value::new("3.14", &DataType::Float).unwrap().to_string(), "3.14");
    assert_eq!(Value::new("-2.5", &DataType::Float).unwrap().to_string(), "-2.5");
    assert!(Value::new("3.", &DataType::Float).is_err());
    assert!(Value::new(".5", &DataType::Float).is_err());
    assert_eq!(
        Value::new("1700000000000", &DataType::Timestamp).unwrap().to_int().unwrap(),
        1700000000000
    );
    assert!(Value::new("-1", &DataType::Timestamp).is_err());
    assert!(Value::new("", &DataType::AtomicUrl).is_err());
    let err = Value::new("nope", &DataType::Integer).unwrap_err();
    assert_eq!(err.kind, ErrorKind::SchemaViolation);
}

#[test]
fn serialize_round_trip() {
    let mut r = Resource::new("https://localhost/thing".into());
    r.set_propval_unsafe(urls::NAME.into(), Value::Str("a name with ; and 7:".into()));
    r.set_propval_unsafe(urls::DESCRIPTION.into(), Value::Markdown("lines\nand\ttabs".into()));
    r.set_propval_unsafe(
        urls::CREATED_AT.into(),
        Value::Timestamp(1700000000000),
    );
    r.set_propval_unsafe(
        urls::READ.into(),
        Value::ResourceArray(vec![urls::PUBLIC_AGENT.into(), "https://x/y".into()]),
    );
    let text = serialize_resource(&r);
    let back = parse_resource(&text).unwrap();
    assert_eq!(back.get_subject(), r.get_subject());
    assert_eq!(back.len(), r.len());
    assert_eq!(
        back.get(urls::NAME).unwrap().to_string(),
        "a name with ; and 7:"
    );
    assert_eq!(
        back.get(urls::READ).unwrap().to_string(),
        r.get(urls::READ).unwrap().to_string()
    );
    // the verified round trip returns the same propvals
    let again = serialize_parse_round_trip(&r);
    assert_eq!(again.len(), r.len());
    assert_eq!(
        again.get(urls::DESCRIPTION).unwrap().to_string(),
        "lines\nand\ttabs"
    );
    // garbage is rejected as a parse error
    let err = parse_resource(&"not a resource".to_string()).unwrap_err();
    assert_eq!(err.kind, ErrorKind::ParseError);
}

#[test]
fn tampered_commit_fails_signature() {
    let mut store = init();
    let agent = store.get_default_agent().unwrap();
    let target = format!("{}/r/tampered", store.get_server_url());
    let created_at = store.tick();
    let mut commit = Commit {
        subject: target,
        created_at,
        signer: agent.subject.clone(),
        set: vec![PropVal {
            property: urls::NAME.into(),
            value: Value::Str("original".into()),
        }],
        remove: vec![],
        destroy: false,
        previous_commit: None,
        signature: None,
    };
    commit.sign(&agent.public_key);
    // tamper with the payload after signing
    commit.set = vec![PropVal {
        property: urls::NAME.into(),
        value: Value::Str("changed".into()),
    }];
    let opts = CommitOpts {
        validate_signature: true,
        validate_timestamp: true,
        validate_rights: false,
        validate_previous_commit: true,
    };
    let err = commit.apply(&mut store, &opts).unwrap_err();
    assert_eq!(err.kind, ErrorKind::InvalidSignature);
    // untampered, the same commit applies
    commit.set = vec![PropVal {
        property: urls::NAME.into(),
        value: Value::Str("original".into()),
    }];
    let applied = commit.apply(&mut store, &opts).unwrap();
    assert_eq!(applied.get(urls::NAME).unwrap().to_string(), "original");
}

#[test]
fn equal_created_at_fails_monotonicity() {
    let mut store = init();
    let agent = store.get_default_agent().unwrap();
    let target = format!("{}/r/mono", store.get_server_url());
    let created_at = store.tick();
    let opts = CommitOpts {
        validate_signature: true,
        validate_timestamp: true,
        validate_rights: false,
        validate_previous_commit: false,
    };
    let mut first = Commit {
        subject: target.clone(),
        created_at,
        signer: agent.subject.clone(),
        set: vec![PropVal {
            property: urls::NAME.into(),
            value: Value::Str("one".into()),
        }],
        remove: vec![],
        destroy: false,
        previous_commit: None,
        signature: None,
    };
    first.sign(&agent.public_key);
    first.apply(&mut store, &opts).unwrap();
    // a second commit for the same target with the same created_at fails
    let mut second = Commit {
        subject: target,
        created_at,
        signer: agent.subject.clone(),
        set: vec![PropVal {
            property: urls::NAME.into(),
            value: Value::Str("two".into()),
        }],
        remove: vec![],
        destroy: false,
        previous_commit: None,
        signature: None,
    };
    second.sign(&agent.public_key);
    let err = second.apply(&mut store, &opts).unwrap_err();
    assert_eq!(err.kind, ErrorKind::InvalidTimestamp);
}

#[test]
fn previous_commit_mismatch_is_rejected() {
    let mut store = init();
    let agent = store.get_default_agent().unwrap();
    let target = format!("{}/r/prev", store.get_server_url());
    let opts = CommitOpts {
        validate_signature: true,
        validate_timestamp: true,
        validate_rights: false,
        validate_previous_commit: true,
    };
    let created_at = store.tick();
    let mut first = Commit {
        subject: target.clone(),
        created_at,
        signer: agent.subject.clone(),
        set: vec![PropVal {
            property: urls::NAME.into(),
            value: Value::Str("one".into()),
        }],
        remove: vec![],
        destroy: false,
        previous_commit: None,
        signature: None,
    };
    first.sign(&agent.public_key);
    first.apply(&mut store, &opts).unwrap();
    // a commit that does not name the last commit as its predecessor fails
    let created_at_2 = store.tick();
    let mut second = Commit {
        subject: target,
        created_at: created_at_2,
        signer: agent.subject.clone(),
        set: vec![],
        remove: vec![],
        destroy: false,
        previous_commit: Some("https://localhost/commits/wrong".into()),
        signature: None,
    };
    second.sign(&agent.public_key);
    let err = second.apply(&mut store, &opts).unwrap_err();
    assert_eq!(err.kind, ErrorKind::PreviousCommitMismatch);
}

#[test]
fn destroy_clears_propvals_and_index() {
    let mut store = init();
    let mut r = Resource::new_generate_subject(&mut store);
    r.set_propval_string(urls::DESTINATION.into(), urls::PARAGRAPH, &store)
        .unwrap();
    r.save(&mut store).unwrap();
    let subject = r.get_subject().clone();
    let found = store
        .tpf(None, Some(urls::DESTINATION), Some(urls::PARAGRAPH), true)
        .unwrap();
    assert_eq!(found.len(), 1);
    assert_eq!(found[0].subject, subject);
    r.destroy(&mut store).unwrap();
    let err = store.get_propvals(subject.as_str()).unwrap_err();
    assert_eq!(err.kind, ErrorKind::NotFound);
    let found_after = store
        .tpf(None, Some(urls::DESTINATION), Some(urls::PARAGRAPH), true)
        .unwrap();
    assert_eq!(found_after.len(), 0);
}

#[test]
fn unreadable_resource_is_unauthorized() {
    let mut store = init();
    let mut r = Resource::new_generate_subject(&mut store);
    r.set_propval_string(urls::NAME.into(), "private", &store).unwrap();
    r.save(&mut store).unwrap();
    let err = store
        .get_resource_extended(r.get_subject(), false, Some(urls::PUBLIC_AGENT))
        .unwrap_err();
    assert_eq!(err.kind, ErrorKind::Unauthorized);
}

#[test]
fn helper_empty_to_nothing() {
    assert_eq!(empty_to_nothing(None), None);
    assert_eq!(empty_to_nothing(Some("".to_string())), None);
    assert_eq!(
        empty_to_nothing(Some("x".to_string())),
        Some("x".to_string())
    );
}

#[test]
fn helper_try_extension() {
    let (ct, base) = try_extension("page.json").unwrap();
    assert!(matches!(ct, ContentType::Json));
    assert_eq!(base, "page");
    let (ct, base) = try_extension("a.ttl").unwrap();
    assert!(matches!(ct, ContentType::Turtle));
    assert_eq!(base, "a");
    assert!(try_extension("no-extension").is_none());
    assert!(try_extension("two.dots.html").is_none());
    assert!(try_extension("page.exe").is_none());
    let (ct, _) = try_extension("x.jsonld").unwrap();
    assert!(matches!(ct, ContentType::JsonLd));
    let (ct, _) = try_extension("x.jsonad").unwrap();
    assert!(matches!(ct, ContentType::JsonAd));
    let (ct, _) = try_extension("x.html").unwrap();
    assert!(matches!(ct, ContentType::Html));
}

#[test]
fn auth_header_values() {
    // all absent: anonymous
    let r = auth_values_from_headers(None, None, None, None, "https://x".to_string()).unwrap();
    assert!(r.is_none());
    // all present with a numeric timestamp
    let r = auth_values_from_headers(
        Some("pk".to_string()),
        Some("sig".to_string()),
        Some("1700000000000".to_string()),
        Some("https://localhost/agents/a".to_string()),
        "https://x".to_string(),
    )
    .unwrap()
    .unwrap();
    assert_eq!(r.timestamp, 1700000000000);
    assert_eq!(r.public_key, "pk");
    assert_eq!(r.requested_subject, "https://x");
    // partial headers are rejected
    let err = auth_values_from_headers(
        Some("pk".to_string()),
        None,
        None,
        None,
        "https://x".to_string(),
    )
    .unwrap_err();
    assert_eq!(err.kind, ErrorKind::Other);
    // a malformed timestamp is rejected
    let err = auth_values_from_headers(
        Some("pk".to_string()),
        Some("sig".to_string()),
        Some("soon".to_string()),
        Some("a".to_string()),
        "https://x".to_string(),
    )
    .unwrap_err();
    assert_eq!(err.kind, ErrorKind::ParseError);
}

#[test]
fn tpf_patterns() {
    let mut store = init();
    let mut r = Resource::new_generate_subject(&mut store);
    r.set_propval_string(urls::DESTINATION.into(), urls::PARAGRAPH, &store)
        .unwrap();
    r.set_propval(urls::SHORTNAME.into(), Value::Slug("thing".into()), &store)
        .unwrap();
    r.save(&mut store).unwrap();
    let subject = r.get_subject().clone();
    // by subject: both atoms come back
    let by_subject = store.tpf(Some(subject.as_str()), None, None, true).unwrap();
    assert_eq!(by_subject.len(), 2);
    // by subject and property
    let one = store
        .tpf(Some(subject.as_str()), Some(urls::SHORTNAME), None, true)
        .unwrap();
    assert_eq!(one.len(), 1);
    assert_eq!(one[0].value, "thing");
    // unknown subject is not found
    let err = store.tpf(Some("https://localhost/none"), None, None, true).unwrap_err();
    assert_eq!(err.kind, ErrorKind::NotFound);
}

#[test]
fn raw_index_entries_can_be_removed_but_derived_ones_not() {
    let mut store = init();
    // inject a raw entry, then take it out again
    let atom = Atom::new(
        urls::CLASS.into(),
        urls::PARENT.into(),
        urls::AGENT.into(),
    );
    let marker = Resource::new("ds".into());
    store.add_atom_to_index(&atom, &marker).unwrap();
    assert_eq!(
        store.tpf(None, Some(urls::PARENT), Some(urls::AGENT), true).unwrap().len(),
        1
    );
    store.remove_atom_from_index(&atom, &marker).unwrap();
    assert_eq!(
        store.tpf(None, Some(urls::PARENT), Some(urls::AGENT), true).unwrap().len(),
        0
    );
    // an entry a stored resource derives is refused
    let derived = Atom::new(
        urls::SHORTNAME.into(),
        urls::SHORTNAME.into(),
        "shortname".into(),
    );
    let err = store.remove_atom_from_index(&derived, &marker).unwrap_err();
    assert_eq!(err.kind, ErrorKind::Other);
}

#[test]
fn add_resource_checks_required_properties() {
    let mut store = init();
    // a class that requires a name
    let mut cls = Resource::new("https://localhost/classes/named".to_string());
    cls.set_propval_unsafe(
        urls::REQUIRES.into(),
        Value::ResourceArray(vec![urls::NAME.into()]),
    );
    store.add_resource(cls, false).unwrap();
    // an instance without the required property is refused
    let mut bad = Resource::new("https://localhost/r/unnamed".to_string());
    bad.set_propval_unsafe(
        urls::IS_A.into(),
        Value::ResourceArray(vec!["https://localhost/classes/named".into()]),
    );
    let err = store.add_resource(bad, true).unwrap_err();
    assert_eq!(err.kind, ErrorKind::SchemaViolation);
    // with the required property present it is accepted
    let mut good = Resource::new("https://localhost/r/named".to_string());
    good.set_propval_unsafe(
        urls::IS_A.into(),
        Value::ResourceArray(vec!["https://localhost/classes/named".into()]),
    );
    good.set_propval_unsafe(urls::NAME.into(), Value::Str("named".into()));
    store.add_resource(good, true).unwrap();
    store.get_propvals("https://localhost/r/named").unwrap();
}

#[test]
fn integer_parsing_accepts_any_parseable_int() {
    // signs and leading zeros parse; the held value is canonical
    assert_eq!(Value::new("+7", &DataType::Integer).unwrap().to_int().unwrap(), 7);
    assert_eq!(Value::new("007", &DataType::Integer).unwrap().to_int().unwrap(), 7);
    assert_eq!(Value::new("007", &DataType::Integer).unwrap().to_string(), "7");
    assert_eq!(Value::new("-007", &DataType::Integer).unwrap().to_int().unwrap(), -7);
    assert_eq!(
        Value::new("-9223372036854775808", &DataType::Integer).unwrap().to_int().unwrap(),
        i64::MIN
    );
    assert!(Value::new("9223372036854775808", &DataType::Integer).is_err());
    assert_eq!(
        Value::new("+0000012", &DataType::Timestamp).unwrap().to_int().unwrap(),
        12
    );
    // the auth timestamp is as lenient
    let r = auth_values_from_headers(
        Some("pk".to_string()),
        Some("sig".to_string()),
        Some("+7".to_string()),
        Some("a".to_string()),
        "https://x".to_string(),
    )
    .unwrap()
    .unwrap();
    assert_eq!(r.timestamp, 7);
}

#[test]
fn auth_values_are_checked_against_the_store() {
    let mut store = init();
    let agent = store.get_default_agent().unwrap();
    let requested = format!("{}/collections", store.get_server_url());
    let now: i64 = 1700000000000;
    let signed = format!("{} {}{}", requested, now, agent.public_key);
    let signature =
        atomic_store::text::u64_to_string(atomic_store::text::digest_string(&signed));
    let av = AuthValues {
        public_key: agent.public_key.clone(),
        signature: signature.clone(),
        agent_subject: agent.subject.clone(),
        timestamp: now,
        requested_subject: requested.clone(),
    };
    let who = check_auth_values(&av, &store, now).unwrap();
    assert_eq!(who, agent.subject);
    // a wrong signature is refused
    let bad = AuthValues { signature: "0".to_string(), ..av.clone() };
    let err = check_auth_values(&bad, &store, now).unwrap_err();
    assert_eq!(err.kind, ErrorKind::InvalidSignature);
    // a stale timestamp is refused
    let err = check_auth_values(&av, &store, now + 20000).unwrap_err();
    assert_eq!(err.kind, ErrorKind::InvalidTimestamp);
    // an unknown agent is refused
    let stranger = AuthValues {
        agent_subject: "https://elsewhere/agents/x".to_string(),
        ..av.clone()
    };
    let err = check_auth_values(&stranger, &store, now).unwrap_err();
    assert_eq!(err.kind, ErrorKind::Unauthorized);
}
