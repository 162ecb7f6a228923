use etl_router::matcher::{Condition, ConditionMatcher};
use etl_router::record::Record;

fn record(tag: &str, meta: &[(&str, &str)]) -> Record {
    let mut r = Record::new(tag.to_string());
    for (k, v) in meta {
        r.set_metadata(k.to_string(), v.to_string());
    }
    r
}

fn event_in_prod() -> Condition {
    Condition::And(vec![
        Condition::RecordType("event".to_string()),
        Condition::MetadataEquals { key: "env".to_string(), value: "prod".to_string() },
    ])
}

#[test]
fn and_of_type_and_equals() {
    let c = event_in_prod();
    assert!(c.evaluate(&record("event", &[("env", "prod")])));
    assert!(!c.evaluate(&record("event", &[("env", "dev")])));
}

#[test]
fn invalid_regex_is_false() {
    let c = Condition::MetadataMatch { key: "env".to_string(), pattern: "(unclosed".to_string() };
    let r = record("event", &[("env", "(unclosed")]);
    assert!(!c.evaluate(&r));
    let mut m = ConditionMatcher::new();
    m.precompile(&c);
    assert!(!m.evaluate_with_cache(&c, &r));
}

#[test]
fn regex_matches_anywhere() {
    let c = Condition::MetadataMatch { key: "host".to_string(), pattern: "web-[0-9]+".to_string() };
    assert!(c.evaluate(&record("x", &[("host", "eu-web-12.internal")])));
    assert!(!c.evaluate(&record("x", &[("host", "db-1")])));
    assert!(!c.evaluate(&record("x", &[])));
    let anchored = Condition::MetadataMatch { key: "host".to_string(), pattern: "^web".to_string() };
    assert!(!anchored.evaluate(&record("x", &[("host", "eu-web")])));
}

#[test]
fn identities_and_negation() {
    let r = record("event", &[]);
    assert!(Condition::And(vec![]).evaluate(&r));
    assert!(!Condition::Or(vec![]).evaluate(&r));
    assert!(Condition::Always.evaluate(&r));
    assert!(!Condition::Never.evaluate(&r));
    assert!(Condition::Not(Box::new(Condition::Never)).evaluate(&r));
    assert!(Condition::default().evaluate(&r));
    assert!(Condition::Or(vec![Condition::Never, Condition::RecordType("event".to_string())]).evaluate(&r));
}

#[test]
fn metadata_exists() {
    let c = Condition::MetadataExists("k".to_string());
    assert!(c.evaluate(&record("t", &[("k", "")])));
    assert!(!c.evaluate(&record("t", &[("j", "v")])));
}

#[test]
fn cached_evaluation_agrees() {
    let c = Condition::Or(vec![
        Condition::Not(Box::new(Condition::MetadataMatch { key: "a".to_string(), pattern: "x+y".to_string() })),
        Condition::And(vec![event_in_prod(), Condition::MetadataMatch { key: "b".to_string(), pattern: "^z".to_string() }]),
    ]);
    let mut m = ConditionMatcher::default();
    m.precompile(&c);
    let records = vec![
        record("event", &[("a", "xxy"), ("env", "prod"), ("b", "zed")]),
        record("event", &[("a", "xxy"), ("env", "prod"), ("b", "bz")]),
        record("other", &[("a", "nope")]),
    ];
    for r in &records {
        assert_eq!(m.evaluate_with_cache(&c, r), c.evaluate(r));
    }
    assert!(m.evaluate_with_cache(&c, &records[0]));
    assert!(!m.evaluate_with_cache(&c, &records[1]));
    assert!(m.evaluate_with_cache(&c, &records[2]));
}

#[test]
fn metadata_set_replaces() {
    let mut r = record("t", &[("k", "1")]);
    r.set_metadata("k".to_string(), "2".to_string());
    assert_eq!(r.get_metadata(&"k".to_string()).map(|s| s.as_str()), Some("2"));
    assert_eq!(r.metadata.len(), 1);
}
