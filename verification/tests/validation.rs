use std::collections::HashMap;

use scissors::markdown::Location;
use scissors::markdown::UserCountry;
use scissors::markdown::UserId;
use scissors::markdown::UserMention;
use scissors::markdown::UserName;
use scissors::validate::find_bad_mentions;
use scissors::validate::validate;
use scissors::validate::DiscrepancyKind;
use scissors::User;

fn mention(name: &str, id: i32, country: Option<&str>) -> UserMention {
    let loc = Location { line: 0, ch: 0 };
    UserMention {
        username: UserName { text: name.to_string(), loc },
        id: UserId { num: id, loc },
        country_code: country.map(|c| UserCountry { text: c.to_string(), loc }),
    }
}

fn canonical_foo() -> User {
    User { id: 1, username: "Foo".to_string(), country_code: "JP".to_string() }
}

#[test]
fn matching_mention_yields_no_discrepancy() {
    let u = canonical_foo();
    let m = mention("Foo", 1, Some("JP"));
    assert_eq!(validate(&m, Some(&u), true, true), None);
    assert!(u.valid(&m, true, true));
}

#[test]
fn wrong_username_is_flagged_when_names_checked() {
    let u = canonical_foo();
    let m = mention("Bar", 1, Some("JP"));
    let facets = validate(&m, Some(&u), false, true).expect("a discrepancy");
    assert_eq!(facets, vec![DiscrepancyKind::WrongUsername]);
    assert!(!u.valid(&m, false, true));
    // With the name check off the same mention passes.
    assert_eq!(validate(&m, Some(&u), false, false), None);
}

#[test]
fn missing_country_is_flagged_only_when_required() {
    let u = canonical_foo();
    let m = mention("Foo", 1, None);
    let facets = validate(&m, Some(&u), true, false).expect("a discrepancy");
    assert_eq!(facets, vec![DiscrepancyKind::MissingCountry]);
    assert!(!u.valid(&m, true, false));
    assert_eq!(validate(&m, Some(&u), false, false), None);
    assert!(u.valid(&m, false, false));
}

#[test]
fn wrong_country_is_flagged_even_when_not_required() {
    let u = canonical_foo();
    let m = mention("Foo", 1, Some("US"));
    let facets = validate(&m, Some(&u), false, false).expect("a discrepancy");
    assert_eq!(facets, vec![DiscrepancyKind::WrongCountry]);
    assert!(!u.valid(&m, false, false));
}

#[test]
fn facets_come_together_under_one_mention() {
    let u = canonical_foo();
    let m = mention("Bar", 1, Some("US"));
    let facets = validate(&m, Some(&u), true, true).expect("a discrepancy");
    assert_eq!(facets, vec![DiscrepancyKind::WrongUsername, DiscrepancyKind::WrongCountry]);
}

#[test]
fn absent_canonical_record_yields_no_discrepancy() {
    let m = mention("Anyone", 999, Some("XX"));
    assert_eq!(validate(&m, None, true, true), None);
}

#[test]
fn bad_mentions_skip_ids_without_canonical_record() {
    let mut data: HashMap<i32, User> = HashMap::new();
    data.insert(1, canonical_foo());
    let mentions = vec![
        mention("Foo", 1, Some("JP")),   // fine
        mention("Bar", 1, Some("JP")),   // wrong username
        mention("Zap", 999, Some("ZZ")), // restricted: no record, skipped
        mention("Foo", 1, Some("US")),   // wrong country
    ];
    let bad = find_bad_mentions(&mentions, &data, true, true);
    assert_eq!(bad, vec![1, 3]);
}

#[test]
fn bad_mentions_empty_when_everything_matches() {
    let mut data: HashMap<i32, User> = HashMap::new();
    data.insert(1, canonical_foo());
    let mentions = vec![mention("Foo", 1, None), mention("Foo", 1, Some("JP"))];
    let bad = find_bad_mentions(&mentions, &data, false, true);
    assert_eq!(bad, Vec::<usize>::new());
}
