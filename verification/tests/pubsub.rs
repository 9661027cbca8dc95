use bambangshop::dispatch::{dispatch, DeliveryOutcome};
use bambangshop::registry::Registry;
use bambangshop::service;
use bambangshop::service::ServiceError;
use bambangshop::subscriber::Subscriber;

fn sub(url: &str, name: &str) -> Subscriber {
    Subscriber::new(url.to_owned(), name.to_owned())
}

#[test]
fn subscribe_stores_and_lists_the_record() {
    let mut reg = Registry::new();
    let stored = service::subscribe(&mut reg, "electronics", sub("http://a", "A"))
        .expect("valid input must be accepted");
    assert_eq!(stored.url, "http://a");
    assert_eq!(stored.name, "A");
    let listed = service::list_subscribers(&reg, "electronics");
    assert_eq!(listed.len(), 1);
    assert_eq!(listed[0].url, "http://a");
    assert_eq!(listed[0].name, "A");
}

#[test]
fn subscribe_twice_same_identity_keeps_one_entry_with_final_metadata() {
    let mut reg = Registry::new();
    service::subscribe(&mut reg, "books", sub("http://a", "first")).unwrap();
    let before = service::list_subscribers(&reg, "books").len();
    let stored = service::subscribe(&mut reg, "books", sub("http://a", "second")).unwrap();
    assert_eq!(stored.name, "second");
    let listed = service::list_subscribers(&reg, "books");
    assert_eq!(listed.len(), before);
    assert_eq!(listed.len(), 1);
    assert_eq!(listed[0].url, "http://a");
    assert_eq!(listed[0].name, "second");
}

#[test]
fn unsubscribe_unknown_identity_succeeds_and_changes_nothing() {
    let mut reg = Registry::new();
    service::subscribe(&mut reg, "books", sub("http://a", "A")).unwrap();
    let r = service::unsubscribe(&mut reg, "books", "http://never-subscribed");
    assert!(r.is_ok());
    let listed = service::list_subscribers(&reg, "books");
    assert_eq!(listed.len(), 1);
    assert_eq!(listed[0].url, "http://a");

    let r2 = service::unsubscribe(&mut reg, "unknown-category", "http://a");
    assert!(r2.is_ok());
    assert_eq!(service::list_subscribers(&reg, "books").len(), 1);
}

#[test]
fn categories_are_isolated() {
    let mut reg = Registry::new();
    service::subscribe(&mut reg, "b", sub("http://b1", "B")).unwrap();
    let b_before: Vec<String> = service::list_subscribers(&reg, "b")
        .into_iter()
        .map(|s| s.url)
        .collect();
    service::subscribe(&mut reg, "a", sub("http://a1", "A")).unwrap();
    service::subscribe(&mut reg, "a", sub("http://a2", "A2")).unwrap();
    let b_after: Vec<String> = service::list_subscribers(&reg, "b")
        .into_iter()
        .map(|s| s.url)
        .collect();
    assert_eq!(b_before, b_after);
    assert_eq!(service::list_subscribers(&reg, "a").len(), 2);
    service::unsubscribe(&mut reg, "a", "http://a1").unwrap();
    let b_final: Vec<String> = service::list_subscribers(&reg, "b")
        .into_iter()
        .map(|s| s.url)
        .collect();
    assert_eq!(b_before, b_final);
}

#[test]
fn dispatch_reports_every_attempt_under_partial_failure() {
    let targets = vec![sub("http://s1", "S1"), sub("http://s2", "S2")];
    let outcomes = vec![
        DeliveryOutcome::Delivered,
        DeliveryOutcome::Failed("connection refused".to_owned()),
    ];
    let report = dispatch(&targets, outcomes);
    assert_eq!(report.entries.len(), 2);
    assert_eq!(report.entries[0].url, "http://s1");
    assert!(matches!(report.entries[0].outcome, DeliveryOutcome::Delivered));
    assert_eq!(report.entries[1].url, "http://s2");
    match &report.entries[1].outcome {
        DeliveryOutcome::Failed(reason) => assert_eq!(reason, "connection refused"),
        DeliveryOutcome::Delivered => panic!("second attempt must be recorded as failed"),
    }
    assert_eq!(report.delivered(), 1);
    assert_eq!(report.failed(), 1);
    assert_eq!(report.len(), 2);
}

#[test]
fn many_distinct_subscribes_all_land() {
    let mut reg = Registry::new();
    let n = 8;
    for k in 0..n {
        let url = format!("http://subscriber-{}", k);
        let name = format!("S{}", k);
        let stored = service::subscribe(&mut reg, "gadgets", Subscriber::new(url.clone(), name))
            .expect("distinct identities must all be accepted");
        assert_eq!(stored.url, url);
    }
    let listed = service::list_subscribers(&reg, "gadgets");
    assert_eq!(listed.len(), n);
    for k in 0..n {
        let url = format!("http://subscriber-{}", k);
        assert!(listed.iter().any(|s| s.url == url));
    }
}

#[test]
fn full_scenario_subscribe_list_unsubscribe_notify() {
    let mut reg = Registry::new();
    let stored = service::subscribe(&mut reg, "electronics", sub("http://a", ""))
        .expect("subscribe must succeed, reported to the wire as created");
    assert_eq!(stored.url, "http://a");
    let listed = service::list_subscribers(&reg, "electronics");
    assert_eq!(listed.len(), 1);
    assert_eq!(listed[0].url, "http://a");

    service::unsubscribe(&mut reg, "electronics", "http://a").expect("unsubscribe must succeed");
    assert!(service::list_subscribers(&reg, "electronics").is_empty());

    let targets = service::notify_targets(&reg, "electronics");
    assert!(targets.is_empty());
    let report = service::notify_report(&targets, Vec::new());
    assert_eq!(report.len(), 0);
    assert_eq!(report.entries.len(), 0);
}

#[test]
fn empty_product_type_is_invalid_input() {
    let mut reg = Registry::new();
    let r = service::subscribe(&mut reg, "", sub("http://a", "A"));
    assert!(matches!(r, Err(ServiceError::InvalidInput)));
    assert!(service::list_subscribers(&reg, "").is_empty());
}

#[test]
fn empty_identity_is_invalid_input() {
    let mut reg = Registry::new();
    let r = service::subscribe(&mut reg, "books", sub("", "A"));
    assert!(matches!(r, Err(ServiceError::InvalidInput)));
    assert!(service::list_subscribers(&reg, "books").is_empty());

    let u = service::unsubscribe(&mut reg, "books", "");
    assert!(matches!(u, Err(ServiceError::InvalidInput)));
    let u2 = service::unsubscribe(&mut reg, "", "http://a");
    assert!(matches!(u2, Err(ServiceError::InvalidInput)));
    assert_eq!(
        ServiceError::InvalidInput.message(),
        "invalid input: product type and subscriber identity must not be empty"
    );
}

#[test]
fn list_all_snapshots_every_category_in_first_subscribe_order() {
    let mut reg = Registry::new();
    service::subscribe(&mut reg, "b", sub("http://b1", "B1")).unwrap();
    service::subscribe(&mut reg, "a", sub("http://a1", "A1")).unwrap();
    service::subscribe(&mut reg, "b", sub("http://b2", "B2")).unwrap();
    let all = reg.list_all();
    assert_eq!(all.len(), 2);
    assert_eq!(all[0].0, "b");
    assert_eq!(
        all[0].1.iter().map(|s| s.url.as_str()).collect::<Vec<_>>(),
        vec!["http://b1", "http://b2"]
    );
    assert_eq!(all[1].0, "a");
    assert_eq!(all[1].1.len(), 1);
    assert_eq!(all[1].1[0].url, "http://a1");
}

#[test]
fn unsubscribe_then_resubscribe_appends_at_the_end() {
    let mut reg = Registry::new();
    service::subscribe(&mut reg, "c", sub("http://x", "X")).unwrap();
    service::subscribe(&mut reg, "c", sub("http://y", "Y")).unwrap();
    service::unsubscribe(&mut reg, "c", "http://x").unwrap();
    service::subscribe(&mut reg, "c", sub("http://x", "X2")).unwrap();
    let urls: Vec<String> = service::list_subscribers(&reg, "c")
        .into_iter()
        .map(|s| s.url)
        .collect();
    assert_eq!(urls, vec!["http://y".to_owned(), "http://x".to_owned()]);
}

#[test]
fn dispatch_with_no_targets_reports_nothing() {
    let report = dispatch(&Vec::new(), Vec::new());
    assert_eq!(report.len(), 0);
    assert_eq!(report.delivered(), 0);
    assert_eq!(report.failed(), 0);
}
