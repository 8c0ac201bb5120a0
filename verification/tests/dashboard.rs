//! Status dashboard tests: the component-id cache and its subset matching,
//! incident construction with the one-second shift, bearer authentication,
//! the bootstrap retry policy and the polling decisions.

use chrono::DateTime;
use cloudmon_metrics::reporter::{bootstrap_step, poll_step, BootstrapStep, PollStep};
use cloudmon_metrics::sd::{
    build_auth_headers, build_component_id_cache, build_incident_data, find_component_id,
    Component, ComponentAttribute, IncidentData, StatusDashboardComponent,
};

fn attr(name: &str, value: &str) -> ComponentAttribute {
    ComponentAttribute { name: name.to_string(), value: value.to_string() }
}

fn component(id: u32, name: &str, attributes: Vec<ComponentAttribute>) -> StatusDashboardComponent {
    StatusDashboardComponent { id, name: name.to_string(), attributes }
}

#[test]
fn test_build_component_id_cache() {
    let components = vec![
        component(
            218,
            "Object Storage Service",
            vec![attr("category", "Storage"), attr("region", "EU-DE")],
        ),
        component(
            254,
            "Compute Service",
            vec![attr("category", "Compute"), attr("region", "EU-NL")],
        ),
    ];
    let cache = build_component_id_cache(components);
    assert_eq!(cache.len(), 2);

    // The key is the name with the attribute set; the order the attributes
    // are written in does not matter.
    let key1_attrs = vec![attr("region", "EU-DE"), attr("category", "Storage")];
    assert_eq!(
        cache.lookup_exact(&"Object Storage Service".to_string(), &key1_attrs),
        Some(218)
    );
}

#[test]
fn test_find_component_id_subset_matching() {
    let cache = build_component_id_cache(vec![component(
        218,
        "Object Storage Service",
        vec![attr("category", "Storage"), attr("region", "EU-DE"), attr("type", "block")],
    )]);

    let target_exact = Component {
        name: "Object Storage Service".to_string(),
        attributes: vec![
            attr("category", "Storage"),
            attr("region", "EU-DE"),
            attr("type", "block"),
        ],
    };
    assert_eq!(find_component_id(&cache, &target_exact), Some(218));

    let target_subset = Component {
        name: "Object Storage Service".to_string(),
        attributes: vec![attr("region", "EU-DE")],
    };
    assert_eq!(find_component_id(&cache, &target_subset), Some(218));

    let target_no_match = Component {
        name: "Object Storage Service".to_string(),
        attributes: vec![attr("region", "EU-NL")],
    };
    assert_eq!(find_component_id(&cache, &target_no_match), None);

    let target_no_name = Component { name: "NonExistent Service".to_string(), attributes: vec![] };
    assert_eq!(find_component_id(&cache, &target_no_name), None);
}

#[test]
fn test_build_incident_data_structure() {
    let incident = build_incident_data(218, 2, 1705929045);

    assert_eq!(incident.title, "System incident from monitoring system");
    assert_eq!(
        incident.description,
        "System-wide incident affecting one or multiple components. Created automatically."
    );
    assert_eq!(incident.impact, 2);
    assert_eq!(incident.components, vec![218]);
    assert_eq!(incident.system, true);
    assert_eq!(incident.incident_type, "incident");
}

#[test]
fn test_timestamp_rfc3339_minus_one_second() {
    let timestamp = 1705929045;
    let incident = build_incident_data(218, 2, timestamp);

    let parsed = DateTime::parse_from_rfc3339(&incident.start_date);
    assert!(parsed.is_ok());

    let expected = DateTime::from_timestamp(timestamp - 1, 0).unwrap();
    assert_eq!(parsed.unwrap().timestamp(), expected.timestamp());

    assert!(incident.start_date.contains('T'));
    assert!(incident.start_date.ends_with('Z') || incident.start_date.contains('+'));
}

/// A later component with the same (name, attribute-set) key overwrites
/// the earlier one's id, as in a map filled by inserts.
#[test]
fn test_duplicate_component_listing_last_wins() {
    let cache = build_component_id_cache(vec![
        component(100, "Storage Service", vec![attr("region", "EU-DE")]),
        component(200, "Storage Service", vec![attr("region", "EU-DE")]),
    ]);
    assert_eq!(cache.len(), 1);
    let target = Component {
        name: "Storage Service".to_string(),
        attributes: vec![attr("region", "EU-DE")],
    };
    assert_eq!(find_component_id(&cache, &target), Some(200));
    assert_eq!(
        cache.lookup_exact(&"Storage Service".to_string(), &vec![attr("region", "EU-DE")]),
        Some(200)
    );
}

/// The attribute set is the canonical key: permuting a component's
/// attribute list changes neither the cache nor any lookup.
#[test]
fn test_attribute_order_is_immaterial() {
    let listed = build_component_id_cache(vec![component(
        7,
        "Object Storage Service",
        vec![attr("category", "Storage"), attr("region", "EU-DE")],
    )]);
    let permuted = build_component_id_cache(vec![component(
        7,
        "Object Storage Service",
        vec![attr("region", "EU-DE"), attr("category", "Storage")],
    )]);
    assert_eq!(listed.len(), permuted.len());
    for probe in [
        vec![attr("category", "Storage"), attr("region", "EU-DE")],
        vec![attr("region", "EU-DE"), attr("category", "Storage")],
    ] {
        assert_eq!(listed.lookup_exact(&"Object Storage Service".to_string(), &probe), Some(7));
        assert_eq!(
            permuted.lookup_exact(&"Object Storage Service".to_string(), &probe),
            Some(7)
        );
    }
    // The two caches also coincide key by key under a permuted duplicate:
    // a permuted second listing of the key still overwrites the first.
    let merged = build_component_id_cache(vec![
        component(7, "Object Storage Service", vec![attr("category", "Storage"), attr("region", "EU-DE")]),
        component(9, "Object Storage Service", vec![attr("region", "EU-DE"), attr("category", "Storage")]),
    ]);
    assert_eq!(merged.len(), 1);
    assert_eq!(
        merged.lookup_exact(&"Object Storage Service".to_string(), &vec![attr("category", "Storage"), attr("region", "EU-DE")]),
        Some(9)
    );
}

#[test]
fn test_cache_refresh_logic() {
    let initial_cache = build_component_id_cache(vec![component(218, "Service A", vec![])]);
    let target = Component { name: "Service B".to_string(), attributes: vec![] };

    assert_eq!(find_component_id(&initial_cache, &target), None);

    let refreshed_cache = build_component_id_cache(vec![
        component(218, "Service A", vec![]),
        component(254, "Service B", vec![]),
    ]);
    assert_eq!(find_component_id(&refreshed_cache, &target), Some(254));
}

#[test]
fn test_startup_fetch_with_retries() {
    // Two failures, then a successful listing on the third attempt.
    let mut attempt: u8 = 1;
    let first = bootstrap_step(attempt, None);
    attempt = match first {
        BootstrapStep::RetryAfterSleep { seconds, next_attempt } => {
            assert_eq!(seconds, 60);
            next_attempt
        },
        _ => panic!("first failure must retry"),
    };
    let second = bootstrap_step(attempt, None);
    attempt = match second {
        BootstrapStep::RetryAfterSleep { seconds, next_attempt } => {
            assert_eq!(seconds, 60);
            next_attempt
        },
        _ => panic!("second failure must retry"),
    };
    assert_eq!(attempt, 3);
    let third = bootstrap_step(attempt, Some(vec![component(218, "Test Service", vec![])]));
    match third {
        BootstrapStep::Ready(cache) => assert_eq!(cache.len(), 1),
        _ => panic!("a listing on the third attempt must build the cache"),
    }
}

#[test]
fn test_bootstrap_gives_up_after_three_failures() {
    // The components endpoint failing three times ends the reporter.
    assert!(matches!(bootstrap_step(1, None), BootstrapStep::RetryAfterSleep { .. }));
    assert!(matches!(bootstrap_step(2, None), BootstrapStep::RetryAfterSleep { .. }));
    assert!(matches!(bootstrap_step(3, None), BootstrapStep::GiveUp));
}

#[test]
fn test_bootstrap_rejects_empty_listing() {
    assert!(matches!(bootstrap_step(1, Some(vec![])), BootstrapStep::GiveUp));
}

#[test]
fn test_diagnostic_data_availability() {
    let component = Component {
        name: "Test Service".to_string(),
        attributes: vec![attr("region", "EU-DE")],
    };
    let incident = build_incident_data(218, 2, 1705929045);

    assert!(!component.name.is_empty());
    assert!(!component.attributes.is_empty());
    assert_eq!(incident.components[0], 218);
    assert_eq!(incident.impact, 2);
    assert!(!incident.start_date.is_empty());

    let a = &component.attributes[0];
    assert_eq!(a.name, "region");
    assert_eq!(a.value, "EU-DE");
}

#[test]
fn test_empty_attributes_handling() {
    let cache = build_component_id_cache(vec![component(100, "Service Without Attributes", vec![])]);
    let target = Component { name: "Service Without Attributes".to_string(), attributes: vec![] };
    assert_eq!(find_component_id(&cache, &target), Some(100));
}

#[test]
fn test_multiple_components_same_name() {
    let cache = build_component_id_cache(vec![
        component(100, "Storage Service", vec![attr("region", "EU-DE")]),
        component(200, "Storage Service", vec![attr("region", "EU-NL")]),
    ]);

    let target_de = Component {
        name: "Storage Service".to_string(),
        attributes: vec![attr("region", "EU-DE")],
    };
    let target_nl = Component {
        name: "Storage Service".to_string(),
        attributes: vec![attr("region", "EU-NL")],
    };
    assert_eq!(find_component_id(&cache, &target_de), Some(100));
    assert_eq!(find_component_id(&cache, &target_nl), Some(200));
}

#[test]
fn test_build_auth_headers() {
    let bearer = build_auth_headers(Some("test-secret"), None, None);
    assert!(bearer.is_some());
    let value = bearer.unwrap();
    assert!(value.starts_with("Bearer "));
    // The token is a real compact JWT: three dot-separated parts.
    assert_eq!(value["Bearer ".len()..].split('.').count(), 3);

    let none = build_auth_headers(None, None, None);
    assert!(none.is_none());
}

#[test]
fn test_auth_headers_depend_on_claims() {
    let plain = build_auth_headers(Some("test-secret"), None, None).unwrap();
    let with_user = build_auth_headers(Some("test-secret"), Some("operator"), None).unwrap();
    let with_group = build_auth_headers(Some("test-secret"), None, Some("monitoring")).unwrap();
    assert_ne!(plain, with_user);
    assert_ne!(plain, with_group);
    assert_ne!(with_user, with_group);
}

fn one_component_cache() -> cloudmon_metrics::sd::ComponentCache {
    build_component_id_cache(vec![component(218, "Managed Service", vec![])])
}

#[test]
fn test_zero_weight_posts_nothing() {
    let cache = one_component_cache();
    let target = Component { name: "Managed Service".to_string(), attributes: vec![] };
    assert!(matches!(poll_step(&cache, &target, Some((1000, 0)), false), PollStep::NoReport));
    assert!(matches!(poll_step(&cache, &target, None, false), PollStep::NoReport));
}

#[test]
fn test_degradation_posts_incident() {
    let cache = one_component_cache();
    let target = Component { name: "Managed Service".to_string(), attributes: vec![] };
    match poll_step(&cache, &target, Some((1705929045, 2)), false) {
        PollStep::Post(id, incident) => {
            assert_eq!(id, 218);
            assert_eq!(incident.impact, 2);
            assert_eq!(incident.components, vec![218]);
            let parsed = DateTime::parse_from_rfc3339(&incident.start_date).unwrap();
            assert_eq!(parsed.timestamp(), 1705929044);
        },
        _ => panic!("a degraded point with a cached component must post"),
    }
}

#[test]
fn test_consecutive_degradations_post_independently() {
    let cache = one_component_cache();
    let target = Component { name: "Managed Service".to_string(), attributes: vec![] };
    let first = poll_step(&cache, &target, Some((1000, 1)), false);
    let second = poll_step(&cache, &target, Some((1060, 1)), false);
    assert!(matches!(first, PollStep::Post(..)));
    assert!(matches!(second, PollStep::Post(..)));
}

#[test]
fn test_cache_miss_then_hit() {
    let empty_cache = build_component_id_cache(vec![component(1, "Other", vec![])]);
    let target = Component { name: "Managed Service".to_string(), attributes: vec![] };

    // First lookup misses: exactly one refresh is requested.
    assert!(matches!(
        poll_step(&empty_cache, &target, Some((1000, 1)), false),
        PollStep::RefreshAndRetry
    ));

    // The refreshed cache has the component: the post proceeds.
    let refreshed = one_component_cache();
    assert!(matches!(
        poll_step(&refreshed, &target, Some((1000, 1)), true),
        PollStep::Post(..)
    ));

    // A second miss skips the service; no further refresh this iteration.
    assert!(matches!(
        poll_step(&empty_cache, &target, Some((1000, 1)), true),
        PollStep::SkipMissing
    ));
}
