//! Flag engine and health evaluator tests: comparator semantics at and
//! away from the threshold, the spec scenarios for a service with weighted
//! expressions, empty and partial data, determinism, and the error cases.

use cloudmon_metrics::common::{get_metric_flag_state, get_service_health};
use cloudmon_metrics::config::{Config, Datasource, ServerConf};
use cloudmon_metrics::graphite::GraphiteData;
use cloudmon_metrics::types::{
    AppState, BinaryMetricRawDef, CloudMonError, CmpType, EnvironmentDef, FlagMetric,
    FlagMetricDef, MetricEnvironmentDef, MetricExpressionDef, MetricTemplateRef,
    ServiceHealthDef,
};

/// The order- and equality-preserving encoding of an `f32` sample.
fn key_of(v: f32) -> u32 {
    let v = if v == 0.0 { 0.0f32 } else { v };
    let b = v.to_bits();
    if b & 0x8000_0000 != 0 {
        !b
    } else {
        b | 0x8000_0000
    }
}

fn metric(op: CmpType, threshold: f32) -> FlagMetric {
    FlagMetric { query: "q".to_string(), op, threshold: key_of(threshold) }
}

#[test]
fn test_flag_none_is_false() {
    for op in [CmpType::Lt, CmpType::Gt, CmpType::Eq] {
        assert!(!get_metric_flag_state(&None, &metric(op, 10.0)));
    }
}

#[test]
fn test_flag_strict_at_threshold() {
    let v = Some(key_of(10.0));
    assert!(!get_metric_flag_state(&v, &metric(CmpType::Lt, 10.0)));
    assert!(!get_metric_flag_state(&v, &metric(CmpType::Gt, 10.0)));
    assert!(get_metric_flag_state(&v, &metric(CmpType::Eq, 10.0)));
}

#[test]
fn test_flag_matches_host_comparison() {
    let samples = [-1000.5f32, -1.0, -0.0, 0.0, 0.5, 1.0, 99.0, 1e20];
    let thresholds = [-1.0f32, 0.0, 0.5, 100.0];
    for &v in &samples {
        for &t in &thresholds {
            assert_eq!(
                get_metric_flag_state(&Some(key_of(v)), &metric(CmpType::Lt, t)),
                v < t
            );
            assert_eq!(
                get_metric_flag_state(&Some(key_of(v)), &metric(CmpType::Gt, t)),
                v > t
            );
            assert_eq!(
                get_metric_flag_state(&Some(key_of(v)), &metric(CmpType::Eq, t)),
                v == t
            );
        }
    }
}

fn rms_config() -> Config {
    let tmpl = |query: &str, op: CmpType, threshold: f32| BinaryMetricRawDef {
        query: query.to_string(),
        op,
        threshold: key_of(threshold),
    };
    let flag = |name: &str, template: &str| FlagMetricDef {
        name: name.to_string(),
        service: "rms".to_string(),
        template: Some(MetricTemplateRef { name: template.to_string(), vars: None }),
        environments: vec![MetricEnvironmentDef { name: "prod".to_string(), threshold: None }],
    };
    Config {
        datasource: Datasource { url: "https:/a.b".to_string(), timeout: 10 },
        server: ServerConf { address: "0.0.0.0".to_string(), port: 3005 },
        metric_templates: Some(vec![
            ("slow".to_string(), tmpl("stats.$environment.$service.mean", CmpType::Gt, 1200.0)),
            (
                "success_low".to_string(),
                tmpl("stats.$environment.$service.success", CmpType::Lt, 65.0),
            ),
            ("down".to_string(), tmpl("stats.$environment.$service.failed", CmpType::Eq, 100.0)),
        ]),
        environments: vec![EnvironmentDef { name: "prod".to_string(), attributes: None }],
        flag_metrics: vec![
            flag("api_slow", "slow"),
            flag("api_success_rate_low", "success_low"),
            flag("api_down", "down"),
        ],
        health_metrics: vec![(
            "rms".to_string(),
            ServiceHealthDef {
                service: "rms".to_string(),
                component_name: Some("Managed Service".to_string()),
                category: "compute".to_string(),
                metrics: vec![
                    "rms.api_slow".to_string(),
                    "rms.api_success_rate_low".to_string(),
                    "rms.api_down".to_string(),
                ],
                expressions: vec![
                    MetricExpressionDef {
                        expression: "rms.api_slow || rms.api_success_rate_low".to_string(),
                        weight: 1,
                    },
                    MetricExpressionDef { expression: "rms.api_down".to_string(), weight: 2 },
                ],
            },
        )],
        status_dashboard: None,
    }
}

fn rms_state() -> AppState {
    let mut state = AppState::new(rms_config());
    assert!(state.process_config().is_ok());
    state
}

fn series(target: &str, points: Vec<(Option<f32>, u32)>) -> GraphiteData {
    GraphiteData {
        target: target.to_string(),
        datapoints: points.into_iter().map(|(v, ts)| (v.map(key_of), ts)).collect(),
    }
}

/// Samples at one timestamp: mean, success rate and failed count.
fn rms_samples(ts: u32, mean: f32, success: f32, failed: f32) -> Vec<GraphiteData> {
    vec![
        series("rms.api_slow", vec![(Some(mean), ts)]),
        series("rms.api_success_rate_low", vec![(Some(success), ts)]),
        series("rms.api_down", vec![(Some(failed), ts)]),
    ]
}

#[test]
fn test_scenario_healthy() {
    let state = rms_state();
    let data = rms_samples(1000, 500.0, 99.0, 0.0);
    let points = get_service_health(&state, "rms", "prod", &data).unwrap();
    assert_eq!(points.len(), 1);
    assert_eq!(points[0].ts, 1000);
    assert_eq!(points[0].value, 0);
    assert!(points[0].triggered.is_empty());
}

#[test]
fn test_scenario_degraded_slow() {
    let state = rms_state();
    let data = rms_samples(1000, 1500.0, 99.0, 0.0);
    let points = get_service_health(&state, "rms", "prod", &data).unwrap();
    assert_eq!(points.len(), 1);
    assert_eq!(points[0].value, 1);
    assert!(points[0].triggered.iter().any(|m| m == "rms.api_slow"));
    assert!(!points[0].triggered.iter().any(|m| m == "rms.api_success_rate_low"));
}

#[test]
fn test_scenario_degraded_errors() {
    let state = rms_state();
    let data = rms_samples(1000, 500.0, 50.0, 0.0);
    let points = get_service_health(&state, "rms", "prod", &data).unwrap();
    assert_eq!(points.len(), 1);
    assert_eq!(points[0].value, 1);
    assert!(points[0].triggered.iter().any(|m| m == "rms.api_success_rate_low"));
}

#[test]
fn test_scenario_outage() {
    let state = rms_state();
    let data = rms_samples(1000, 0.0, 0.0, 100.0);
    let points = get_service_health(&state, "rms", "prod", &data).unwrap();
    assert_eq!(points.len(), 1);
    // Weight 2 wins over weight 1 even though both expressions are true.
    assert_eq!(points[0].value, 2);
    assert!(points[0].triggered.iter().any(|m| m == "rms.api_down"));
    assert!(points[0].triggered.iter().any(|m| m == "rms.api_success_rate_low"));
    assert!(!points[0].triggered.iter().any(|m| m == "rms.api_slow"));
}

#[test]
fn test_empty_datapoints_empty_output() {
    let state = rms_state();
    let data = vec![
        series("rms.api_slow", vec![]),
        series("rms.api_success_rate_low", vec![]),
        series("rms.api_down", vec![]),
    ];
    let points = get_service_health(&state, "rms", "prod", &data).unwrap();
    assert!(points.is_empty());

    let no_data: Vec<GraphiteData> = vec![];
    let points = get_service_health(&state, "rms", "prod", &no_data).unwrap();
    assert!(points.is_empty());
}

#[test]
fn test_partial_data_other_metrics_false() {
    let state = rms_state();
    // Only the mean has a sample at ts 2000; the other metrics must
    // evaluate as false there, and null samples leave no record at all.
    let data = vec![
        series("rms.api_slow", vec![(Some(1500.0), 1000), (Some(1500.0), 2000)]),
        series("rms.api_success_rate_low", vec![(Some(50.0), 1000), (None, 2000)]),
        series("rms.api_down", vec![(Some(0.0), 1000)]),
    ];
    let points = get_service_health(&state, "rms", "prod", &data).unwrap();
    assert_eq!(points.len(), 2);
    assert_eq!(points[0].ts, 1000);
    assert_eq!(points[1].ts, 2000);
    assert_eq!(points[1].value, 1);
    assert!(points[1].triggered.iter().any(|m| m == "rms.api_slow"));
    assert!(!points[1].triggered.iter().any(|m| m == "rms.api_success_rate_low"));
}

#[test]
fn test_points_ascend_even_for_unsorted_input() {
    let state = rms_state();
    let data = vec![series(
        "rms.api_slow",
        vec![(Some(1500.0), 3000), (Some(500.0), 1000), (Some(1500.0), 2000)],
    )];
    let points = get_service_health(&state, "rms", "prod", &data).unwrap();
    assert_eq!(points.len(), 3);
    assert_eq!((points[0].ts, points[0].value), (1000, 0));
    assert_eq!((points[1].ts, points[1].value), (2000, 1));
    assert_eq!((points[2].ts, points[2].value), (3000, 1));
}

#[test]
fn test_evaluation_is_deterministic() {
    let state = rms_state();
    let data = rms_samples(1000, 1500.0, 50.0, 100.0);
    let a = get_service_health(&state, "rms", "prod", &data).unwrap();
    let b = get_service_health(&state, "rms", "prod", &data).unwrap();
    assert_eq!(a.len(), b.len());
    for (x, y) in a.iter().zip(b.iter()) {
        assert_eq!(x.ts, y.ts);
        assert_eq!(x.value, y.value);
        assert_eq!(x.triggered, y.triggered);
    }
}

#[test]
fn test_unknown_service_is_rejected() {
    let state = rms_state();
    let data: Vec<GraphiteData> = vec![];
    assert!(matches!(
        get_service_health(&state, "unknown", "prod", &data),
        Err(CloudMonError::ServiceNotSupported)
    ));
}

#[test]
fn test_unknown_environment_is_rejected() {
    let state = rms_state();
    let data: Vec<GraphiteData> = vec![];
    assert!(matches!(
        get_service_health(&state, "rms", "staging", &data),
        Err(CloudMonError::EnvNotSupported)
    ));
}

#[test]
fn test_broken_expression_is_fatal() {
    let mut config = rms_config();
    config.health_metrics[0].1.expressions.push(MetricExpressionDef {
        expression: "rms.api_slow ||".to_string(),
        weight: 3,
    });
    let mut state = AppState::new(config);
    assert!(state.process_config().is_ok());
    let data = rms_samples(1000, 500.0, 99.0, 0.0);
    assert!(matches!(
        get_service_health(&state, "rms", "prod", &data),
        Err(CloudMonError::ExpressionError)
    ));
}

#[test]
fn test_unknown_target_is_ignored() {
    let state = rms_state();
    let mut data = rms_samples(1000, 500.0, 99.0, 0.0);
    data.push(series("rms.other", vec![(Some(1.0), 1000)]));
    let points = get_service_health(&state, "rms", "prod", &data).unwrap();
    assert_eq!(points.len(), 1);
    assert_eq!(points[0].value, 0);
}
