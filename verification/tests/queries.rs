//! Graphite query planning tests: target aliasing, render query
//! parameters with absolute and relative time bounds, health target
//! planning, and the metrics-find tree.

use cloudmon_metrics::common::plan_health_targets;
use cloudmon_metrics::config::{Config, Datasource, ServerConf};
use cloudmon_metrics::graphite::{
    alias_graphite_query, build_render_query, find_metrics, Metric, MetricsQuery,
};
use cloudmon_metrics::types::{
    AppState, BinaryMetricRawDef, CmpType, EnvironmentDef, FlagMetricDef, MetricEnvironmentDef,
    MetricExpressionDef, MetricTemplateRef, ServiceHealthDef,
};

#[test]
fn graphite_test_alias_graphite_query() {
    assert_eq!(alias_graphite_query("q", "n"), "alias(q,'n')");
}

#[test]
fn main_test_alias_graphite_query() {
    assert_eq!(alias_graphite_query("q", "n"), "alias(q,'n')");
}

/// The render query of one aliased target over an absolute window: the
/// exact parameter list one render call carries.
#[test]
fn graphite_test_get_graphite_data() {
    let targets = vec![("alias".to_string(), "query".to_string())];
    let from = "2022-01-01T00:00:00+00:00".to_string();
    let until = "2022-02-01T00:00:00+00:00".to_string();
    let params = build_render_query(&targets, Some(&from), Some(&until), 15);

    let expected = vec![
        ("format", "json"),
        ("maxDataPoints", "15"),
        ("from", "00:00_20220101"),
        ("until", "00:00_20220201"),
        ("target", "alias(query,'alias')"),
    ];
    assert_eq!(params.len(), expected.len());
    for (got, want) in params.iter().zip(expected.iter()) {
        assert_eq!(got.0, want.0);
        assert_eq!(got.1, want.1);
    }
}

/// A bound that is not an RFC 3339 time is passed to the backend verbatim.
#[test]
fn test_relative_bounds_pass_verbatim() {
    let targets: Vec<(String, String)> = vec![];
    let from = "-5min".to_string();
    let until = "-2min".to_string();
    let params = build_render_query(&targets, Some(&from), Some(&until), 100);
    assert_eq!(params[1], ("maxDataPoints".to_string(), "100".to_string()));
    assert_eq!(params[2], ("from".to_string(), "-5min".to_string()));
    assert_eq!(params[3], ("until".to_string(), "-2min".to_string()));
}

/// The point budget renders in plain decimal, zero included.
#[test]
fn test_point_budget_rendering() {
    let targets: Vec<(String, String)> = vec![];
    let params = build_render_query(&targets, None, None, 0);
    assert_eq!(params[1], ("maxDataPoints".to_string(), "0".to_string()));
    let params = build_render_query(&targets, None, None, 65535);
    assert_eq!(params[1], ("maxDataPoints".to_string(), "65535".to_string()));
}

fn key_of(v: f32) -> u32 {
    let v = if v == 0.0 { 0.0f32 } else { v };
    let b = v.to_bits();
    if b & 0x8000_0000 != 0 {
        !b
    } else {
        b | 0x8000_0000
    }
}

fn grafana_state() -> AppState {
    let tmpl = |query: &str, op: CmpType, threshold: f32| BinaryMetricRawDef {
        query: query.to_string(),
        op,
        threshold: key_of(threshold),
    };
    let config = Config {
        datasource: Datasource { url: "https:/a.b".to_string(), timeout: 10 },
        server: ServerConf { address: "0.0.0.0".to_string(), port: 3005 },
        metric_templates: Some(vec![
            ("tmpl1".to_string(), tmpl("dummy1($environment.$service.count)", CmpType::Lt, 90.0)),
            ("tmpl2".to_string(), tmpl("dummy2($environment.$service.count)", CmpType::Gt, 80.0)),
        ]),
        environments: vec![EnvironmentDef { name: "env1".to_string(), attributes: None }],
        flag_metrics: vec![
            FlagMetricDef {
                name: "metric-1".to_string(),
                service: "srvA".to_string(),
                template: Some(MetricTemplateRef { name: "tmpl1".to_string(), vars: None }),
                environments: vec![
                    MetricEnvironmentDef { name: "env1".to_string(), threshold: None },
                    MetricEnvironmentDef {
                        name: "env2".to_string(),
                        threshold: Some(key_of(1.0)),
                    },
                ],
            },
            FlagMetricDef {
                name: "metric-2".to_string(),
                service: "srvA".to_string(),
                template: Some(MetricTemplateRef { name: "tmpl2".to_string(), vars: None }),
                environments: vec![
                    MetricEnvironmentDef { name: "env1".to_string(), threshold: None },
                    MetricEnvironmentDef { name: "env2".to_string(), threshold: None },
                ],
            },
        ],
        health_metrics: vec![(
            "srvA".to_string(),
            ServiceHealthDef {
                service: "srvA".to_string(),
                component_name: None,
                category: "compute".to_string(),
                metrics: vec!["srvA.metric-1".to_string(), "srvA.metric-2".to_string()],
                expressions: vec![MetricExpressionDef {
                    expression: "srvA.metric-1 || srvA.metric-2".to_string(),
                    weight: 1,
                }],
            },
        )],
        status_dashboard: None,
    };
    let mut state = AppState::new(config);
    assert!(state.process_config().is_ok());
    state
}

fn find(state: &AppState, query: &str) -> Vec<Metric> {
    find_metrics(
        &MetricsQuery { query: query.to_string(), from: None, until: None },
        state,
    )
}

fn entry(m: &Metric) -> (u8, u8, u8, &str, &str) {
    (m.allow_children, m.expandable, m.leaf, m.id.as_str(), m.text.as_str())
}

#[test]
fn test_get_grafana_find() {
    let state = grafana_state();

    let all = find(&state, "*");
    assert_eq!(all.len(), 2);
    assert_eq!(entry(&all[0]), (1, 1, 0, "flag", "flag"));
    assert_eq!(entry(&all[1]), (1, 1, 0, "health", "health"));

    let l1 = find(&state, "health");
    assert!(l1.is_empty());

    let l2 = find(&state, "flag.*");
    assert_eq!(l2.len(), 1);
    assert_eq!(entry(&l2[0]), (1, 1, 0, "env1", "env1"));

    let flag_l3 = find(&state, "flag.env1.*");
    assert_eq!(flag_l3.len(), 1);
    assert_eq!(entry(&flag_l3[0]), (1, 1, 0, "srvA", "srvA"));

    let flag_l4 = find(&state, "flag.env1.srvA.*");
    assert_eq!(flag_l4.len(), 2);
    assert_eq!(entry(&flag_l4[0]), (0, 0, 1, "srvA.metric-1", "srvA.metric-1"));
    assert_eq!(entry(&flag_l4[1]), (0, 0, 1, "srvA.metric-2", "srvA.metric-2"));

    let health_l3 = find(&state, "health.env1.*");
    assert_eq!(health_l3.len(), 1);
    assert_eq!(entry(&health_l3[0]), (0, 0, 1, "srvA", "srvA"));
}

#[test]
fn test_find_exact_flag_metric() {
    let state = grafana_state();
    let exact = find(&state, "flag.env1.srvA.metric-1");
    assert_eq!(exact.len(), 1);
    assert_eq!(entry(&exact[0]), (0, 0, 1, "srvA.metric-1", "srvA.metric-1"));
    assert!(find(&state, "flag.env1.srvA.missing").is_empty());
}

#[test]
fn test_plan_health_targets_builds_queries() {
    let state = grafana_state();
    let targets = plan_health_targets(&state, "srvA", "env1").unwrap();
    assert_eq!(targets.len(), 2);
    assert_eq!(targets[0].0, "srvA.metric-1");
    assert_eq!(targets[0].1, "dummy1(env1.srvA.count)");
    assert_eq!(targets[1].0, "srvA.metric-2");
    assert_eq!(targets[1].1, "dummy2(env1.srvA.count)");
}
