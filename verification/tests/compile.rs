//! Configuration compiler tests: template substitution, threshold
//! overrides, hyphen rewriting, service collection, duplicate and
//! unknown-template errors, and the serialize/parse/compile round trip.

use cloudmon_metrics::config::{Config, Datasource, ServerConf};
use cloudmon_metrics::types::{
    AppState, BinaryMetricRawDef, CmpType, ConfigError, EnvironmentDef, FlagMetric,
    FlagMetricDef, MetricEnvironmentDef, MetricExpressionDef, MetricTemplateRef,
    ServiceHealthDef,
};
use serde_yaml::Value;

/// The order- and equality-preserving encoding of an `f32` sample: the
/// sign-flipped bit pattern, with negative zero normalized first.
fn key_of(v: f32) -> u32 {
    let v = if v == 0.0 { 0.0f32 } else { v };
    let b = v.to_bits();
    if b & 0x8000_0000 != 0 {
        !b
    } else {
        b | 0x8000_0000
    }
}

fn template(query: &str, op: CmpType, threshold: f32) -> BinaryMetricRawDef {
    BinaryMetricRawDef { query: query.to_string(), op, threshold: key_of(threshold) }
}

fn env_ref(name: &str, threshold: Option<f32>) -> MetricEnvironmentDef {
    MetricEnvironmentDef { name: name.to_string(), threshold: threshold.map(key_of) }
}

fn flag_def(name: &str, service: &str, tmpl: &str, envs: Vec<MetricEnvironmentDef>) -> FlagMetricDef {
    FlagMetricDef {
        name: name.to_string(),
        service: service.to_string(),
        template: Some(MetricTemplateRef { name: tmpl.to_string(), vars: None }),
        environments: envs,
    }
}

fn health_def(
    service: &str,
    category: &str,
    metrics: Vec<&str>,
    expressions: Vec<(&str, u8)>,
) -> ServiceHealthDef {
    ServiceHealthDef {
        service: service.to_string(),
        component_name: None,
        category: category.to_string(),
        metrics: metrics.into_iter().map(|m| m.to_string()).collect(),
        expressions: expressions
            .into_iter()
            .map(|(e, w)| MetricExpressionDef { expression: e.to_string(), weight: w })
            .collect(),
    }
}

fn base_config() -> Config {
    Config {
        datasource: Datasource { url: "https:/a.b".to_string(), timeout: 10 },
        server: ServerConf { address: "0.0.0.0".to_string(), port: 3005 },
        metric_templates: None,
        environments: vec![EnvironmentDef { name: "env1".to_string(), attributes: None }],
        flag_metrics: vec![],
        health_metrics: vec![],
        status_dashboard: None,
    }
}

fn state_config() -> Config {
    let mut c = base_config();
    c.metric_templates = Some(vec![
        ("tmpl1".to_string(), template("dummy1($environment.$service.count)", CmpType::Lt, 90.0)),
        ("tmpl2".to_string(), template("dummy2($environment.$service.count)", CmpType::Gt, 80.0)),
    ]);
    c.flag_metrics = vec![
        flag_def(
            "metric-1",
            "srvA",
            "tmpl1",
            vec![env_ref("env1", None), env_ref("env2", Some(1.0))],
        ),
        flag_def("metric-2", "srvA", "tmpl2", vec![env_ref("env1", None), env_ref("env2", None)]),
    ];
    c.health_metrics = vec![(
        "srvA".to_string(),
        health_def(
            "srvA",
            "compute",
            vec!["srvA.metric-1", "srvA.metric-2"],
            vec![("srvA.metric-1 || srvA.metric-2", 1)],
        ),
    )];
    c
}

fn compiled(c: Config) -> AppState {
    let mut state = AppState::new(c);
    assert!(state.process_config().is_ok());
    state
}

#[test]
fn test_state() {
    let state = compiled(state_config());

    let m1 = state.flag_metrics.get("srvA.metric-1").unwrap().get("env1").unwrap();
    assert_eq!("dummy1(env1.srvA.count)", m1.query);
    assert_eq!(CmpType::Lt, m1.op);
    assert_eq!(key_of(90.0), m1.threshold);
    let m2 = state.flag_metrics.get("srvA.metric-1").unwrap().get("env2").unwrap();
    assert_eq!("dummy1(env2.srvA.count)", m2.query);
    assert_eq!(CmpType::Lt, m2.op);
    assert_eq!(key_of(1.0), m2.threshold);
    let s1 = state.health_metrics.get("srvA").unwrap();
    assert_eq!(s1.expressions[0].expression, "srvA.metric_1 || srvA.metric_2");
}

#[test]
fn test_template_variable_substitution() {
    let mut c = base_config();
    c.metric_templates = Some(vec![(
        "cpu_usage".to_string(),
        template("metrics.$environment.$service.cpu.usage", CmpType::Gt, 80.0),
    )]);
    c.environments = vec![EnvironmentDef { name: "production".to_string(), attributes: None }];
    c.flag_metrics = vec![flag_def(
        "cpu-alert",
        "webapp",
        "cpu_usage",
        vec![env_ref("production", None)],
    )];
    let state = compiled(c);

    let metric = state.flag_metrics.get("webapp.cpu-alert").unwrap().get("production").unwrap();
    assert_eq!("metrics.production.webapp.cpu.usage", metric.query);
    assert_eq!(CmpType::Gt, metric.op);
    assert_eq!(key_of(80.0), metric.threshold);
}

#[test]
fn test_multiple_environments_expansion() {
    let mut c = base_config();
    c.metric_templates = Some(vec![(
        "error_rate".to_string(),
        template("$environment.$service.errors", CmpType::Gt, 5.0),
    )]);
    c.environments = vec![
        EnvironmentDef { name: "dev".to_string(), attributes: None },
        EnvironmentDef { name: "staging".to_string(), attributes: None },
        EnvironmentDef { name: "production".to_string(), attributes: None },
    ];
    c.flag_metrics = vec![flag_def(
        "error-count",
        "api",
        "error_rate",
        vec![env_ref("dev", None), env_ref("staging", None), env_ref("production", None)],
    )];
    let state = compiled(c);

    let metric_key = "api.error-count";
    assert!(state.flag_metrics.contains_key(metric_key));
    let dev = state.flag_metrics.get(metric_key).unwrap().get("dev").unwrap();
    assert_eq!("dev.api.errors", dev.query);
    let staging = state.flag_metrics.get(metric_key).unwrap().get("staging").unwrap();
    assert_eq!("staging.api.errors", staging.query);
    let prod = state.flag_metrics.get(metric_key).unwrap().get("production").unwrap();
    assert_eq!("production.api.errors", prod.query);
}

#[test]
fn test_per_environment_threshold_override() {
    let mut c = base_config();
    c.metric_templates = Some(vec![(
        "latency".to_string(),
        template("$environment.$service.latency.p95", CmpType::Gt, 1000.0),
    )]);
    c.environments = vec![
        EnvironmentDef { name: "dev".to_string(), attributes: None },
        EnvironmentDef { name: "production".to_string(), attributes: None },
    ];
    c.flag_metrics = vec![flag_def(
        "latency-alert",
        "api",
        "latency",
        vec![env_ref("dev", Some(5000.0)), env_ref("production", Some(500.0))],
    )];
    let state = compiled(c);

    let dev = state.flag_metrics.get("api.latency-alert").unwrap().get("dev").unwrap();
    assert_eq!(key_of(5000.0), dev.threshold);
    let prod = state.flag_metrics.get("api.latency-alert").unwrap().get("production").unwrap();
    assert_eq!(key_of(500.0), prod.threshold);
}

#[test]
fn test_dash_to_underscore_conversion() {
    let mut c = base_config();
    c.environments = vec![EnvironmentDef { name: "production".to_string(), attributes: None }];
    c.health_metrics = vec![(
        "api-service".to_string(),
        health_def(
            "api-service",
            "compute",
            vec!["api-service.cpu-usage", "api-service.memory-usage", "api-service.disk-io"],
            vec![(
                "api-service.cpu-usage || api-service.memory-usage && api-service.disk-io",
                2,
            )],
        ),
    )];
    let state = compiled(c);

    let hm = state.health_metrics.get("api-service").unwrap();
    assert_eq!(
        "api_service.cpu_usage || api_service.memory_usage && api_service.disk_io",
        hm.expressions[0].expression
    );
}

#[test]
fn test_service_set_population() {
    let mut c = base_config();
    c.metric_templates = Some(vec![("tmpl".to_string(), template("metric", CmpType::Lt, 1.0))]);
    c.environments = vec![EnvironmentDef { name: "prod".to_string(), attributes: None }];
    c.flag_metrics = vec![
        flag_def("metric1", "webapp", "tmpl", vec![env_ref("prod", None)]),
        flag_def("metric2", "database", "tmpl", vec![env_ref("prod", None)]),
        flag_def("metric3", "cache", "tmpl", vec![env_ref("prod", None)]),
    ];
    let state = compiled(c);

    assert_eq!(3, state.services.len());
    assert!(state.services.iter().any(|s| s == "webapp"));
    assert!(state.services.iter().any(|s| s == "database"));
    assert!(state.services.iter().any(|s| s == "cache"));
}

#[test]
fn test_health_metrics_expression_copying() {
    let mut c = base_config();
    c.environments = vec![EnvironmentDef { name: "prod".to_string(), attributes: None }];
    c.health_metrics = vec![(
        "compute-service".to_string(),
        health_def(
            "compute",
            "infrastructure",
            vec!["cpu", "memory"],
            vec![("cpu || memory", 1), ("cpu && memory", 3)],
        ),
    )];
    let state = compiled(c);

    let hm = state.health_metrics.get("compute-service").unwrap();
    assert_eq!(2, hm.expressions.len());
    assert_eq!("cpu || memory", hm.expressions[0].expression);
    assert_eq!(1, hm.expressions[0].weight);
    assert_eq!("cpu && memory", hm.expressions[1].expression);
    assert_eq!(3, hm.expressions[1].weight);
}

#[test]
fn test_binary_metric_raw_def_default() {
    let default = BinaryMetricRawDef::default();
    assert_eq!(default.query, String::new());
    assert_eq!(default.op, CmpType::Lt);
    assert_eq!(default.threshold, 0);
}

#[test]
fn test_flag_metric_default() {
    let default = FlagMetric::default();
    assert_eq!(default.query, String::new());
    assert!(matches!(default.op, CmpType::Lt));
    assert_eq!(default.threshold, 0);
}

/// A later entry for the same environment overwrites the earlier one.
#[test]
fn test_repeated_environment_takes_last_threshold() {
    let mut c = base_config();
    c.metric_templates = Some(vec![("tmpl".to_string(), template("m", CmpType::Lt, 1.0))]);
    c.flag_metrics = vec![flag_def(
        "a",
        "b",
        "tmpl",
        vec![env_ref("env1", Some(2.0)), env_ref("env1", Some(3.0))],
    )];
    let state = compiled(c);
    let m = state.flag_metrics.get("b.a").unwrap().get("env1").unwrap();
    assert_eq!(m.threshold, key_of(3.0));
}

#[test]
fn test_unknown_template_is_rejected() {
    let mut c = base_config();
    c.metric_templates = Some(vec![("tmpl".to_string(), template("m", CmpType::Lt, 1.0))]);
    c.flag_metrics = vec![flag_def("a", "b", "missing", vec![env_ref("env1", None)])];
    let mut state = AppState::new(c);
    assert_eq!(state.process_config(), Err(ConfigError::UnknownTemplate));
}

#[test]
fn test_duplicate_metric_is_rejected() {
    let mut c = base_config();
    c.metric_templates = Some(vec![("tmpl".to_string(), template("m", CmpType::Lt, 1.0))]);
    c.flag_metrics = vec![
        flag_def("a", "b", "tmpl", vec![env_ref("env1", None)]),
        flag_def("a", "b", "tmpl", vec![env_ref("env1", None)]),
    ];
    let mut state = AppState::new(c);
    assert_eq!(state.process_config(), Err(ConfigError::DuplicateMetric));
}

/// Serializing a configuration, parsing it back and compiling again
/// yields the same runtime plan as compiling it directly.
#[test]
fn test_config_compile_round_trip() {
    let state1 = compiled(state_config());

    // Write the configuration out as YAML, read it back, and rebuild it.
    let yaml = serde_yaml::to_string(&config_to_yaml(&state_config())).unwrap();
    let value: serde_yaml::Value = serde_yaml::from_str(&yaml).unwrap();
    let state2 = compiled(config_from_yaml(&value));

    for (metric, env) in
        [("srvA.metric-1", "env1"), ("srvA.metric-1", "env2"), ("srvA.metric-2", "env1")]
    {
        let a = state1.flag_metrics.get(metric).unwrap().get(env).unwrap();
        let b = state2.flag_metrics.get(metric).unwrap().get(env).unwrap();
        assert_eq!(a.query, b.query);
        assert_eq!(a.op, b.op);
        assert_eq!(a.threshold, b.threshold);
    }
    let h1 = state1.health_metrics.get("srvA").unwrap();
    let h2 = state2.health_metrics.get("srvA").unwrap();
    assert_eq!(h1.expressions[0].expression, h2.expressions[0].expression);
    assert_eq!(h1.expressions[0].weight, h2.expressions[0].weight);
    assert_eq!(h1.metrics, h2.metrics);
    assert_eq!(state1.services, state2.services);
}

fn config_to_yaml(c: &Config) -> serde_yaml::Value {
    let mut root = serde_yaml::Mapping::new();
    let mut templates = serde_yaml::Mapping::new();
    for (name, t) in c.metric_templates.as_ref().unwrap() {
        let mut m = serde_yaml::Mapping::new();
        m.insert("query".into(), Value::String(t.query.clone()));
        m.insert(
            "op".into(),
            Value::String(
                match t.op {
                    CmpType::Lt => "lt",
                    CmpType::Gt => "gt",
                    CmpType::Eq => "eq",
                }
                .to_string(),
            ),
        );
        m.insert("threshold".into(), Value::Number(t.threshold.into()));
        templates.insert(Value::String(name.clone()), Value::Mapping(m));
    }
    root.insert("metric_templates".into(), Value::Mapping(templates));
    let mut flags = Vec::new();
    for f in &c.flag_metrics {
        let mut m = serde_yaml::Mapping::new();
        m.insert("name".into(), Value::String(f.name.clone()));
        m.insert("service".into(), Value::String(f.service.clone()));
        m.insert(
            "template".into(),
            Value::String(f.template.as_ref().unwrap().name.clone()),
        );
        let envs: Vec<Value> = f
            .environments
            .iter()
            .map(|e| {
                let mut em = serde_yaml::Mapping::new();
                em.insert("name".into(), Value::String(e.name.clone()));
                if let Some(t) = e.threshold {
                    em.insert("threshold".into(), Value::Number(t.into()));
                }
                Value::Mapping(em)
            })
            .collect();
        m.insert("environments".into(), Value::Sequence(envs));
        flags.push(Value::Mapping(m));
    }
    root.insert("flag_metrics".into(), Value::Sequence(flags));
    let mut health = serde_yaml::Mapping::new();
    for (key, h) in &c.health_metrics {
        let mut m = serde_yaml::Mapping::new();
        m.insert("service".into(), Value::String(h.service.clone()));
        m.insert("category".into(), Value::String(h.category.clone()));
        m.insert(
            "metrics".into(),
            Value::Sequence(h.metrics.iter().map(|x| Value::String(x.clone())).collect()),
        );
        let exprs: Vec<Value> = h
            .expressions
            .iter()
            .map(|x| {
                let mut xm = serde_yaml::Mapping::new();
                xm.insert("expression".into(), Value::String(x.expression.clone()));
                xm.insert("weight".into(), Value::Number(x.weight.into()));
                Value::Mapping(xm)
            })
            .collect();
        m.insert("expressions".into(), Value::Sequence(exprs));
        health.insert(Value::String(key.clone()), Value::Mapping(m));
    }
    root.insert("health_metrics".into(), Value::Mapping(health));
    Value::Mapping(root)
}

fn config_from_yaml(v: &serde_yaml::Value) -> Config {
    let mut c = base_config();
    let mut templates = Vec::new();
    for (name, t) in v["metric_templates"].as_mapping().unwrap() {
        let op = match t["op"].as_str().unwrap() {
            "lt" => CmpType::Lt,
            "gt" => CmpType::Gt,
            _ => CmpType::Eq,
        };
        templates.push((
            name.as_str().unwrap().to_string(),
            BinaryMetricRawDef {
                query: t["query"].as_str().unwrap().to_string(),
                op,
                threshold: t["threshold"].as_u64().unwrap() as u32,
            },
        ));
    }
    c.metric_templates = Some(templates);
    for f in v["flag_metrics"].as_sequence().unwrap() {
        c.flag_metrics.push(FlagMetricDef {
            name: f["name"].as_str().unwrap().to_string(),
            service: f["service"].as_str().unwrap().to_string(),
            template: Some(MetricTemplateRef {
                name: f["template"].as_str().unwrap().to_string(),
                vars: None,
            }),
            environments: f["environments"]
                .as_sequence()
                .unwrap()
                .iter()
                .map(|e| MetricEnvironmentDef {
                    name: e["name"].as_str().unwrap().to_string(),
                    threshold: e.get("threshold").map(|t| t.as_u64().unwrap() as u32),
                })
                .collect(),
        });
    }
    for (key, h) in v["health_metrics"].as_mapping().unwrap() {
        c.health_metrics.push((
            key.as_str().unwrap().to_string(),
            ServiceHealthDef {
                service: h["service"].as_str().unwrap().to_string(),
                component_name: None,
                category: h["category"].as_str().unwrap().to_string(),
                metrics: h["metrics"]
                    .as_sequence()
                    .unwrap()
                    .iter()
                    .map(|m| m.as_str().unwrap().to_string())
                    .collect(),
                expressions: h["expressions"]
                    .as_sequence()
                    .unwrap()
                    .iter()
                    .map(|x| MetricExpressionDef {
                        expression: x["expression"].as_str().unwrap().to_string(),
                        weight: x["weight"].as_u64().unwrap() as u8,
                    })
                    .collect(),
            },
        ));
    }
    c
}
