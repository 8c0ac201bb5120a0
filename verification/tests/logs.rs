//! Reporter log validation tests: the scenario table the end-to-end runs
//! use, the expected log fields each scenario produces, and the check of a
//! captured log line against them.

use regex::Regex;

/// One end-to-end scenario: the raw samples written to the backend and
/// what the reporter is expected to log for them.
#[derive(Debug, Clone)]
struct TestScenario {
    name: &'static str,
    failed_count: f64,
    attempted_count: f64,
    response_time_ms: f64,
    success_count: f64,
    expected_weight: u8,
    expect_incident_log: bool,
}

impl TestScenario {
    fn expected_expression(&self) -> Option<String> {
        let service = format!("rms_{}", self.name);
        match self.name {
            "healthy" => None,
            "degraded_slow" | "degraded_errors" => Some(format!(
                "{}.api_slow || {}.api_success_rate_low",
                service, service
            )),
            "outage" => Some(format!("{}.api_down", service)),
            _ => None,
        }
    }

    fn expected_triggered_metrics(&self) -> Vec<String> {
        let service = format!("rms_{}", self.name);
        match self.name {
            "healthy" => vec![],
            "degraded_slow" => vec![format!("{}.api_slow", service)],
            "degraded_errors" => vec![format!("{}.api_success_rate_low", service)],
            "outage" => vec![
                format!("{}.api_down", service),
                format!("{}.api_success_rate_low", service),
            ],
            _ => vec![],
        }
    }

    fn healthy() -> Self {
        TestScenario {
            name: "healthy",
            failed_count: 0.0,
            attempted_count: 100.0,
            response_time_ms: 500.0,
            success_count: 99.0,
            expected_weight: 0,
            expect_incident_log: false,
        }
    }

    fn degraded_slow() -> Self {
        TestScenario {
            name: "degraded_slow",
            failed_count: 0.0,
            attempted_count: 100.0,
            response_time_ms: 1500.0,
            success_count: 99.0,
            expected_weight: 1,
            expect_incident_log: true,
        }
    }

    fn degraded_errors() -> Self {
        TestScenario {
            name: "degraded_errors",
            failed_count: 0.0,
            attempted_count: 100.0,
            response_time_ms: 500.0,
            success_count: 50.0,
            expected_weight: 1,
            expect_incident_log: true,
        }
    }

    fn outage() -> Self {
        TestScenario {
            name: "outage",
            failed_count: 100.0,
            attempted_count: 100.0,
            response_time_ms: 0.0,
            success_count: 0.0,
            expected_weight: 2,
            expect_incident_log: true,
        }
    }
}

/// The log fields an incident-creating iteration must carry.
#[derive(Debug, Clone)]
struct ExpectedLogEntry {
    environment: String,
    service: String,
    component_name: String,
    impact: u8,
    matched_expression: String,
    triggered_metrics_contain: Vec<String>,
}

impl ExpectedLogEntry {
    fn from_scenario(scenario: &TestScenario) -> Option<Self> {
        if !scenario.expect_incident_log {
            return None;
        }
        Some(ExpectedLogEntry {
            environment: "production_eu-de".to_string(),
            service: "config".to_string(),
            component_name: "Config".to_string(),
            impact: scenario.expected_weight,
            matched_expression: scenario
                .expected_expression()
                .unwrap_or_else(|| "none".to_string()),
            triggered_metrics_contain: scenario.expected_triggered_metrics(),
        })
    }
}

/// Check one captured log line against the expected fields, returning one
/// message per mismatch.
fn validate_log_line(log_line: &str, expected: &ExpectedLogEntry) -> Vec<String> {
    let mut errors = Vec::new();

    // Strip ANSI color codes before matching.
    let re = Regex::new(r"\x1b\[[0-9;]*m").unwrap();
    let clean_log = re.replace_all(log_line, "").to_string();

    let env_pattern = format!("environment=\"{}\"", expected.environment);
    if !clean_log.contains(&env_pattern) {
        errors.push(format!("Missing or wrong environment: expected '{}' in log", env_pattern));
    }
    let service_pattern = format!("service=\"{}\"", expected.service);
    if !clean_log.contains(&service_pattern) {
        errors.push(format!("Missing or wrong service: expected '{}' in log", service_pattern));
    }
    let component_pattern = format!("component_name=\"{}\"", expected.component_name);
    if !clean_log.contains(&component_pattern) {
        errors.push(format!(
            "Missing or wrong component_name: expected '{}' in log",
            component_pattern
        ));
    }
    let impact_pattern = format!("impact={}", expected.impact);
    if !clean_log.contains(&impact_pattern) {
        errors.push(format!("Missing or wrong impact: expected '{}' in log", impact_pattern));
    }
    let expr_pattern = format!("matched_expression=\"{}\"", expected.matched_expression);
    if !clean_log.contains(&expr_pattern) {
        errors.push(format!(
            "Missing or wrong matched_expression: expected '{}' in log",
            expr_pattern
        ));
    }
    for metric in &expected.triggered_metrics_contain {
        if !clean_log.contains(metric) {
            errors.push(format!("triggered_metrics missing '{}' in log line", metric));
        }
    }
    if !clean_log.contains("creating incident") {
        errors.push("Missing 'creating incident' message in log".to_string());
    }
    errors
}

#[test]
fn test_log_line_validation() {
    let expected = ExpectedLogEntry {
        environment: "production_eu-de".to_string(),
        service: "config".to_string(),
        component_name: "Config".to_string(),
        impact: 1,
        matched_expression: "rms.api_slow || rms.api_success_rate_low".to_string(),
        triggered_metrics_contain: vec!["rms.api_slow".to_string()],
    };

    let valid_log = "2024-01-22T10:30:45.123456Z  INFO reporter: environment=\"production_eu-de\" service=\"config\" component_name=\"Config\" component_id=218 query_from=\"-5min\" query_to=\"-1min\" metric_timestamp=1705929045 impact=1 triggered_metrics=[\"rms.api_slow(query=..., op=gt, threshold=1200)\"] matched_expression=\"rms.api_slow || rms.api_success_rate_low\" creating incident: health metric indicates service degradation";
    let errors = validate_log_line(valid_log, &expected);
    assert!(errors.is_empty(), "Valid log should pass: {:?}", errors);

    let invalid_log = "environment=\"wrong_env\" service=\"config\" impact=1 matched_expression=\"rms.api_slow || rms.api_success_rate_low\" creating incident";
    let errors = validate_log_line(invalid_log, &expected);
    assert!(!errors.is_empty(), "Invalid log should have errors");
    assert!(
        errors.iter().any(|e| e.contains("environment")),
        "Should detect wrong environment"
    );
}

#[test]
fn test_scenario_expected_log_entries() {
    // The healthy scenario produces no incident log at all.
    let healthy = TestScenario::healthy();
    assert!(!healthy.expect_incident_log);
    assert!(ExpectedLogEntry::from_scenario(&healthy).is_none());
    assert_eq!(healthy.expected_weight, 0);
    assert_eq!(healthy.failed_count, 0.0);
    assert_eq!(healthy.attempted_count, 100.0);
    assert_eq!(healthy.response_time_ms, 500.0);
    assert_eq!(healthy.success_count, 99.0);

    // A slow service produces a weight-one incident log.
    let degraded = TestScenario::degraded_slow();
    assert!(degraded.expect_incident_log);
    let expected = ExpectedLogEntry::from_scenario(&degraded).unwrap();
    assert_eq!(expected.impact, 1);
    assert_eq!(
        expected.matched_expression,
        "rms_degraded_slow.api_slow || rms_degraded_slow.api_success_rate_low"
    );

    // An error-prone service matches the same expression via the other flag.
    let errors = TestScenario::degraded_errors();
    let expected = ExpectedLogEntry::from_scenario(&errors).unwrap();
    assert_eq!(expected.impact, 1);
    assert!(expected
        .triggered_metrics_contain
        .contains(&"rms_degraded_errors.api_success_rate_low".to_string()));

    // An outage produces a weight-two incident log.
    let outage = TestScenario::outage();
    assert!(outage.expect_incident_log);
    let expected = ExpectedLogEntry::from_scenario(&outage).unwrap();
    assert_eq!(expected.impact, 2);
    assert_eq!(expected.matched_expression, "rms_outage.api_down");
}
