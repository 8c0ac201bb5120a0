//! Configuration surface of the metrics processor: datasource and server
//! settings, metric templates, environments, flag and health metrics, and
//! the status dashboard connection.

use crate::types::{BinaryMetricRawDef, EnvironmentDef, FlagMetricDef, ServiceHealthDef};
use vstd::prelude::*;

verus! {

/// A full configuration, as handed to the compiler.
pub struct Config {
    /// Datasource link
    pub datasource: Datasource,
    /// Server API binding
    pub server: ServerConf,
    /// Metric templates, by name
    pub metric_templates: Option<Vec<(String, BinaryMetricRawDef)>>,
    /// Environments
    pub environments: Vec<EnvironmentDef>,
    /// Flag metrics
    pub flag_metrics: Vec<FlagMetricDef>,
    /// Health metrics, by service identifier
    pub health_metrics: Vec<(String, ServiceHealthDef)>,
    /// Status Dashboard connection
    pub status_dashboard: Option<StatusDashboardConfig>,
}

/// Time-series datasource connection.
pub struct Datasource {
    /// Datasource url
    pub url: String,
    /// Query timeout, in seconds
    pub timeout: u16,
}

/// Server binding configuration.
pub struct ServerConf {
    /// IP address to bind to
    pub address: String,
    /// Port to bind to
    pub port: u16,
}

/// The address used when the configuration names none.
pub fn default_address() -> (r: String)
    ensures
        r@ == "0.0.0.0"@,
{
    "0.0.0.0".to_owned()
}

/// The port used when the configuration names none.
pub fn default_port() -> (r: u16)
    ensures
        r == 3000,
{
    3000
}

/// The datasource timeout used when the configuration names none.
pub fn default_timeout() -> (r: u16)
    ensures
        r == 10,
{
    10
}

/// The supported datasource kinds.
#[derive(Clone, Copy, Debug, PartialEq, Eq, Structural)]
pub enum DatasourceType {
    /// Graphite
    Graphite,
}

/// Status dashboard connection settings.
pub struct StatusDashboardConfig {
    /// Status dashboard URL
    pub url: String,
    /// JWT token signature secret
    pub secret: Option<String>,
}

} // verus!
