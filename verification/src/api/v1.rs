//! API v1 of the metrics convertor: the health query parameters and the
//! shape of the health response.

use crate::common::health_points_view;
use crate::types::{ServiceHealthData, ServiceHealthPoint, ServiceHealthPointView};
use vstd::prelude::*;

verus! {

/// Query parameters supported by the health call.
pub struct HealthQuery {
    /// Start point to query metrics
    pub from: String,
    pub to: String,
    pub max_data_points: u32,
    pub service: String,
    pub environment: String,
}

/// The point budget used when the query names none.
pub fn default_max_data_points() -> (r: u32)
    ensures
        r == 100,
{
    100
}

/// Response of the health call.
pub struct ServiceHealthResponse {
    pub name: String,
    pub service_category: String,
    pub environment: String,
    pub metrics: ServiceHealthData,
}

/// The plain `(ts, weight)` pairs of a point list.
pub open spec fn pairs_of(pts: Seq<ServiceHealthPointView>) -> Seq<(u32, u8)> {
    pts.map_values(|p: ServiceHealthPointView| (p.ts, p.value))
}

/// Project a health point list onto the pairs the response serializes.
pub fn health_data_of(points: &Vec<ServiceHealthPoint>) -> (r: ServiceHealthData)
    ensures
        r@ == pairs_of(health_points_view(points@)),
{
    let mut r: ServiceHealthData = Vec::new();
    let mut i: usize = 0;
    while i < points.len()
        invariant
            i <= points@.len(),
            r@.len() == i,
            forall|j: int| 0 <= j < i ==> r@[j] == (points@[j]@.ts, points@[j]@.value),
        decreases points@.len() - i,
    {
        r.push((points[i].ts, points[i].value));
        i = i + 1;
    }
    assert(r@ =~= pairs_of(health_points_view(points@)));
    r
}

} // verus!
