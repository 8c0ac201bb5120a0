//! The reporter's decisions: target synthesis from configuration, the
//! bootstrap retry policy, and the per-service polling step. The control
//! loop that performs the HTTP calls and the sleeps lives outside the
//! library and feeds every outcome back into these functions.

use crate::sd::{
    attr_views, build_component_id_cache, build_incident_data, cache_fold, cache_views,
    component_views, find_component_id, find_component_spec, rfc3339_of, CacheEntryView,
    Component, ComponentAttribute, ComponentCache, ComponentView, IncidentData,
    StatusDashboardComponent,
};
use crate::types::{AppState, ServiceHealthDef, ServiceHealthDefView};
use vstd::prelude::*;

verus! {

/// How many fetch attempts the startup bootstrap makes at most.
pub const BOOTSTRAP_MAX_ATTEMPTS: u8 = 3;

/// How long the loop sleeps between bootstrap attempts and between polls.
pub const SLEEP_SECONDS: u64 = 60;

/// What the cache a component listing builds looks like: the last-wins
/// fold of the listing over `(name, attribute set)` keys.
pub open spec fn cache_models(
    c: Seq<CacheEntryView>,
    comps: Seq<crate::sd::StatusDashboardComponentView>,
) -> bool {
    c == cache_fold(comps, 0, Seq::<CacheEntryView>::empty())
}

/// What the bootstrap does next after one components fetch.
pub enum BootstrapStep {
    /// The cache is built; polling may start.
    Ready(ComponentCache),
    /// Sleep the given seconds, then fetch again as the given attempt.
    RetryAfterSleep { seconds: u64, next_attempt: u8 },
    /// Give up: the reporter exits with a failure.
    GiveUp,
}

/// Decide the bootstrap's next move after fetch attempt `attempt`
/// (counting from one) came back with `outcome` — `None` for any fetch
/// failure. A non-empty listing builds the cache; an empty one gives up at
/// once; a failure retries after sixty seconds, at most three attempts in
/// all.
pub fn bootstrap_step(attempt: u8, outcome: Option<Vec<StatusDashboardComponent>>) -> (r:
    BootstrapStep)
    requires
        1 <= attempt,
    ensures
        (r is Ready) <==> (outcome matches Some(c) && c@.len() > 0),
        r matches BootstrapStep::Ready(cache) ==> cache_models(
            cache_views(cache),
            component_views(outcome->0@),
        ),
        (r is RetryAfterSleep) <==> (outcome is None && attempt < BOOTSTRAP_MAX_ATTEMPTS),
        r matches BootstrapStep::RetryAfterSleep { seconds, next_attempt } ==> seconds == SLEEP_SECONDS
            && next_attempt == attempt + 1,
        (r is GiveUp) <==> ((outcome matches Some(c) && c@.len() == 0) || (outcome is None
            && attempt >= BOOTSTRAP_MAX_ATTEMPTS)),
{
    match outcome {
        Some(components) => {
            if components.len() > 0 {
                BootstrapStep::Ready(build_component_id_cache(components))
            } else {
                BootstrapStep::GiveUp
            }
        },
        None => {
            if attempt < BOOTSTRAP_MAX_ATTEMPTS {
                BootstrapStep::RetryAfterSleep {
                    seconds: SLEEP_SECONDS,
                    next_attempt: attempt + 1,
                }
            } else {
                BootstrapStep::GiveUp
            }
        },
    }
}

/// Whether a poll answer makes the reporter post an incident: the answer
/// holds a last point of positive weight and the target resolves in the
/// cache.
pub open spec fn poll_reports(
    cache: Seq<CacheEntryView>,
    t: ComponentView,
    last: Option<(u32, u8)>,
) -> bool {
    &&& last is Some
    &&& (last->0).1 > 0
    &&& find_component_spec(cache, t) is Some
}

/// What one poll of a service decides.
pub enum PollStep {
    /// Nothing to report: no data, or the last point's weight is zero.
    NoReport,
    /// Post this incident for this component id.
    Post(u32, IncidentData),
    /// The target misses the cache: refresh it once and ask again.
    RefreshAndRetry,
    /// Still missing after the one refresh: skip this service for this
    /// iteration.
    SkipMissing,
}

/// Decide what to do for one service, given the last health point of the
/// poll answer (`None` when the answer held no points) and whether the
/// cache was already refreshed for this miss. A weight of zero never
/// posts; a positive weight posts against the component the cache resolves
/// by subset matching; a miss is answered by exactly one refresh.
pub fn poll_step(
    cache: &ComponentCache,
    target: &Component,
    last: Option<(u32, u8)>,
    refreshed: bool,
) -> (r: PollStep)
    ensures
        (r is NoReport) <==> (last is None || (last->0).1 == 0),
        (r is Post) <==> poll_reports(cache_views(*cache), target@, last),
        r matches PollStep::Post(id, incident) ==> {
            &&& find_component_spec(cache_views(*cache), target@) == Some(id)
            &&& incident@.impact == (last->0).1
            &&& incident@.components == seq![id]
            &&& incident@.start_date == rfc3339_of((last->0).0 - 1)
            &&& incident@.title == "System incident from monitoring system"@
            &&& incident@.description
                == "System-wide incident affecting one or multiple components. Created automatically."@
            &&& incident@.system == true
            &&& incident@.incident_type == "incident"@
        },
        (r is RefreshAndRetry) <==> (last is Some && (last->0).1 > 0 && find_component_spec(
            cache_views(*cache),
            target@,
        ) is None && !refreshed),
        (r is SkipMissing) <==> (last is Some && (last->0).1 > 0 && find_component_spec(
            cache_views(*cache),
            target@,
        ) is None && refreshed),
{
    match last {
        None => PollStep::NoReport,
        Some(point) => {
            let ts = point.0;
            let weight = point.1;
            if weight == 0 {
                return PollStep::NoReport;
            }
            match find_component_id(cache, target) {
                Some(id) => PollStep::Post(id, build_incident_data(id, weight, ts as i64)),
                None => {
                    if refreshed {
                        PollStep::SkipMissing
                    } else {
                        PollStep::RefreshAndRetry
                    }
                },
            }
        },
    }
}

/// The reporter keeps no record of what it has posted: whenever one
/// degraded point posts, any later degraded point of the same service
/// posts again — consecutive degradations yield independent posts, with no
/// deduplication.
pub proof fn lemma_no_deduplication(
    cache: Seq<CacheEntryView>,
    t: ComponentView,
    p1: (u32, u8),
    p2: (u32, u8),
)
    requires
        poll_reports(cache, t, Some(p1)),
        p2.1 > 0,
    ensures
        poll_reports(cache, t, Some(p2)),
{
}

/// The health definition entries of the compiled state, by view.
pub open spec fn health_entries(state: AppState) -> Seq<(Seq<char>, ServiceHealthDefView)> {
    state.health_metrics.view_seq().map_values(
        |p: (Seq<char>, ServiceHealthDef)| (p.0, p.1@),
    )
}

/// The component targets one environment synthesizes, from definition `h`
/// on: one per health definition that names a component, carrying the
/// environment's attributes; definitions without a component name are
/// skipped.
pub open spec fn targets_for_env(
    defs: Seq<(Seq<char>, ServiceHealthDefView)>,
    attrs: Seq<(Seq<char>, Seq<char>)>,
    h: int,
) -> Seq<(Seq<char>, ComponentView)>
    decreases defs.len() - h,
{
    if h < 0 || h >= defs.len() {
        Seq::empty()
    } else {
        (if defs[h].1.component_name is Some {
            seq![
                (
                    defs[h].0,
                    ComponentView { name: defs[h].1.component_name->0, attributes: attrs },
                ),
            ]
        } else {
            Seq::empty()
        }) + targets_for_env(defs, attrs, h + 1)
    }
}

/// The views of a per-environment target list.
pub open spec fn env_target_views(v: Seq<(String, Component)>) -> Seq<(Seq<char>, ComponentView)> {
    v.map_values(|p: (String, Component)| (p.0@, p.1@))
}

/// Synthesize the component targets of one environment: one per health
/// definition that names a component, in definition order, carrying the
/// environment's attributes.
pub fn build_env_targets(state: &AppState, env_attrs: &Vec<ComponentAttribute>) -> (r: Vec<
    (String, Component),
>)
    ensures
        env_target_views(r@) == targets_for_env(health_entries(*state), attr_views(env_attrs@), 0),
{
    let ghost hs = health_entries(*state);
    let mut r: Vec<(String, Component)> = Vec::new();
    let mut h: usize = 0;
    proof {
        assert(env_target_views(r@) =~= Seq::<(Seq<char>, ComponentView)>::empty());
        assert(Seq::<(Seq<char>, ComponentView)>::empty() + targets_for_env(hs, attr_views(env_attrs@), 0)
            =~= targets_for_env(hs, attr_views(env_attrs@), 0));
    }
    while h < state.health_metrics.len()
        invariant
            h <= hs.len(),
            hs == health_entries(*state),
            hs.len() == state.health_metrics.view_seq().len(),
            targets_for_env(hs, attr_views(env_attrs@), 0) == env_target_views(r@) + targets_for_env(
                hs,
                attr_views(env_attrs@),
                h as int,
            ),
        decreases hs.len() - h,
    {
        let key = state.health_metrics.key_at(h);
        let def = state.health_metrics.val_at(h);
        assert((key@, def@) == hs[h as int]);
        let ghost emitted = env_target_views(r@);
        match &def.component_name {
            Some(name) => {
                let mut attrs: Vec<ComponentAttribute> = Vec::new();
                let mut k: usize = 0;
                while k < env_attrs.len()
                    invariant
                        k <= env_attrs@.len(),
                        attrs@.len() == k,
                        forall|j: int|
                            0 <= j < k ==> (#[trigger] attrs@[j])@ == env_attrs@[j]@,
                    decreases env_attrs@.len() - k,
                {
                    attrs.push(
                        ComponentAttribute {
                            name: env_attrs[k].name.clone(),
                            value: env_attrs[k].value.clone(),
                        },
                    );
                    k = k + 1;
                }
                assert(attr_views(attrs@) =~= attr_views(env_attrs@));
                let c = Component { name: name.clone(), attributes: attrs };
                assert(c@ =~= (ComponentView {
                    name: hs[h as int].1.component_name->0,
                    attributes: attr_views(env_attrs@),
                }));
                r.push((key.clone(), c));
                proof {
                    let piece = seq![
                        (
                            hs[h as int].0,
                            ComponentView {
                                name: hs[h as int].1.component_name->0,
                                attributes: attr_views(env_attrs@),
                            },
                        ),
                    ];
                    assert(env_target_views(r@) =~= emitted + piece);
                    assert(targets_for_env(hs, attr_views(env_attrs@), h as int) == piece + targets_for_env(
                        hs,
                        attr_views(env_attrs@),
                        h as int + 1,
                    ));
                    assert(emitted + (piece + targets_for_env(hs, attr_views(env_attrs@), h as int + 1)) =~= (
                    emitted + piece) + targets_for_env(hs, attr_views(env_attrs@), h as int + 1));
                }
            },
            None => {
                proof {
                    assert(targets_for_env(hs, attr_views(env_attrs@), h as int) == Seq::<
                        (Seq<char>, ComponentView),
                    >::empty() + targets_for_env(hs, attr_views(env_attrs@), h as int + 1));
                    assert(Seq::<(Seq<char>, ComponentView)>::empty() + targets_for_env(
                        hs,
                        attr_views(env_attrs@),
                        h as int + 1,
                    ) =~= targets_for_env(hs, attr_views(env_attrs@), h as int + 1));
                }
            },
        }
        h = h + 1;
    }
    proof {
        assert(targets_for_env(hs, attr_views(env_attrs@), h as int) =~= Seq::<
            (Seq<char>, ComponentView),
        >::empty());
        assert(env_target_views(r@) + Seq::<(Seq<char>, ComponentView)>::empty()
            =~= env_target_views(r@));
    }
    r
}

} // verus!
