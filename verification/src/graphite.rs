//! Graphite query planning: target aliasing, render query parameters, the
//! typed form of a render response, and the metrics-find tree.

use crate::text;
use vstd::prelude::*;

verus! {

/// One series of a render response: the target name and its datapoints as
/// `(value, timestamp)` pairs. A value is `None` where the backend returned
/// `null`; otherwise it is the sample under the caller's order-preserving
/// `u32` encoding.
pub struct GraphiteData {
    /// Target name
    pub target: String,
    /// The `(value, timestamp)` pairs
    pub datapoints: Vec<(Option<u32>, u32)>,
}

/// Mathematical model of a [`GraphiteData`].
#[verifier::ext_equal]
pub struct GraphiteDataView {
    pub target: Seq<char>,
    pub datapoints: Seq<(Option<u32>, u32)>,
}

impl View for GraphiteData {
    type V = GraphiteDataView;

    open spec fn view(&self) -> GraphiteDataView {
        GraphiteDataView { target: self.target@, datapoints: self.datapoints@ }
    }
}

/// The views of a render response.
pub open spec fn data_views(v: Seq<GraphiteData>) -> Seq<GraphiteDataView> {
    v.map_values(|d: GraphiteData| d@)
}

/// The aliased form of a query.
pub open spec fn alias_spec(query: Seq<char>, alias: Seq<char>) -> Seq<char> {
    "alias("@ + query + ",'"@ + alias + "')"@
}

/// Wrap `query` so the backend returns it under `alias`:
/// `alias(<query>,'<alias>')`.
pub fn alias_graphite_query(query: &str, alias: &str) -> (r: String)
    ensures
        r@ == alias_spec(query@, alias@),
{
    let mut r = "alias(".to_owned();
    r.append(query);
    r.append(",'");
    r.append(alias);
    r.append("')");
    r
}

/// A metrics-find query.
pub struct MetricsQuery {
    pub query: String,
    pub from: Option<String>,
    pub until: Option<String>,
}

/// One entry of a metrics-find answer: a tree node that either expands
/// further or is a leaf series.
pub struct Metric {
    pub allow_children: u8,
    pub expandable: u8,
    pub leaf: u8,
    pub id: String,
    pub text: String,
}

/// Mathematical model of a [`Metric`].
#[verifier::ext_equal]
pub struct MetricView {
    pub allow_children: u8,
    pub expandable: u8,
    pub leaf: u8,
    pub id: Seq<char>,
    pub text: Seq<char>,
}

impl View for Metric {
    type V = MetricView;

    open spec fn view(&self) -> MetricView {
        MetricView {
            allow_children: self.allow_children,
            expandable: self.expandable,
            leaf: self.leaf,
            id: self.id@,
            text: self.text@,
        }
    }
}

/// A render request, as the HTTP layer hands it over.
pub struct RenderRequest {
    pub target: Option<String>,
    pub from: Option<String>,
    pub until: Option<String>,
    pub max_data_points: Option<u16>,
}

/// What chrono renders for the backend's absolute-time parameter: the
/// `HH:MM_YYYYMMDD` form of an RFC 3339 time, or nothing where the text
/// does not parse as one. A function of the text alone.
pub uninterp spec fn render_time_of(s: Seq<char>) -> Option<Seq<char>>;

/// Relies on chrono's `DateTime::parse_from_rfc3339` and
/// `format("%H:%M_%Y%m%d")`: parses an RFC 3339 time and renders it in the
/// backend's absolute-time form; a text that does not parse yields nothing.
#[verifier::external_body]
fn format_render_time(s: &str) -> (r: Option<String>)
    ensures
        (r is Some) == (render_time_of(s@) is Some),
        r matches Some(t) ==> Some(t@) == render_time_of(s@),
{
    match chrono::DateTime::parse_from_rfc3339(s) {
        Ok(dt) => Some(dt.format("%H:%M_%Y%m%d").to_string()),
        Err(_) => None,
    }
}

/// The views of a string-pair list.
pub open spec fn qpair_views(s: Seq<(String, String)>) -> Seq<(Seq<char>, Seq<char>)> {
    s.map_values(|p: (String, String)| (p.0@, p.1@))
}

/// The time parameter a raw bound yields: its `HH:MM_YYYYMMDD` rendering
/// where it parses as RFC 3339, else the raw text verbatim.
pub open spec fn time_param_spec(raw: Seq<char>) -> Seq<char> {
    match render_time_of(raw) {
        Some(t) => t,
        None => raw,
    }
}

/// The aliased target parameters, from target `i` on.
pub open spec fn target_params_from(
    targets: Seq<(Seq<char>, Seq<char>)>,
    i: int,
) -> Seq<(Seq<char>, Seq<char>)>
    decreases targets.len() - i,
{
    if i < 0 || i >= targets.len() {
        Seq::empty()
    } else {
        seq![("target"@, alias_spec(targets[i].1, targets[i].0))] + target_params_from(
            targets,
            i + 1,
        )
    }
}

/// The full render query: `format=json`, the point budget, the two time
/// bounds where given, and one aliased target per planned pair.
pub open spec fn render_params_spec(
    targets: Seq<(Seq<char>, Seq<char>)>,
    from: Option<Seq<char>>,
    until: Option<Seq<char>>,
    max_data_points: u16,
) -> Seq<(Seq<char>, Seq<char>)> {
    seq![("format"@, "json"@), ("maxDataPoints"@, text::dec_spec(max_data_points as nat))]
        + (match from {
        None => Seq::empty(),
        Some(f) => seq![("from"@, time_param_spec(f))],
    }) + (match until {
        None => Seq::empty(),
        Some(u) => seq![("until"@, time_param_spec(u))],
    }) + target_params_from(targets, 0)
}

/// Build the query parameters of one render call against the backend:
/// `format=json`, `maxDataPoints`, `from` and `until` (absolute times
/// rendered `HH:MM_YYYYMMDD`, other bounds passed verbatim), and one
/// `target=alias(<query>,'<alias>')` per planned pair.
pub fn build_render_query(
    targets: &Vec<(String, String)>,
    from: Option<&String>,
    until: Option<&String>,
    max_data_points: u16,
) -> (r: Vec<(String, String)>)
    ensures
        qpair_views(r@) == render_params_spec(
            qpair_views(targets@),
            match from {
                Some(f) => Some(f@),
                None => None,
            },
            match until {
                Some(u) => Some(u@),
                None => None,
            },
            max_data_points,
        ),
{
    let ghost tv = qpair_views(targets@);
    let ghost fromv: Option<Seq<char>> = match from {
        Some(f) => Some(f@),
        None => None,
    };
    let ghost untilv: Option<Seq<char>> = match until {
        Some(u) => Some(u@),
        None => None,
    };
    let mut r: Vec<(String, String)> = Vec::new();
    r.push(("format".to_owned(), "json".to_owned()));
    r.push(("maxDataPoints".to_owned(), text::u64_to_dec(max_data_points as u64)));
    match from {
        Some(f) => {
            let t = match format_render_time(f.as_str()) {
                Some(t) => t,
                None => f.clone(),
            };
            assert(t@ == time_param_spec(f@));
            r.push(("from".to_owned(), t));
        },
        None => {},
    }
    match until {
        Some(u) => {
            let t = match format_render_time(u.as_str()) {
                Some(t) => t,
                None => u.clone(),
            };
            assert(t@ == time_param_spec(u@));
            r.push(("until".to_owned(), t));
        },
        None => {},
    }
    proof {
        assert(qpair_views(r@) + target_params_from(tv, 0) =~= render_params_spec(
            tv,
            fromv,
            untilv,
            max_data_points,
        ));
    }
    let mut i: usize = 0;
    while i < targets.len()
        invariant
            i <= tv.len(),
            tv == qpair_views(targets@),
            tv.len() == targets@.len(),
            render_params_spec(tv, fromv, untilv, max_data_points) == qpair_views(r@)
                + target_params_from(tv, i as int),
        decreases tv.len() - i,
    {
        let ghost emitted = qpair_views(r@);
        let aliased = alias_graphite_query(targets[i].1.as_str(), targets[i].0.as_str());
        r.push(("target".to_owned(), aliased));
        i = i + 1;
        proof {
            let piece = seq![("target"@, alias_spec(tv[i - 1].1, tv[i - 1].0))];
            assert(qpair_views(r@) =~= emitted + piece);
            assert(target_params_from(tv, i - 1) == piece + target_params_from(tv, i as int));
            assert(emitted + (piece + target_params_from(tv, i as int)) =~= (emitted + piece)
                + target_params_from(tv, i as int));
        }
    }
    proof {
        assert(target_params_from(tv, i as int) =~= Seq::<(Seq<char>, Seq<char>)>::empty());
        assert(qpair_views(r@) + Seq::<(Seq<char>, Seq<char>)>::empty() =~= qpair_views(r@));
    }
    r
}

/// The `(alias, query)` targets a flag render request plans, from key `i`
/// on: the registered metrics the pattern names — those whose identifier
/// begins with the pattern's stem for a trailing `*`, exactly the named
/// one otherwise — each with its compiled query for the environment;
/// metrics without a binding for the environment are left out.
pub open spec fn render_flag_targets_from(
    state: crate::types::AppState,
    pattern: Seq<char>,
    env: Seq<char>,
    i: int,
) -> Seq<(Seq<char>, Seq<char>)>
    decreases state.flag_metrics.keys().len() - i,
{
    let keys = state.flag_metrics.keys();
    if i < 0 || i >= keys.len() {
        Seq::empty()
    } else {
        let selected = if pattern.len() > 0 && pattern.last() == '*' {
            is_prefix(pattern.drop_last(), keys[i])
        } else {
            keys[i] == pattern
        };
        let bound = crate::types::view_opt(state.flag_metrics.vals()[i].spec_get(env));
        (if selected && bound is Some {
            seq![(keys[i], bound->0.query)]
        } else {
            Seq::empty()
        }) + render_flag_targets_from(state, pattern, env, i + 1)
    }
}

/// Plan the backend targets of a flag render request: the registered
/// metrics the pattern names (a trailing `*` selects by identifier stem),
/// each aliased to its identifier with its query for the environment.
pub fn plan_render_flag_targets(
    state: &crate::types::AppState,
    environment: &str,
    metric_name: &str,
) -> (r: Vec<(String, String)>)
    ensures
        qpair_views(r@) == render_flag_targets_from(*state, metric_name@, environment@, 0),
{
    let ghost keys = state.flag_metrics.keys();
    let pattern = text::chars_of(metric_name);
    let wildcard = pattern.len() > 0 && pattern[pattern.len() - 1] == '*';
    let stem: String = if wildcard {
        let mut stem_chars = pattern.clone();
        stem_chars.pop();
        assert(stem_chars@ =~= metric_name@.drop_last());
        text::string_of(&stem_chars)
    } else {
        String::new()
    };
    let mut r: Vec<(String, String)> = Vec::new();
    let mut i: usize = 0;
    proof {
        assert(qpair_views(r@) =~= Seq::<(Seq<char>, Seq<char>)>::empty());
        assert(Seq::<(Seq<char>, Seq<char>)>::empty() + render_flag_targets_from(
            *state,
            metric_name@,
            environment@,
            0,
        ) =~= render_flag_targets_from(*state, metric_name@, environment@, 0));
    }
    while i < state.flag_metrics.len()
        invariant
            i <= keys.len(),
            keys == state.flag_metrics.keys(),
            keys.len() == state.flag_metrics.view_seq().len(),
            pattern@ == metric_name@,
            wildcard == (metric_name@.len() > 0 && metric_name@.last() == '*'),
            wildcard ==> stem@ == metric_name@.drop_last(),
            render_flag_targets_from(*state, metric_name@, environment@, 0) == qpair_views(r@)
                + render_flag_targets_from(*state, metric_name@, environment@, i as int),
        decreases keys.len() - i,
    {
        let key = state.flag_metrics.key_at(i);
        assert(key@ == keys[i as int]);
        let ghost emitted = qpair_views(r@);
        let selected = if wildcard {
            text::begins_with(key.as_str(), stem.as_str())
        } else {
            text::str_eq(key.as_str(), metric_name)
        };
        let inner = state.flag_metrics.val_at(i);
        assert(*inner == state.flag_metrics.vals()[i as int]);
        let ghost bound = crate::types::view_opt(
            state.flag_metrics.vals()[i as int].spec_get(environment@),
        );
        let mut pushed = false;
        if selected {
            match inner.get(environment) {
                Some(fm) => {
                    assert(bound == Some(fm@));
                    r.push((key.clone(), fm.query.clone()));
                    pushed = true;
                },
                None => {
                    assert(bound is None);
                },
            }
        }
        proof {
            let piece: Seq<(Seq<char>, Seq<char>)> = if pushed {
                seq![(keys[i as int], bound->0.query)]
            } else {
                Seq::empty()
            };
            assert(qpair_views(r@) =~= emitted + piece);
            assert(render_flag_targets_from(*state, metric_name@, environment@, i as int) == piece
                + render_flag_targets_from(*state, metric_name@, environment@, i as int + 1));
            assert(emitted + (piece + render_flag_targets_from(
                *state,
                metric_name@,
                environment@,
                i as int + 1,
            )) =~= (emitted + piece) + render_flag_targets_from(
                *state,
                metric_name@,
                environment@,
                i as int + 1,
            ));
        }
        i = i + 1;
    }
    proof {
        assert(render_flag_targets_from(*state, metric_name@, environment@, i as int) =~= Seq::<
            (Seq<char>, Seq<char>),
        >::empty());
        assert(qpair_views(r@) + Seq::<(Seq<char>, Seq<char>)>::empty() =~= qpair_views(r@));
    }
    r
}

/// A tree node that expands further.
pub open spec fn branch_view(id: Seq<char>) -> MetricView {
    MetricView { allow_children: 1, expandable: 1, leaf: 0, id: id, text: id }
}

/// A leaf series node.
pub open spec fn leaf_view(id: Seq<char>) -> MetricView {
    MetricView { allow_children: 0, expandable: 0, leaf: 1, id: id, text: id }
}

/// The views of a metric list.
pub open spec fn metric_views(s: Seq<Metric>) -> Seq<MetricView> {
    s.map_values(|m: Metric| m@)
}

/// Whether `p` begins `s`.
pub open spec fn is_prefix(p: Seq<char>, s: Seq<char>) -> bool {
    p.len() <= s.len() && s.subrange(0, p.len() as int) == p
}

/// One branch node per name, from `i` on.
pub open spec fn branches_from(names: Seq<Seq<char>>, i: int) -> Seq<MetricView>
    decreases names.len() - i,
{
    if i < 0 || i >= names.len() {
        Seq::empty()
    } else {
        seq![branch_view(names[i])] + branches_from(names, i + 1)
    }
}

/// One leaf node per key beginning with `p`, from `i` on.
pub open spec fn leaves_prefix_from(keys: Seq<Seq<char>>, p: Seq<char>, i: int) -> Seq<MetricView>
    decreases keys.len() - i,
{
    if i < 0 || i >= keys.len() {
        Seq::empty()
    } else {
        (if is_prefix(p, keys[i]) {
            seq![leaf_view(keys[i])]
        } else {
            Seq::empty()
        }) + leaves_prefix_from(keys, p, i + 1)
    }
}

/// One leaf node per key equal to `q`, from `i` on.
pub open spec fn leaves_equal_from(keys: Seq<Seq<char>>, q: Seq<char>, i: int) -> Seq<MetricView>
    decreases keys.len() - i,
{
    if i < 0 || i >= keys.len() {
        Seq::empty()
    } else {
        (if keys[i] == q {
            seq![leaf_view(keys[i])]
        } else {
            Seq::empty()
        }) + leaves_equal_from(keys, q, i + 1)
    }
}

/// One leaf node per key, from `i` on.
pub open spec fn leaves_from(keys: Seq<Seq<char>>, i: int) -> Seq<MetricView>
    decreases keys.len() - i,
{
    if i < 0 || i >= keys.len() {
        Seq::empty()
    } else {
        seq![leaf_view(keys[i])] + leaves_from(keys, i + 1)
    }
}

/// The environment names of the compiled state.
pub open spec fn env_names(state: crate::types::AppState) -> Seq<Seq<char>> {
    state.environments@.map_values(|d: crate::types::EnvironmentDef| d.name@)
}

/// The tree entries a metrics-find query yields: the `flag` and `health`
/// roots for `*`; the environments one level down; the services under
/// `flag.<env>`; the flag metric identifiers under `flag.<env>.<service>`,
/// by prefix for a trailing `*` and exactly otherwise; and the health
/// services under `health.<env>.*`.
pub open spec fn find_metrics_spec(state: crate::types::AppState, query: Seq<char>) -> Seq<
    MetricView,
> {
    let parts = text::split_dots_spec(query);
    if parts.len() == 1 && parts[0] == "*"@ {
        seq![branch_view("flag"@), branch_view("health"@)]
    } else if parts.len() == 2 && parts[1] == "*"@ {
        branches_from(env_names(state), 0)
    } else if parts[0] == "flag"@ {
        if parts.len() == 3 {
            branches_from(crate::types::str_views(state.services@), 0)
        } else if parts.len() == 4 {
            if parts[3] == "*"@ {
                leaves_prefix_from(state.flag_metrics.keys(), parts[2], 0)
            } else {
                leaves_equal_from(state.flag_metrics.keys(), parts[2] + "."@ + parts[3], 0)
            }
        } else {
            Seq::empty()
        }
    } else if parts.len() == 3 && parts[0] == "health"@ {
        leaves_from(state.health_metrics.keys(), 0)
    } else {
        Seq::empty()
    }
}

/// Answer a metrics-find query over the compiled state, as
/// [`find_metrics_spec`] describes it.
pub fn find_metrics(find_request: &MetricsQuery, state: &crate::types::AppState) -> (r: Vec<
    Metric,
>)
    ensures
        metric_views(r@) == find_metrics_spec(*state, find_request.query@),
{
    let ghost goal = find_metrics_spec(*state, find_request.query@);
    let parts = text::split_dots(find_request.query.as_str());
    let ghost pv = parts@.map_values(|p: String| p@);
    assert(pv == text::split_dots_spec(find_request.query@));
    let mut out: Vec<Metric> = Vec::new();
    if parts.len() == 1 && text::str_eq(parts[0].as_str(), "*") {
        out.push(branch_metric("flag".to_owned()));
        out.push(branch_metric("health".to_owned()));
        assert(metric_views(out@) =~= goal);
    } else if parts.len() == 2 && text::str_eq(parts[1].as_str(), "*") {
        let ghost names = env_names(*state);
        let mut i: usize = 0;
        proof {
            assert(metric_views(out@) =~= Seq::<MetricView>::empty());
            assert(Seq::<MetricView>::empty() + branches_from(names, 0) =~= branches_from(
                names,
                0,
            ));
        }
        while i < state.environments.len()
            invariant
                i <= names.len(),
                names == env_names(*state),
                names.len() == state.environments@.len(),
                branches_from(names, 0) == metric_views(out@) + branches_from(names, i as int),
            decreases names.len() - i,
        {
            let ghost emitted = metric_views(out@);
            out.push(branch_metric(state.environments[i].name.clone()));
            i = i + 1;
            proof {
                lemma_piece_shift(emitted, seq![branch_view(names[i - 1])], branches_from(
                    names,
                    i as int,
                ));
                assert(metric_views(out@) =~= emitted + seq![branch_view(names[i - 1])]);
                assert(branches_from(names, i - 1) == seq![branch_view(names[i - 1])]
                    + branches_from(names, i as int));
            }
        }
        proof {
            assert(branches_from(names, i as int) =~= Seq::<MetricView>::empty());
            assert(metric_views(out@) + Seq::<MetricView>::empty() =~= metric_views(out@));
        }
    } else if text::str_eq(parts[0].as_str(), "flag") {
        if parts.len() == 3 {
            let ghost names = crate::types::str_views(state.services@);
            let mut i: usize = 0;
            proof {
                assert(metric_views(out@) =~= Seq::<MetricView>::empty());
                assert(Seq::<MetricView>::empty() + branches_from(names, 0) =~= branches_from(
                    names,
                    0,
                ));
            }
            while i < state.services.len()
                invariant
                    i <= names.len(),
                    names == crate::types::str_views(state.services@),
                    names.len() == state.services@.len(),
                    branches_from(names, 0) == metric_views(out@) + branches_from(
                        names,
                        i as int,
                    ),
                decreases names.len() - i,
            {
                let ghost emitted = metric_views(out@);
                out.push(branch_metric(state.services[i].clone()));
                i = i + 1;
                proof {
                    lemma_piece_shift(emitted, seq![branch_view(names[i - 1])], branches_from(
                        names,
                        i as int,
                    ));
                    assert(metric_views(out@) =~= emitted + seq![branch_view(names[i - 1])]);
                }
            }
            proof {
                assert(branches_from(names, i as int) =~= Seq::<MetricView>::empty());
                assert(metric_views(out@) + Seq::<MetricView>::empty() =~= metric_views(out@));
            }
        } else if parts.len() == 4 {
            let ghost keys = state.flag_metrics.keys();
            if text::str_eq(parts[3].as_str(), "*") {
                let mut i: usize = 0;
                proof {
                    assert(metric_views(out@) =~= Seq::<MetricView>::empty());
                    assert(Seq::<MetricView>::empty() + leaves_prefix_from(keys, pv[2], 0)
                        =~= leaves_prefix_from(keys, pv[2], 0));
                }
                while i < state.flag_metrics.len()
                    invariant
                        i <= keys.len(),
                        keys == state.flag_metrics.keys(),
                        keys.len() == state.flag_metrics.view_seq().len(),
                        2 < pv.len(),
                        pv[2] == parts@[2]@,
                        parts@.len() == pv.len(),
                        leaves_prefix_from(keys, pv[2], 0) == metric_views(out@)
                            + leaves_prefix_from(keys, pv[2], i as int),
                    decreases keys.len() - i,
                {
                    let key = state.flag_metrics.key_at(i);
                    assert(key@ == keys[i as int]);
                    let ghost emitted = metric_views(out@);
                    if text::begins_with(key.as_str(), parts[2].as_str()) {
                        out.push(leaf_metric(key.clone()));
                        proof {
                            assert(is_prefix(pv[2], keys[i as int]));
                            lemma_piece_shift(
                                emitted,
                                seq![leaf_view(keys[i as int])],
                                leaves_prefix_from(keys, pv[2], i as int + 1),
                            );
                            assert(metric_views(out@) =~= emitted + seq![
                                leaf_view(keys[i as int]),
                            ]);
                        }
                    } else {
                        proof {
                            assert(!is_prefix(pv[2], keys[i as int]));
                            assert(Seq::<MetricView>::empty() + leaves_prefix_from(
                                keys,
                                pv[2],
                                i as int + 1,
                            ) =~= leaves_prefix_from(keys, pv[2], i as int + 1));
                        }
                    }
                    i = i + 1;
                }
                proof {
                    assert(leaves_prefix_from(keys, pv[2], i as int) =~= Seq::<
                        MetricView,
                    >::empty());
                    assert(metric_views(out@) + Seq::<MetricView>::empty() =~= metric_views(
                        out@,
                    ));
                }
            } else {
                let search = text::concat3(parts[2].as_str(), ".", parts[3].as_str());
                assert(search@ == pv[2] + "."@ + pv[3]);
                let mut i: usize = 0;
                proof {
                    assert(metric_views(out@) =~= Seq::<MetricView>::empty());
                    assert(Seq::<MetricView>::empty() + leaves_equal_from(keys, search@, 0)
                        =~= leaves_equal_from(keys, search@, 0));
                }
                while i < state.flag_metrics.len()
                    invariant
                        i <= keys.len(),
                        keys == state.flag_metrics.keys(),
                        keys.len() == state.flag_metrics.view_seq().len(),
                        search@ == pv[2] + "."@ + pv[3],
                        2 < pv.len(),
                        leaves_equal_from(keys, search@, 0) == metric_views(out@)
                            + leaves_equal_from(keys, search@, i as int),
                    decreases keys.len() - i,
                {
                    let key = state.flag_metrics.key_at(i);
                    assert(key@ == keys[i as int]);
                    let ghost emitted = metric_views(out@);
                    if text::str_eq(key.as_str(), search.as_str()) {
                        out.push(leaf_metric(key.clone()));
                        proof {
                            lemma_piece_shift(
                                emitted,
                                seq![leaf_view(keys[i as int])],
                                leaves_equal_from(keys, search@, i as int + 1),
                            );
                            assert(metric_views(out@) =~= emitted + seq![
                                leaf_view(keys[i as int]),
                            ]);
                        }
                    } else {
                        proof {
                            assert(Seq::<MetricView>::empty() + leaves_equal_from(
                                keys,
                                search@,
                                i as int + 1,
                            ) =~= leaves_equal_from(keys, search@, i as int + 1));
                        }
                    }
                    i = i + 1;
                }
                proof {
                    assert(leaves_equal_from(keys, search@, i as int) =~= Seq::<
                        MetricView,
                    >::empty());
                    assert(metric_views(out@) + Seq::<MetricView>::empty() =~= metric_views(
                        out@,
                    ));
                }
            }
        }
    } else if parts.len() == 3 && text::str_eq(parts[0].as_str(), "health") {
        let ghost keys = state.health_metrics.keys();
        let mut i: usize = 0;
        proof {
            assert(metric_views(out@) =~= Seq::<MetricView>::empty());
            assert(Seq::<MetricView>::empty() + leaves_from(keys, 0) =~= leaves_from(keys, 0));
        }
        while i < state.health_metrics.len()
            invariant
                i <= keys.len(),
                keys == state.health_metrics.keys(),
                keys.len() == state.health_metrics.view_seq().len(),
                leaves_from(keys, 0) == metric_views(out@) + leaves_from(keys, i as int),
            decreases keys.len() - i,
        {
            let key = state.health_metrics.key_at(i);
            assert(key@ == keys[i as int]);
            let ghost emitted = metric_views(out@);
            out.push(leaf_metric(key.clone()));
            i = i + 1;
            proof {
                lemma_piece_shift(emitted, seq![leaf_view(keys[i - 1])], leaves_from(
                    keys,
                    i as int,
                ));
                assert(metric_views(out@) =~= emitted + seq![leaf_view(keys[i - 1])]);
            }
        }
        proof {
            assert(leaves_from(keys, i as int) =~= Seq::<MetricView>::empty());
            assert(metric_views(out@) + Seq::<MetricView>::empty() =~= metric_views(out@));
        }
    } else {
        assert(metric_views(out@) =~= Seq::<MetricView>::empty());
    }
    assert(metric_views(out@) == goal);
    out
}

/// Concatenation is associative, piece by piece.
proof fn lemma_piece_shift(a: Seq<MetricView>, b: Seq<MetricView>, c: Seq<MetricView>)
    ensures
        a + (b + c) =~= (a + b) + c,
{
}

/// A branch node for `id`.
fn branch_metric(id: String) -> (r: Metric)
    ensures
        r@ == branch_view(id@),
{
    let text = id.clone();
    let r = Metric { allow_children: 1, expandable: 1, leaf: 0, id, text };
    assert(r@ =~= branch_view(r.id@));
    r
}

/// A leaf node for `id`.
fn leaf_metric(id: String) -> (r: Metric)
    ensures
        r@ == leaf_view(id@),
{
    let text = id.clone();
    let r = Metric { allow_children: 0, expandable: 0, leaf: 1, id, text };
    assert(r@ =~= leaf_view(r.id@));
    r
}

} // verus!
