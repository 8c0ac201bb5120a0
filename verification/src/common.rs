//! The flag engine and the health evaluator: per-sample threshold flags,
//! per-timestamp flag rows, weighted boolean expression evaluation, and the
//! health point stream.

use crate::graphite::{data_views, GraphiteData, GraphiteDataView};
use crate::text;
use crate::types::{
    str_views, tbl_get, AppState, CloudMonError, CmpType, FlagMetric, MetricExpressionDefView,
    ServiceHealthDefView, ServiceHealthPoint, ServiceHealthPointView,
};
use evalexpr::ContextWithMutableVariables;
use vstd::prelude::*;

verus! {

/// The flag a sample raises against a threshold: false for a missing
/// sample, else the strict comparison the comparator names.
pub open spec fn flag_state_spec(value: Option<u32>, op: CmpType, threshold: u32) -> bool {
    match value {
        None => false,
        Some(v) => match op {
            CmpType::Lt => v < threshold,
            CmpType::Gt => v > threshold,
            CmpType::Eq => v == threshold,
        },
    }
}

/// The flag value of a sample under a compiled flag metric.
pub fn get_metric_flag_state(value: &Option<u32>, metric: &FlagMetric) -> (r: bool)
    ensures
        r == flag_state_spec(*value, metric.op, metric.threshold),
{
    match *value {
        Some(x) => match metric.op {
            CmpType::Lt => x < metric.threshold,
            CmpType::Gt => x > metric.threshold,
            CmpType::Eq => x == metric.threshold,
        },
        None => false,
    }
}

/// A missing sample never raises a flag, whatever the comparator and
/// threshold.
pub proof fn lemma_flag_none_is_false(op: CmpType, threshold: u32)
    ensures
        !flag_state_spec(None, op, threshold),
{
}

/// At the threshold itself the strict comparisons are false and equality
/// holds.
pub proof fn lemma_flag_at_threshold(threshold: u32)
    ensures
        !flag_state_spec(Some(threshold), CmpType::Lt, threshold),
        !flag_state_spec(Some(threshold), CmpType::Gt, threshold),
        flag_state_spec(Some(threshold), CmpType::Eq, threshold),
{
}

/// Away from the threshold, each comparator agrees with the order of the
/// encoded samples.
pub proof fn lemma_flag_matches_comparison(value: u32, threshold: u32)
    ensures
        flag_state_spec(Some(value), CmpType::Lt, threshold) == (value < threshold),
        flag_state_spec(Some(value), CmpType::Gt, threshold) == (value > threshold),
        flag_state_spec(Some(value), CmpType::Eq, threshold) == (value == threshold),
{
}

/// What the expression evaluator returns for an expression text over a set
/// of boolean variables: `Some` of the boolean result, or `None` for any
/// evaluation error. A function of the text and the bindings alone.
pub uninterp spec fn eval_bool_of(expr: Seq<char>, bindings: Map<Seq<char>, bool>) -> Option<bool>;

/// The views of a binding list.
pub open spec fn binding_views(pairs: Seq<(String, bool)>) -> Seq<(Seq<char>, bool)> {
    pairs.map_values(|p: (String, bool)| (p.0@, p.1))
}

/// The map a binding list builds, later entries overwriting earlier ones of
/// the same name.
pub open spec fn binding_map(pairs: Seq<(Seq<char>, bool)>) -> Map<Seq<char>, bool>
    decreases pairs.len(),
{
    if pairs.len() == 0 {
        Map::empty()
    } else {
        binding_map(pairs.drop_last()).insert(pairs.last().0, pairs.last().1)
    }
}

/// Relies on evalexpr's `eval_boolean_with_context`: parses `expr` in the
/// evalexpr language and evaluates it against a context holding exactly the
/// given boolean variables. `None` stands for any failure: a syntax error,
/// an unknown identifier, or a non-boolean result. With no `rand` feature
/// the result is a function of the expression text and the bindings alone.
#[verifier::external_body]
fn eval_bool(expr: &str, bindings: &Vec<(String, bool)>) -> (r: Option<bool>)
    ensures
        r == eval_bool_of(expr@, binding_map(binding_views(bindings@))),
{
    let mut context = evalexpr::HashMapContext::new();
    for (name, value) in bindings.iter() {
        if context.set_value(name.clone(), evalexpr::Value::Boolean(*value)).is_err() {
            return None;
        }
    }
    match evalexpr::eval_boolean_with_context(expr, &context) {
        Ok(b) => Some(b),
        Err(_) => None,
    }
}

/// The flags recorded at one timestamp, as `(metric identifier, flag)`
/// pairs in the order the series were first seen.
pub struct TsFlags {
    pub ts: u32,
    pub flags: Vec<(String, bool)>,
}

/// Mathematical model of a [`TsFlags`].
#[verifier::ext_equal]
pub struct TsFlagsView {
    pub ts: u32,
    pub flags: Seq<(Seq<char>, bool)>,
}

/// The views of a flag list.
pub open spec fn flag_views(s: Seq<(String, bool)>) -> Seq<(Seq<char>, bool)> {
    s.map_values(|p: (String, bool)| (p.0@, p.1))
}

impl View for TsFlags {
    type V = TsFlagsView;

    open spec fn view(&self) -> TsFlagsView {
        TsFlagsView { ts: self.ts, flags: flag_views(self.flags@) }
    }
}

/// The views of a row list.
pub open spec fn rows_views(s: Seq<TsFlags>) -> Seq<TsFlagsView> {
    s.map_values(|r: TsFlags| r@)
}

/// `flags` with the first entry named `name` overwritten by `v`, or with
/// `(name, v)` appended when no entry holds the name.
pub open spec fn set_flag(
    flags: Seq<(Seq<char>, bool)>,
    name: Seq<char>,
    v: bool,
) -> Seq<(Seq<char>, bool)>
    decreases flags.len(),
{
    if flags.len() == 0 {
        seq![(name, v)]
    } else if flags[0].0 == name {
        seq![(name, v)] + flags.drop_first()
    } else {
        seq![flags[0]] + set_flag(flags.drop_first(), name, v)
    }
}

/// The rows, kept ascending by timestamp, with the flag `(name, v)`
/// recorded at `ts`.
pub open spec fn insert_flag(
    rows: Seq<TsFlagsView>,
    ts: u32,
    name: Seq<char>,
    v: bool,
) -> Seq<TsFlagsView>
    decreases rows.len(),
{
    if rows.len() == 0 {
        seq![TsFlagsView { ts, flags: seq![(name, v)] }]
    } else if ts < rows[0].ts {
        seq![TsFlagsView { ts, flags: seq![(name, v)] }] + rows
    } else if ts == rows[0].ts {
        seq![TsFlagsView { ts: rows[0].ts, flags: set_flag(rows[0].flags, name, v) }]
            + rows.drop_first()
    } else {
        seq![rows[0]] + insert_flag(rows.drop_first(), ts, name, v)
    }
}

/// Overwriting the first entry of a name rewrites exactly that position.
pub proof fn lemma_set_flag_at(flags: Seq<(Seq<char>, bool)>, name: Seq<char>, v: bool, k: int)
    requires
        0 <= k < flags.len(),
        forall|j: int| 0 <= j < k ==> flags[j].0 != name,
        flags[k].0 == name,
    ensures
        set_flag(flags, name, v) == flags.update(k, (name, v)),
    decreases k,
{
    if k == 0 {
        assert(set_flag(flags, name, v) == seq![(name, v)] + flags.drop_first());
        assert(seq![(name, v)] + flags.drop_first() =~= flags.update(0, (name, v)));
    } else {
        assert(flags.drop_first()[k - 1] == flags[k]);
        lemma_set_flag_at(flags.drop_first(), name, v, k - 1);
        assert(seq![flags[0]] + flags.drop_first().update(k - 1, (name, v)) =~= flags.update(
            k,
            (name, v),
        ));
    }
}

/// With no entry of the name, the pair is appended at the end.
pub proof fn lemma_set_flag_append(flags: Seq<(Seq<char>, bool)>, name: Seq<char>, v: bool)
    requires
        forall|j: int| 0 <= j < flags.len() ==> flags[j].0 != name,
    ensures
        set_flag(flags, name, v) == flags.push((name, v)),
    decreases flags.len(),
{
    if flags.len() == 0 {
        assert(seq![(name, v)] =~= flags.push((name, v)));
    } else {
        lemma_set_flag_append(flags.drop_first(), name, v);
        assert(seq![flags[0]] + flags.drop_first().push((name, v)) =~= flags.push((name, v)));
    }
}

/// Reading a name after setting it yields the new value; other names are
/// untouched.
pub proof fn lemma_set_flag_get(
    flags: Seq<(Seq<char>, bool)>,
    name: Seq<char>,
    v: bool,
    k: Seq<char>,
)
    ensures
        tbl_get(set_flag(flags, name, v), k) == if k == name {
            Some(v)
        } else {
            tbl_get(flags, k)
        },
    decreases flags.len(),
{
    if flags.len() == 0 {
        assert(set_flag(flags, name, v) == seq![(name, v)]);
        if k != name {
            assert(tbl_get(seq![(name, v)], k) == tbl_get(seq![(name, v)].drop_first(), k));
            assert(seq![(name, v)].drop_first() =~= Seq::<(Seq<char>, bool)>::empty());
        }
    } else if flags[0].0 == name {
        let s = seq![(name, v)] + flags.drop_first();
        assert(s[0] == (name, v));
        if k != name {
            assert(s.drop_first() =~= flags.drop_first());
            assert(tbl_get(s, k) == tbl_get(flags.drop_first(), k));
        }
    } else {
        lemma_set_flag_get(flags.drop_first(), name, v, k);
        let s = seq![flags[0]] + set_flag(flags.drop_first(), name, v);
        assert(s[0] == flags[0]);
        assert(s.drop_first() =~= set_flag(flags.drop_first(), name, v));
    }
}

/// The insertion position found by a forward scan pins `insert_flag` down.
pub proof fn lemma_insert_flag_at(
    rows: Seq<TsFlagsView>,
    ts: u32,
    name: Seq<char>,
    v: bool,
    idx: int,
)
    requires
        0 <= idx <= rows.len(),
        forall|j: int| 0 <= j < idx ==> rows[j].ts < ts,
        idx == rows.len() || rows[idx].ts >= ts,
    ensures
        insert_flag(rows, ts, name, v) == if idx < rows.len() && rows[idx].ts == ts {
            rows.update(idx, TsFlagsView { ts: rows[idx].ts, flags: set_flag(rows[idx].flags, name, v) })
        } else {
            rows.take(idx) + seq![TsFlagsView { ts, flags: seq![(name, v)] }] + rows.skip(idx)
        },
    decreases idx,
{
    if idx == 0 {
        if rows.len() == 0 {
            assert(seq![TsFlagsView { ts, flags: seq![(name, v)] }] =~= rows.take(0) + seq![
                TsFlagsView { ts, flags: seq![(name, v)] },
            ] + rows.skip(0));
        } else if ts < rows[0].ts {
            assert(seq![TsFlagsView { ts, flags: seq![(name, v)] }] + rows =~= rows.take(0)
                + seq![TsFlagsView { ts, flags: seq![(name, v)] }] + rows.skip(0));
        } else {
            assert(rows[0].ts == ts);
            assert(seq![TsFlagsView { ts: rows[0].ts, flags: set_flag(rows[0].flags, name, v) }]
                + rows.drop_first() =~= rows.update(
                0,
                TsFlagsView { ts: rows[0].ts, flags: set_flag(rows[0].flags, name, v) },
            ));
        }
    } else {
        assert(rows[0].ts < ts);
        if idx < rows.len() {
            assert(rows.drop_first()[idx - 1] == rows[idx]);
        }
        assert forall|j: int| 0 <= j < idx - 1 implies rows.drop_first()[j].ts < ts by {
            assert(rows.drop_first()[j] == rows[j + 1]);
        }
        lemma_insert_flag_at(rows.drop_first(), ts, name, v, idx - 1);
        if idx < rows.len() && rows[idx].ts == ts {
            let updated = TsFlagsView { ts: rows[idx].ts, flags: set_flag(rows[idx].flags, name, v) };
            assert(seq![rows[0]] + rows.drop_first().update(idx - 1, updated) =~= rows.update(
                idx,
                updated,
            ));
        } else {
            let fresh = TsFlagsView { ts, flags: seq![(name, v)] };
            assert(seq![rows[0]] + (rows.drop_first().take(idx - 1) + seq![fresh]
                + rows.drop_first().skip(idx - 1)) =~= rows.take(idx) + seq![fresh] + rows.skip(
                idx,
            ));
        }
    }
}

/// Record the flag `(name, v)` at `ts`, keeping the rows ascending.
fn rows_insert(rows: &mut Vec<TsFlags>, ts: u32, name: &String, v: bool)
    ensures
        rows_views(final(rows)@) == insert_flag(rows_views(old(rows)@), ts, name@, v),
{
    let ghost pre = rows_views(rows@);
    let mut idx: usize = 0;
    while idx < rows.len() && rows[idx].ts < ts
        invariant
            idx <= rows@.len(),
            pre == rows_views(rows@),
            forall|j: int| 0 <= j < idx ==> pre[j].ts < ts,
        decreases rows@.len() - idx,
    {
        assert(pre[idx as int].ts == rows@[idx as int].ts);
        idx = idx + 1;
    }
    proof {
        if idx < rows@.len() {
            assert(pre[idx as int].ts == rows@[idx as int].ts);
        }
        lemma_insert_flag_at(pre, ts, name@, v, idx as int);
    }
    if idx < rows.len() && rows[idx].ts == ts {
        let mut row = rows.remove(idx);
        let ghost row0 = row@;
        flags_set(&mut row.flags, name, v);
        assert(row@ == (TsFlagsView { ts: row0.ts, flags: set_flag(row0.flags, name@, v) }));
        rows.insert(idx, row);
        proof {
            assert(rows_views(rows@) =~= pre.update(
                idx as int,
                TsFlagsView { ts: pre[idx as int].ts, flags: set_flag(pre[idx as int].flags, name@, v) },
            ));
        }
    } else {
        let mut fl: Vec<(String, bool)> = Vec::new();
        fl.push((name.clone(), v));
        let row = TsFlags { ts, flags: fl };
        assert(row@ == (TsFlagsView { ts, flags: seq![(name@, v)] })) by {
            assert(flag_views(row.flags@) =~= seq![(name@, v)]);
        }
        rows.insert(idx, row);
        proof {
            assert(rows_views(rows@) =~= pre.take(idx as int) + seq![
                TsFlagsView { ts, flags: seq![(name@, v)] },
            ] + pre.skip(idx as int));
        }
    }
}

/// The rows after folding in the non-null points of one series, from point
/// `k` on: each sample's flag is recorded under the series target at the
/// sample's timestamp; null samples leave no record at all.
pub open spec fn series_rows_from(
    rows: Seq<TsFlagsView>,
    points: Seq<(Option<u32>, u32)>,
    target: Seq<char>,
    op: CmpType,
    threshold: u32,
    k: int,
) -> Seq<TsFlagsView>
    decreases points.len() - k,
{
    if k < 0 || k >= points.len() {
        rows
    } else {
        let rows1 = match points[k].0 {
            None => rows,
            Some(v) => insert_flag(
                rows,
                points[k].1,
                target,
                flag_state_spec(Some(v), op, threshold),
            ),
        };
        series_rows_from(rows1, points, target, op, threshold, k + 1)
    }
}

/// The rows after folding in all series from `i` on: a series whose target
/// has no compiled flag metric for the environment leaves no record.
pub open spec fn build_rows_from(
    state: AppState,
    env: Seq<char>,
    data: Seq<GraphiteDataView>,
    rows: Seq<TsFlagsView>,
    i: int,
) -> Seq<TsFlagsView>
    decreases data.len() - i,
{
    if i < 0 || i >= data.len() {
        rows
    } else {
        let rows1 = match state.flag_at(data[i].target, env) {
            None => rows,
            Some(fm) => series_rows_from(
                rows,
                data[i].datapoints,
                data[i].target,
                fm.op,
                fm.threshold,
                0,
            ),
        };
        build_rows_from(state, env, data, rows1, i + 1)
    }
}

/// The timestamp-ordered flag rows a render response builds.
pub open spec fn built_rows(state: AppState, env: Seq<char>, data: Seq<GraphiteDataView>) -> Seq<
    TsFlagsView,
> {
    build_rows_from(state, env, data, Seq::empty(), 0)
}

/// The flag recorded for `m`, or false where none is.
pub open spec fn flag_or_false(flags: Seq<(Seq<char>, bool)>, m: Seq<char>) -> bool {
    match tbl_get(flags, m) {
        Some(b) => b,
        None => false,
    }
}

/// The evaluation context of one timestamp: every metric of the definition
/// bound, under its underscore-rewritten name, to its recorded flag or to
/// false where the timestamp holds no record for it.
pub open spec fn context_of(metrics: Seq<Seq<char>>, flags: Seq<(Seq<char>, bool)>) -> Seq<
    (Seq<char>, bool),
> {
    metrics.map_values(
        |m: Seq<char>| (text::dash_to_underscore_spec(m), flag_or_false(flags, m)),
    )
}

/// The winning weight from expression `x` on, starting from `best`: an
/// expression whose weight does not beat the bar is skipped unevaluated; a
/// true one raises the bar to its weight; any evaluation error fails the
/// whole evaluation.
pub open spec fn weigh_from(
    exprs: Seq<MetricExpressionDefView>,
    ctx: Map<Seq<char>, bool>,
    best: u8,
    x: int,
) -> Option<u8>
    decreases exprs.len() - x,
{
    if x < 0 || x >= exprs.len() {
        Some(best)
    } else if exprs[x].weight <= best {
        weigh_from(exprs, ctx, best, x + 1)
    } else {
        match eval_bool_of(exprs[x].expression, ctx) {
            None => None,
            Some(true) => weigh_from(exprs, ctx, exprs[x].weight, x + 1),
            Some(false) => weigh_from(exprs, ctx, best, x + 1),
        }
    }
}

/// The metric identifiers whose recorded flag is true, from entry `k` on,
/// in record order.
pub open spec fn triggered_from(flags: Seq<(Seq<char>, bool)>, k: int) -> Seq<Seq<char>>
    decreases flags.len() - k,
{
    if k < 0 || k >= flags.len() {
        Seq::empty()
    } else {
        (if flags[k].1 {
            seq![flags[k].0]
        } else {
            Seq::empty()
        }) + triggered_from(flags, k + 1)
    }
}

/// The metric identifiers whose recorded flag is true, in record order.
pub open spec fn triggered_of(flags: Seq<(Seq<char>, bool)>) -> Seq<Seq<char>> {
    triggered_from(flags, 0)
}

/// The health points of the rows from row `i` on: one point per timestamp,
/// ascending, holding the winning weight and the triggered metrics; an
/// expression error fails the whole evaluation.
pub open spec fn eval_rows_from(
    def: ServiceHealthDefView,
    rows: Seq<TsFlagsView>,
    i: int,
) -> Result<Seq<ServiceHealthPointView>, CloudMonError>
    decreases rows.len() - i,
{
    if i < 0 || i >= rows.len() {
        Ok(Seq::empty())
    } else {
        let ctx = binding_map(context_of(def.metrics, rows[i].flags));
        match weigh_from(def.expressions, ctx, 0, 0) {
            None => Err(CloudMonError::ExpressionError),
            Some(w) => match eval_rows_from(def, rows, i + 1) {
                Err(e) => Err(e),
                Ok(rest) => Ok(
                    seq![
                        ServiceHealthPointView {
                            ts: rows[i].ts,
                            value: w,
                            triggered: triggered_of(rows[i].flags),
                        },
                    ] + rest,
                ),
            },
        }
    }
}

/// Whether every metric of the list that has a compiled flag metric also
/// has a binding for the environment.
pub open spec fn targets_ok(state: AppState, metrics: Seq<Seq<char>>, env: Seq<char>) -> bool {
    forall|i: int|
        0 <= i < metrics.len() && (#[trigger] state.flag_metrics.spec_get(metrics[i])) is Some
            ==> state.flag_at(metrics[i], env) is Some
}

/// The views of a health point list.
pub open spec fn health_points_view(pts: Seq<ServiceHealthPoint>) -> Seq<ServiceHealthPointView> {
    pts.map_values(|p: ServiceHealthPoint| p@)
}

/// What evaluating a service's health over a render response returns:
/// an unknown service or a metric without a binding for the environment is
/// rejected; otherwise the response's flags are folded into timestamp rows
/// and each row is weighed under the service's expressions.
pub open spec fn service_health_spec(
    state: AppState,
    service: Seq<char>,
    env: Seq<char>,
    data: Seq<GraphiteDataView>,
) -> Result<Seq<ServiceHealthPointView>, CloudMonError> {
    match state.health_at(service) {
        None => Err(CloudMonError::ServiceNotSupported),
        Some(def) => if !targets_ok(state, def.metrics, env) {
            Err(CloudMonError::EnvNotSupported)
        } else {
            eval_rows_from(def, built_rows(state, env, data), 0)
        },
    }
}

/// The views of a target list.
pub open spec fn pair_views(s: Seq<(String, String)>) -> Seq<(Seq<char>, Seq<char>)> {
    s.map_values(|p: (String, String)| (p.0@, p.1@))
}

/// The `(alias, query)` targets a health request plans, from metric `i`
/// on: one per metric of the definition that has a compiled flag metric,
/// carrying that metric's query for the environment.
pub open spec fn targets_from(
    state: AppState,
    metrics: Seq<Seq<char>>,
    env: Seq<char>,
    i: int,
) -> Seq<(Seq<char>, Seq<char>)>
    decreases metrics.len() - i,
{
    if i < 0 || i >= metrics.len() {
        Seq::empty()
    } else {
        (if state.flag_metrics.spec_get(metrics[i]) is Some {
            seq![(metrics[i], state.flag_at(metrics[i], env)->0.query)]
        } else {
            Seq::empty()
        }) + targets_from(state, metrics, env, i + 1)
    }
}

/// The `(alias, query)` targets a health request plans.
pub open spec fn targets_spec(
    state: AppState,
    metrics: Seq<Seq<char>>,
    env: Seq<char>,
) -> Seq<(Seq<char>, Seq<char>)> {
    targets_from(state, metrics, env, 0)
}

/// Plan the Graphite targets of a health request: one aliased query per
/// metric of the service that has a compiled flag metric. An unknown
/// service is rejected with `ServiceNotSupported`; a metric whose flag
/// metric has no binding for the environment, with `EnvNotSupported`.
pub fn plan_health_targets(state: &AppState, service: &str, environment: &str) -> (r: Result<
    Vec<(String, String)>,
    CloudMonError,
>)
    ensures
        r matches Err(e) ==> (e == CloudMonError::ServiceNotSupported
            || e == CloudMonError::EnvNotSupported),
        (r matches Err(e) && e == CloudMonError::ServiceNotSupported) <==> state.health_at(
            service@,
        ) is None,
        (r matches Err(e) && e == CloudMonError::EnvNotSupported) <==> (state.health_at(service@)
            is Some && !targets_ok(*state, state.health_at(service@)->0.metrics, environment@)),
        r matches Ok(ts) ==> state.health_at(service@) is Some && targets_ok(
            *state,
            state.health_at(service@)->0.metrics,
            environment@,
        ) && pair_views(ts@) == targets_spec(
            *state,
            state.health_at(service@)->0.metrics,
            environment@,
        ),
{
    let def = match state.health_metrics.get(service) {
        Some(d) => d,
        None => {
            return Err(CloudMonError::ServiceNotSupported);
        },
    };
    let ghost mviews = def@.metrics;
    let mut targets: Vec<(String, String)> = Vec::new();
    let mut i: usize = 0;
    proof {
        assert(pair_views(targets@) =~= Seq::<(Seq<char>, Seq<char>)>::empty());
        assert(Seq::<(Seq<char>, Seq<char>)>::empty() + targets_from(
            *state,
            mviews,
            environment@,
            0,
        ) =~= targets_from(*state, mviews, environment@, 0));
    }
    while i < def.metrics.len()
        invariant
            i <= mviews.len(),
            mviews == def@.metrics,
            mviews.len() == def.metrics@.len(),
            state.health_at(service@) == Some(def@),
            forall|j: int|
                0 <= j < i ==> ((#[trigger] state.flag_metrics.spec_get(mviews[j])) is Some
                    ==> state.flag_at(mviews[j], environment@) is Some),
            targets_spec(*state, mviews, environment@) == pair_views(targets@) + targets_from(
                *state,
                mviews,
                environment@,
                i as int,
            ),
        decreases mviews.len() - i,
    {
        let m = &def.metrics[i];
        assert(m@ == mviews[i as int]);
        let ghost emitted = pair_views(targets@);
        match state.flag_metrics.get(m.as_str()) {
            Some(inner) => {
                match inner.get(environment) {
                    Some(fm) => {
                        assert(state.flag_at(mviews[i as int], environment@) == Some(fm@));
                        targets.push((m.clone(), fm.query.clone()));
                        proof {
                            let piece = seq![
                                (
                                    mviews[i as int],
                                    state.flag_at(mviews[i as int], environment@)->0.query,
                                ),
                            ];
                            assert(pair_views(targets@) =~= emitted + piece);
                            assert(targets_from(*state, mviews, environment@, i as int) == piece
                                + targets_from(*state, mviews, environment@, i as int + 1));
                            assert(emitted + (piece + targets_from(
                                *state,
                                mviews,
                                environment@,
                                i as int + 1,
                            )) =~= (emitted + piece) + targets_from(
                                *state,
                                mviews,
                                environment@,
                                i as int + 1,
                            ));
                        }
                    },
                    None => {
                        proof {
                            assert(state.flag_metrics.spec_get(mviews[i as int]) is Some);
                            assert(state.flag_at(mviews[i as int], environment@) is None);
                            assert(!targets_ok(*state, mviews, environment@));
                        }
                        return Err(CloudMonError::EnvNotSupported);
                    },
                }
            },
            None => {
                proof {
                    assert(state.flag_metrics.spec_get(mviews[i as int]) is None);
                    assert(targets_from(*state, mviews, environment@, i as int) == Seq::<
                        (Seq<char>, Seq<char>),
                    >::empty() + targets_from(*state, mviews, environment@, i as int + 1));
                    assert(Seq::<(Seq<char>, Seq<char>)>::empty() + targets_from(
                        *state,
                        mviews,
                        environment@,
                        i as int + 1,
                    ) =~= targets_from(*state, mviews, environment@, i as int + 1));
                }
            },
        }
        i = i + 1;
    }
    proof {
        assert(targets_from(*state, mviews, environment@, i as int) =~= Seq::<
            (Seq<char>, Seq<char>),
        >::empty());
        assert(pair_views(targets@) + Seq::<(Seq<char>, Seq<char>)>::empty() =~= pair_views(
            targets@,
        ));
    }
    Ok(targets)
}

/// Each name recorded at most once in a row.
pub open spec fn unique_names(flags: Seq<(Seq<char>, bool)>) -> bool {
    forall|i: int, j: int| 0 <= i < j < flags.len() ==> flags[i].0 != flags[j].0
}

/// Whether some entry holds the name.
pub open spec fn has_name(flags: Seq<(Seq<char>, bool)>, m: Seq<char>) -> bool {
    exists|k: int| 0 <= k < flags.len() && flags[k].0 == m
}

/// Setting a flag keeps names unique and adds at most the set name.
pub proof fn lemma_set_flag_names(flags: Seq<(Seq<char>, bool)>, n: Seq<char>, v: bool)
    ensures
        unique_names(flags) ==> unique_names(set_flag(flags, n, v)),
        forall|m: Seq<char>|
            #[trigger] has_name(set_flag(flags, n, v), m) <==> has_name(flags, m) || m == n,
    decreases flags.len(),
{
    let r = set_flag(flags, n, v);
    if flags.len() == 0 {
        assert(r == seq![(n, v)]);
        assert forall|m: Seq<char>| #[trigger] has_name(r, m) <==> has_name(flags, m) || m
            == n by {
            if m == n {
                assert(r[0].0 == n);
            }
            if has_name(r, m) {
                let k = choose|k: int| 0 <= k < r.len() && r[k].0 == m;
                assert(k == 0);
            }
        }
    } else if flags[0].0 == n {
        assert(r == seq![(n, v)] + flags.drop_first());
        assert forall|m: Seq<char>| #[trigger] has_name(r, m) <==> has_name(flags, m) || m
            == n by {
            if has_name(r, m) {
                let k = choose|k: int| 0 <= k < r.len() && r[k].0 == m;
                if k > 0 {
                    assert(flags[k].0 == m);
                } else {
                    assert(m == n);
                }
            }
            if has_name(flags, m) {
                let k = choose|k: int| 0 <= k < flags.len() && flags[k].0 == m;
                if k > 0 {
                    assert(r[k].0 == m);
                } else {
                    assert(r[0].0 == n);
                }
            }
            if m == n {
                assert(r[0].0 == n);
            }
        }
        if unique_names(flags) {
            assert forall|i: int, j: int| 0 <= i < j < r.len() implies r[i].0 != r[j].0 by {
                if i > 0 {
                    assert(r[i].0 == flags[i].0);
                }
                assert(r[j].0 == flags[j].0);
            }
        }
    } else {
        lemma_set_flag_names(flags.drop_first(), n, v);
        let inner = set_flag(flags.drop_first(), n, v);
        assert(r == seq![flags[0]] + inner);
        assert forall|m: Seq<char>| #[trigger] has_name(r, m) <==> has_name(flags, m) || m
            == n by {
            if has_name(r, m) {
                let k = choose|k: int| 0 <= k < r.len() && r[k].0 == m;
                if k == 0 {
                    assert(flags[0].0 == m);
                } else {
                    assert(inner[k - 1].0 == m);
                    assert(has_name(inner, m));
                    if has_name(flags.drop_first(), m) {
                        let k2 = choose|k2: int|
                            0 <= k2 < flags.drop_first().len() && flags.drop_first()[k2].0 == m;
                        assert(flags[k2 + 1].0 == m);
                    }
                }
            }
            if has_name(flags, m) {
                let k = choose|k: int| 0 <= k < flags.len() && flags[k].0 == m;
                if k == 0 {
                    assert(r[0].0 == m);
                } else {
                    assert(flags.drop_first()[k - 1].0 == m);
                    assert(has_name(flags.drop_first(), m));
                    assert(has_name(inner, m));
                    let k2 = choose|k2: int| 0 <= k2 < inner.len() && inner[k2].0 == m;
                    assert(r[k2 + 1].0 == m);
                }
            }
            if m == n {
                assert(has_name(inner, n));
                let k2 = choose|k2: int| 0 <= k2 < inner.len() && inner[k2].0 == n;
                assert(r[k2 + 1].0 == n);
            }
        }
        if unique_names(flags) {
            assert forall|i: int, j: int| 0 <= i < j < flags.drop_first().len() implies
                flags.drop_first()[i].0 != flags.drop_first()[j].0 by {
                assert(flags.drop_first()[i] == flags[i + 1]);
                assert(flags.drop_first()[j] == flags[j + 1]);
            }
            assert forall|i: int, j: int| 0 <= i < j < r.len() implies r[i].0 != r[j].0 by {
                if i == 0 {
                    assert(r[0].0 == flags[0].0);
                    assert(r[j].0 == inner[j - 1].0);
                    assert(has_name(inner, inner[j - 1].0));
                    if inner[j - 1].0 == flags[0].0 {
                        assert(has_name(flags.drop_first(), flags[0].0) || flags[0].0 == n);
                        if has_name(flags.drop_first(), flags[0].0) {
                            let k2 = choose|k2: int|
                                0 <= k2 < flags.drop_first().len() && flags.drop_first()[k2].0
                                    == flags[0].0;
                            assert(flags[k2 + 1].0 == flags[0].0);
                        }
                    }
                } else {
                    assert(r[i].0 == inner[i - 1].0);
                    assert(r[j].0 == inner[j - 1].0);
                }
            }
        }
    }
}

/// Rows stay strictly ascending by timestamp and keep names unique under
/// `insert_flag`.
pub open spec fn rows_sorted(rows: Seq<TsFlagsView>) -> bool {
    forall|i: int, j: int| 0 <= i < j < rows.len() ==> rows[i].ts < rows[j].ts
}

pub open spec fn rows_unique(rows: Seq<TsFlagsView>) -> bool {
    forall|i: int| 0 <= i < rows.len() ==> unique_names((#[trigger] rows[i]).flags)
}

pub proof fn lemma_insert_flag_keeps_shape(
    rows: Seq<TsFlagsView>,
    ts: u32,
    n: Seq<char>,
    v: bool,
)
    requires
        rows_sorted(rows),
        rows_unique(rows),
    ensures
        rows_sorted(insert_flag(rows, ts, n, v)),
        rows_unique(insert_flag(rows, ts, n, v)),
    decreases rows.len(),
{
    let r = insert_flag(rows, ts, n, v);
    if rows.len() == 0 {
        assert(unique_names(seq![(n, v)]));
    } else if ts < rows[0].ts {
        assert(r == seq![TsFlagsView { ts, flags: seq![(n, v)] }] + rows);
        assert(unique_names(seq![(n, v)]));
        assert forall|i: int, j: int| 0 <= i < j < r.len() implies r[i].ts < r[j].ts by {
            if i > 0 {
                assert(r[i] == rows[i - 1]);
                assert(r[j] == rows[j - 1]);
            } else {
                assert(r[j] == rows[j - 1]);
                assert(rows[0].ts <= rows[j - 1].ts);
            }
        }
        assert forall|i: int| 0 <= i < r.len() implies unique_names((#[trigger] r[i]).flags) by {
            if i > 0 {
                assert(r[i] == rows[i - 1]);
            }
        }
    } else if ts == rows[0].ts {
        lemma_set_flag_names(rows[0].flags, n, v);
        assert forall|i: int, j: int| 0 <= i < j < r.len() implies r[i].ts < r[j].ts by {
            assert(r[j] == rows[j]);
            if i > 0 {
                assert(r[i] == rows[i]);
            } else {
                assert(r[0].ts == rows[0].ts);
            }
        }
        assert forall|i: int| 0 <= i < r.len() implies unique_names((#[trigger] r[i]).flags) by {
            if i > 0 {
                assert(r[i] == rows[i]);
            }
        }
    } else {
        assert forall|i: int, j: int|
            0 <= i < j < rows.drop_first().len() implies rows.drop_first()[i].ts
            < rows.drop_first()[j].ts by {
            assert(rows.drop_first()[i] == rows[i + 1]);
            assert(rows.drop_first()[j] == rows[j + 1]);
        }
        assert forall|i: int|
            0 <= i < rows.drop_first().len() implies unique_names(
            (#[trigger] rows.drop_first()[i]).flags,
        ) by {
            assert(rows.drop_first()[i] == rows[i + 1]);
        }
        lemma_insert_flag_keeps_shape(rows.drop_first(), ts, n, v);
        let inner = insert_flag(rows.drop_first(), ts, n, v);
        assert(r == seq![rows[0]] + inner);
        lemma_insert_flag_ts_set(rows.drop_first(), ts, n, v);
        assert forall|i: int, j: int| 0 <= i < j < r.len() implies r[i].ts < r[j].ts by {
            if i > 0 {
                assert(r[i] == inner[i - 1]);
                assert(r[j] == inner[j - 1]);
            } else {
                assert(r[j] == inner[j - 1]);
                assert(inner[j - 1].ts == ts || exists|k: int|
                    0 <= k < rows.drop_first().len() && inner[j - 1].ts == rows.drop_first()[
                        k
                    ].ts);
                if inner[j - 1].ts != ts {
                    let k = choose|k: int|
                        0 <= k < rows.drop_first().len() && inner[j - 1].ts
                            == rows.drop_first()[k].ts;
                    assert(rows.drop_first()[k] == rows[k + 1]);
                    assert(rows[0].ts < rows[k + 1].ts);
                }
            }
        }
        assert forall|i: int| 0 <= i < r.len() implies unique_names((#[trigger] r[i]).flags) by {
            if i > 0 {
                assert(r[i] == inner[i - 1]);
            }
        }
    }
}

/// Every timestamp of the inserted rows is the inserted one or one already
/// present.
pub proof fn lemma_insert_flag_ts_set(rows: Seq<TsFlagsView>, ts: u32, n: Seq<char>, v: bool)
    ensures
        forall|x: int|
            0 <= x < insert_flag(rows, ts, n, v).len() ==> ((#[trigger] insert_flag(
                rows,
                ts,
                n,
                v,
            )[x]).ts == ts || exists|k: int| 0 <= k < rows.len() && insert_flag(rows, ts, n, v)[
                x
            ].ts == rows[k].ts),
    decreases rows.len(),
{
    let r = insert_flag(rows, ts, n, v);
    if rows.len() == 0 {
    } else if ts < rows[0].ts {
        assert forall|x: int|
            0 <= x < r.len() implies ((#[trigger] r[x]).ts == ts || exists|k: int|
                0 <= k < rows.len() && r[x].ts == rows[k].ts) by {
            if x > 0 {
                assert(r[x] == rows[x - 1]);
            }
        }
    } else if ts == rows[0].ts {
        assert forall|x: int|
            0 <= x < r.len() implies ((#[trigger] r[x]).ts == ts || exists|k: int|
                0 <= k < rows.len() && r[x].ts == rows[k].ts) by {
            if x > 0 {
                assert(r[x] == rows[x]);
            }
        }
    } else {
        lemma_insert_flag_ts_set(rows.drop_first(), ts, n, v);
        let inner = insert_flag(rows.drop_first(), ts, n, v);
        assert forall|x: int|
            0 <= x < r.len() implies ((#[trigger] r[x]).ts == ts || exists|k: int|
                0 <= k < rows.len() && r[x].ts == rows[k].ts) by {
            if x == 0 {
                assert(r[0] == rows[0]);
            } else {
                assert(r[x] == inner[x - 1]);
                if inner[x - 1].ts != ts {
                    let k = choose|k: int|
                        0 <= k < rows.drop_first().len() && inner[x - 1].ts
                            == rows.drop_first()[k].ts;
                    assert(rows.drop_first()[k] == rows[k + 1]);
                }
            }
        }
    }
}

/// The rows a series folds in stay sorted and unique.
pub proof fn lemma_series_rows_keeps_shape(
    rows: Seq<TsFlagsView>,
    points: Seq<(Option<u32>, u32)>,
    target: Seq<char>,
    op: CmpType,
    threshold: u32,
    k: int,
)
    requires
        rows_sorted(rows),
        rows_unique(rows),
    ensures
        rows_sorted(series_rows_from(rows, points, target, op, threshold, k)),
        rows_unique(series_rows_from(rows, points, target, op, threshold, k)),
    decreases points.len() - k,
{
    if 0 <= k < points.len() {
        match points[k].0 {
            None => {
                lemma_series_rows_keeps_shape(rows, points, target, op, threshold, k + 1);
            },
            Some(v) => {
                lemma_insert_flag_keeps_shape(
                    rows,
                    points[k].1,
                    target,
                    flag_state_spec(Some(v), op, threshold),
                );
                lemma_series_rows_keeps_shape(
                    insert_flag(rows, points[k].1, target, flag_state_spec(Some(v), op, threshold)),
                    points,
                    target,
                    op,
                    threshold,
                    k + 1,
                );
            },
        }
    }
}

/// The rows a render response builds are strictly ascending by timestamp,
/// with each metric recorded at most once per timestamp.
pub proof fn lemma_built_rows_shape(
    state: AppState,
    env: Seq<char>,
    data: Seq<GraphiteDataView>,
    rows: Seq<TsFlagsView>,
    i: int,
)
    requires
        rows_sorted(rows),
        rows_unique(rows),
    ensures
        rows_sorted(build_rows_from(state, env, data, rows, i)),
        rows_unique(build_rows_from(state, env, data, rows, i)),
    decreases data.len() - i,
{
    if 0 <= i < data.len() {
        match state.flag_at(data[i].target, env) {
            None => {
                lemma_built_rows_shape(state, env, data, rows, i + 1);
            },
            Some(fm) => {
                lemma_series_rows_keeps_shape(
                    rows,
                    data[i].datapoints,
                    data[i].target,
                    fm.op,
                    fm.threshold,
                    0,
                );
                lemma_built_rows_shape(
                    state,
                    env,
                    data,
                    series_rows_from(rows, data[i].datapoints, data[i].target, fm.op, fm.threshold, 0),
                    i + 1,
                );
            },
        }
    }
}

/// With unique names, `triggered` holds a metric exactly when its recorded
/// flag is true.
pub proof fn lemma_triggered_exact(flags: Seq<(Seq<char>, bool)>, k: int, m: Seq<char>)
    requires
        unique_names(flags),
        0 <= k <= flags.len(),
        forall|j: int| 0 <= j < k ==> flags[j].0 != m,
    ensures
        triggered_from(flags, k).contains(m) <==> tbl_get(flags.skip(k), m) == Some(true),
    decreases flags.len() - k,
{
    if k == flags.len() {
        assert(flags.skip(k) =~= Seq::<(Seq<char>, bool)>::empty());
    } else {
        assert(flags.skip(k)[0] == flags[k]);
        assert(flags.skip(k).drop_first() =~= flags.skip(k + 1));
        if flags[k].0 == m {
            assert forall|j: int| k + 1 <= j < flags.len() implies flags[j].0 != m by {}
            if flags[k].1 {
                assert(triggered_from(flags, k)[0] == m);
                assert(triggered_from(flags, k).contains(m));
            } else {
                lemma_triggered_not_contains(flags, k + 1, m);
                assert(triggered_from(flags, k) =~= triggered_from(flags, k + 1));
            }
        } else {
            lemma_triggered_exact(flags, k + 1, m);
            if flags[k].1 {
                assert(triggered_from(flags, k) == seq![flags[k].0] + triggered_from(
                    flags,
                    k + 1,
                ));
                if triggered_from(flags, k + 1).contains(m) {
                    let x = choose|x: int|
                        0 <= x < triggered_from(flags, k + 1).len() && #[trigger] triggered_from(
                            flags,
                            k + 1,
                        )[x] == m;
                    assert(triggered_from(flags, k)[x + 1] == m);
                }
                if triggered_from(flags, k).contains(m) {
                    let x = choose|x: int|
                        0 <= x < triggered_from(flags, k).len() && triggered_from(flags, k)[x]
                            == m;
                    assert(x > 0);
                    assert(triggered_from(flags, k + 1)[x - 1] == m);
                }
            } else {
                assert(triggered_from(flags, k) =~= triggered_from(flags, k + 1));
            }
        }
    }
}

/// A name no entry from `k` on holds never appears among the triggered.
pub proof fn lemma_triggered_not_contains(flags: Seq<(Seq<char>, bool)>, k: int, m: Seq<char>)
    requires
        0 <= k <= flags.len(),
        forall|j: int| k <= j < flags.len() ==> flags[j].0 != m,
    ensures
        !triggered_from(flags, k).contains(m),
    decreases flags.len() - k,
{
    if k < flags.len() {
        lemma_triggered_not_contains(flags, k + 1, m);
        if flags[k].1 {
            if triggered_from(flags, k).contains(m) {
                let x = choose|x: int|
                    0 <= x < triggered_from(flags, k).len() && triggered_from(flags, k)[x] == m;
                if x == 0 {
                    assert(flags[k].0 == m);
                } else {
                    assert(triggered_from(flags, k + 1)[x - 1] == m);
                }
            }
        } else {
            assert(triggered_from(flags, k) =~= triggered_from(flags, k + 1));
        }
    }
}

/// The winning weight is the largest weight among the expressions that
/// evaluate to true from `x` on, never below the bar, and equal to the bar
/// when none evaluates to true.
pub proof fn lemma_weigh_is_max(
    exprs: Seq<MetricExpressionDefView>,
    ctx: Map<Seq<char>, bool>,
    best: u8,
    x: int,
    w: u8,
)
    requires
        0 <= x <= exprs.len(),
        weigh_from(exprs, ctx, best, x) == Some(w),
    ensures
        w >= best,
        forall|i: int|
            x <= i < exprs.len() && eval_bool_of((#[trigger] exprs[i]).expression, ctx) == Some(
                true,
            ) ==> w >= exprs[i].weight,
        w == best || exists|i: int|
            x <= i < exprs.len() && eval_bool_of((#[trigger] exprs[i]).expression, ctx) == Some(
                true,
            ) && exprs[i].weight == w,
    decreases exprs.len() - x,
{
    if x < exprs.len() {
        if exprs[x].weight <= best {
            lemma_weigh_is_max(exprs, ctx, best, x + 1, w);
        } else {
            match eval_bool_of(exprs[x].expression, ctx) {
                None => {},
                Some(true) => {
                    lemma_weigh_is_max(exprs, ctx, exprs[x].weight, x + 1, w);
                },
                Some(false) => {
                    lemma_weigh_is_max(exprs, ctx, best, x + 1, w);
                },
            }
        }
    }
}

/// On success the evaluator emits one point per row, in row order: the
/// row's timestamp, the winning weight of its context, and its triggered
/// metrics.
pub proof fn lemma_eval_rows_points(def: ServiceHealthDefView, rows: Seq<TsFlagsView>, i: int)
    requires
        0 <= i <= rows.len(),
        eval_rows_from(def, rows, i) is Ok,
    ensures
        eval_rows_from(def, rows, i)->Ok_0.len() == rows.len() - i,
        forall|j: int|
            0 <= j < rows.len() - i ==> {
                let pt = #[trigger] eval_rows_from(def, rows, i)->Ok_0[j];
                pt.ts == rows[i + j].ts && pt.triggered == triggered_of(rows[i + j].flags)
                    && Some(pt.value) == weigh_from(
                    def.expressions,
                    binding_map(context_of(def.metrics, rows[i + j].flags)),
                    0,
                    0,
                )
            },
    decreases rows.len() - i,
{
    if i < rows.len() {
        lemma_eval_rows_points(def, rows, i + 1);
        let pts = eval_rows_from(def, rows, i)->Ok_0;
        let rest = eval_rows_from(def, rows, i + 1)->Ok_0;
        assert forall|j: int| 0 <= j < rows.len() - i implies {
            let pt = #[trigger] pts[j];
            pt.ts == rows[i + j].ts && pt.triggered == triggered_of(rows[i + j].flags) && Some(
                pt.value,
            ) == weigh_from(
                def.expressions,
                binding_map(context_of(def.metrics, rows[i + j].flags)),
                0,
                0,
            )
        } by {
            if j > 0 {
                assert(pts[j] == rest[j - 1]);
            }
        }
    }
}

/// Within one evaluator answer, points are strictly ascending by
/// timestamp.
pub proof fn lemma_points_ascending(
    state: AppState,
    service: Seq<char>,
    env: Seq<char>,
    data: Seq<GraphiteDataView>,
    pts: Seq<ServiceHealthPointView>,
)
    requires
        service_health_spec(state, service, env, data) == Ok::<_, CloudMonError>(pts),
    ensures
        forall|i: int, j: int| 0 <= i < j < pts.len() ==> pts[i].ts < pts[j].ts,
{
    let def = state.health_at(service)->0;
    let rows = built_rows(state, env, data);
    lemma_built_rows_shape(state, env, data, Seq::empty(), 0);
    lemma_eval_rows_points(def, rows, 0);
}

/// The flag one series' samples leave recorded at `ts`, folding the points
/// from `k` on over an earlier record `acc`: each non-null sample at `ts`
/// overwrites the record with its flag; null samples and other timestamps
/// leave it as it is.
pub open spec fn series_sample_flag(
    points: Seq<(Option<u32>, u32)>,
    ts: u32,
    op: CmpType,
    threshold: u32,
    k: int,
    acc: Option<bool>,
) -> Option<bool>
    decreases points.len() - k,
{
    if k < 0 || k >= points.len() {
        acc
    } else {
        let acc1 = match points[k].0 {
            None => acc,
            Some(v) => if points[k].1 == ts {
                Some(flag_state_spec(Some(v), op, threshold))
            } else {
                acc
            },
        };
        series_sample_flag(points, ts, op, threshold, k + 1, acc1)
    }
}

/// The flag the whole response leaves recorded for metric `target` at
/// `ts`, folding the series from `i` on: only series named `target` whose
/// target has a compiled flag metric for the environment contribute, and
/// the last contributing sample wins.
pub open spec fn sample_flag(
    state: AppState,
    env: Seq<char>,
    data: Seq<GraphiteDataView>,
    target: Seq<char>,
    ts: u32,
    i: int,
    acc: Option<bool>,
) -> Option<bool>
    decreases data.len() - i,
{
    if i < 0 || i >= data.len() {
        acc
    } else {
        let acc1 = match state.flag_at(data[i].target, env) {
            None => acc,
            Some(fm) => if data[i].target == target {
                series_sample_flag(data[i].datapoints, ts, fm.op, fm.threshold, 0, acc)
            } else {
                acc
            },
        };
        sample_flag(state, env, data, target, ts, i + 1, acc1)
    }
}

/// The flag row recorded at `ts`, if any.
pub open spec fn row_at(rows: Seq<TsFlagsView>, ts: u32) -> Option<Seq<(Seq<char>, bool)>>
    decreases rows.len(),
{
    if rows.len() == 0 {
        None
    } else if rows[0].ts == ts {
        Some(rows[0].flags)
    } else {
        row_at(rows.drop_first(), ts)
    }
}

/// The flag recorded for `m` at `ts`.
pub open spec fn recorded_flag(rows: Seq<TsFlagsView>, ts: u32, m: Seq<char>) -> Option<bool> {
    match row_at(rows, ts) {
        None => None,
        Some(flags) => tbl_get(flags, m),
    }
}

/// In ascending rows, the row at a held timestamp is the one there.
pub proof fn lemma_row_at_index(rows: Seq<TsFlagsView>, j: int)
    requires
        rows_sorted(rows),
        0 <= j < rows.len(),
    ensures
        row_at(rows, rows[j].ts) == Some(rows[j].flags),
    decreases j,
{
    if j == 0 {
    } else {
        assert(rows[0].ts < rows[j].ts);
        assert forall|a: int, b: int|
            0 <= a < b < rows.drop_first().len() implies rows.drop_first()[a].ts
            < rows.drop_first()[b].ts by {
            assert(rows.drop_first()[a] == rows[a + 1]);
            assert(rows.drop_first()[b] == rows[b + 1]);
        }
        assert(rows.drop_first()[j - 1] == rows[j]);
        lemma_row_at_index(rows.drop_first(), j - 1);
    }
}

/// Recording one flag changes exactly that name's record at that
/// timestamp; the fresh-row case starts from no record.
pub proof fn lemma_insert_flag_recorded(
    rows: Seq<TsFlagsView>,
    ts: u32,
    n: Seq<char>,
    v: bool,
    ts2: u32,
    m: Seq<char>,
)
    requires
        rows_sorted(rows),
    ensures
        recorded_flag(insert_flag(rows, ts, n, v), ts2, m) == if ts2 == ts {
            if m == n {
                Some(v)
            } else {
                recorded_flag(rows, ts, m)
            }
        } else {
            recorded_flag(rows, ts2, m)
        },
    decreases rows.len(),
{
    let r = insert_flag(rows, ts, n, v);
    if rows.len() == 0 {
        assert(r == seq![TsFlagsView { ts, flags: seq![(n, v)] }]);
        assert(r.drop_first() =~= Seq::<TsFlagsView>::empty());
        if ts2 == ts {
            lemma_set_flag_get(Seq::empty(), n, v, m);
            assert(set_flag(Seq::empty(), n, v) == seq![(n, v)]);
        }
    } else if ts < rows[0].ts {
        assert(r == seq![TsFlagsView { ts, flags: seq![(n, v)] }] + rows);
        assert(r.drop_first() =~= rows);
        if ts2 == ts {
            lemma_set_flag_get(Seq::empty(), n, v, m);
            assert(set_flag(Seq::empty(), n, v) == seq![(n, v)]);
            assert(row_at(rows, ts) is None) by {
                lemma_row_at_before_all(rows, ts);
            }
        }
    } else if ts == rows[0].ts {
        let updated = TsFlagsView { ts: rows[0].ts, flags: set_flag(rows[0].flags, n, v) };
        assert(r == seq![updated] + rows.drop_first());
        assert(r.drop_first() =~= rows.drop_first());
        if ts2 == ts {
            lemma_set_flag_get(rows[0].flags, n, v, m);
        }
    } else {
        assert(r == seq![rows[0]] + insert_flag(rows.drop_first(), ts, n, v));
        assert(r.drop_first() =~= insert_flag(rows.drop_first(), ts, n, v));
        assert(r[0] == rows[0]);
        assert forall|a: int, b: int|
            0 <= a < b < rows.drop_first().len() implies rows.drop_first()[a].ts
            < rows.drop_first()[b].ts by {
            assert(rows.drop_first()[a] == rows[a + 1]);
            assert(rows.drop_first()[b] == rows[b + 1]);
        }
        lemma_insert_flag_recorded(rows.drop_first(), ts, n, v, ts2, m);
        if ts2 == rows[0].ts {
            assert(ts2 != ts);
        }
    }
}

/// No row sits at a timestamp below the first of ascending rows.
pub proof fn lemma_row_at_before_all(rows: Seq<TsFlagsView>, ts: u32)
    requires
        rows_sorted(rows),
        rows.len() > 0 ==> ts < rows[0].ts,
    ensures
        row_at(rows, ts) is None,
    decreases rows.len(),
{
    if rows.len() > 0 {
        assert forall|a: int, b: int|
            0 <= a < b < rows.drop_first().len() implies rows.drop_first()[a].ts
            < rows.drop_first()[b].ts by {
            assert(rows.drop_first()[a] == rows[a + 1]);
            assert(rows.drop_first()[b] == rows[b + 1]);
        }
        if rows.drop_first().len() > 0 {
            assert(rows.drop_first()[0] == rows[1]);
        }
        lemma_row_at_before_all(rows.drop_first(), ts);
    }
}

/// Folding one series changes exactly the record of its own target, point
/// by point.
pub proof fn lemma_series_rows_recorded(
    rows: Seq<TsFlagsView>,
    points: Seq<(Option<u32>, u32)>,
    target: Seq<char>,
    op: CmpType,
    threshold: u32,
    k: int,
    ts2: u32,
    m: Seq<char>,
)
    requires
        rows_sorted(rows),
        rows_unique(rows),
    ensures
        recorded_flag(series_rows_from(rows, points, target, op, threshold, k), ts2, m) == if m
            == target {
            series_sample_flag(points, ts2, op, threshold, k, recorded_flag(rows, ts2, m))
        } else {
            recorded_flag(rows, ts2, m)
        },
    decreases points.len() - k,
{
    if 0 <= k < points.len() {
        match points[k].0 {
            None => {
                lemma_series_rows_recorded(rows, points, target, op, threshold, k + 1, ts2, m);
            },
            Some(v) => {
                let rows1 = insert_flag(
                    rows,
                    points[k].1,
                    target,
                    flag_state_spec(Some(v), op, threshold),
                );
                lemma_insert_flag_keeps_shape(
                    rows,
                    points[k].1,
                    target,
                    flag_state_spec(Some(v), op, threshold),
                );
                lemma_insert_flag_recorded(
                    rows,
                    points[k].1,
                    target,
                    flag_state_spec(Some(v), op, threshold),
                    ts2,
                    m,
                );
                lemma_series_rows_recorded(rows1, points, target, op, threshold, k + 1, ts2, m);
            },
        }
    }
}

/// Folding the whole response records, for each metric, exactly the flag
/// of its last contributing sample at each timestamp.
pub proof fn lemma_build_rows_recorded(
    state: AppState,
    env: Seq<char>,
    data: Seq<GraphiteDataView>,
    rows: Seq<TsFlagsView>,
    i: int,
    ts2: u32,
    m: Seq<char>,
)
    requires
        rows_sorted(rows),
        rows_unique(rows),
    ensures
        recorded_flag(build_rows_from(state, env, data, rows, i), ts2, m) == sample_flag(
            state,
            env,
            data,
            m,
            ts2,
            i,
            recorded_flag(rows, ts2, m),
        ),
    decreases data.len() - i,
{
    if 0 <= i < data.len() {
        match state.flag_at(data[i].target, env) {
            None => {
                lemma_build_rows_recorded(state, env, data, rows, i + 1, ts2, m);
            },
            Some(fm) => {
                let rows1 = series_rows_from(
                    rows,
                    data[i].datapoints,
                    data[i].target,
                    fm.op,
                    fm.threshold,
                    0,
                );
                lemma_series_rows_keeps_shape(
                    rows,
                    data[i].datapoints,
                    data[i].target,
                    fm.op,
                    fm.threshold,
                    0,
                );
                lemma_series_rows_recorded(
                    rows,
                    data[i].datapoints,
                    data[i].target,
                    fm.op,
                    fm.threshold,
                    0,
                    ts2,
                    m,
                );
                lemma_build_rows_recorded(state, env, data, rows1, i + 1, ts2, m);
            },
        }
    }
}

/// The sample-level form of triggered-exactness: `triggered` holds exactly
/// the metric identifiers whose last non-null sample at the point's
/// timestamp flags true. Null samples and timestamps without a sample for
/// a metric contribute neither a triggered entry nor a false flag; of
/// several samples of one metric at one timestamp the last processed wins.
pub proof fn lemma_triggered_exactly_true_samples(
    state: AppState,
    service: Seq<char>,
    env: Seq<char>,
    data: Seq<GraphiteDataView>,
    pts: Seq<ServiceHealthPointView>,
    j: int,
    m: Seq<char>,
)
    requires
        service_health_spec(state, service, env, data) == Ok::<_, CloudMonError>(pts),
        0 <= j < pts.len(),
    ensures
        pts[j].triggered.contains(m) <==> sample_flag(state, env, data, m, pts[j].ts, 0, None)
            == Some(true),
{
    let def = state.health_at(service)->0;
    let rows = built_rows(state, env, data);
    lemma_built_rows_shape(state, env, data, Seq::empty(), 0);
    lemma_eval_rows_points(def, rows, 0);
    lemma_triggered_exact(rows[j].flags, 0, m);
    assert(rows[j].flags.skip(0) =~= rows[j].flags);
    lemma_row_at_index(rows, j);
    lemma_build_rows_recorded(state, env, data, Seq::empty(), 0, pts[j].ts, m);
    assert(recorded_flag(Seq::empty(), pts[j].ts, m) is None);
    assert(recorded_flag(rows, pts[j].ts, m) == tbl_get(rows[j].flags, m));
}

/// `triggered` holds exactly the metric identifiers whose flag at the
/// point's timestamp is true.
pub proof fn lemma_triggered_exactly_true_flags(
    state: AppState,
    service: Seq<char>,
    env: Seq<char>,
    data: Seq<GraphiteDataView>,
    pts: Seq<ServiceHealthPointView>,
    j: int,
    m: Seq<char>,
)
    requires
        service_health_spec(state, service, env, data) == Ok::<_, CloudMonError>(pts),
        0 <= j < pts.len(),
    ensures
        pts[j].triggered.contains(m) <==> tbl_get(built_rows(state, env, data)[j].flags, m)
            == Some(true),
{
    let def = state.health_at(service)->0;
    let rows = built_rows(state, env, data);
    lemma_built_rows_shape(state, env, data, Seq::empty(), 0);
    lemma_eval_rows_points(def, rows, 0);
    lemma_triggered_exact(rows[j].flags, 0, m);
    assert(rows[j].flags.skip(0) =~= rows[j].flags);
}

/// Each point's weight is the largest weight among the expressions that
/// evaluate to true in its context, and zero when none does. Equal weights
/// leave the weight unchanged, so the first declared expression of a weight
/// sets the bar.
pub proof fn lemma_weight_is_max_of_true(
    state: AppState,
    service: Seq<char>,
    env: Seq<char>,
    data: Seq<GraphiteDataView>,
    pts: Seq<ServiceHealthPointView>,
    j: int,
)
    requires
        service_health_spec(state, service, env, data) == Ok::<_, CloudMonError>(pts),
        0 <= j < pts.len(),
    ensures
        ({
            let def = state.health_at(service)->0;
            let ctx = binding_map(
                context_of(def.metrics, built_rows(state, env, data)[j].flags),
            );
            &&& forall|i: int|
                0 <= i < def.expressions.len() && eval_bool_of(
                    (#[trigger] def.expressions[i]).expression,
                    ctx,
                ) == Some(true) ==> pts[j].value >= def.expressions[i].weight
            &&& (pts[j].value == 0 || exists|i: int|
                0 <= i < def.expressions.len() && eval_bool_of(
                    (#[trigger] def.expressions[i]).expression,
                    ctx,
                ) == Some(true) && def.expressions[i].weight == pts[j].value)
        }),
{
    let def = state.health_at(service)->0;
    let rows = built_rows(state, env, data);
    lemma_eval_rows_points(def, rows, 0);
    let ctx = binding_map(context_of(def.metrics, rows[j].flags));
    lemma_weigh_is_max(def.expressions, ctx, 0, 0, pts[j].value);
}

/// Evaluating twice over identical inputs yields identical outputs: the
/// evaluator's answer is a function of the state, the service, the
/// environment and the samples alone.
pub proof fn lemma_evaluation_deterministic(
    state: AppState,
    service: Seq<char>,
    env: Seq<char>,
    data: Seq<GraphiteDataView>,
    r1: Result<Seq<ServiceHealthPointView>, CloudMonError>,
    r2: Result<Seq<ServiceHealthPointView>, CloudMonError>,
)
    requires
        r1 == service_health_spec(state, service, env, data),
        r2 == service_health_spec(state, service, env, data),
    ensures
        r1 == r2,
{
}

/// A response whose series hold no non-null sample yields an empty output,
/// not an error, for any supported service and environment.
pub proof fn lemma_no_samples_series(
    rows: Seq<TsFlagsView>,
    points: Seq<(Option<u32>, u32)>,
    target: Seq<char>,
    op: CmpType,
    threshold: u32,
    k: int,
)
    requires
        forall|b: int| 0 <= b < points.len() ==> (#[trigger] points[b]).0 is None,
    ensures
        series_rows_from(rows, points, target, op, threshold, k) == rows,
    decreases points.len() - k,
{
    if 0 <= k < points.len() {
        lemma_no_samples_series(rows, points, target, op, threshold, k + 1);
    }
}

pub proof fn lemma_no_samples_rows(
    state: AppState,
    env: Seq<char>,
    data: Seq<GraphiteDataView>,
    rows: Seq<TsFlagsView>,
    i: int,
)
    requires
        forall|a: int, b: int|
            0 <= a < data.len() && 0 <= b < data[a].datapoints.len() ==> (#[trigger] data[
                a
            ].datapoints[b]).0 is None,
    ensures
        build_rows_from(state, env, data, rows, i) == rows,
    decreases data.len() - i,
{
    if 0 <= i < data.len() {
        match state.flag_at(data[i].target, env) {
            None => {},
            Some(fm) => {
                lemma_no_samples_series(
                    rows,
                    data[i].datapoints,
                    data[i].target,
                    fm.op,
                    fm.threshold,
                    0,
                );
            },
        }
        lemma_no_samples_rows(state, env, data, rows, i + 1);
    }
}

pub proof fn lemma_empty_data_empty_output(
    state: AppState,
    service: Seq<char>,
    env: Seq<char>,
    data: Seq<GraphiteDataView>,
)
    requires
        state.health_at(service) is Some,
        targets_ok(state, state.health_at(service)->0.metrics, env),
        forall|a: int, b: int|
            0 <= a < data.len() && 0 <= b < data[a].datapoints.len() ==> (#[trigger] data[
                a
            ].datapoints[b]).0 is None,
    ensures
        service_health_spec(state, service, env, data) == Ok::<_, CloudMonError>(
            Seq::<ServiceHealthPointView>::empty(),
        ),
{
    lemma_no_samples_rows(state, env, data, Seq::empty(), 0);
}

/// A metric with no recorded flag at a timestamp is bound to false in that
/// timestamp's context: data present for only some metrics makes the others
/// evaluate as false, never as missing.
pub proof fn lemma_context_binds_missing_to_false(
    metrics: Seq<Seq<char>>,
    flags: Seq<(Seq<char>, bool)>,
    i: int,
)
    requires
        0 <= i < metrics.len(),
        forall|j: int|
            i < j < metrics.len() ==> text::dash_to_underscore_spec(#[trigger] metrics[j])
                != text::dash_to_underscore_spec(metrics[i]),
    ensures
        binding_map(context_of(metrics, flags)).contains_key(
            text::dash_to_underscore_spec(metrics[i]),
        ),
        binding_map(context_of(metrics, flags))[text::dash_to_underscore_spec(metrics[i])]
            == flag_or_false(flags, metrics[i]),
        tbl_get(flags, metrics[i]) is None ==> binding_map(context_of(metrics, flags))[
            text::dash_to_underscore_spec(metrics[i])
        ] == false,
    decreases metrics.len(),
{
    let ctx = context_of(metrics, flags);
    assert(ctx.last() == (
        text::dash_to_underscore_spec(metrics[metrics.len() - 1]),
        flag_or_false(flags, metrics[metrics.len() - 1]),
    ));
    if i == metrics.len() - 1 {
    } else {
        assert(ctx.drop_last() =~= context_of(metrics.drop_last(), flags));
        lemma_context_binds_missing_to_false(metrics.drop_last(), flags, i);
    }
}

/// The flag recorded under `name`, if any.
fn flags_get(flags: &Vec<(String, bool)>, name: &str) -> (r: Option<bool>)
    ensures
        r == tbl_get(flag_views(flags@), name@),
{
    let ghost fv = flag_views(flags@);
    let mut k: usize = 0;
    while k < flags.len()
        invariant
            k <= fv.len(),
            fv == flag_views(flags@),
            fv.len() == flags@.len(),
            forall|j: int| 0 <= j < k ==> fv[j].0 != name@,
        decreases fv.len() - k,
    {
        if text::str_eq(flags[k].0.as_str(), name) {
            assert(fv[k as int].0 == name@);
            proof {
                crate::types::lemma_tbl_get_skip(fv, name@, k as int);
                assert(fv.skip(k as int)[0] == fv[k as int]);
            }
            return Some(flags[k].1);
        }
        assert(fv[k as int].0 != name@);
        k = k + 1;
    }
    proof {
        crate::types::lemma_tbl_get_skip(fv, name@, fv.len() as int);
        assert(fv.skip(fv.len() as int) =~= Seq::<(Seq<char>, bool)>::empty());
    }
    None
}

/// Evaluate a service's health over a render response: fold each series'
/// non-null samples into timestamp rows of flags, then weigh the service's
/// expressions at each timestamp in ascending order. An unknown service is
/// rejected with `ServiceNotSupported`, a metric without a binding for the
/// environment with `EnvNotSupported`, and any expression evaluation error
/// fails the whole request with `ExpressionError`.
pub fn get_service_health(
    state: &AppState,
    service: &str,
    environment: &str,
    raw_data: &Vec<GraphiteData>,
) -> (r: Result<Vec<ServiceHealthPoint>, CloudMonError>)
    ensures
        r is Ok <==> service_health_spec(*state, service@, environment@, data_views(raw_data@))
            is Ok,
        r matches Ok(pts) ==> service_health_spec(*state, service@, environment@, data_views(
            raw_data@,
        )) == Ok::<Seq<ServiceHealthPointView>, CloudMonError>(health_points_view(pts@)),
        r matches Err(e) ==> service_health_spec(*state, service@, environment@, data_views(
            raw_data@,
        )) == Err::<Seq<ServiceHealthPointView>, CloudMonError>(e),
{
    let ghost dv = data_views(raw_data@);
    let def = match state.health_metrics.get(service) {
        Some(d) => d,
        None => {
            return Err(CloudMonError::ServiceNotSupported);
        },
    };
    let ghost defv = def@;
    let ghost mviews = defv.metrics;

    // Every metric that has a compiled flag metric must have a binding for
    // the environment.
    let mut i: usize = 0;
    while i < def.metrics.len()
        invariant
            i <= mviews.len(),
            mviews == defv.metrics,
            def@ == defv,
            state.health_at(service@) == Some(defv),
            mviews.len() == def.metrics@.len(),
            forall|j: int|
                0 <= j < i ==> ((#[trigger] state.flag_metrics.spec_get(mviews[j])) is Some
                    ==> state.flag_at(mviews[j], environment@) is Some),
        decreases mviews.len() - i,
    {
        let m = &def.metrics[i];
        assert(m@ == mviews[i as int]);
        match state.flag_metrics.get(m.as_str()) {
            Some(inner) => {
                if !inner.contains_key(environment) {
                    proof {
                        assert(state.flag_metrics.spec_get(mviews[i as int]) is Some);
                        assert(state.flag_at(mviews[i as int], environment@) is None);
                        assert(!targets_ok(*state, mviews, environment@));
                    }
                    return Err(CloudMonError::EnvNotSupported);
                }
                assert(state.flag_at(mviews[i as int], environment@) is Some);
            },
            None => {},
        }
        i = i + 1;
    }
    assert(targets_ok(*state, mviews, environment@));

    // Fold the non-null samples into timestamp rows of flags.
    let mut rows: Vec<TsFlags> = Vec::new();
    let mut s: usize = 0;
    proof {
        assert(rows_views(rows@) =~= Seq::<TsFlagsView>::empty());
    }
    while s < raw_data.len()
        invariant
            s <= dv.len(),
            dv == data_views(raw_data@),
            dv.len() == raw_data@.len(),
            built_rows(*state, environment@, dv) == build_rows_from(
                *state,
                environment@,
                dv,
                rows_views(rows@),
                s as int,
            ),
        decreases dv.len() - s,
    {
        let d = &raw_data[s];
        assert(d@ == dv[s as int]);
        let ghost rows_entry = rows_views(rows@);
        match state.flag_metrics.get(d.target.as_str()) {
            Some(inner) => {
                match inner.get(environment) {
                    Some(fm) => {
                        assert(state.flag_at(dv[s as int].target, environment@) == Some(fm@));
                        let mut k: usize = 0;
                        while k < d.datapoints.len()
                            invariant
                                k <= dv[s as int].datapoints.len(),
                                s < dv.len(),
                                dv == data_views(raw_data@),
                                d@ == dv[s as int],
                                d.datapoints@.len() == dv[s as int].datapoints.len(),
                                fm.op == state.flag_at(dv[s as int].target, environment@)->0.op,
                                fm.threshold == state.flag_at(
                                    dv[s as int].target,
                                    environment@,
                                )->0.threshold,
                                series_rows_from(
                                    rows_entry,
                                    dv[s as int].datapoints,
                                    dv[s as int].target,
                                    fm.op,
                                    fm.threshold,
                                    0,
                                ) == series_rows_from(
                                    rows_views(rows@),
                                    dv[s as int].datapoints,
                                    dv[s as int].target,
                                    fm.op,
                                    fm.threshold,
                                    k as int,
                                ),
                            decreases dv[s as int].datapoints.len() - k,
                        {
                            let p = d.datapoints[k];
                            assert(p == dv[s as int].datapoints[k as int]);
                            let ghost rows_now = rows_views(rows@);
                            if p.0.is_some() {
                                let flag = get_metric_flag_state(&p.0, fm);
                                rows_insert(&mut rows, p.1, &d.target, flag);
                            }
                            k = k + 1;
                            proof {
                                assert(series_rows_from(
                                    rows_now,
                                    dv[s as int].datapoints,
                                    dv[s as int].target,
                                    fm.op,
                                    fm.threshold,
                                    k - 1,
                                ) == series_rows_from(
                                    rows_views(rows@),
                                    dv[s as int].datapoints,
                                    dv[s as int].target,
                                    fm.op,
                                    fm.threshold,
                                    k as int,
                                ));
                            }
                        }
                        proof {
                            assert(series_rows_from(
                                rows_views(rows@),
                                dv[s as int].datapoints,
                                dv[s as int].target,
                                fm.op,
                                fm.threshold,
                                dv[s as int].datapoints.len() as int,
                            ) == rows_views(rows@));
                            assert(build_rows_from(
                                *state,
                                environment@,
                                dv,
                                rows_entry,
                                s as int,
                            ) == build_rows_from(
                                *state,
                                environment@,
                                dv,
                                rows_views(rows@),
                                s as int + 1,
                            ));
                        }
                    },
                    None => {
                        proof {
                            assert(state.flag_at(dv[s as int].target, environment@) is None);
                            assert(build_rows_from(
                                *state,
                                environment@,
                                dv,
                                rows_entry,
                                s as int,
                            ) == build_rows_from(
                                *state,
                                environment@,
                                dv,
                                rows_views(rows@),
                                s as int + 1,
                            ));
                        }
                    },
                }
            },
            None => {
                proof {
                    assert(state.flag_at(dv[s as int].target, environment@) is None);
                    assert(build_rows_from(*state, environment@, dv, rows_entry, s as int)
                        == build_rows_from(
                        *state,
                        environment@,
                        dv,
                        rows_views(rows@),
                        s as int + 1,
                    ));
                }
            },
        }
        s = s + 1;
    }
    let ghost rowsv = rows_views(rows@);
    proof {
        assert(build_rows_from(*state, environment@, dv, rowsv, dv.len() as int) == rowsv);
        assert(built_rows(*state, environment@, dv) == rowsv);
    }

    // Weigh the expressions at each timestamp, ascending.
    let mut result: Vec<ServiceHealthPoint> = Vec::new();
    let mut ri: usize = 0;
    proof {
        assert(health_points_view(result@) =~= Seq::<ServiceHealthPointView>::empty());
        if eval_rows_from(defv, rowsv, 0) is Ok {
            assert(health_points_view(result@) + eval_rows_from(defv, rowsv, 0)->Ok_0
                =~= eval_rows_from(defv, rowsv, 0)->Ok_0);
        }
    }
    while ri < rows.len()
        invariant
            ri <= rowsv.len(),
            rowsv == rows_views(rows@),
            rowsv.len() == rows@.len(),
            def@ == defv,
            mviews == defv.metrics,
            mviews.len() == def.metrics@.len(),
            state.health_at(service@) == Some(defv),
            targets_ok(*state, mviews, environment@),
            built_rows(*state, environment@, dv) == rowsv,
            dv == data_views(raw_data@),
            eval_rows_from(defv, rowsv, 0) == (match eval_rows_from(defv, rowsv, ri as int) {
                Err(e) => Err::<Seq<ServiceHealthPointView>, CloudMonError>(e),
                Ok(rest) => Ok::<Seq<ServiceHealthPointView>, CloudMonError>(
                    health_points_view(result@) + rest,
                ),
            }),
        decreases rowsv.len() - ri,
    {
        let row = &rows[ri];
        assert(row@ == rowsv[ri as int]);

        // The evaluation context: every metric bound, underscore-rewritten.
        let mut ctx: Vec<(String, bool)> = Vec::new();
        let mut mi: usize = 0;
        while mi < def.metrics.len()
            invariant
                mi <= mviews.len(),
                mviews == defv.metrics,
                def@ == defv,
                mviews.len() == def.metrics@.len(),
                ri < rowsv.len(),
                rowsv == rows_views(rows@),
                row@ == rowsv[ri as int],
                ctx@.len() == mi,
                forall|j: int|
                    0 <= j < mi ==> (#[trigger] ctx@[j]).0@ == text::dash_to_underscore_spec(
                        mviews[j],
                    ) && ctx@[j].1 == flag_or_false(rowsv[ri as int].flags, mviews[j]),
            decreases mviews.len() - mi,
        {
            let m = &def.metrics[mi];
            assert(m@ == mviews[mi as int]);
            let name = text::dash_to_underscore(m.as_str());
            let x = match flags_get(&row.flags, m.as_str()) {
                Some(b) => b,
                None => false,
            };
            assert(x == flag_or_false(rowsv[ri as int].flags, mviews[mi as int]));
            ctx.push((name, x));
            mi = mi + 1;
        }
        assert(binding_views(ctx@) =~= context_of(mviews, rowsv[ri as int].flags));
        let ghost ctxm = binding_map(context_of(defv.metrics, rowsv[ri as int].flags));
        assert(binding_map(binding_views(ctx@)) == ctxm);

        // Walk the expressions in declared order, raising the bar.
        let mut best: u8 = 0;
        let mut x: usize = 0;
        while x < def.expressions.len()
            invariant
                x <= defv.expressions.len(),
                def@ == defv,
                defv.expressions.len() == def.expressions@.len(),
                binding_map(binding_views(ctx@)) == ctxm,
                ri < rowsv.len(),
                rowsv == rows_views(rows@),
                state.health_at(service@) == Some(defv),
                targets_ok(*state, mviews, environment@),
                mviews == defv.metrics,
                built_rows(*state, environment@, dv) == rowsv,
                dv == data_views(raw_data@),
                ctxm == binding_map(context_of(defv.metrics, rowsv[ri as int].flags)),
                eval_rows_from(defv, rowsv, 0) == (match eval_rows_from(defv, rowsv, ri as int) {
                    Err(e) => Err::<Seq<ServiceHealthPointView>, CloudMonError>(e),
                    Ok(rest) => Ok::<Seq<ServiceHealthPointView>, CloudMonError>(
                        health_points_view(result@) + rest,
                    ),
                }),
                weigh_from(defv.expressions, ctxm, 0, 0) == weigh_from(
                    defv.expressions,
                    ctxm,
                    best,
                    x as int,
                ),
            decreases defv.expressions.len() - x,
        {
            let expr = &def.expressions[x];
            assert(expr@ == defv.expressions[x as int]);
            if expr.weight > best {
                match eval_bool(expr.expression.as_str(), &ctx) {
                    Some(true) => {
                        best = expr.weight;
                    },
                    Some(false) => {},
                    None => {
                        proof {
                            assert(weigh_from(defv.expressions, ctxm, 0, 0) is None);
                            assert(eval_rows_from(defv, rowsv, ri as int) == Err::<
                                Seq<ServiceHealthPointView>,
                                CloudMonError,
                            >(CloudMonError::ExpressionError));
                        }
                        return Err(CloudMonError::ExpressionError);
                    },
                }
            }
            x = x + 1;
        }
        assert(weigh_from(defv.expressions, ctxm, 0, 0) == Some(best));

        // The metrics whose flag is true at this timestamp.
        let mut triggered: Vec<String> = Vec::new();
        let mut fi: usize = 0;
        proof {
            assert(str_views(triggered@) =~= Seq::<Seq<char>>::empty());
            assert(Seq::<Seq<char>>::empty() + triggered_from(rowsv[ri as int].flags, 0)
                =~= triggered_from(rowsv[ri as int].flags, 0));
        }
        while fi < row.flags.len()
            invariant
                fi <= rowsv[ri as int].flags.len(),
                ri < rowsv.len(),
                rowsv == rows_views(rows@),
                row@ == rowsv[ri as int],
                row.flags@.len() == rowsv[ri as int].flags.len(),
                triggered_of(rowsv[ri as int].flags) == str_views(triggered@) + triggered_from(
                    rowsv[ri as int].flags,
                    fi as int,
                ),
            decreases rowsv[ri as int].flags.len() - fi,
        {
            let ghost emitted = str_views(triggered@);
            let ghost fl = rowsv[ri as int].flags;
            assert((row.flags@[fi as int].0@, row.flags@[fi as int].1) == fl[fi as int]);
            if row.flags[fi].1 {
                triggered.push(row.flags[fi].0.clone());
                proof {
                    assert(str_views(triggered@) =~= emitted + seq![fl[fi as int].0]);
                    assert(triggered_from(fl, fi as int) == seq![fl[fi as int].0]
                        + triggered_from(fl, fi as int + 1));
                    assert(emitted + (seq![fl[fi as int].0] + triggered_from(fl, fi as int + 1))
                        =~= (emitted + seq![fl[fi as int].0]) + triggered_from(
                        fl,
                        fi as int + 1,
                    ));
                }
            } else {
                proof {
                    assert(triggered_from(fl, fi as int) == Seq::<Seq<char>>::empty()
                        + triggered_from(fl, fi as int + 1));
                    assert(Seq::<Seq<char>>::empty() + triggered_from(fl, fi as int + 1)
                        =~= triggered_from(fl, fi as int + 1));
                }
            }
            fi = fi + 1;
        }
        proof {
            assert(triggered_from(rowsv[ri as int].flags, rowsv[ri as int].flags.len() as int)
                =~= Seq::<Seq<char>>::empty());
            assert(str_views(triggered@) + Seq::<Seq<char>>::empty() =~= str_views(triggered@));
            assert(triggered_of(rowsv[ri as int].flags) == str_views(triggered@));
        }
        let pt = ServiceHealthPoint { ts: row.ts, value: best, triggered };
        assert(pt@ == (ServiceHealthPointView {
            ts: rowsv[ri as int].ts,
            value: best,
            triggered: triggered_of(rowsv[ri as int].flags),
        }));
        let ghost emitted_pts = health_points_view(result@);
        result.push(pt);
        ri = ri + 1;
        proof {
            assert(health_points_view(result@) =~= emitted_pts + seq![pt@]);
            assert(eval_rows_from(defv, rowsv, ri - 1) == (match eval_rows_from(
                defv,
                rowsv,
                ri as int,
            ) {
                Err(e) => Err::<Seq<ServiceHealthPointView>, CloudMonError>(e),
                Ok(rest) => Ok::<Seq<ServiceHealthPointView>, CloudMonError>(seq![pt@] + rest),
            }));
            if eval_rows_from(defv, rowsv, ri as int) is Ok {
                let rest = eval_rows_from(defv, rowsv, ri as int)->Ok_0;
                assert(emitted_pts + (seq![pt@] + rest) =~= (emitted_pts + seq![pt@]) + rest);
            }
        }
    }
    proof {
        assert(eval_rows_from(defv, rowsv, rowsv.len() as int) == Ok::<
            Seq<ServiceHealthPointView>,
            CloudMonError,
        >(Seq::empty()));
        assert(health_points_view(result@) + Seq::<ServiceHealthPointView>::empty()
            =~= health_points_view(result@));
    }
    Ok(result)
}

/// Overwrite the first entry named `name`, or append the pair.
fn flags_set(flags: &mut Vec<(String, bool)>, name: &String, v: bool)
    ensures
        flag_views(final(flags)@) == set_flag(flag_views(old(flags)@), name@, v),
{
    let ghost pre = flag_views(flags@);
    let mut k: usize = 0;
    while k < flags.len()
        invariant
            k <= flags@.len(),
            flags@ == old(flags)@,
            pre == flag_views(flags@),
            forall|j: int| 0 <= j < k ==> pre[j].0 != name@,
        decreases flags@.len() - k,
    {
        if text::str_eq(flags[k].0.as_str(), name.as_str()) {
            assert(pre[k as int].0 == name@);
            flags.set(k, (name.clone(), v));
            proof {
                lemma_set_flag_at(pre, name@, v, k as int);
                assert(flag_views(flags@) =~= pre.update(k as int, (name@, v)));
            }
            return ;
        }
        assert(pre[k as int].0 != name@);
        k = k + 1;
    }
    flags.push((name.clone(), v));
    proof {
        lemma_set_flag_append(pre, name@, v);
        assert(flag_views(flags@) =~= pre.push((name@, v)));
    }
}

} // verus!
