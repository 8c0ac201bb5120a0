//! Data model of the metrics processor: comparators, metric templates,
//! compiled flag metrics, health definitions, errors, and the compiled
//! application state with its configuration compiler.
//!
//! Sample values and thresholds are `u32` keys under an order- and
//! equality-preserving encoding chosen by the caller; the library never
//! looks inside a key except to compare it.

use crate::config::Config;
use crate::text;
use vstd::prelude::*;

verus! {

/// How a sample is compared to a threshold.
#[derive(Clone, Copy, Debug, PartialEq, Eq, Structural)]
pub enum CmpType {
    Lt,
    Gt,
    Eq,
}

/// A metric template before compilation: a query with `$var` tokens, a
/// comparator and a default threshold.
#[derive(Clone, Debug)]
pub struct BinaryMetricRawDef {
    pub query: String,
    pub op: CmpType,
    pub threshold: u32,
}

impl Default for BinaryMetricRawDef {
    /// An empty query comparing as `Lt` against the zero key.
    fn default() -> (r: Self)
        ensures
            r.query@ == Seq::<char>::empty(),
            r.op == CmpType::Lt,
            r.threshold == 0,
    {
        BinaryMetricRawDef { query: String::new(), op: CmpType::Lt, threshold: 0 }
    }
}

/// A compiled flag metric: a fully substituted query, a comparator and the
/// threshold it compares against.
#[derive(Clone, Debug)]
pub struct FlagMetric {
    pub query: String,
    pub op: CmpType,
    pub threshold: u32,
}

impl Default for FlagMetric {
    /// An empty query comparing as `Lt` against the zero key.
    fn default() -> (r: Self)
        ensures
            r.query@ == Seq::<char>::empty(),
            r.op == CmpType::Lt,
            r.threshold == 0,
    {
        FlagMetric { query: String::new(), op: CmpType::Lt, threshold: 0 }
    }
}

/// A reference from a flag metric to a template, by name.
#[derive(Clone, Debug)]
pub struct MetricTemplateRef {
    pub name: String,
    pub vars: Option<Vec<(String, String)>>,
}

/// A monitored environment, with optional attributes that the reporter
/// uses to tell dashboard components of one name apart.
#[derive(Clone, Debug)]
pub struct EnvironmentDef {
    pub name: String,
    pub attributes: Option<Vec<(String, String)>>,
}

/// One weighted boolean expression of a health definition.
#[derive(Clone, Debug)]
pub struct MetricExpressionDef {
    pub expression: String,
    pub weight: u8,
}

/// A flag metric as configured: a name, the owning service, a template
/// reference and the environments it is compiled for.
#[derive(Clone, Debug)]
pub struct FlagMetricDef {
    pub name: String,
    pub service: String,
    pub template: Option<MetricTemplateRef>,
    pub environments: Vec<MetricEnvironmentDef>,
}

/// An environment a flag metric is compiled for, with an optional
/// per-environment threshold override.
#[derive(Clone, Debug)]
pub struct MetricEnvironmentDef {
    pub name: String,
    pub threshold: Option<u32>,
}

/// A service health definition: the metrics it reads and the weighted
/// expressions evaluated over their flags.
#[derive(Clone, Debug)]
pub struct ServiceHealthDef {
    pub service: String,
    pub component_name: Option<String>,
    pub category: String,
    pub metrics: Vec<String>,
    pub expressions: Vec<MetricExpressionDef>,
}

/// A metric definition of the direct form: either a literal query or a
/// template reference, with optional comparator and threshold overrides.
#[derive(Clone, Debug)]
pub struct BinaryMetricDef {
    pub query: Option<String>,
    pub op: Option<CmpType>,
    pub threshold: Option<u32>,
    pub template: Option<MetricTemplateRef>,
}

/// One point of a service health series: a timestamp, the weight that won
/// at it, and the metric identifiers whose flag was true there.
#[derive(Clone, Debug)]
pub struct ServiceHealthPoint {
    pub ts: u32,
    pub value: u8,
    pub triggered: Vec<String>,
}

/// The plain pairs `(ts, weight)` of a health series, as the HTTP layer
/// serializes them.
pub type ServiceHealthData = Vec<(u32, u8)>;

/// Errors of the health evaluation pipeline.
#[derive(Clone, Copy, Debug, PartialEq, Eq, Structural)]
pub enum CloudMonError {
    ServiceNotSupported,
    EnvNotSupported,
    ExpressionError,
    GraphiteError,
}

impl CloudMonError {
    /// The message text of this error.
    pub open spec fn message_spec(&self) -> Seq<char> {
        match self {
            CloudMonError::ServiceNotSupported => "Requested service not supported"@,
            CloudMonError::EnvNotSupported => "Environment for service not supported"@,
            CloudMonError::ExpressionError => "Internal Expression evaluation error"@,
            CloudMonError::GraphiteError => "Graphite error"@,
        }
    }

    /// The message text of this error.
    pub fn message(&self) -> (r: &'static str)
        ensures
            r@ == self.message_spec(),
    {
        match self {
            CloudMonError::ServiceNotSupported => "Requested service not supported",
            CloudMonError::EnvNotSupported => "Environment for service not supported",
            CloudMonError::ExpressionError => "Internal Expression evaluation error",
            CloudMonError::GraphiteError => "Graphite error",
        }
    }
}

/// Errors of configuration compilation; any of them aborts startup.
#[derive(Clone, Copy, Debug, PartialEq, Eq, Structural)]
pub enum ConfigError {
    UnknownTemplate,
    UnknownEnvironment,
    DuplicateMetric,
    MissingField,
}

impl ConfigError {
    /// The message text of this error.
    pub open spec fn message_spec(&self) -> Seq<char> {
        match self {
            ConfigError::UnknownTemplate => "Flag metric references an unknown template"@,
            ConfigError::UnknownEnvironment => "Flag metric references an unknown environment"@,
            ConfigError::DuplicateMetric => "Duplicate metric identifier"@,
            ConfigError::MissingField => "A required configuration field is missing"@,
        }
    }

    /// The message text of this error.
    pub fn message(&self) -> (r: &'static str)
        ensures
            r@ == self.message_spec(),
    {
        match self {
            ConfigError::UnknownTemplate => "Flag metric references an unknown template",
            ConfigError::UnknownEnvironment => "Flag metric references an unknown environment",
            ConfigError::DuplicateMetric => "Duplicate metric identifier",
            ConfigError::MissingField => "A required configuration field is missing",
        }
    }
}

/// Mathematical model of a [`ServiceHealthPoint`].
#[verifier::ext_equal]
pub struct ServiceHealthPointView {
    pub ts: u32,
    pub value: u8,
    pub triggered: Seq<Seq<char>>,
}

impl View for ServiceHealthPoint {
    type V = ServiceHealthPointView;

    open spec fn view(&self) -> ServiceHealthPointView {
        ServiceHealthPointView {
            ts: self.ts,
            value: self.value,
            triggered: self.triggered@.map_values(|m: String| m@),
        }
    }
}

/// Mathematical model of a [`BinaryMetricRawDef`].
#[verifier::ext_equal]
pub struct BinaryMetricRawDefView {
    pub query: Seq<char>,
    pub op: CmpType,
    pub threshold: u32,
}

impl View for BinaryMetricRawDef {
    type V = BinaryMetricRawDefView;

    open spec fn view(&self) -> BinaryMetricRawDefView {
        BinaryMetricRawDefView { query: self.query@, op: self.op, threshold: self.threshold }
    }
}

/// Mathematical model of a [`FlagMetric`].
#[verifier::ext_equal]
pub struct FlagMetricView {
    pub query: Seq<char>,
    pub op: CmpType,
    pub threshold: u32,
}

impl View for FlagMetric {
    type V = FlagMetricView;

    open spec fn view(&self) -> FlagMetricView {
        FlagMetricView { query: self.query@, op: self.op, threshold: self.threshold }
    }
}

/// Mathematical model of a [`MetricTemplateRef`].
#[verifier::ext_equal]
pub struct MetricTemplateRefView {
    pub name: Seq<char>,
    pub vars: Option<Seq<(Seq<char>, Seq<char>)>>,
}

impl View for MetricTemplateRef {
    type V = MetricTemplateRefView;

    open spec fn view(&self) -> MetricTemplateRefView {
        MetricTemplateRefView {
            name: self.name@,
            vars: match self.vars {
                None => None,
                Some(v) => Some(
                    v@.map_values(|p: (String, String)| (p.0@, p.1@)),
                ),
            },
        }
    }
}

/// Mathematical model of an [`EnvironmentDef`].
#[verifier::ext_equal]
pub struct EnvironmentDefView {
    pub name: Seq<char>,
    pub attributes: Option<Seq<(Seq<char>, Seq<char>)>>,
}

impl View for EnvironmentDef {
    type V = EnvironmentDefView;

    open spec fn view(&self) -> EnvironmentDefView {
        EnvironmentDefView {
            name: self.name@,
            attributes: match self.attributes {
                None => None,
                Some(v) => Some(
                    v@.map_values(|p: (String, String)| (p.0@, p.1@)),
                ),
            },
        }
    }
}

/// Mathematical model of a [`MetricExpressionDef`].
#[verifier::ext_equal]
pub struct MetricExpressionDefView {
    pub expression: Seq<char>,
    pub weight: u8,
}

impl View for MetricExpressionDef {
    type V = MetricExpressionDefView;

    open spec fn view(&self) -> MetricExpressionDefView {
        MetricExpressionDefView { expression: self.expression@, weight: self.weight }
    }
}

/// Mathematical model of a [`MetricEnvironmentDef`].
#[verifier::ext_equal]
pub struct MetricEnvironmentDefView {
    pub name: Seq<char>,
    pub threshold: Option<u32>,
}

impl View for MetricEnvironmentDef {
    type V = MetricEnvironmentDefView;

    open spec fn view(&self) -> MetricEnvironmentDefView {
        MetricEnvironmentDefView { name: self.name@, threshold: self.threshold }
    }
}

/// Mathematical model of a [`FlagMetricDef`].
#[verifier::ext_equal]
pub struct FlagMetricDefView {
    pub name: Seq<char>,
    pub service: Seq<char>,
    pub template: Option<MetricTemplateRefView>,
    pub environments: Seq<MetricEnvironmentDefView>,
}

impl View for FlagMetricDef {
    type V = FlagMetricDefView;

    open spec fn view(&self) -> FlagMetricDefView {
        FlagMetricDefView {
            name: self.name@,
            service: self.service@,
            template: match self.template {
                None => None,
                Some(t) => Some(t@),
            },
            environments: self.environments@.map_values(|e: MetricEnvironmentDef| e@),
        }
    }
}

/// Mathematical model of a [`ServiceHealthDef`].
#[verifier::ext_equal]
pub struct ServiceHealthDefView {
    pub service: Seq<char>,
    pub component_name: Option<Seq<char>>,
    pub category: Seq<char>,
    pub metrics: Seq<Seq<char>>,
    pub expressions: Seq<MetricExpressionDefView>,
}

impl View for ServiceHealthDef {
    type V = ServiceHealthDefView;

    open spec fn view(&self) -> ServiceHealthDefView {
        ServiceHealthDefView {
            service: self.service@,
            component_name: match self.component_name {
                None => None,
                Some(ref n) => Some(n@),
            },
            category: self.category@,
            metrics: self.metrics@.map_values(|m: String| m@),
            expressions: self.expressions@.map_values(|x: MetricExpressionDef| x@),
        }
    }
}

/// The value under key `k` in an association list, scanning from the front.
pub open spec fn tbl_get<V>(entries: Seq<(Seq<char>, V)>, k: Seq<char>) -> Option<V>
    decreases entries.len(),
{
    if entries.len() == 0 {
        None
    } else if entries[0].0 == k {
        Some(entries[0].1)
    } else {
        tbl_get(entries.drop_first(), k)
    }
}

/// Scanning past a prefix that does not hold `k` does not change the lookup.
pub proof fn lemma_tbl_get_skip<V>(entries: Seq<(Seq<char>, V)>, k: Seq<char>, i: int)
    requires
        0 <= i <= entries.len(),
        forall|j: int| 0 <= j < i ==> entries[j].0 != k,
    ensures
        tbl_get(entries, k) == tbl_get(entries.skip(i), k),
    decreases i,
{
    if i > 0 {
        lemma_tbl_get_skip(entries, k, i - 1);
        assert(entries.skip(i - 1).drop_first() =~= entries.skip(i));
        assert(entries.skip(i - 1)[0] == entries[i - 1]);
    } else {
        assert(entries.skip(0) =~= entries);
    }
}

/// Appending an entry only affects a lookup that found nothing before.
pub proof fn lemma_tbl_get_push<V>(
    entries: Seq<(Seq<char>, V)>,
    p: (Seq<char>, V),
    k: Seq<char>,
)
    ensures
        tbl_get(entries.push(p), k) == match tbl_get(entries, k) {
            Some(v) => Some(v),
            None => if p.0 == k {
                Some(p.1)
            } else {
                None
            },
        },
    decreases entries.len(),
{
    if entries.len() == 0 {
        assert(entries.push(p)[0] == p);
        assert(entries.push(p).drop_first() =~= Seq::<(Seq<char>, V)>::empty());
        assert(tbl_get(entries, k) is None);
        if p.0 == k {
            assert(tbl_get(entries.push(p), k) == Some(p.1));
        } else {
            assert(tbl_get(entries.push(p), k) == tbl_get(
                entries.push(p).drop_first(),
                k,
            ));
            assert(tbl_get(entries.push(p), k) is None);
        }
    } else {
        lemma_tbl_get_push(entries.drop_first(), p, k);
        assert(entries.push(p).drop_first() =~= entries.drop_first().push(p));
        assert(entries.push(p)[0] == entries[0]);
        if entries[0].0 == k {
            assert(tbl_get(entries.push(p), k) == Some(entries[0].1));
            assert(tbl_get(entries, k) == Some(entries[0].1));
        } else {
            assert(tbl_get(entries.push(p), k) == tbl_get(entries.drop_first().push(p), k));
            assert(tbl_get(entries, k) == tbl_get(entries.drop_first(), k));
        }
    }
}

/// Overwriting the entry at the first position holding `k` changes exactly
/// that key's lookup.
pub proof fn lemma_tbl_get_update<V>(
    entries: Seq<(Seq<char>, V)>,
    i: int,
    v: V,
    k: Seq<char>,
)
    requires
        0 <= i < entries.len(),
        forall|j: int| 0 <= j < i ==> entries[j].0 != entries[i].0,
    ensures
        tbl_get(entries.update(i, (entries[i].0, v)), k) == if k == entries[i].0 {
            Some(v)
        } else {
            tbl_get(entries, k)
        },
    decreases i,
{
    let updated = entries.update(i, (entries[i].0, v));
    if i == 0 {
        assert(updated[0] == (entries[0].0, v));
        if k != entries[0].0 {
            assert(updated.drop_first() =~= entries.drop_first());
        }
    } else {
        assert(updated[0] == entries[0]);
        assert(updated.drop_first() =~= entries.drop_first().update(i - 1, (entries[i].0, v)));
        assert(entries.drop_first()[i - 1] == entries[i]);
        lemma_tbl_get_update(entries.drop_first(), i - 1, v, k);
    }
}

/// A found key's lookup yields the entry at its first position.
pub proof fn lemma_tbl_get_at<V>(entries: Seq<(Seq<char>, V)>, i: int)
    requires
        0 <= i < entries.len(),
        forall|j: int| 0 <= j < i ==> entries[j].0 != entries[i].0,
    ensures
        tbl_get(entries, entries[i].0) == Some(entries[i].1),
    decreases i,
{
    if i == 0 {
    } else {
        assert(entries.drop_first()[i - 1] == entries[i]);
        lemma_tbl_get_at(entries.drop_first(), i - 1);
    }
}

/// A lookup succeeds exactly when some entry holds the key.
pub proof fn lemma_tbl_get_membership<V>(entries: Seq<(Seq<char>, V)>, k: Seq<char>)
    ensures
        tbl_get(entries, k) is Some <==> exists|i: int|
            0 <= i < entries.len() && entries[i].0 == k,
    decreases entries.len(),
{
    if entries.len() > 0 {
        lemma_tbl_get_membership(entries.drop_first(), k);
        if entries[0].0 == k {
        } else if tbl_get(entries.drop_first(), k) is Some {
            let i = choose|i: int|
                0 <= i < entries.drop_first().len() && entries.drop_first()[i].0 == k;
            assert(entries[i + 1].0 == k);
        } else if exists|i: int| 0 <= i < entries.len() && entries[i].0 == k {
            let i = choose|i: int| 0 <= i < entries.len() && entries[i].0 == k;
            assert(entries.drop_first()[i - 1].0 == k);
        }
    }
}

/// An insertion-ordered association table with string keys, each key held
/// once. Lookups are stated over [`tbl_get`] on the table's entry view.
pub struct Table<V> {
    entries: Vec<(String, V)>,
}

impl<V> Table<V> {
    /// The entries, in insertion order, keys by view.
    pub closed spec fn view_seq(&self) -> Seq<(Seq<char>, V)> {
        self.entries@.map_values(|e: (String, V)| (e.0@, e.1))
    }

    /// The keys, in insertion order.
    pub open spec fn keys(&self) -> Seq<Seq<char>> {
        self.view_seq().map_values(|e: (Seq<char>, V)| e.0)
    }

    /// The values, in insertion order.
    pub open spec fn vals(&self) -> Seq<V> {
        self.view_seq().map_values(|e: (Seq<char>, V)| e.1)
    }

    /// Each key is held at most once.
    pub open spec fn wf(&self) -> bool {
        forall|i: int, j: int|
            0 <= i < j < self.view_seq().len() ==> self.view_seq()[i].0 != self.view_seq()[j].0
    }

    /// The value under key `k`, if any.
    pub open spec fn spec_get(&self, k: Seq<char>) -> Option<V> {
        tbl_get(self.view_seq(), k)
    }

    /// An empty table.
    pub fn new() -> (r: Self)
        ensures
            r.view_seq() == Seq::<(Seq<char>, V)>::empty(),
            r.wf(),
    {
        let r = Table { entries: Vec::new() };
        proof {
            assert(r.view_seq() =~= Seq::<(Seq<char>, V)>::empty());
        }
        r
    }

    /// How many keys the table holds.
    pub fn len(&self) -> (r: usize)
        ensures
            r == self.view_seq().len(),
    {
        self.entries.len()
    }

    /// The position of `k` among the entries, if present.
    fn find_key(&self, k: &str) -> (r: Option<usize>)
        ensures
            match r {
                Some(i) => i < self.view_seq().len() && self.view_seq()[i as int].0 == k@
                    && forall|j: int| 0 <= j < i ==> self.view_seq()[j].0 != k@,
                None => forall|j: int|
                    0 <= j < self.view_seq().len() ==> self.view_seq()[j].0 != k@,
            },
    {
        let mut i: usize = 0;
        while i < self.entries.len()
            invariant
                i <= self.view_seq().len(),
                self.view_seq().len() == self.entries@.len(),
                forall|j: int| 0 <= j < i ==> self.view_seq()[j].0 != k@,
            decreases self.entries@.len() - i,
        {
            if text::str_eq(self.entries[i].0.as_str(), k) {
                assert(self.view_seq()[i as int].0 == k@);
                return Some(i);
            }
            assert(self.view_seq()[i as int].0 != k@);
            i = i + 1;
        }
        None
    }

    /// The value under `k`, if any.
    pub fn get(&self, k: &str) -> (r: Option<&V>)
        ensures
            match r {
                Some(v) => self.spec_get(k@) == Some(*v),
                None => self.spec_get(k@) is None,
            },
    {
        match self.find_key(k) {
            Some(i) => {
                proof {
                    lemma_tbl_get_skip(self.view_seq(), k@, i as int);
                    assert(self.view_seq().skip(i as int)[0] == self.view_seq()[i as int]);
                }
                Some(&self.entries[i].1)
            },
            None => {
                proof {
                    lemma_tbl_get_skip(self.view_seq(), k@, self.view_seq().len() as int);
                    assert(self.view_seq().skip(self.view_seq().len() as int) =~= Seq::<(
                        Seq<char>,
                        V,
                    )>::empty());
                }
                None
            },
        }
    }

    /// Whether the table holds `k`.
    pub fn contains_key(&self, k: &str) -> (r: bool)
        ensures
            r == (self.spec_get(k@) is Some),
    {
        match self.get(k) {
            Some(_) => true,
            None => false,
        }
    }

    /// Bind `k` to `v`: a held key is overwritten in place, a fresh key is
    /// appended at the end.
    pub fn insert(&mut self, k: String, v: V)
        requires
            old(self).wf(),
        ensures
            final(self).wf(),
            final(self).spec_get(k@) == Some(v),
            forall|k2: Seq<char>| k2 != k@ ==> final(self).spec_get(k2) == old(self).spec_get(k2),
            old(self).spec_get(k@) is Some ==> final(self).keys() == old(self).keys(),
            old(self).spec_get(k@) is None ==> final(self).view_seq() == old(self).view_seq().push(
                (k@, v),
            ),
    {
        let ghost pre = self.view_seq();
        match self.find_key(k.as_str()) {
            Some(i) => {
                proof {
                    lemma_tbl_get_at(pre, i as int);
                }
                self.entries.set(i, (k, v));
                proof {
                    assert(self.view_seq() =~= pre.update(i as int, (pre[i as int].0, v)));
                    lemma_tbl_get_update(pre, i as int, v, k@);
                    assert forall|k2: Seq<char>| k2 != k@ implies #[trigger] self.spec_get(k2)
                        == tbl_get(pre, k2) by {
                        lemma_tbl_get_update(pre, i as int, v, k2);
                    }
                    assert(self.keys() =~= pre.map_values(|e: (Seq<char>, V)| e.0));
                    assert forall|a: int, b: int|
                        0 <= a < b < self.view_seq().len() implies self.view_seq()[a].0
                        != self.view_seq()[b].0 by {
                        assert(self.view_seq()[a].0 == pre[a].0);
                        assert(self.view_seq()[b].0 == pre[b].0);
                    }
                }
            },
            None => {
                proof {
                    lemma_tbl_get_membership(pre, k@);
                }
                self.entries.push((k, v));
                proof {
                    assert(self.view_seq() =~= pre.push((k@, v)));
                    lemma_tbl_get_push(pre, (k@, v), k@);
                    assert forall|k2: Seq<char>| k2 != k@ implies #[trigger] self.spec_get(k2)
                        == tbl_get(pre, k2) by {
                        lemma_tbl_get_push(pre, (k@, v), k2);
                    }
                    assert forall|a: int, b: int|
                        0 <= a < b < self.view_seq().len() implies self.view_seq()[a].0
                        != self.view_seq()[b].0 by {
                        if b < pre.len() {
                            assert(self.view_seq()[a].0 == pre[a].0);
                            assert(self.view_seq()[b].0 == pre[b].0);
                        } else {
                            assert(self.view_seq()[a].0 == pre[a].0);
                            assert(self.view_seq()[b].0 == k@);
                        }
                    }
                }
            },
        }
    }

    /// The key at position `i`.
    pub fn key_at(&self, i: usize) -> (r: &String)
        requires
            i < self.view_seq().len(),
        ensures
            r@ == self.view_seq()[i as int].0,
    {
        &self.entries[i].0
    }

    /// The value at position `i`.
    pub fn val_at(&self, i: usize) -> (r: &V)
        requires
            i < self.view_seq().len(),
        ensures
            *r == self.view_seq()[i as int].1,
    {
        &self.entries[i].1
    }

    /// Looking up the key at position `i` yields the value there.
    pub proof fn lemma_get_at(&self, i: int)
        requires
            self.wf(),
            0 <= i < self.view_seq().len(),
        ensures
            self.spec_get(self.view_seq()[i].0) == Some(self.view_seq()[i].1),
    {
        lemma_tbl_get_at(self.view_seq(), i);
    }

    /// A lookup succeeds exactly when some entry holds the key.
    pub proof fn lemma_membership(&self, k: Seq<char>)
        ensures
            self.spec_get(k) is Some <==> self.keys().contains(k),
    {
        lemma_tbl_get_membership(self.view_seq(), k);
        if self.spec_get(k) is Some {
            let i = choose|i: int|
                0 <= i < self.view_seq().len() && self.view_seq()[i].0 == k;
            assert(self.keys()[i] == k);
        }
        if self.keys().contains(k) {
            let i = choose|i: int| 0 <= i < self.keys().len() && self.keys()[i] == k;
            assert(self.view_seq()[i].0 == k);
        }
    }
}

/// An optional value, by view.
pub open spec fn view_opt<T: View>(o: Option<T>) -> Option<T::V> {
    match o {
        None => None,
        Some(x) => Some(x@),
    }
}

/// The value under key `k` in an association list, scanning from the back:
/// the binding of the latest insertion wins, as in a map filled by
/// overwriting inserts.
pub open spec fn tbl_get_last<V>(entries: Seq<(Seq<char>, V)>, k: Seq<char>) -> Option<V>
    decreases entries.len(),
{
    if entries.len() == 0 {
        None
    } else if entries.last().0 == k {
        Some(entries.last().1)
    } else {
        tbl_get_last(entries.drop_last(), k)
    }
}

/// The identifier a flag metric is registered under.
pub open spec fn metric_id_spec(service: Seq<char>, name: Seq<char>) -> Seq<char> {
    service + "."@ + name
}

/// The metric templates of a configuration, by view.
pub open spec fn templates_of(c: Config) -> Seq<(Seq<char>, BinaryMetricRawDefView)> {
    match c.metric_templates {
        None => Seq::empty(),
        Some(v) => v@.map_values(|p: (String, BinaryMetricRawDef)| (p.0@, p.1@)),
    }
}

/// The flag metric definitions of a configuration, by view.
pub open spec fn flag_defs_of(c: Config) -> Seq<FlagMetricDefView> {
    c.flag_metrics@.map_values(|d: FlagMetricDef| d@)
}

/// The health definitions of a configuration, by view.
pub open spec fn health_of(c: Config) -> Seq<(Seq<char>, ServiceHealthDefView)> {
    c.health_metrics@.map_values(|p: (String, ServiceHealthDef)| (p.0@, p.1@))
}

/// The first flag metric definition that registers `metric`: one with a
/// template whose identifier `service.name` equals `metric`.
pub open spec fn find_def(defs: Seq<FlagMetricDefView>, metric: Seq<char>) -> Option<
    FlagMetricDefView,
>
    decreases defs.len(),
{
    if defs.len() == 0 {
        None
    } else if defs[0].template is Some && metric_id_spec(defs[0].service, defs[0].name)
        == metric {
        Some(defs[0])
    } else {
        find_def(defs.drop_first(), metric)
    }
}

/// The last environment entry named `env`: later entries overwrite earlier
/// ones of the same name.
pub open spec fn find_env_last(envs: Seq<MetricEnvironmentDefView>, env: Seq<char>) -> Option<
    MetricEnvironmentDefView,
>
    decreases envs.len(),
{
    if envs.len() == 0 {
        None
    } else if envs.last().name == env {
        Some(envs.last())
    } else {
        find_env_last(envs.drop_last(), env)
    }
}

/// The compiled flag metric that the configuration assigns to
/// `(metric, env)`: the template's query with `$service` and `$environment`
/// substituted, the template's comparator, and the environment's threshold
/// override if one is given, else the template's threshold.
/// The flag metric one definition compiles for environment `env` from
/// template `t`: the substituted query, the template's comparator, and the
/// environment's threshold override if given, else the template's.
pub open spec fn env_model(
    envs: Seq<MetricEnvironmentDefView>,
    t: BinaryMetricRawDefView,
    service: Seq<char>,
    env: Seq<char>,
) -> Option<FlagMetricView> {
    match find_env_last(envs, env) {
        None => None,
        Some(e) => Some(
            FlagMetricView {
                query: text::subst_spec(t.query, service, e.name),
                op: t.op,
                threshold: if e.threshold is Some {
                    e.threshold->0
                } else {
                    t.threshold
                },
            },
        ),
    }
}

pub open spec fn expected_flag(
    defs: Seq<FlagMetricDefView>,
    templates: Seq<(Seq<char>, BinaryMetricRawDefView)>,
    metric: Seq<char>,
    env: Seq<char>,
) -> Option<FlagMetricView> {
    match find_def(defs, metric) {
        None => None,
        Some(d) => match tbl_get_last(templates, d.template->0.name) {
            None => None,
            Some(t) => env_model(d.environments, t, d.service, env),
        },
    }
}

/// The rewritten health definition an association list assigns to `k`.
pub open spec fn health_model(
    entries: Seq<(Seq<char>, ServiceHealthDefView)>,
    k: Seq<char>,
) -> Option<ServiceHealthDefView> {
    match tbl_get_last(entries, k) {
        None => None,
        Some(d) => Some(rewritten_health(d)),
    }
}

/// The compiled flag metric a nested table holds for `(metric, env)`.
pub open spec fn table_flag_at(
    t: Table<Table<FlagMetric>>,
    metric: Seq<char>,
    env: Seq<char>,
) -> Option<FlagMetricView> {
    match t.spec_get(metric) {
        None => None,
        Some(inner) => view_opt(inner.spec_get(env)),
    }
}

/// An expression with each hyphenated metric identifier rewritten to its
/// underscore form, metrics applied in declaration order.
pub open spec fn rewrite_expr_spec(metrics: Seq<Seq<char>>, e: Seq<char>) -> Seq<char>
    decreases metrics.len(),
{
    if metrics.len() == 0 {
        e
    } else {
        let e1 = if metrics[0].contains('-') {
            text::replace_spec(e, metrics[0], text::dash_to_underscore_spec(metrics[0]))
        } else {
            e
        };
        rewrite_expr_spec(metrics.drop_first(), e1)
    }
}

/// A health expression over one hyphenated metric identifier holds no
/// hyphen after the compile-time rewrite — hence no identifier with a
/// hyphen — when every hyphen of the expression lies inside a
/// non-overlapping occurrence of that identifier.
pub proof fn lemma_rewrite_single_metric_no_dash(e: Seq<char>, m: Seq<char>)
    requires
        m.contains('-'),
        text::dash_covered_from(e, m, 0),
        text::occs_disjoint(e, m),
    ensures
        text::no_dash(rewrite_expr_spec(seq![m], e)),
{
    text::lemma_replace_spec_no_dash(e, m);
    let e1 = text::replace_spec(e, m, text::dash_to_underscore_spec(m));
    assert(seq![m].drop_first() =~= Seq::<Seq<char>>::empty());
    assert(rewrite_expr_spec(seq![m], e) == rewrite_expr_spec(Seq::<Seq<char>>::empty(), e1));
    assert(rewrite_expr_spec(Seq::<Seq<char>>::empty(), e1) == e1);
}

/// A health definition after compile: same service, component, category and
/// metric list, each expression rewritten.
pub open spec fn rewritten_health(d: ServiceHealthDefView) -> ServiceHealthDefView {
    ServiceHealthDefView {
        service: d.service,
        component_name: d.component_name,
        category: d.category,
        metrics: d.metrics,
        expressions: d.expressions.map_values(
            |x: MetricExpressionDefView| MetricExpressionDefView {
                expression: rewrite_expr_spec(d.metrics, x.expression),
                weight: x.weight,
            },
        ),
    }
}

/// The first error that compiling the flag metrics meets, scanning the
/// definitions in order with `seen` the identifiers already registered:
/// a duplicate identifier, then a missing template.
pub open spec fn flag_compile_err(
    defs: Seq<FlagMetricDefView>,
    templates: Seq<(Seq<char>, BinaryMetricRawDefView)>,
    seen: Seq<Seq<char>>,
) -> Option<ConfigError>
    decreases defs.len(),
{
    if defs.len() == 0 {
        None
    } else {
        let d = defs[0];
        if d.template is Some {
            let id = metric_id_spec(d.service, d.name);
            if seen.contains(id) {
                Some(ConfigError::DuplicateMetric)
            } else if tbl_get_last(templates, d.template->0.name) is None {
                Some(ConfigError::UnknownTemplate)
            } else {
                flag_compile_err(defs.drop_first(), templates, seen.push(id))
            }
        } else {
            flag_compile_err(defs.drop_first(), templates, seen)
        }
    }
}

/// The first error that compiling the health definitions meets: a
/// duplicate key.
pub open spec fn health_compile_err(
    entries: Seq<(Seq<char>, ServiceHealthDefView)>,
    seen: Seq<Seq<char>>,
) -> Option<ConfigError>
    decreases entries.len(),
{
    if entries.len() == 0 {
        None
    } else if seen.contains(entries[0].0) {
        Some(ConfigError::DuplicateMetric)
    } else {
        health_compile_err(entries.drop_first(), seen.push(entries[0].0))
    }
}

/// The first error that compiling `c` meets, if any.
pub open spec fn compile_err_spec(c: Config) -> Option<ConfigError> {
    match flag_compile_err(flag_defs_of(c), templates_of(c), Seq::empty()) {
        Some(e) => Some(e),
        None => health_compile_err(health_of(c), Seq::empty()),
    }
}

/// The identifiers the flag metric definitions register, in order.
pub open spec fn flag_ids_of(defs: Seq<FlagMetricDefView>) -> Seq<Seq<char>>
    decreases defs.len(),
{
    if defs.len() == 0 {
        Seq::empty()
    } else {
        let rest = flag_ids_of(defs.drop_first());
        if defs[0].template is Some {
            seq![metric_id_spec(defs[0].service, defs[0].name)] + rest
        } else {
            rest
        }
    }
}

/// The views of a sequence of strings.
pub open spec fn str_views(v: Seq<String>) -> Seq<Seq<char>> {
    v.map_values(|s: String| s@)
}

/// The views of a sequence of environments.
pub open spec fn env_views(v: Seq<EnvironmentDef>) -> Seq<EnvironmentDefView> {
    v.map_values(|d: EnvironmentDef| d@)
}

/// The keys of an association list.
pub open spec fn keys_of<T>(entries: Seq<(Seq<char>, T)>) -> Seq<Seq<char>> {
    entries.map_values(|p: (Seq<char>, T)| p.0)
}

/// Extending the metric list by one appends its rewrite step at the end.
pub proof fn lemma_rewrite_push(ms: Seq<Seq<char>>, m: Seq<char>, e: Seq<char>)
    ensures
        rewrite_expr_spec(ms.push(m), e) == {
            let r = rewrite_expr_spec(ms, e);
            if m.contains('-') {
                text::replace_spec(r, m, text::dash_to_underscore_spec(m))
            } else {
                r
            }
        },
    decreases ms.len(),
{
    if ms.len() == 0 {
        assert(ms.push(m)[0] == m);
        assert(ms.push(m).drop_first() =~= Seq::<Seq<char>>::empty());
        let e1 = if m.contains('-') {
            text::replace_spec(e, m, text::dash_to_underscore_spec(m))
        } else {
            e
        };
        assert(rewrite_expr_spec(ms.push(m), e) == rewrite_expr_spec(
            ms.push(m).drop_first(),
            e1,
        ));
        assert(rewrite_expr_spec(Seq::<Seq<char>>::empty(), e1) == e1);
        assert(rewrite_expr_spec(ms, e) == e);
    } else {
        assert(ms.push(m)[0] == ms[0]);
        assert(ms.push(m).drop_first() =~= ms.drop_first().push(m));
        let e1 = if ms[0].contains('-') {
            text::replace_spec(e, ms[0], text::dash_to_underscore_spec(ms[0]))
        } else {
            e
        };
        lemma_rewrite_push(ms.drop_first(), m, e1);
        assert(rewrite_expr_spec(ms.push(m), e) == rewrite_expr_spec(
            ms.drop_first().push(m),
            e1,
        ));
        assert(rewrite_expr_spec(ms, e) == rewrite_expr_spec(ms.drop_first(), e1));
    }
}

/// Extending the definitions by one appends its identifier, if it has a
/// template, at the end of the registered identifiers.
pub proof fn lemma_flag_ids_push(defs: Seq<FlagMetricDefView>, d: FlagMetricDefView)
    ensures
        flag_ids_of(defs.push(d)) == if d.template is Some {
            flag_ids_of(defs).push(metric_id_spec(d.service, d.name))
        } else {
            flag_ids_of(defs)
        },
    decreases defs.len(),
{
    if defs.len() == 0 {
        assert(defs.push(d)[0] == d);
        assert(defs.push(d).drop_first() =~= Seq::<FlagMetricDefView>::empty());
        assert(flag_ids_of(defs.push(d)) == if d.template is Some {
            seq![metric_id_spec(d.service, d.name)] + flag_ids_of(defs.push(d).drop_first())
        } else {
            flag_ids_of(defs.push(d).drop_first())
        });
        assert(flag_ids_of(Seq::<FlagMetricDefView>::empty()) == Seq::<Seq<char>>::empty());
        if d.template is Some {
            assert(seq![metric_id_spec(d.service, d.name)]
                + Seq::<Seq<char>>::empty() =~= flag_ids_of(defs).push(
                metric_id_spec(d.service, d.name),
            ));
        }
    } else {
        assert(defs.push(d)[0] == defs[0]);
        assert(defs.push(d).drop_first() =~= defs.drop_first().push(d));
        lemma_flag_ids_push(defs.drop_first(), d);
        assert(flag_ids_of(defs.push(d)) == if defs[0].template is Some {
            seq![metric_id_spec(defs[0].service, defs[0].name)] + flag_ids_of(
                defs.drop_first().push(d),
            )
        } else {
            flag_ids_of(defs.drop_first().push(d))
        });
        assert(flag_ids_of(defs) == if defs[0].template is Some {
            seq![metric_id_spec(defs[0].service, defs[0].name)] + flag_ids_of(defs.drop_first())
        } else {
            flag_ids_of(defs.drop_first())
        });
        if d.template is Some {
            if defs[0].template is Some {
                assert(seq![metric_id_spec(defs[0].service, defs[0].name)] + flag_ids_of(
                    defs.drop_first(),
                ).push(metric_id_spec(d.service, d.name)) =~= (seq![
                    metric_id_spec(defs[0].service, defs[0].name),
                ] + flag_ids_of(defs.drop_first())).push(metric_id_spec(d.service, d.name)));
            }
        }
    }
}

/// The strings of `v`, cloned.
fn clone_strings(v: &Vec<String>) -> (r: Vec<String>)
    ensures
        str_views(r@) == str_views(v@),
{
    let mut r: Vec<String> = Vec::new();
    let mut i: usize = 0;
    while i < v.len()
        invariant
            i <= v@.len(),
            r@.len() == i,
            forall|j: int| 0 <= j < i ==> r@[j]@ == v@[j]@,
        decreases v@.len() - i,
    {
        let s = v[i].clone();
        assert(s == v@[i as int]);
        r.push(s);
        i = i + 1;
    }
    assert(str_views(r@) =~~= str_views(v@));
    r
}

/// The attribute pairs of `v`, cloned.
fn clone_pairs(v: &Vec<(String, String)>) -> (r: Vec<(String, String)>)
    ensures
        r@.map_values(|p: (String, String)| (p.0@, p.1@)) == v@.map_values(
            |p: (String, String)| (p.0@, p.1@),
        ),
{
    let mut r: Vec<(String, String)> = Vec::new();
    let mut i: usize = 0;
    while i < v.len()
        invariant
            i <= v@.len(),
            r@.len() == i,
            forall|j: int| 0 <= j < i ==> r@[j].0@ == v@[j].0@ && r@[j].1@ == v@[j].1@,
        decreases v@.len() - i,
    {
        let p = (v[i].0.clone(), v[i].1.clone());
        r.push(p);
        i = i + 1;
    }
    assert(r@.map_values(|p: (String, String)| (p.0@, p.1@)) =~~= v@.map_values(
        |p: (String, String)| (p.0@, p.1@),
    ));
    r
}

/// The environments of `v`, cloned.
fn clone_environments(v: &Vec<EnvironmentDef>) -> (r: Vec<EnvironmentDef>)
    ensures
        env_views(r@) == env_views(v@),
{
    let mut r: Vec<EnvironmentDef> = Vec::new();
    let mut i: usize = 0;
    while i < v.len()
        invariant
            i <= v@.len(),
            r@.len() == i,
            forall|j: int| 0 <= j < i ==> #[trigger] r@[j]@ == v@[j]@,
        decreases v@.len() - i,
    {
        let d = &v[i];
        let attributes = match &d.attributes {
            None => None,
            Some(pairs) => Some(clone_pairs(pairs)),
        };
        let nd = EnvironmentDef { name: d.name.clone(), attributes };
        assert(nd@ =~~= v@[i as int]@);
        r.push(nd);
        i = i + 1;
    }
    assert(env_views(r@) =~~= env_views(v@));
    r
}

/// Whether some string of `v` holds the characters of `s`.
fn contains_string(v: &Vec<String>, s: &str) -> (r: bool)
    ensures
        r == str_views(v@).contains(s@),
{
    let mut i: usize = 0;
    while i < v.len()
        invariant
            i <= v@.len(),
            forall|j: int| 0 <= j < i ==> str_views(v@)[j] != s@,
        decreases v@.len() - i,
    {
        if text::str_eq(v[i].as_str(), s) {
            assert(str_views(v@)[i as int] == s@);
            return true;
        }
        assert(str_views(v@)[i as int] != s@);
        i = i + 1;
    }
    false
}

/// Extending the definitions by one extends `find_def` at its end.
pub proof fn lemma_find_def_push(defs: Seq<FlagMetricDefView>, d: FlagMetricDefView, m: Seq<char>)
    ensures
        find_def(defs.push(d), m) == match find_def(defs, m) {
            Some(x) => Some(x),
            None => if d.template is Some && metric_id_spec(d.service, d.name) == m {
                Some(d)
            } else {
                None
            },
        },
    decreases defs.len(),
{
    if defs.len() == 0 {
        assert(defs.push(d)[0] == d);
        assert(defs.push(d).drop_first() =~= Seq::<FlagMetricDefView>::empty());
        assert(find_def(defs, m) is None);
        if !(d.template is Some && metric_id_spec(d.service, d.name) == m) {
            assert(find_def(defs.push(d), m) == find_def(defs.push(d).drop_first(), m));
        }
    } else {
        lemma_find_def_push(defs.drop_first(), d, m);
        assert(defs.push(d).drop_first() =~= defs.drop_first().push(d));
        assert(defs.push(d)[0] == defs[0]);
        if defs[0].template is Some && metric_id_spec(defs[0].service, defs[0].name) == m {
            assert(find_def(defs.push(d), m) == Some(defs[0]));
            assert(find_def(defs, m) == Some(defs[0]));
        } else {
            assert(find_def(defs.push(d), m) == find_def(defs.drop_first().push(d), m));
            assert(find_def(defs, m) == find_def(defs.drop_first(), m));
        }
    }
}

/// The compiled application state: the configuration and the tables built
/// from it. `flag_metrics` maps a metric identifier to its per-environment
/// compiled flag metrics; `health_metrics` maps a service identifier to its
/// rewritten health definition.
pub struct AppState {
    pub config: Config,
    pub metric_templates: Table<BinaryMetricRawDef>,
    pub flag_metrics: Table<Table<FlagMetric>>,
    pub health_metrics: Table<ServiceHealthDef>,
    pub environments: Vec<EnvironmentDef>,
    pub services: Vec<String>,
}

impl AppState {
    /// All tables well formed, inner flag tables included.
    pub open spec fn wf(&self) -> bool {
        &&& self.metric_templates.wf()
        &&& self.flag_metrics.wf()
        &&& forall|i: int|
            0 <= i < self.flag_metrics.vals().len() ==> (#[trigger] self.flag_metrics.vals()[i]).wf()
        &&& self.health_metrics.wf()
    }

    /// The compiled flag metric registered for `(metric, env)`, by view.
    pub open spec fn flag_at(&self, metric: Seq<char>, env: Seq<char>) -> Option<FlagMetricView> {
        table_flag_at(self.flag_metrics, metric, env)
    }

    /// The rewritten health definition registered for `service`, by view.
    pub open spec fn health_at(&self, service: Seq<char>) -> Option<ServiceHealthDefView> {
        view_opt(self.health_metrics.spec_get(service))
    }

    /// A fresh state around `config`, with empty tables.
    pub fn new(config: Config) -> (r: Self)
        ensures
            r.wf(),
            r.config == config,
            r.metric_templates.view_seq() == Seq::<(Seq<char>, BinaryMetricRawDef)>::empty(),
            r.flag_metrics.view_seq() == Seq::<(Seq<char>, Table<FlagMetric>)>::empty(),
            r.health_metrics.view_seq() == Seq::<(Seq<char>, ServiceHealthDef)>::empty(),
            r.environments@ == Seq::<EnvironmentDef>::empty(),
            r.services@ == Seq::<String>::empty(),
    {
        let r = AppState {
            config,
            metric_templates: Table::new(),
            flag_metrics: Table::new(),
            health_metrics: Table::new(),
            environments: Vec::new(),
            services: Vec::new(),
        };
        proof {
            assert(r.flag_metrics.vals() =~= Seq::<Table<FlagMetric>>::empty());
        }
        r
    }

    /// Compile the configuration: copy the templates, expand every flag
    /// metric over its environments with `$service` and `$environment`
    /// substituted and thresholds overridden, rewrite hyphenated metric
    /// identifiers in every health expression, collect the service set and
    /// the environments. Fails fast: a duplicate metric identifier or a
    /// reference to an unknown template aborts with the state unchanged.
    #[verifier::loop_isolation(false)]
    pub fn process_config(&mut self) -> (r: Result<(), ConfigError>)
        ensures
            final(self).config == old(self).config,
            r is Ok <==> compile_err_spec(old(self).config) is None,
            r matches Err(e) ==> compile_err_spec(old(self).config) == Some(e),
            r is Err ==> *final(self) == *old(self),
            r is Ok ==> final(self).wf(),
            r is Ok ==> forall|k: Seq<char>|
                view_opt(#[trigger] final(self).metric_templates.spec_get(k)) == tbl_get_last(
                    templates_of(old(self).config),
                    k,
                ),
            r is Ok ==> forall|m: Seq<char>|
                (#[trigger] final(self).flag_metrics.spec_get(m)) is Some <==> find_def(
                    flag_defs_of(old(self).config),
                    m,
                ) is Some,
            r is Ok ==> forall|m: Seq<char>, e: Seq<char>|
                #[trigger] final(self).flag_at(m, e) == expected_flag(
                    flag_defs_of(old(self).config),
                    templates_of(old(self).config),
                    m,
                    e,
                ),
            r is Ok ==> final(self).flag_metrics.keys() == flag_ids_of(
                flag_defs_of(old(self).config),
            ),
            r is Ok ==> forall|k: Seq<char>|
                #[trigger] final(self).health_at(k) == health_model(
                    health_of(old(self).config),
                    k,
                ),
            r is Ok ==> final(self).health_metrics.keys() == keys_of(health_of(old(self).config)),
            r is Ok ==> forall|sv: Seq<char>|
                #[trigger] str_views(final(self).services@).contains(sv) <==> exists|g: int|
                    0 <= g < flag_defs_of(old(self).config).len() && (#[trigger] flag_defs_of(
                        old(self).config,
                    )[g]).service == sv,
            r is Ok ==> forall|i: int, j: int|
                0 <= i < j < final(self).services@.len() ==> final(self).services@[i]@ != final(
                    self
                ).services@[j]@,
            r is Ok ==> env_views(final(self).environments@) == env_views(
                old(self).config.environments@,
            ),
    {
        let ghost t_model = templates_of(self.config);
        let ghost defs = flag_defs_of(self.config);
        let ghost hm = health_of(self.config);

        // Copy the metric templates into a lookup by name.
        let mut templates: Table<BinaryMetricRawDef> = Table::new();
        proof {
            assert(tbl_get_last(t_model.take(0), Seq::<char>::empty()) is None);
        }
        match &self.config.metric_templates {
            Some(tv) => {
                let mut i: usize = 0;
                while i < tv.len()
                    invariant
                        i <= tv@.len(),
                        templates.wf(),
                        forall|k: Seq<char>|
                            view_opt(#[trigger] templates.spec_get(k)) == tbl_get_last(
                                t_model.take(i as int),
                                k,
                            ),
                    decreases tv@.len() - i,
                {
                    let raw = BinaryMetricRawDef {
                        query: tv[i].1.query.clone(),
                        op: tv[i].1.op,
                        threshold: tv[i].1.threshold,
                    };
                    assert(raw@ =~= t_model[i as int].1);
                    templates.insert(tv[i].0.clone(), raw);
                    i = i + 1;
                    proof {
                        assert(t_model.take(i as int).last() == t_model[i - 1]);
                        assert(t_model.take(i as int).drop_last() =~= t_model.take(i - 1));
                        assert forall|k: Seq<char>|
                            view_opt(#[trigger] templates.spec_get(k)) == tbl_get_last(
                                t_model.take(i as int),
                                k,
                            ) by {
                            if k == t_model[i - 1].0 {
                            } else {
                            }
                        }
                    }
                }
                assert(t_model.take(tv@.len() as int) =~= t_model);
            },
            None => {
                proof {
                    assert forall|k: Seq<char>|
                        view_opt(#[trigger] templates.spec_get(k)) == tbl_get_last(
                            t_model,
                            k,
                        ) by {
                        assert(templates.spec_get(k) is None);
                        assert(t_model.len() == 0);
                    }
                }
            },
        }
        assert(forall|k: Seq<char>|
            view_opt(#[trigger] templates.spec_get(k)) == tbl_get_last(t_model, k));

        // Expand every flag metric over its environments, and collect the
        // service set.
        let mut flag_metrics: Table<Table<FlagMetric>> = Table::new();
        let mut services: Vec<String> = Vec::new();
        let mut f: usize = 0;
        proof {
            assert(flag_metrics.vals() =~= Seq::<Table<FlagMetric>>::empty());
            assert(flag_metrics.keys() =~= Seq::<Seq<char>>::empty());
            assert(defs.take(0) =~= Seq::<FlagMetricDefView>::empty());
            assert(defs.skip(0) =~= defs);
            assert(str_views(services@) =~= Seq::<Seq<char>>::empty());
        }
        while f < self.config.flag_metrics.len()
            invariant
                f <= defs.len(),
                flag_metrics.wf(),
                forall|x: int|
                    0 <= x < flag_metrics.vals().len() ==> (#[trigger] flag_metrics.vals()[x]).wf(),
                forall|m: Seq<char>|
                    (#[trigger] flag_metrics.spec_get(m)) is Some <==> find_def(
                        defs.take(f as int),
                        m,
                    ) is Some,
                forall|m: Seq<char>, e: Seq<char>|
                    #[trigger] table_flag_at(flag_metrics, m, e) == expected_flag(
                        defs.take(f as int),
                        t_model,
                        m,
                        e,
                    ),
                flag_metrics.keys() == flag_ids_of(defs.take(f as int)),
                flag_compile_err(defs, t_model, Seq::empty()) == flag_compile_err(
                    defs.skip(f as int),
                    t_model,
                    flag_metrics.keys(),
                ),
                forall|sv: Seq<char>|
                    #[trigger] str_views(services@).contains(sv) <==> exists|g: int|
                        0 <= g < f && (#[trigger] defs[g]).service == sv,
                forall|i: int, j: int|
                    0 <= i < j < services@.len() ==> services@[i]@ != services@[j]@,
            decreases defs.len() - f,
        {
            let fd = &self.config.flag_metrics[f];
            assert(fd@ == defs[f as int]);
            let ghost fdv = defs[f as int];
            proof {
                assert(defs.skip(f as int)[0] == fdv);
                assert(defs.skip(f as int).drop_first() =~= defs.skip(f as int + 1));
                assert(defs.take(f as int + 1) =~= defs.take(f as int).push(fdv));
            }
            match &fd.template {
                Some(tmpl_ref) => {
                    let id = text::concat3(fd.service.as_str(), ".", fd.name.as_str());
                    assert(id@ == metric_id_spec(fdv.service, fdv.name));
                    if flag_metrics.contains_key(id.as_str()) {
                        proof {
                            flag_metrics.lemma_membership(id@);
                            assert(flag_compile_err(defs.skip(f as int), t_model,
                                flag_metrics.keys()) == Some(ConfigError::DuplicateMetric));
                        }
                        return Err(ConfigError::DuplicateMetric);
                    }
                    proof {
                        flag_metrics.lemma_membership(id@);
                    }
                    let tmpl = match templates.get(tmpl_ref.name.as_str()) {
                        Some(t) => t,
                        None => {
                            proof {
                                assert(tbl_get_last(t_model, tmpl_ref.name@) is None);
                                assert(fdv.template->0.name == tmpl_ref.name@);
                                assert(flag_compile_err(defs.skip(f as int), t_model,
                                    flag_metrics.keys()) == Some(ConfigError::UnknownTemplate));
                            }
                            return Err(ConfigError::UnknownTemplate);
                        },
                    };
                    let ghost tview = tmpl@;
                    assert(tbl_get_last(t_model, fdv.template->0.name) == Some(tview));
                    let ghost envs = fdv.environments;
                    let mut inner: Table<FlagMetric> = Table::new();
                    let mut j: usize = 0;
                    proof {
                        assert(envs.take(0) =~= Seq::<MetricEnvironmentDefView>::empty());
                    }
                    while j < fd.environments.len()
                        invariant
                            j <= envs.len(),
                            inner.wf(),
                            forall|e: Seq<char>|
                                view_opt(#[trigger] inner.spec_get(e)) == env_model(
                                    envs.take(j as int),
                                    tview,
                                    fdv.service,
                                    e,
                                ),
                        decreases envs.len() - j,
                    {
                        let env = &fd.environments[j];
                        assert(env@ == envs[j as int]);
                        let threshold = match env.threshold {
                            Some(t) => t,
                            None => tmpl.threshold,
                        };
                        let query = text::substitute(
                            tmpl.query.as_str(),
                            fd.service.as_str(),
                            env.name.as_str(),
                        );
                        let fm = FlagMetric { query, op: tmpl.op, threshold };
                        assert(fm@ =~= env_model(
                            envs.take(j as int).push(envs[j as int]),
                            tview,
                            fdv.service,
                            envs[j as int].name,
                        )->0) by {
                            let pushed = envs.take(j as int).push(envs[j as int]);
                            assert(pushed.last() == envs[j as int]);
                        }
                        inner.insert(env.name.clone(), fm);
                        j = j + 1;
                        proof {
                            assert(envs.take(j as int) =~= envs.take(j - 1).push(envs[j - 1]));
                            assert(envs.take(j as int).last() == envs[j - 1]);
                            assert(envs.take(j as int).drop_last() =~= envs.take(j - 1));
                            assert forall|e: Seq<char>|
                                view_opt(#[trigger] inner.spec_get(e)) == env_model(
                                    envs.take(j as int),
                                    tview,
                                    fdv.service,
                                    e,
                                ) by {
                                if e == envs[j - 1].name {
                                } else {
                                }
                            }
                        }
                    }
                    assert(envs.take(envs.len() as int) =~= envs);
                    let ghost pre_flag = flag_metrics;
                    flag_metrics.insert(id, inner);
                    proof {
                        lemma_find_def_push(defs.take(f as int), fdv, id@);
                        lemma_flag_ids_push(defs.take(f as int), fdv);
                        assert(flag_metrics.keys() =~= pre_flag.keys().push(id@));
                        assert(flag_metrics.keys() == flag_ids_of(defs.take(f as int + 1)));
                        assert(flag_metrics.vals() =~= pre_flag.vals().push(inner));
                        assert(flag_compile_err(defs.skip(f as int + 1), t_model,
                            flag_metrics.keys()) == flag_compile_err(defs.skip(f as int),
                            t_model, pre_flag.keys()));
                        assert forall|m: Seq<char>|
                            (#[trigger] flag_metrics.spec_get(m)) is Some <==> find_def(
                                defs.take(f as int + 1),
                                m,
                            ) is Some by {
                            lemma_find_def_push(defs.take(f as int), fdv, m);
                        }
                        assert forall|m: Seq<char>, e: Seq<char>|
                            #[trigger] table_flag_at(flag_metrics, m, e) == expected_flag(
                                defs.take(f as int + 1),
                                t_model,
                                m,
                                e,
                            ) by {
                            lemma_find_def_push(defs.take(f as int), fdv, m);
                            if m == id@ {
                                assert(flag_metrics.spec_get(m) == Some(inner));
                                assert(find_def(defs.take(f as int + 1), m) == Some(fdv));
                                assert(view_opt(inner.spec_get(e)) == env_model(
                                    envs.take(envs.len() as int),
                                    tview,
                                    fdv.service,
                                    e,
                                ));
                            } else {
                                assert(flag_metrics.spec_get(m) == pre_flag.spec_get(m));
                                assert(table_flag_at(pre_flag, m, e) == expected_flag(
                                    defs.take(f as int),
                                    t_model,
                                    m,
                                    e,
                                ));
                            }
                        }
                    }
                },
                None => {
                    proof {
                        assert(defs.take(f as int + 1) =~= defs.take(f as int).push(fdv));
                        lemma_flag_ids_push(defs.take(f as int), fdv);
                        assert forall|m: Seq<char>|
                            (#[trigger] flag_metrics.spec_get(m)) is Some <==> find_def(
                                defs.take(f as int + 1),
                                m,
                            ) is Some by {
                            lemma_find_def_push(defs.take(f as int), fdv, m);
                        }
                        assert forall|m: Seq<char>, e: Seq<char>|
                            #[trigger] table_flag_at(flag_metrics, m, e) == expected_flag(
                                defs.take(f as int + 1),
                                t_model,
                                m,
                                e,
                            ) by {
                            lemma_find_def_push(defs.take(f as int), fdv, m);
                        }
                    }
                },
            }
            let ghost pre_services = services@;
            if !contains_string(&services, fd.service.as_str()) {
                services.push(fd.service.clone());
                proof {
                    assert forall|sv: Seq<char>|
                        #[trigger] str_views(services@).contains(sv) <==> (exists|g: int|
                            0 <= g < f + 1 && (#[trigger] defs[g]).service == sv) by {
                        if sv == fdv.service {
                            assert(str_views(services@)[services@.len() - 1] == sv);
                            assert(str_views(services@).contains(sv));
                        } else {
                            if str_views(services@).contains(sv) {
                                let x = choose|x: int|
                                    0 <= x < str_views(services@).len() && str_views(services@)[x]
                                        == sv;
                                assert(str_views(pre_services)[x] == sv);
                                assert(str_views(pre_services).contains(sv));
                            }
                            if exists|g: int| 0 <= g < f + 1 && (#[trigger] defs[g]).service
                                == sv {
                                let g = choose|g: int|
                                    0 <= g < f + 1 && (#[trigger] defs[g]).service == sv;
                                assert(g < f);
                                assert(str_views(pre_services).contains(sv));
                                let x = choose|x: int|
                                    0 <= x < str_views(pre_services).len() && str_views(
                                        pre_services,
                                    )[x] == sv;
                                assert(str_views(services@)[x] == sv);
                            }
                        }
                    }
                    assert forall|i: int, j: int|
                        0 <= i < j < services@.len() implies services@[i]@ != services@[j]@ by {
                        if j == services@.len() - 1 {
                            assert(str_views(pre_services)[i] == services@[i]@);
                            assert(services@[j]@ == fdv.service);
                            if services@[i]@ == fdv.service {
                                assert(str_views(pre_services).contains(fdv.service));
                            }
                        } else {
                            assert(services@[i]@ == pre_services[i]@);
                            assert(services@[j]@ == pre_services[j]@);
                        }
                    }
                }
            } else {
                proof {
                    assert forall|sv: Seq<char>|
                        #[trigger] str_views(services@).contains(sv) <==> (exists|g: int|
                            0 <= g < f + 1 && (#[trigger] defs[g]).service == sv) by {
                        if sv == fdv.service {
                            assert(defs[f as int].service == sv);
                        }
                    }
                }
            }
            f = f + 1;
        }
        proof {
            assert(defs.take(defs.len() as int) =~= defs);
            assert(defs.skip(defs.len() as int) =~= Seq::<FlagMetricDefView>::empty());
            assert(flag_compile_err(defs, t_model, Seq::empty()) is None);
        }

        // Rewrite and register the health definitions.
        let mut health: Table<ServiceHealthDef> = Table::new();
        let mut h: usize = 0;
        proof {
            assert(hm.take(0) =~= Seq::<(Seq<char>, ServiceHealthDefView)>::empty());
            assert(hm.skip(0) =~= hm);
            assert(health.keys() =~= Seq::<Seq<char>>::empty());
            assert(keys_of(hm.take(0)) =~= Seq::<Seq<char>>::empty());
        }
        while h < self.config.health_metrics.len()
            invariant
                h <= hm.len(),
                health.wf(),
                forall|k: Seq<char>|
                    view_opt(#[trigger] health.spec_get(k)) == health_model(hm.take(h as int), k),
                health.keys() == keys_of(hm.take(h as int)),
                health_compile_err(hm, Seq::empty()) == health_compile_err(
                    hm.skip(h as int),
                    health.keys(),
                ),
            decreases hm.len() - h,
        {
            let key = &self.config.health_metrics[h].0;
            let raw = &self.config.health_metrics[h].1;
            let ghost rview = raw@;
            proof {
                assert((key@, rview) == hm[h as int]);
                assert(hm.skip(h as int)[0] == hm[h as int]);
                assert(hm.skip(h as int).drop_first() =~= hm.skip(h as int + 1));
            }
            if health.contains_key(key.as_str()) {
                proof {
                    health.lemma_membership(key@);
                    assert(health_compile_err(hm.skip(h as int), health.keys()) == Some(
                        ConfigError::DuplicateMetric,
                    ));
                }
                return Err(ConfigError::DuplicateMetric);
            }
            proof {
                health.lemma_membership(key@);
            }
            let mut rewritten_exprs: Vec<MetricExpressionDef> = Vec::new();
            let mut x: usize = 0;
            while x < raw.expressions.len()
                invariant
                    x <= rview.expressions.len(),
                    rewritten_exprs@.len() == x,
                    forall|y: int|
                        0 <= y < x ==> (#[trigger] rewritten_exprs@[y])@
                            == (MetricExpressionDefView {
                            expression: rewrite_expr_spec(
                                rview.metrics,
                                rview.expressions[y].expression,
                            ),
                            weight: rview.expressions[y].weight,
                        }),
                decreases rview.expressions.len() - x,
            {
                let ghost orig = rview.expressions[x as int].expression;
                let mut etext: String = raw.expressions[x].expression.clone();
                let mut mi: usize = 0;
                proof {
                    assert(rview.metrics.take(0) =~= Seq::<Seq<char>>::empty());
                    assert(rewrite_expr_spec(rview.metrics.take(0), orig) == orig);
                }
                while mi < raw.metrics.len()
                    invariant
                        mi <= rview.metrics.len(),
                        etext@ == rewrite_expr_spec(rview.metrics.take(mi as int), orig),
                    decreases rview.metrics.len() - mi,
                {
                    let m = &raw.metrics[mi];
                    assert(m@ == rview.metrics[mi as int]);
                    if text::has_dash(m.as_str()) {
                        let repl = text::dash_to_underscore(m.as_str());
                        assert(m@.len() > 0) by {
                            assert(m@.contains('-'));
                        }
                        etext = text::replace_all(etext.as_str(), m.as_str(), repl.as_str());
                    }
                    mi = mi + 1;
                    proof {
                        lemma_rewrite_push(
                            rview.metrics.take(mi - 1),
                            rview.metrics[mi - 1],
                            orig,
                        );
                        assert(rview.metrics.take(mi as int) =~= rview.metrics.take(
                            mi - 1,
                        ).push(rview.metrics[mi - 1]));
                    }
                }
                assert(rview.metrics.take(rview.metrics.len() as int) =~= rview.metrics);
                rewritten_exprs.push(
                    MetricExpressionDef { expression: etext, weight: raw.expressions[x].weight },
                );
                x = x + 1;
            }
            let def = ServiceHealthDef {
                service: raw.service.clone(),
                component_name: match &raw.component_name {
                    Some(n) => Some(n.clone()),
                    None => None,
                },
                category: raw.category.clone(),
                metrics: clone_strings(&raw.metrics),
                expressions: rewritten_exprs,
            };
            assert(def@ =~~= rewritten_health(rview)) by {
                assert(str_views(def.metrics@) == str_views(raw.metrics@));
                assert forall|y: int|
                    0 <= y < def.metrics@.len() implies (#[trigger] def.metrics@[y])@
                    == rview.metrics[y] by {
                    assert(str_views(def.metrics@)[y] == str_views(raw.metrics@)[y]);
                }
                assert(def@.metrics =~~= rview.metrics);
                assert(def@.expressions =~~= rewritten_health(rview).expressions);
            }
            let ghost pre_health = health;
            health.insert(key.clone(), def);
            h = h + 1;
            proof {
                assert(hm.take(h as int) =~= hm.take(h - 1).push(hm[h - 1]));
                assert(hm.take(h as int).last() == hm[h - 1]);
                assert(hm.take(h as int).drop_last() =~= hm.take(h - 1));
                assert(health.keys() =~= pre_health.keys().push(key@));
                assert(keys_of(hm.take(h as int)) =~= keys_of(hm.take(h - 1)).push(key@));
                assert(health.keys() == keys_of(hm.take(h as int)));
                assert(health_compile_err(hm.skip(h as int), health.keys())
                    == health_compile_err(hm.skip(h - 1), pre_health.keys()));
                assert forall|k: Seq<char>|
                    view_opt(#[trigger] health.spec_get(k)) == health_model(
                        hm.take(h as int),
                        k,
                    ) by {
                    if k == key@ {
                        assert(view_opt(health.spec_get(k)) == Some(def@));
                    } else {
                    }
                }
            }
        }
        proof {
            assert(hm.take(hm.len() as int) =~= hm);
            assert(hm.skip(hm.len() as int) =~= Seq::<(Seq<char>, ServiceHealthDefView)>::empty());
            assert(health_compile_err(hm, Seq::empty()) is None);
        }

        let environments = clone_environments(&self.config.environments);
        self.metric_templates = templates;
        self.flag_metrics = flag_metrics;
        self.health_metrics = health;
        self.environments = environments;
        self.services = services;
        Ok(())
    }
}

} // verus!
