//! Status dashboard integration: components, the component-id cache with
//! subset attribute matching, incident construction with the one-second
//! timestamp shift, and bearer authentication.

use crate::text;
use hmac::Mac;
use jwt::SignWithKey;
use vstd::prelude::*;

verus! {

/// Component attribute (key-value pair) for identifying components.
#[derive(Clone, Debug)]
pub struct ComponentAttribute {
    pub name: String,
    pub value: String,
}

impl View for ComponentAttribute {
    type V = (Seq<char>, Seq<char>);

    open spec fn view(&self) -> (Seq<char>, Seq<char>) {
        (self.name@, self.value@)
    }
}

/// The views of an attribute list.
pub open spec fn attr_views(s: Seq<ComponentAttribute>) -> Seq<(Seq<char>, Seq<char>)> {
    s.map_values(|a: ComponentAttribute| a@)
}

/// A component target derived from configuration: a dashboard component
/// name plus the environment's identifying attributes.
#[derive(Clone, Debug)]
pub struct Component {
    pub name: String,
    pub attributes: Vec<ComponentAttribute>,
}

/// Mathematical model of a [`Component`].
#[verifier::ext_equal]
pub struct ComponentView {
    pub name: Seq<char>,
    pub attributes: Seq<(Seq<char>, Seq<char>)>,
}

impl View for Component {
    type V = ComponentView;

    open spec fn view(&self) -> ComponentView {
        ComponentView { name: self.name@, attributes: attr_views(self.attributes@) }
    }
}

/// A component status report of the legacy v1 form.
#[derive(Clone, Debug)]
pub struct ComponentStatus {
    pub name: String,
    pub impact: u8,
    pub attributes: Vec<ComponentAttribute>,
}

/// A component as the dashboard's component listing returns it.
#[derive(Clone, Debug)]
pub struct StatusDashboardComponent {
    pub id: u32,
    pub name: String,
    pub attributes: Vec<ComponentAttribute>,
}

/// Mathematical model of a [`StatusDashboardComponent`].
#[verifier::ext_equal]
pub struct StatusDashboardComponentView {
    pub id: u32,
    pub name: Seq<char>,
    pub attributes: Seq<(Seq<char>, Seq<char>)>,
}

impl View for StatusDashboardComponent {
    type V = StatusDashboardComponentView;

    open spec fn view(&self) -> StatusDashboardComponentView {
        StatusDashboardComponentView {
            id: self.id,
            name: self.name@,
            attributes: attr_views(self.attributes@),
        }
    }
}

/// The views of a component listing.
pub open spec fn component_views(s: Seq<StatusDashboardComponent>) -> Seq<
    StatusDashboardComponentView,
> {
    s.map_values(|c: StatusDashboardComponent| c@)
}

/// An incident as posted to the dashboard.
#[derive(Clone, Debug)]
pub struct IncidentData {
    pub title: String,
    pub description: String,
    pub impact: u8,
    pub components: Vec<u32>,
    pub start_date: String,
    pub system: bool,
    pub incident_type: String,
}

/// Mathematical model of an [`IncidentData`].
#[verifier::ext_equal]
pub struct IncidentDataView {
    pub title: Seq<char>,
    pub description: Seq<char>,
    pub impact: u8,
    pub components: Seq<u32>,
    pub start_date: Seq<char>,
    pub system: bool,
    pub incident_type: Seq<char>,
}

impl View for IncidentData {
    type V = IncidentDataView;

    open spec fn view(&self) -> IncidentDataView {
        IncidentDataView {
            title: self.title@,
            description: self.description@,
            impact: self.impact,
            components: self.components@,
            start_date: self.start_date@,
            system: self.system,
            incident_type: self.incident_type@,
        }
    }
}

/// One cache binding: a component's name and attributes, and its id.
#[derive(Clone, Debug)]
pub struct CacheEntry {
    pub name: String,
    pub attributes: Vec<ComponentAttribute>,
    pub id: u32,
}

/// The canonical form of an attribute list: its set of `(name, value)`
/// pairs — the order the attributes are written in does not matter.
pub open spec fn attr_set(s: Seq<ComponentAttribute>) -> Set<(Seq<char>, Seq<char>)> {
    attr_views(s).to_set()
}

/// Mathematical model of a [`CacheEntry`]: the key is the name together
/// with the attribute set.
#[verifier::ext_equal]
pub struct CacheEntryView {
    pub name: Seq<char>,
    pub attributes: Set<(Seq<char>, Seq<char>)>,
    pub id: u32,
}

impl View for CacheEntry {
    type V = CacheEntryView;

    open spec fn view(&self) -> CacheEntryView {
        CacheEntryView { name: self.name@, attributes: attr_set(self.attributes@), id: self.id }
    }
}

/// The component-id cache: one entry per distinct `(name, attribute set)`
/// key of the last listing, the latest listed id winning for each key.
pub struct ComponentCache {
    pub entries: Vec<CacheEntry>,
}

/// The views of a cache.
pub open spec fn cache_views(c: ComponentCache) -> Seq<CacheEntryView> {
    c.entries@.map_values(|e: CacheEntry| e@)
}

/// Attribute-set containment: every target attribute appears in the
/// entry's attribute set.
pub open spec fn attrs_subset(
    target: Seq<(Seq<char>, Seq<char>)>,
    entry: Set<(Seq<char>, Seq<char>)>,
) -> bool {
    forall|i: int| 0 <= i < target.len() ==> entry.contains(#[trigger] target[i])
}

/// Mutual containment of two attribute lists is exactly equality of their
/// attribute sets.
pub proof fn lemma_mutual_inclusion_is_set_equality(
    a: Seq<ComponentAttribute>,
    b: Seq<ComponentAttribute>,
)
    ensures
        (attrs_subset(attr_views(a), attr_set(b)) && attrs_subset(attr_views(b), attr_set(a)))
            <==> attr_set(a) == attr_set(b),
{
    if attrs_subset(attr_views(a), attr_set(b)) && attrs_subset(attr_views(b), attr_set(a)) {
        assert forall|x: (Seq<char>, Seq<char>)|
            attr_set(a).contains(x) implies attr_set(b).contains(x) by {
            let i = choose|i: int| 0 <= i < attr_views(a).len() && attr_views(a)[i] == x;
            assert(attr_set(b).contains(attr_views(a)[i]));
        }
        assert forall|x: (Seq<char>, Seq<char>)|
            attr_set(b).contains(x) implies attr_set(a).contains(x) by {
            let i = choose|i: int| 0 <= i < attr_views(b).len() && attr_views(b)[i] == x;
            assert(attr_set(a).contains(attr_views(b)[i]));
        }
        assert(attr_set(a) =~= attr_set(b));
    }
    if attr_set(a) == attr_set(b) {
        assert forall|i: int|
            0 <= i < attr_views(a).len() implies attr_set(b).contains(
            #[trigger] attr_views(a)[i],
        ) by {
            assert(attr_views(a).contains(attr_views(a)[i]));
        }
        assert forall|i: int|
            0 <= i < attr_views(b).len() implies attr_set(a).contains(
            #[trigger] attr_views(b)[i],
        ) by {
            assert(attr_views(b).contains(attr_views(b)[i]));
        }
    }
}

/// The first cache position holding the `(name, attribute set)` key, or
/// a negative answer when none does.
pub open spec fn cache_key_index(
    entries: Seq<CacheEntryView>,
    name: Seq<char>,
    attrs: Set<(Seq<char>, Seq<char>)>,
) -> int
    decreases entries.len(),
{
    if entries.len() == 0 {
        -1
    } else if entries[0].name == name && entries[0].attributes == attrs {
        0
    } else {
        let r = cache_key_index(entries.drop_first(), name, attrs);
        if r < 0 {
            -1
        } else {
            r + 1
        }
    }
}

/// The position a forward scan stops at pins `cache_key_index` down.
pub proof fn lemma_cache_key_index_at(
    entries: Seq<CacheEntryView>,
    name: Seq<char>,
    attrs: Set<(Seq<char>, Seq<char>)>,
    k: int,
)
    requires
        0 <= k <= entries.len(),
        forall|j: int|
            0 <= j < k ==> !((#[trigger] entries[j]).name == name && entries[j].attributes
                == attrs),
        k == entries.len() || (entries[k].name == name && entries[k].attributes == attrs),
    ensures
        cache_key_index(entries, name, attrs) == if k == entries.len() {
            -1
        } else {
            k
        },
    decreases entries.len(),
{
    if entries.len() > 0 {
        if k == 0 {
        } else {
            assert forall|j: int|
                0 <= j < k - 1 implies !((#[trigger] entries.drop_first()[j]).name == name
                && entries.drop_first()[j].attributes == attrs) by {
                assert(entries.drop_first()[j] == entries[j + 1]);
            }
            if k < entries.len() {
                assert(entries.drop_first()[k - 1] == entries[k]);
            }
            lemma_cache_key_index_at(entries.drop_first(), name, attrs, k - 1);
        }
    }
}

/// The cache a listing folds to, component by component: a component whose
/// `(name, attribute set)` key is already held overwrites that entry's id
/// in place — the latest listing of a key wins, as in a map filled by
/// inserts — and a fresh key is appended in listing order.
pub open spec fn cache_fold(
    comps: Seq<StatusDashboardComponentView>,
    i: int,
    acc: Seq<CacheEntryView>,
) -> Seq<CacheEntryView>
    decreases comps.len() - i,
{
    if i < 0 || i >= comps.len() {
        acc
    } else {
        let entry = CacheEntryView {
            name: comps[i].name,
            attributes: comps[i].attributes.to_set(),
            id: comps[i].id,
        };
        let k = cache_key_index(acc, entry.name, entry.attributes);
        let acc1 = if k >= 0 {
            acc.update(k, entry)
        } else {
            acc.push(entry)
        };
        cache_fold(comps, i + 1, acc1)
    }
}

/// The attribute set is the canonical key: two listings equal up to
/// reordering each component's attribute list build equal caches.
pub proof fn lemma_cache_ignores_attribute_order(
    a: Seq<StatusDashboardComponentView>,
    b: Seq<StatusDashboardComponentView>,
    i: int,
    acc: Seq<CacheEntryView>,
)
    requires
        a.len() == b.len(),
        forall|j: int|
            0 <= j < a.len() ==> (#[trigger] a[j]).id == b[j].id && a[j].name == b[j].name && a[
                j
            ].attributes.to_set() == b[j].attributes.to_set(),
        0 <= i,
    ensures
        cache_fold(a, i, acc) == cache_fold(b, i, acc),
    decreases a.len() - i,
{
    if i < a.len() {
        let entry_a = CacheEntryView {
            name: a[i].name,
            attributes: a[i].attributes.to_set(),
            id: a[i].id,
        };
        let entry_b = CacheEntryView {
            name: b[i].name,
            attributes: b[i].attributes.to_set(),
            id: b[i].id,
        };
        assert(entry_a == entry_b);
        let k = cache_key_index(acc, entry_a.name, entry_a.attributes);
        let acc1 = if k >= 0 {
            acc.update(k, entry_a)
        } else {
            acc.push(entry_a)
        };
        lemma_cache_ignores_attribute_order(a, b, i + 1, acc1);
    }
}

/// The id of the first cache entry whose name matches the target's and
/// whose attribute set contains the target's attributes.
pub open spec fn find_component_spec(entries: Seq<CacheEntryView>, t: ComponentView) -> Option<
    u32,
>
    decreases entries.len(),
{
    if entries.len() == 0 {
        None
    } else if entries[0].name == t.name && attrs_subset(t.attributes, entries[0].attributes) {
        Some(entries[0].id)
    } else {
        find_component_spec(entries.drop_first(), t)
    }
}

/// A lookup succeeds exactly when some entry matches by name and attribute
/// containment, and then yields a matching entry's id.
pub proof fn lemma_find_component_characterizes(entries: Seq<CacheEntryView>, t: ComponentView)
    ensures
        match find_component_spec(entries, t) {
            Some(id) => exists|i: int|
                0 <= i < entries.len() && (#[trigger] entries[i]).name == t.name && attrs_subset(
                    t.attributes,
                    entries[i].attributes,
                ) && entries[i].id == id,
            None => forall|i: int|
                0 <= i < entries.len() ==> !((#[trigger] entries[i]).name == t.name
                    && attrs_subset(t.attributes, entries[i].attributes)),
        },
    decreases entries.len(),
{
    if entries.len() > 0 {
        lemma_find_component_characterizes(entries.drop_first(), t);
        if entries[0].name == t.name && attrs_subset(t.attributes, entries[0].attributes) {
        } else {
            match find_component_spec(entries.drop_first(), t) {
                Some(id) => {
                    let i = choose|i: int|
                        0 <= i < entries.drop_first().len() && (#[trigger] entries.drop_first()[
                            i
                        ]).name == t.name && attrs_subset(
                            t.attributes,
                            entries.drop_first()[i].attributes,
                        ) && entries.drop_first()[i].id == id;
                    assert(entries[i + 1] == entries.drop_first()[i]);
                },
                None => {
                    assert forall|i: int|
                        0 <= i < entries.len() implies !((#[trigger] entries[i]).name == t.name
                        && attrs_subset(t.attributes, entries[i].attributes)) by {
                        if i > 0 {
                            assert(entries.drop_first()[i - 1] == entries[i]);
                        }
                    }
                },
            }
        }
    }
}

/// Whether the attribute pair appears in the list.
fn attrs_contains(attrs: &Vec<ComponentAttribute>, name: &String, value: &String) -> (r: bool)
    ensures
        r == attr_set(attrs@).contains((name@, value@)),
{
    let mut k: usize = 0;
    while k < attrs.len()
        invariant
            k <= attrs@.len(),
            forall|j: int| 0 <= j < k ==> attr_views(attrs@)[j] != (name@, value@),
        decreases attrs@.len() - k,
    {
        if text::str_eq(attrs[k].name.as_str(), name.as_str()) && text::str_eq(
            attrs[k].value.as_str(),
            value.as_str(),
        ) {
            assert(attr_views(attrs@)[k as int] == (name@, value@));
            assert(attr_views(attrs@).contains((name@, value@)));
            return true;
        }
        assert(attr_views(attrs@)[k as int] != (name@, value@));
        k = k + 1;
    }
    assert(!attr_views(attrs@).contains((name@, value@)));
    false
}

/// Whether every attribute of `target` appears in `entry`'s attribute set.
fn attrs_is_subset(target: &Vec<ComponentAttribute>, entry: &Vec<ComponentAttribute>) -> (r:
    bool)
    ensures
        r == attrs_subset(attr_views(target@), attr_set(entry@)),
{
    let mut i: usize = 0;
    while i < target.len()
        invariant
            i <= target@.len(),
            forall|j: int|
                0 <= j < i ==> attr_set(entry@).contains(#[trigger] attr_views(target@)[j]),
        decreases target@.len() - i,
    {
        if !attrs_contains(entry, &target[i].name, &target[i].value) {
            assert(attr_views(target@)[i as int] == (target@[i as int].name@, target@[
                i as int
            ].value@));
            return false;
        }
        assert(attr_views(target@)[i as int] == (target@[i as int].name@, target@[
            i as int
        ].value@));
        i = i + 1;
    }
    true
}

/// Whether the entry holds exactly this `(name, attribute set)` key.
fn entry_key_matches(entry: &CacheEntry, name: &String, attrs: &Vec<ComponentAttribute>) -> (r:
    bool)
    ensures
        r == (entry@.name == name@ && entry@.attributes == attr_set(attrs@)),
{
    proof {
        lemma_mutual_inclusion_is_set_equality(attrs@, entry.attributes@);
    }
    text::str_eq(entry.name.as_str(), name.as_str()) && attrs_is_subset(attrs, &entry.attributes)
        && attrs_is_subset(&entry.attributes, attrs)
}

/// Build the component-id cache from a component listing: one entry per
/// distinct `(name, attribute set)` key, in first-appearance order; a later
/// component with an already-held key overwrites that entry's id, so the
/// latest listing of a key wins.
pub fn build_component_id_cache(components: Vec<StatusDashboardComponent>) -> (r: ComponentCache)
    ensures
        cache_views(r) == cache_fold(component_views(components@), 0, Seq::empty()),
{
    let ghost comps = component_views(components@);
    let mut entries: Vec<CacheEntry> = Vec::new();
    let mut i: usize = 0;
    proof {
        assert(cache_views(ComponentCache { entries }) =~= Seq::<CacheEntryView>::empty());
    }
    while i < components.len()
        invariant
            i <= comps.len(),
            comps == component_views(components@),
            comps.len() == components@.len(),
            cache_fold(comps, 0, Seq::empty()) == cache_fold(
                comps,
                i as int,
                entries@.map_values(|e: CacheEntry| e@),
            ),
        decreases comps.len() - i,
    {
        let ghost acc = entries@.map_values(|e: CacheEntry| e@);
        let c = &components[i];
        let mut attrs: Vec<ComponentAttribute> = Vec::new();
        let mut k: usize = 0;
        while k < c.attributes.len()
            invariant
                k <= c.attributes@.len(),
                attrs@.len() == k,
                forall|j: int| 0 <= j < k ==> (#[trigger] attrs@[j])@ == c.attributes@[j]@,
            decreases c.attributes@.len() - k,
        {
            attrs.push(
                ComponentAttribute {
                    name: c.attributes[k].name.clone(),
                    value: c.attributes[k].value.clone(),
                },
            );
            k = k + 1;
        }
        assert(attr_views(attrs@) =~= attr_views(c.attributes@));
        let name = c.name.clone();
        let ghost eview = CacheEntryView {
            name: comps[i as int].name,
            attributes: comps[i as int].attributes.to_set(),
            id: comps[i as int].id,
        };
        assert(attr_set(attrs@) == eview.attributes);
        let mut pos: usize = 0;
        let mut found = false;
        while pos < entries.len() && !found
            invariant
                pos <= entries@.len(),
                acc == entries@.map_values(|e: CacheEntry| e@),
                acc.len() == entries@.len(),
                attr_set(attrs@) == eview.attributes,
                name@ == eview.name,
                forall|j: int|
                    0 <= j < pos ==> !((#[trigger] acc[j]).name == eview.name && acc[j].attributes
                        == eview.attributes),
                found ==> pos < entries@.len() && acc[pos as int].name == eview.name && acc[
                    pos as int
                ].attributes == eview.attributes,
            decreases entries@.len() - pos, (if found { 0int } else { 1int }),
        {
            assert(entries@[pos as int]@ == acc[pos as int]);
            if entry_key_matches(&entries[pos], &name, &attrs) {
                found = true;
            } else {
                pos = pos + 1;
            }
        }
        let entry = CacheEntry { name, attributes: attrs, id: c.id };
        assert(entry@ == eview);
        proof {
            lemma_cache_key_index_at(acc, eview.name, eview.attributes, pos as int);
        }
        if found {
            entries.set(pos, entry);
            proof {
                assert(entries@.map_values(|e: CacheEntry| e@) =~= acc.update(pos as int, eview));
            }
        } else {
            entries.push(entry);
            proof {
                assert(entries@.map_values(|e: CacheEntry| e@) =~= acc.push(eview));
            }
        }
        i = i + 1;
    }
    proof {
        assert(cache_fold(comps, i as int, entries@.map_values(|e: CacheEntry| e@))
            == entries@.map_values(|e: CacheEntry| e@));
    }
    let r = ComponentCache { entries };
    r
}

impl ComponentCache {
    /// How many keys the cache holds.
    pub fn len(&self) -> (r: usize)
        ensures
            r == cache_views(*self).len(),
    {
        self.entries.len()
    }

    /// The id bound to exactly this `(name, attribute set)` key; the order
    /// the probe's attributes are written in does not matter.
    pub fn lookup_exact(&self, name: &String, attrs: &Vec<ComponentAttribute>) -> (r: Option<u32>)
        ensures
            ({
                let k = cache_key_index(cache_views(*self), name@, attr_set(attrs@));
                if k >= 0 {
                    r == Some(cache_views(*self)[k].id)
                } else {
                    r is None
                }
            }),
    {
        let ghost cv = cache_views(*self);
        let mut i: usize = 0;
        while i < self.entries.len()
            invariant
                i <= cv.len(),
                cv == cache_views(*self),
                cv.len() == self.entries@.len(),
                forall|j: int|
                    0 <= j < i ==> !((#[trigger] cv[j]).name == name@ && cv[j].attributes
                        == attr_set(attrs@)),
            decreases cv.len() - i,
        {
            let e = &self.entries[i];
            assert(e@ == cv[i as int]);
            if entry_key_matches(e, name, attrs) {
                proof {
                    lemma_cache_key_index_at(cv, name@, attr_set(attrs@), i as int);
                }
                return Some(e.id);
            }
            i = i + 1;
        }
        proof {
            lemma_cache_key_index_at(cv, name@, attr_set(attrs@), cv.len() as int);
        }
        None
    }
}

/// Find the component id for a target with subset matching: the first
/// entry of the target's name whose attribute set contains the target's
/// attributes wins.
pub fn find_component_id(cache: &ComponentCache, target: &Component) -> (r: Option<u32>)
    ensures
        r == find_component_spec(cache_views(*cache), target@),
{
    let ghost cv = cache_views(*cache);
    let mut i: usize = 0;
    proof {
        assert(cv.skip(0) =~= cv);
    }
    while i < cache.entries.len()
        invariant
            i <= cv.len(),
            cv == cache_views(*cache),
            cv.len() == cache.entries@.len(),
            find_component_spec(cv, target@) == find_component_spec(
                cv.skip(i as int),
                target@,
            ),
        decreases cv.len() - i,
    {
        let e = &cache.entries[i];
        assert(e@ == cv[i as int]);
        proof {
            assert(cv.skip(i as int)[0] == cv[i as int]);
            assert(cv.skip(i as int).drop_first() =~= cv.skip(i as int + 1));
        }
        if text::str_eq(e.name.as_str(), target.name.as_str()) && attrs_is_subset(
            &target.attributes,
            &e.attributes,
        ) {
            return Some(e.id);
        }
        i = i + 1;
    }
    proof {
        assert(cv.skip(cv.len() as int) =~= Seq::<CacheEntryView>::empty());
    }
    None
}

/// What chrono renders for a timestamp: its RFC 3339 text, a function of
/// the timestamp alone.
pub uninterp spec fn rfc3339_of(secs: int) -> Seq<char>;

/// Relies on chrono's `DateTime::from_timestamp` and `to_rfc3339`: the
/// RFC 3339 rendering of a Unix timestamp. `from_timestamp` is documented
/// to return a value for every timestamp in the required range.
#[verifier::external_body]
fn timestamp_to_rfc3339(secs: i64) -> (r: String)
    requires
        -1 <= secs <= u32::MAX as i64,
    ensures
        r@ == rfc3339_of(secs as int),
{
    match chrono::DateTime::from_timestamp(secs, 0) {
        Some(dt) => dt.to_rfc3339(),
        None => String::new(),
    }
}

/// Build the incident body for a degraded component: the static title and
/// description, the weight as impact, the single component id, and a start
/// date one second before the metric's timestamp, in RFC 3339.
pub fn build_incident_data(component_id: u32, impact: u8, timestamp: i64) -> (r: IncidentData)
    requires
        0 <= timestamp <= u32::MAX as i64,
    ensures
        r@.title == "System incident from monitoring system"@,
        r@.description
            == "System-wide incident affecting one or multiple components. Created automatically."@,
        r@.impact == impact,
        r@.components == seq![component_id],
        r@.start_date == rfc3339_of(timestamp - 1),
        r@.system == true,
        r@.incident_type == "incident"@,
{
    let start_date = timestamp_to_rfc3339(timestamp - 1);
    let mut components: Vec<u32> = Vec::new();
    components.push(component_id);
    assert(components@ =~= seq![component_id]);
    IncidentData {
        title: "System incident from monitoring system".to_owned(),
        description:
            "System-wide incident affecting one or multiple components. Created automatically.".to_owned(),
        impact,
        components,
        start_date,
        system: true,
        incident_type: "incident".to_owned(),
    }
}

/// What signing the reporter's claims yields: the compact JWT text, a
/// function of the secret and the two optional claims alone.
pub uninterp spec fn jwt_token_of(
    secret: Seq<char>,
    username: Option<Seq<char>>,
    group: Option<Seq<char>>,
) -> Seq<char>;

/// Relies on jwt's `SignWithKey` with an `Hmac<Sha256>` key (hmac + sha2):
/// signs claims holding the optional `preferred_username` and the optional
/// `groups` list built from `group`. Signing never fails: an HMAC key
/// accepts any length, serializing the claims object cannot fail, and the
/// HS256 sign itself is infallible. The token is a function of the secret
/// and the claims alone.
#[verifier::external_body]
fn sign_claims(secret: &str, preferred_username: Option<&str>, group: Option<&str>) -> (r: String)
    ensures
        r@ == jwt_token_of(
            secret@,
            match preferred_username {
                Some(u) => Some(u@),
                None => None,
            },
            match group {
                Some(g) => Some(g@),
                None => None,
            },
        ),
{
    let key: hmac::Hmac<sha2::Sha256> =
        hmac::Hmac::new_from_slice(secret.as_bytes()).expect("an HMAC key has no length limit");
    let mut claims = serde_json::Map::new();
    if let Some(u) = preferred_username {
        claims.insert("preferred_username".to_string(), serde_json::Value::String(u.to_string()));
    }
    if let Some(g) = group {
        let groups = vec![serde_json::Value::String(g.to_string())];
        claims.insert("groups".to_string(), serde_json::Value::Array(groups));
    }
    serde_json::Value::Object(claims).sign_with_key(&key).expect("HS256 signing is infallible")
}

/// The bearer value for the dashboard's Authorization header: with no
/// secret no header is sent at all; with one, every request carries the
/// HMAC-SHA256 JWT over the configured claims, prefixed `Bearer `.
pub fn build_auth_headers(
    secret: Option<&str>,
    preferred_username: Option<&str>,
    group: Option<&str>,
) -> (r: Option<String>)
    ensures
        (r is Some) <==> (secret is Some),
        r matches Some(b) ==> secret is Some && b@ == "Bearer "@ + jwt_token_of(
            secret->0@,
            match preferred_username {
                Some(u) => Some(u@),
                None => None,
            },
            match group {
                Some(g) => Some(g@),
                None => None,
            },
        ),
{
    match secret {
        None => None,
        Some(s) => {
            let token = sign_claims(s, preferred_username, group);
            Some(text::concat2("Bearer ", token.as_str()))
        },
    }
}

} // verus!
