//! Filters over the store's events: field modifiers, grouping, and the
//! view of the entries that a filter lets through.
use vstd::prelude::*;
use indexmap::IndexMap;
use crate::messages::{find_value, opt_value_same, position_by_name, value_cmp, value_same, FieldValue, Value};
use crate::store::{find_in_records, span_value, EventEntry, InternalId, Span, SpanView, Store, StoreState};
use crate::text::{chars_eq, contains, has_infix, has_prefix, starts_with, to_chars};

verus! {

#[verifier::external_type_specification]
#[verifier::external_body]
#[verifier::reject_recursive_types(K)]
#[verifier::reject_recursive_types(V)]
#[verifier::reject_recursive_types(S)]
pub struct ExIndexMap<K, V, S>(IndexMap<K, V, S>);

/// What a modifier compares a field's text with.
#[derive(Clone, Copy, Debug, PartialEq, Eq)]
pub enum ModifierKind {
    Contains,
    Equals,
    Matches,
    StartsWith,
}

/// A condition on one field of an event.
#[derive(Clone, Debug, PartialEq)]
pub enum Modifier {
    FieldContains { name: String, value: String },
    FieldEquals { name: String, value: String },
    FieldMatches { name: String, regex: String },
    FieldStartsWith { name: String, value: String },
}

/// A modifier as a mathematical value.
pub struct ModifierView {
    pub kind: ModifierKind,
    pub name: Seq<char>,
    pub value: Seq<char>,
}

impl View for Modifier {
    type V = ModifierView;

    open spec fn view(&self) -> ModifierView {
        match self {
            Modifier::FieldContains { name, value } => ModifierView { kind: ModifierKind::Contains, name: name@, value: value@ },
            Modifier::FieldEquals { name, value } => ModifierView { kind: ModifierKind::Equals, name: name@, value: value@ },
            Modifier::FieldMatches { name, regex } => ModifierView { kind: ModifierKind::Matches, name: name@, value: regex@ },
            Modifier::FieldStartsWith { name, value } => ModifierView { kind: ModifierKind::StartsWith, name: name@, value: value@ },
        }
    }
}

/// Whether the regular expression `pattern` is valid and, if it is, whether
/// it matches somewhere in `text`.
pub uninterp spec fn regex_verdict(pattern: Seq<char>, text: Seq<char>) -> Option<bool>;

/// Relies on `regex::Regex::new` (an error for an invalid pattern or one over
/// the default size limit) and `Regex::is_match` (whether the pattern matches
/// anywhere in the haystack): the outcome depends on the two strings alone.
#[verifier::external_body]
fn regex_check(pattern: &str, text: &str) -> (r: Option<bool>)
    ensures
        r == regex_verdict(pattern@, text@),
{
    regex::Regex::new(pattern).ok().map(|re| re.is_match(text))
}

/// The text of the first field named `name` in `values`.
pub open spec fn field_text(values: Seq<FieldValue>, name: Seq<char>) -> Option<Seq<char>> {
    match find_value(values, name) {
        Some(v) => Some(crate::messages::value_text(v)),
        None => None,
    }
}

/// What modifier `m` says of an event with field values `values`: nothing
/// when the field is missing (or the pattern is invalid), else whether the
/// field's text passes.
pub open spec fn modifier_verdict(m: ModifierView, values: Seq<FieldValue>) -> Option<bool> {
    match field_text(values, m.name) {
        None => None,
        Some(t) => match m.kind {
            ModifierKind::StartsWith => Some(has_prefix(t, m.value)),
            ModifierKind::Equals => Some(t == m.value),
            ModifierKind::Contains => Some(has_infix(t, m.value)),
            ModifierKind::Matches => regex_verdict(m.value, t),
        },
    }
}

/// The text of the first field named `name` in `values`.
pub fn any_by_name(values: &Vec<FieldValue>, name: &String) -> (r: Option<Vec<char>>)
    ensures
        match r {
            Some(t) => field_text(values@, name@) == Some(t@),
            None => field_text(values@, name@) is None,
        },
{
    match position_by_name(values, name) {
        Some(i) => Some(values[i].value.text()),
        None => None,
    }
}

impl Modifier {
    /// The field must equal `value`.
    pub fn equals(name: String, value: String) -> (r: Modifier)
        ensures
            r == (Modifier::FieldEquals { name, value }),
    {
        Modifier::FieldEquals { name, value }
    }

    /// The field must contain `value`.
    pub fn contains(name: String, value: String) -> (r: Modifier)
        ensures
            r == (Modifier::FieldContains { name, value }),
    {
        Modifier::FieldContains { name, value }
    }

    /// The field must start with `value`.
    pub fn starts_with(name: String, value: String) -> (r: Modifier)
        ensures
            r == (Modifier::FieldStartsWith { name, value }),
    {
        Modifier::FieldStartsWith { name, value }
    }

    /// The field must match the regular expression `regex`.
    pub fn matches(name: String, regex: String) -> (r: Modifier)
        ensures
            r == (Modifier::FieldMatches { name, regex }),
    {
        Modifier::FieldMatches { name, regex }
    }

    /// The name of the field that the modifier looks at.
    pub fn field_name(&self) -> (r: Option<&String>)
        ensures
            r is Some,
            r->Some_0@ == self@.name,
    {
        match self {
            Modifier::FieldContains { name, .. } => Some(name),
            Modifier::FieldEquals { name, .. } => Some(name),
            Modifier::FieldMatches { name, .. } => Some(name),
            Modifier::FieldStartsWith { name, .. } => Some(name),
        }
    }

    /// What the modifier says of an event with field values `values`.
    pub fn filter_values(&self, values: &Vec<FieldValue>) -> (r: Option<bool>)
        ensures
            r == modifier_verdict(self@, values@),
    {
        match self {
            Modifier::FieldStartsWith { name, value } => match any_by_name(values, name) {
                Some(t) => Some(starts_with(&t, &to_chars(value.as_str()))),
                None => None,
            },
            Modifier::FieldEquals { name, value } => match any_by_name(values, name) {
                Some(t) => Some(chars_eq(&t, &to_chars(value.as_str()))),
                None => None,
            },
            Modifier::FieldContains { name, value } => match any_by_name(values, name) {
                Some(t) => Some(contains(&t, &to_chars(value.as_str()))),
                None => None,
            },
            Modifier::FieldMatches { name, regex } => match any_by_name(values, name) {
                Some(t) => regex_check(regex.as_str(), crate::messages::string_of(&t).as_str()),
                None => None,
            },
        }
    }

    /// What the modifier says of the event of `entry`.
    pub fn filter(&self, entry: &crate::store::EventEntry) -> (r: Option<bool>)
        ensures
            r == modifier_verdict(self@, entry.event.values@),
    {
        self.filter_values(&entry.event.values)
    }
}


/// What a span contributes as a group key.
#[derive(Clone, Debug, PartialEq)]
pub enum SpanCriterion {
    Field(String),
    Id,
}

/// Which span of an event supplies the group key: its own, or the nearest
/// ancestor with a given name.
#[derive(Clone, Debug, PartialEq)]
pub enum SpanSelector {
    SpanCriterion(SpanCriterion),
    ParentByName { name: String, criterion: SpanCriterion },
}

/// How events are grouped: by a field of their own, or by their span.
#[derive(Clone, Debug, PartialEq)]
pub enum GroupBy {
    Field(String),
    Span(SpanSelector),
}

/// A span criterion as a mathematical value.
pub enum CriterionView {
    Field(Seq<char>),
    Id,
}

/// A grouping as a mathematical value.
pub enum GroupByView {
    Field(Seq<char>),
    Span(CriterionView),
    Parent { name: Seq<char>, criterion: CriterionView },
}

impl View for SpanCriterion {
    type V = CriterionView;

    open spec fn view(&self) -> CriterionView {
        match self {
            SpanCriterion::Field(n) => CriterionView::Field(n@),
            SpanCriterion::Id => CriterionView::Id,
        }
    }
}

impl View for GroupBy {
    type V = GroupByView;

    open spec fn view(&self) -> GroupByView {
        match self {
            GroupBy::Field(n) => GroupByView::Field(n@),
            GroupBy::Span(SpanSelector::SpanCriterion(c)) => GroupByView::Span(c@),
            GroupBy::Span(SpanSelector::ParentByName { name, criterion }) => GroupByView::Parent {
                name: name@,
                criterion: criterion@,
            },
        }
    }
}

/// The key that a span gives under criterion `c`.
pub open spec fn criterion_value(s: SpanView, c: CriterionView) -> Option<Value> {
    match c {
        CriterionView::Field(n) => span_value(s, n),
        CriterionView::Id => Some(Value::Unsigned(s.id.0 as u64)),
    }
}

/// The key from the nearest strict ancestor of span `i` named `name`.
pub open spec fn parent_value(spans: Seq<SpanView>, i: int, name: Seq<char>, c: CriterionView) -> Option<Value>
    decreases i,
{
    if 0 <= i < spans.len() {
        match spans[i].parent_id {
            None => None,
            Some(p) => if p.0 < i {
                if spans[p.0 as int].span.attributes.metadata.name@ == name {
                    criterion_value(spans[p.0 as int], c)
                } else {
                    parent_value(spans, p.0 as int, name, c)
                }
            } else {
                None
            },
        }
    } else {
        None
    }
}

/// The group key of event `e` of the store under grouping `g`.
pub open spec fn group_key(s: StoreState, g: GroupByView, e: int) -> Option<Value> {
    let entry = s.events[e];
    match g {
        GroupByView::Field(n) => find_value(entry.event.values@, n),
        GroupByView::Span(c) => match entry.span {
            Some(id) => if id.0 < s.spans.len() {
                criterion_value(s.spans[id.0 as int], c)
            } else {
                None
            },
            None => None,
        },
        GroupByView::Parent { name, criterion } => match entry.span {
            Some(id) => parent_value(s.spans, id.0 as int, name, criterion),
            None => None,
        },
    }
}

fn copy_opt(v: Option<&Value>) -> (r: Option<Value>)
    ensures
        match v {
            Some(x) => r == Some(*x),
            None => r is None,
        },
{
    match v {
        Some(x) => Some(x.duplicate()),
        None => None,
    }
}

impl SpanCriterion {
    /// The key that `span` gives under this criterion.
    pub fn value_of(&self, span: &Span) -> (r: Option<Value>)
        ensures
            r == criterion_value(span@, self@),
    {
        match self {
            SpanCriterion::Field(n) => copy_opt(span.value_by_name(n)),
            SpanCriterion::Id => Some(Value::from_u64(span.id.0 as u64)),
        }
    }
}

impl SpanSelector {
    /// The key that this selector takes from the span of `entry`.
    pub fn evaluate(&self, store: &Store, entry: &EventEntry) -> (r: Option<Value>)
        requires
            store.wf(),
            entry.span is Some ==> entry.span->Some_0.0 < store@.spans.len(),
        ensures
            r == match self {
                SpanSelector::SpanCriterion(c) => match entry.span {
                    Some(id) => criterion_value(store@.spans[id.0 as int], c@),
                    None => None,
                },
                SpanSelector::ParentByName { name, criterion } => match entry.span {
                    Some(id) => parent_value(store@.spans, id.0 as int, name@, criterion@),
                    None => None,
                },
            },
    {
        let span_id = match entry.span {
            Some(id) => id,
            None => return None,
        };
        let span = store.span(span_id);
        match self {
            SpanSelector::SpanCriterion(c) => c.value_of(span),
            SpanSelector::ParentByName { name, criterion } => {
                let ghost spans = store@.spans;
                let mut cur: usize = span_id.0;
                proof { store.lemma_wf(); }
                loop
                    invariant
                        spans == store@.spans,
                        store@.wf(),
                        entry.span == Some(span_id),
                        *self == (SpanSelector::ParentByName { name: *name, criterion: *criterion }),
                        cur < spans.len(),
                        parent_value(spans, span_id.0 as int, name@, criterion@)
                            == parent_value(spans, cur as int, name@, criterion@),
                    decreases cur,
                {
                    let here = store.span(InternalId(cur));
                    match here.parent_id {
                        None => return None,
                        Some(p) => {
                            assert(spans[cur as int].parent_id == Some(p));
                            assert(p.0 < cur);
                            let parent = store.span(p);
                            if parent.span.attributes.metadata.name == *name {
                                return criterion.value_of(parent);
                            }
                            cur = p.0;
                        },
                    }
                }
            },
        }
    }
}

impl GroupBy {
    /// The group key of `entry` under this grouping.
    pub fn key(&self, store: &Store, entry: &EventEntry) -> (r: Option<Value>)
        requires
            store.wf(),
            entry.span is Some ==> entry.span->Some_0.0 < store@.spans.len(),
        ensures
            r == match self@ {
                GroupByView::Field(n) => find_value(entry.event.values@, n),
                GroupByView::Span(c) => match entry.span {
                    Some(id) => criterion_value(store@.spans[id.0 as int], c),
                    None => None,
                },
                GroupByView::Parent { name, criterion } => match entry.span {
                    Some(id) => parent_value(store@.spans, id.0 as int, name, criterion),
                    None => None,
                },
            },
    {
        match self {
            GroupBy::Field(name) => match position_by_name(&entry.event.values, name) {
                Some(i) => Some(entry.event.values[i].value.duplicate()),
                None => None,
            },
            GroupBy::Span(selector) => selector.evaluate(store, entry),
        }
    }

    /// The group key of event `e` of the store.
    pub fn key_of_event(&self, store: &Store, e: usize) -> (r: Option<Value>)
        requires
            store.wf(),
            e < store@.events.len(),
        ensures
            r == group_key(store@, self@, e as int),
    {
        let events = store.events();
        proof { store.lemma_wf(); }
        let entry = &events[e];
        assert(entry == store@.events[e as int]);
        self.key(store, entry)
    }
}


/// The event indices that a view lists: flat, or in groups by key.
#[derive(Clone, Debug, PartialEq)]
pub enum Entries {
    Grouped { group_by: GroupBy, groups: Vec<(Option<Value>, Vec<usize>)> },
    Entries(Vec<usize>),
}

/// Entries as a mathematical value.
pub enum EntriesView {
    Grouped { group_by: GroupByView, groups: Seq<(Option<Value>, Seq<usize>)> },
    Flat(Seq<usize>),
}

impl View for Entries {
    type V = EntriesView;

    open spec fn view(&self) -> EntriesView {
        match self {
            Entries::Grouped { group_by, groups } => EntriesView::Grouped {
                group_by: group_by@,
                groups: groups@.map_values(|g: (Option<Value>, Vec<usize>)| (g.0, g.1@)),
            },
            Entries::Entries(v) => EntriesView::Flat(v@),
        }
    }
}

/// The number of entries in all groups.
pub open spec fn groups_total(groups: Seq<(Option<Value>, Seq<usize>)>) -> nat
    decreases groups.len(),
{
    if groups.len() == 0 {
        0
    } else {
        groups_total(groups.drop_last()) + groups.last().1.len()
    }
}

/// The number of rows that entries take: one per entry, plus one for the
/// grouping when there is one.
pub open spec fn entries_len(e: EntriesView) -> nat {
    match e {
        EntriesView::Flat(v) => v.len(),
        EntriesView::Grouped { groups, .. } => groups_total(groups) + 1,
    }
}

/// The indices of `es` that `keep` marks, in order.
pub open spec fn kept(es: Seq<usize>, keep: Seq<bool>) -> Seq<usize>
    decreases es.len(),
{
    if es.len() == 0 {
        Seq::empty()
    } else {
        let rest = kept(es.drop_last(), keep);
        if es.last() < keep.len() && keep[es.last() as int] {
            rest.push(es.last())
        } else {
            rest
        }
    }
}

/// Entries with only the indices that `keep` marks, in every group.
pub open spec fn retained(e: EntriesView, keep: Seq<bool>) -> EntriesView {
    match e {
        EntriesView::Flat(v) => EntriesView::Flat(kept(v, keep)),
        EntriesView::Grouped { group_by, groups } => EntriesView::Grouped {
            group_by,
            groups: groups.map_values(|g: (Option<Value>, Seq<usize>)| (g.0, kept(g.1, keep))),
        },
    }
}

/// Whether `acc` holds a value that is the same as `k`.
pub open spec fn holds_same(acc: Seq<Value>, k: Value) -> bool {
    exists|i: int| 0 <= i < acc.len() && value_same(acc[i], k)
}

/// The position of the first value of `acc` that comes after `k`, or the
/// length of `acc` if there is none.
pub open spec fn first_above(acc: Seq<Value>, k: Value) -> nat
    decreases acc.len(),
{
    if acc.len() == 0 {
        0
    } else if value_cmp(k, acc[0]) < 0 {
        0
    } else {
        1 + first_above(acc.drop_first(), k)
    }
}

/// `acc` with `k` put in order, unless a same value is there already.
pub open spec fn insert_key(acc: Seq<Value>, k: Value) -> Seq<Value> {
    if holds_same(acc, k) {
        acc
    } else {
        acc.insert(first_above(acc, k) as int, k)
    }
}

/// The distinct present keys of `keys`, in order; each is the first of its
/// kind in `keys`.
pub open spec fn distinct_keys(keys: Seq<Option<Value>>) -> Seq<Value>
    decreases keys.len(),
{
    if keys.len() == 0 {
        Seq::empty()
    } else {
        let acc = distinct_keys(keys.drop_last());
        match keys.last() {
            Some(k) => insert_key(acc, k),
            None => acc,
        }
    }
}

/// The group keys of the events `es`.
pub open spec fn keys_of(s: StoreState, g: GroupByView, es: Seq<usize>) -> Seq<Option<Value>> {
    es.map_values(|e: usize| group_key(s, g, e as int))
}

/// The indices of `es`, in order, whose key is the same as `k`.
pub open spec fn members(keys: Seq<Option<Value>>, es: Seq<usize>, k: Value) -> Seq<usize>
    decreases es.len(),
{
    if es.len() == 0 || keys.len() != es.len() {
        Seq::empty()
    } else {
        let rest = members(keys.drop_last(), es.drop_last(), k);
        if opt_value_same(keys.last(), Some(k)) {
            rest.push(es.last())
        } else {
            rest
        }
    }
}

/// The groups of events `es` under `g`: one per distinct present key, in
/// key order, each with its events in their order. Events without a key are
/// left out.
pub open spec fn grouped(s: StoreState, g: GroupByView, es: Seq<usize>) -> Seq<(Option<Value>, Seq<usize>)> {
    let keys = keys_of(s, g, es);
    distinct_keys(keys).map_values(|k: Value| (Some(k), members(keys, es, k)))
}

/// Puts `k` in order into `sorted`, unless a same value is there already.
fn insert_sorted(sorted: &mut Vec<Value>, k: &Value)
    ensures
        final(sorted)@ == insert_key(old(sorted)@, *k),
{
    let n = sorted.len();
    let mut i: usize = 0;
    while i < n
        invariant
            n == sorted@.len(),
            sorted@ == old(sorted)@,
            i <= n,
            forall|j: int| 0 <= j < i ==> !value_same(sorted@[j], *k),
        decreases n - i,
    {
        if sorted[i].compare(k) == 0 {
            assert(holds_same(sorted@, *k));
            return;
        }
        i = i + 1;
    }
    let ghost acc = sorted@;
    let mut p: usize = 0;
    assert(acc.subrange(0, n as int) =~= acc);
    while p < n && k.compare(&sorted[p]) >= 0
        invariant
            n == sorted@.len(),
            sorted@ == acc,
            p <= n,
            first_above(acc, *k) == p + first_above(acc.subrange(p as int, n as int), *k),
        decreases n - p,
    {
        proof {
            let rest = acc.subrange(p as int, n as int);
            assert(rest[0] == acc[p as int]);
            assert(rest.drop_first() =~= acc.subrange(p + 1, n as int));
        }
        p = p + 1;
    }
    proof {
        let rest = acc.subrange(p as int, n as int);
        if p < n {
            assert(rest[0] == acc[p as int]);
        }
    }
    sorted.insert(p, k.duplicate());
}

impl Entries {
    /// The number of rows that the entries take.
    pub fn len(&self) -> (r: usize)
        requires
            entries_len(self@) <= usize::MAX,
        ensures
            r == entries_len(self@),
    {
        match self {
            Entries::Entries(entries) => entries.len(),
            Entries::Grouped { groups, .. } => {
                let ghost gs = groups@.map_values(|g: (Option<Value>, Vec<usize>)| (g.0, g.1@));
                let mut total: usize = 0;
                let mut i: usize = 0;
                while i < groups.len()
                    invariant
                        gs == groups@.map_values(|g: (Option<Value>, Vec<usize>)| (g.0, g.1@)),
                        groups_total(gs) + 1 <= usize::MAX,
                        i <= groups@.len(),
                        total == groups_total(gs.subrange(0, i as int)),
                    decreases groups@.len() - i,
                {
                    proof {
                        assert(gs.subrange(0, i + 1).drop_last() =~= gs.subrange(0, i as int));
                        lemma_groups_total_prefix(gs, i + 1);
                    }
                    total = total + groups[i].1.len();
                    i = i + 1;
                }
                assert(gs.subrange(0, i as int) =~= gs);
                total + 1
            },
        }
    }

    /// The same entries, keeping only the indices that `keep` marks.
    pub fn retain(&mut self, keep: &Vec<bool>)
        ensures
            final(self)@ == retained(old(self)@, keep@),
    {
        let next = match &*self {
            Entries::Entries(v) => Entries::Entries(keep_marked(v, keep)),
            Entries::Grouped { group_by, groups } => {
                let mut out: Vec<(Option<Value>, Vec<usize>)> = Vec::new();
                let mut i: usize = 0;
                while i < groups.len()
                    invariant
                        i <= groups@.len(),
                        out@.len() == i,
                        forall|j: int| 0 <= j < i ==> (#[trigger] out@[j]).0 == groups@[j].0
                            && out@[j].1@ == kept(groups@[j].1@, keep@),
                    decreases groups@.len() - i,
                {
                    let key = copy_opt(match &groups[i].0 {
                        Some(v) => Some(v),
                        None => None,
                    });
                    out.push((key, keep_marked(&groups[i].1, keep)));
                    i = i + 1;
                }
                let r = Entries::Grouped { group_by: group_by.clone_group_by(), groups: out };
                proof {
                    let want = retained(self@, keep@);
                    assert(r@->Grouped_groups =~= want->Grouped_groups);
                }
                r
            },
        };
        *self = next;
    }

    /// Groups flat entries of `store` under `group_by`.
    pub fn group(self, store: &Store, group_by: GroupBy) -> (r: Entries)
        requires
            store.wf(),
            self is Entries,
            forall|j: int| 0 <= j < self->Entries_0@.len() ==> #[trigger] self->Entries_0@[j] < store@.events.len(),
        ensures
            r@ == (EntriesView::Grouped {
                group_by: group_by@,
                groups: grouped(store@, group_by@, self->Entries_0@),
            }),
    {
        let entries = match self {
            Entries::Entries(v) => v,
            Entries::Grouped { .. } => Vec::new(),
        };
        let ghost es = entries@;
        let ghost s = store@;
        let ghost g = group_by@;
        let n = entries.len();
        let mut keys: Vec<Option<Value>> = Vec::new();
        let mut j: usize = 0;
        while j < n
            invariant
                n == es.len(),
                es == entries@,
                s == store@,
                g == group_by@,
                store.wf(),
                forall|x: int| 0 <= x < es.len() ==> #[trigger] es[x] < s.events.len(),
                j <= n,
                keys@ == keys_of(s, g, es.subrange(0, j as int)),
            decreases n - j,
        {
            let k = group_by.key_of_event(store, entries[j]);
            keys.push(k);
            j = j + 1;
            assert(keys@ =~= keys_of(s, g, es.subrange(0, j as int)));
        }
        assert(es.subrange(0, n as int) =~= es);
        let ghost ks = keys@;
        let mut sorted: Vec<Value> = Vec::new();
        j = 0;
        while j < n
            invariant
                n == ks.len(),
                ks == keys@,
                j <= n,
                sorted@ == distinct_keys(ks.subrange(0, j as int)),
            decreases n - j,
        {
            proof {
                assert(ks.subrange(0, j + 1).drop_last() =~= ks.subrange(0, j as int));
            }
            match &keys[j] {
                Some(k) => insert_sorted(&mut sorted, k),
                None => {},
            }
            j = j + 1;
        }
        assert(ks.subrange(0, n as int) =~= ks);
        let mut groups: Vec<(Option<Value>, Vec<usize>)> = Vec::new();
        let mut i: usize = 0;
        while i < sorted.len()
            invariant
                n == ks.len(),
                n == es.len(),
                ks == keys@,
                es == entries@,
                i <= sorted@.len(),
                sorted@ == distinct_keys(ks),
                groups@.len() == i,
                forall|x: int| 0 <= x < i ==> (#[trigger] groups@[x]).0 == Some(sorted@[x])
                    && groups@[x].1@ == members(ks, es, sorted@[x]),
            decreases sorted@.len() - i,
        {
            let k = &sorted[i];
            let mut ms: Vec<usize> = Vec::new();
            let mut t: usize = 0;
            while t < n
                invariant
                    n == ks.len(),
                    n == es.len(),
                    ks == keys@,
                    es == entries@,
                    t <= n,
                    ms@ == members(ks.subrange(0, t as int), es.subrange(0, t as int), *k),
                decreases n - t,
            {
                proof {
                    assert(ks.subrange(0, t + 1).drop_last() =~= ks.subrange(0, t as int));
                    assert(es.subrange(0, t + 1).drop_last() =~= es.subrange(0, t as int));
                }
                let same = match &keys[t] {
                    Some(v) => v.compare(k) == 0,
                    None => false,
                };
                if same {
                    ms.push(entries[t]);
                }
                t = t + 1;
            }
            assert(es.subrange(0, n as int) =~= es);
            assert(ks.subrange(0, n as int) =~= ks);
            assert(ms@ == members(ks, es, sorted@[i as int]));
            groups.push((Some(k.duplicate()), ms));
            i = i + 1;
        }
        let r = Entries::Grouped { group_by, groups };
        proof {
            assert(r@->Grouped_groups =~= grouped(s, g, es));
        }
        r
    }
}

proof fn lemma_groups_total_prefix(gs: Seq<(Option<Value>, Seq<usize>)>, i: int)
    requires
        0 <= i <= gs.len(),
    ensures
        groups_total(gs.subrange(0, i)) <= groups_total(gs),
    decreases gs.len() - i,
{
    if i < gs.len() {
        lemma_groups_total_prefix(gs, i + 1);
        assert(gs.subrange(0, i + 1).drop_last() =~= gs.subrange(0, i));
    } else {
        assert(gs.subrange(0, i) =~= gs);
    }
}

/// The indices of `v` that `keep` marks, in order.
fn keep_marked(v: &Vec<usize>, keep: &Vec<bool>) -> (r: Vec<usize>)
    ensures
        r@ == kept(v@, keep@),
{
    let mut out: Vec<usize> = Vec::new();
    let mut i: usize = 0;
    while i < v.len()
        invariant
            i <= v@.len(),
            out@ == kept(v@.subrange(0, i as int), keep@),
        decreases v@.len() - i,
    {
        proof {
            assert(v@.subrange(0, i + 1).drop_last() =~= v@.subrange(0, i as int));
        }
        if v[i] < keep.len() && keep[v[i]] {
            out.push(v[i]);
        }
        i = i + 1;
    }
    assert(v@.subrange(0, i as int) =~= v@);
    out
}

impl SpanCriterion {
    /// A copy of the criterion.
    pub fn clone_criterion(&self) -> (r: SpanCriterion)
        ensures
            r == *self,
    {
        match self {
            SpanCriterion::Field(n) => SpanCriterion::Field(n.clone()),
            SpanCriterion::Id => SpanCriterion::Id,
        }
    }
}

impl GroupBy {
    /// A copy of the grouping.
    pub fn clone_group_by(&self) -> (r: GroupBy)
        ensures
            r == *self,
    {
        match self {
            GroupBy::Field(n) => GroupBy::Field(n.clone()),
            GroupBy::Span(SpanSelector::SpanCriterion(c)) => GroupBy::Span(SpanSelector::SpanCriterion(c.clone_criterion())),
            GroupBy::Span(SpanSelector::ParentByName { name, criterion }) => GroupBy::Span(
                SpanSelector::ParentByName { name: name.clone(), criterion: criterion.clone_criterion() },
            ),
        }
    }
}


/// The entries of a map from field names to modifiers, in the map's order.
pub uninterp spec fn modifier_entries(m: IndexMap<String, Modifier>) -> Seq<(Seq<char>, Modifier)>;

/// Whether no key occurs twice in `es`.
pub open spec fn keys_unique(es: Seq<(Seq<char>, Modifier)>) -> bool {
    forall|i: int, j: int| 0 <= i < es.len() && 0 <= j < es.len() && i != j ==> es[i].0 != es[j].0
}

/// The position of key `k` in `es`, if it is there.
pub open spec fn key_position(es: Seq<(Seq<char>, Modifier)>, k: Seq<char>) -> Option<int>
    decreases es.len(),
{
    if es.len() == 0 {
        None
    } else if es.last().0 == k && key_position(es.drop_last(), k) is None {
        Some(es.len() - 1)
    } else {
        key_position(es.drop_last(), k)
    }
}

/// `es` after inserting `v` under `k`: a key that is there keeps its place
/// and takes the new value; a new key goes last.
pub open spec fn entry_inserted(es: Seq<(Seq<char>, Modifier)>, k: Seq<char>, v: Modifier) -> Seq<(Seq<char>, Modifier)> {
    match key_position(es, k) {
        Some(i) => es.update(i, (k, v)),
        None => es.push((k, v)),
    }
}

/// Relies on `IndexMap::new`: an empty map.
#[verifier::external_body]
fn modifier_map_new() -> (r: IndexMap<String, Modifier>)
    ensures
        modifier_entries(r) == Seq::<(Seq<char>, Modifier)>::empty(),
{
    IndexMap::new()
}

/// Relies on `IndexMap::len`: the number of entries.
#[verifier::external_body]
fn modifier_map_len(m: &IndexMap<String, Modifier>) -> (r: usize)
    ensures
        r == modifier_entries(*m).len(),
{
    m.len()
}

/// Relies on `IndexMap`'s `Index<usize>`: the value at a position, which
/// must be in bounds.
#[verifier::external_body]
fn modifier_map_at(m: &IndexMap<String, Modifier>, i: usize) -> (r: &Modifier)
    requires
        i < modifier_entries(*m).len(),
    ensures
        *r == modifier_entries(*m)[i as int].1,
{
    &m[i]
}

/// Relies on `IndexMap::insert`: an equal key that is there keeps its place
/// and takes the new value; otherwise the pair goes last. Keys stay unique.
#[verifier::external_body]
fn modifier_map_insert(m: &mut IndexMap<String, Modifier>, k: String, v: Modifier)
    ensures
        modifier_entries(*final(m)) == entry_inserted(modifier_entries(*old(m)), k@, v),
        keys_unique(modifier_entries(*old(m))) ==> keys_unique(modifier_entries(*final(m))),
{
    m.insert(k, v);
}

/// A filter as a mathematical value.
pub struct FilterView {
    pub name: Seq<char>,
    /// The modifiers under their field names, in insertion order.
    pub modifiers: Seq<(Seq<char>, Modifier)>,
    pub group_by: Option<GroupByView>,
}

/// Whether every modifier of `mods` accepts an event with values `values`.
pub open spec fn accepted_by(mods: Seq<(Seq<char>, Modifier)>, values: Seq<FieldValue>) -> bool {
    forall|i: int| 0 <= i < mods.len() ==> modifier_verdict((#[trigger] mods[i]).1@, values) == Some(true)
}

/// Which events of the store the modifiers let through.
pub open spec fn accepted_events(mods: Seq<(Seq<char>, Modifier)>, s: StoreState) -> Seq<bool> {
    Seq::new(s.events.len(), |e: int| accepted_by(mods, s.events[e].event.values@))
}

/// The entries that filter `f` makes of `e` over store `s`: the accepted
/// events, then grouped if the filter groups.
pub open spec fn applied(f: FilterView, s: StoreState, e: EntriesView) -> EntriesView {
    let r = retained(e, accepted_events(f.modifiers, s));
    match f.group_by {
        Some(g) => match r {
            EntriesView::Flat(v) => EntriesView::Grouped { group_by: g, groups: grouped(s, g, v) },
            EntriesView::Grouped { .. } => r,
        },
        None => r,
    }
}

/// A filter: modifiers that every shown event passes, and how the shown
/// events are grouped.
#[derive(Debug)]
pub struct Filter {
    name: String,
    modifier: IndexMap<String, Modifier>,
    group_by: Option<GroupBy>,
}

impl View for Filter {
    type V = FilterView;

    closed spec fn view(&self) -> FilterView {
        FilterView {
            name: self.name@,
            modifiers: modifier_entries(self.modifier),
            group_by: match self.group_by {
                Some(g) => Some(g@),
                None => None,
            },
        }
    }
}

/// Whether each modifier stands under its own field name and no name
/// occurs twice.
pub open spec fn modifiers_wf(es: Seq<(Seq<char>, Modifier)>) -> bool {
    &&& keys_unique(es)
    &&& forall|i: int| 0 <= i < es.len() ==> (#[trigger] es[i]).0 == es[i].1@.name
}

impl Filter {
    pub open spec fn wf(&self) -> bool {
        modifiers_wf(self@.modifiers)
    }

    /// A filter named `name` that lets everything through, ungrouped.
    pub fn new(name: String) -> (r: Filter)
        ensures
            r.wf(),
            r@ == (FilterView { name: name@, modifiers: Seq::empty(), group_by: None }),
    {
        Filter { name, modifier: modifier_map_new(), group_by: None }
    }

    /// Adds `modifier`; one on the same field is replaced in its place.
    pub fn insert_modifier(&mut self, modifier: Modifier)
        requires
            old(self).wf(),
        ensures
            final(self).wf(),
            final(self)@ == (FilterView {
                modifiers: entry_inserted(old(self)@.modifiers, modifier@.name, modifier),
                ..old(self)@
            }),
    {
        let name = modifier.field_name().unwrap().clone();
        modifier_map_insert(&mut self.modifier, name, modifier);
        proof {
            let old_es = old(self)@.modifiers;
            let es = self@.modifiers;
            assert forall|i: int| 0 <= i < es.len() implies (#[trigger] es[i]).0 == es[i].1@.name by {
                lemma_key_position(old_es, modifier@.name);
                match key_position(old_es, modifier@.name) {
                    Some(p) => {
                        if i != p {
                            assert(es[i] == old_es[i]);
                        }
                    },
                    None => {
                        if i < old_es.len() {
                            assert(es[i] == old_es[i]);
                        }
                    },
                }
            }
        }
    }

    /// Groups the shown events by `group_by`.
    pub fn group(&mut self, group_by: GroupBy)
        requires
            old(self).wf(),
        ensures
            final(self).wf(),
            final(self)@ == (FilterView { group_by: Some(group_by@), ..old(self)@ }),
    {
        self.group_by = Some(group_by);
    }

    /// The name of the filter.
    pub fn name(&self) -> (r: &String)
        ensures
            r@ == self@.name,
    {
        &self.name
    }

    /// How the filter groups, if it does.
    pub fn group_by(&self) -> (r: Option<&GroupBy>)
        ensures
            match r {
                Some(g) => self@.group_by == Some(g@),
                None => self@.group_by is None,
            },
    {
        match &self.group_by {
            Some(g) => Some(g),
            None => None,
        }
    }

    /// The number of modifiers.
    pub fn modifier_count(&self) -> (r: usize)
        ensures
            r == self@.modifiers.len(),
    {
        modifier_map_len(&self.modifier)
    }

    /// The modifier at position `i`, in insertion order.
    pub fn modifier_at(&self, i: usize) -> (r: &Modifier)
        requires
            i < self@.modifiers.len(),
        ensures
            *r == self@.modifiers[i as int].1,
    {
        modifier_map_at(&self.modifier, i)
    }

    /// Whether every modifier accepts an event with values `values`.
    pub fn accepts(&self, values: &Vec<FieldValue>) -> (r: bool)
        ensures
            r == accepted_by(self@.modifiers, values@),
    {
        let n = self.modifier_count();
        let mut i: usize = 0;
        while i < n
            invariant
                n == self@.modifiers.len(),
                i <= n,
                forall|j: int| 0 <= j < i ==> modifier_verdict((#[trigger] self@.modifiers[j]).1@, values@) == Some(true),
            decreases n - i,
        {
            let m = self.modifier_at(i);
            match m.filter_values(values) {
                Some(true) => {},
                _ => return false,
            }
            i = i + 1;
        }
        true
    }

    /// The entries of `raw` that the filter shows, out of `entries`: those
    /// that every modifier accepts, grouped if the filter groups.
    pub fn apply(&self, raw: &Store, entries: Entries) -> (r: Entries)
        requires
            raw.wf(),
            self@.group_by is Some ==> entries is Entries,
            entries is Entries ==> forall|j: int| 0 <= j < entries->Entries_0@.len()
                ==> #[trigger] entries->Entries_0@[j] < raw@.events.len(),
        ensures
            r@ == applied(self@, raw@, entries@),
    {
        let events = raw.events();
        let n = events.len();
        let mut keep: Vec<bool> = Vec::new();
        let mut e: usize = 0;
        while e < n
            invariant
                n == raw@.events.len(),
                events@ == raw@.events,
                e <= n,
                keep@ =~= accepted_events(self@.modifiers, raw@).subrange(0, e as int),
            decreases n - e,
        {
            keep.push(self.accepts(&events[e].event.values));
            e = e + 1;
        }
        assert(keep@ =~= accepted_events(self@.modifiers, raw@));
        let ghost before = entries@;
        let mut entries = entries;
        entries.retain(&keep);
        match &self.group_by {
            Some(group_by) => {
                proof {
                    let v = entries@->Flat_0;
                    assert forall|j: int| 0 <= j < v.len() implies #[trigger] v[j] < raw@.events.len() by {
                        lemma_kept_props(before->Flat_0, keep@);
                    }
                }
                entries.group(raw, group_by.clone_group_by())
            },
            None => entries,
        }
    }
}

/// Where key `k` stands in `es`: the first position that holds it.
pub proof fn lemma_key_position(es: Seq<(Seq<char>, Modifier)>, k: Seq<char>)
    ensures
        match key_position(es, k) {
            Some(i) => 0 <= i < es.len() && es[i].0 == k && forall|j: int| 0 <= j < i ==> es[j].0 != k,
            None => forall|j: int| 0 <= j < es.len() ==> es[j].0 != k,
        },
    decreases es.len(),
{
    if es.len() > 0 {
        lemma_key_position(es.drop_last(), k);
        assert forall|j: int| 0 <= j < es.len() - 1 implies es.drop_last()[j] == es[j] by {}
    }
}

/// What `kept` keeps: marked indices of `es`, without anything else.
pub proof fn lemma_kept_props(es: Seq<usize>, keep: Seq<bool>)
    ensures
        forall|j: int| 0 <= j < kept(es, keep).len() ==> {
            &&& #[trigger] kept(es, keep)[j] < keep.len()
            &&& keep[kept(es, keep)[j] as int]
            &&& es.contains(kept(es, keep)[j])
        },
    decreases es.len(),
{
    if es.len() > 0 {
        lemma_kept_props(es.drop_last(), keep);
        let rest = kept(es.drop_last(), keep);
        assert forall|j: int| 0 <= j < kept(es, keep).len() implies {
            &&& #[trigger] kept(es, keep)[j] < keep.len()
            &&& keep[kept(es, keep)[j] as int]
            &&& es.contains(kept(es, keep)[j])
        } by {
            if j < rest.len() {
                assert(kept(es, keep)[j] == rest[j]);
                let x = rest[j];
                assert(es.drop_last().contains(x));
                let w = choose|w: int| 0 <= w < es.drop_last().len() && es.drop_last()[w] == x;
                assert(es[w] == x);
            } else {
                assert(es[es.len() - 1] == es.last());
            }
        }
    }
}

/// The entries of `es` under keys other than `k`, in order.
pub open spec fn without_key(es: Seq<(Seq<char>, Modifier)>, k: Seq<char>) -> Seq<(Seq<char>, Modifier)>
    decreases es.len(),
{
    if es.len() == 0 {
        Seq::empty()
    } else if es.last().0 == k {
        without_key(es.drop_last(), k)
    } else {
        without_key(es.drop_last(), k).push(es.last())
    }
}

proof fn lemma_without_key_update(es: Seq<(Seq<char>, Modifier)>, p: int, e: (Seq<char>, Modifier))
    requires
        0 <= p < es.len(),
        es[p].0 == e.0,
    ensures
        without_key(es.update(p, e), e.0) == without_key(es, e.0),
    decreases es.len(),
{
    let u = es.update(p, e);
    if p < es.len() - 1 {
        assert(u.drop_last() =~= es.drop_last().update(p, e));
        lemma_without_key_update(es.drop_last(), p, e);
        assert(u.last() == es.last());
    } else {
        assert(u.drop_last() =~= es.drop_last());
    }
}

/// A second modifier on the same field replaces the first in its place:
/// the field then has exactly one modifier, the later one, and the
/// modifiers of the other fields stay as they were, in their order.
pub proof fn lemma_modifier_replacement(es: Seq<(Seq<char>, Modifier)>, a: Modifier, b: Modifier)
    requires
        modifiers_wf(es),
        a@.name == b@.name,
    ensures
        ({
            let r = entry_inserted(entry_inserted(es, a@.name, a), b@.name, b);
            &&& exists|i: int| 0 <= i < r.len() && r[i] == (b@.name, b)
                && forall|j: int| 0 <= j < r.len() && j != i ==> r[j].0 != b@.name
            &&& without_key(r, b@.name) == without_key(es, b@.name)
        }),
{
    let n = a@.name;
    let es1 = entry_inserted(es, n, a);
    let r = entry_inserted(es1, n, b);
    lemma_key_position(es, n);
    match key_position(es, n) {
        Some(p) => {
            assert(es1 == es.update(p, (n, a)));
            lemma_key_position(es1, n);
            assert(es1[p].0 == n);
            assert(key_position(es1, n) == Some(p));
            assert(r == es.update(p, (n, b)));
            assert(r[p] == (n, b));
            assert forall|j: int| 0 <= j < r.len() && j != p implies r[j].0 != n by {
                assert(r[j] == es[j]);
            }
            lemma_without_key_update(es, p, (n, b));
        },
        None => {
            assert(es1 == es.push((n, a)));
            lemma_key_position(es1, n);
            assert(es1[es.len() as int].0 == n);
            assert(key_position(es1, n) == Some(es.len() as int));
            assert(r =~= es.push((n, b)));
            assert(r[es.len() as int] == (n, b));
            assert forall|j: int| 0 <= j < r.len() && j != es.len() implies r[j].0 != n by {
                assert(r[j] == es[j]);
            }
            assert(r.drop_last() =~= es);
        },
    }
}

proof fn lemma_kept_twice(es: Seq<usize>, keep: Seq<bool>)
    ensures
        kept(kept(es, keep), keep) == kept(es, keep),
    decreases es.len(),
{
    if es.len() > 0 {
        lemma_kept_twice(es.drop_last(), keep);
        let rest = kept(es.drop_last(), keep);
        let x = es.last();
        if x < keep.len() && keep[x as int] {
            assert(rest.push(x).drop_last() =~= rest);
        }
    }
}

/// Filtering is idempotent: a filter that does not group, applied to what
/// it already showed, shows the same entries again.
pub proof fn lemma_filter_idempotent(f: FilterView, s: StoreState, e: EntriesView)
    requires
        f.group_by is None,
    ensures
        applied(f, s, applied(f, s, e)) == applied(f, s, e),
{
    let keep = accepted_events(f.modifiers, s);
    match e {
        EntriesView::Flat(v) => {
            lemma_kept_twice(v, keep);
        },
        EntriesView::Grouped { group_by, groups } => {
            let once = groups.map_values(|g: (Option<Value>, Seq<usize>)| (g.0, kept(g.1, keep)));
            let twice = once.map_values(|g: (Option<Value>, Seq<usize>)| (g.0, kept(g.1, keep)));
            assert forall|i: int| 0 <= i < once.len() implies twice[i] == once[i] by {
                lemma_kept_twice(groups[i].1, keep);
            }
            assert(twice =~= once);
        },
    }
}

proof fn lemma_chars_cmp_antisymmetric(a: Seq<char>, b: Seq<char>)
    ensures
        crate::text::chars_cmp(a, b) == -crate::text::chars_cmp(b, a),
    decreases a.len(),
{
    if a.len() > 0 && b.len() > 0 && (a[0] as u32) == (b[0] as u32) {
        lemma_chars_cmp_antisymmetric(a.drop_first(), b.drop_first());
    }
}

proof fn lemma_value_cmp_antisymmetric(a: Value, b: Value)
    ensures
        value_cmp(a, b) == -value_cmp(b, a),
{
    match (a, b) {
        (Value::Str(x), Value::Str(y)) => lemma_chars_cmp_antisymmetric(x@, y@),
        (Value::Debug(x), Value::Debug(y)) => {
            lemma_chars_cmp_antisymmetric(x.debug@, y.debug@);
            lemma_chars_cmp_antisymmetric(x.pretty@, y.pretty@);
        },
        _ => {},
    }
}

proof fn lemma_first_above(acc: Seq<Value>, k: Value)
    ensures
        first_above(acc, k) <= acc.len(),
        forall|j: int| 0 <= j < first_above(acc, k) ==> value_cmp(k, #[trigger] acc[j]) >= 0,
        first_above(acc, k) < acc.len() ==> value_cmp(k, acc[first_above(acc, k) as int]) < 0,
    decreases acc.len(),
{
    if acc.len() > 0 && value_cmp(k, acc[0]) >= 0 {
        lemma_first_above(acc.drop_first(), k);
        assert forall|j: int| 0 <= j < first_above(acc, k) implies value_cmp(k, #[trigger] acc[j]) >= 0 by {
            if j > 0 {
                assert(acc[j] == acc.drop_first()[j - 1]);
            }
        }
        if first_above(acc, k) < acc.len() {
            assert(acc[first_above(acc, k) as int] == acc.drop_first()[first_above(acc, k) - 1]);
        }
    }
}

/// Whether each value of `keys` comes strictly before the next.
pub open spec fn strictly_ordered(keys: Seq<Value>) -> bool {
    forall|i: int| 0 <= i < keys.len() - 1 ==> value_cmp(#[trigger] keys[i], keys[i + 1]) < 0
}

proof fn lemma_insert_key_ordered(acc: Seq<Value>, k: Value)
    requires
        strictly_ordered(acc),
    ensures
        strictly_ordered(insert_key(acc, k)),
{
    if !holds_same(acc, k) {
        let p = first_above(acc, k) as int;
        lemma_first_above(acc, k);
        let r = acc.insert(p, k);
        acc.insert_ensures(p, k);
        assert forall|i: int| 0 <= i < r.len() - 1 implies value_cmp(#[trigger] r[i], r[i + 1]) < 0 by {
            if i + 1 < p {
                assert(r[i] == acc[i] && r[i + 1] == acc[i + 1]);
            } else if i + 1 == p {
                assert(r[i] == acc[i] && r[i + 1] == k);
                assert(!value_same(acc[i], k));
                lemma_value_cmp_antisymmetric(acc[i], k);
            } else if i == p {
                assert(r[i] == k && r[i + 1] == acc[i]);
            } else {
                assert(r[i] == acc[i - 1] && r[i + 1] == acc[i]);
            }
        }
    }
}

proof fn lemma_distinct_keys_ordered(keys: Seq<Option<Value>>)
    ensures
        strictly_ordered(distinct_keys(keys)),
    decreases keys.len(),
{
    if keys.len() > 0 {
        lemma_distinct_keys_ordered(keys.drop_last());
        match keys.last() {
            Some(k) => lemma_insert_key_ordered(distinct_keys(keys.drop_last()), k),
            None => {},
        }
    }
}

/// Groups come in increasing order of their keys: each group's key comes
/// strictly before the next group's.
pub proof fn lemma_groups_ordered(s: StoreState, g: GroupByView, es: Seq<usize>)
    ensures
        forall|i: int| 0 <= i < grouped(s, g, es).len() - 1 ==> value_cmp(
            (#[trigger] grouped(s, g, es)[i]).0->Some_0,
            grouped(s, g, es)[i + 1].0->Some_0,
        ) < 0,
{
    let keys = keys_of(s, g, es);
    lemma_distinct_keys_ordered(keys);
    let d = distinct_keys(keys);
    assert forall|i: int| 0 <= i < grouped(s, g, es).len() - 1 implies value_cmp(
        (#[trigger] grouped(s, g, es)[i]).0->Some_0,
        grouped(s, g, es)[i + 1].0->Some_0,
    ) < 0 by {
        assert(grouped(s, g, es)[i].0 == Some(d[i]));
        assert(grouped(s, g, es)[i + 1].0 == Some(d[i + 1]));
    }
}

} // verus!
