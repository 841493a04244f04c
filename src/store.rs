//! The console's store: every event and span that arrived, under internal
//! ids that the console assigns in arrival order and never reuses.
//!
//! The subscriber reuses span ids. When it does, it sends a new span
//! message for the reused id: the store then gives that span a new internal
//! id and points the subscriber id at it, so the earlier span keeps its
//! history.
use vstd::prelude::*;
use std::collections::HashMap;
use crate::messages::{find_value, position_by_name, Event, NewSpan, Record, RecordFollowsFrom, Value, Variant};

verus! {

broadcast use vstd::std_specs::hash::group_hash_axioms;

/// Index of a span in the store.
#[derive(Clone, Copy, Debug, PartialEq, Eq)]
pub struct InternalId(pub usize);

/// A span as the store keeps it.
#[derive(Debug)]
pub struct Span {
    pub id: InternalId,
    pub span: NewSpan,
    pub parent_id: Option<InternalId>,
    pub records: Vec<Record>,
    pub follows: Vec<u64>,
}

/// A span of the store as a mathematical value.
pub struct SpanView {
    pub id: InternalId,
    pub span: NewSpan,
    pub parent_id: Option<InternalId>,
    pub records: Seq<Record>,
    pub follows: Seq<u64>,
}

impl View for Span {
    type V = SpanView;

    open spec fn view(&self) -> SpanView {
        SpanView {
            id: self.id,
            span: self.span,
            parent_id: self.parent_id,
            records: self.records@,
            follows: self.follows@,
        }
    }
}

/// The value of the first record, in order, that has a field `name`.
pub open spec fn find_in_records(records: Seq<Record>, name: Seq<char>) -> Option<Value>
    decreases records.len(),
{
    if records.len() == 0 {
        None
    } else if find_value(records[0].values@, name) is Some {
        find_value(records[0].values@, name)
    } else {
        find_in_records(records.drop_first(), name)
    }
}

/// The value of field `name` of a span: from its creation if it had one
/// there, else from the first record that has one.
pub open spec fn span_value(s: SpanView, name: Seq<char>) -> Option<Value> {
    if find_value(s.span.values@, name) is Some {
        find_value(s.span.values@, name)
    } else {
        find_in_records(s.records, name)
    }
}

impl Span {
    /// The value of the field `name` of this span.
    pub fn value_by_name(&self, name: &String) -> (r: Option<&Value>)
        ensures
            match r {
                Some(v) => span_value(self@, name@) == Some(*v),
                None => span_value(self@, name@) is None,
            },
    {
        match position_by_name(&self.span.values, name) {
            Some(i) => Some(&self.span.values[i].value),
            None => {
                let mut k: usize = 0;
                assert(self.records@.subrange(0, self.records@.len() as int) =~= self.records@);
                while k < self.records.len()
                    invariant
                        k <= self.records@.len(),
                        find_value(self.span.values@, name@) is None,
                        find_in_records(self.records@, name@) == find_in_records(
                            self.records@.subrange(k as int, self.records@.len() as int),
                            name@,
                        ),
                    decreases self.records@.len() - k,
                {
                    proof {
                        let rest = self.records@.subrange(k as int, self.records@.len() as int);
                        assert(rest[0] == self.records@[k as int]);
                        assert(rest.drop_first() =~= self.records@.subrange(k + 1, self.records@.len() as int));
                    }
                    match position_by_name(&self.records[k].values, name) {
                        Some(i) => {
                            proof {
                                let rest = self.records@.subrange(k as int, self.records@.len() as int);
                                assert(rest[0] == self.records@[k as int]);
                                assert(find_in_records(rest, name@) == find_value(rest[0].values@, name@));
                            }
                            return Some(&self.records[k].values[i].value);
                        },
                        None => {},
                    }
                    k = k + 1;
                }
                None
            },
        }
    }
}

/// An event with the internal id of the span it happened in.
#[derive(Clone, Debug)]
pub struct EventEntry {
    pub span: Option<InternalId>,
    pub event: Event,
}

impl EventEntry {
    /// The level of the event.
    pub fn level(&self) -> (r: crate::messages::Level)
        ensures
            r == self.event.attributes.metadata.level,
    {
        self.event.attributes.metadata.level
    }
}

/// The store as a mathematical value.
pub struct StoreState {
    pub events: Seq<EventEntry>,
    pub spans: Seq<SpanView>,
    pub updated: bool,
    /// Current internal id of each subscriber span id.
    pub id_map: Map<u64, usize>,
}

impl StoreState {
    /// The internal id that a subscriber id stands for now, if any.
    pub open spec fn resolve(self, sub_id: Option<u64>) -> Option<InternalId> {
        match sub_id {
            Some(s) => if self.id_map.contains_key(s) {
                Some(InternalId(self.id_map[s]))
            } else {
                None
            },
            None => None,
        }
    }

    /// Whether the store can take message `m`: every subscriber id it refers
    /// to, but that of a new span, is known.
    pub open spec fn accepts(self, m: Variant) -> bool {
        match m {
            Variant::NewSpan(_) => true,
            Variant::Record(r) => self.id_map.contains_key(r.span),
            Variant::Follows(f) => self.id_map.contains_key(f.span),
            Variant::Event(e) => e.span is Some ==> self.id_map.contains_key(e.span->Some_0),
        }
    }

    /// The store after message `m`.
    pub open spec fn after(self, m: Variant) -> StoreState {
        match m {
            Variant::NewSpan(n) => {
                let id = self.spans.len();
                StoreState {
                    spans: self.spans.push(SpanView {
                        id: InternalId(id as usize),
                        span: n,
                        parent_id: self.resolve(n.attributes.parent),
                        records: Seq::empty(),
                        follows: Seq::empty(),
                    }),
                    id_map: self.id_map.insert(n.span, id as usize),
                    updated: true,
                    ..self
                }
            },
            Variant::Record(r) => {
                let i = self.id_map[r.span] as int;
                StoreState {
                    spans: self.spans.update(i, SpanView { records: self.spans[i].records.push(r), ..self.spans[i] }),
                    updated: true,
                    ..self
                }
            },
            Variant::Follows(f) => {
                let i = self.id_map[f.span] as int;
                StoreState {
                    spans: self.spans.update(i, SpanView { follows: self.spans[i].follows.push(f.follows), ..self.spans[i] }),
                    updated: true,
                    ..self
                }
            },
            Variant::Event(e) => StoreState {
                events: self.events.push(EventEntry { span: self.resolve(e.span), event: e }),
                updated: true,
                ..self
            },
        }
    }

    /// Whether every message of `ms` is accepted by the store it reaches.
    pub open spec fn accepts_all(self, ms: Seq<Variant>) -> bool
        decreases ms.len(),
    {
        ms.len() == 0 || (self.accepts(ms[0]) && self.after(ms[0]).accepts_all(ms.drop_first()))
    }

    /// The store after the messages of `ms`, in order.
    pub open spec fn after_all(self, ms: Seq<Variant>) -> StoreState
        decreases ms.len(),
    {
        if ms.len() == 0 {
            self
        } else {
            self.after(ms[0]).after_all(ms.drop_first())
        }
    }

    /// Well-formedness: span `i` has internal id `i` and an earlier parent,
    /// and every internal id in the map or in an event names a span.
    pub open spec fn wf(self) -> bool {
        &&& forall|i: int| 0 <= i < self.spans.len() ==> (#[trigger] self.spans[i]).id.0 == i
        &&& forall|i: int| 0 <= i < self.spans.len() && (#[trigger] self.spans[i]).parent_id is Some
            ==> self.spans[i].parent_id->Some_0.0 < i
        &&& forall|s: u64| #[trigger] self.id_map.contains_key(s) ==> self.id_map[s] < self.spans.len()
        &&& forall|k: int| 0 <= k < self.events.len() && (#[trigger] self.events[k]).span is Some
            ==> self.events[k].span->Some_0.0 < self.spans.len()
    }
}

/// The console's store of events and spans.
#[derive(Debug)]
pub struct Store {
    events: Vec<EventEntry>,
    spans: Vec<Span>,
    updated: bool,
    id_map: HashMap<u64, usize>,
}

impl View for Store {
    type V = StoreState;

    closed spec fn view(&self) -> StoreState {
        StoreState {
            events: self.events@,
            spans: self.spans@.map_values(|s: Span| s@),
            updated: self.updated,
            id_map: self.id_map@,
        }
    }
}

impl Store {
    pub closed spec fn wf(&self) -> bool {
        self@.wf()
    }

    /// A well-formed store has a well-formed view.
    pub proof fn lemma_wf(&self)
        requires
            self.wf(),
        ensures
            self@.wf(),
    {
    }

    /// An empty store.
    pub fn new() -> (r: Store)
        ensures
            r.wf(),
            r@.events.len() == 0,
            r@.spans.len() == 0,
            r@.id_map.is_empty(),
            !r@.updated,
    {
        let r = Store { events: Vec::new(), spans: Vec::new(), updated: false, id_map: HashMap::new() };
        assert(r@.spans =~= Seq::empty());
        r
    }

    /// Whether anything arrived since the last `clear`.
    pub fn updated(&self) -> (r: bool)
        ensures
            r == self@.updated,
    {
        self.updated
    }

    /// Forgets that anything arrived.
    pub fn clear(&mut self)
        requires
            old(self).wf(),
        ensures
            final(self).wf(),
            final(self)@ == (StoreState { updated: false, ..old(self)@ }),
    {
        self.updated = false;
    }

    /// The events, in arrival order.
    pub fn events(&self) -> (r: &[EventEntry])
        ensures
            r@ == self@.events,
    {
        self.events.as_slice()
    }

    /// The spans, in the order of their internal ids.
    pub fn spans(&self) -> (r: &[Span])
        ensures
            r@.map_values(|s: Span| s@) == self@.spans,
    {
        self.spans.as_slice()
    }

    /// The span with internal id `id`.
    pub fn span(&self, id: InternalId) -> (r: &Span)
        requires
            id.0 < self@.spans.len(),
        ensures
            r@ == self@.spans[id.0 as int],
    {
        &self.spans[id.0]
    }

    /// The internal id that the subscriber id `sub_id` stands for now.
    pub fn internal_id(&self, sub_id: u64) -> (r: Option<InternalId>)
        ensures
            r == self@.resolve(Some(sub_id)),
    {
        match self.id_map.get(&sub_id) {
            Some(i) => Some(InternalId(*i)),
            None => None,
        }
    }

    /// Whether the store can take message `m`.
    pub fn accepts(&self, m: &Variant) -> (r: bool)
        ensures
            r == self@.accepts(*m),
    {
        match m {
            Variant::NewSpan(_) => true,
            Variant::Record(r) => self.id_map.contains_key(&r.span),
            Variant::Follows(f) => self.id_map.contains_key(&f.span),
            Variant::Event(e) => match e.span {
                Some(s) => self.id_map.contains_key(&s),
                None => true,
            },
        }
    }
    /// Takes in a new span: it gets the next internal id, the subscriber id
    /// now stands for it, and its parent is resolved through the map as it
    /// was before.
    pub fn new_span(&mut self, span: NewSpan)
        requires
            old(self).wf(),
            old(self)@.spans.len() < usize::MAX,
        ensures
            final(self).wf(),
            final(self)@ == old(self)@.after(Variant::NewSpan(span)),
    {
        let ghost old_v = self@;
        let id = self.spans.len();
        let parent_id = match span.attributes.parent {
            Some(p) => self.internal_id(p),
            None => None,
        };
        let sub_id = span.span;
        self.spans.push(Span {
            id: InternalId(id),
            span,
            parent_id,
            records: Vec::new(),
            follows: Vec::new(),
        });
        self.id_map.insert(sub_id, id);
        self.updated = true;
        proof {
            let v = self@;
            let want = old_v.after(Variant::NewSpan(span));
            assert(v.spans =~= want.spans);
            assert(v.id_map =~= want.id_map);
            assert forall|s: u64| #[trigger] v.id_map.contains_key(s) implies v.id_map[s] < v.spans.len() by {
                if s != sub_id {
                    assert(old_v.id_map.contains_key(s));
                }
            }
        }
    }

    /// Adds the field values of `record` to the span that its subscriber id
    /// stands for, which must be known.
    pub fn record(&mut self, record: Record)
        requires
            old(self).wf(),
            old(self)@.id_map.contains_key(record.span),
        ensures
            final(self).wf(),
            final(self)@ == old(self)@.after(Variant::Record(record)),
    {
        let ghost old_v = self@;
        let idx = *self.id_map.get(&record.span).unwrap();
        self.spans[idx].records.push(record);
        self.updated = true;
        proof {
            let want = old_v.after(Variant::Record(record));
            assert(self@.spans =~= want.spans);
        }
    }

    /// Records that the span of subscriber id `follows.span`, which must be
    /// known, follows from `follows.follows`.
    pub fn record_follows_from(&mut self, follows: RecordFollowsFrom)
        requires
            old(self).wf(),
            old(self)@.id_map.contains_key(follows.span),
        ensures
            final(self).wf(),
            final(self)@ == old(self)@.after(Variant::Follows(follows)),
    {
        let ghost old_v = self@;
        let idx = *self.id_map.get(&follows.span).unwrap();
        self.spans[idx].follows.push(follows.follows);
        self.updated = true;
        proof {
            let want = old_v.after(Variant::Follows(follows));
            assert(self@.spans =~= want.spans);
        }
    }

    /// Appends `event`, under the internal id of its span if it has one,
    /// which must be known.
    pub fn event(&mut self, event: Event)
        requires
            old(self).wf(),
            event.span is Some ==> old(self)@.id_map.contains_key(event.span->Some_0),
        ensures
            final(self).wf(),
            final(self)@ == old(self)@.after(Variant::Event(event)),
    {
        let span = match event.span {
            Some(s) => self.internal_id(s),
            None => None,
        };
        let ghost old_v = self@;
        self.events.push(EventEntry { span, event });
        self.updated = true;
        proof {
            let v = self@;
            assert(v.spans == old_v.spans);
            assert(v.id_map == old_v.id_map);
            if event.span is Some {
                assert(old_v.id_map.contains_key(event.span->Some_0));
            }
            assert forall|k: int| 0 <= k < v.events.len() && (#[trigger] v.events[k]).span is Some
                implies v.events[k].span->Some_0.0 < v.spans.len() by {
                if k < old_v.events.len() {
                    assert(v.events[k] == old_v.events[k]);
                }
            }
        }
    }

    /// Takes in one message of the stream.
    pub fn handle(&mut self, variant: Variant)
        requires
            old(self).wf(),
            old(self)@.accepts(variant),
            old(self)@.spans.len() < usize::MAX,
        ensures
            final(self).wf(),
            final(self)@ == old(self)@.after(variant),
    {
        match variant {
            Variant::NewSpan(span) => self.new_span(span),
            Variant::Record(record) => self.record(record),
            Variant::Follows(follows) => self.record_follows_from(follows),
            Variant::Event(event) => self.event(event),
        }
    }
}

/// A message that the store accepts keeps it well formed.
pub proof fn lemma_after_keeps_wf(v: StoreState, m: Variant)
    requires
        v.wf(),
        v.accepts(m),
        v.spans.len() < usize::MAX,
    ensures
        v.after(m).wf(),
        v.after(m).spans.len() >= v.spans.len(),
        v.after(m).spans.len() <= v.spans.len() + 1,
{
    let w = v.after(m);
    match m {
        Variant::NewSpan(n) => {
            assert forall|s: u64| #[trigger] w.id_map.contains_key(s) implies w.id_map[s] < w.spans.len() by {
                if s != n.span {
                    assert(v.id_map.contains_key(s));
                }
            }
            assert forall|i: int| 0 <= i < w.spans.len() && (#[trigger] w.spans[i]).parent_id is Some
                implies w.spans[i].parent_id->Some_0.0 < i by {
                if i < v.spans.len() {
                    assert(w.spans[i] == v.spans[i]);
                }
            }
        },
        Variant::Record(r) => {
            assert(v.id_map[r.span] < v.spans.len());
        },
        Variant::Follows(f) => {
            assert(v.id_map[f.span] < v.spans.len());
        },
        Variant::Event(e) => {
            assert forall|k: int| 0 <= k < w.events.len() && (#[trigger] w.events[k]).span is Some
                implies w.events[k].span->Some_0.0 < w.spans.len() by {
                if k < v.events.len() {
                    assert(w.events[k] == v.events[k]);
                }
            }
        },
    }
}

/// Internal ids are never reassigned: after any sequence of messages that
/// the store accepts, each span that was there keeps its internal id and its
/// creation message, even where later spans reuse its subscriber id.
pub proof fn lemma_internal_ids_stable(v: StoreState, ms: Seq<Variant>, i: int)
    requires
        v.wf(),
        v.accepts_all(ms),
        v.spans.len() + ms.len() < usize::MAX,
        0 <= i < v.spans.len(),
    ensures
        i < v.after_all(ms).spans.len(),
        v.after_all(ms).spans[i].id == v.spans[i].id,
        v.after_all(ms).spans[i].span == v.spans[i].span,
    decreases ms.len(),
{
    if ms.len() > 0 {
        let w = v.after(ms[0]);
        lemma_after_keeps_wf(v, ms[0]);
        assert(i < w.spans.len());
        assert(w.spans[i].id == v.spans[i].id && w.spans[i].span == v.spans[i].span);
        lemma_internal_ids_stable(w, ms.drop_first(), i);
    }
}

} // verus!
