//! Span registry of the subscriber: dense span ids, reference counts and an
//! intrusive free-list through the slots of released spans.
use vstd::prelude::*;
use std::collections::HashMap;

verus! {

broadcast use vstd::std_specs::hash::group_hash_axioms;

/// Identifier of a traced thread, assigned by the subscriber.
#[derive(Clone, Copy, Debug, PartialEq, Eq, Hash, PartialOrd, Ord)]
pub struct ThreadId(pub usize);

/// A subscriber-side span id: a nonzero integer whose slot index is `id - 1`.
#[derive(Clone, Copy, Debug, PartialEq, Eq, Hash)]
pub struct SpanId(pub u64);

impl SpanId {
    /// The id `id`, which must not be zero.
    pub fn new(id: u64) -> (r: SpanId)
        requires
            id != 0,
        ensures
            r.0 == id,
    {
        SpanId(id)
    }

    /// Index of the slot of this id.
    pub fn as_index(&self) -> (r: usize)
        requires
            self.0 != 0,
            self.0 - 1 <= usize::MAX,
        ensures
            r == self.0 - 1,
    {
        (self.0 - 1) as usize
    }

    /// The id as it is written on the wire.
    pub fn as_message(&self) -> (r: u64)
        ensures
            r == self.0,
    {
        self.0
    }
}

/// The live part of a slot: its reference count and its follows-from ids.
#[derive(Debug)]
pub struct Span {
    pub refcount: usize,
    pub follows: Vec<SpanId>,
}

/// A slot of the registry.
#[derive(Debug)]
pub enum SpanState {
    Active(Span),
    Free { next_id: Option<SpanId> },
}

/// What a slot holds, as a mathematical value.
pub enum SlotView {
    Active { refcount: nat, follows: Seq<u64> },
    Free { next: Option<u64> },
}

impl SlotView {
    pub open spec fn is_active(self) -> bool {
        self is Active
    }
}

pub open spec fn opt_id(o: Option<SpanId>) -> Option<u64> {
    match o {
        Some(id) => Some(id.0),
        None => None,
    }
}

impl SpanState {
    pub open spec fn view_slot(&self) -> SlotView {
        match self {
            SpanState::Active(s) => SlotView::Active {
                refcount: s.refcount as nat,
                follows: s.follows@.map_values(|f: SpanId| f.0),
            },
            SpanState::Free { next_id } => SlotView::Free { next: opt_id(*next_id) },
        }
    }

    /// The span of an active slot.
    pub fn as_active(&self) -> (r: Option<&Span>)
        ensures
            r is Some <==> self is Active,
            self is Active ==> r == Some(&self->Active_0),
    {
        match self {
            SpanState::Active(span) => Some(span),
            SpanState::Free { .. } => None,
        }
    }
}

/// The registry as a mathematical value.
pub struct RegistryView {
    /// Slot `i` belongs to span id `i + 1`.
    pub slots: Seq<SlotView>,
    /// Head of the free-list.
    pub head: Option<u64>,
    /// The free-list, from its head, as the chain of `next` links gives it.
    pub free_list: Seq<u64>,
    pub updated: bool,
}

/// Whether `id` names a slot of `slots`.
pub open spec fn in_range(slots: Seq<SlotView>, id: u64) -> bool {
    1 <= id && id <= slots.len()
}

/// Whether `id` names an active slot of `slots`.
pub open spec fn active_id(slots: Seq<SlotView>, id: u64) -> bool {
    in_range(slots, id) && slots[id - 1].is_active()
}

impl RegistryView {
    /// The link that follows position `i` of the free-list.
    pub open spec fn link_after(self, i: int) -> Option<u64> {
        if i + 1 < self.free_list.len() {
            Some(self.free_list[i + 1])
        } else {
            None
        }
    }

    /// The registry after a new span was given an id, and that id.
    pub open spec fn after_new(self) -> (RegistryView, u64) {
        let fresh = SlotView::Active { refcount: 1, follows: Seq::empty() };
        match self.head {
            Some(h) => (
                RegistryView {
                    slots: self.slots.update(h - 1, fresh),
                    head: self.slots[h - 1]->Free_next,
                    free_list: self.free_list.subrange(1, self.free_list.len() as int),
                    updated: self.updated,
                },
                h,
            ),
            None => (
                RegistryView {
                    slots: self.slots.push(fresh),
                    head: None,
                    free_list: self.free_list,
                    updated: self.updated,
                },
                (self.slots.len() + 1) as u64,
            ),
        }
    }

    /// The registry after one more reference to span `id`.
    pub open spec fn after_clone(self, id: u64) -> RegistryView {
        let s = self.slots[id - 1];
        RegistryView {
            slots: self.slots.update(
                id - 1,
                SlotView::Active { refcount: s->Active_refcount + 1, follows: s->Active_follows },
            ),
            ..self
        }
    }

    /// The registry after one reference to span `id` was dropped.
    pub open spec fn after_drop(self, id: u64) -> RegistryView {
        let s = self.slots[id - 1];
        if s->Active_refcount == 1 {
            RegistryView {
                slots: self.slots.update(id - 1, SlotView::Free { next: self.head }),
                head: Some(id),
                free_list: seq![id] + self.free_list,
                updated: self.updated,
            }
        } else {
            RegistryView {
                slots: self.slots.update(
                    id - 1,
                    SlotView::Active {
                        refcount: (s->Active_refcount - 1) as nat,
                        follows: s->Active_follows,
                    },
                ),
                ..self
            }
        }
    }

    /// The registry after span `id` was recorded to follow from `follows`.
    pub open spec fn after_follows(self, id: u64, follows: u64) -> RegistryView {
        let s = self.slots[id - 1];
        RegistryView {
            slots: self.slots.update(
                id - 1,
                SlotView::Active {
                    refcount: s->Active_refcount,
                    follows: s->Active_follows.push(follows),
                },
            ),
            updated: true,
            ..self
        }
    }

    /// Well-formedness: active slots hold a live count, and the free-list is
    /// a chain without repeats that runs through exactly the free slots.
    pub open spec fn wf(self) -> bool {
        &&& forall|i: int| 0 <= i < self.slots.len() && (#[trigger] self.slots[i]) is Active
            ==> self.slots[i]->Active_refcount >= 1
        &&& self.head == (if self.free_list.len() == 0 { None } else { Some(self.free_list[0]) })
        &&& self.free_list.no_duplicates()
        &&& forall|i: int| 0 <= i < self.free_list.len() ==> {
            &&& in_range(self.slots, #[trigger] self.free_list[i])
            &&& self.slots[self.free_list[i] - 1] == SlotView::Free { next: self.link_after(i) }
        }
        &&& forall|j: int| 0 <= j < self.slots.len() && (#[trigger] self.slots[j]) is Free
            ==> self.free_list.contains((j + 1) as u64)
    }
}

/// The span registry: a dense vector of slots, with the free ones threaded
/// into a list from `next_id`.
pub struct Registry {
    spans: Vec<SpanState>,
    next_id: Option<SpanId>,
    updated: bool,
    free_list: Ghost<Seq<u64>>,
    thread_names: HashMap<usize, String>,
}

impl View for Registry {
    type V = RegistryView;

    closed spec fn view(&self) -> RegistryView {
        RegistryView {
            slots: self.spans@.map_values(|s: SpanState| s.view_slot()),
            head: opt_id(self.next_id),
            free_list: self.free_list@,
            updated: self.updated,
        }
    }
}

impl Registry {
    pub closed spec fn wf(&self) -> bool {
        &&& self@.wf()
        &&& self.spans@.len() <= u64::MAX
    }

    /// An empty registry.
    pub fn new() -> (r: Registry)
        ensures
            r.wf(),
            r@.slots.len() == 0,
            r@.head is None,
            !r@.updated,
    {
        Registry {
            spans: Vec::new(),
            next_id: None,
            updated: false,
            free_list: Ghost(Seq::empty()),
            thread_names: HashMap::new(),
        }
    }

    /// The names of the threads, by thread id.
    pub closed spec fn names(&self) -> Map<usize, String> {
        self.thread_names@
    }

    /// Remembers the name of thread `id`.
    pub fn register_thread_name(&mut self, id: ThreadId, name: String)
        requires
            old(self).wf(),
        ensures
            final(self).wf(),
            final(self)@ == old(self)@,
            final(self).names() == old(self).names().insert(id.0, name),
    {
        self.thread_names.insert(id.0, name);
    }

    /// The name of thread `id`, if it has one.
    pub fn thread_name(&self, id: ThreadId) -> (r: Option<&String>)
        ensures
            match r {
                Some(n) => self.names().contains_key(id.0) && *n == self.names()[id.0],
                None => !self.names().contains_key(id.0),
            },
    {
        self.thread_names.get(&id.0)
    }

    /// The number of slots, which is the number of distinct ids handed out.
    pub fn len(&self) -> (r: usize)
        ensures
            r == self@.slots.len(),
    {
        self.spans.len()
    }

    /// Takes slot `idx` out, leaving a free slot without a link in its place.
    fn take_slot(&mut self, idx: usize) -> (r: SpanState)
        requires
            idx < old(self).spans@.len(),
        ensures
            r == old(self).spans@[idx as int],
            final(self).spans@ == old(self).spans@.update(idx as int, SpanState::Free { next_id: None }),
            final(self).next_id == old(self).next_id,
            final(self).updated == old(self).updated,
            final(self).free_list == old(self).free_list,
            final(self).thread_names@ == old(self).thread_names@,
    {
        let mut slot = SpanState::Free { next_id: None };
        std::mem::swap(&mut slot, &mut self.spans[idx]);
        slot
    }

    /// Hands out an id for a new span: the head of the free-list if there is
    /// one, else a fresh slot at the end. The slot becomes active with a
    /// count of one.
    pub fn new_id(&mut self) -> (r: SpanId)
        requires
            old(self).wf(),
            old(self)@.slots.len() < u64::MAX,
        ensures
            final(self).wf(),
            (final(self)@, r.0) == old(self)@.after_new(),
            final(self).names() == old(self).names(),
            !active_id(old(self)@.slots, r.0),
            active_id(final(self)@.slots, r.0),
    {
        let span = SpanState::Active(Span { refcount: 1, follows: Vec::new() });
        proof {
            assert(span.view_slot() == SlotView::Active { refcount: 1, follows: Seq::empty() }) by {
                assert(Seq::<SpanId>::empty().map_values(|f: SpanId| f.0) =~= Seq::empty());
            }
        }
        match self.next_id {
            Some(id) => {
                let ghost old_v = self@;
                let ghost fl = self.free_list@;
                assert(fl[0] == id.0);
                assert(in_range(old_v.slots, fl[0]));
                let n = self.spans.len();
                assert(old_v.slots.len() == n);
                let idx = id.as_index();
                let old_slot = self.take_slot(idx);
                let next = match old_slot {
                    SpanState::Free { next_id } => next_id,
                    SpanState::Active(_) => None,
                };
                self.spans[idx] = span;
                self.next_id = next;
                self.free_list = Ghost(fl.subrange(1, fl.len() as int));
                proof {
                    let v = self@;
                    assert(old_v.slots[idx as int] == SlotView::Free { next: old_v.link_after(0) });
                    assert(v.slots =~= old_v.slots.update(
                        idx as int,
                        SlotView::Active { refcount: 1, follows: Seq::empty() },
                    ));
                    assert forall|i: int| 0 <= i < v.free_list.len() implies {
                        &&& in_range(v.slots, #[trigger] v.free_list[i])
                        &&& v.slots[v.free_list[i] - 1] == SlotView::Free { next: v.link_after(i) }
                    } by {
                        assert(v.free_list[i] == fl[i + 1]);
                        assert(fl[i + 1] != fl[0]);
                        assert(old_v.link_after(i + 1) == v.link_after(i));
                    }
                    assert forall|j: int| 0 <= j < v.slots.len() && (#[trigger] v.slots[j]) is Free
                        implies v.free_list.contains((j + 1) as u64) by {
                        assert(j != idx);
                        assert(old_v.slots[j] is Free);
                        let k = choose|k: int| 0 <= k < fl.len() && fl[k] == (j + 1) as u64;
                        assert(k != 0);
                        assert(v.free_list[k - 1] == (j + 1) as u64);
                    }
                }
                id
            },
            None => {
                let ghost old_v = self@;
                proof {
                    assert forall|j: int| 0 <= j < old_v.slots.len() implies (#[trigger] old_v.slots[j]) is Active by {
                        if old_v.slots[j] is Free {
                            assert(old_v.free_list.contains((j + 1) as u64));
                        }
                    }
                }
                self.spans.push(span);
                proof {
                    assert(self@.slots =~= old_v.slots.push(
                        SlotView::Active { refcount: 1, follows: Seq::empty() },
                    ));
                }
                SpanId(self.spans.len() as u64)
            },
        }
    }

    /// Adds one reference to the active span `id`.
    pub fn clone_span(&mut self, id: &SpanId) -> (r: SpanId)
        requires
            old(self).wf(),
            active_id(old(self)@.slots, id.0),
            old(self)@.slots[id.0 - 1]->Active_refcount < usize::MAX,
        ensures
            final(self).wf(),
            r == *id,
            final(self)@ == old(self)@.after_clone(id.0),
            final(self).names() == old(self).names(),
    {
        let ghost old_v = self@;
        let n = self.spans.len();
        let idx = id.as_index();
        let slot = self.take_slot(idx);
        match slot {
            SpanState::Active(span) => {
                self.spans[idx] = SpanState::Active(
                    Span { refcount: span.refcount + 1, follows: span.follows },
                );
            },
            SpanState::Free { next_id } => {
                self.spans[idx] = SpanState::Free { next_id };
            },
        }
        proof {
            let v = self@;
            assert(v.slots =~= old_v.slots.update(
                idx as int,
                SlotView::Active {
                    refcount: old_v.slots[idx as int]->Active_refcount + 1,
                    follows: old_v.slots[idx as int]->Active_follows,
                },
            ));
            assert forall|i: int| 0 <= i < v.free_list.len() implies {
                &&& in_range(v.slots, #[trigger] v.free_list[i])
                &&& v.slots[v.free_list[i] - 1] == SlotView::Free { next: v.link_after(i) }
            } by {
                assert(old_v.slots[v.free_list[i] - 1] is Free);
            }
            assert forall|j: int| 0 <= j < v.slots.len() && (#[trigger] v.slots[j]) is Free
                implies v.free_list.contains((j + 1) as u64) by {
                assert(old_v.slots[j] is Free);
            }
        }
        *id
    }

    /// Drops one reference to the active span `id`. The last reference
    /// frees the slot, forgets its follows-from ids and pushes the id on the
    /// free-list.
    pub fn drop_span(&mut self, id: &SpanId)
        requires
            old(self).wf(),
            active_id(old(self)@.slots, id.0),
        ensures
            final(self).wf(),
            final(self)@ == old(self)@.after_drop(id.0),
            final(self).names() == old(self).names(),
    {
        let ghost old_v = self@;
        let n = self.spans.len();
        let idx = id.as_index();
        let slot = self.take_slot(idx);
        match slot {
            SpanState::Active(span) => {
                if span.refcount == 1 {
                    self.spans[idx] = SpanState::Free { next_id: self.next_id };
                    self.next_id = Some(*id);
                    self.free_list = Ghost(seq![id.0] + old_v.free_list);
                    proof {
                        let v = self@;
                        assert(v.slots =~= old_v.slots.update(
                            idx as int,
                            SlotView::Free { next: old_v.head },
                        ));
                        assert(!old_v.free_list.contains(id.0)) by {
                            if old_v.free_list.contains(id.0) {
                                let k = choose|k: int| 0 <= k < old_v.free_list.len() && old_v.free_list[k] == id.0;
                                assert(old_v.slots[old_v.free_list[k] - 1] is Free);
                            }
                        }
                        assert forall|i: int| 0 <= i < v.free_list.len() implies {
                            &&& in_range(v.slots, #[trigger] v.free_list[i])
                            &&& v.slots[v.free_list[i] - 1] == SlotView::Free { next: v.link_after(i) }
                        } by {
                            if i > 0 {
                                assert(v.free_list[i] == old_v.free_list[i - 1]);
                                assert(old_v.link_after(i - 1) == v.link_after(i));
                            }
                        }
                        assert forall|j: int| 0 <= j < v.slots.len() && (#[trigger] v.slots[j]) is Free
                            implies v.free_list.contains((j + 1) as u64) by {
                            if j != idx {
                                assert(old_v.slots[j] is Free);
                                let k = choose|k: int| 0 <= k < old_v.free_list.len() && old_v.free_list[k] == (j + 1) as u64;
                                assert(v.free_list[k + 1] == (j + 1) as u64);
                            } else {
                                assert(v.free_list[0] == (j + 1) as u64);
                            }
                        }
                    }
                } else {
                    self.spans[idx] = SpanState::Active(
                        Span { refcount: span.refcount - 1, follows: span.follows },
                    );
                    proof {
                        let v = self@;
                        assert(v.slots =~= old_v.slots.update(
                            idx as int,
                            SlotView::Active {
                                refcount: (old_v.slots[idx as int]->Active_refcount - 1) as nat,
                                follows: old_v.slots[idx as int]->Active_follows,
                            },
                        ));
                        assert forall|i: int| 0 <= i < v.free_list.len() implies {
                            &&& in_range(v.slots, #[trigger] v.free_list[i])
                            &&& v.slots[v.free_list[i] - 1] == SlotView::Free { next: v.link_after(i) }
                        } by {
                            assert(old_v.slots[v.free_list[i] - 1] is Free);
                        }
                        assert forall|j: int| 0 <= j < v.slots.len() && (#[trigger] v.slots[j]) is Free
                            implies v.free_list.contains((j + 1) as u64) by {
                            assert(old_v.slots[j] is Free);
                        }
                    }
                }
            },
            SpanState::Free { next_id } => {
                self.spans[idx] = SpanState::Free { next_id };
            },
        }
    }
    /// Records that the active span `id` follows from `follows`, and marks
    /// the registry as updated.
    pub fn record_follows_from(&mut self, id: &SpanId, follows: SpanId)
        requires
            old(self).wf(),
            active_id(old(self)@.slots, id.0),
        ensures
            final(self).wf(),
            final(self)@ == old(self)@.after_follows(id.0, follows.0),
            final(self).names() == old(self).names(),
    {
        let ghost old_v = self@;
        let n = self.spans.len();
        let idx = id.as_index();
        let slot = self.take_slot(idx);
        match slot {
            SpanState::Active(span) => {
                let mut list = span.follows;
                list.push(follows);
                self.spans[idx] = SpanState::Active(Span { refcount: span.refcount, follows: list });
                proof {
                    assert(list@.map_values(|f: SpanId| f.0) =~= old_v.slots[idx as int]->Active_follows.push(follows.0));
                }
            },
            SpanState::Free { next_id } => {
                self.spans[idx] = SpanState::Free { next_id };
            },
        }
        self.updated = true;
        proof {
            let v = self@;
            assert(v.slots =~= old_v.after_follows(id.0, follows.0).slots);
            assert forall|i: int| 0 <= i < v.free_list.len() implies {
                &&& in_range(v.slots, #[trigger] v.free_list[i])
                &&& v.slots[v.free_list[i] - 1] == SlotView::Free { next: v.link_after(i) }
            } by {
                assert(old_v.slots[v.free_list[i] - 1] is Free);
            }
            assert forall|j: int| 0 <= j < v.slots.len() && (#[trigger] v.slots[j]) is Free
                implies v.free_list.contains((j + 1) as u64) by {
                assert(old_v.slots[j] is Free);
            }
        }
    }

    /// The ids on the free-list, from its head, following the links.
    pub fn free_ids(&self) -> (r: Vec<u64>)
        requires
            self.wf(),
        ensures
            r@ == self@.free_list,
    {
        let ghost fl = self@.free_list;
        let n = self.spans.len();
        let mut out: Vec<u64> = Vec::new();
        let mut cur = self.next_id;
        while cur.is_some()
            invariant
                self.wf(),
                fl == self@.free_list,
                n == self@.slots.len(),
                out@.len() <= fl.len(),
                out@ == fl.subrange(0, out@.len() as int),
                opt_id(cur) == (if out@.len() < fl.len() { Some(fl[out@.len() as int]) } else { None }),
            decreases fl.len() - out@.len(),
        {
            let id = cur.unwrap();
            let k = out.len();
            assert(in_range(self@.slots, fl[k as int]));
            let idx = id.as_index();
            let next = match &self.spans[idx] {
                SpanState::Free { next_id } => *next_id,
                SpanState::Active(_) => None,
            };
            proof {
                assert(self@.slots[idx as int] == SlotView::Free { next: self@.link_after(k as int) });
                assert(self@.slots[idx as int] == self.spans@[idx as int].view_slot());
            }
            out.push(id.0);
            cur = next;
            assert(out@ =~= fl.subrange(0, out@.len() as int));
        }
        assert(out@ =~= fl);
        out
    }

    /// Whether the registry changed since the last `clear`.
    pub fn updated(&self) -> (r: bool)
        ensures
            r == self@.updated,
    {
        self.updated
    }

    /// Forgets that the registry changed.
    pub fn clear(&mut self)
        requires
            old(self).wf(),
        ensures
            final(self).wf(),
            final(self)@ == (RegistryView { updated: false, ..old(self)@ }),
    {
        self.updated = false;
    }

    /// Whether `id` names an active span.
    pub fn is_active(&self, id: &SpanId) -> (r: bool)
        ensures
            r == active_id(self@.slots, id.0),
    {
        let n = self.spans.len();
        if id.0 == 0 || id.0 > n as u64 {
            false
        } else {
            match &self.spans[(id.0 - 1) as usize] {
                SpanState::Active(_) => true,
                SpanState::Free { .. } => false,
            }
        }
    }

    /// The reference count of the active span `id`.
    pub fn refcount(&self, id: &SpanId) -> (r: usize)
        requires
            active_id(self@.slots, id.0),
        ensures
            r == self@.slots[id.0 - 1]->Active_refcount,
    {
        let n = self.spans.len();
        let idx = id.as_index();
        match &self.spans[idx] {
            SpanState::Active(span) => span.refcount,
            SpanState::Free { .. } => 0,
        }
    }
}

/// Every registry reached by the operations keeps a live count in each
/// active slot; and once every span has been released, the free-list runs
/// through every id ever handed out, so its length is the number of spans
/// ever created.
pub proof fn lemma_released_registry_chains_all(r: &Registry)
    requires
        r.wf(),
    ensures
        r@.wf(),
        forall|i: int| 0 <= i < r@.slots.len() && (#[trigger] r@.slots[i]) is Active
            ==> r@.slots[i]->Active_refcount >= 1,
        (forall|i: int| 0 <= i < r@.slots.len() ==> (#[trigger] r@.slots[i]) is Free)
            ==> r@.free_list.len() == r@.slots.len(),
{
    let v = r@;
    if forall|i: int| 0 <= i < v.slots.len() ==> (#[trigger] v.slots[i]) is Free {
        let n = v.slots.len();
        let all = Seq::new(n, |j: int| (j + 1) as u64);
        assert(all.no_duplicates());
        assert(v.free_list.to_set() =~= all.to_set()) by {
            assert forall|x: u64| v.free_list.to_set().contains(x) implies all.to_set().contains(x) by {
                let k = choose|k: int| 0 <= k < v.free_list.len() && v.free_list[k] == x;
                assert(in_range(v.slots, v.free_list[k]));
                assert(all[x - 1] == x);
            }
            assert forall|x: u64| all.to_set().contains(x) implies v.free_list.to_set().contains(x) by {
                let k = choose|k: int| 0 <= k < all.len() && all[k] == x;
                assert(v.slots[k] is Free);
            }
        }
        v.free_list.unique_seq_to_set();
        all.unique_seq_to_set();
    }
}

/// A span id that is dropped right after it was handed out is the next id
/// handed out: the free-list is last in, first out.
pub proof fn lemma_new_drop_new_reuses(v: RegistryView)
    requires
        v.wf(),
        v.slots.len() < u64::MAX,
    ensures
        ({
            let (v1, id) = v.after_new();
            let v2 = v1.after_drop(id);
            v2.after_new().1 == id
        }),
{
    let (v1, id) = v.after_new();
    if v.head is Some {
        assert(in_range(v.slots, v.free_list[0]));
    }
    assert(v1.slots[id - 1] == SlotView::Active { refcount: 1, follows: Seq::empty() });
}


} // verus!
