//! A store for a console that runs in the traced process itself: span ids
//! recycled through a stack of released ids, a stack of entered spans per
//! thread, and the formatted events of each thread.
use vstd::prelude::*;
use crate::messages::Level;
use crate::registry::ThreadId;

verus! {

/// A formatted event of the in-process store.
#[derive(Clone, Debug)]
pub struct EventEntry {
    level: Level,
    collected_fields: String,
}

impl EventEntry {
    /// An event at `level` whose fields read `collected_fields`.
    pub fn new(level: Level, collected_fields: String) -> (r: EventEntry)
        ensures
            r.spec_level() == level,
            r.spec_text() == collected_fields@,
    {
        EventEntry { level, collected_fields }
    }

    pub closed spec fn spec_level(&self) -> Level {
        self.level
    }

    pub closed spec fn spec_text(&self) -> Seq<char> {
        self.collected_fields@
    }

    /// The level of the event.
    pub fn level(&self) -> (r: &Level)
        ensures
            *r == self.spec_level(),
    {
        &self.level
    }

    /// The fields of the event, as one text.
    pub fn display(&self) -> (r: &str)
        ensures
            r@ == self.spec_text(),
    {
        self.collected_fields.as_str()
    }
}

/// The events and the name of one thread.
#[derive(Debug)]
pub struct ThreadStore {
    pub lines: Vec<EventEntry>,
    pub name: Option<String>,
}

/// A span of the in-process store.
#[derive(Debug)]
pub struct Span {
    pub id: u64,
    pub ref_count: u64,
    pub follows: Vec<u64>,
}

/// The position of key `k` among the keys of `keys`.
pub open spec fn key_index(keys: Seq<usize>, k: usize) -> Option<int> {
    if exists|i: int| 0 <= i < keys.len() && keys[i] == k {
        Some(choose|i: int| 0 <= i < keys.len() && keys[i] == k)
    } else {
        None
    }
}

/// The in-process store.
#[derive(Debug)]
pub struct Store {
    stacks: Vec<(usize, Vec<u64>)>,
    threads: Vec<(usize, ThreadStore)>,
    spans: Vec<Span>,
    reusable: Vec<u64>,
    updated: bool,
}

impl Store {
    /// Span `i` has id `i + 1`; released ids name spans; each thread has
    /// one entry in each list.
    pub closed spec fn wf(&self) -> bool {
        &&& forall|i: int| 0 <= i < self.spans@.len() ==> (#[trigger] self.spans@[i]).id == i + 1
        &&& forall|i: int| 0 <= i < self.reusable@.len() ==> 1 <= #[trigger] self.reusable@[i] <= self.spans@.len()
        &&& forall|i: int, j: int| 0 <= i < j < self.stacks@.len() ==> self.stacks@[i].0 != self.stacks@[j].0
        &&& forall|i: int, j: int| 0 <= i < j < self.threads@.len() ==> self.threads@[i].0 != self.threads@[j].0
        &&& self.spans@.len() < u64::MAX
    }

    /// The number of spans ever created.
    pub closed spec fn span_count(&self) -> nat {
        self.spans@.len()
    }

    /// The reference count of span `id`.
    pub closed spec fn count_of(&self, id: u64) -> u64 {
        self.spans@[id - 1].ref_count
    }

    /// The released ids, the last one on top.
    pub closed spec fn released(&self) -> Seq<u64> {
        self.reusable@
    }

    /// The number of threads that have events or a name.
    pub closed spec fn thread_total(&self) -> nat {
        self.threads@.len()
    }

    /// The id of thread `i`, in the order they first appeared.
    pub closed spec fn thread_key(&self, i: int) -> usize {
        self.threads@[i].0
    }

    pub closed spec fn is_updated(&self) -> bool {
        self.updated
    }

    /// The entered spans of thread `t`, innermost last.
    pub closed spec fn stack_of(&self, t: usize) -> Seq<u64> {
        match key_index(self.stacks@.map_values(|e: (usize, Vec<u64>)| e.0), t) {
            Some(i) => self.stacks@[i].1@,
            None => Seq::empty(),
        }
    }

    /// The events and the name of thread `t`, if it has an entry.
    pub closed spec fn thread_entry(&self, t: usize) -> Option<(Seq<EventEntry>, Option<Seq<char>>)> {
        match key_index(self.threads@.map_values(|e: (usize, ThreadStore)| e.0), t) {
            Some(i) => Some((self.threads@[i].1.lines@, match self.threads@[i].1.name {
                Some(n) => Some(n@),
                None => None,
            })),
            None => None,
        }
    }

    proof fn lemma_thread_of(&self, t: usize, i: int)
        requires
            self.wf(),
            0 <= i < self.threads@.len(),
            self.threads@[i].0 == t,
        ensures
            self.thread_entry(t) == Some((self.threads@[i].1.lines@, match self.threads@[i].1.name {
                Some(n) => Some(n@),
                None => None,
            })),
    {
        let keys = self.threads@.map_values(|e: (usize, ThreadStore)| e.0);
        assert(keys[i] == t);
        let k = choose|k: int| 0 <= k < keys.len() && keys[k] == t;
        assert(keys[k] == self.threads@[k].0);
        if k != i {
            if k < i {
                assert(self.threads@[k].0 != self.threads@[i].0);
            } else {
                assert(self.threads@[i].0 != self.threads@[k].0);
            }
        }
    }

    proof fn lemma_thread_absent(&self, t: usize)
        requires
            forall|i: int| 0 <= i < self.threads@.len() ==> self.threads@[i].0 != t,
        ensures
            self.thread_entry(t) is None,
    {
        let keys = self.threads@.map_values(|e: (usize, ThreadStore)| e.0);
        assert forall|j: int| 0 <= j < keys.len() implies keys[j] != t by {
            assert(keys[j] == self.threads@[j].0);
        }
    }

    /// Two stores whose thread lists agree but on the entries of thread `t`,
    /// and on the end of the longer one, give other threads the same entry.
    proof fn lemma_same_threads(&self, other: &Store, t: usize, u: usize)
        requires
            self.wf(),
            other.wf(),
            u != t,
            other.threads@.len() <= self.threads@.len(),
            forall|j: int| 0 <= j < other.threads@.len() ==> #[trigger] self.threads@[j].0 == other.threads@[j].0,
            forall|j: int| 0 <= j < other.threads@.len() && other.threads@[j].0 != t ==> #[trigger] self.threads@[j] == other.threads@[j],
            forall|j: int| other.threads@.len() <= j < self.threads@.len() ==> #[trigger] self.threads@[j].0 == t,
        ensures
            self.thread_entry(u) == other.thread_entry(u),
    {
        if exists|j: int| 0 <= j < other.threads@.len() && other.threads@[j].0 == u {
            let j = choose|j: int| 0 <= j < other.threads@.len() && other.threads@[j].0 == u;
            other.lemma_thread_of(u, j);
            assert(self.threads@[j] == other.threads@[j]);
            self.lemma_thread_of(u, j);
        } else {
            other.lemma_thread_absent(u);
            assert forall|j: int| 0 <= j < self.threads@.len() implies self.threads@[j].0 != u by {
                if j < other.threads@.len() {
                    assert(self.threads@[j].0 == other.threads@[j].0);
                }
            }
            self.lemma_thread_absent(u);
        }
    }

    /// An empty store.
    pub fn new() -> (r: Store)
        ensures
            r.wf(),
            r.span_count() == 0,
            r.released().len() == 0,
            !r.is_updated(),
    {
        Store { stacks: Vec::new(), threads: Vec::new(), spans: Vec::new(), reusable: Vec::new(), updated: false }
    }

    /// Whether anything was recorded since the last `clear`.
    pub fn updated(&self) -> (r: bool)
        ensures
            r == self.is_updated(),
    {
        self.updated
    }

    /// Forgets that anything was recorded.
    pub fn clear(&mut self)
        requires
            old(self).wf(),
        ensures
            final(self).wf(),
            !final(self).is_updated(),
    {
        self.updated = false;
    }

    /// The reference count of span `id`, if the store has made it.
    pub fn ref_count(&self, id: u64) -> (r: Option<u64>)
        ensures
            match r {
                Some(c) => 1 <= id <= self.span_count() && c == self.count_of(id),
                None => !(1 <= id <= self.span_count()),
            },
    {
        let n = self.spans.len();
        if id == 0 || id > n as u64 {
            None
        } else {
            Some(self.spans[(id - 1) as usize].ref_count)
        }
    }

    /// The number of spans ever made.
    pub fn span_total(&self) -> (r: usize)
        ensures
            r == self.span_count(),
    {
        self.spans.len()
    }

    /// Hands out a span id: the last released one, else a new one.
    pub fn new_span(&mut self) -> (r: u64)
        requires
            old(self).wf(),
            old(self).span_count() + 1 < u64::MAX,
        ensures
            final(self).wf(),
            old(self).released().len() > 0 ==> r == old(self).released().last()
                && final(self).released() == old(self).released().drop_last()
                && final(self).span_count() == old(self).span_count(),
            old(self).released().len() == 0 ==> r == old(self).span_count() + 1
                && final(self).span_count() == old(self).span_count() + 1
                && final(self).count_of(r) == 1
                && final(self).released() == old(self).released(),
    {
        match self.reusable.pop() {
            Some(id) => id,
            None => {
                let n = self.spans.len();
                let id = (n as u64) + 1;
                self.spans.push(Span { id, ref_count: 1, follows: Vec::new() });
                id
            },
        }
    }

    /// Adds a reference to span `id`.
    pub fn clone_span(&mut self, id: u64) -> (r: u64)
        requires
            old(self).wf(),
            1 <= id <= old(self).span_count(),
            old(self).count_of(id) < u64::MAX,
        ensures
            final(self).wf(),
            r == id,
            final(self).span_count() == old(self).span_count(),
            final(self).count_of(id) == old(self).count_of(id) + 1,
            final(self).released() == old(self).released(),
    {
        let n = self.spans.len();
        let i = (id - 1) as usize;
        let mut span = Span { id: 0, ref_count: 0, follows: Vec::new() };
        std::mem::swap(&mut span, &mut self.spans[i]);
        span.ref_count = span.ref_count + 1;
        self.spans[i] = span;
        id
    }

    /// Drops a reference to span `id`; the last one releases the id and
    /// resets the span for its next use.
    pub fn drop_span(&mut self, id: u64)
        requires
            old(self).wf(),
            1 <= id <= old(self).span_count(),
            old(self).count_of(id) >= 1,
        ensures
            final(self).wf(),
            final(self).span_count() == old(self).span_count(),
            old(self).count_of(id) == 1 ==> final(self).released() == old(self).released().push(id)
                && final(self).count_of(id) == 1,
            old(self).count_of(id) != 1 ==> final(self).released() == old(self).released()
                && final(self).count_of(id) == old(self).count_of(id) - 1,
    {
        let n = self.spans.len();
        let i = (id - 1) as usize;
        let mut span = Span { id: 0, ref_count: 0, follows: Vec::new() };
        std::mem::swap(&mut span, &mut self.spans[i]);
        span.ref_count = span.ref_count - 1;
        if span.ref_count == 0 {
            self.reusable.push(id);
            span.ref_count = 1;
            span.follows = Vec::new();
        }
        self.spans[i] = span;
    }

    /// Records that span `id` follows from span `follows`.
    pub fn record_follows_from(&mut self, id: u64, follows: u64)
        requires
            old(self).wf(),
            1 <= id <= old(self).span_count(),
        ensures
            final(self).wf(),
            final(self).is_updated(),
            final(self).span_count() == old(self).span_count(),
            final(self).released() == old(self).released(),
    {
        self.updated = true;
        let n = self.spans.len();
        let i = (id - 1) as usize;
        let mut span = Span { id: 0, ref_count: 0, follows: Vec::new() };
        std::mem::swap(&mut span, &mut self.spans[i]);
        span.follows.push(follows);
        self.spans[i] = span;
    }

    fn stack_index(&self, t: usize) -> (r: Option<usize>)
        ensures
            match r {
                Some(i) => i < self.stacks@.len() && self.stacks@[i as int].0 == t,
                None => forall|i: int| 0 <= i < self.stacks@.len() ==> self.stacks@[i].0 != t,
            },
    {
        let mut i: usize = 0;
        while i < self.stacks.len()
            invariant
                i <= self.stacks@.len(),
                forall|j: int| 0 <= j < i ==> self.stacks@[j].0 != t,
            decreases self.stacks@.len() - i,
        {
            if self.stacks[i].0 == t {
                return Some(i);
            }
            i = i + 1;
        }
        None
    }

    fn thread_index(&self, t: usize) -> (r: Option<usize>)
        ensures
            match r {
                Some(i) => i < self.threads@.len() && self.threads@[i as int].0 == t,
                None => forall|i: int| 0 <= i < self.threads@.len() ==> self.threads@[i].0 != t,
            },
    {
        let mut i: usize = 0;
        while i < self.threads.len()
            invariant
                i <= self.threads@.len(),
                forall|j: int| 0 <= j < i ==> self.threads@[j].0 != t,
            decreases self.threads@.len() - i,
        {
            if self.threads[i].0 == t {
                return Some(i);
            }
            i = i + 1;
        }
        None
    }

    /// Span `id` was entered on thread `thread`.
    pub fn enter(&mut self, thread: ThreadId, id: u64)
        requires
            old(self).wf(),
        ensures
            final(self).wf(),
            final(self).stack_of(thread.0) == old(self).stack_of(thread.0).push(id),
            forall|u: usize| u != thread.0 ==> #[trigger] final(self).stack_of(u) == old(self).stack_of(u),
            final(self).span_count() == old(self).span_count(),
            final(self).released() == old(self).released(),
            final(self).is_updated() == old(self).is_updated(),
    {
        let ghost before = *self;
        match self.stack_index(thread.0) {
            Some(i) => {
                proof { before.lemma_stack_of(thread.0, i as int); }
                let mut stack = Vec::new();
                std::mem::swap(&mut stack, &mut self.stacks[i].1);
                stack.push(id);
                self.stacks[i].1 = stack;
                proof {
                    self.lemma_stack_of(thread.0, i as int);
                    assert forall|u: usize| u != thread.0 implies #[trigger] self.stack_of(u) == before.stack_of(u) by {
                        self.lemma_same_keys(&before, u);
                    }
                }
            },
            None => {
                proof { before.lemma_stack_absent(thread.0); }
                let mut stack = Vec::new();
                stack.push(id);
                self.stacks.push((thread.0, stack));
                proof {
                    assert forall|a: int, b: int| 0 <= a < b < self.stacks@.len() implies self.stacks@[a].0 != self.stacks@[b].0 by {
                        if b == self.stacks@.len() - 1 {
                            assert(self.stacks@[a] == before.stacks@[a]);
                        } else {
                            assert(self.stacks@[a] == before.stacks@[a] && self.stacks@[b] == before.stacks@[b]);
                        }
                    }
                    self.lemma_stack_of(thread.0, self.stacks@.len() - 1);
                    assert(stack@ =~= Seq::<u64>::empty().push(id));
                    assert forall|u: usize| u != thread.0 implies #[trigger] self.stack_of(u) == before.stack_of(u) by {
                        self.lemma_same_keys(&before, u);
                    }
                }
            },
        }
    }

    /// Two stores whose stack lists agree on the entries of thread `u`
    /// give it the same stack.
    proof fn lemma_same_keys(&self, other: &Store, u: usize)
        requires
            self.wf(),
            other.wf(),
            forall|j: int| 0 <= j < other.stacks@.len() && other.stacks@[j].0 != u ==> #[trigger] self.stacks@[j].0 == other.stacks@[j].0,
            other.stacks@.len() <= self.stacks@.len(),
            forall|j: int| 0 <= j < other.stacks@.len() && other.stacks@[j].0 == u ==> #[trigger] self.stacks@[j] == other.stacks@[j],
            forall|j: int| other.stacks@.len() <= j < self.stacks@.len() ==> #[trigger] self.stacks@[j].0 != u,
        ensures
            self.stack_of(u) == other.stack_of(u),
    {
        let found = exists|j: int| 0 <= j < other.stacks@.len() && other.stacks@[j].0 == u;
        if found {
            let j = choose|j: int| 0 <= j < other.stacks@.len() && other.stacks@[j].0 == u;
            other.lemma_stack_of(u, j);
            assert(self.stacks@[j] == other.stacks@[j]);
            self.lemma_stack_of(u, j);
        } else {
            other.lemma_stack_absent(u);
            assert forall|j: int| 0 <= j < self.stacks@.len() implies self.stacks@[j].0 != u by {
                if j < other.stacks@.len() {
                    assert(other.stacks@[j].0 != u);
                    assert(self.stacks@[j].0 == other.stacks@[j].0);
                }
            }
            self.lemma_stack_absent(u);
        }
    }

    proof fn lemma_stack_absent(&self, t: usize)
        requires
            forall|i: int| 0 <= i < self.stacks@.len() ==> self.stacks@[i].0 != t,
        ensures
            self.stack_of(t) == Seq::<u64>::empty(),
    {
        let keys = self.stacks@.map_values(|e: (usize, Vec<u64>)| e.0);
        assert forall|j: int| 0 <= j < keys.len() implies keys[j] != t by {
            assert(keys[j] == self.stacks@[j].0);
        }
    }

    /// The innermost span of thread `thread` was exited; a thread left with
    /// no entered span loses its stack.
    pub fn exit(&mut self, thread: ThreadId) -> (r: Option<u64>)
        requires
            old(self).wf(),
        ensures
            final(self).wf(),
            old(self).stack_of(thread.0).len() == 0 ==> r is None && final(self).stack_of(thread.0) == old(self).stack_of(thread.0),
            old(self).stack_of(thread.0).len() > 0 ==> r == Some(old(self).stack_of(thread.0).last())
                && final(self).stack_of(thread.0) == old(self).stack_of(thread.0).drop_last(),
            forall|u: usize| u != thread.0 ==> #[trigger] final(self).stack_of(u) == old(self).stack_of(u),
            final(self).span_count() == old(self).span_count(),
            final(self).released() == old(self).released(),
            final(self).is_updated() == old(self).is_updated(),
    {
        let ghost before = *self;
        match self.stack_index(thread.0) {
            Some(i) => {
                proof { before.lemma_stack_of(thread.0, i as int); }
                let mut stack = Vec::new();
                std::mem::swap(&mut stack, &mut self.stacks[i].1);
                let ghost full = stack@;
                let top = stack.pop();
                if stack.len() == 0 {
                    self.stacks.remove(i);
                    proof {
                        let old_s = before.stacks@;
                        assert forall|a: int, b: int| 0 <= a < b < self.stacks@.len() implies self.stacks@[a].0 != self.stacks@[b].0 by {
                            let a2 = if a < i { a } else { a + 1 };
                            let b2 = if b < i { b } else { b + 1 };
                            assert(self.stacks@[a] == old_s[a2]);
                            assert(self.stacks@[b] == old_s[b2]);
                        }
                        assert forall|j: int| 0 <= j < self.stacks@.len() implies self.stacks@[j].0 != thread.0 by {
                            let j2 = if j < i { j } else { j + 1 };
                            assert(self.stacks@[j] == old_s[j2]);
                            assert(j2 != i);
                        }
                        self.lemma_stack_absent(thread.0);
                        if full.len() > 0 {
                            assert(full.drop_last() =~= Seq::<u64>::empty());
                        }
                        assert forall|u: usize| u != thread.0 implies #[trigger] self.stack_of(u) == before.stack_of(u) by {
                            if exists|j: int| 0 <= j < old_s.len() && old_s[j].0 == u {
                                let j = choose|j: int| 0 <= j < old_s.len() && old_s[j].0 == u;
                                before.lemma_stack_of(u, j);
                                assert(j != i);
                                let j2 = if j < i { j } else { j - 1 };
                                assert(self.stacks@[j2] == old_s[j]);
                                self.lemma_stack_of(u, j2);
                            } else {
                                before.lemma_stack_absent(u);
                                assert forall|j: int| 0 <= j < self.stacks@.len() implies self.stacks@[j].0 != u by {
                                    let j2 = if j < i { j } else { j + 1 };
                                    assert(self.stacks@[j] == old_s[j2]);
                                }
                                self.lemma_stack_absent(u);
                            }
                        }
                    }
                } else {
                    self.stacks[i].1 = stack;
                    proof {
                        self.lemma_stack_of(thread.0, i as int);
                        assert forall|u: usize| u != thread.0 implies #[trigger] self.stack_of(u) == before.stack_of(u) by {
                            self.lemma_same_keys(&before, u);
                        }
                    }
                }
                top
            },
            None => {
                proof { before.lemma_stack_absent(thread.0); }
                None
            },
        }
    }

    /// The innermost span entered on thread `thread`, if any.
    pub fn current_span(&self, thread: ThreadId) -> (r: Option<u64>)
        requires
            self.wf(),
        ensures
            r == (if self.stack_of(thread.0).len() == 0 { None } else { Some(self.stack_of(thread.0).last()) }),
    {
        match self.stack_index(thread.0) {
            Some(i) => {
                proof { self.lemma_stack_of(thread.0, i as int); }
                let n = self.stacks[i].1.len();
                if n == 0 {
                    None
                } else {
                    Some(self.stacks[i].1[n - 1])
                }
            },
            None => {
                proof {
                    let keys = self.stacks@.map_values(|e: (usize, Vec<u64>)| e.0);
                    assert forall|j: int| 0 <= j < keys.len() implies keys[j] != thread.0 by {
                        assert(keys[j] == self.stacks@[j].0);
                    }
                }
                None
            },
        }
    }

    proof fn lemma_stack_of(&self, t: usize, i: int)
        requires
            self.wf(),
            0 <= i < self.stacks@.len(),
            self.stacks@[i].0 == t,
        ensures
            self.stack_of(t) == self.stacks@[i].1@,
    {
        let keys = self.stacks@.map_values(|e: (usize, Vec<u64>)| e.0);
        assert(keys[i] == t);
        let k = choose|k: int| 0 <= k < keys.len() && keys[k] == t;
        assert(keys[k] == self.stacks@[k].0);
        if k != i {
            if k < i {
                assert(self.stacks@[k].0 != self.stacks@[i].0);
            } else {
                assert(self.stacks@[i].0 != self.stacks@[k].0);
            }
        }
    }

    /// Appends a formatted event to the events of thread `thread`.
    pub fn event(&mut self, thread: ThreadId, entry: EventEntry)
        requires
            old(self).wf(),
        ensures
            final(self).wf(),
            final(self).is_updated(),
            final(self).thread_entry(thread.0) == Some(match old(self).thread_entry(thread.0) {
                Some((lines, name)) => (lines.push(entry), name),
                None => (seq![entry], None),
            }),
            forall|u: usize| u != thread.0 ==> #[trigger] final(self).thread_entry(u) == old(self).thread_entry(u),
            final(self).span_count() == old(self).span_count(),
            final(self).released() == old(self).released(),
    {
        let ghost before = *self;
        match self.thread_index(thread.0) {
            Some(i) => {
                proof { before.lemma_thread_of(thread.0, i as int); }
                let mut lines = Vec::new();
                std::mem::swap(&mut lines, &mut self.threads[i].1.lines);
                lines.push(entry);
                self.threads[i].1.lines = lines;
                proof {
                    self.lemma_thread_of(thread.0, i as int);
                    assert forall|u: usize| u != thread.0 implies #[trigger] self.thread_entry(u) == before.thread_entry(u) by {
                        self.lemma_same_threads(&before, thread.0, u);
                    }
                }
            },
            None => {
                proof { before.lemma_thread_absent(thread.0); }
                let mut lines = Vec::new();
                lines.push(entry);
                self.threads.push((thread.0, ThreadStore { lines, name: None }));
                proof {
                    assert forall|a: int, b: int| 0 <= a < b < self.threads@.len() implies self.threads@[a].0 != self.threads@[b].0 by {
                        assert(self.threads@[a] == before.threads@[a]);
                        if b < self.threads@.len() - 1 {
                            assert(self.threads@[b] == before.threads@[b]);
                        }
                    }
                    self.lemma_thread_of(thread.0, self.threads@.len() - 1);
                    assert(lines@ =~= seq![entry]);
                    assert forall|u: usize| u != thread.0 implies #[trigger] self.thread_entry(u) == before.thread_entry(u) by {
                        self.lemma_same_threads(&before, thread.0, u);
                    }
                }
            },
        }
        let ghost filled = *self;
        self.updated = true;
        proof {
            assert(self.threads == filled.threads);
            assert forall|u: usize| #[trigger] self.thread_entry(u) == filled.thread_entry(u) by {}
        }
    }

    /// Names thread `thread`.
    pub fn register_thread_name(&mut self, thread: ThreadId, name: String)
        requires
            old(self).wf(),
        ensures
            final(self).wf(),
            final(self).thread_entry(thread.0) == Some(match old(self).thread_entry(thread.0) {
                Some((lines, _)) => (lines, Some(name@)),
                None => (Seq::empty(), Some(name@)),
            }),
            forall|u: usize| u != thread.0 ==> #[trigger] final(self).thread_entry(u) == old(self).thread_entry(u),
            final(self).span_count() == old(self).span_count(),
            final(self).released() == old(self).released(),
            final(self).is_updated() == old(self).is_updated(),
    {
        let ghost before = *self;
        match self.thread_index(thread.0) {
            Some(i) => {
                proof { before.lemma_thread_of(thread.0, i as int); }
                self.threads[i].1.name = Some(name);
                proof {
                    self.lemma_thread_of(thread.0, i as int);
                    assert forall|u: usize| u != thread.0 implies #[trigger] self.thread_entry(u) == before.thread_entry(u) by {
                        self.lemma_same_threads(&before, thread.0, u);
                    }
                }
            },
            None => {
                proof { before.lemma_thread_absent(thread.0); }
                let lines: Vec<EventEntry> = Vec::new();
                self.threads.push((thread.0, ThreadStore { lines, name: Some(name) }));
                proof {
                    assert forall|a: int, b: int| 0 <= a < b < self.threads@.len() implies self.threads@[a].0 != self.threads@[b].0 by {
                        assert(self.threads@[a] == before.threads@[a]);
                        if b < self.threads@.len() - 1 {
                            assert(self.threads@[b] == before.threads@[b]);
                        }
                    }
                    self.lemma_thread_of(thread.0, self.threads@.len() - 1);
                    assert forall|u: usize| u != thread.0 implies #[trigger] self.thread_entry(u) == before.thread_entry(u) by {
                        self.lemma_same_threads(&before, thread.0, u);
                    }
                }
            },
        }
    }

    /// The threads with their names, in the order they first appeared.
    pub fn thread_list(&self) -> (r: Vec<(ThreadId, Option<String>)>)
        requires
            self.wf(),
        ensures
            r@.len() == self.thread_total(),
            forall|i: int| 0 <= i < r@.len() ==> (#[trigger] r@[i]).0.0 == self.thread_key(i),
            forall|i: int, j: int| 0 <= i < j < r@.len() ==> r@[i].0 != r@[j].0,
    {
        let mut out: Vec<(ThreadId, Option<String>)> = Vec::new();
        let mut i: usize = 0;
        while i < self.threads.len()
            invariant
                self.wf(),
                i <= self.threads@.len(),
                out@.len() == i,
                forall|k: int| 0 <= k < i ==> (#[trigger] out@[k]).0.0 == self.threads@[k].0,
            decreases self.threads@.len() - i,
        {
            let name = match &self.threads[i].1.name {
                Some(n) => Some(n.clone()),
                None => None,
            };
            out.push((ThreadId(self.threads[i].0), name));
            i = i + 1;
        }
        proof {
            assert forall|a: int, b: int| 0 <= a < b < out@.len() implies out@[a].0 != out@[b].0 by {
                assert(self.threads@[a].0 != self.threads@[b].0);
            }
        }
        out
    }

    /// The number of threads that have events or a name.
    pub fn thread_count(&self) -> (r: usize)
        ensures
            r == self.thread_total(),
    {
        self.threads.len()
    }

    /// Thread `i`, in the order they first appeared.
    pub fn thread_at(&self, i: usize) -> (r: (ThreadId, &ThreadStore))
        requires
            i < self.thread_total(),
        ensures
            r.0.0 == self.thread_key(i as int),
    {
        (ThreadId(self.threads[i].0), &self.threads[i].1)
    }
}

} // verus!
