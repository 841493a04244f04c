//! The decisions behind the console's widgets: which thread is selected,
//! whether a key press needs a redraw, and how a row of fields is joined.
use vstd::prelude::*;
use crate::command::Command;
use crate::messages::{string_of, value_text, Value};
use crate::text::{is_whitespace, is_ws};
use crate::registry::ThreadId;

verus! {

/// What a key press in the query line asks for.
#[derive(Debug)]
pub enum Action {
    Command(Command),
    Redraw,
    Nothing,
}

impl Action {
    /// Whether the screen must be drawn again.
    pub fn redraw(&self) -> (r: bool)
        ensures
            r == !(self is Nothing),
    {
        match self {
            Action::Nothing => false,
            _ => true,
        }
    }
}

/// Whether the thread ids of `threads` strictly increase.
pub open spec fn ids_increasing(threads: Seq<(ThreadId, Option<String>)>) -> bool {
    forall|i: int, j: int| 0 <= i < j < threads.len() ==> threads[i].0.0 < threads[j].0.0
}

/// The position of thread `id` in `threads`, if it is there.
pub open spec fn thread_position(threads: Seq<(ThreadId, Option<String>)>, id: ThreadId) -> Option<int> {
    if exists|i: int| 0 <= i < threads.len() && threads[i].0 == id {
        Some(choose|i: int| 0 <= i < threads.len() && threads[i].0 == id)
    } else {
        None
    }
}

/// The list of instrumented threads, with the selected one.
pub struct ThreadSelector {
    current_thread: Option<ThreadId>,
    threads: Vec<(ThreadId, Option<String>)>,
    focused: bool,
}

/// A thread selector as a mathematical value.
pub struct ThreadSelectorView {
    pub current_thread: Option<ThreadId>,
    pub threads: Seq<(ThreadId, Option<String>)>,
    pub focused: bool,
}

impl View for ThreadSelector {
    type V = ThreadSelectorView;

    closed spec fn view(&self) -> ThreadSelectorView {
        ThreadSelectorView { current_thread: self.current_thread, threads: self.threads@, focused: self.focused }
    }
}

impl ThreadSelectorView {
    /// The list is ordered by id, and the selection, if any, is in it.
    pub open spec fn wf(self) -> bool {
        &&& ids_increasing(self.threads)
        &&& self.current_thread is Some ==> thread_position(self.threads, self.current_thread->Some_0) is Some
    }
}

impl ThreadSelector {
    /// A focused selector with no thread.
    pub fn new() -> (r: ThreadSelector)
        ensures
            r@ == (ThreadSelectorView { current_thread: None, threads: Seq::empty(), focused: true }),
            r@.wf(),
    {
        ThreadSelector { current_thread: None, threads: Vec::new(), focused: true }
    }

    /// The selected thread.
    pub fn current_thread(&self) -> (r: Option<ThreadId>)
        ensures
            r == self@.current_thread,
    {
        self.current_thread
    }

    /// The selected thread, while the selector has the focus.
    pub fn current_thread_active(&self) -> (r: Option<ThreadId>)
        ensures
            r == (if self@.focused { self@.current_thread } else { None }),
    {
        if self.focused {
            self.current_thread
        } else {
            None
        }
    }

    /// Gives or takes the focus; says whether that changed anything.
    pub fn set_focused(&mut self, focused: bool) -> (r: bool)
        ensures
            r == (old(self)@.focused != focused),
            final(self)@ == (ThreadSelectorView { focused, ..old(self)@ }),
    {
        let rerender = self.focused != focused;
        self.focused = focused;
        rerender
    }

    /// The threads, in order of id.
    pub fn threads(&self) -> (r: &Vec<(ThreadId, Option<String>)>)
        ensures
            r@ == self@.threads,
    {
        &self.threads
    }

    fn position_of(&self, id: ThreadId) -> (r: Option<usize>)
        ensures
            match r {
                Some(i) => i < self@.threads.len() && self@.threads[i as int].0 == id,
                None => thread_position(self@.threads, id) is None,
            },
    {
        let mut i: usize = 0;
        while i < self.threads.len()
            invariant
                i <= self@.threads.len(),
                self@.threads == self.threads@,
                forall|j: int| 0 <= j < i ==> self@.threads[j].0 != id,
            decreases self@.threads.len() - i,
        {
            if self.threads[i].0.0 == id.0 {
                return Some(i);
            }
            i = i + 1;
        }
        None
    }

    /// Moves the selection one thread up, staying on the first one; says
    /// whether the selection changed.
    pub fn on_up(&mut self) -> (r: bool)
        requires
            old(self)@.wf(),
        ensures
            final(self)@.wf(),
            final(self)@.threads == old(self)@.threads,
            final(self)@.focused == old(self)@.focused,
            match old(self)@.current_thread {
                None => final(self)@ == old(self)@ && !r,
                Some(id) => exists|i: int| 0 <= i < old(self)@.threads.len() && old(self)@.threads[i].0 == id && {
                    let k = if i == 0 { 0 } else { i - 1 };
                    &&& final(self)@.current_thread == Some(old(self)@.threads[k].0)
                    &&& r == (k != i)
                },
            },
    {
        match self.current_thread {
            Some(current_id) => {
                let i = match self.position_of(current_id) {
                    Some(i) => i,
                    None => return false,
                };
                let k = if i == 0 { 0 } else { i - 1 };
                let new_id = self.threads[k].0;
                let rerender = new_id.0 != current_id.0;
                self.current_thread = Some(new_id);
                proof {
                    if k != i {
                        assert(self@.threads[k as int].0.0 < self@.threads[i as int].0.0);
                    }
                    assert(thread_position(self@.threads, new_id) is Some) by {
                        assert(self@.threads[k as int].0 == new_id);
                    }
                }
                rerender
            },
            None => false,
        }
    }

    /// Moves the selection one thread down, staying on the last one; says
    /// whether the selection changed.
    pub fn on_down(&mut self) -> (r: bool)
        requires
            old(self)@.wf(),
        ensures
            final(self)@.wf(),
            final(self)@.threads == old(self)@.threads,
            final(self)@.focused == old(self)@.focused,
            match old(self)@.current_thread {
                None => final(self)@ == old(self)@ && !r,
                Some(id) => exists|i: int| 0 <= i < old(self)@.threads.len() && old(self)@.threads[i].0 == id && {
                    let k = if i + 1 < old(self)@.threads.len() { i + 1 } else { i };
                    &&& final(self)@.current_thread == Some(old(self)@.threads[k].0)
                    &&& r == (k != i)
                },
            },
    {
        match self.current_thread {
            Some(current_id) => {
                let i = match self.position_of(current_id) {
                    Some(i) => i,
                    None => return false,
                };
                let k = if i < self.threads.len() - 1 { i + 1 } else { i };
                let new_id = self.threads[k].0;
                let rerender = new_id.0 != current_id.0;
                self.current_thread = Some(new_id);
                proof {
                    if k != i {
                        assert(self@.threads[i as int].0.0 < self@.threads[k as int].0.0);
                    }
                    assert(thread_position(self@.threads, new_id) is Some) by {
                        assert(self@.threads[k as int].0 == new_id);
                    }
                }
                rerender
            },
            None => false,
        }
    }

    /// Takes the current list of threads, which must have distinct ids, in
    /// any order. The list is kept in order of id; when nothing is selected
    /// the thread with the smallest id is. Says whether the list is the same
    /// as before.
    pub fn update(&mut self, threads: Vec<(ThreadId, Option<String>)>) -> (r: bool)
        requires
            old(self)@.wf(),
            forall|i: int, j: int| 0 <= i < j < threads@.len() ==> threads@[i].0 != threads@[j].0,
        ensures
            final(self)@.wf(),
            final(self)@.threads.len() == threads@.len(),
            forall|x: (ThreadId, Option<String>)| final(self)@.threads.contains(x) <==> threads@.contains(x),
            final(self)@.focused == old(self)@.focused,
            old(self)@.current_thread is Some ==> final(self)@.current_thread == (
                if thread_position(threads@, old(self)@.current_thread->Some_0) is Some {
                    old(self)@.current_thread
                } else {
                    None
                }),
            old(self)@.current_thread is None ==> final(self)@.current_thread == (
                if threads@.len() == 0 { None } else { Some(final(self)@.threads[0].0) }),
            r == same_list(final(self)@.threads, old(self)@.threads),
    {
        let sorted = sort_by_id(threads);
        let same = same_threads(&sorted, &self.threads);
        self.threads = sorted;
        match self.current_thread {
            None => {
                if self.threads.len() > 0 {
                    self.current_thread = Some(self.threads[0].0);
                    assert(thread_position(self@.threads, self.threads@[0].0) is Some) by {
                        assert(self@.threads[0].0 == self.threads@[0].0);
                    }
                }
            },
            Some(id) => {
                let found = self.position_of(id);
                proof {
                    match found {
                        Some(i) => {
                            assert(self@.threads.contains(self@.threads[i as int]));
                            assert(threads@.contains(self@.threads[i as int]));
                        },
                        None => {
                            if thread_position(threads@, id) is Some {
                                let k = choose|k: int| 0 <= k < threads@.len() && threads@[k].0 == id;
                                assert(threads@.contains(threads@[k]));
                                assert(self@.threads.contains(threads@[k]));
                            }
                        },
                    }
                }
                if found.is_none() {
                    self.current_thread = None;
                }
            },
        }
        same
    }
}

/// The text of an optional name.
pub open spec fn name_view(o: Option<String>) -> Option<Seq<char>> {
    match o {
        Some(s) => Some(s@),
        None => None,
    }
}

/// Whether two thread lists hold the same ids and names, in the same order.
pub open spec fn same_list(a: Seq<(ThreadId, Option<String>)>, b: Seq<(ThreadId, Option<String>)>) -> bool {
    &&& a.len() == b.len()
    &&& forall|j: int| 0 <= j < a.len() ==> (#[trigger] a[j]).0 == b[j].0 && name_view(a[j].1) == name_view(b[j].1)
}

fn same_name(a: &Option<String>, b: &Option<String>) -> (r: bool)
    ensures
        r == (name_view(*a) == name_view(*b)),
{
    match (a, b) {
        (None, None) => true,
        (Some(x), Some(y)) => *x == *y,
        _ => false,
    }
}

fn same_threads(a: &Vec<(ThreadId, Option<String>)>, b: &Vec<(ThreadId, Option<String>)>) -> (r: bool)
    ensures
        r == same_list(a@, b@),
{
    if a.len() != b.len() {
        return false;
    }
    let mut i: usize = 0;
    while i < a.len()
        invariant
            a@.len() == b@.len(),
            i <= a@.len(),
            forall|j: int| 0 <= j < i ==> a@[j].0 == b@[j].0 && name_view(a@[j].1) == name_view(b@[j].1),
        decreases a@.len() - i,
    {
        if a[i].0.0 != b[i].0.0 || !same_name(&a[i].1, &b[i].1) {
            return false;
        }
        i = i + 1;
    }
    true
}

/// The threads ordered by id.
fn sort_by_id(threads: Vec<(ThreadId, Option<String>)>) -> (r: Vec<(ThreadId, Option<String>)>)
    requires
        forall|i: int, j: int| 0 <= i < j < threads@.len() ==> threads@[i].0 != threads@[j].0,
    ensures
        ids_increasing(r@),
        r@.len() == threads@.len(),
        forall|x: (ThreadId, Option<String>)| r@.contains(x) <==> threads@.contains(x),
{
    let mut rest = threads;
    let ghost all = rest@;
    let mut out: Vec<(ThreadId, Option<String>)> = Vec::new();
    while rest.len() > 0
        invariant
            ids_increasing(out@),
            out@.len() + rest@.len() == all.len(),
            forall|x: (ThreadId, Option<String>)| all.contains(x) <==> (out@.contains(x) || rest@.contains(x)),
            rest@ == all.subrange(0, rest@.len() as int),
            forall|i: int, j: int| 0 <= i < j < all.len() ==> all[i].0 != all[j].0,
            forall|i: int, j: int| 0 <= i < out@.len() && 0 <= j < rest@.len() ==> out@[i].0 != rest@[j].0,
        decreases rest@.len(),
    {
        let ghost before = rest@;
        let item = rest.pop().unwrap();
        proof {
            assert(before =~= rest@.push(item));
            assert(rest@ =~= all.subrange(0, rest@.len() as int));
        }
        let mut p: usize = 0;
        while p < out.len() && out[p].0.0 < item.0.0
            invariant
                p <= out@.len(),
                ids_increasing(out@),
                forall|j: int| 0 <= j < p ==> out@[j].0.0 < item.0.0,
            decreases out@.len() - p,
        {
            p = p + 1;
        }
        let ghost old_out = out@;
        proof {
            assert forall|j: int| 0 <= j < old_out.len() implies old_out[j].0 != item.0 by {
                assert(before[before.len() - 1] == item);
            }
            assert forall|j: int| p <= j < old_out.len() implies item.0.0 < old_out[j].0.0 by {
                if p < old_out.len() {
                    assert(old_out[p as int].0.0 >= item.0.0);
                    assert(old_out[p as int].0 != item.0);
                    if j > p {
                        assert(old_out[p as int].0.0 < old_out[j].0.0);
                    }
                }
            }
        }
        out.insert(p, item);
        proof {
            old_out.insert_ensures(p as int, item);
            assert forall|x: (ThreadId, Option<String>)| out@.contains(x) <==> (old_out.contains(x) || x == item) by {
                if out@.contains(x) {
                    let k = choose|k: int| 0 <= k < out@.len() && out@[k] == x;
                    if k < p {
                        assert(old_out[k] == x);
                    } else if k > p {
                        assert(old_out[k - 1] == x);
                    }
                }
                if old_out.contains(x) {
                    let k = choose|k: int| 0 <= k < old_out.len() && old_out[k] == x;
                    if k < p {
                        assert(out@[k] == x);
                    } else {
                        assert(out@[k + 1] == x);
                    }
                }
                if x == item {
                    assert(out@[p as int] == x);
                }
            }
            assert forall|x: (ThreadId, Option<String>)| before.contains(x) <==> (rest@.contains(x) || x == item) by {
                if before.contains(x) {
                    let k = choose|k: int| 0 <= k < before.len() && before[k] == x;
                    if k < rest@.len() {
                        assert(rest@[k] == x);
                    }
                }
                if rest@.contains(x) {
                    let k = choose|k: int| 0 <= k < rest@.len() && rest@[k] == x;
                    assert(before[k] == x);
                }
                if x == item {
                    assert(before[before.len() - 1] == x);
                }
            }
            assert forall|i: int, j: int| 0 <= i < out@.len() && 0 <= j < rest@.len() implies out@[i].0 != rest@[j].0 by {
                assert(rest@[j] == before[j]);
                if i < p {
                    assert(out@[i] == old_out[i]);
                } else if i > p {
                    assert(out@[i] == old_out[i - 1]);
                } else {
                    assert(before[before.len() - 1] == item);
                    assert(before[j] == all[j]);
                    assert(item == all[before.len() - 1]);
                }
            }
            assert forall|i: int, j: int| 0 <= i < j < out@.len() implies out@[i].0.0 < out@[j].0.0 by {
                if j < p {
                    assert(out@[i] == old_out[i] && out@[j] == old_out[j]);
                } else if j == p {
                    assert(out@[i] == old_out[i]);
                } else if i < p {
                    assert(out@[i] == old_out[i] && out@[j] == old_out[j - 1]);
                    if p < old_out.len() {
                        assert(old_out[i].0.0 < item.0.0);
                    }
                } else if i == p {
                    assert(out@[j] == old_out[j - 1]);
                } else {
                    assert(out@[i] == old_out[i - 1] && out@[j] == old_out[j - 1]);
                }
            }
        }
    }
    out
}

/// Fields joined with a delimiter, then ended by a newline.
pub struct DelimittedString {
    buffer: String,
    delimiter: String,
    first: bool,
}

impl DelimittedString {
    /// An empty text whose pieces will be joined by `delimiter`.
    pub fn new(delimiter: &str) -> (r: DelimittedString)
        ensures
            r.text() == Seq::<char>::empty(),
            r.delimiter_text() == delimiter@,
            r.at_start(),
    {
        DelimittedString { buffer: String::new(), delimiter: delimiter.to_owned(), first: true }
    }

    pub closed spec fn text(&self) -> Seq<char> {
        self.buffer@
    }

    pub closed spec fn delimiter_text(&self) -> Seq<char> {
        self.delimiter@
    }

    pub closed spec fn at_start(&self) -> bool {
        self.first
    }

    /// Starts a new piece: writes the delimiter, except before the first.
    pub fn delimiter(&mut self)
        ensures
            final(self).text() == (if old(self).at_start() { old(self).text() } else {
                old(self).text() + old(self).delimiter_text()
            }),
            final(self).delimiter_text() == old(self).delimiter_text(),
            !final(self).at_start(),
    {
        if self.first {
            self.first = false;
        } else {
            let d = self.delimiter.clone();
            self.buffer.append(d.as_str());
        }
    }

    /// Writes `s` as it is.
    pub fn write_str(&mut self, s: &str)
        ensures
            final(self).text() == old(self).text() + s@,
            final(self).delimiter_text() == old(self).delimiter_text(),
            final(self).at_start() == old(self).at_start(),
    {
        self.buffer.append(s);
    }

    /// Writes the text of `value`, if there is one.
    pub fn write_value(&mut self, value: &Option<Value>)
        ensures
            final(self).text() == old(self).text() + match value {
                Some(v) => value_text(*v),
                None => Seq::empty(),
            },
            final(self).delimiter_text() == old(self).delimiter_text(),
            final(self).at_start() == old(self).at_start(),
    {
        match value {
            Some(v) => {
                let t = v.to_text_string();
                self.buffer.append(t.as_str());
            },
            None => {
                assert(self.buffer@ =~= self.buffer@ + Seq::<char>::empty());
            },
        }
    }

    /// The text with a newline at its end.
    pub fn newline(self) -> (r: String)
        ensures
            r@ == self.text() + seq!['\n'],
    {
        let mut buffer = self.buffer;
        buffer.append("\n");
        proof { reveal_strlit("\n"); }
        buffer
    }
}


/// The query line: what is being typed, and the commands typed before.
pub struct QueryView {
    buffer: Vec<char>,
    history: Vec<Vec<char>>,
    /// 0: nothing recalled; `k`: the `k`-th most recent command is recalled.
    history_index: usize,
    focused: bool,
}

/// The query line as a mathematical value.
pub struct QueryViewView {
    pub buffer: Seq<char>,
    pub history: Seq<Seq<char>>,
    pub history_index: nat,
    pub focused: bool,
}

impl View for QueryView {
    type V = QueryViewView;

    closed spec fn view(&self) -> QueryViewView {
        QueryViewView {
            buffer: self.buffer@,
            history: self.history@.map_values(|h: Vec<char>| h@),
            history_index: self.history_index as nat,
            focused: self.focused,
        }
    }
}

impl QueryViewView {
    /// A recalled command is one of the history.
    pub open spec fn wf(self) -> bool {
        self.history_index <= self.history.len()
    }

    /// Whether the line is empty or ends in white space.
    pub open spec fn ends_in_space(self) -> bool {
        self.buffer.len() == 0 || is_ws(self.buffer.last())
    }
}

fn copy_chars(v: &Vec<char>) -> (r: Vec<char>)
    ensures
        r@ == v@,
{
    let mut out: Vec<char> = Vec::new();
    let mut i: usize = 0;
    while i < v.len()
        invariant
            i <= v@.len(),
            out@ == v@.subrange(0, i as int),
        decreases v@.len() - i,
    {
        out.push(v[i]);
        i = i + 1;
        assert(out@ =~= v@.subrange(0, i as int));
    }
    assert(v@.subrange(0, i as int) =~= v@);
    out
}

impl QueryView {
    /// An empty, focused query line without history.
    pub fn new() -> (r: QueryView)
        ensures
            r@.wf(),
            r@.buffer.len() == 0,
            r@.history.len() == 0,
            r@.history_index == 0,
            r@.focused,
    {
        let r = QueryView { buffer: Vec::new(), history: Vec::new(), history_index: 0, focused: true };
        assert(r@.history =~= Seq::<Seq<char>>::empty());
        r
    }

    /// What is typed.
    pub fn buffer(&self) -> (r: String)
        ensures
            r@ == self@.buffer,
    {
        string_of(&self.buffer)
    }

    pub fn focused(&self) -> (r: bool)
        ensures
            r == self@.focused,
    {
        self.focused
    }

    pub fn set_focused(&mut self, focused: bool)
        ensures
            final(self)@ == (QueryViewView { focused, ..old(self)@ }),
    {
        self.focused = focused;
    }

    /// Recalls the next older command, staying on the oldest; says whether
    /// the recalled position changed.
    pub fn on_up(&mut self) -> (r: bool)
        requires
            old(self)@.wf(),
        ensures
            final(self)@.wf(),
            final(self)@.history == old(self)@.history,
            final(self)@.focused == old(self)@.focused,
            old(self)@.history.len() == 0 ==> final(self)@ == old(self)@ && !r,
            old(self)@.history.len() > 0 ==> {
                let k = if old(self)@.history_index + 1 > old(self)@.history.len() {
                    old(self)@.history.len()
                } else {
                    old(self)@.history_index + 1
                };
                &&& final(self)@.history_index == k
                &&& final(self)@.buffer == old(self)@.history[old(self)@.history.len() - k]
                &&& r == (k != old(self)@.history_index)
            },
    {
        if self.history.len() == 0 {
            return false;
        }
        let old_index = self.history_index;
        self.history_index = if self.history_index >= self.history.len() {
            self.history.len()
        } else {
            self.history_index + 1
        };
        let n = self.history.len();
        self.buffer = copy_chars(&self.history[n - self.history_index]);
        old_index != self.history_index
    }

    /// Recalls the next newer command, or clears the line after the newest;
    /// says whether the recalled position changed.
    pub fn on_down(&mut self) -> (r: bool)
        requires
            old(self)@.wf(),
        ensures
            final(self)@.wf(),
            final(self)@.history == old(self)@.history,
            final(self)@.focused == old(self)@.focused,
            old(self)@.history_index == 0 ==> final(self)@ == old(self)@ && !r,
            old(self)@.history_index > 0 ==> {
                let k = (old(self)@.history_index - 1) as nat;
                &&& final(self)@.history_index == k
                &&& final(self)@.buffer == (if k == 0 { Seq::empty() } else {
                    old(self)@.history[old(self)@.history.len() - k]
                })
                &&& r
            },
    {
        if self.history_index == 0 {
            return false;
        }
        self.history_index = self.history_index - 1;
        if self.history_index != 0 {
            let n = self.history.len();
            self.buffer = copy_chars(&self.history[n - self.history_index]);
        } else {
            self.buffer = Vec::new();
        }
        true
    }

    /// Whether the line is empty or ends in white space.
    pub fn last_char_is_whitespace(&self) -> (r: bool)
        ensures
            r == self@.ends_in_space(),
    {
        let n = self.buffer.len();
        if n == 0 {
            true
        } else {
            is_whitespace(self.buffer[n - 1])
        }
    }

    /// Ends the line: it goes to the history, and the command it holds, if
    /// any, is handed on; otherwise the cleared line is redrawn.
    pub fn handle_command(&mut self) -> (r: Action)
        requires
            old(self)@.wf(),
        ensures
            final(self)@.wf(),
            final(self)@.buffer.len() == 0,
            final(self)@.history == old(self)@.history.push(old(self)@.buffer),
            final(self)@.history_index == old(self)@.history_index,
            final(self)@.focused == old(self)@.focused,
            match crate::command::parse_command(old(self)@.buffer) {
                Some(c) => r is Command && r->Command_0@ == c,
                None => r is Redraw,
            },
    {
        let line = string_of(&self.buffer);
        let action = match Command::from_str(line.as_str()) {
            Some(c) => Action::Command(c),
            None => Action::Redraw,
        };
        let ghost old_h = self@.history;
        let entry = copy_chars(&self.buffer);
        self.history.push(entry);
        self.buffer = Vec::new();
        assert(self@.history =~= old_h.push(old(self)@.buffer));
        action
    }

    /// Takes a typed character: a newline ends the line, white space after
    /// white space (or at the start) is ignored, anything else is appended.
    pub fn on_char(&mut self, c: char) -> (r: Action)
        requires
            old(self)@.wf(),
        ensures
            final(self)@.wf(),
            final(self)@.focused == old(self)@.focused,
            c == '\n' ==> final(self)@.history == old(self)@.history.push(old(self)@.buffer)
                && final(self)@.buffer.len() == 0,
            c != '\n' && old(self)@.ends_in_space() && is_ws(c) ==> final(self)@ == old(self)@ && r is Nothing,
            c != '\n' && !(old(self)@.ends_in_space() && is_ws(c)) ==> final(self)@ == (QueryViewView {
                buffer: old(self)@.buffer.push(c),
                ..old(self)@
            }) && r is Redraw,
    {
        if c == '\n' {
            self.handle_command()
        } else if self.last_char_is_whitespace() && is_whitespace(c) {
            Action::Nothing
        } else {
            self.buffer.push(c);
            Action::Redraw
        }
    }

    /// Removes the last character, if any; says whether there was one.
    pub fn on_backspace(&mut self) -> (r: bool)
        ensures
            r == (old(self)@.buffer.len() != 0),
            final(self)@ == (QueryViewView {
                buffer: if r { old(self)@.buffer.drop_last() } else { old(self)@.buffer },
                ..old(self)@
            }),
    {
        let rerender = self.buffer.len() != 0;
        if rerender {
            self.buffer.pop();
        }
        rerender
    }
}

/// The selected row of a scrolled list, and the first row shown.
pub struct ListWindow {
    pub selection: usize,
    pub offset: usize,
}

impl ListWindow {
    /// The top of the list, selected.
    pub fn new() -> (r: ListWindow)
        ensures
            r.selection == 0 && r.offset == 0,
    {
        ListWindow { selection: 0, offset: 0 }
    }

    /// Scrolls so that the selection is among the `rows` rows shown; says
    /// whether it scrolled.
    pub fn adjust_window_to_selection(&mut self, rows: usize) -> (r: bool)
        requires
            old(self).offset + rows <= usize::MAX,
            old(self).selection < usize::MAX,
        ensures
            final(self).selection == old(self).selection,
            old(self).selection < old(self).offset ==> final(self).offset == old(self).selection && r,
            old(self).offset <= old(self).selection < old(self).offset + rows ==> final(self).offset == old(self).offset && !r,
            old(self).selection >= old(self).offset && old(self).selection >= old(self).offset + rows ==>
                final(self).offset == old(self).selection + 1 - rows && r,
    {
        let upper_limit = self.offset + rows;
        if self.selection < self.offset {
            self.offset = self.selection;
            true
        } else if self.selection >= upper_limit {
            self.offset = self.offset + (self.selection - upper_limit + 1);
            true
        } else {
            false
        }
    }

    /// Selects row `row` of a list of `len` rows, of which `rows` are shown:
    /// a row past the end selects the last one. Says whether anything
    /// changed.
    pub fn select(&mut self, row: usize, len: usize, rows: usize) -> (r: bool)
        requires
            len > 0,
            old(self).offset + rows <= usize::MAX,
        ensures
            final(self).selection == (if row >= len { (len - 1) as usize } else { row }),
            final(self).selection < old(self).offset ==> final(self).offset == final(self).selection,
            old(self).offset <= final(self).selection < old(self).offset + rows ==> final(self).offset == old(self).offset,
            final(self).selection >= old(self).offset && final(self).selection >= old(self).offset + rows ==>
                final(self).offset == final(self).selection + 1 - rows,
            r == (final(self).selection != old(self).selection || final(self).offset != old(self).offset),
    {
        let target = if row >= len { len - 1 } else { row };
        let rerender = target != self.selection;
        self.selection = target;
        let old_offset = self.offset;
        let moved = self.adjust_window_to_selection(rows);
        proof {
            if rows == 0 && old_offset <= target {
                assert(moved);
            }
        }
        moved || rerender
    }

    /// Selects the row above, if any.
    pub fn on_up(&mut self, len: usize, rows: usize) -> (r: bool)
        requires
            len > 0,
            old(self).offset + rows <= usize::MAX,
        ensures
            final(self).selection == (if old(self).selection == 0 { 0 } else if old(self).selection - 1 >= len {
                len - 1
            } else {
                old(self).selection - 1
            }),
    {
        let target = if self.selection == 0 { 0 } else { self.selection - 1 };
        self.select(target, len, rows)
    }

    /// Selects the row below, staying on the last.
    pub fn on_down(&mut self, len: usize, rows: usize) -> (r: bool)
        requires
            len > 0,
            old(self).offset + rows <= usize::MAX,
        ensures
            final(self).selection == (if old(self).selection == usize::MAX || old(self).selection + 1 >= len {
                len - 1
            } else {
                old(self).selection + 1
            }),
    {
        let target = if self.selection == usize::MAX { usize::MAX } else { self.selection + 1 };
        self.select(target, len, rows)
    }
}

} // verus!
