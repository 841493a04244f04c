//! The rows of the event list: a header per group, and per event its level
//! and its fields joined as `name("value")`, cut to the visible window.
use vstd::prelude::*;
use crate::command::fmt_group_by;
use crate::filter::{Entries, EntriesView, GroupByView};
use crate::messages::{string_of, value_text, FieldValue, Level, Value};
use crate::store::{Store, StoreState};
use crate::ui::DelimittedString;

verus! {

/// One row of the event list.
#[derive(Debug, PartialEq)]
pub enum Line {
    /// The head of a group: the grouping and its key.
    Header(String),
    /// An event, indented by its grouping depth; `selected` marks the
    /// selected row.
    Event { indent: usize, level: Level, text: String, selected: bool },
}

/// A row as a mathematical value, before selection is marked.
pub enum RowView {
    Header(Seq<char>),
    Event { indent: nat, level: Level, text: Seq<char> },
}

/// The text of one field.
pub open spec fn field_piece(v: FieldValue) -> Seq<char> {
    v.name@ + seq!['(', '"'] + value_text(v.value) + seq!['"', ')']
}

/// The fields of an event, joined by `, `.
pub open spec fn fields_text(vs: Seq<FieldValue>) -> Seq<char>
    decreases vs.len(),
{
    if vs.len() == 0 {
        Seq::empty()
    } else if vs.len() == 1 {
        field_piece(vs[0])
    } else {
        fields_text(vs.drop_last()) + seq![',', ' '] + field_piece(vs.last())
    }
}

/// The row of event `e` at depth `indent`.
pub open spec fn event_row(s: StoreState, e: usize, indent: nat) -> RowView {
    RowView::Event {
        indent,
        level: s.events[e as int].event.attributes.metadata.level,
        text: fields_text(s.events[e as int].event.values@) + seq!['\n'],
    }
}

/// The head row of the group with key `k`.
pub open spec fn header_text(g: GroupByView, k: Option<Value>) -> Seq<char> {
    fmt_group_by(g) + seq![' ', '=', '=', ' '] + match k {
        Some(v) => value_text(v),
        None => seq!['N', 'o', 'n', 'e'],
    } + seq!['\n']
}

/// The rows of events `es` at depth `indent`.
pub open spec fn event_rows(s: StoreState, es: Seq<usize>, indent: nat) -> Seq<RowView> {
    es.map_values(|e: usize| event_row(s, e, indent))
}

/// The rows of groups `gs`: each head, then its events one level deeper.
pub open spec fn group_rows(s: StoreState, g: GroupByView, gs: Seq<(Option<Value>, Seq<usize>)>) -> Seq<RowView>
    decreases gs.len(),
{
    if gs.len() == 0 {
        Seq::empty()
    } else {
        group_rows(s, g, gs.drop_last()) + seq![RowView::Header(header_text(g, gs.last().0))]
            + event_rows(s, gs.last().1, 1)
    }
}

/// All rows of the entries.
pub open spec fn all_rows(s: StoreState, e: EntriesView) -> Seq<RowView> {
    match e {
        EntriesView::Flat(v) => event_rows(s, v, 0),
        EntriesView::Grouped { group_by, groups } => group_rows(s, group_by, groups),
    }
}

/// The rows from `offset` on, at most `length` of them.
pub open spec fn window(rows: Seq<RowView>, offset: nat, length: nat) -> Seq<RowView> {
    let lo = if offset < rows.len() { offset } else { rows.len() };
    let hi = if offset + length < rows.len() { offset + length } else { rows.len() };
    rows.subrange(lo as int, hi as int)
}

impl Line {
    /// The row this line shows.
    pub open spec fn row(self) -> RowView {
        match self {
            Line::Header(t) => RowView::Header(t@),
            Line::Event { indent, level, text, .. } => RowView::Event { indent: indent as nat, level, text: text@ },
        }
    }

    pub open spec fn is_selected(self) -> bool {
        match self {
            Line::Header(_) => false,
            Line::Event { selected, .. } => selected,
        }
    }
}

/// The fields of an event, joined.
pub fn event_text(values: &Vec<FieldValue>) -> (r: String)
    ensures
        r@ == fields_text(values@) + seq!['\n'],
{
    let mut text = DelimittedString::new(", ");
    proof { reveal_strlit(", "); reveal_strlit("(\""); reveal_strlit("\")"); }
    let mut i: usize = 0;
    while i < values.len()
        invariant
            i <= values@.len(),
            text.delimiter_text() == seq![',', ' '],
            text.at_start() == (i == 0),
            text.text() == fields_text(values@.subrange(0, i as int)),
        decreases values@.len() - i,
    {
        proof { reveal_strlit("(\""); reveal_strlit("\")"); }
        text.delimiter();
        text.write_str(values[i].name.as_str());
        text.write_str("(\"");
        text.write_value(&Some(values[i].value.duplicate()));
        text.write_str("\")");
        proof {
            let p = values@.subrange(0, i + 1);
            assert(p.drop_last() =~= values@.subrange(0, i as int));
            assert(p.last() == values@[i as int]);
            if i == 0 {
                assert(text.text() =~= fields_text(p));
            } else {
                assert(text.text() =~= fields_text(p));
            }
        }
        i = i + 1;
    }
    assert(values@.subrange(0, i as int) =~= values@);
    text.newline()
}


proof fn lemma_window_push(p: Seq<RowView>, r: RowView, offset: nat, length: nat)
    requires
        p.len() < offset + length,
    ensures
        window(p.push(r), offset, length) == if offset <= p.len() {
            window(p, offset, length).push(r)
        } else {
            window(p, offset, length)
        },
{
    let q = p.push(r);
    if offset <= p.len() {
        assert(window(q, offset, length) =~= window(p, offset, length).push(r));
    } else {
        assert(window(q, offset, length) =~= window(p, offset, length));
    }
}

proof fn lemma_window_prefix(p: Seq<RowView>, q: Seq<RowView>, offset: nat, length: nat)
    requires
        p.len() >= offset + length,
    ensures
        window(p + q, offset, length) == window(p, offset, length),
{
    assert(window(p + q, offset, length) =~= window(p, offset, length));
}

/// The header of the group with key `key`.
fn header(group_by: &crate::filter::GroupBy, key: &Option<Value>) -> (r: String)
    ensures
        r@ == header_text(group_by@, *key),
{
    let mut s = group_by.to_text();
    s.append(" == ");
    match key {
        Some(v) => {
            let t = v.to_text_string();
            s.append(t.as_str());
        },
        None => s.append("None"),
    }
    s.append("\n");
    proof {
        reveal_strlit(" == ");
        reveal_strlit("None");
        reveal_strlit("\n");
        assert(s@ =~= header_text(group_by@, *key));
    }
    s
}

/// The rows of `entries` from row `offset` on, at most `length` of them;
/// the row numbered `selection` is marked.
pub fn layout(store: &Store, entries: &Entries, offset: usize, length: usize, selection: usize) -> (r: Vec<Line>)
    requires
        store.wf(),
        offset + length <= usize::MAX,
        match entries@ {
            EntriesView::Flat(v) => forall|j: int| 0 <= j < v.len() ==> #[trigger] v[j] < store@.events.len(),
            EntriesView::Grouped { groups, .. } => forall|g: int, j: int|
                0 <= g < groups.len() && 0 <= j < groups[g].1.len() ==> #[trigger] groups[g].1[j] < store@.events.len(),
        },
    ensures
        r@.map_values(|l: Line| l.row()) == window(all_rows(store@, entries@), offset as nat, length as nat),
        forall|i: int| 0 <= i < r@.len() ==> (#[trigger] r@[i]).is_selected() == (r@[i] is Event && offset + i == selection),
{
    let ghost s = store@;
    let ghost o = offset as nat;
    let ghost l = length as nat;
    let events = store.events();
    let mut out: Vec<Line> = Vec::new();
    let mut n: usize = 0;
    let ghost mut p: Seq<RowView> = Seq::empty();
    if length == 0 {
        proof {
            assert(window(all_rows(s, entries@), o, l) =~= Seq::<RowView>::empty());
            assert(out@.map_values(|x: Line| x.row()) =~= Seq::<RowView>::empty());
        }
        return out;
    }
    match entries {
        Entries::Entries(v) => {
            let mut i: usize = 0;
            while i < v.len() && n < offset + length
                invariant
                    s == store@,
                    events@ == s.events,
                    offset + length <= usize::MAX,
                    o == offset as nat,
                    l == length as nat,
                    p.len() == n,
                    forall|j: int| 0 <= j < v@.len() ==> #[trigger] v@[j] < s.events.len(),
                    i <= v@.len(),
                    n == i,
                    p == event_rows(s, v@.subrange(0, i as int), 0),
                    out@.map_values(|x: Line| x.row()) == window(p, o, l),
                    forall|k: int| 0 <= k < out@.len() ==> (#[trigger] out@[k]).is_selected() == (out@[k] is Event && offset + k == selection),
                    out@.len() == (if n < offset { 0 } else { n - offset }),
                decreases v@.len() - i,
            {
                let e = v[i];
                let entry = &events[e];
                let ghost row = event_row(s, e, 0);
                proof {
                    lemma_window_push(p, row, o, l);
                    assert(event_rows(s, v@.subrange(0, i + 1), 0) =~= p.push(row));
                }
                if n >= offset {
                    let line = Line::Event { indent: 0, level: entry.level(), text: event_text(&entry.event.values), selected: n == selection };
                    let ghost before = out@;
                    out.push(line);
                    proof {
                        assert(out@.map_values(|x: Line| x.row()) =~= before.map_values(|x: Line| x.row()).push(row));
                    }
                }
                proof { p = p.push(row); }
                n = n + 1;
                i = i + 1;
            }
            proof {
                let all = event_rows(s, v@, 0);
                if i < v@.len() {
                    assert(all =~= p + event_rows(s, v@.subrange(i as int, v@.len() as int), 0));
                    lemma_window_prefix(p, event_rows(s, v@.subrange(i as int, v@.len() as int), 0), o, l);
                } else {
                    assert(v@.subrange(0, i as int) =~= v@);
                }
            }
            out
        },
        Entries::Grouped { group_by, groups } => {
            let ghost gs = groups@.map_values(|g: (Option<Value>, Vec<usize>)| (g.0, g.1@));
            let ghost gb = group_by@;
            proof {
                assert(entries@ == (EntriesView::Grouped { group_by: gb, groups: gs }));
                assert forall|g: int, j: int| 0 <= g < gs.len() && 0 <= j < gs[g].1.len()
                    implies #[trigger] gs[g].1[j] < s.events.len() by {
                    match entries@ {
                        EntriesView::Grouped { groups: gg, .. } => {
                            assert(gg == gs);
                            assert(gg[g].1[j] < s.events.len());
                        },
                        EntriesView::Flat(_) => {},
                    }
                }
            }
            let mut gi: usize = 0;
            while gi < groups.len() && n < offset + length
                invariant
                    s == store@,
                    events@ == s.events,
                    offset + length <= usize::MAX,
                    o == offset as nat,
                    l == length as nat,
                    gs == groups@.map_values(|g: (Option<Value>, Vec<usize>)| (g.0, g.1@)),
                    gb == group_by@,
                    forall|g: int, j: int| 0 <= g < gs.len() && 0 <= j < gs[g].1.len() ==> #[trigger] gs[g].1[j] < s.events.len(),
                    gi <= gs.len(),
                    n as nat == p.len() || (n >= offset + length && p.len() >= offset + length),
                    p == group_rows(s, gb, gs.subrange(0, gi as int)),
                    out@.map_values(|x: Line| x.row()) == window(p, o, l),
                    forall|k: int| 0 <= k < out@.len() ==> (#[trigger] out@[k]).is_selected() == (out@[k] is Event && offset + k == selection),
                    out@.len() == (if n < offset { 0 } else { n - offset }),
                decreases gs.len() - gi,
            {
                let (key, members) = (&groups[gi].0, &groups[gi].1);
                let ghost hrow = RowView::Header(header_text(gb, *key));
                proof {
                    assert(gs[gi as int] == (groups@[gi as int].0, groups@[gi as int].1@));
                    assert(*members == groups@[gi as int].1);
                    assert forall|x: int| 0 <= x < members@.len() implies #[trigger] members@[x] < s.events.len() by {
                        assert(gs[gi as int].1[x] == members@[x]);
                    }
                    lemma_window_push(p, hrow, o, l);
                }
                if n >= offset {
                    let line = Line::Header(header(group_by, key));
                    let ghost before = out@;
                    out.push(line);
                    proof {
                        assert(out@.map_values(|x: Line| x.row()) =~= before.map_values(|x: Line| x.row()).push(hrow));
                    }
                }
                proof { p = p.push(hrow); }
                n = n + 1;
                let ghost head = p;
                let mut j: usize = 0;
                while j < members.len() && n < offset + length
                    invariant
                        s == store@,
                        events@ == s.events,
                        offset + length <= usize::MAX,
                        o == offset as nat,
                        l == length as nat,
                        forall|x: int| 0 <= x < members@.len() ==> #[trigger] members@[x] < s.events.len(),
                        j <= members@.len(),
                        n as nat == p.len(),
                        p == head + event_rows(s, members@.subrange(0, j as int), 1),
                        out@.map_values(|x: Line| x.row()) == window(p, o, l),
                        forall|k: int| 0 <= k < out@.len() ==> (#[trigger] out@[k]).is_selected() == (out@[k] is Event && offset + k == selection),
                        out@.len() == (if n < offset { 0 } else { n - offset }),
                    decreases members@.len() - j,
                {
                    let e = members[j];
                    let entry = &events[e];
                    let ghost row = event_row(s, e, 1);
                    proof {
                        lemma_window_push(p, row, o, l);
                        assert(head + event_rows(s, members@.subrange(0, j + 1), 1) =~= p.push(row));
                    }
                    if n >= offset {
                        let line = Line::Event { indent: 1, level: entry.level(), text: event_text(&entry.event.values), selected: n == selection };
                        let ghost before = out@;
                        out.push(line);
                        proof {
                            assert(out@.map_values(|x: Line| x.row()) =~= before.map_values(|x: Line| x.row()).push(row));
                        }
                    }
                    proof { p = p.push(row); }
                    n = n + 1;
                    j = j + 1;
                }
                proof {
                    let full = group_rows(s, gb, gs.subrange(0, gi + 1));
                    assert(gs.subrange(0, gi + 1).drop_last() =~= gs.subrange(0, gi as int));
                    assert(gs[gi as int].1 == members@);
                    assert(full =~= head + event_rows(s, members@, 1));
                    if j < members@.len() {
                        let rest = event_rows(s, members@.subrange(j as int, members@.len() as int), 1);
                        assert(full =~= p + rest);
                        lemma_window_prefix(p, rest, o, l);
                    } else {
                        assert(members@.subrange(0, j as int) =~= members@);
                    }
                    p = full;
                }
                gi = gi + 1;
            }
            proof {
                lemma_group_rows_prefix(s, gb, gs, gi as int, o, l);
            }
            out
        },
    }
}

proof fn lemma_group_rows_prefix(s: StoreState, g: GroupByView, gs: Seq<(Option<Value>, Seq<usize>)>, k: int, o: nat, l: nat)
    requires
        0 <= k <= gs.len(),
        k < gs.len() ==> group_rows(s, g, gs.subrange(0, k)).len() >= o + l,
    ensures
        window(group_rows(s, g, gs), o, l) == window(group_rows(s, g, gs.subrange(0, k)), o, l),
    decreases gs.len() - k,
{
    if k == gs.len() {
        assert(gs.subrange(0, k) =~= gs);
    } else {
        let p = group_rows(s, g, gs.subrange(0, k));
        let q = group_rows(s, g, gs.subrange(0, k + 1));
        assert(gs.subrange(0, k + 1).drop_last() =~= gs.subrange(0, k));
        let extra = seq![RowView::Header(header_text(g, gs[k].0))] + event_rows(s, gs[k].1, 1);
        assert(q =~= p + extra);
        lemma_window_prefix(p, extra, o, l);
        lemma_group_rows_prefix(s, g, gs, k + 1, o, l);
    }
}


/// The six-character label of a level.
pub open spec fn level_label(level: Option<Level>) -> Seq<char> {
    match level {
        None => seq![' ', 'N', 'O', 'N', 'E', ' '],
        Some(Level::Info) => seq![' ', 'I', 'N', 'F', 'O', ' '],
        Some(Level::Debug) => seq!['D', 'E', 'B', 'U', 'G', ' '],
        Some(Level::Error) => seq!['E', 'R', 'R', 'O', 'R', ' '],
        Some(Level::Trace) => seq!['T', 'R', 'A', 'C', 'E', ' '],
        Some(Level::Warn) => seq![' ', 'W', 'A', 'R', 'N', ' '],
    }
}

/// The label of a level, as the event list shows it.
pub fn style_level(level: Option<Level>) -> (r: &'static str)
    ensures
        r@ == level_label(level),
{
    match level {
        None => {
            proof { reveal_strlit(" NONE "); }
            " NONE "
        },
        Some(Level::Info) => {
            proof { reveal_strlit(" INFO "); }
            " INFO "
        },
        Some(Level::Debug) => {
            proof { reveal_strlit("DEBUG "); }
            "DEBUG "
        },
        Some(Level::Error) => {
            proof { reveal_strlit("ERROR "); }
            "ERROR "
        },
        Some(Level::Trace) => {
            proof { reveal_strlit("TRACE "); }
            "TRACE "
        },
        Some(Level::Warn) => {
            proof { reveal_strlit(" WARN "); }
            " WARN "
        },
    }
}

} // verus!
