//! The command grammar of the query line: a modifier on an event field, or
//! a grouping of events.
//!
//! ```text
//! filter:  "event.field." FIELDNAME OP STRING
//! op:      "==" | "contains" | "starts_with" | "matches"
//! group:   "event.group_by.field." FIELDNAME
//!        | "event.group_by.span." SPANSEL
//! spansel: "field." FIELDNAME | "id"
//!        | "parent_by_name(" STRING ")." ("field." FIELDNAME | "id")
//! STRING:  '"' chars '"'
//! ```
use vstd::prelude::*;
use crate::filter::{entry_inserted, key_position, lemma_key_position, modifiers_wf, CriterionView, Filter, FilterView, GroupBy, GroupByView, Modifier, ModifierKind, ModifierView, SpanCriterion, SpanSelector};
use crate::text::{has_prefix, is_whitespace, is_ws, matches_at, occurs_at, to_chars};

verus! {

/// A parsed command.
#[derive(Debug, PartialEq)]
pub enum Command {
    Modifier(Modifier),
    GroupBy(GroupBy),
}

/// A command as a mathematical value.
pub enum CommandView {
    Modifier(ModifierView),
    GroupBy(GroupByView),
}

impl View for Command {
    type V = CommandView;

    open spec fn view(&self) -> CommandView {
        match self {
            Command::Modifier(m) => CommandView::Modifier(m@),
            Command::GroupBy(g) => CommandView::GroupBy(g@),
        }
    }
}

pub open spec fn w_event() -> Seq<char> { seq!['e', 'v', 'e', 'n', 't'] }
pub open spec fn w_event_dot() -> Seq<char> { seq!['e', 'v', 'e', 'n', 't', '.'] }
pub open spec fn w_field() -> Seq<char> { seq!['f', 'i', 'e', 'l', 'd'] }
pub open spec fn w_group_by() -> Seq<char> { seq!['g', 'r', 'o', 'u', 'p', '_', 'b', 'y'] }
pub open spec fn w_span() -> Seq<char> { seq!['s', 'p', 'a', 'n'] }
pub open spec fn w_id() -> Seq<char> { seq!['i', 'd'] }
pub open spec fn w_parent_by_name() -> Seq<char> {
    seq!['p', 'a', 'r', 'e', 'n', 't', '_', 'b', 'y', '_', 'n', 'a', 'm', 'e', '(']
}
pub open spec fn w_equals() -> Seq<char> { seq!['=', '='] }
pub open spec fn w_matches() -> Seq<char> { seq!['m', 'a', 't', 'c', 'h', 'e', 's'] }
pub open spec fn w_contains() -> Seq<char> { seq!['c', 'o', 'n', 't', 'a', 'i', 'n', 's'] }
pub open spec fn w_starts_with() -> Seq<char> {
    seq!['s', 't', 'a', 'r', 't', 's', '_', 'w', 'i', 't', 'h']
}

/// The position of the first white space in `s`, or its length.
pub open spec fn first_ws(s: Seq<char>) -> nat
    decreases s.len(),
{
    if s.len() == 0 {
        0
    } else if is_ws(s[0]) {
        0
    } else {
        1 + first_ws(s.drop_first())
    }
}

/// The position of the first `c` in `s`, or its length.
pub open spec fn first_of(s: Seq<char>, c: char) -> nat
    decreases s.len(),
{
    if s.len() == 0 {
        0
    } else if s[0] == c {
        0
    } else {
        1 + first_of(s.drop_first(), c)
    }
}

/// The pieces of `s` between the separators `c`.
pub open spec fn split_on(s: Seq<char>, c: char) -> Seq<Seq<char>>
    decreases s.len(),
{
    let i = first_of(s, c);
    if i >= s.len() {
        seq![s]
    } else {
        seq![s.subrange(0, i as int)] + split_on(s.subrange(i as int + 1, s.len() as int), c)
    }
}

/// `s` without its leading white space.
pub open spec fn trim_start(s: Seq<char>) -> Seq<char>
    decreases s.len(),
{
    if s.len() > 0 && is_ws(s[0]) {
        trim_start(s.drop_first())
    } else {
        s
    }
}

/// `s` without its trailing white space.
pub open spec fn trim_end(s: Seq<char>) -> Seq<char>
    decreases s.len(),
{
    if s.len() > 0 && is_ws(s.last()) {
        trim_end(s.drop_last())
    } else {
        s
    }
}

/// `s` without leading and trailing white space.
pub open spec fn trim(s: Seq<char>) -> Seq<char> {
    trim_end(trim_start(s))
}

/// What stands between the quotes of a quoted string.
pub open spec fn quoted_inner(s: Seq<char>) -> Option<Seq<char>> {
    if s.len() >= 2 && s[0] == '"' && s.last() == '"' {
        Some(s.subrange(1, s.len() - 1))
    } else {
        None
    }
}

/// The modifier kind that an operator word names.
pub open spec fn operator_kind(op: Seq<char>) -> Option<ModifierKind> {
    if op == w_equals() {
        Some(ModifierKind::Equals)
    } else if op == w_matches() {
        Some(ModifierKind::Matches)
    } else if op == w_contains() {
        Some(ModifierKind::Contains)
    } else if op == w_starts_with() {
        Some(ModifierKind::StartsWith)
    } else {
        None
    }
}

/// The modifier on field `field` that the rest of the line `rem` gives: an
/// operator word, white space, and a quoted string.
pub open spec fn parse_modifier(field: Seq<char>, rem: Seq<char>) -> Option<ModifierView> {
    let t = trim(rem);
    let e = first_ws(t);
    if e >= t.len() {
        None
    } else {
        match (quoted_inner(trim(t.subrange(e as int, t.len() as int))), operator_kind(t.subrange(0, e as int))) {
            (Some(v), Some(k)) => Some(ModifierView { kind: k, name: field, value: v }),
            _ => None,
        }
    }
}

/// The span criterion that starts at piece `k` of `segs`.
pub open spec fn parse_criterion(segs: Seq<Seq<char>>, k: int) -> Option<CriterionView> {
    if segs.len() <= k {
        None
    } else if segs[k] == w_field() {
        if segs.len() > k + 1 {
            Some(CriterionView::Field(segs[k + 1]))
        } else {
            None
        }
    } else if segs[k] == w_id() {
        Some(CriterionView::Id)
    } else {
        None
    }
}

/// The grouping that the pieces `segs` of `event.group_by...` give.
pub open spec fn parse_group_by(segs: Seq<Seq<char>>) -> Option<GroupByView> {
    if segs.len() < 4 {
        None
    } else if segs[2] == w_field() {
        Some(GroupByView::Field(segs[3]))
    } else if segs[2] == w_span() {
        let f = segs[3];
        if has_prefix(f, w_parent_by_name()) {
            let rest = f.subrange(15, f.len() as int);
            let close = first_of(rest, ')');
            if close >= rest.len() {
                None
            } else {
                match (quoted_inner(rest.subrange(0, close as int)), parse_criterion(segs, 4)) {
                    (Some(n), Some(c)) => Some(GroupByView::Parent { name: n, criterion: c }),
                    _ => None,
                }
            }
        } else {
            match parse_criterion(segs, 3) {
                Some(c) => Some(GroupByView::Span(c)),
                None => None,
            }
        }
    } else {
        None
    }
}

/// The command that the head `command` (up to the first white space) and
/// the rest of the line `rem` give.
pub open spec fn parse_event(command: Seq<char>, rem: Seq<char>) -> Option<CommandView> {
    let segs = split_on(command, '.');
    if segs[0] != w_event() || segs.len() < 2 {
        None
    } else if segs[1] == w_field() {
        if segs.len() < 3 {
            None
        } else {
            match parse_modifier(segs[2], rem) {
                Some(m) => Some(CommandView::Modifier(m)),
                None => None,
            }
        }
    } else if segs[1] == w_group_by() {
        match parse_group_by(segs) {
            Some(g) => Some(CommandView::GroupBy(g)),
            None => None,
        }
    } else {
        None
    }
}

/// The command that a line gives, if it is one.
pub open spec fn parse_command(s: Seq<char>) -> Option<CommandView> {
    let e = first_ws(s);
    let head = s.subrange(0, e as int);
    if has_prefix(head, w_event_dot()) {
        parse_event(head, s.subrange(e as int, s.len() as int))
    } else {
        None
    }
}

pub open spec fn opt_command_view(c: Option<Command>) -> Option<CommandView> {
    match c {
        Some(x) => Some(x@),
        None => None,
    }
}

proof fn lemma_first_ws(s: Seq<char>, k: int)
    requires
        0 <= k <= s.len(),
        forall|j: int| 0 <= j < k ==> !is_ws(#[trigger] s[j]),
        k == s.len() || is_ws(s[k]),
    ensures
        first_ws(s) == k,
    decreases s.len(),
{
    if s.len() > 0 && k > 0 {
        assert forall|j: int| 0 <= j < k - 1 implies !is_ws(#[trigger] s.drop_first()[j]) by {
            assert(s.drop_first()[j] == s[j + 1]);
        }
        lemma_first_ws(s.drop_first(), k - 1);
    }
}

proof fn lemma_first_of(s: Seq<char>, c: char, k: int)
    requires
        0 <= k <= s.len(),
        forall|j: int| 0 <= j < k ==> #[trigger] s[j] != c,
        k == s.len() || s[k] == c,
    ensures
        first_of(s, c) == k,
    decreases s.len(),
{
    if s.len() > 0 && k > 0 {
        assert forall|j: int| 0 <= j < k - 1 implies #[trigger] s.drop_first()[j] != c by {
            assert(s.drop_first()[j] == s[j + 1]);
        }
        lemma_first_of(s.drop_first(), c, k - 1);
    }
}

/// Where the first character of `s[a..b]` that satisfies white space is.
fn find_ws(s: &Vec<char>, a: usize, b: usize) -> (r: usize)
    requires
        a <= b <= s@.len(),
    ensures
        a <= r <= b,
        r - a == first_ws(s@.subrange(a as int, b as int)),
{
    let mut i = a;
    while i < b && !is_whitespace(s[i])
        invariant
            a <= i <= b,
            b <= s@.len(),
            forall|j: int| a <= j < i ==> !is_ws(#[trigger] s@[j]),
        decreases b - i,
    {
        i = i + 1;
    }
    proof {
        let t = s@.subrange(a as int, b as int);
        assert forall|j: int| 0 <= j < i - a implies !is_ws(#[trigger] t[j]) by {
            assert(t[j] == s@[a + j]);
        }
        lemma_first_ws(t, i - a);
    }
    i
}

/// Where the first `c` of `s[a..b]` is.
fn find_char(s: &Vec<char>, a: usize, b: usize, c: char) -> (r: usize)
    requires
        a <= b <= s@.len(),
    ensures
        a <= r <= b,
        r - a == first_of(s@.subrange(a as int, b as int), c),
{
    let mut i = a;
    while i < b && s[i] != c
        invariant
            a <= i <= b,
            b <= s@.len(),
            forall|j: int| a <= j < i ==> #[trigger] s@[j] != c,
        decreases b - i,
    {
        i = i + 1;
    }
    proof {
        let t = s@.subrange(a as int, b as int);
        assert forall|j: int| 0 <= j < i - a implies #[trigger] t[j] != c by {
            assert(t[j] == s@[a + j]);
        }
        lemma_first_of(t, c, i - a);
    }
    i
}

/// The bounds of `s[a..b]` without leading and trailing white space.
fn trim_range(s: &Vec<char>, a: usize, b: usize) -> (r: (usize, usize))
    requires
        a <= b <= s@.len(),
    ensures
        a <= r.0 <= r.1 <= b,
        s@.subrange(r.0 as int, r.1 as int) == trim(s@.subrange(a as int, b as int)),
{
    let mut i = a;
    while i < b && is_whitespace(s[i])
        invariant
            a <= i <= b,
            b <= s@.len(),
            trim_start(s@.subrange(a as int, b as int)) == trim_start(s@.subrange(i as int, b as int)),
        decreases b - i,
    {
        proof {
            let t = s@.subrange(i as int, b as int);
            assert(t[0] == s@[i as int]);
            assert(t.drop_first() =~= s@.subrange(i + 1, b as int));
        }
        i = i + 1;
    }
    proof {
        let t = s@.subrange(i as int, b as int);
        if i < b {
            assert(t[0] == s@[i as int]);
        }
    }
    let mut j = b;
    while j > i && is_whitespace(s[j - 1])
        invariant
            a <= i <= j <= b,
            b <= s@.len(),
            trim_end(s@.subrange(i as int, b as int)) == trim_end(s@.subrange(i as int, j as int)),
        decreases j - i,
    {
        proof {
            let t = s@.subrange(i as int, j as int);
            assert(t.last() == s@[j - 1]);
            assert(t.drop_last() =~= s@.subrange(i as int, j - 1));
        }
        j = j - 1;
    }
    proof {
        let t = s@.subrange(i as int, j as int);
        if j > i {
            assert(t.last() == s@[j - 1]);
        }
    }
    (i, j)
}

/// Whether `s[a..b]` is the word `w`.
fn range_is(s: &Vec<char>, a: usize, b: usize, w: &Vec<char>) -> (r: bool)
    requires
        a <= b <= s@.len(),
    ensures
        r == (s@.subrange(a as int, b as int) == w@),
{
    if b - a != w.len() {
        assert(s@.subrange(a as int, b as int).len() != w@.len());
        return false;
    }
    matches_at(s, w, a)
}

/// The bounds of the pieces of `s` between the separators `c`.
fn split_ranges(s: &Vec<char>, c: char) -> (r: Vec<(usize, usize)>)
    ensures
        r@.len() == split_on(s@, c).len(),
        forall|k: int| 0 <= k < r@.len() ==> (#[trigger] r@[k]).0 <= r@[k].1 <= s@.len()
            && s@.subrange(r@[k].0 as int, r@[k].1 as int) == split_on(s@, c)[k],
{
    let n = s.len();
    let mut out: Vec<(usize, usize)> = Vec::new();
    let mut start: usize = 0;
    let mut i: usize = 0;
    let ghost done: Seq<Seq<char>> = Seq::empty();
    assert(s@.subrange(0, n as int) =~= s@);
    while i < n
        invariant
            n == s@.len(),
            start <= i <= n,
            forall|j: int| start <= j < i ==> #[trigger] s@[j] != c,
            split_on(s@, c) == done + split_on(s@.subrange(start as int, n as int), c),
            out@.len() == done.len(),
            forall|k: int| 0 <= k < out@.len() ==> (#[trigger] out@[k]).0 <= out@[k].1 <= n
                && s@.subrange(out@[k].0 as int, out@[k].1 as int) == done[k],
        decreases n - i,
    {
        if s[i] == c {
            proof {
                let t = s@.subrange(start as int, n as int);
                assert forall|j: int| 0 <= j < i - start implies #[trigger] t[j] != c by {
                    assert(t[j] == s@[start + j]);
                }
                assert(t[i - start] == s@[i as int]);
                lemma_first_of(t, c, i - start);
                assert(t.subrange(0, i - start) =~= s@.subrange(start as int, i as int));
                assert(t.subrange(i - start + 1, t.len() as int) =~= s@.subrange(i + 1, n as int));
                assert(done + split_on(t, c) =~= done.push(s@.subrange(start as int, i as int))
                    + split_on(s@.subrange(i + 1, n as int), c));
                done = done.push(s@.subrange(start as int, i as int));
            }
            out.push((start, i));
            start = i + 1;
        }
        i = i + 1;
    }
    proof {
        let t = s@.subrange(start as int, n as int);
        assert forall|j: int| 0 <= j < t.len() implies #[trigger] t[j] != c by {
            assert(t[j] == s@[start + j]);
        }
        lemma_first_of(t, c, t.len() as int);
        assert(done + split_on(t, c) =~= done.push(t));
        done = done.push(t);
    }
    out.push((start, n));
    out
}

impl Command {
    /// The text between the quotes of a quoted string.
    pub fn parse_string(string: &str) -> (r: Option<String>)
        ensures
            match r {
                Some(x) => quoted_inner(string@) == Some(x@),
                None => quoted_inner(string@) is None,
            },
    {
        let chars = to_chars(string);
        let n = chars.len();
        if n < 2 || chars[0] != '"' || chars[n - 1] != '"' {
            return None;
        }
        Some(string.substring_char(1, n - 1).to_owned())
    }

    /// The modifier on field `fieldname` that the rest of the line gives.
    pub fn parse_operator(fieldname: &str, remaining: &str) -> (r: Option<Modifier>)
        ensures
            match r {
                Some(m) => parse_modifier(fieldname@, remaining@) == Some(m@),
                None => parse_modifier(fieldname@, remaining@) is None,
            },
    {
        let rc = to_chars(remaining);
        let n = rc.len();
        let (a, b) = trim_range(&rc, 0, n);
        let e = find_ws(&rc, a, b);
        proof {
            assert(rc@.subrange(0, n as int) =~= remaining@);
        }
        if e == b {
            return None;
        }
        let (c, d) = trim_range(&rc, e, b);
        proof {
            let t = rc@.subrange(a as int, b as int);
            assert(t.subrange(e - a, t.len() as int) =~= rc@.subrange(e as int, b as int));
            assert(t.subrange(0, e - a) =~= rc@.subrange(a as int, e as int));
        }
        let value = match Command::parse_string(remaining.substring_char(c, d)) {
            Some(v) => v,
            None => return None,
        };
        let name = fieldname.to_owned();
        if range_is(&rc, a, e, &vec!['=', '=']) {
            Some(Modifier::equals(name, value))
        } else if range_is(&rc, a, e, &vec!['m', 'a', 't', 'c', 'h', 'e', 's']) {
            Some(Modifier::matches(name, value))
        } else if range_is(&rc, a, e, &vec!['c', 'o', 'n', 't', 'a', 'i', 'n', 's']) {
            Some(Modifier::contains(name, value))
        } else if range_is(&rc, a, e, &vec!['s', 't', 'a', 'r', 't', 's', '_', 'w', 'i', 't', 'h']) {
            Some(Modifier::starts_with(name, value))
        } else {
            None
        }
    }

    /// The span criterion that starts at piece `k` of the head `command`.
    fn parse_criterion(command: &str, chars: &Vec<char>, segs: &Vec<(usize, usize)>, k: usize) -> (r: Option<SpanCriterion>)
        requires
            chars@ == command@,
            segs@.len() == split_on(chars@, '.').len(),
            forall|j: int| 0 <= j < segs@.len() ==> (#[trigger] segs@[j]).0 <= segs@[j].1 <= chars@.len()
                && chars@.subrange(segs@[j].0 as int, segs@[j].1 as int) == split_on(chars@, '.')[j],
        ensures
            match r {
                Some(c) => parse_criterion(split_on(chars@, '.'), k as int) == Some(c@),
                None => parse_criterion(split_on(chars@, '.'), k as int) is None,
            },
    {
        if segs.len() <= k {
            return None;
        }
        let (a, b) = segs[k];
        if range_is(chars, a, b, &vec!['f', 'i', 'e', 'l', 'd']) {
            if segs.len() > k + 1 {
                let (c, d) = segs[k + 1];
                Some(SpanCriterion::Field(command.substring_char(c, d).to_owned()))
            } else {
                None
            }
        } else if range_is(chars, a, b, &vec!['i', 'd']) {
            Some(SpanCriterion::Id)
        } else {
            None
        }
    }

    /// The command that the head `command` and the rest of the line give.
    pub fn parse_event(command: &str, remaining: &str) -> (r: Option<Command>)
        ensures
            opt_command_view(r) == parse_event(command@, remaining@),
    {
        let chars = to_chars(command);
        let segs = split_ranges(&chars, '.');
        let ghost pieces = split_on(chars@, '.');
        assert(pieces.len() >= 1);
        let (a0, b0) = segs[0];
        if !range_is(&chars, a0, b0, &vec!['e', 'v', 'e', 'n', 't']) || segs.len() < 2 {
            return None;
        }
        let (a1, b1) = segs[1];
        if range_is(&chars, a1, b1, &vec!['f', 'i', 'e', 'l', 'd']) {
            if segs.len() < 3 {
                return None;
            }
            let (a2, b2) = segs[2];
            match Command::parse_operator(command.substring_char(a2, b2), remaining) {
                Some(m) => Some(Command::Modifier(m)),
                None => None,
            }
        } else if range_is(&chars, a1, b1, &vec!['g', 'r', 'o', 'u', 'p', '_', 'b', 'y']) {
            if segs.len() < 4 {
                return None;
            }
            let (a2, b2) = segs[2];
            let (a3, b3) = segs[3];
            if range_is(&chars, a2, b2, &vec!['f', 'i', 'e', 'l', 'd']) {
                Some(Command::GroupBy(GroupBy::Field(command.substring_char(a3, b3).to_owned())))
            } else if range_is(&chars, a2, b2, &vec!['s', 'p', 'a', 'n']) {
                let pbn = vec!['p', 'a', 'r', 'e', 'n', 't', '_', 'b', 'y', '_', 'n', 'a', 'm', 'e', '('];
                let prefixed = b3 - a3 >= 15 && matches_at(&chars, &pbn, a3);
                proof {
                    let f = pieces[3];
                    assert(f == chars@.subrange(a3 as int, b3 as int));
                    if b3 - a3 >= 15 {
                        assert(f.subrange(0, 15) =~= chars@.subrange(a3 as int, a3 + 15));
                    }
                    assert(prefixed == has_prefix(f, w_parent_by_name()));
                }
                if prefixed {
                    let close = find_char(&chars, a3 + 15, b3, ')');
                    proof {
                        let f = pieces[3];
                        let rest = f.subrange(15, f.len() as int);
                        assert(rest =~= chars@.subrange(a3 + 15, b3 as int));
                        assert(rest.subrange(0, close - (a3 + 15)) =~= chars@.subrange(a3 + 15, close as int));
                    }
                    if close == b3 {
                        return None;
                    }
                    let name = match Command::parse_string(command.substring_char(a3 + 15, close)) {
                        Some(n) => n,
                        None => return None,
                    };
                    match Command::parse_criterion(command, &chars, &segs, 4) {
                        Some(criterion) => Some(Command::GroupBy(GroupBy::Span(SpanSelector::ParentByName { name, criterion }))),
                        None => None,
                    }
                } else {
                    match Command::parse_criterion(command, &chars, &segs, 3) {
                        Some(c) => Some(Command::GroupBy(GroupBy::Span(SpanSelector::SpanCriterion(c)))),
                        None => None,
                    }
                }
            } else {
                None
            }
        } else {
            None
        }
    }

    /// The command that a line gives, if it is one.
    pub fn from_str(string: &str) -> (r: Option<Command>)
        ensures
            opt_command_view(r) == parse_command(string@),
    {
        let chars = to_chars(string);
        let n = chars.len();
        let e = find_ws(&chars, 0, n);
        proof {
            assert(chars@.subrange(0, n as int) =~= string@);
        }
        let head_is_event = e >= 6 && matches_at(&chars, &vec!['e', 'v', 'e', 'n', 't', '.'], 0);
        proof {
            let head = string@.subrange(0, e as int);
            if e >= 6 {
                assert(head.subrange(0, 6) =~= chars@.subrange(0, 6));
            }
            assert(head_is_event == has_prefix(head, w_event_dot()));
        }
        if !head_is_event {
            return None;
        }
        Command::parse_event(string.substring_char(0, e), string.substring_char(e, n))
    }
}

impl std::str::FromStr for Command {
    type Err = ();

    fn from_str(s: &str) -> Result<Command, ()> {
        match Command::from_str(s) {
            Some(c) => Ok(c),
            None => Err(()),
        }
    }
}


/// The word of an operator.
pub open spec fn op_word(k: ModifierKind) -> Seq<char> {
    match k {
        ModifierKind::Equals => w_equals(),
        ModifierKind::Matches => w_matches(),
        ModifierKind::Contains => w_contains(),
        ModifierKind::StartsWith => w_starts_with(),
    }
}

pub open spec fn dot() -> Seq<char> { seq!['.'] }
pub open spec fn quote() -> Seq<char> { seq!['"'] }
pub open spec fn space() -> Seq<char> { seq![' '] }

/// `event.field.`
pub open spec fn w_event_field() -> Seq<char> { w_event() + dot() + w_field() + dot() }
/// `event.group_by.`
pub open spec fn w_event_group_by() -> Seq<char> { w_event() + dot() + w_group_by() + dot() }

/// The text of a modifier, in the grammar's form.
pub open spec fn fmt_modifier(m: ModifierView) -> Seq<char> {
    w_event_field() + m.name + space() + op_word(m.kind) + space() + quote() + m.value + quote()
}

/// The text of a span criterion.
pub open spec fn fmt_criterion(c: CriterionView) -> Seq<char> {
    match c {
        CriterionView::Field(n) => w_field() + dot() + n,
        CriterionView::Id => w_id(),
    }
}

/// The text of a grouping, in the grammar's form.
pub open spec fn fmt_group_by(g: GroupByView) -> Seq<char> {
    match g {
        GroupByView::Field(n) => w_event_group_by() + w_field() + dot() + n,
        GroupByView::Span(c) => w_event_group_by() + w_span() + dot() + fmt_criterion(c),
        GroupByView::Parent { name, criterion } => w_event_group_by() + parent_rest(name, criterion),
    }
}

/// The text of a command, in the grammar's form.
pub open spec fn fmt_command(c: CommandView) -> Seq<char> {
    match c {
        CommandView::Modifier(m) => fmt_modifier(m),
        CommandView::GroupBy(g) => fmt_group_by(g),
    }
}

fn op_text(k: ModifierKind) -> (r: &'static str)
    ensures
        r@ == op_word(k),
{
    match k {
        ModifierKind::Equals => {
            proof { reveal_strlit("=="); }
            "=="
        },
        ModifierKind::Matches => {
            proof { reveal_strlit("matches"); }
            "matches"
        },
        ModifierKind::Contains => {
            proof { reveal_strlit("contains"); }
            "contains"
        },
        ModifierKind::StartsWith => {
            proof { reveal_strlit("starts_with"); }
            "starts_with"
        },
    }
}

impl Modifier {
    /// The kind of the modifier.
    pub fn kind(&self) -> (r: ModifierKind)
        ensures
            r == self@.kind,
    {
        match self {
            Modifier::FieldContains { .. } => ModifierKind::Contains,
            Modifier::FieldEquals { .. } => ModifierKind::Equals,
            Modifier::FieldMatches { .. } => ModifierKind::Matches,
            Modifier::FieldStartsWith { .. } => ModifierKind::StartsWith,
        }
    }

    /// The text of the modifier, in the grammar's form.
    pub fn to_text(&self) -> (r: String)
        ensures
            r@ == fmt_modifier(self@),
    {
        let (name, value) = match self {
            Modifier::FieldContains { name, value } => (name, value),
            Modifier::FieldEquals { name, value } => (name, value),
            Modifier::FieldMatches { name, regex } => (name, regex),
            Modifier::FieldStartsWith { name, value } => (name, value),
        };
        let op = op_text(self.kind());
        let mut s = String::new();
        s.append("event.field.");
        s.append(name.as_str());
        s.append(" ");
        s.append(op);
        s.append(" \"");
        s.append(value.as_str());
        s.append("\"");
        proof {
            reveal_strlit("event.field.");
            reveal_strlit(" ");
            reveal_strlit(" \"");
            reveal_strlit("\"");
            assert(s@ =~= fmt_modifier(self@));
        }
        s
    }
}

impl SpanCriterion {
    /// The text of the criterion.
    pub fn to_text(&self) -> (r: String)
        ensures
            r@ == fmt_criterion(self@),
    {
        let mut s = String::new();
        match self {
            SpanCriterion::Field(n) => {
                s.append("field.");
                s.append(n.as_str());
                proof {
                    reveal_strlit("field.");
                    assert(s@ =~= fmt_criterion(self@));
                }
            },
            SpanCriterion::Id => {
                s.append("id");
                proof {
                    reveal_strlit("id");
                    assert(s@ =~= fmt_criterion(self@));
                }
            },
        }
        s
    }
}

impl GroupBy {
    /// The text of the grouping, in the grammar's form.
    pub fn to_text(&self) -> (r: String)
        ensures
            r@ == fmt_group_by(self@),
    {
        let mut s = String::new();
        proof {
            reveal_strlit("event.group_by.field.");
            reveal_strlit("event.group_by.span.");
            reveal_strlit("parent_by_name(\"");
            reveal_strlit("\").");
        }
        match self {
            GroupBy::Field(n) => {
                s.append("event.group_by.field.");
                s.append(n.as_str());
                assert(s@ =~= fmt_group_by(self@));
            },
            GroupBy::Span(SpanSelector::SpanCriterion(c)) => {
                s.append("event.group_by.span.");
                let t = c.to_text();
                s.append(t.as_str());
                assert(s@ =~= fmt_group_by(self@));
            },
            GroupBy::Span(SpanSelector::ParentByName { name, criterion }) => {
                s.append("event.group_by.span.");
                s.append("parent_by_name(\"");
                s.append(name.as_str());
                s.append("\").");
                let t = criterion.to_text();
                s.append(t.as_str());
                assert(s@ =~= w_event_group_by() + (w_span() + dot() + (parent_piece(name@) + dot() + fmt_criterion(criterion@))));
            },
        }
        s
    }
}

impl Command {
    /// The text of the command, in the grammar's form.
    pub fn to_text(&self) -> (r: String)
        ensures
            r@ == fmt_command(self@),
    {
        match self {
            Command::Modifier(m) => m.to_text(),
            Command::GroupBy(g) => g.to_text(),
        }
    }
}


/// Whether `x` holds neither a dot nor white space: it fits in one piece
/// of a command head.
pub open spec fn clean(x: Seq<char>) -> bool {
    forall|j: int| 0 <= j < x.len() ==> #[trigger] x[j] != '.' && !is_ws(x[j])
}

/// Whether `x` holds no white space.
pub open spec fn no_ws(x: Seq<char>) -> bool {
    forall|j: int| 0 <= j < x.len() ==> !is_ws(#[trigger] x[j])
}

pub open spec fn criterion_wf(c: CriterionView) -> bool {
    match c {
        CriterionView::Field(n) => clean(n),
        CriterionView::Id => true,
    }
}

/// The commands that the parser can produce: names that fit in one piece
/// of the head, and a parent name without a closing parenthesis.
pub open spec fn command_wf(c: CommandView) -> bool {
    match c {
        CommandView::Modifier(m) => clean(m.name),
        CommandView::GroupBy(GroupByView::Field(n)) => clean(n),
        CommandView::GroupBy(GroupByView::Span(c)) => criterion_wf(c),
        CommandView::GroupBy(GroupByView::Parent { name, criterion }) => clean(name)
            && (forall|j: int| 0 <= j < name.len() ==> #[trigger] name[j] != ')')
            && criterion_wf(criterion),
    }
}

proof fn lemma_first_ws_props(s: Seq<char>)
    ensures
        first_ws(s) <= s.len(),
        forall|j: int| 0 <= j < first_ws(s) ==> !is_ws(#[trigger] s[j]),
    decreases s.len(),
{
    if s.len() > 0 && !is_ws(s[0]) {
        lemma_first_ws_props(s.drop_first());
        assert forall|j: int| 0 <= j < first_ws(s) implies !is_ws(#[trigger] s[j]) by {
            if j > 0 {
                assert(s[j] == s.drop_first()[j - 1]);
            }
        }
    }
}

proof fn lemma_first_of_props(s: Seq<char>, c: char)
    ensures
        first_of(s, c) <= s.len(),
        forall|j: int| 0 <= j < first_of(s, c) ==> #[trigger] s[j] != c,
        first_of(s, c) < s.len() ==> s[first_of(s, c) as int] == c,
    decreases s.len(),
{
    if s.len() > 0 && s[0] != c {
        lemma_first_of_props(s.drop_first(), c);
        assert forall|j: int| 0 <= j < first_of(s, c) implies #[trigger] s[j] != c by {
            if j > 0 {
                assert(s[j] == s.drop_first()[j - 1]);
            }
        }
        if first_of(s, c) < s.len() {
            assert(s[first_of(s, c) as int] == s.drop_first()[first_of(s, c) - 1]);
        }
    }
}

proof fn lemma_first_ws_concat(a: Seq<char>, b: Seq<char>)
    requires
        no_ws(a),
    ensures
        first_ws(a + b) == a.len() + first_ws(b),
    decreases a.len(),
{
    if a.len() > 0 {
        assert((a + b)[0] == a[0]);
        assert((a + b).drop_first() =~= a.drop_first() + b);
        assert(no_ws(a.drop_first())) by {
            assert forall|j: int| 0 <= j < a.drop_first().len() implies !is_ws(#[trigger] a.drop_first()[j]) by {
                assert(a.drop_first()[j] == a[j + 1]);
            }
        }
        lemma_first_ws_concat(a.drop_first(), b);
    } else {
        assert(a + b =~= b);
    }
}

proof fn lemma_split_concat(a: Seq<char>, rest: Seq<char>, c: char)
    requires
        forall|j: int| 0 <= j < a.len() ==> #[trigger] a[j] != c,
    ensures
        split_on(a + seq![c] + rest, c) == seq![a] + split_on(rest, c),
{
    let s = a + seq![c] + rest;
    assert forall|j: int| 0 <= j < a.len() implies #[trigger] s[j] != c by {
        assert(s[j] == a[j]);
    }
    assert(s[a.len() as int] == c);
    lemma_first_of(s, c, a.len() as int);
    assert(s.subrange(0, a.len() as int) =~= a);
    assert(s.subrange(a.len() as int + 1, s.len() as int) =~= rest);
}

proof fn lemma_split_single(a: Seq<char>, c: char)
    requires
        forall|j: int| 0 <= j < a.len() ==> #[trigger] a[j] != c,
    ensures
        split_on(a, c) == seq![a],
{
    lemma_first_of(a, c, a.len() as int);
}

proof fn lemma_split_pieces(s: Seq<char>, c: char)
    requires
        no_ws(s),
    ensures
        forall|i: int, j: int| 0 <= i < split_on(s, c).len() && 0 <= j < split_on(s, c)[i].len()
            ==> #[trigger] split_on(s, c)[i][j] != c && !is_ws(split_on(s, c)[i][j]),
        split_on(s, c).len() >= 1,
    decreases s.len(),
{
    let k = first_of(s, c);
    lemma_first_of_props(s, c);
    let segs = split_on(s, c);
    if k >= s.len() {
        assert(segs == seq![s]);
        assert forall|i: int, j: int| 0 <= i < segs.len() && 0 <= j < segs[i].len()
            implies #[trigger] segs[i][j] != c && !is_ws(segs[i][j]) by {
            assert(segs[i] == s);
        }
    } else {
        let rest = s.subrange(k as int + 1, s.len() as int);
        assert(no_ws(rest)) by {
            assert forall|j: int| 0 <= j < rest.len() implies !is_ws(#[trigger] rest[j]) by {
                assert(rest[j] == s[k + 1 + j]);
            }
        }
        lemma_split_pieces(rest, c);
        let first = s.subrange(0, k as int);
        assert(segs == seq![first] + split_on(rest, c));
        assert forall|i: int, j: int| 0 <= i < segs.len() && 0 <= j < segs[i].len()
            implies #[trigger] segs[i][j] != c && !is_ws(segs[i][j]) by {
            if i == 0 {
                assert(segs[i] == first);
                assert(first[j] == s[j]);
            } else {
                assert(segs[i] == split_on(rest, c)[i - 1]);
            }
        }
    }
}

proof fn lemma_trim_space_before(t: Seq<char>)
    requires
        t.len() > 0,
        !is_ws(t[0]),
        !is_ws(t.last()),
    ensures
        trim(space() + t) == t,
{
    let x = space() + t;
    assert(x.drop_first() =~= t);
    assert(trim_start(x) == trim_start(t));
}

/// What the parser makes of a command is in the form that it can produce.
proof fn lemma_parsed_wf(s: Seq<char>)
    requires
        parse_command(s) is Some,
    ensures
        command_wf(parse_command(s)->Some_0),
{
    let e = first_ws(s);
    lemma_first_ws_props(s);
    let head = s.subrange(0, e as int);
    assert(no_ws(head)) by {
        assert forall|j: int| 0 <= j < head.len() implies !is_ws(#[trigger] head[j]) by {
            assert(head[j] == s[j]);
        }
    }
    lemma_split_pieces(head, '.');
    let segs = split_on(head, '.');
    assert forall|i: int| 0 <= i < segs.len() implies clean(#[trigger] segs[i]) by {
        assert forall|j: int| 0 <= j < segs[i].len() implies #[trigger] segs[i][j] != '.' && !is_ws(segs[i][j]) by {
            assert(segs[i][j] != '.' && !is_ws(segs[i][j]));
        }
    }
    if segs[1] == w_field() {
    } else if segs.len() >= 4 && segs[2] == w_span() && has_prefix(segs[3], w_parent_by_name()) {
        let f = segs[3];
        let rest = f.subrange(15, f.len() as int);
        let close = first_of(rest, ')');
        lemma_first_of_props(rest, ')');
        let inner = rest.subrange(0, close as int);
        let name = inner.subrange(1, inner.len() - 1);
        assert(clean(f));
        assert forall|j: int| 0 <= j < name.len() implies #[trigger] name[j] != '.' && !is_ws(name[j]) && name[j] != ')' by {
            assert(name[j] == f[16 + j]);
            assert(name[j] == rest[j + 1]);
        }
    }
}

proof fn lemma_words_no_ws()
    ensures
        no_ws(w_event_field()),
        no_ws(w_event_group_by()),
        no_ws(w_span()),
        no_ws(w_field()),
        no_ws(w_id()),
        no_ws(w_parent_by_name()),
        no_ws(dot()),
        no_ws(quote()),
        no_ws(seq![')']),
        w_event_dot() == w_event() + dot(),
{
    assert(w_event_dot() =~= w_event() + dot());
}

proof fn lemma_no_ws_concat(a: Seq<char>, b: Seq<char>)
    requires
        no_ws(a),
        no_ws(b),
    ensures
        no_ws(a + b),
{
    assert forall|j: int| 0 <= j < (a + b).len() implies !is_ws(#[trigger] (a + b)[j]) by {
        if j < a.len() {
            assert((a + b)[j] == a[j]);
        } else {
            assert((a + b)[j] == b[j - a.len()]);
        }
    }
}

proof fn lemma_clean_no_ws(a: Seq<char>)
    requires
        clean(a),
    ensures
        no_ws(a),
        forall|j: int| 0 <= j < a.len() ==> #[trigger] a[j] != '.',
{
    assert forall|j: int| 0 <= j < a.len() implies !is_ws(#[trigger] a[j]) by {
        assert(a[j] != '.' && !is_ws(a[j]));
    }
    assert forall|j: int| 0 <= j < a.len() implies #[trigger] a[j] != '.' by {
        assert(a[j] != '.' && !is_ws(a[j]));
    }
}

#[verifier::spinoff_prover]
proof fn lemma_format_modifier(m: ModifierView)
    requires
        clean(m.name),
    ensures
        parse_command(fmt_modifier(m)) == Some(CommandView::Modifier(m)),
{
    lemma_words_no_ws();
    lemma_clean_no_ws(m.name);
    let ev = w_event();
    let fd = w_field();
    let head = w_event_field() + m.name;
    let op = op_word(m.kind);
    let y = quote() + m.value + quote();
    let x = op + (space() + y);
    let tail = space() + x;
    let s = fmt_modifier(m);
    assert(s =~= head + tail);
    lemma_no_ws_concat(w_event_field(), m.name);
    lemma_first_ws_concat(head, tail);
    assert(first_ws(tail) == 0);
    assert(s.subrange(0, head.len() as int) =~= head);
    assert(s.subrange(head.len() as int, s.len() as int) =~= tail);
    assert(head.subrange(0, 6) =~= w_event_dot());
    assert(head =~= ev + seq!['.'] + (fd + seq!['.'] + m.name));
    lemma_split_concat(ev, fd + seq!['.'] + m.name, '.');
    lemma_split_concat(fd, m.name, '.');
    lemma_split_single(m.name, '.');
    assert(split_on(head, '.') =~= seq![ev, fd, m.name]);
    assert(no_ws(op));
    assert(x[0] == op[0]);
    assert(x.last() == '"');
    lemma_trim_space_before(x);
    lemma_first_ws_concat(op, space() + y);
    assert(x.subrange(op.len() as int, x.len() as int) =~= space() + y);
    assert(x.subrange(0, op.len() as int) =~= op);
    lemma_trim_space_before(y);
    assert(y.subrange(1, y.len() - 1) =~= m.value);
    assert(operator_kind(op) == Some(m.kind));
}

/// A grouping's text is one head without white space, whose pieces after
/// `event` and `group_by` are those of `rest`.
proof fn lemma_group_head(rest: Seq<char>)
    requires
        no_ws(rest),
    ensures
        ({
            let s = w_event_group_by() + rest;
            &&& first_ws(s) == s.len()
            &&& s.subrange(0, s.len() as int) == s
            &&& has_prefix(s, w_event_dot())
            &&& split_on(s, '.') == seq![w_event(), w_group_by()] + split_on(rest, '.')
        }),
{
    lemma_words_no_ws();
    let s = w_event_group_by() + rest;
    lemma_no_ws_concat(w_event_group_by(), rest);
    lemma_first_ws(s, s.len() as int);
    assert(s.subrange(0, s.len() as int) =~= s);
    assert(s.subrange(0, 6) =~= w_event_dot());
    assert(s =~= w_event() + seq!['.'] + (w_group_by() + seq!['.'] + rest));
    lemma_split_concat(w_event(), w_group_by() + seq!['.'] + rest, '.');
    lemma_split_concat(w_group_by(), rest, '.');
    assert(seq![w_event()] + (seq![w_group_by()] + split_on(rest, '.'))
        =~= seq![w_event(), w_group_by()] + split_on(rest, '.'));
}

proof fn lemma_criterion_pieces(c: CriterionView)
    requires
        criterion_wf(c),
    ensures
        no_ws(fmt_criterion(c)),
        split_on(fmt_criterion(c), '.') == match c {
            CriterionView::Field(n) => seq![w_field(), n],
            CriterionView::Id => seq![w_id()],
        },
{
    lemma_words_no_ws();
    match c {
        CriterionView::Field(n) => {
            lemma_clean_no_ws(n);
            lemma_no_ws_concat(w_field(), dot());
            lemma_no_ws_concat(w_field() + dot(), n);
            lemma_split_concat(w_field(), n, '.');
            lemma_split_single(n, '.');
            assert(seq![w_field()] + seq![n] =~= seq![w_field(), n]);
        },
        CriterionView::Id => {
            lemma_split_single(w_id(), '.');
        },
    }
}

#[verifier::spinoff_prover]
proof fn lemma_format_group_field(n: Seq<char>)
    requires
        clean(n),
    ensures
        parse_command(fmt_group_by(GroupByView::Field(n))) == Some(CommandView::GroupBy(GroupByView::Field(n))),
{
    lemma_words_no_ws();
    lemma_clean_no_ws(n);
    let rest = w_field() + dot() + n;
    lemma_no_ws_concat(w_field(), dot());
    lemma_no_ws_concat(w_field() + dot(), n);
    assert(fmt_group_by(GroupByView::Field(n)) =~= w_event_group_by() + rest);
    lemma_group_parse(rest);
    lemma_split_concat(w_field(), n, '.');
    lemma_split_single(n, '.');
    let segs = seq![w_event(), w_group_by()] + split_on(rest, '.');
    assert(segs =~= seq![w_event(), w_group_by(), w_field(), n]);
}

/// A grouping head parses by its pieces after `event.group_by.`.
proof fn lemma_group_parse(rest: Seq<char>)
    requires
        no_ws(rest),
    ensures
        parse_command(w_event_group_by() + rest) == match parse_group_by(seq![w_event(), w_group_by()] + split_on(rest, '.')) {
            Some(g) => Some(CommandView::GroupBy(g)),
            None => None,
        },
{
    lemma_group_head(rest);
    let segs = seq![w_event(), w_group_by()] + split_on(rest, '.');
    assert(segs[0] == w_event());
    assert(segs[1] == w_group_by());
    assert(segs[1] != w_field());
}

#[verifier::spinoff_prover]
proof fn lemma_format_group_span(c: CriterionView)
    requires
        criterion_wf(c),
    ensures
        parse_command(fmt_group_by(GroupByView::Span(c))) == Some(CommandView::GroupBy(GroupByView::Span(c))),
{
    lemma_words_no_ws();
    lemma_criterion_pieces(c);
    let rest = w_span() + dot() + fmt_criterion(c);
    lemma_no_ws_concat(w_span(), dot());
    lemma_no_ws_concat(w_span() + dot(), fmt_criterion(c));
    assert(fmt_group_by(GroupByView::Span(c)) =~= w_event_group_by() + rest);
    lemma_group_parse(rest);
    lemma_split_concat(w_span(), fmt_criterion(c), '.');
    let segs = seq![w_event(), w_group_by()] + split_on(rest, '.');
    lemma_parse_span_segs(c, segs);
}

proof fn lemma_parse_span_segs(c: CriterionView, segs: Seq<Seq<char>>)
    requires
        segs == seq![w_event(), w_group_by()] + (seq![w_span()] + match c {
            CriterionView::Field(n) => seq![w_field(), n],
            CriterionView::Id => seq![w_id()],
        }),
    ensures
        parse_group_by(segs) == Some(GroupByView::Span(c)),
{
    match c {
        CriterionView::Field(n) => {
            assert(segs =~= seq![w_event(), w_group_by(), w_span(), w_field(), n]);
            assert(!has_prefix(segs[3], w_parent_by_name()));
            assert(segs[2] != w_field());
        },
        CriterionView::Id => {
            assert(segs =~= seq![w_event(), w_group_by(), w_span(), w_id()]);
            assert(!has_prefix(segs[3], w_parent_by_name()));
            assert(segs[3] != w_field());
            assert(segs[2] != w_field());
        },
    }
}

/// The parent piece `parent_by_name("name")` of a head.
pub open spec fn parent_piece(name: Seq<char>) -> Seq<char> {
    w_parent_by_name() + quote() + name + quote() + seq![')']
}

proof fn lemma_parent_piece(name: Seq<char>)
    requires
        clean(name),
        forall|j: int| 0 <= j < name.len() ==> #[trigger] name[j] != ')',
    ensures
        ({
            let p = parent_piece(name);
            let r = p.subrange(15, p.len() as int);
            &&& no_ws(p)
            &&& forall|j: int| 0 <= j < p.len() ==> #[trigger] p[j] != '.'
            &&& has_prefix(p, w_parent_by_name())
            &&& first_of(r, ')') < r.len()
            &&& quoted_inner(r.subrange(0, first_of(r, ')') as int)) == Some(name)
        }),
{
    lemma_words_no_ws();
    lemma_clean_no_ws(name);
    let p = parent_piece(name);
    lemma_no_ws_concat(w_parent_by_name(), quote());
    lemma_no_ws_concat(w_parent_by_name() + quote(), name);
    lemma_no_ws_concat(w_parent_by_name() + quote() + name, quote());
    lemma_no_ws_concat(w_parent_by_name() + quote() + name + quote(), seq![')']);
    assert forall|j: int| 0 <= j < p.len() implies #[trigger] p[j] != '.' by {
        if 16 <= j < 16 + name.len() {
            assert(p[j] == name[j - 16]);
        }
    }
    assert(p.subrange(0, 15) =~= w_parent_by_name());
    let r = p.subrange(15, p.len() as int);
    assert(r =~= quote() + name + quote() + seq![')']);
    assert forall|j: int| 0 <= j < name.len() + 2 implies #[trigger] r[j] != ')' by {
        if 1 <= j < name.len() + 1 {
            assert(r[j] == name[j - 1]);
        }
    }
    lemma_first_of(r, ')', name.len() as int + 2);
    let inner = r.subrange(0, name.len() as int + 2);
    assert(inner =~= quote() + name + quote());
    assert(inner.subrange(1, inner.len() - 1) =~= name);
}

/// What follows `event.group_by.` in a grouping by a parent.
pub open spec fn parent_rest(name: Seq<char>, c: CriterionView) -> Seq<char> {
    w_span() + dot() + (parent_piece(name) + dot() + fmt_criterion(c))
}

proof fn lemma_parent_rest(name: Seq<char>, c: CriterionView)
    requires
        clean(name),
        forall|j: int| 0 <= j < name.len() ==> #[trigger] name[j] != ')',
        criterion_wf(c),
    ensures
        no_ws(parent_rest(name, c)),
        split_on(parent_rest(name, c), '.') == seq![w_span()] + (seq![parent_piece(name)] + split_on(fmt_criterion(c), '.')),
{
    lemma_words_no_ws();
    lemma_criterion_pieces(c);
    lemma_parent_piece(name);
    let p = parent_piece(name);
    lemma_no_ws_concat(p, dot());
    lemma_no_ws_concat(p + dot(), fmt_criterion(c));
    lemma_no_ws_concat(w_span(), dot());
    lemma_no_ws_concat(w_span() + dot(), p + dot() + fmt_criterion(c));
    lemma_split_concat(w_span(), p + dot() + fmt_criterion(c), '.');
    lemma_split_concat(p, fmt_criterion(c), '.');
}

proof fn lemma_format_group_parent(name: Seq<char>, c: CriterionView)
    requires
        clean(name),
        forall|j: int| 0 <= j < name.len() ==> #[trigger] name[j] != ')',
        criterion_wf(c),
    ensures
        parse_command(fmt_group_by(GroupByView::Parent { name, criterion: c }))
            == Some(CommandView::GroupBy(GroupByView::Parent { name, criterion: c })),
{
    let rest = parent_rest(name, c);
    lemma_parent_rest(name, c);
    lemma_group_parse(rest);
    let segs = seq![w_event(), w_group_by()] + split_on(rest, '.');
    lemma_parse_parent_segs(name, c, segs);
}

proof fn lemma_parse_parent_segs(name: Seq<char>, c: CriterionView, segs: Seq<Seq<char>>)
    requires
        clean(name),
        forall|j: int| 0 <= j < name.len() ==> #[trigger] name[j] != ')',
        criterion_wf(c),
        segs == seq![w_event(), w_group_by()] + (seq![w_span()] + (seq![parent_piece(name)] + split_on(fmt_criterion(c), '.'))),
    ensures
        parse_group_by(segs) == Some(GroupByView::Parent { name, criterion: c }),
{
    lemma_parent_piece(name);
    lemma_criterion_pieces(c);
    let p = parent_piece(name);
    match c {
        CriterionView::Field(n) => {
            assert(segs =~= seq![w_event(), w_group_by(), w_span(), p, w_field(), n]);
        },
        CriterionView::Id => {
            assert(segs =~= seq![w_event(), w_group_by(), w_span(), p, w_id()]);
            assert(segs[4] != w_field());
        },
    }
    assert(segs[2] != w_field());
}

/// The text of a command in the form that the parser produces parses back
/// to that command.
proof fn lemma_format_parses(c: CommandView)
    requires
        command_wf(c),
    ensures
        parse_command(fmt_command(c)) == Some(c),
{
    match c {
        CommandView::Modifier(m) => lemma_format_modifier(m),
        CommandView::GroupBy(GroupByView::Field(n)) => lemma_format_group_field(n),
        CommandView::GroupBy(GroupByView::Span(cr)) => lemma_format_group_span(cr),
        CommandView::GroupBy(GroupByView::Parent { name, criterion }) => lemma_format_group_parent(name, criterion),
    }
}

/// The grammar round-trips: every command that the parser produces is
/// written by `to_text` in a form that parses back to the same command.
pub proof fn lemma_grammar_round_trip(s: Seq<char>)
    requires
        parse_command(s) is Some,
    ensures
        parse_command(fmt_command(parse_command(s)->Some_0)) == parse_command(s),
{
    lemma_parsed_wf(s);
    lemma_format_parses(parse_command(s)->Some_0);
}


/// One line per modifier, in order, each in the grammar's form.
pub open spec fn modifier_lines(mods: Seq<(Seq<char>, Modifier)>) -> Seq<char>
    decreases mods.len(),
{
    if mods.len() == 0 {
        Seq::empty()
    } else {
        modifier_lines(mods.drop_last()) + fmt_modifier(mods.last().1@) + seq!['\n']
    }
}

/// The text of a filter: its grouping first, if any, then its modifiers,
/// one clause per line.
pub open spec fn fmt_filter(f: FilterView) -> Seq<char> {
    match f.group_by {
        Some(g) => fmt_group_by(g) + seq!['\n'] + modifier_lines(f.modifiers),
        None => modifier_lines(f.modifiers),
    }
}

impl Filter {
    /// The text of the filter, one clause per line.
    pub fn to_text(&self) -> (r: String)
        ensures
            r@ == fmt_filter(self@),
    {
        let mut s = String::new();
        proof { reveal_strlit("\n"); }
        match self.group_by() {
            Some(g) => {
                let t = g.to_text();
                s.append(t.as_str());
                s.append("\n");
            },
            None => {},
        }
        let ghost start = s@;
        let n = self.modifier_count();
        let mut i: usize = 0;
        while i < n
            invariant
                n == self@.modifiers.len(),
                i <= n,
                s@ == start + modifier_lines(self@.modifiers.subrange(0, i as int)),
            decreases n - i,
        {
            let t = self.modifier_at(i).to_text();
            s.append(t.as_str());
            s.append("\n");
            proof {
                reveal_strlit("\n");
                let m = self@.modifiers.subrange(0, i + 1);
                assert(m.drop_last() =~= self@.modifiers.subrange(0, i as int));
                assert(m.last() == self@.modifiers[i as int]);
                assert(s@ =~= start + modifier_lines(m));
            }
            i = i + 1;
        }
        proof {
            assert(self@.modifiers.subrange(0, n as int) =~= self@.modifiers);
            assert(s@ =~= fmt_filter(self@));
        }
        s
    }
}


/// A filter's grouping and modifiers as mathematical values.
pub struct ClausesView {
    pub group_by: Option<GroupByView>,
    pub modifiers: Seq<(Seq<char>, ModifierView)>,
}

/// The modifiers of a filter as mathematical values.
pub open spec fn modifier_views(es: Seq<(Seq<char>, Modifier)>) -> Seq<(Seq<char>, ModifierView)> {
    es.map_values(|e: (Seq<char>, Modifier)| (e.0, e.1@))
}

/// The position of key `k` among modifier views.
pub open spec fn view_key_position(es: Seq<(Seq<char>, ModifierView)>, k: Seq<char>) -> Option<int>
    decreases es.len(),
{
    if es.len() == 0 {
        None
    } else if es.last().0 == k && view_key_position(es.drop_last(), k) is None {
        Some(es.len() - 1)
    } else {
        view_key_position(es.drop_last(), k)
    }
}

/// Modifier views after inserting `m` under its field name.
pub open spec fn view_inserted(es: Seq<(Seq<char>, ModifierView)>, m: ModifierView) -> Seq<(Seq<char>, ModifierView)> {
    match view_key_position(es, m.name) {
        Some(i) => es.update(i, (m.name, m)),
        None => es.push((m.name, m)),
    }
}

/// The clauses after one more command.
pub open spec fn with_command(c: ClausesView, cmd: CommandView) -> ClausesView {
    match cmd {
        CommandView::GroupBy(g) => ClausesView { group_by: Some(g), ..c },
        CommandView::Modifier(m) => ClausesView { modifiers: view_inserted(c.modifiers, m), ..c },
    }
}

/// The clauses that `lines` give, from none, if every line is a command.
pub open spec fn clauses_of(lines: Seq<Seq<char>>) -> Option<ClausesView>
    decreases lines.len(),
{
    if lines.len() == 0 {
        Some(ClausesView { group_by: None, modifiers: Seq::empty() })
    } else {
        match clauses_of(lines.drop_last()) {
            None => None,
            Some(c) => match parse_command(lines.last()) {
                None => None,
                Some(cmd) => Some(with_command(c, cmd)),
            },
        }
    }
}

/// The position of the first empty line, or the number of lines.
pub open spec fn first_empty(lines: Seq<Seq<char>>) -> nat
    decreases lines.len(),
{
    if lines.len() == 0 {
        0
    } else if lines[0].len() == 0 {
        0
    } else {
        1 + first_empty(lines.drop_first())
    }
}

/// The clauses of a filter's text: its lines up to the first empty one,
/// each a command.
pub open spec fn text_clauses(text: Seq<char>) -> Option<ClausesView> {
    let lines = split_on(text, '\n');
    clauses_of(lines.subrange(0, first_empty(lines) as int))
}

proof fn lemma_view_key_position(es: Seq<(Seq<char>, Modifier)>, k: Seq<char>)
    ensures
        view_key_position(modifier_views(es), k) == key_position(es, k),
    decreases es.len(),
{
    if es.len() > 0 {
        assert(modifier_views(es).drop_last() =~= modifier_views(es.drop_last()));
        lemma_view_key_position(es.drop_last(), k);
    }
}

proof fn lemma_views_inserted(es: Seq<(Seq<char>, Modifier)>, m: Modifier)
    ensures
        modifier_views(entry_inserted(es, m@.name, m)) == view_inserted(modifier_views(es), m@),
{
    lemma_view_key_position(es, m@.name);
    lemma_key_position(es, m@.name);
    match key_position(es, m@.name) {
        Some(i) => {
            assert(modifier_views(es.update(i, (m@.name, m))) =~= modifier_views(es).update(i, (m@.name, m@)));
        },
        None => {
            assert(modifier_views(es.push((m@.name, m))) =~= modifier_views(es).push((m@.name, m@)));
        },
    }
}

proof fn lemma_first_empty_props(lines: Seq<Seq<char>>)
    ensures
        first_empty(lines) <= lines.len(),
        forall|j: int| 0 <= j < first_empty(lines) ==> (#[trigger] lines[j]).len() > 0,
        first_empty(lines) < lines.len() ==> lines[first_empty(lines) as int].len() == 0,
    decreases lines.len(),
{
    if lines.len() > 0 && lines[0].len() > 0 {
        lemma_first_empty_props(lines.drop_first());
        assert forall|j: int| 0 <= j < first_empty(lines) implies (#[trigger] lines[j]).len() > 0 by {
            if j > 0 {
                assert(lines[j] == lines.drop_first()[j - 1]);
            }
        }
        if first_empty(lines) < lines.len() {
            assert(lines[first_empty(lines) as int] == lines.drop_first()[first_empty(lines) - 1]);
        }
    }
}

impl Filter {
    /// The filter named `name` that a saved text gives: its lines up to the
    /// first empty one, each a command, in order; none if a line is not a
    /// command.
    pub fn from_text(name: String, text: &str) -> (r: Option<Filter>)
        ensures
            r is Some <==> text_clauses(text@) is Some,
            r is Some ==> {
                let f = r->Some_0;
                let c = text_clauses(text@)->Some_0;
                &&& f.wf()
                &&& f@.name == name@
                &&& f@.group_by == c.group_by
                &&& modifier_views(f@.modifiers) == c.modifiers
            },
    {
        let chars = to_chars(text);
        let lines = split_ranges(&chars, '\n');
        let ghost ls = split_on(chars@, '\n');
        proof {
            lemma_first_empty_props(ls);
        }
        let mut filter = Filter::new(name);
        proof {
            assert(ls.subrange(0, 0) =~= Seq::<Seq<char>>::empty());
            assert(modifier_views(filter@.modifiers) =~= Seq::empty());
        }
        let mut i: usize = 0;
        while i < lines.len()
            invariant
                chars@ == text@,
                ls == split_on(chars@, '\n'),
                lines@.len() == ls.len(),
                forall|k: int| 0 <= k < lines@.len() ==> (#[trigger] lines@[k]).0 <= lines@[k].1 <= chars@.len()
                    && chars@.subrange(lines@[k].0 as int, lines@[k].1 as int) == ls[k],
                i <= first_empty(ls),
                first_empty(ls) <= ls.len(),
                forall|j: int| 0 <= j < first_empty(ls) ==> (#[trigger] ls[j]).len() > 0,
                first_empty(ls) < ls.len() ==> ls[first_empty(ls) as int].len() == 0,
                filter.wf(),
                filter@.name == name@,
                clauses_of(ls.subrange(0, i as int)) == Some(ClausesView {
                    group_by: filter@.group_by,
                    modifiers: modifier_views(filter@.modifiers),
                }),
            ensures
                i == first_empty(ls),
                filter.wf(),
                filter@.name == name@,
                clauses_of(ls.subrange(0, i as int)) == Some(ClausesView {
                    group_by: filter@.group_by,
                    modifiers: modifier_views(filter@.modifiers),
                }),
            decreases lines@.len() - i,
        {
            let (a, b) = lines[i];
            if a == b {
                assert(i == first_empty(ls));
                break;
            }
            proof {
                assert(ls.subrange(0, i + 1).drop_last() =~= ls.subrange(0, i as int));
                assert(ls.subrange(0, i + 1).last() == ls[i as int]);
            }
            let ghost before = filter@;
            match Command::from_str(text.substring_char(a, b)) {
                None => {
                    proof {
                        lemma_clauses_stop(ls, i as int);
                    }
                    return None;
                },
                Some(Command::GroupBy(g)) => {
                    filter.group(g);
                },
                Some(Command::Modifier(m)) => {
                    proof {
                        lemma_views_inserted(before.modifiers, m);
                    }
                    filter.insert_modifier(m);
                },
            }
            i = i + 1;
        }
        Some(filter)
    }
}

proof fn lemma_clauses_stop(ls: Seq<Seq<char>>, i: int)
    requires
        0 <= i < ls.len(),
        parse_command(ls[i]) is None,
    ensures
        forall|k: int| i < k <= ls.len() ==> #[trigger] clauses_of(ls.subrange(0, k)) is None,
{
    assert forall|k: int| i < k <= ls.len() implies #[trigger] clauses_of(ls.subrange(0, k)) is None by {
        lemma_clauses_stop_at(ls, i, k);
    }
}

proof fn lemma_clauses_stop_at(ls: Seq<Seq<char>>, i: int, k: int)
    requires
        0 <= i < k <= ls.len(),
        parse_command(ls[i]) is None,
    ensures
        clauses_of(ls.subrange(0, k)) is None,
    decreases k,
{
    let s = ls.subrange(0, k);
    assert(s.drop_last() =~= ls.subrange(0, k - 1));
    if k - 1 > i {
        lemma_clauses_stop_at(ls, i, k - 1);
    } else {
        assert(s.last() == ls[i]);
    }
}

} // verus!
