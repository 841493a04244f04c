//! The wire messages that the subscriber sends and the console ingests.
use vstd::prelude::*;
use crate::text::{chars_cmp, compare_chars, decimal, decimal_chars, to_chars};

verus! {

/// A field value as the subscriber captured it.
#[derive(Clone, Debug, PartialEq)]
pub enum Value {
    Signed(i64),
    Unsigned(u64),
    Boolean(bool),
    Str(String),
    Debug(DebugRecord),
}

/// A value captured through its `Debug` form, plain and pretty-printed.
#[derive(Clone, Debug, PartialEq)]
pub struct DebugRecord {
    pub debug: String,
    pub pretty: String,
}

/// A named field with its value.
#[derive(Clone, Debug)]
pub struct FieldValue {
    pub name: String,
    pub value: Value,
}

/// Verbosity of a span or an event.
#[derive(Clone, Copy, Debug, PartialEq, Eq)]
pub enum Level {
    Trace,
    Debug,
    Info,
    Warn,
    Error,
}

/// Static description of a span or an event.
#[derive(Clone, Debug)]
pub struct Metadata {
    pub name: String,
    pub target: String,
    pub level: Level,
    pub module: String,
    pub file: String,
    pub line: Option<u32>,
    pub is_event: bool,
    pub is_span: bool,
    pub fieldset: Vec<String>,
}

/// Metadata, parent span and flags of a new span or an event.
#[derive(Clone, Debug)]
pub struct Attributes {
    pub metadata: Metadata,
    pub parent: Option<u64>,
    pub is_root: bool,
    pub is_contextual: bool,
}

/// A span was created under the subscriber-side id `span`.
#[derive(Clone, Debug)]
pub struct NewSpan {
    pub span: u64,
    pub attributes: Attributes,
    pub values: Vec<FieldValue>,
    pub timestamp: i64,
}

/// Field values were added to the span `span`.
#[derive(Clone, Debug)]
pub struct Record {
    pub span: u64,
    pub values: Vec<FieldValue>,
    pub thread: u64,
    pub timestamp: i64,
}

/// The span `span` follows from the span `follows`.
#[derive(Clone, Copy, Debug)]
pub struct RecordFollowsFrom {
    pub span: u64,
    pub follows: u64,
}

/// A point-in-time occurrence, inside the span `span` if it has one.
#[derive(Clone, Debug)]
pub struct Event {
    pub span: Option<u64>,
    pub values: Vec<FieldValue>,
    pub attributes: Attributes,
    pub thread: u64,
    pub fields: Vec<String>,
    pub timestamp: i64,
}

/// One message of the stream.
#[derive(Clone, Debug)]
pub enum Variant {
    NewSpan(NewSpan),
    Record(Record),
    Follows(RecordFollowsFrom),
    Event(Event),
}

/// The magnitude of a signed integer.
pub open spec fn magnitude(i: i64) -> nat {
    if i < 0 { (-(i as int)) as nat } else { i as nat }
}

/// The text of a value: the decimal form of an integer, `true` or `false`,
/// a string as it is, and the plain `Debug` form.
pub open spec fn value_text(v: Value) -> Seq<char> {
    match v {
        Value::Signed(i) => if i < 0 {
            seq!['-'] + decimal(magnitude(i))
        } else {
            decimal(i as nat)
        },
        Value::Unsigned(u) => decimal(u as nat),
        Value::Boolean(b) => if b {
            seq!['t', 'r', 'u', 'e']
        } else {
            seq!['f', 'a', 'l', 's', 'e']
        },
        Value::Str(s) => s@,
        Value::Debug(d) => d.debug@,
    }
}

/// Rank of a value's kind in the order of values.
pub open spec fn kind_rank(v: Value) -> int {
    match v {
        Value::Signed(_) => 0,
        Value::Unsigned(_) => 1,
        Value::Boolean(_) => 2,
        Value::Str(_) => 3,
        Value::Debug(_) => 4,
    }
}

/// Three-way comparison of two integers.
pub open spec fn int_cmp(a: int, b: int) -> int {
    if a < b { -1 } else if a > b { 1 } else { 0 }
}

/// The order of values: by kind, then by number, truth value (false first)
/// or text (the plain `Debug` form first, then the pretty one).
pub open spec fn value_cmp(a: Value, b: Value) -> int {
    if kind_rank(a) != kind_rank(b) {
        int_cmp(kind_rank(a), kind_rank(b))
    } else {
        match (a, b) {
            (Value::Signed(x), Value::Signed(y)) => int_cmp(x as int, y as int),
            (Value::Unsigned(x), Value::Unsigned(y)) => int_cmp(x as int, y as int),
            (Value::Boolean(x), Value::Boolean(y)) => int_cmp(
                if x { 1 } else { 0 },
                if y { 1 } else { 0 },
            ),
            (Value::Str(x), Value::Str(y)) => chars_cmp(x@, y@),
            (Value::Debug(x), Value::Debug(y)) => if chars_cmp(x.debug@, y.debug@) != 0 {
                chars_cmp(x.debug@, y.debug@)
            } else {
                chars_cmp(x.pretty@, y.pretty@)
            },
            _ => 0,
        }
    }
}

/// Equality of values as the order sees it.
pub open spec fn value_same(a: Value, b: Value) -> bool {
    value_cmp(a, b) == 0
}

/// Equality of optional values: both absent, or both present and the same.
pub open spec fn opt_value_same(a: Option<Value>, b: Option<Value>) -> bool {
    match (a, b) {
        (None, None) => true,
        (Some(x), Some(y)) => value_same(x, y),
        _ => false,
    }
}

fn rank(v: &Value) -> (r: u8)
    ensures
        r as int == kind_rank(*v),
{
    match v {
        Value::Signed(_) => 0,
        Value::Unsigned(_) => 1,
        Value::Boolean(_) => 2,
        Value::Str(_) => 3,
        Value::Debug(_) => 4,
    }
}

fn cmp_u64(a: u64, b: u64) -> (r: i8)
    ensures
        r as int == int_cmp(a as int, b as int),
{
    if a < b { -1 } else if a > b { 1 } else { 0 }
}

impl Value {
    /// A copy of the value.
    pub fn duplicate(&self) -> (r: Value)
        ensures
            r == *self,
    {
        match self {
            Value::Signed(i) => Value::Signed(*i),
            Value::Unsigned(u) => Value::Unsigned(*u),
            Value::Boolean(b) => Value::Boolean(*b),
            Value::Str(s) => Value::Str(s.clone()),
            Value::Debug(d) => Value::Debug(DebugRecord { debug: d.debug.clone(), pretty: d.pretty.clone() }),
        }
    }

    /// The text of the value, as a string.
    pub fn to_text_string(&self) -> (r: String)
        ensures
            r@ == value_text(*self),
    {
        match self {
            Value::Str(s) => s.clone(),
            Value::Debug(d) => d.debug.clone(),
            _ => string_of(&self.text()),
        }
    }

    /// The unsigned value `u`.
    pub fn from_u64(u: u64) -> (r: Value)
        ensures
            r == Value::Unsigned(u),
    {
        Value::Unsigned(u)
    }

    /// The text of the value.
    pub fn text(&self) -> (r: Vec<char>)
        ensures
            r@ == value_text(*self),
    {
        match self {
            Value::Signed(i) => {
                if *i < 0 {
                    let m: u64 = if *i == i64::MIN {
                        9223372036854775808u64
                    } else {
                        (-*i) as u64
                    };
                    let digits = decimal_chars(m);
                    let mut out: Vec<char> = Vec::new();
                    out.push('-');
                    let mut k: usize = 0;
                    while k < digits.len()
                        invariant
                            k <= digits@.len(),
                            out@ == seq!['-'] + digits@.subrange(0, k as int),
                        decreases digits@.len() - k,
                    {
                        out.push(digits[k]);
                        k = k + 1;
                        assert(out@ =~= seq!['-'] + digits@.subrange(0, k as int));
                    }
                    assert(digits@.subrange(0, digits@.len() as int) =~= digits@);
                    out
                } else {
                    decimal_chars(*i as u64)
                }
            },
            Value::Unsigned(u) => decimal_chars(*u),
            Value::Boolean(b) => {
                let mut out: Vec<char> = Vec::new();
                if *b {
                    out.push('t');
                    out.push('r');
                    out.push('u');
                    out.push('e');
                    assert(out@ =~= seq!['t', 'r', 'u', 'e']);
                } else {
                    out.push('f');
                    out.push('a');
                    out.push('l');
                    out.push('s');
                    out.push('e');
                    assert(out@ =~= seq!['f', 'a', 'l', 's', 'e']);
                }
                out
            },
            Value::Str(s) => to_chars(s.as_str()),
            Value::Debug(d) => to_chars(d.debug.as_str()),
        }
    }

    /// Compares two values in the order of values: -1, 0 or 1.
    pub fn compare(&self, other: &Value) -> (r: i8)
        ensures
            r as int == value_cmp(*self, *other),
    {
        let ra = rank(self);
        let rb = rank(other);
        if ra != rb {
            return if ra < rb { -1 } else { 1 };
        }
        match (self, other) {
            (Value::Signed(x), Value::Signed(y)) => {
                if *x < *y { -1 } else if *x > *y { 1 } else { 0 }
            },
            (Value::Unsigned(x), Value::Unsigned(y)) => cmp_u64(*x, *y),
            (Value::Boolean(x), Value::Boolean(y)) => {
                cmp_u64(if *x { 1 } else { 0 }, if *y { 1 } else { 0 })
            },
            (Value::Str(x), Value::Str(y)) => compare_chars(&to_chars(x.as_str()), &to_chars(y.as_str())),
            (Value::Debug(x), Value::Debug(y)) => {
                let c = compare_chars(&to_chars(x.debug.as_str()), &to_chars(y.debug.as_str()));
                if c != 0 {
                    c
                } else {
                    compare_chars(&to_chars(x.pretty.as_str()), &to_chars(y.pretty.as_str()))
                }
            },
            _ => 0,
        }
    }
}

/// Relies on `String::push`: the character is appended.
#[verifier::external_body]
fn push_char(s: &mut String, c: char)
    ensures
        final(s)@ == old(s)@.push(c),
{
    s.push(c);
}

/// The string of the characters `chars`, in order.
pub fn string_of(chars: &Vec<char>) -> (r: String)
    ensures
        r@ == chars@,
{
    let mut out = String::new();
    let mut i: usize = 0;
    while i < chars.len()
        invariant
            i <= chars@.len(),
            out@ == chars@.subrange(0, i as int),
        decreases chars@.len() - i,
    {
        push_char(&mut out, chars[i]);
        i = i + 1;
        assert(out@ =~= chars@.subrange(0, i as int));
    }
    assert(chars@.subrange(0, i as int) =~= chars@);
    out
}

/// The value of the first field named `name` in `values`.
pub open spec fn find_value(values: Seq<FieldValue>, name: Seq<char>) -> Option<Value>
    decreases values.len(),
{
    if values.len() == 0 {
        None
    } else if values[0].name@ == name {
        Some(values[0].value)
    } else {
        find_value(values.drop_first(), name)
    }
}

/// The index of the first field named `name` in `values`, if any.
pub fn position_by_name(values: &Vec<FieldValue>, name: &String) -> (r: Option<usize>)
    ensures
        match r {
            Some(i) => i < values@.len() && find_value(values@, name@) == Some(values@[i as int].value),
            None => find_value(values@, name@) is None,
        },
{
    let mut i: usize = 0;
    assert(values@.subrange(0, values@.len() as int) =~= values@);
    while i < values.len()
        invariant
            i <= values@.len(),
            find_value(values@, name@) == find_value(values@.subrange(i as int, values@.len() as int), name@),
        decreases values@.len() - i,
    {
        proof {
            let rest = values@.subrange(i as int, values@.len() as int);
            assert(rest[0] == values@[i as int]);
            assert(rest.drop_first() =~= values@.subrange(i + 1, values@.len() as int));
        }
        if values[i].name == *name {
            return Some(i);
        }
        i = i + 1;
    }
    None
}

/// Gathers the fields of a span or an event as they are visited.
#[derive(Debug)]
pub struct Recorder(pub Vec<FieldValue>);

impl Recorder {
    /// A recorder with no field.
    pub fn new() -> (r: Recorder)
        ensures
            r.0@.len() == 0,
    {
        Recorder(Vec::new())
    }

    /// Adds the field `name` with value `value`.
    pub fn record(&mut self, name: String, value: Value)
        ensures
            final(self).0@ == old(self).0@.push(FieldValue { name, value }),
    {
        self.0.push(FieldValue { name, value });
    }

    /// Adds a field captured through its `Debug` form.
    pub fn record_debug(&mut self, name: String, debug: String, pretty: String)
        ensures
            final(self).0@ == old(self).0@.push(
                FieldValue { name, value: Value::Debug(DebugRecord { debug, pretty }) },
            ),
    {
        self.record(name, Value::Debug(DebugRecord { debug, pretty }));
    }

    /// Adds a signed integer field.
    pub fn record_i64(&mut self, name: String, value: i64)
        ensures
            final(self).0@ == old(self).0@.push(FieldValue { name, value: Value::Signed(value) }),
    {
        self.record(name, Value::Signed(value));
    }

    /// Adds an unsigned integer field.
    pub fn record_u64(&mut self, name: String, value: u64)
        ensures
            final(self).0@ == old(self).0@.push(FieldValue { name, value: Value::Unsigned(value) }),
    {
        self.record(name, Value::Unsigned(value));
    }

    /// Adds a boolean field.
    pub fn record_bool(&mut self, name: String, value: bool)
        ensures
            final(self).0@ == old(self).0@.push(FieldValue { name, value: Value::Boolean(value) }),
    {
        self.record(name, Value::Boolean(value));
    }

    /// Adds a string field.
    pub fn record_str(&mut self, name: String, value: &str)
        ensures
            final(self).0@.len() == old(self).0@.len() + 1,
            final(self).0@.drop_last() == old(self).0@,
            final(self).0@.last().name == name,
            final(self).0@.last().value is Str,
            final(self).0@.last().value->Str_0@ == value@,
    {
        self.record(name, Value::Str(value.to_owned()));
        assert(self.0@.drop_last() =~= old(self).0@);
    }
}

} // verus!
