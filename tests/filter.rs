use tracing_console::command::Command;
use tracing_console::filter::{Entries, Filter, GroupBy, Modifier, SpanCriterion, SpanSelector};
use tracing_console::messages::{Attributes, DebugRecord, Event, FieldValue, Level, Metadata, NewSpan, Record, Value, Variant};
use tracing_console::store::{EventEntry, Store};

fn metadata(name: &str) -> Metadata {
    Metadata {
        name: name.to_string(),
        target: String::new(),
        level: Level::Info,
        module: String::new(),
        file: String::new(),
        line: None,
        is_event: true,
        is_span: false,
        fieldset: Vec::new(),
    }
}

fn event_with(span: Option<u64>, values: Vec<FieldValue>) -> Event {
    Event {
        span,
        values,
        attributes: Attributes { metadata: metadata("event"), parent: None, is_root: false, is_contextual: true },
        thread: 1,
        fields: Vec::new(),
        timestamp: 0,
    }
}

fn field(name: &str, value: Value) -> FieldValue {
    FieldValue { name: name.to_string(), value }
}

fn event_entry() -> EventEntry {
    let event = event_with(None, vec![field("foo", Value::Str("barbazboz".to_string()))]);
    EventEntry { span: None, event }
}

fn new_span(id: u64, name: &str, parent: Option<u64>, values: Vec<FieldValue>) -> Variant {
    Variant::NewSpan(NewSpan {
        span: id,
        attributes: Attributes { metadata: metadata(name), parent, is_root: parent.is_none(), is_contextual: false },
        values,
        timestamp: 0,
    })
}

fn all_events(store: &Store) -> Entries {
    Entries::Entries((0..store.events().len()).collect())
}

#[test]
fn modifier_equals() {
    let entry = event_entry();

    let doesnt_exist = Modifier::equals("blah".to_string(), "example".to_string());
    assert_eq!(doesnt_exist.filter(&entry), None);

    let not_equal = Modifier::equals("foo".to_string(), "example".to_string());
    assert_eq!(not_equal.filter(&entry), Some(false));

    let equals = Modifier::equals("foo".to_string(), "barbazboz".to_string());
    assert_eq!(equals.filter(&entry), Some(true));
}

#[test]
fn modifier_contains() {
    let entry = event_entry();

    let not_contained = Modifier::contains("foo".to_string(), "example".to_string());
    assert_eq!(not_contained.filter(&entry), Some(false));

    let contained = Modifier::contains("foo".to_string(), "baz".to_string());
    assert_eq!(contained.filter(&entry), Some(true));
}

#[test]
fn modifier_regex() {
    let entry = event_entry();

    let no_match = Modifier::matches("foo".to_string(), "example".to_string());
    assert_eq!(no_match.filter(&entry), Some(false));

    let matches = Modifier::matches("foo".to_string(), "b[aeiou]z".to_string());
    assert_eq!(matches.filter(&entry), Some(true));
}

#[test]
fn modifier_starts_with() {
    let entry = event_entry();

    let no_match = Modifier::starts_with("foo".to_string(), "example".to_string());
    assert_eq!(no_match.filter(&entry), Some(false));

    let matches = Modifier::starts_with("foo".to_string(), "bar".to_string());
    assert_eq!(matches.filter(&entry), Some(true));
}

#[test]
fn modifier_invalid_regex_is_absent() {
    let entry = event_entry();
    let broken = Modifier::matches("foo".to_string(), "b(".to_string());
    assert_eq!(broken.filter(&entry), None);
}

#[test]
fn modifier_on_typed_values() {
    let entry = EventEntry {
        span: None,
        event: event_with(None, vec![
            field("n", Value::Signed(-42)),
            field("u", Value::Unsigned(1007)),
            field("b", Value::Boolean(false)),
            field("d", Value::Debug(DebugRecord { debug: "Foo(1)".to_string(), pretty: "Foo(\n 1\n)".to_string() })),
        ]),
    };
    assert_eq!(Modifier::equals("n".to_string(), "-42".to_string()).filter(&entry), Some(true));
    assert_eq!(Modifier::equals("u".to_string(), "1007".to_string()).filter(&entry), Some(true));
    assert_eq!(Modifier::starts_with("u".to_string(), "10".to_string()).filter(&entry), Some(true));
    assert_eq!(Modifier::equals("b".to_string(), "false".to_string()).filter(&entry), Some(true));
    assert_eq!(Modifier::equals("d".to_string(), "Foo(1)".to_string()).filter(&entry), Some(true));
    assert_eq!(Modifier::matches("n".to_string(), "^-[0-9]+$".to_string()).filter(&entry), Some(true));
}

#[test]
fn filter_equality_parse_and_apply() {
    let modifier = match Command::from_str(r#"event.field.message == "hello""#) {
        Some(Command::Modifier(m)) => m,
        other => panic!("not a modifier: {:?}", other),
    };
    assert_eq!(modifier, Modifier::FieldEquals { name: "message".to_string(), value: "hello".to_string() });
    let mut store = Store::new();
    store.handle(Variant::Event(event_with(None, vec![field("message", Value::Str("hello".to_string()))])));
    store.handle(Variant::Event(event_with(None, vec![field("message", Value::Str("world".to_string()))])));
    store.handle(Variant::Event(event_with(None, vec![field("other", Value::Str("hello".to_string()))])));
    let mut filter = Filter::new("f".to_string());
    filter.insert_modifier(modifier);
    let shown = filter.apply(&store, all_events(&store));
    assert_eq!(shown, Entries::Entries(vec![0]));
    assert_eq!(shown.len(), 1);
}

#[test]
fn group_by_parent_span_name() {
    let command = Command::from_str(r#"event.group_by.span.parent_by_name("request").field.id"#);
    let group_by = match command {
        Some(Command::GroupBy(g)) => g,
        other => panic!("not a grouping: {:?}", other),
    };
    let mut store = Store::new();
    store.handle(new_span(1, "request", None, vec![field("id", Value::Str("r2".to_string()))]));
    store.handle(new_span(2, "request", None, vec![field("id", Value::Str("r1".to_string()))]));
    store.handle(new_span(3, "work", Some(2), Vec::new()));
    store.handle(new_span(4, "work", Some(1), Vec::new()));
    store.handle(new_span(5, "inner", Some(3), Vec::new()));
    store.handle(Variant::Event(event_with(Some(4), Vec::new())));
    store.handle(Variant::Event(event_with(Some(5), Vec::new())));
    store.handle(Variant::Event(event_with(Some(3), Vec::new())));
    store.handle(Variant::Event(event_with(None, Vec::new())));
    let mut filter = Filter::new("g".to_string());
    filter.group(group_by.clone());
    let shown = filter.apply(&store, all_events(&store));
    assert_eq!(
        shown,
        Entries::Grouped {
            group_by,
            groups: vec![
                (Some(Value::Str("r1".to_string())), vec![1, 2]),
                (Some(Value::Str("r2".to_string())), vec![0]),
            ],
        }
    );
    assert_eq!(shown.len(), 4);
}

#[test]
fn group_by_span_id_and_field_from_record() {
    let mut store = Store::new();
    store.handle(new_span(1, "a", None, Vec::new()));
    store.handle(new_span(2, "b", None, Vec::new()));
    store.handle(Variant::Record(Record {
        span: 1,
        values: vec![field("k", Value::Unsigned(5))],
        thread: 1,
        timestamp: 0,
    }));
    store.handle(Variant::Event(event_with(Some(2), Vec::new())));
    store.handle(Variant::Event(event_with(Some(1), Vec::new())));
    store.handle(Variant::Event(event_with(Some(2), Vec::new())));
    let mut by_id = Filter::new("i".to_string());
    let gid = GroupBy::Span(SpanSelector::SpanCriterion(SpanCriterion::Id));
    by_id.group(gid.clone());
    assert_eq!(
        by_id.apply(&store, all_events(&store)),
        Entries::Grouped {
            group_by: gid,
            groups: vec![(Some(Value::Unsigned(0)), vec![1]), (Some(Value::Unsigned(1)), vec![0, 2])],
        }
    );
    let mut by_field = Filter::new("k".to_string());
    let gk = GroupBy::Span(SpanSelector::SpanCriterion(SpanCriterion::Field("k".to_string())));
    by_field.group(gk.clone());
    assert_eq!(
        by_field.apply(&store, all_events(&store)),
        Entries::Grouped { group_by: gk, groups: vec![(Some(Value::Unsigned(5)), vec![1])] }
    );
}

#[test]
fn group_by_event_field_orders_keys() {
    let mut store = Store::new();
    for v in [3i64, -1, 3, 10] {
        store.handle(Variant::Event(event_with(None, vec![field("n", Value::Signed(v))])));
    }
    let mut filter = Filter::new("n".to_string());
    let g = GroupBy::Field("n".to_string());
    filter.group(g.clone());
    assert_eq!(
        filter.apply(&store, all_events(&store)),
        Entries::Grouped {
            group_by: g,
            groups: vec![
                (Some(Value::Signed(-1)), vec![1]),
                (Some(Value::Signed(3)), vec![0, 2]),
                (Some(Value::Signed(10)), vec![3]),
            ],
        }
    );
}

#[test]
fn modifier_replacement_keeps_place() {
    let mut filter = Filter::new("f".to_string());
    filter.insert_modifier(Modifier::equals("a".to_string(), "1".to_string()));
    filter.insert_modifier(Modifier::contains("b".to_string(), "2".to_string()));
    filter.insert_modifier(Modifier::starts_with("a".to_string(), "3".to_string()));
    assert_eq!(filter.modifier_count(), 2);
    assert_eq!(filter.modifier_at(0), &Modifier::starts_with("a".to_string(), "3".to_string()));
    assert_eq!(filter.modifier_at(1), &Modifier::contains("b".to_string(), "2".to_string()));
}

#[test]
fn filter_twice_is_stable() {
    let mut store = Store::new();
    store.handle(Variant::Event(event_with(None, vec![field("m", Value::Str("abc".to_string()))])));
    store.handle(Variant::Event(event_with(None, vec![field("m", Value::Str("xbz".to_string()))])));
    store.handle(Variant::Event(event_with(None, vec![field("m", Value::Str("abd".to_string()))])));
    let mut filter = Filter::new("f".to_string());
    filter.insert_modifier(Modifier::starts_with("m".to_string(), "ab".to_string()));
    let once = filter.apply(&store, all_events(&store));
    let again = filter.apply(&store, all_events(&store));
    assert_eq!(once, again);
    let twice = filter.apply(&store, once.clone());
    assert_eq!(twice, once);
    assert_eq!(once, Entries::Entries(vec![0, 2]));
}

#[test]
fn entries_len_counts_group_row() {
    let e = Entries::Grouped {
        group_by: GroupBy::Field("x".to_string()),
        groups: vec![(None, vec![1, 2]), (Some(Value::Boolean(true)), vec![3])],
    };
    assert_eq!(e.len(), 4);
    assert_eq!(Entries::Entries(vec![]).len(), 0);
}

#[test]
fn filter_text_round_trip() {
    let mut filter = Filter::new("saved".to_string());
    filter.insert_modifier(Modifier::equals("a".to_string(), "1".to_string()));
    filter.group(GroupBy::Field("user".to_string()));
    filter.insert_modifier(Modifier::matches("b".to_string(), "x+".to_string()));
    let text = filter.to_text();
    assert_eq!(
        text,
        "event.group_by.field.user\nevent.field.a == \"1\"\nevent.field.b matches \"x+\"\n"
    );
    let loaded = Filter::from_text("saved".to_string(), &text).expect("loads");
    assert_eq!(loaded.name(), "saved");
    assert_eq!(loaded.group_by(), Some(&GroupBy::Field("user".to_string())));
    assert_eq!(loaded.modifier_count(), 2);
    assert_eq!(loaded.modifier_at(0), &Modifier::equals("a".to_string(), "1".to_string()));
    assert_eq!(loaded.to_text(), text);
}

#[test]
fn filter_text_stops_at_blank_line_and_rejects_garbage() {
    let loaded = Filter::from_text("f".to_string(), "event.field.a == \"1\"\n\nnot a command\n").expect("loads");
    assert_eq!(loaded.modifier_count(), 1);
    assert!(Filter::from_text("f".to_string(), "event.field.a == \"1\"\nnot a command\n").is_none());
    let empty = Filter::from_text("f".to_string(), "").expect("loads");
    assert_eq!(empty.modifier_count(), 0);
    assert_eq!(empty.group_by(), None);
}
