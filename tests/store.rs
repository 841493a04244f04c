use tracing_console::messages::{Attributes, Event, FieldValue, Level, Metadata, NewSpan, Record, RecordFollowsFrom, Value, Variant};
use tracing_console::store::{InternalId, Store};

fn metadata(name: &str) -> Metadata {
    Metadata {
        name: name.to_string(),
        target: String::new(),
        level: Level::Info,
        module: String::new(),
        file: String::new(),
        line: None,
        is_event: false,
        is_span: true,
        fieldset: Vec::new(),
    }
}

fn new_span(id: u64, parent: Option<u64>) -> NewSpan {
    NewSpan {
        span: id,
        attributes: Attributes { metadata: metadata("span"), parent, is_root: parent.is_none(), is_contextual: false },
        values: Vec::new(),
        timestamp: 0,
    }
}

fn event(span: Option<u64>, msg: &str) -> Event {
    Event {
        span,
        values: vec![FieldValue { name: "message".to_string(), value: Value::Str(msg.to_string()) }],
        attributes: Attributes { metadata: metadata("event"), parent: None, is_root: false, is_contextual: true },
        thread: 1,
        fields: vec!["message".to_string()],
        timestamp: 0,
    }
}

#[test]
fn parent_resolution() {
    let mut store = Store::new();
    store.handle(Variant::NewSpan(new_span(7, None)));
    store.handle(Variant::NewSpan(new_span(9, Some(7))));
    assert_eq!(store.spans()[0].parent_id, None);
    assert_eq!(store.spans()[1].parent_id, Some(InternalId(0)));
    assert_eq!(store.spans()[1].id, InternalId(1));
}

#[test]
fn unknown_parent_is_none() {
    let mut store = Store::new();
    store.handle(Variant::NewSpan(new_span(9, Some(3))));
    assert_eq!(store.spans()[0].parent_id, None);
}

#[test]
fn id_remap_preserves_history() {
    let mut store = Store::new();
    store.handle(Variant::NewSpan(new_span(7, None)));
    store.handle(Variant::Event(event(Some(7), "a")));
    store.handle(Variant::NewSpan(new_span(7, None)));
    store.handle(Variant::Event(event(Some(7), "b")));
    assert_eq!(store.events()[0].span, Some(InternalId(0)));
    assert_eq!(store.events()[1].span, Some(InternalId(1)));
    assert_eq!(store.spans().len(), 2);
    assert_eq!(store.spans()[0].id, InternalId(0));
    assert_eq!(store.spans()[0].span.span, 7);
    assert_eq!(store.internal_id(7), Some(InternalId(1)));
}

#[test]
fn records_and_follows_go_to_current_span() {
    let mut store = Store::new();
    store.handle(Variant::NewSpan(new_span(7, None)));
    store.handle(Variant::NewSpan(new_span(7, None)));
    store.clear();
    assert!(!store.updated());
    store.handle(Variant::Record(Record {
        span: 7,
        values: vec![FieldValue { name: "id".to_string(), value: Value::Unsigned(3) }],
        thread: 1,
        timestamp: 0,
    }));
    assert!(store.updated());
    store.handle(Variant::Follows(RecordFollowsFrom { span: 7, follows: 2 }));
    assert_eq!(store.spans()[0].records.len(), 0);
    assert_eq!(store.spans()[1].records.len(), 1);
    assert_eq!(store.spans()[1].follows, vec![2]);
    assert_eq!(store.spans()[1].value_by_name(&"id".to_string()), Some(&Value::Unsigned(3)));
    assert_eq!(store.spans()[0].value_by_name(&"id".to_string()), None);
}

#[test]
fn accepts_only_known_ids() {
    let mut store = Store::new();
    assert!(!store.accepts(&Variant::Event(event(Some(1), "x"))));
    assert!(store.accepts(&Variant::Event(event(None, "x"))));
    store.handle(Variant::NewSpan(new_span(1, None)));
    assert!(store.accepts(&Variant::Event(event(Some(1), "x"))));
    assert!(!store.accepts(&Variant::Follows(RecordFollowsFrom { span: 2, follows: 1 })));
}
