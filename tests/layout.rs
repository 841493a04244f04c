use tracing_console::filter::{Entries, GroupBy};
use tracing_console::layout::{event_text, layout, style_level, Line};
use tracing_console::messages::{Attributes, Event, FieldValue, Level, Metadata, Value, Variant};
use tracing_console::store::Store;

fn event(level: Level, values: Vec<FieldValue>) -> Event {
    Event {
        span: None,
        values,
        attributes: Attributes {
            metadata: Metadata {
                name: "event".to_string(),
                target: String::new(),
                level,
                module: String::new(),
                file: String::new(),
                line: None,
                is_event: true,
                is_span: false,
                fieldset: Vec::new(),
            },
            parent: None,
            is_root: false,
            is_contextual: true,
        },
        thread: 1,
        fields: Vec::new(),
        timestamp: 0,
    }
}

fn field(name: &str, value: Value) -> FieldValue {
    FieldValue { name: name.to_string(), value }
}

#[test]
fn event_text_joins_fields() {
    let values = vec![field("message", Value::Str("hi".to_string())), field("n", Value::Unsigned(3))];
    assert_eq!(event_text(&values), "message(\"hi\"), n(\"3\")\n");
    assert_eq!(event_text(&Vec::new()), "\n");
}

#[test]
fn level_labels() {
    assert_eq!(style_level(None), " NONE ");
    assert_eq!(style_level(Some(Level::Warn)), " WARN ");
    assert_eq!(style_level(Some(Level::Debug)), "DEBUG ");
}

#[test]
fn layout_window_and_groups() {
    let mut store = Store::new();
    store.handle(Variant::Event(event(Level::Info, vec![field("k", Value::Boolean(true))])));
    store.handle(Variant::Event(event(Level::Error, vec![field("k", Value::Boolean(false))])));
    store.handle(Variant::Event(event(Level::Info, vec![field("k", Value::Boolean(true))])));
    let flat = Entries::Entries(vec![0, 1, 2]);
    let lines = layout(&store, &flat, 1, 5, 2);
    assert_eq!(
        lines,
        vec![
            Line::Event { indent: 0, level: Level::Error, text: "k(\"false\")\n".to_string(), selected: false },
            Line::Event { indent: 0, level: Level::Info, text: "k(\"true\")\n".to_string(), selected: true },
        ]
    );
    let grouped = Entries::Grouped {
        group_by: GroupBy::Field("k".to_string()),
        groups: vec![(Some(Value::Boolean(false)), vec![1]), (Some(Value::Boolean(true)), vec![0, 2])],
    };
    let lines = layout(&store, &grouped, 0, 3, 99);
    assert_eq!(
        lines,
        vec![
            Line::Header("event.group_by.field.k == false\n".to_string()),
            Line::Event { indent: 1, level: Level::Error, text: "k(\"false\")\n".to_string(), selected: false },
            Line::Header("event.group_by.field.k == true\n".to_string()),
        ]
    );
    assert!(layout(&store, &grouped, 0, 0, 0).is_empty());
}
