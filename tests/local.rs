use tracing_console::local::{EventEntry, Store};
use tracing_console::messages::Level;
use tracing_console::registry::ThreadId;
use tracing_console::ui::ThreadSelector;

#[test]
fn local_ids_recycle_last_released_first() {
    let mut store = Store::new();
    assert_eq!(store.new_span(), 1);
    assert_eq!(store.new_span(), 2);
    assert_eq!(store.clone_span(1), 1);
    store.drop_span(1);
    store.drop_span(2);
    store.drop_span(1);
    assert_eq!(store.new_span(), 1);
    assert_eq!(store.new_span(), 2);
    assert_eq!(store.new_span(), 3);
}

#[test]
fn local_stacks_and_events() {
    let mut store = Store::new();
    let t = ThreadId(4);
    assert_eq!(store.current_span(t), None);
    store.enter(t, 7);
    store.enter(t, 9);
    assert_eq!(store.current_span(t), Some(9));
    assert_eq!(store.exit(t), Some(9));
    assert_eq!(store.current_span(t), Some(7));
    assert_eq!(store.exit(t), Some(7));
    assert_eq!(store.current_span(t), None);
    assert!(!store.updated());
    store.event(t, EventEntry::new(Level::Warn, "message(\"x\")".to_string()));
    store.register_thread_name(ThreadId(2), "main".to_string());
    assert!(store.updated());
    store.clear();
    assert!(!store.updated());
    assert_eq!(store.thread_count(), 2);
    let (id, thread) = store.thread_at(0);
    assert_eq!(id, t);
    assert_eq!(thread.lines.len(), 1);
    assert_eq!(thread.lines[0].display(), "message(\"x\")");
    assert_eq!(thread.lines[0].level(), &Level::Warn);
    let mut selector = ThreadSelector::new();
    selector.update(store.thread_list());
    assert_eq!(selector.current_thread(), Some(ThreadId(2)));
}
