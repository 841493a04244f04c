use tracing_console::registry::{Registry, SpanId};

#[test]
fn refcount_recycle() {
    let mut r = Registry::new();
    assert_eq!(r.new_id(), SpanId(1));
    assert_eq!(r.new_id(), SpanId(2));
    r.drop_span(&SpanId(1));
    assert_eq!(r.new_id(), SpanId(1));
    r.drop_span(&SpanId(2));
    r.drop_span(&SpanId(1));
    assert_eq!(r.new_id(), SpanId(1));
    assert_eq!(r.len(), 2);
}

#[test]
fn new_drop_new_reuses_id() {
    let mut r = Registry::new();
    let id = r.new_id();
    r.drop_span(&id);
    let id2 = r.new_id();
    assert_eq!(id, id2);
}

#[test]
fn clone_keeps_span_alive() {
    let mut r = Registry::new();
    let id = r.new_id();
    assert_eq!(r.clone_span(&id), id);
    assert_eq!(r.refcount(&id), 2);
    r.drop_span(&id);
    assert!(r.is_active(&id));
    assert_eq!(r.refcount(&id), 1);
    r.drop_span(&id);
    assert!(!r.is_active(&id));
    assert_eq!(r.new_id(), id);
}

#[test]
fn follows_from_marks_updated() {
    let mut r = Registry::new();
    let a = r.new_id();
    let b = r.new_id();
    assert!(!r.updated());
    r.record_follows_from(&b, a);
    assert!(r.updated());
    r.clear();
    assert!(!r.updated());
}

#[test]
fn span_id_index_and_message() {
    let id = SpanId::new(5);
    assert_eq!(id.as_index(), 4);
    assert_eq!(id.as_message(), 5);
}

#[test]
fn released_registry_chains_every_id() {
    let mut r = Registry::new();
    let a = r.new_id();
    let b = r.new_id();
    let c = r.new_id();
    r.clone_span(&b);
    r.drop_span(&a);
    let d = r.new_id();
    assert_eq!(d, a);
    r.drop_span(&b);
    r.drop_span(&c);
    r.drop_span(&b);
    r.drop_span(&d);
    let free = r.free_ids();
    assert_eq!(free.len(), r.len());
    assert_eq!(free, vec![1, 2, 3]);
    assert!(!r.is_active(&SpanId(2)));
}

#[test]
fn thread_names_are_kept() {
    let mut r = Registry::new();
    r.register_thread_name(tracing_console::registry::ThreadId(3), "worker".to_string());
    assert_eq!(r.thread_name(tracing_console::registry::ThreadId(3)), Some(&"worker".to_string()));
    assert_eq!(r.thread_name(tracing_console::registry::ThreadId(4)), None);
}
