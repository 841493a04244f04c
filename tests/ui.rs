use tracing_console::command::Command;
use tracing_console::filter::Modifier;
use tracing_console::messages::Value;
use tracing_console::registry::ThreadId;
use tracing_console::ui::{Action, DelimittedString, ListWindow, QueryView, ThreadSelector};

#[test]
fn thread_selector_orders_and_selects_smallest() {
    let mut s = ThreadSelector::new();
    assert_eq!(s.current_thread(), None);
    let same = s.update(vec![(ThreadId(5), None), (ThreadId(2), Some("main".to_string())), (ThreadId(9), None)]);
    assert!(!same);
    assert_eq!(s.current_thread(), Some(ThreadId(2)));
    let ids: Vec<usize> = s.threads().iter().map(|(id, _)| id.0).collect();
    assert_eq!(ids, vec![2, 5, 9]);
    assert!(s.on_down());
    assert_eq!(s.current_thread(), Some(ThreadId(5)));
    assert!(s.on_down());
    assert!(!s.on_down());
    assert_eq!(s.current_thread(), Some(ThreadId(9)));
    assert!(s.on_up());
    assert_eq!(s.current_thread_active(), Some(ThreadId(5)));
    assert!(s.set_focused(false));
    assert_eq!(s.current_thread_active(), None);
    assert!(!s.set_focused(false));
    assert!(s.update(vec![(ThreadId(9), None), (ThreadId(5), None), (ThreadId(2), Some("main".to_string()))]));
}

#[test]
fn query_view_history() {
    let mut q = QueryView::new();
    for c in "  event.field.a  == \"x\"".chars() {
        q.on_char(c);
    }
    assert_eq!(q.buffer(), "event.field.a == \"x\"");
    match q.on_char('\n') {
        Action::Command(Command::Modifier(m)) => {
            assert_eq!(m, Modifier::equals("a".to_string(), "x".to_string()))
        }
        other => panic!("unexpected {:?}", other),
    }
    assert_eq!(q.buffer(), "");
    for c in "junk".chars() {
        q.on_char(c);
    }
    assert!(matches!(q.on_char('\n'), Action::Redraw));
    assert!(q.on_up());
    assert_eq!(q.buffer(), "junk");
    assert!(q.on_up());
    assert_eq!(q.buffer(), "event.field.a == \"x\"");
    assert!(!q.on_up());
    assert!(q.on_down());
    assert_eq!(q.buffer(), "junk");
    assert!(q.on_down());
    assert_eq!(q.buffer(), "");
    assert!(!q.on_down());
    assert!(!q.on_backspace());
    q.on_char('a');
    assert!(q.last_char_is_whitespace() == false);
    assert!(q.on_backspace());
    assert!(q.last_char_is_whitespace());
}

#[test]
fn list_window_scrolls_with_selection() {
    let mut w = ListWindow::new();
    assert!(!w.on_up(10, 3));
    assert!(w.on_down(10, 3));
    assert!(w.on_down(10, 3));
    assert_eq!((w.selection, w.offset), (2, 0));
    assert!(w.on_down(10, 3));
    assert_eq!((w.selection, w.offset), (3, 1));
    assert!(w.select(50, 10, 3));
    assert_eq!((w.selection, w.offset), (9, 7));
    assert!(w.select(0, 10, 3));
    assert_eq!((w.selection, w.offset), (0, 0));
}

#[test]
fn delimitted_string_joins_values() {
    let mut d = DelimittedString::new(", ");
    d.delimiter();
    d.write_str("a(\"");
    d.write_value(&Some(Value::Signed(-7)));
    d.write_str("\")");
    d.delimiter();
    d.write_str("b(\"");
    d.write_value(&Some(Value::Boolean(true)));
    d.write_str("\")");
    d.delimiter();
    d.write_value(&None);
    assert_eq!(d.newline(), "a(\"-7\"), b(\"true\"), \n");
}

#[test]
fn action_redraw() {
    assert!(Action::Redraw.redraw());
    assert!(!Action::Nothing.redraw());
}
