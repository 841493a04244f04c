use std::sync::mpsc::{sync_channel, Receiver, SyncSender};
use tracing_console::broadcast::Fanout;

fn broadcast(fanout: &mut Fanout<SyncSender<u32>>, message: u32) {
    let mut failed = Vec::new();
    for i in 0..fanout.len() {
        failed.push(fanout.sender(i).try_send(message).is_err());
    }
    fanout.remove_failed(&failed);
}

#[test]
fn lagging_subscriber_dropped() {
    let mut fanout = Fanout::new();
    let (fast_tx, fast_rx): (SyncSender<u32>, Receiver<u32>) = sync_channel(8);
    let (slow_tx, slow_rx): (SyncSender<u32>, Receiver<u32>) = sync_channel(8);
    fanout.register(fast_tx);
    fanout.register(slow_tx);
    let mut received = Vec::new();
    for m in 0..20u32 {
        broadcast(&mut fanout, m);
        while let Ok(x) = fast_rx.try_recv() {
            received.push(x);
        }
    }
    assert_eq!(fanout.len(), 1);
    assert_eq!(received, (0..20).collect::<Vec<u32>>());
    let stalled: Vec<u32> = slow_rx.try_iter().collect();
    assert_eq!(stalled, (0..8).collect::<Vec<u32>>());
}

#[test]
fn remove_failed_keeps_order() {
    let mut fanout = Fanout::new();
    for i in 0..5u32 {
        fanout.register(i);
    }
    fanout.remove_failed(&vec![true, false, true, false, false]);
    assert_eq!(fanout.len(), 3);
    assert_eq!(*fanout.sender(0), 1);
    assert_eq!(*fanout.sender(1), 3);
    assert_eq!(*fanout.sender(2), 4);
}
