use counter_pipeline::bg::CommonSender;
use counter_pipeline::counter::CounterPublishState;
use counter_pipeline::counter_server::CascadeStore;
use counter_pipeline::counter_types::{CounterMessage, CounterState, CounterUpdateMessage};
use counter_pipeline::logger::{drain_into, Publisher};

#[test]
fn read_of_unknown_counter_is_zero_at_now() {
    let store = CascadeStore::new();
    let reply = store.read_counter(&"nowhere".to_string(), 4321);
    assert_eq!(reply.epoch_minutes, 4321);
    assert_eq!(reply.count, 0);
}

#[test]
fn read_sums_the_newest_bucket() {
    let mut store = CascadeStore::new();
    store.apply_update(
        "hits".to_string(),
        vec![
            CounterState { epoch_minutes: 100, count: 2 },
            CounterState { epoch_minutes: 101, count: 3 },
        ],
        101,
    );
    let reply = store.read_counter(&"hits".to_string(), 102);
    assert_eq!(reply.epoch_minutes, 102);
    assert_eq!(reply.count, 5);
    // a second update within the same minute merges into the slot
    store.apply_update(
        "hits".to_string(),
        vec![CounterState { epoch_minutes: 101, count: 4 }],
        101,
    );
    let reply = store.read_counter(&"hits".to_string(), 103);
    assert_eq!(reply.count, 9);
}

#[test]
fn updates_for_distinct_counters_are_separate() {
    let mut store = CascadeStore::new();
    store.apply_update(
        "a".to_string(),
        vec![CounterState { epoch_minutes: 10, count: 1 }],
        10,
    );
    store.apply_update(
        "b".to_string(),
        vec![CounterState { epoch_minutes: 10, count: 7 }],
        10,
    );
    assert_eq!(store.read_counter(&"a".to_string(), 11).count, 1);
    assert_eq!(store.read_counter(&"b".to_string(), 11).count, 7);
}

#[test]
fn aged_samples_leave_the_newest_bucket() {
    let mut store = CascadeStore::new();
    store.apply_update(
        "hits".to_string(),
        vec![CounterState { epoch_minutes: 100, count: 2 }],
        100,
    );
    assert_eq!(store.read_counter(&"hits".to_string(), 100).count, 2);
    // a day later the sample has cascaded out of the 1-minute bucket,
    // so the newest bucket reads as empty
    store.apply_update(
        "hits".to_string(),
        Vec::new(),
        100 + 60 * 24,
    );
    assert_eq!(store.read_counter(&"hits".to_string(), 100 + 60 * 24).count, 0);
}

#[test]
fn dispatch_answers_reads_and_swallows_updates() {
    let mut store = CascadeStore::new();
    let update = CounterMessage::Update(CounterUpdateMessage {
        counter: "hits".to_string(),
        state: vec![CounterState { epoch_minutes: 55, count: 4 }],
    });
    assert!(store.dispatch(update, 55).is_none());

    let reply = store
        .dispatch(CounterMessage::Read("hits".to_string()), 56)
        .expect("a read is answered");
    assert_eq!(reply.epoch_minutes, 56);
    assert_eq!(reply.count, 4);

    let unknown = store
        .dispatch(CounterMessage::Read("other".to_string()), 57)
        .expect("a read of an unknown counter is answered");
    assert_eq!(unknown.epoch_minutes, 57);
    assert_eq!(unknown.count, 0);
}

#[test]
fn sender_refuses_until_a_channel_is_set() {
    let mut sender: CommonSender<u8> = CommonSender::new();
    assert_eq!(sender.send(1), Err(()));
    sender.set_new_channel();
    assert_eq!(sender.send(1), Ok(()));
    assert_eq!(sender.send(2), Ok(()));
    assert_eq!(sender.pending_len(), 2);
}

#[test]
fn sender_delivers_in_enqueue_order() {
    let mut sender: CommonSender<u8> = CommonSender::new();
    sender.set_new_channel();
    assert_eq!(sender.send(10), Ok(()));
    assert_eq!(sender.send(20), Ok(()));
    assert_eq!(sender.send(30), Ok(()));
    assert_eq!(sender.recv_next(), Some(10));
    assert_eq!(sender.recv_next(), Some(20));
    assert_eq!(sender.recv_next(), Some(30));
    assert_eq!(sender.recv_next(), None);
}

#[test]
fn close_keeps_queued_items_for_the_consumer() {
    let mut sender: CommonSender<u8> = CommonSender::new();
    sender.set_new_channel();
    assert_eq!(sender.send(5), Ok(()));
    sender.close_channel();
    assert_eq!(sender.send(6), Err(()));
    assert_eq!(sender.recv_next(), Some(5));
    assert_eq!(sender.recv_next(), None);
}

#[test]
fn drain_handles_everything_queued_before_close() {
    let mut sender: CommonSender<String> = CommonSender::new();
    sender.set_new_channel();
    assert_eq!(sender.send("hits".to_string()), Ok(()));
    assert_eq!(sender.send("hits".to_string()), Ok(()));
    assert_eq!(sender.send("hits".to_string()), Ok(()));
    sender.close_channel();

    let mut publisher: CounterPublishState = Publisher::<String>::new();
    drain_into(&mut sender, &mut publisher);

    assert_eq!(sender.pending_len(), 0);
    // the first increment of a fresh counter always publishes
    let out = publisher.take_outbox();
    assert!(!out.is_empty());
    assert!(out.len() <= 3);
    assert_eq!(out[0].counter, "hits");
}
