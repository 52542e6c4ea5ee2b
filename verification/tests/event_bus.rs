use audioverse_core::event_bus::{DrainedEvent, EventBusImpl, SubscriptionId};

#[derive(Debug, PartialEq)]
struct Ping(i32);

const PING: u64 = 1;
const NUMBER: u64 = 2;

fn received_pings(out: &[DrainedEvent<Ping>], id: SubscriptionId) -> Vec<i32> {
    out.iter().filter(|d| d.subscribers.contains(&id)).map(|d| d.event.payload.0).collect()
}

fn received_numbers<T: Copy>(out: &[DrainedEvent<T>], id: SubscriptionId) -> Vec<T> {
    out.iter().filter(|d| d.subscribers.contains(&id)).map(|d| d.event.payload).collect()
}

#[test]
fn publish_and_subscribe() {
    let mut bus = EventBusImpl::new();
    let id = bus.subscribe(PING);
    bus.publish(PING, Ping(42));
    let out = bus.drain();
    assert_eq!(received_pings(&out, id).as_slice(), &[42]);
}

#[test]
fn multiple_subscribers_and_unsubscribe() {
    let mut bus = EventBusImpl::new();
    let mut a = Vec::new();
    let mut b = Vec::new();
    let id1 = bus.subscribe(PING);
    let id2 = bus.subscribe(PING);
    bus.publish(PING, Ping(1));
    bus.publish(PING, Ping(2));
    let out = bus.drain();
    a.extend(received_pings(&out, id1));
    b.extend(received_pings(&out, id2));
    assert_eq!(&a, &[1, 2]);
    assert_eq!(&b, &[1, 2]);
    bus.unsubscribe(id1);
    bus.publish(PING, Ping(3));
    let out = bus.drain();
    a.extend(received_pings(&out, id1));
    b.extend(received_pings(&out, id2));
    assert_eq!(&a, &[1, 2]);
    assert_eq!(&b, &[1, 2, 3]);
}

#[test]
fn priority_and_fifo_ordering() {
    let mut bus = EventBusImpl::new();
    let id = bus.subscribe(NUMBER);
    bus.publish_with_priority(NUMBER, 10i32, 1);
    bus.publish_with_priority(NUMBER, 20i32, 2);
    bus.publish_with_priority(NUMBER, 30i32, 2);
    bus.publish_with_priority(NUMBER, 40i32, 1);
    let out = bus.drain();
    let res = received_numbers(&out, id);
    assert_eq!(res, vec![20, 30, 10, 40]);
}

#[test]
fn try_publish_bounded() {
    let mut bus = EventBusImpl::with_capacity(2);
    assert!(bus.try_publish_with_priority(NUMBER, 1u32, 0).is_ok());
    assert!(bus.try_publish_with_priority(NUMBER, 2u32, 0).is_ok());
    assert!(bus.try_publish_with_priority(NUMBER, 3u32, 0).is_err());
    bus.drain();
    assert!(bus.try_publish_with_priority(NUMBER, 4u32, 0).is_ok());
    bus.drain();
}

#[test]
fn refused_publication_hands_payload_back() {
    let mut bus = EventBusImpl::with_capacity(1);
    assert_eq!(bus.try_publish_with_priority(NUMBER, 7u8, 3), Ok(()));
    assert_eq!(bus.try_publish_with_priority(NUMBER, 8u8, 9), Err(8u8));
    assert_eq!(bus.len(), 1);
}

#[test]
fn zero_capacity_refuses_everything_but_plain_publish() {
    let mut bus = EventBusImpl::with_capacity(0);
    assert_eq!(bus.try_publish_with_priority(NUMBER, 1u8, 0), Err(1u8));
    bus.publish(NUMBER, 2u8);
    assert_eq!(bus.len(), 1);
}

#[test]
fn unbounded_bus_never_refuses() {
    let mut bus = EventBusImpl::new();
    for i in 0..100u32 {
        assert!(bus.try_publish_with_priority(NUMBER, i, 0).is_ok());
    }
    assert_eq!(bus.len(), 100);
    assert_eq!(bus.drain().len(), 100);
    assert_eq!(bus.len(), 0);
}

#[test]
fn topics_reach_only_their_subscribers() {
    let mut bus = EventBusImpl::new();
    let pings = bus.subscribe(PING);
    let numbers = bus.subscribe(NUMBER);
    let numbers_too = bus.subscribe(NUMBER);
    bus.publish(NUMBER, 5i64);
    bus.publish(PING, 6i64);
    let out = bus.drain();
    assert_eq!(out.len(), 2);
    assert_eq!(out[0].event.payload, 5);
    assert_eq!(out[0].subscribers, vec![numbers, numbers_too]);
    assert_eq!(out[1].subscribers, vec![pings]);
    assert_eq!(bus.subscribers_for(NUMBER), vec![numbers, numbers_too]);
}

#[test]
fn subscription_ids_count_up_from_one() {
    let mut bus: EventBusImpl<u8> = EventBusImpl::new();
    assert_eq!(bus.subscribe(PING), 1);
    assert_eq!(bus.subscribe(NUMBER), 2);
    bus.unsubscribe(1);
    assert_eq!(bus.subscribe(PING), 3);
    assert_eq!(bus.subscribers_for(PING), vec![3]);
}

#[test]
fn sequence_numbers_follow_publishing_order() {
    let mut bus = EventBusImpl::new();
    bus.publish_with_priority(NUMBER, 'a', -5);
    bus.publish_with_priority(NUMBER, 'b', 7);
    bus.publish_with_priority(NUMBER, 'c', -5);
    let out = bus.drain();
    let order: Vec<(char, u64)> = out.iter().map(|d| (d.event.payload, d.event.seq)).collect();
    assert_eq!(order, vec![('b', 2), ('a', 1), ('c', 3)]);
}

#[test]
fn drained_event_without_subscribers_is_still_handed_out() {
    let mut bus = EventBusImpl::new();
    bus.publish(PING, 1u16);
    let out = bus.drain();
    assert_eq!(out.len(), 1);
    assert!(out[0].subscribers.is_empty());
    assert!(bus.drain().is_empty());
}

#[test]
fn default_bus_is_empty_and_unbounded() {
    let mut bus: EventBusImpl<u32> = EventBusImpl::default();
    assert_eq!(bus.len(), 0);
    assert_eq!(bus.subscribe(NUMBER), 1);
    for v in 0..5u32 {
        assert_eq!(bus.try_publish_with_priority(NUMBER, v, 0), Ok(()));
    }
    assert_eq!(bus.len(), 5);
    assert!(bus.drain().iter().map(|d| d.event.payload).eq(0..5u32));
    assert_eq!(bus.len(), 0);
}
