use kamilata::behaviour::{admit_task, BehaviourAction, BehaviourState};
use kamilata::handler::HandlerInEvent;
use kamilata::{Counter, PeerId};

#[test]
fn dial_then_flush_on_connect() {
    let mut st = BehaviourState::new();
    let p1 = PeerId::from_bytes(vec![1]);
    let act = st.on_dial_peer_and_message(
        p1,
        vec!["/memory/1".to_string()],
        HandlerInEvent::LeechFilters,
    );
    assert!(matches!(act, BehaviourAction::Dial(_, _)));
    assert_eq!(st.pending.len(), 1);
    assert_eq!(st.queue.len(), 0);

    let act = st.on_connection_established(PeerId::from_bytes(vec![1]), Some(
        "/memory/1".to_string(),
    ));
    assert!(matches!(act, BehaviourAction::AddAddressFront(_, _)));
    assert_eq!(st.pending.len(), 0);
    assert_eq!(st.queue.len(), 1);
    assert_eq!(st.connected.len(), 1);

    let m = st.next_message().expect("one message queued");
    assert_eq!(m.0.bytes, vec![1]);
    assert!(matches!(m.1, HandlerInEvent::LeechFilters));
    assert!(st.next_message().is_none());
}

#[test]
fn notify_directly_when_connected() {
    let mut st = BehaviourState::new();
    let act = st.on_connection_established(PeerId::from_bytes(vec![3]), None);
    assert!(matches!(act, BehaviourAction::Nothing));
    let act = st.on_dial_peer_and_message(
        PeerId::from_bytes(vec![3]),
        Vec::new(),
        HandlerInEvent::LeechFilters,
    );
    assert!(matches!(act, BehaviourAction::NotifyHandler(_, _)));
    assert_eq!(st.pending.len(), 0);
}

#[test]
fn close_discards_messages() {
    let mut st = BehaviourState::new();
    st.on_connection_established(PeerId::from_bytes(vec![1]), None);
    st.message_handler(PeerId::from_bytes(vec![1]), HandlerInEvent::LeechFilters);
    st.on_dial_peer_and_message(
        PeerId::from_bytes(vec![2]),
        Vec::new(),
        HandlerInEvent::LeechFilters,
    );
    let act = st.on_connection_closed(&PeerId::from_bytes(vec![1]));
    assert!(matches!(act, BehaviourAction::RemovePeer(_)));
    assert_eq!(st.connected.len(), 0);
    assert_eq!(st.queue.len(), 0);
    assert_eq!(st.pending.len(), 1);

    st.on_dial_failure(&PeerId::from_bytes(vec![2]));
    assert_eq!(st.pending.len(), 0);
}

#[test]
fn task_admission_policy() {
    let mut tasks: Vec<u32> = vec![1];
    let mut counter = Counter::new(7);

    assert_eq!(admit_task(&mut tasks, Some((1, false)), &mut counter), None);
    assert_eq!(tasks, vec![1]);

    assert_eq!(admit_task(&mut tasks, Some((1, true)), &mut counter), Some(1));
    assert_eq!(tasks, vec![1]);

    assert_eq!(admit_task(&mut tasks, Some((5, false)), &mut counter), Some(5));
    assert_eq!(tasks, vec![1, 5]);

    assert_eq!(admit_task(&mut tasks, None, &mut counter), Some(7));
    assert_eq!(tasks, vec![1, 5, 7]);
    assert_eq!(counter.value, 8);
}
