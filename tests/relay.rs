use relay_server::{
    dispatch, handle_accept, handle_client, AcceptAction, AcceptOutcome, EventTarget, IoFailure,
    LineAssembler, ReadOutcome, RelayAction, SlotError, SlotTable, BUFFER_SIZE, LISTENER,
    MAX_CLIENTS, REJECTION_MESSAGE,
};

fn accept(table: &mut SlotTable<u32>, socket: u32) -> AcceptAction<u32> {
    handle_accept(table, AcceptOutcome::Accepted(socket))
}

fn admitted(action: AcceptAction<u32>) -> usize {
    match action {
        AcceptAction::Register(id) => id,
        _ => panic!("connection was not admitted"),
    }
}

fn send(table: &mut SlotTable<u32>, sender: usize, bytes: &[u8]) -> (Vec<u8>, Vec<usize>) {
    match handle_client(table, sender, ReadOutcome::Bytes(bytes.to_vec())) {
        RelayAction::Broadcast { payload, targets } => (payload, targets),
        _ => panic!("no broadcast"),
    }
}

#[test]
fn accepts_up_to_capacity_get_distinct_lowest_identifiers() {
    let mut table: SlotTable<u32> = SlotTable::new();
    for k in 0..MAX_CLIENTS {
        assert_eq!(admitted(accept(&mut table, 100 + k as u32)), k);
        assert_eq!(table.len(), k + 1);
    }
    assert!(table.is_at_capacity());
}

#[test]
fn sixth_simultaneous_client_is_rejected() {
    assert_eq!(MAX_CLIENTS, 5);
    let mut table: SlotTable<u32> = SlotTable::new();
    let mut ids = Vec::new();
    let mut rejected = Vec::new();
    for socket in 1..=6u32 {
        match accept(&mut table, socket) {
            AcceptAction::Register(id) => ids.push(id),
            AcceptAction::Reject(s) => rejected.push(s),
            _ => panic!("unexpected action"),
        }
    }
    assert_eq!(ids, vec![0, 1, 2, 3, 4]);
    assert_eq!(rejected, vec![6]);
    assert_eq!(table.len(), 5);
    let (payload, targets) = send(&mut table, 2, b"still here\n");
    assert_eq!(payload, b"still here\n".to_vec());
    assert_eq!(targets, vec![0, 1, 3, 4]);
}

#[test]
fn rejection_message_text() {
    assert_eq!(REJECTION_MESSAGE, "Error: Maximum number of clients already connected.");
}

#[test]
fn closed_identifier_is_reused_and_no_longer_targeted() {
    let mut table: SlotTable<u32> = SlotTable::new();
    let a = admitted(accept(&mut table, 10));
    let b = admitted(accept(&mut table, 11));
    let c = admitted(accept(&mut table, 12));
    match handle_client(&mut table, b, ReadOutcome::Bytes(Vec::new())) {
        RelayAction::Closed(socket) => assert_eq!(socket, 11),
        _ => panic!("zero-byte read must close"),
    }
    assert!(!table.contains(b));
    assert_eq!(table.len(), 2);
    let (_, targets) = send(&mut table, a, b"x");
    assert_eq!(targets, vec![c]);
    assert_eq!(admitted(accept(&mut table, 13)), b);
    assert_eq!(table.get(b).unwrap().socket, 13);
}

#[test]
fn broadcast_reaches_every_peer_but_the_sender() {
    let mut table: SlotTable<u32> = SlotTable::new();
    let x = admitted(accept(&mut table, 1));
    let y = admitted(accept(&mut table, 2));
    let z = admitted(accept(&mut table, 3));
    let (payload, targets) = send(&mut table, y, b"payload bytes");
    assert_eq!(payload, b"payload bytes".to_vec());
    assert_eq!(targets, vec![x, z]);
    assert!(!targets.contains(&y));
}

#[test]
fn lone_connection_broadcasts_to_nobody() {
    let mut table: SlotTable<u32> = SlotTable::new();
    let a = admitted(accept(&mut table, 1));
    let (payload, targets) = send(&mut table, a, b"anyone?");
    assert_eq!(payload, b"anyone?".to_vec());
    assert!(targets.is_empty());
}

#[test]
fn hi_reaches_the_other_client_exactly() {
    let mut table: SlotTable<u32> = SlotTable::new();
    let a = admitted(accept(&mut table, 1));
    let b = admitted(accept(&mut table, 2));
    let (payload, targets) = send(&mut table, a, b"hi\n");
    assert_eq!(targets, vec![b]);
    let mut inbox = LineAssembler::new();
    let lines = inbox.push(&payload);
    assert_eq!(lines, vec![b"hi\n".to_vec()]);
    assert!(inbox.pending().is_empty());
}

#[test]
fn fragments_are_relayed_in_order_and_reassembled() {
    let mut table: SlotTable<u32> = SlotTable::new();
    let a = admitted(accept(&mut table, 1));
    let _b = admitted(accept(&mut table, 2));
    let (first, _) = send(&mut table, a, b"ab");
    let (second, _) = send(&mut table, a, b"cd\n");
    assert_eq!(first, b"ab".to_vec());
    assert_eq!(second, b"cd\n".to_vec());
    let mut inbox = LineAssembler::new();
    assert!(inbox.push(&first).is_empty());
    assert_eq!(inbox.pending(), b"ab");
    assert_eq!(inbox.push(&second), vec![b"abcd\n".to_vec()]);
}

#[test]
fn only_fresh_bytes_are_relayed() {
    let mut table: SlotTable<u32> = SlotTable::new();
    let a = admitted(accept(&mut table, 1));
    let _b = admitted(accept(&mut table, 2));
    let (first, _) = send(&mut table, a, b"a long first message");
    let (second, _) = send(&mut table, a, b"hey");
    assert_eq!(first, b"a long first message".to_vec());
    assert_eq!(second, b"hey".to_vec());
    let slot = table.get(a).unwrap();
    assert_eq!(slot.used_bytes, 0);
    assert_eq!(slot.num_messages, 2);
    assert_eq!(&slot.incoming_buffer[..3], b"hey");
    assert_eq!(slot.incoming_buffer.len(), BUFFER_SIZE);
    assert_eq!(table.free_space(a), BUFFER_SIZE);
}

#[test]
fn read_failures_wait_or_stop() {
    let mut table: SlotTable<u32> = SlotTable::new();
    let a = admitted(accept(&mut table, 1));
    assert!(matches!(
        handle_client(&mut table, a, ReadOutcome::Failed(IoFailure::WouldBlock)),
        RelayAction::Idle
    ));
    assert!(matches!(
        handle_client(&mut table, a, ReadOutcome::Failed(IoFailure::Other)),
        RelayAction::Fatal
    ));
    assert!(table.contains(a));
}

#[test]
fn accept_failures_ignore_or_stop() {
    let mut table: SlotTable<u32> = SlotTable::new();
    assert!(matches!(
        handle_accept(&mut table, AcceptOutcome::Failed(IoFailure::WouldBlock)),
        AcceptAction::Ignore
    ));
    assert!(matches!(
        handle_accept(&mut table, AcceptOutcome::Failed(IoFailure::Other)),
        AcceptAction::Fatal
    ));
    assert_eq!(table.len(), 0);
}

#[test]
fn tokens_are_dispatched_by_kind() {
    assert_eq!(LISTENER, MAX_CLIENTS);
    assert_eq!(dispatch(LISTENER), EventTarget::Listener);
    assert_eq!(dispatch(0), EventTarget::Client(0));
    assert_eq!(dispatch(MAX_CLIENTS - 1), EventTarget::Client(MAX_CLIENTS - 1));
    assert_eq!(dispatch(MAX_CLIENTS + 1), EventTarget::Unknown);
}

#[test]
fn unknown_identifier_is_reported() {
    let mut table: SlotTable<u32> = SlotTable::new();
    assert!(matches!(table.get(0), Err(SlotError::UnknownIdentifier)));
    assert!(matches!(table.get(MAX_CLIENTS + 3), Err(SlotError::UnknownIdentifier)));
    let a = admitted(accept(&mut table, 7));
    assert_eq!(table.get(a).unwrap().socket, 7);
    *table.socket_mut(a) = 8;
    assert_eq!(table.remove(a), 8);
    assert!(matches!(table.get(a), Err(SlotError::UnknownIdentifier)));
}

#[test]
fn peers_are_listed_in_increasing_order() {
    let mut table: SlotTable<u32> = SlotTable::new();
    for s in 0..4u32 {
        accept(&mut table, s);
    }
    table.remove(1);
    assert_eq!(table.peers_of(2), vec![0, 3]);
    assert_eq!(table.peers_of(MAX_CLIENTS), vec![0, 2, 3]);
}
