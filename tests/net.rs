use submerge::{Error, Expr, Msg, Node, NodeID, NodeTime, RealmTime, RecvMsg, SpecificMsg};

fn msg(src: i64, dst: i64, sequence: i64) -> Msg {
    let t = RealmTime { time: NodeTime(5), node: NodeID(src), event: 0 };
    Msg {
        src: NodeID(src),
        dst: NodeID(dst),
        txn_time: t,
        msg_time: t,
        sequence,
        response: false,
        specific: SpecificMsg::Put(Expr::Pass, vec![]),
    }
}

#[test]
fn node_queues_bytes_in_order() {
    let mut node = Node::new();
    assert_eq!(node.send_byes(), Ok(None));
    node.queue_outgoing(NodeID(2), vec![1, 2]);
    node.queue_outgoing(NodeID(3), vec![3]);
    assert_eq!(node.send_byes(), Ok(Some((NodeID(2), vec![1, 2]))));
    assert_eq!(node.send_byes(), Ok(Some((NodeID(3), vec![3]))));
    assert_eq!(node.send_byes(), Ok(None));
}

#[test]
fn node_hands_out_decoded_messages() {
    let mut node = Node::new();
    assert!(matches!(node.recv_msg(), Ok(RecvMsg::NoMsgs)));
    node.recv_bytes(NodeID(7), vec![9, 9]).unwrap();
    assert_eq!(node.pop_bytes_to_decode(), Some((NodeID(7), vec![9, 9])));
    assert_eq!(node.pop_bytes_to_decode(), None);
    node.accept_msg(NodeID(7), msg(7, 1, 42)).unwrap();
    node.recv_bytes(NodeID(8), vec![1]).unwrap();
    // A decoded message is waiting, so no bytes are handed out to decode.
    assert_eq!(node.pop_bytes_to_decode(), None);
    // One waiting message and no completed request: an odd total, so it is
    // not the turn of one-way messages.
    assert!(matches!(node.recv_msg(), Ok(RecvMsg::NoMsgs)));
    node.accept_msg(NodeID(8), msg(8, 1, 43)).unwrap();
    match node.recv_msg() {
        Ok(RecvMsg::Single(m)) => assert_eq!(m, msg(7, 1, 42)),
        _ => panic!("expected a one-way message"),
    }
    assert_eq!(node.incoming.len(), 1);
}

#[test]
fn node_refuses_mismatched_source() {
    let mut node = Node::new();
    assert_eq!(node.accept_msg(NodeID(1), msg(2, 1, 0)), Err(Error::MismatchedSource));
    assert_eq!(Error::MismatchedSource.message(), "Mismatched source");
    assert!(node.incoming.is_empty());
}

#[test]
fn node_alternates_with_odd_queue_total() {
    let mut node = Node::new();
    node.accept_msg(NodeID(1), msg(1, 0, 1)).unwrap();
    node.accept_msg(NodeID(1), msg(1, 0, 2)).unwrap();
    // Two one-way messages: an even total, so the first comes out.
    assert_eq!(node.maybe_pop_incoming_msg(), Some(msg(1, 0, 1)));
    // One left: an odd total, so it waits its turn.
    assert_eq!(node.maybe_pop_incoming_msg(), None);
}
