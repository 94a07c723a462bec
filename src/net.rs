use vstd::prelude::*;
use std::collections::{BTreeMap, VecDeque};

use crate::error::Error;
use crate::lang::{Expr, Path};

verus! {

/// The identity of a node of a realm.
#[derive(Clone, Copy, PartialEq, Eq, Structural, Debug, Hash, PartialOrd, Ord)]
pub struct NodeID(pub i64);

/// A node-local time in microseconds since the epoch.
#[derive(Clone, Copy, PartialEq, Eq, Structural, Debug, Hash, PartialOrd, Ord)]
pub struct NodeTime(pub i64);

/// A span of time in microseconds.
#[derive(Clone, Copy, PartialEq, Eq, Structural, Debug, Hash, PartialOrd, Ord)]
pub struct Duration(pub i64);

/// A realm-wide timestamp: a node time, the node, and an event count that
/// orders events within one microsecond.
#[derive(Clone, Copy, PartialEq, Eq, Structural, Debug, Hash, PartialOrd, Ord)]
pub struct RealmTime {
    pub time: NodeTime,
    pub node: NodeID,
    pub event: i64,
}

/// What a message carries besides its common fields.
#[derive(Clone, PartialEq, Eq, Debug, Hash, PartialOrd, Ord)]
pub enum SpecificMsg {
    Ping,
    Put(Expr, Vec<Path>),
    Ack,
}

/// A message between nodes.
#[derive(Clone, PartialEq, Eq, Debug, Hash, PartialOrd, Ord)]
pub struct Msg {
    pub src: NodeID,
    pub dst: NodeID,
    pub txn_time: RealmTime,
    pub msg_time: RealmTime,
    pub sequence: i64,
    pub response: bool,
    pub specific: SpecificMsg,
}

/// Encoded messages waiting to be sent to, or received from, each peer.
pub struct IOQueues {
    pub outgoing: VecDeque<(NodeID, Vec<u8>)>,
    pub incoming: VecDeque<(NodeID, Vec<u8>)>,
}

/// A request sent by this node, and its response once it has come.
pub struct Request {
    pub req: Msg,
    pub res: Option<Msg>,
}

/// The communication of one process with the other nodes.
pub struct Node {
    /// Decoded one-way messages awaiting consumption.
    pub incoming: VecDeque<Msg>,
    /// Requests sent and not yet consumed, by sequence number.
    pub requests: BTreeMap<i64, Request>,
    /// Sequence numbers of requests whose response has come.
    pub complete: VecDeque<i64>,
    /// Encoded messages to send and received.
    pub ioqueues: IOQueues,
}

/// What `recv_msg` hands out.
pub enum RecvMsg {
    NoMsgs,
    Single(Msg),
    Paired { req: Msg, res: Msg },
}

/// One-way messages and completed requests are handed out in turn: a
/// one-way message comes next when the two queues hold an even number of
/// entries together.
pub open spec fn one_way_turn(n_incoming: nat, n_complete: nat) -> bool {
    (n_incoming + n_complete) % 2 == 0
}

impl Node {
    /// A node with empty queues.
    pub fn new() -> (r: Self)
        ensures
            r.incoming@.len() == 0,
            r.complete@.len() == 0,
            r.requests@ == Map::<i64, Request>::empty(),
            r.ioqueues.incoming@.len() == 0,
            r.ioqueues.outgoing@.len() == 0,
    {
        Node {
            incoming: VecDeque::new(),
            requests: BTreeMap::new(),
            complete: VecDeque::new(),
            ioqueues: IOQueues { outgoing: VecDeque::new(), incoming: VecDeque::new() },
        }
    }

    /// Queues encoded bytes to send to `dst`.
    pub fn queue_outgoing(&mut self, dst: NodeID, buf: Vec<u8>)
        ensures
            final(self).ioqueues.outgoing@ == old(self).ioqueues.outgoing@.push((dst, buf)),
            final(self).ioqueues.incoming@ == old(self).ioqueues.incoming@,
            final(self).incoming@ == old(self).incoming@,
            final(self).complete@ == old(self).complete@,
            final(self).requests@ == old(self).requests@,
    {
        self.ioqueues.outgoing.push_back((dst, buf));
    }

    /// Takes in encoded bytes received from `src`.
    pub fn recv_bytes(&mut self, src: NodeID, buf: Vec<u8>) -> (r: Result<(), Error>)
        ensures
            r is Ok,
            final(self).ioqueues.incoming@ == old(self).ioqueues.incoming@.push((src, buf)),
            final(self).ioqueues.outgoing@ == old(self).ioqueues.outgoing@,
            final(self).incoming@ == old(self).incoming@,
            final(self).complete@ == old(self).complete@,
            final(self).requests@ == old(self).requests@,
    {
        self.ioqueues.incoming.push_back((src, buf));
        Ok(())
    }

    /// Hands out the next encoded bytes to send, if any.
    pub fn send_byes(&mut self) -> (r: Result<Option<(NodeID, Vec<u8>)>, Error>)
        ensures
            r is Ok,
            old(self).ioqueues.outgoing@.len() == 0 ==> r == Ok::<Option<(NodeID, Vec<u8>)>, Error>(None)
                && final(self).ioqueues.outgoing@ == old(self).ioqueues.outgoing@,
            old(self).ioqueues.outgoing@.len() > 0 ==> r == Ok::<Option<(NodeID, Vec<u8>)>, Error>(Some(old(self).ioqueues.outgoing@[0]))
                && final(self).ioqueues.outgoing@ == old(self).ioqueues.outgoing@.drop_first(),
            final(self).ioqueues.incoming@ == old(self).ioqueues.incoming@,
            final(self).incoming@ == old(self).incoming@,
            final(self).complete@ == old(self).complete@,
            final(self).requests@ == old(self).requests@,
    {
        match self.ioqueues.outgoing.pop_front() {
            Some((dst, buf)) => Ok(Some((dst, buf))),
            None => Ok(None),
        }
    }

    /// Hands out the next one-way message where it is the turn of one-way
    /// messages.
    pub fn maybe_pop_incoming_msg(&mut self) -> (r: Option<Msg>)
        ensures
            one_way_turn(old(self).incoming@.len(), old(self).complete@.len()) && old(self).incoming@.len() > 0 ==> r
                == Some(old(self).incoming@[0]) && final(self).incoming@ == old(self).incoming@.drop_first(),
            !(one_way_turn(old(self).incoming@.len(), old(self).complete@.len()) && old(self).incoming@.len() > 0) ==> r
                is None && final(self).incoming@ == old(self).incoming@,
            final(self).complete@ == old(self).complete@,
            final(self).requests@ == old(self).requests@,
            final(self).ioqueues.incoming@ == old(self).ioqueues.incoming@,
            final(self).ioqueues.outgoing@ == old(self).ioqueues.outgoing@,
    {
        let n = self.incoming.len() as u128 + self.complete.len() as u128;
        if n % 2 == 0 {
            self.incoming.pop_front()
        } else {
            None
        }
    }

    /// Hands out the next encoded message to decode: only when every decoded
    /// message has been consumed.
    pub fn pop_bytes_to_decode(&mut self) -> (r: Option<(NodeID, Vec<u8>)>)
        ensures
            (old(self).incoming@.len() == 0 && old(self).complete@.len() == 0 && old(self).ioqueues.incoming@.len() > 0) ==> r
                == Some(old(self).ioqueues.incoming@[0]) && final(self).ioqueues.incoming@ == old(self).ioqueues.incoming@.drop_first(),
            !(old(self).incoming@.len() == 0 && old(self).complete@.len() == 0 && old(self).ioqueues.incoming@.len() > 0) ==> r
                is None && final(self).ioqueues.incoming@ == old(self).ioqueues.incoming@,
            final(self).incoming@ == old(self).incoming@,
            final(self).complete@ == old(self).complete@,
            final(self).requests@ == old(self).requests@,
            final(self).ioqueues.outgoing@ == old(self).ioqueues.outgoing@,
    {
        if self.incoming.len() == 0 && self.complete.len() == 0 {
            self.ioqueues.incoming.pop_front()
        } else {
            None
        }
    }

    /// Takes in a decoded message that came from `src`: the response to a
    /// pending request completes it; any other message waits as one-way.
    pub fn accept_msg(&mut self, src: NodeID, msg: Msg) -> (r: Result<(), Error>)
        ensures
            msg.src != src ==> r == Err::<(), Error>(Error::MismatchedSource),
            r is Err ==> final(self).incoming@ == old(self).incoming@ && final(self).complete@ == old(self).complete@,
            r is Ok ==> msg.src == src,
            r is Ok && !old(self).requests@.contains_key(msg.sequence) ==> final(self).incoming@
                == old(self).incoming@.push(msg) && final(self).complete@ == old(self).complete@
                && final(self).requests@ == old(self).requests@,
            msg.src == src && old(self).requests@.contains_key(msg.sequence) ==> (
                old(self).requests@[msg.sequence].res is Some <==> r == Err::<(), Error>(Error::DuplicateResponse)),
            r is Ok && old(self).requests@.contains_key(msg.sequence) ==> final(self).complete@
                == old(self).complete@.push(msg.sequence) && final(self).incoming@ == old(self).incoming@
                && final(self).requests@ == old(self).requests@.insert(
                msg.sequence,
                Request { req: old(self).requests@[msg.sequence].req, res: Some(msg) },
            ),
            final(self).ioqueues.incoming@ == old(self).ioqueues.incoming@,
            final(self).ioqueues.outgoing@ == old(self).ioqueues.outgoing@,
    {
        if msg.src != src {
            return Err(Error::MismatchedSource);
        }
        let seq = msg.sequence;
        match self.requests.remove(&seq) {
            Some(req) => {
                if req.res.is_some() {
                    self.requests.insert(seq, req);
                    proof {
                        assert(self.requests@ =~= old(self).requests@);
                    }
                    return Err(Error::DuplicateResponse);
                }
                self.complete.push_back(seq);
                self.requests.insert(seq, Request { req: req.req, res: Some(msg) });
                proof {
                    assert(self.requests@ =~= old(self).requests@.insert(
                        seq,
                        Request { req: old(self).requests@[seq].req, res: Some(msg) },
                    ));
                }
                Ok(())
            },
            None => {
                self.incoming.push_back(msg);
                Ok(())
            },
        }
    }

    /// Hands out the next decoded message: a one-way message or a completed
    /// request with its response, in turn.
    pub fn recv_msg(&mut self) -> (r: Result<RecvMsg, Error>)
        ensures
            one_way_turn(old(self).incoming@.len(), old(self).complete@.len()) && old(self).incoming@.len() > 0 ==> (r
                matches Ok(RecvMsg::Single(m)) && m == old(self).incoming@[0]),
            old(self).incoming@.len() == 0 && old(self).complete@.len() == 0 ==> (r matches Ok(RecvMsg::NoMsgs)),
            r matches Ok(RecvMsg::Paired { req, res }) ==> old(self).complete@.len() > 0 && {
                let id = old(self).complete@[0];
                &&& old(self).requests@.contains_key(id)
                &&& req == old(self).requests@[id].req
                &&& old(self).requests@[id].res == Some(res)
                &&& req.sequence == id && !req.response
                &&& res.sequence == id && res.response
                &&& final(self).requests@ == old(self).requests@.remove(id)
                &&& final(self).complete@ == old(self).complete@.drop_first()
            },
            final(self).ioqueues.incoming@ == old(self).ioqueues.incoming@,
            final(self).ioqueues.outgoing@ == old(self).ioqueues.outgoing@,
    {
        match self.maybe_pop_incoming_msg() {
            Some(msg) => {
                return Ok(RecvMsg::Single(msg));
            },
            None => {},
        }
        match self.complete.pop_front() {
            Some(id) => {
                match self.requests.remove(&id) {
                    Some(req) => {
                        if req.req.sequence != id {
                            return Err(Error::UnexpectedSequence);
                        }
                        if req.req.response {
                            return Err(Error::RequestIsResponse);
                        }
                        match req.res {
                            Some(res) => {
                                if res.sequence != id {
                                    return Err(Error::MismatchedSequence);
                                }
                                if !res.response {
                                    return Err(Error::ResponseNotResponse);
                                }
                                Ok(RecvMsg::Paired { req: req.req, res })
                            },
                            None => Err(Error::MissingResponse),
                        }
                    },
                    None => Err(Error::MissingRequest),
                }
            },
            None => Ok(RecvMsg::NoMsgs),
        }
    }
}

} // verus!
