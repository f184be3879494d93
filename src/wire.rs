use vstd::prelude::*;
use vstd::string::*;
use crate::tables::{Broker, Client};

verus! {

/// Worker-topic of a liveness probe.
pub open spec fn ping_token() -> Seq<char> {
    seq!['@', '@', 'P', 'I', 'N', 'G']
}

/// Worker-topic of a registration; also the payload that asks a worker to register again.
pub open spec fn register_token() -> Seq<char> {
    seq!['@', '@', 'R', 'E', 'G', 'I', 'S', 'T', 'E', 'R']
}

/// Payload answering a liveness probe.
pub open spec fn pong_token() -> Seq<char> {
    seq!['@', '@', 'P', 'O', 'N', 'G']
}

/// An identity that announces a worker starts with `worker`.
pub open spec fn is_worker_identity(id: Seq<char>) -> bool {
    id.len() >= 6 && id.subrange(0, 6) == seq!['w', 'o', 'r', 'k', 'e', 'r']
}

/// What a complete inbound message is.
#[derive(Debug, Clone, Copy, PartialEq, Eq, Structural)]
pub enum MessageKind {
    /// A worker's liveness probe.
    Ping,
    /// A worker subscribing to serve the response-topic.
    Register,
    /// A worker's reply on the worker-topic.
    Reply,
    /// A client's request for a worker of the worker-topic.
    Request,
}

pub open spec fn kind_of(worker_topic: Seq<char>, response_topic: Seq<char>) -> MessageKind {
    if worker_topic == ping_token() {
        MessageKind::Ping
    } else if worker_topic == register_token() {
        MessageKind::Register
    } else if response_topic.len() == 0 {
        MessageKind::Reply
    } else {
        MessageKind::Request
    }
}

/// Classifies a message by its worker-topic and response-topic frames.
pub fn classify(worker_topic: &str, response_topic: &str) -> (r: MessageKind)
    ensures
        r == kind_of(worker_topic@, response_topic@),
{
    let w = worker_topic.to_owned();
    let ping = "@@PING".to_owned();
    let register = "@@REGISTER".to_owned();
    proof {
        reveal_strlit("@@PING");
        reveal_strlit("@@REGISTER");
        assert(ping@ =~= ping_token());
        assert(register@ =~= register_token());
    }
    if w == ping {
        MessageKind::Ping
    } else if w == register {
        MessageKind::Register
    } else if response_topic.is_empty() {
        MessageKind::Reply
    } else {
        MessageKind::Request
    }
}

/// A complete inbound message: the sender's identity, then three frames.
#[derive(Debug, Clone)]
pub struct Message {
    pub identity: String,
    pub worker_topic: String,
    pub response_topic: String,
    pub payload: String,
}

/// A message held more than four frames.
#[derive(Debug, Clone, Copy, PartialEq, Eq, Structural)]
pub enum FrameError {
    TooManyFrames,
}

/// Gathers the frames of one message. A slot that a message does not reach
/// keeps what the previous message left in it.
#[derive(Debug)]
pub struct FrameReader {
    pub index: usize,
    pub identity: String,
    pub topic: String,
    pub response_topic: String,
    pub payload: String,
}

impl FrameReader {
    pub fn new() -> (r: FrameReader)
        ensures
            r.index == 0,
            r.identity@.len() == 0,
            r.topic@.len() == 0,
            r.response_topic@.len() == 0,
            r.payload@.len() == 0,
    {
        FrameReader {
            index: 0,
            identity: String::new(),
            topic: String::new(),
            response_topic: String::new(),
            payload: String::new(),
        }
    }

    /// Takes the next frame `part`; `more` tells whether frames of the same
    /// message follow. The frame fills the slot of its position; after the
    /// last frame the message comes back and the reader starts over. A fifth
    /// frame is refused.
    pub fn push(&mut self, part: String, more: bool) -> (r: Result<Option<Message>, FrameError>)
        requires
            old(self).index <= 4,
        ensures
            old(self).index >= 4 <==> r is Err,
            old(self).index >= 4 ==> *final(self) == *old(self),
            old(self).index < 4 ==> {
                &&& final(self).identity@ == if old(self).index == 0 { part@ } else { old(self).identity@ }
                &&& final(self).topic@ == if old(self).index == 1 { part@ } else { old(self).topic@ }
                &&& final(self).response_topic@ == if old(self).index == 2 { part@ } else { old(self).response_topic@ }
                &&& final(self).payload@ == if old(self).index == 3 { part@ } else { old(self).payload@ }
                &&& final(self).index == if more { old(self).index + 1 } else { 0 }
                &&& match r {
                    Ok(Some(m)) => !more && m.identity@ == final(self).identity@ && m.worker_topic@ == final(self).topic@
                        && m.response_topic@ == final(self).response_topic@ && m.payload@ == final(self).payload@,
                    Ok(None) => more,
                    Err(_) => false,
                }
            },
    {
        if self.index >= 4 {
            return Err(FrameError::TooManyFrames);
        }
        if self.index == 0 {
            self.identity = part;
        } else if self.index == 1 {
            self.topic = part;
        } else if self.index == 2 {
            self.response_topic = part;
        } else {
            self.payload = part;
        }
        if more {
            self.index = self.index + 1;
            Ok(None)
        } else {
            self.index = 0;
            Ok(
                Some(
                    Message {
                        identity: self.identity.clone(),
                        worker_topic: self.topic.clone(),
                        response_topic: self.response_topic.clone(),
                        payload: self.payload.clone(),
                    },
                ),
            )
        }
    }
}

/// How many rows of `s` are flagged as workers.
pub open spec fn count_workers(s: Seq<Client>) -> nat
    decreases s.len(),
{
    if s.len() == 0 {
        0
    } else {
        count_workers(s.drop_last()) + if s.last().is_worker { 1nat } else { 0nat }
    }
}

impl Broker {
    /// The payloads to send back to `identity` on a liveness probe, in order:
    /// a request to register again when the identity names a worker that the
    /// broker does not know, then the answer to the probe.
    pub fn ping_replies(&self, identity: &str) -> (r: Vec<String>)
        requires
            self.wf(),
        ensures
            r@.len() == if is_worker_identity(identity@) && !self.has_client(identity@) { 2int } else { 1int },
            r@.last()@ == pong_token(),
            r@.len() == 2 ==> r@[0]@ == register_token(),
    {
        let mut r: Vec<String> = Vec::new();
        let id = identity.to_owned();
        let prefix = "worker";
        proof {
            reveal_strlit("worker");
            reveal_strlit("@@REGISTER");
            reveal_strlit("@@PONG");
        }
        let mut starts = identity.unicode_len() >= 6;
        let mut i: usize = 0;
        while starts && i < 6
            invariant
                i <= 6,
                starts ==> identity@.len() >= 6,
                starts ==> forall|k: int| 0 <= k < i ==> identity@[k] == prefix@[k],
                !starts ==> !is_worker_identity(identity@),
                prefix@ == seq!['w', 'o', 'r', 'k', 'e', 'r'],
            decreases 6 - i,
        {
            if identity.get_char(i) != prefix.get_char(i) {
                proof {
                    if is_worker_identity(identity@) {
                        assert(identity@.subrange(0, 6)[i as int] == identity@[i as int]);
                    }
                }
                starts = false;
            }
            i = i + 1;
        }
        proof {
            if starts {
                assert(identity@.subrange(0, 6) =~= seq!['w', 'o', 'r', 'k', 'e', 'r']);
            }
        }
        if starts && self.find_client(&id).is_none() {
            let reg = "@@REGISTER".to_owned();
            proof { assert(reg@ =~= register_token()); }
            r.push(reg);
        }
        let pong = "@@PONG".to_owned();
        proof { assert(pong@ =~= pong_token()); }
        r.push(pong);
        r
    }

    /// Counts for the one-line summary: workers, other clients, topics,
    /// in-flight tasks, waiting tasks.
    pub fn summary(&self) -> (r: (usize, usize, usize, usize, usize))
        ensures
            r.0 == count_workers(self.clients@),
            r.0 + r.1 == self.clients@.len(),
            r.2 == self.topics@.len(),
            r.3 == self.tasks@.len(),
            r.4 == self.tasks_to_retry@.len(),
    {
        let mut workers: usize = 0;
        let mut i: usize = 0;
        while i < self.clients.len()
            invariant
                i <= self.clients@.len(),
                workers == count_workers(self.clients@.subrange(0, i as int)),
                workers <= i,
            decreases self.clients@.len() - i,
        {
            proof {
                assert(self.clients@.subrange(0, i as int + 1).drop_last() =~= self.clients@.subrange(0, i as int));
            }
            if self.clients[i].is_worker {
                workers = workers + 1;
            }
            i = i + 1;
        }
        proof {
            assert(self.clients@.subrange(0, i as int) =~= self.clients@);
        }
        (workers, self.clients.len() - workers, self.topics.len(), self.tasks.len(), self.tasks_to_retry.len())
    }
}

} // verus!
