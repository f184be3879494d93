use vstd::prelude::*;
use crate::registry::{cursor_after, pick_index};
use crate::tables::{lemma_others_shorter, views, Broker, Task};

verus! {

/// The retry counter after one more attempt; it stays at its largest value.
pub open spec fn bumped(r: u8) -> u8 {
    if r < 255 {
        (r + 1) as u8
    } else {
        255
    }
}

/// The worker that round-robin selection hands out next for topic `t`.
pub open spec fn next_worker(b: Broker, t: Seq<char>) -> Seq<char> {
    b.workers_of(t)[pick_index(b.cursor_of(t), b.workers_of(t).len() as int)]
}

impl Broker {
    /// Changes to the task tables alone leave the registry and its
    /// accessors as they were.
    pub proof fn lemma_same_registry(a: Broker, b: Broker)
        requires
            a.wf(),
            b.clients == a.clients,
            b.topics == a.topics,
            b.tasks_assigned(),
        ensures
            b.wf(),
            forall|u: Seq<char>|
                #![trigger b.workers_of(u)]
                #![trigger b.clients_of(u)]
                #![trigger b.has_topic(u)]
                #![trigger b.cursor_of(u)]
                b.workers_of(u) == a.workers_of(u) && b.clients_of(u) == a.clients_of(u) && b.has_topic(u)
                    == a.has_topic(u) && b.cursor_of(u) == a.cursor_of(u),
            forall|c: Seq<char>|
                #![trigger b.has_client(c)]
                #![trigger b.subscriptions(c)]
                #![trigger b.is_worker_of(c)]
                b.has_client(c) == a.has_client(c) && b.subscriptions(c) == a.subscriptions(c)
                    && b.is_worker_of(c) == a.is_worker_of(c),
    {
        assert forall|i: int, k: int|
            0 <= i < b.clients@.len() && 0 <= k < b.clients@[i].topics@.len() implies b.mirrored(
            b.clients@[i].name@,
            #[trigger] b.clients@[i].topics@[k]@,
        ) by {
            assert(a.mirrored(a.clients@[i].name@, a.clients@[i].topics@[k]@));
        }
    }

    proof fn lemma_cursor_moved(a: Broker, b: Broker, j: int)
        requires
            a.wf(),
            0 <= j < a.topics@.len(),
            b.topics@ == a.topics@.update(j, b.topics@[j]),
            b.topics@[j].name == a.topics@[j].name,
            b.topics@[j].workers == a.topics@[j].workers,
            b.topics@[j].clients == a.topics@[j].clients,
            b.topics@[j].next_worker_index <= b.topics@[j].workers@.len(),
            b.clients == a.clients,
            b.tasks == a.tasks,
            b.tasks_to_retry == a.tasks_to_retry,
        ensures
            b.wf(),
            forall|u: Seq<char>|
                #![trigger b.workers_of(u)]
                #![trigger b.clients_of(u)]
                #![trigger b.has_topic(u)]
                b.workers_of(u) == a.workers_of(u) && b.clients_of(u) == a.clients_of(u) && b.has_topic(u)
                    == a.has_topic(u),
            forall|u: Seq<char>| u != a.topics@[j].name@ ==> #[trigger] b.cursor_of(u) == a.cursor_of(u),
            b.cursor_of(a.topics@[j].name@) == b.topics@[j].next_worker_index,
    {
        assert(Self::same_topic_lists(a.topics@, b.topics@)) by {
            assert forall|x: int| 0 <= x < a.topics@.len() implies (#[trigger] a.topics@[x]).name == b.topics@[x].name
                && a.topics@[x].workers == b.topics@[x].workers && a.topics@[x].clients == b.topics@[x].clients by {
                if x != j {
                    assert(b.topics@[x] == a.topics@[x]);
                }
            }
        }
        assert forall|x: int| 0 <= x < b.topics@.len() implies (#[trigger] b.topics@[x]).next_worker_index
            <= b.topics@[x].workers@.len() by {
            if x != j {
                assert(b.topics@[x] == a.topics@[x]);
            }
        }
        Self::lemma_same_topic_lists(&a, &b);
        b.lemma_topic_index(j);
        assert forall|u: Seq<char>|
            #![trigger b.workers_of(u)]
            #![trigger b.clients_of(u)]
            #![trigger b.has_topic(u)]
            #![trigger b.cursor_of(u)]
            b.workers_of(u) == a.workers_of(u) && b.clients_of(u) == a.clients_of(u) && b.has_topic(u)
                == a.has_topic(u) && (u != a.topics@[j].name@ ==> b.cursor_of(u) == a.cursor_of(u)) by {
            if a.has_topic(u) {
                let y = choose|y: int| 0 <= y < a.topics@.len() && #[trigger] a.topics@[y].name@ == u;
                a.lemma_topic_index(y);
                b.lemma_topic_index(y);
                if y != j {
                    assert(b.topics@[y] == a.topics@[y]);
                }
            }
        }
    }

    /// Starts one dispatch attempt of `task`: picks the next worker of its
    /// worker topic and stamps the task (time, retry counter, worker). When
    /// the topic has no worker, the task is parked in the retry queue without
    /// a worker and `None` comes back; otherwise the stamped task comes back,
    /// to be sent to its worker and then settled by `delivery_outcome`.
    pub fn dispatch(&mut self, task: Task, now: u64) -> (r: Option<Task>)
        requires
            old(self).wf(),
        ensures
            final(self).wf(),
            final(self).clients == old(self).clients,
            final(self).tasks == old(self).tasks,
            final(self).timeout_as_secs == old(self).timeout_as_secs,
            forall|u: Seq<char>|
                #![trigger final(self).workers_of(u)]
                #![trigger final(self).clients_of(u)]
                #![trigger final(self).has_topic(u)]
                final(self).workers_of(u) == old(self).workers_of(u) && final(self).clients_of(u)
                    == old(self).clients_of(u) && final(self).has_topic(u) == old(self).has_topic(u),
            forall|u: Seq<char>|
                u != task.worker_topic@ ==> #[trigger] final(self).cursor_of(u) == old(self).cursor_of(u),
            old(self).has_topic(task.worker_topic@) ==> final(self).cursor_of(task.worker_topic@)
                == cursor_after(
                old(self).cursor_of(task.worker_topic@),
                old(self).workers_of(task.worker_topic@).len() as int,
            ),
            match r {
                None => {
                    &&& old(self).workers_of(task.worker_topic@).len() == 0
                    &&& final(self).tasks_to_retry@ == old(self).tasks_to_retry@.push(
                        Task { worker_name: None, retry: bumped(task.retry), date: now, sent: false, ..task },
                    )
                },
                Some(s) => {
                    &&& old(self).workers_of(task.worker_topic@).len() > 0
                    &&& final(self).tasks_to_retry == old(self).tasks_to_retry
                    &&& s.worker_name.is_some()
                    &&& s.worker_name.unwrap()@ == next_worker(*old(self), task.worker_topic@)
                    &&& s.worker_topic == task.worker_topic
                    &&& s.response_topic == task.response_topic
                    &&& s.payload == task.payload
                    &&& s.retry == bumped(task.retry)
                    &&& s.date == now
                    &&& !s.sent
                },
            },
    {
        let ghost a = *self;
        let mut task = task;
        task.date = now;
        task.retry = if task.retry < 255 { task.retry + 1 } else { 255 };
        task.sent = false;
        let picked = self.get_next_worker_name(task.worker_topic.as_str());
        proof {
            if a.has_topic(task.worker_topic@) {
                let j = a.topic_index(task.worker_topic@);
                a.lemma_topic_index(j);
                Self::lemma_cursor_moved(a, *self, j);
                assert(views(a.topics@[j].workers@).len() == a.topics@[j].workers@.len());
            } else {
                assert(a.workers_of(task.worker_topic@) =~= Seq::<Seq<char>>::empty());
            }
        }
        match picked {
            None => {
                task.worker_name = None;
                let ghost m = *self;
                self.tasks_to_retry.push(task);
                proof {
                    assert forall|i: int| 0 <= i < self.tasks_to_retry@.len() implies (
                    #[trigger] self.tasks_to_retry@[i]).worker_name.is_none() by {
                        if i < m.tasks_to_retry@.len() {
                            assert(self.tasks_to_retry@[i] == m.tasks_to_retry@[i]);
                        }
                    }
                    Self::lemma_same_registry(m, *self);
                    assert(self.cursor_of(task.worker_topic@) == m.cursor_of(task.worker_topic@));
                }
                None
            },
            Some(w) => {
                task.worker_name = Some(w);
                Some(task)
            },
        }
    }

    /// Settles a dispatch attempt once the send to the task's worker is known
    /// to have succeeded or failed. A delivered task joins the in-flight
    /// table. Otherwise the worker is evicted and the task comes back, to be
    /// dispatched again; the topic then has one worker fewer.
    pub fn delivery_outcome(&mut self, task: Task, delivered: bool) -> (r: Option<Task>)
        requires
            old(self).wf(),
            task.worker_name.is_some(),
        ensures
            final(self).wf(),
            delivered ==> {
                &&& r.is_none()
                &&& final(self).tasks@ == old(self).tasks@.push(Task { sent: true, ..task })
                &&& final(self).clients == old(self).clients
                &&& final(self).topics == old(self).topics
                &&& final(self).tasks_to_retry == old(self).tasks_to_retry
                &&& final(self).timeout_as_secs == old(self).timeout_as_secs
            },
            !delivered ==> {
                &&& r == Some(Task { sent: false, ..task })
                &&& Self::evicted(*old(self), *final(self), task.worker_name.unwrap()@)
                &&& old(self).workers_of(task.worker_topic@).contains(task.worker_name.unwrap()@)
                    ==> final(self).workers_of(task.worker_topic@).len() < old(self).workers_of(
                    task.worker_topic@,
                ).len()
            },
    {
        let mut task = task;
        if delivered {
            task.sent = true;
            let ghost m = *self;
            self.tasks.push(task);
            proof {
                assert forall|i: int| 0 <= i < self.tasks@.len() implies #[trigger] self.tasks@[i].sent
                    && self.tasks@[i].worker_name.is_some() by {
                    if i < m.tasks@.len() {
                        assert(self.tasks@[i] == m.tasks@[i]);
                    }
                }
                Self::lemma_same_registry(m, *self);
            }
            None
        } else {
            task.sent = false;
            let w = task.worker_name.clone().unwrap();
            proof {
                lemma_others_shorter(self.workers_of(task.worker_topic@), w@);
            }
            self.remove_worker(w.as_str());
            Some(task)
        }
    }

    /// Hands back every task of the retry queue, in order, and empties it:
    /// each is to be dispatched again now that a worker has registered.
    pub fn retry_tasks(&mut self) -> (r: Vec<Task>)
        requires
            old(self).wf(),
        ensures
            final(self).wf(),
            r@ == old(self).tasks_to_retry@,
            final(self).tasks_to_retry@.len() == 0,
            final(self).clients == old(self).clients,
            final(self).topics == old(self).topics,
            final(self).tasks == old(self).tasks,
            final(self).timeout_as_secs == old(self).timeout_as_secs,
    {
        let mut r: Vec<Task> = Vec::new();
        let ghost m = *self;
        std::mem::swap(&mut r, &mut self.tasks_to_retry);
        proof {
            Self::lemma_same_registry(m, *self);
        }
        r
    }

    /// A worker registration: `identity` is registered as a worker on
    /// `topic_name`, and every task of the retry queue comes back, in order,
    /// to be dispatched again.
    pub fn register_worker(&mut self, identity: &str, topic_name: &str) -> (r: Vec<Task>)
        requires
            old(self).wf(),
        ensures
            final(self).wf(),
            r@ == old(self).tasks_to_retry@,
            final(self).tasks_to_retry@.len() == 0,
            Self::registered(
                *old(self),
                Broker { tasks_to_retry: old(self).tasks_to_retry, ..*final(self) },
                true,
                identity@,
                topic_name@,
            ),
    {
        self.add_client(true, identity, topic_name);
        let ghost m = *self;
        let r = self.retry_tasks();
        proof {
            let back = Broker { tasks_to_retry: m.tasks_to_retry, ..*self };
            assert(back == m);
        }
        r
    }
}

} // verus!
