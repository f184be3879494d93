use vstd::prelude::*;
use crate::tables::{lemma_others_absent, lemma_others_contains, others, views, Broker, Task};

verus! {

/// A task expires once `timeout` seconds have passed since its last dispatch
/// attempt at `k.date`; a date later than `now` has not expired.
pub open spec fn expired(k: Task, now: u64, timeout: u64) -> bool {
    now >= k.date && now - k.date >= timeout
}

/// The tasks of `s` that have not expired at `now`, order kept.
pub open spec fn live_tasks(s: Seq<Task>, now: u64, timeout: u64) -> Seq<Task> {
    s.filter(|k: Task| !expired(k, now, timeout))
}

/// One of the first `n` tasks of `s` has expired at `now` and answers on `t`.
pub open spec fn expired_topic(s: Seq<Task>, n: int, t: Seq<char>, now: u64, timeout: u64) -> bool {
    exists|x: int| 0 <= x < n && #[trigger] expired(s[x], now, timeout) && s[x].response_topic@ == t
}

/// No task among the first `n` of `s` has expired at `now`.
pub open spec fn none_expired(s: Seq<Task>, n: int, now: u64, timeout: u64) -> bool {
    forall|x: int| 0 <= x < n ==> !#[trigger] expired(s[x], now, timeout)
}

/// The subscriptions `subs` without the response topics of the tasks among
/// the first `n` of `s` that have expired at `now`, order kept.
pub open spec fn strip_expired(subs: Seq<Seq<char>>, s: Seq<Task>, n: int, now: u64, timeout: u64) -> Seq<Seq<char>>
    decreases n,
{
    if n <= 0 {
        subs
    } else if expired(s[n - 1], now, timeout) {
        others(strip_expired(subs, s, n - 1, now, timeout), s[n - 1].response_topic@)
    } else {
        strip_expired(subs, s, n - 1, now, timeout)
    }
}

pub proof fn lemma_all_live(s: Seq<Task>, now: u64, timeout: u64)
    requires
        none_expired(s, s.len() as int, now, timeout),
    ensures
        live_tasks(s, now, timeout) == s,
    decreases s.len(),
{
    reveal(Seq::filter);
    if s.len() > 0 {
        let d = s.drop_last();
        assert forall|x: int| 0 <= x < d.len() implies !#[trigger] expired(d[x], now, timeout) by {
            assert(d[x] == s[x]);
        }
        lemma_all_live(d, now, timeout);
        assert(!expired(s[s.len() - 1], now, timeout));
        assert(d.push(s.last()) =~= s);
    } else {
        assert(live_tasks(s, now, timeout) =~= s);
    }
}

impl Broker {
    proof fn lemma_in_flight(&self, i: int)
        requires
            self.tasks_assigned(),
            0 <= i < self.tasks@.len(),
        ensures
            self.tasks@[i].sent,
            self.tasks@[i].worker_name.is_some(),
    {
    }

    /// Topic `t` has no row and no client subscribes to it.
    pub open spec fn gone(&self, t: Seq<char>) -> bool {
        !self.has_topic(t) && forall|c: Seq<char>| !(#[trigger] self.subscriptions(c)).contains(t)
    }

    /// Without a row for `t`, no client subscribes to `t`.
    pub proof fn lemma_no_row_no_subscriber(&self, t: Seq<char>, c: Seq<char>)
        requires
            self.wf(),
            !self.has_topic(t),
        ensures
            !self.subscriptions(c).contains(t),
    {
        if self.subscriptions(c).contains(t) {
            let i = self.client_index(c);
            let v = views(self.clients@[i].topics@);
            let k = choose|k: int| 0 <= k < v.len() && v[k] == t;
            assert(self.clients@[i].topics@[k]@ == t);
            assert(self.mirrored(self.clients@[i].name@, self.clients@[i].topics@[k]@));
            let j = choose|j: int|
                0 <= j < self.topics@.len() && #[trigger] self.topics@[j].name@ == t && (views(
                    self.topics@[j].workers@,
                ).contains(c) || views(self.topics@[j].clients@).contains(c));
        }
    }

    /// Drops topic `t` entirely: its row goes, every client stops
    /// subscribing to it, and clients left without a subscription go.
    pub fn drop_topic(&mut self, t: &String)
        requires
            old(self).wf(),
        ensures
            final(self).wf(),
            final(self).tasks == old(self).tasks,
            final(self).tasks_to_retry == old(self).tasks_to_retry,
            final(self).timeout_as_secs == old(self).timeout_as_secs,
            old(self).has_topic(t@) ==> Self::dropped_topic(*old(self), *final(self), t@, Seq::empty(), Seq::empty()),
            !old(self).has_topic(t@) ==> final(self).clients == old(self).clients && final(self).topics
                == old(self).topics,
    {
        match self.find_topic(t) {
            None => {},
            Some(j) => {
                let ghost a = *self;
                let spare: Vec<String> = Vec::new();
                proof {
                    assert(views(spare@) =~= Seq::<Seq<char>>::empty());
                }
                self.topics.remove(j);
                self.strip_topic(t, &spare, &spare);
                let ghost m = choose|m: Seq<crate::tables::Client>|
                    {
                        &&& m.len() == a.clients@.len()
                        &&& forall|x: int|
                            0 <= x < m.len() ==> crate::cascade::stripped_row(a.clients@[x], #[trigger] m[x], t@, views(spare@), views(spare@))
                        &&& self.clients@ == crate::tables::clients_kept(m)
                    };
                proof {
                    Self::lemma_drop_topic(a, m, *self, t@, j as int, Seq::empty(), Seq::empty());
                }
            },
        }
    }

    /// The timeout sweep at second `now`: in-flight tasks that have been out
    /// for `timeout_as_secs` seconds or more are dropped, and with each the
    /// topic its reply was awaited on (see `drop_topic`).
    #[verifier::rlimit(60)]
    pub fn remove_timeout_tasks(&mut self, now: u64)
        requires
            old(self).wf(),
        ensures
            final(self).wf(),
            final(self).tasks@ == live_tasks(old(self).tasks@, now, old(self).timeout_as_secs),
            final(self).tasks_to_retry == old(self).tasks_to_retry,
            final(self).timeout_as_secs == old(self).timeout_as_secs,
            forall|u: Seq<char>|
                expired_topic(old(self).tasks@, old(self).tasks@.len() as int, u, now, old(self).timeout_as_secs)
                    ==> #[trigger] final(self).gone(u),
            forall|u: Seq<char>|
                #![trigger final(self).workers_of(u)]
                #![trigger final(self).clients_of(u)]
                #![trigger final(self).has_topic(u)]
                #![trigger final(self).cursor_of(u)]
                !expired_topic(old(self).tasks@, old(self).tasks@.len() as int, u, now, old(self).timeout_as_secs)
                    ==> final(self).workers_of(u) == old(self).workers_of(u) && final(self).clients_of(u)
                    == old(self).clients_of(u) && final(self).has_topic(u) == old(self).has_topic(u)
                    && final(self).cursor_of(u) == old(self).cursor_of(u),
            forall|c: Seq<char>, u: Seq<char>|
                !expired_topic(old(self).tasks@, old(self).tasks@.len() as int, u, now, old(self).timeout_as_secs)
                    ==> #[trigger] final(self).subscriptions(c).contains(u) == old(self).subscriptions(c).contains(u),
            forall|c: Seq<char>|
                #[trigger] final(self).has_client(c) ==> old(self).has_client(c) && final(self).is_worker_of(c)
                    == old(self).is_worker_of(c),
            forall|c: Seq<char>|
                old(self).has_client(c) ==> #[trigger] final(self).subscriptions(c) == strip_expired(
                    old(self).subscriptions(c),
                    old(self).tasks@,
                    old(self).tasks@.len() as int,
                    now,
                    old(self).timeout_as_secs,
                ),
            forall|c: Seq<char>|
                old(self).has_client(c) ==> (#[trigger] final(self).has_client(c) <==> strip_expired(
                    old(self).subscriptions(c),
                    old(self).tasks@,
                    old(self).tasks@.len() as int,
                    now,
                    old(self).timeout_as_secs,
                ).len() > 0),
            none_expired(old(self).tasks@, old(self).tasks@.len() as int, now, old(self).timeout_as_secs)
                ==> final(self).clients == old(self).clients && final(self).topics == old(self).topics
                && final(self).tasks@ == old(self).tasks@,
    {
        let ghost a = *self;
        let ghost orig = self.tasks@;
        let timeout = self.timeout_as_secs;
        let mut rows: Vec<Task> = Vec::new();
        std::mem::swap(&mut rows, &mut self.tasks);
        proof {
            Self::lemma_same_registry(a, *self);
        }
        let mut i: usize = 0;
        let n = rows.len();
        while i < n
            invariant
                n == orig.len(),
                i <= n,
                orig == a.tasks@,
                a.wf(),
                timeout == a.timeout_as_secs,
                self.wf(),
                rows@ == orig.subrange(i as int, n as int),
                self.tasks@ == live_tasks(orig.subrange(0, i as int), now, timeout),
                self.tasks_to_retry == a.tasks_to_retry,
                self.timeout_as_secs == a.timeout_as_secs,
                forall|u: Seq<char>| expired_topic(orig, i as int, u, now, timeout) ==> #[trigger] self.gone(u),
                forall|u: Seq<char>|
                    #![trigger self.workers_of(u)]
                    #![trigger self.clients_of(u)]
                    #![trigger self.has_topic(u)]
                    #![trigger self.cursor_of(u)]
                    !expired_topic(orig, i as int, u, now, timeout) ==> self.workers_of(u) == a.workers_of(u)
                        && self.clients_of(u) == a.clients_of(u) && self.has_topic(u) == a.has_topic(u)
                        && self.cursor_of(u) == a.cursor_of(u),
                forall|c: Seq<char>, u: Seq<char>|
                    !expired_topic(orig, i as int, u, now, timeout) ==> #[trigger] self.subscriptions(c).contains(u)
                        == a.subscriptions(c).contains(u),
                forall|c: Seq<char>|
                    #[trigger] self.has_client(c) ==> a.has_client(c) && self.is_worker_of(c) == a.is_worker_of(c),
                forall|c: Seq<char>|
                    a.has_client(c) ==> #[trigger] self.subscriptions(c) == strip_expired(
                        a.subscriptions(c),
                        orig,
                        i as int,
                        now,
                        timeout,
                    ),
                none_expired(orig, i as int, now, timeout) ==> self.clients == a.clients && self.topics == a.topics,
            decreases n - i,
        {
            let row = rows.remove(0);
            let ghost pre = *self;
            proof {
                reveal(Seq::filter);
                assert(orig.subrange(0, i as int + 1).drop_last() =~= orig.subrange(0, i as int));
                assert(orig.subrange(0, i as int + 1).last() == row);
                assert(rows@ =~= orig.subrange(i as int + 1, n as int));
                assert(orig[i as int] == row);
            }
            if now >= row.date && now - row.date >= timeout {
                self.drop_topic(&row.response_topic);
                proof {
                    let t = row.response_topic@;
                    assert forall|c: Seq<char>| a.has_client(c) implies #[trigger] self.subscriptions(c) == strip_expired(
                        a.subscriptions(c),
                        orig,
                        i as int + 1,
                        now,
                        timeout,
                    ) by {
                        assert(strip_expired(a.subscriptions(c), orig, i as int + 1, now, timeout) == others(
                            pre.subscriptions(c),
                            t,
                        ));
                        if pre.has_topic(t) {
                            if !pre.has_client(c) {
                                reveal(Seq::filter);
                                assert(others(pre.subscriptions(c), t) =~= Seq::<Seq<char>>::empty());
                            }
                        } else {
                            assert(*self == pre);
                            pre.lemma_no_row_no_subscriber(t, c);
                            lemma_others_absent(pre.subscriptions(c), t);
                        }
                    }
                    assert forall|u: Seq<char>|
                        expired_topic(orig, i as int + 1, u, now, timeout) == (expired_topic(orig, i as int, u, now, timeout)
                            || u == t) by {
                        if u == t {
                            assert(expired(orig[i as int], now, timeout));
                        }
                        if expired_topic(orig, i as int + 1, u, now, timeout) && u != t {
                            let x = choose|x: int|
                                0 <= x < i + 1 && #[trigger] expired(orig[x], now, timeout) && orig[x].response_topic@ == u;
                            assert(x < i);
                        }
                    }
                    if !pre.has_topic(t) {
                        assert(*self == pre);
                        assert forall|c: Seq<char>| !(#[trigger] self.subscriptions(c)).contains(t) by {
                            pre.lemma_no_row_no_subscriber(t, c);
                        }
                    } else {
                        assert forall|c: Seq<char>, u: Seq<char>|
                            #[trigger] self.subscriptions(c).contains(u) == (pre.subscriptions(c).contains(u) && u != t) by {
                            assert(self.has_client(c) == self.has_client(c));
                            if pre.has_client(c) {
                                lemma_others_contains(pre.subscriptions(c), t, u);
                            } else {
                                assert(!pre.subscriptions(c).contains(u));
                            }
                        }
                        assert forall|c: Seq<char>| #[trigger] self.has_client(c) implies pre.has_client(c)
                            && self.is_worker_of(c) == pre.is_worker_of(c) by {
                            assert(self.subscriptions(c) == self.subscriptions(c));
                        }
                    }
                    assert forall|u: Seq<char>| expired_topic(orig, i as int + 1, u, now, timeout) implies #[trigger] self.gone(u) by {
                        if u != t {
                            assert(expired_topic(orig, i as int, u, now, timeout));
                            assert(pre.gone(u));
                            assert forall|c: Seq<char>| !(#[trigger] self.subscriptions(c)).contains(u) by {
                                assert(!pre.subscriptions(c).contains(u));
                                if pre.has_topic(t) {
                                    assert(self.subscriptions(c).contains(u) == (pre.subscriptions(c).contains(u) && u != t));
                                }
                            }
                        } else {
                            assert forall|c: Seq<char>| !(#[trigger] self.subscriptions(c)).contains(u) by {
                                if pre.has_topic(t) {
                                    assert(self.subscriptions(c).contains(u) == (pre.subscriptions(c).contains(u) && u != t));
                                }
                            }
                        }
                    }
                }
            } else {
                self.tasks.push(row);
                proof {
                    assert forall|x: int| 0 <= x < self.tasks@.len() implies #[trigger] self.tasks@[x].sent
                        && self.tasks@[x].worker_name.is_some() by {
                        if x < pre.tasks@.len() {
                            assert(pre.tasks_assigned());
                            assert(self.tasks@[x] == pre.tasks@[x]);
                            assert(pre.tasks@[x].sent && pre.tasks@[x].worker_name.is_some());
                        } else {
                            assert(a.wf());
                            assert(a.tasks_assigned());
                            assert(0 <= i < a.tasks@.len());
                            assert(a.tasks@[i as int] == row);
                            a.lemma_in_flight(i as int);
                            assert(a.tasks@[i as int].sent && a.tasks@[i as int].worker_name.is_some());
                            assert(self.tasks@[x] == row);
                        }
                    }
                    Self::lemma_same_registry(pre, *self);
                    assert forall|c: Seq<char>| a.has_client(c) implies #[trigger] self.subscriptions(c) == strip_expired(
                        a.subscriptions(c),
                        orig,
                        i as int + 1,
                        now,
                        timeout,
                    ) by {
                        assert(self.subscriptions(c) == pre.subscriptions(c));
                    }
                    assert(none_expired(orig, i as int + 1, now, timeout) ==> none_expired(orig, i as int, now, timeout));
                    assert forall|u: Seq<char>|
                        expired_topic(orig, i as int + 1, u, now, timeout) == expired_topic(orig, i as int, u, now, timeout) by {
                        if expired_topic(orig, i as int + 1, u, now, timeout) {
                            let x = choose|x: int|
                                0 <= x < i + 1 && #[trigger] expired(orig[x], now, timeout) && orig[x].response_topic@ == u;
                            assert(x < i);
                        }
                    }
                    assert forall|u: Seq<char>| expired_topic(orig, i as int + 1, u, now, timeout) implies #[trigger] self.gone(u) by {
                        assert(expired_topic(orig, i as int, u, now, timeout));
                        assert(pre.gone(u));
                        assert forall|c: Seq<char>| !(#[trigger] self.subscriptions(c)).contains(u) by {
                            assert(!pre.subscriptions(c).contains(u));
                        }
                    }
                }
            }
            i = i + 1;
        }
        proof {
            assert(orig.subrange(0, n as int) =~= orig);
            if none_expired(orig, n as int, now, timeout) {
                lemma_all_live(orig, now, timeout);
            }
            assert forall|c: Seq<char>| a.has_client(c) implies (#[trigger] self.has_client(c) <==> strip_expired(
                a.subscriptions(c),
                orig,
                n as int,
                now,
                timeout,
            ).len() > 0) by {
                assert(self.subscriptions(c) == strip_expired(a.subscriptions(c), orig, n as int, now, timeout));
                if self.has_client(c) {
                    let x = choose|x: int| 0 <= x < self.clients@.len() && #[trigger] self.clients@[x].name@ == c;
                    self.lemma_client_index(x);
                    assert(self.clients@[x].topics@.len() > 0);
                    assert(views(self.clients@[x].topics@).len() > 0);
                } else {
                    assert(self.subscriptions(c).len() == 0);
                }
            }
        }
    }
}

} // verus!
