use vstd::prelude::*;
use crate::cascade::{listed, stripped_row};
use crate::tables::{drop_n, lemma_drop_n, lemma_occurrences_absent, lemma_others_contains, occurrences, others, lemma_views_push, views, Broker, Client, Task};

verus! {

/// The tasks of `s` whose replies do not go out on topic `t`, order kept.
pub open spec fn tasks_not_for(s: Seq<Task>, t: Seq<char>) -> Seq<Task> {
    s.filter(|k: Task| k.response_topic@ != t)
}

/// The entries of `v`, each once, in order of first appearance.
pub open spec fn first_seen(v: Seq<Seq<char>>) -> Seq<Seq<char>>
    decreases v.len(),
{
    if v.len() == 0 {
        v
    } else if first_seen(v.drop_last()).contains(v.last()) {
        first_seen(v.drop_last())
    } else {
        first_seen(v.drop_last()).push(v.last())
    }
}

/// The entries of `list`, each once, in order of first appearance.
fn distinct(list: &Vec<String>) -> (r: Vec<String>)
    ensures
        views(r@) == first_seen(views(list@)),
        views(r@).no_duplicates(),
        forall|c: Seq<char>| views(r@).contains(c) == views(list@).contains(c),
{
    let mut r: Vec<String> = Vec::new();
    let mut i: usize = 0;
    while i < list.len()
        invariant
            i <= list@.len(),
            views(r@) == first_seen(views(list@).subrange(0, i as int)),
            views(r@).no_duplicates(),
            forall|c: Seq<char>| views(r@).contains(c) == views(list@).subrange(0, i as int).contains(c),
        decreases list@.len() - i,
    {
        let ghost pre = views(list@).subrange(0, i as int);
        let ghost post = views(list@).subrange(0, i as int + 1);
        proof {
            assert(post == pre.push(list@[i as int]@));
            assert(post.drop_last() == pre);
            assert forall|c: Seq<char>| post.contains(c) == (pre.contains(c) || c == list@[i as int]@) by {
                if post.contains(c) {
                    let q = choose|q: int| 0 <= q < post.len() && post[q] == c;
                    if q < pre.len() {
                        assert(pre[q] == c);
                    }
                }
                if pre.contains(c) {
                    let q = choose|q: int| 0 <= q < pre.len() && pre[q] == c;
                    assert(post[q] == c);
                }
                assert(post[i as int] == list@[i as int]@);
            }
        }
        if !listed(&r, &list[i]) {
            proof {
                lemma_views_push(r@, list@[i as int]);
                let v = views(r@);
                let w = v.push(list@[i as int]@);
                assert forall|c: Seq<char>| w.contains(c) == (v.contains(c) || c == list@[i as int]@) by {
                    if w.contains(c) {
                        let q = choose|q: int| 0 <= q < w.len() && w[q] == c;
                        if q < v.len() {
                            assert(v[q] == c);
                        }
                    }
                    if v.contains(c) {
                        let q = choose|q: int| 0 <= q < v.len() && v[q] == c;
                        assert(w[q] == c);
                    }
                    assert(w[v.len() as int] == list@[i as int]@);
                }
                assert forall|x: int, y: int| 0 <= x < w.len() && 0 <= y < w.len() && x != y implies w[x] != w[y] by {
                    if x < v.len() && y < v.len() {
                    } else if x < v.len() {
                        assert(v.contains(w[x]));
                    } else {
                        assert(v.contains(w[y]));
                    }
                }
            }
            r.push(list[i].clone());
        }
        i = i + 1;
    }
    proof {
        assert(views(list@).subrange(0, list@.len() as int) =~= views(list@));
    }
    r
}

impl Broker {
    /// Drops the in-flight tasks whose replies go out on `t`.
    pub(crate) fn retain_tasks_not_for(&mut self, t: &String)
        ensures
            final(self).tasks@ == tasks_not_for(old(self).tasks@, t@),
            forall|i: int| 0 <= i < final(self).tasks@.len() ==> old(self).tasks@.contains(#[trigger] final(self).tasks@[i]),
            final(self).clients == old(self).clients,
            final(self).topics == old(self).topics,
            final(self).tasks_to_retry == old(self).tasks_to_retry,
            final(self).timeout_as_secs == old(self).timeout_as_secs,
    {
        let ghost orig = self.tasks@;
        let mut rows: Vec<Task> = Vec::new();
        std::mem::swap(&mut rows, &mut self.tasks);
        let mut i: usize = 0;
        let n = rows.len();
        while i < n
            invariant
                n == orig.len(),
                i <= n,
                rows@ == orig.subrange(i as int, n as int),
                self.tasks@ == tasks_not_for(orig.subrange(0, i as int), t@),
                forall|x: int| 0 <= x < self.tasks@.len() ==> orig.contains(#[trigger] self.tasks@[x]),
                self.clients == old(self).clients,
                self.topics == old(self).topics,
                self.tasks_to_retry == old(self).tasks_to_retry,
                self.timeout_as_secs == old(self).timeout_as_secs,
                orig == old(self).tasks@,
            decreases n - i,
        {
            let row = rows.remove(0);
            proof {
                reveal(Seq::filter);
                assert(orig.subrange(0, i as int + 1).drop_last() =~= orig.subrange(0, i as int));
                assert(orig.subrange(0, i as int + 1).last() == row);
                assert(rows@ =~= orig.subrange(i as int + 1, n as int));
                assert(orig[i as int] == row);
            }
            if row.response_topic != *t {
                self.tasks.push(row);
            }
            i = i + 1;
        }
        proof {
            assert(orig.subrange(0, n as int) =~= orig);
        }
    }

    /// Fan-out of a reply on topic `topic_name`. Returns the clients waiting on
    /// it, each once: the reply goes to each of them. Each of them loses one
    /// subscription to the topic for each time the topic lists it as waiting
    /// (one that does not serve the topic loses them all), and client rows
    /// left without a subscription go. The topic's client list is emptied, its row
    /// goes when it has no worker, and the in-flight tasks answered on it are
    /// dropped. A reply on a topic without a row changes nothing.
    pub fn send_response(&mut self, topic_name: &str) -> (r: Vec<String>)
        requires
            old(self).wf(),
        ensures
            final(self).wf(),
            final(self).tasks_to_retry == old(self).tasks_to_retry,
            final(self).timeout_as_secs == old(self).timeout_as_secs,
            !old(self).has_topic(topic_name@) ==> {
                &&& r@.len() == 0
                &&& final(self).clients == old(self).clients
                &&& final(self).topics == old(self).topics
                &&& final(self).tasks == old(self).tasks
            },
            old(self).has_topic(topic_name@) ==> {
                &&& views(r@) == first_seen(old(self).clients_of(topic_name@))
                &&& views(r@).no_duplicates()
                &&& forall|c: Seq<char>| views(r@).contains(c) == old(self).clients_of(topic_name@).contains(c)
                &&& Self::dropped_topic(
                    *old(self),
                    *final(self),
                    topic_name@,
                    old(self).workers_of(topic_name@),
                    old(self).clients_of(topic_name@),
                )
                &&& final(self).tasks@ == tasks_not_for(old(self).tasks@, topic_name@)
                &&& forall|c: Seq<char>|
                    old(self).clients_of(topic_name@).contains(c) ==> #[trigger] occurrences(
                        final(self).subscriptions(c),
                        topic_name@,
                    ) == if old(self).workers_of(topic_name@).contains(c) {
                        let had = occurrences(old(self).subscriptions(c), topic_name@);
                        let listed = occurrences(old(self).clients_of(topic_name@), c);
                        if had >= listed { (had - listed) as nat } else { 0nat }
                    } else {
                        0nat
                    }
            },
    {
        let key = topic_name.to_owned();
        match self.find_topic(&key) {
            None => Vec::new(),
            Some(j) => {
                let ghost a = *self;
                proof {
                    a.lemma_topic_index(j as int);
                }
                let recipients = distinct(&self.topics[j].clients);
                let mut row = self.topics.remove(j);
                let ghost waiting = views(row.clients@);
                self.strip_topic(&key, &row.workers, &row.clients);
                let ghost m = choose|m: Seq<Client>|
                    {
                        &&& m.len() == a.clients@.len()
                        &&& forall|x: int|
                            0 <= x < m.len() ==> stripped_row(a.clients@[x], #[trigger] m[x], key@, views(row.workers@), waiting)
                        &&& self.clients@ == crate::tables::clients_kept(m)
                    };
                if row.workers.len() > 0 {
                    row.clients = Vec::new();
                    self.topics.insert(j, row);
                    proof {
                        assert(self.topics@ =~= a.topics@.update(j as int, row));
                    }
                } else {
                    proof {
                        assert(views(row.workers@).len() == 0);
                    }
                }
                self.retain_tasks_not_for(&key);
                proof {
                    assert forall|i: int| 0 <= i < self.tasks@.len() implies #[trigger] self.tasks@[i].sent
                        && self.tasks@[i].worker_name.is_some() by {
                        let q = choose|q: int| 0 <= q < a.tasks@.len() && a.tasks@[q] == self.tasks@[i];
                        assert(a.tasks@[q].sent);
                    }
                    Self::lemma_drop_topic(a, m, *self, key@, j as int, views(row.workers@), waiting);
                    let t = key@;
                    assert forall|c: Seq<char>|
                        a.clients_of(t).contains(c) implies #[trigger] occurrences(self.subscriptions(c), t)
                        == if a.workers_of(t).contains(c) {
                        let had = occurrences(a.subscriptions(c), t);
                        let listed = occurrences(a.clients_of(t), c);
                        if had >= listed { (had - listed) as nat } else { 0nat }
                    } else {
                        0nat
                    } by {
                        if a.has_client(c) {
                            if a.workers_of(t).contains(c) {
                                lemma_drop_n(a.subscriptions(c), t, occurrences(a.clients_of(t), c));
                            } else {
                                lemma_others_contains(a.subscriptions(c), t, t);
                                lemma_occurrences_absent(others(a.subscriptions(c), t), t);
                            }
                            if !self.has_client(c) {
                                assert(self.subscriptions(c) == Seq::<Seq<char>>::empty());
                                lemma_occurrences_absent(self.subscriptions(c), t);
                                if a.workers_of(t).contains(c) {
                                    let v = drop_n(a.subscriptions(c), t, occurrences(a.clients_of(t), c));
                                    assert(v.len() == 0);
                                    lemma_occurrences_absent(v, t);
                                }
                            }
                        } else {
                            lemma_occurrences_absent(self.subscriptions(c), t);
                            lemma_occurrences_absent(a.subscriptions(c), t);
                        }
                    }
                }
                recipients
            },
        }
    }
}

} // verus!
