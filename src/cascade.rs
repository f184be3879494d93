use vstd::prelude::*;
use crate::tables::{count_of, drop_n, lemma_drop_n, occurrences, without_first, clients_kept, lemma_clients_kept, lemma_others_contains, others, subscribed, views, without, Broker, Client};

verus! {

/// Whether `n` is among the entries of `list`.
pub fn listed(list: &Vec<String>, n: &String) -> (r: bool)
    ensures
        r == views(list@).contains(n@),
{
    let mut i: usize = 0;
    while i < list.len()
        invariant
            i <= list@.len(),
            forall|k: int| 0 <= k < i ==> list@[k]@ != n@,
        decreases list@.len() - i,
    {
        if list[i] == *n {
            proof { assert(views(list@)[i as int] == n@); }
            return true;
        }
        i = i + 1;
    }
    proof {
        assert forall|k: int| 0 <= k < views(list@).len() implies views(list@)[k] != n@ by {
            assert(views(list@)[k] == list@[k]@);
        }
    }
    false
}

/// What remains of the subscriptions `subs` of client `c` once topic `t` is
/// dropped: a client in `spare` loses one `t` for each time `waiting` lists
/// it; any other client loses every `t`.
pub open spec fn left_after_drop(
    subs: Seq<Seq<char>>,
    c: Seq<char>,
    t: Seq<char>,
    spare: Seq<Seq<char>>,
    waiting: Seq<Seq<char>>,
) -> Seq<Seq<char>> {
    if spare.contains(c) {
        drop_n(subs, t, occurrences(waiting, c))
    } else {
        others(subs, t)
    }
}

/// Row `n` is row `o` with its subscriptions to `t` reduced as `left_after_drop` says.
pub open spec fn stripped_row(o: Client, n: Client, t: Seq<char>, spare: Seq<Seq<char>>, waiting: Seq<Seq<char>>) -> bool {
    &&& n.name == o.name
    &&& n.is_worker == o.is_worker
    &&& views(n.topics@) == left_after_drop(views(o.topics@), o.name@, t, spare, waiting)
}

impl Broker {
    /// Reduces every client's subscriptions to topic `t` as
    /// `left_after_drop` says, then drops the client rows left without a
    /// subscription.
    pub(crate) fn strip_topic(&mut self, t: &String, spare: &Vec<String>, waiting: &Vec<String>)
        ensures
            exists|m: Seq<Client>|
                {
                    &&& m.len() == old(self).clients@.len()
                    &&& forall|x: int|
                        0 <= x < m.len() ==> stripped_row(old(self).clients@[x], #[trigger] m[x], t@, views(spare@), views(waiting@))
                    &&& final(self).clients@ == clients_kept(m)
                },
            final(self).topics == old(self).topics,
            final(self).tasks == old(self).tasks,
            final(self).tasks_to_retry == old(self).tasks_to_retry,
            final(self).timeout_as_secs == old(self).timeout_as_secs,
    {
        let mut i: usize = 0;
        while i < self.clients.len()
            invariant
                i <= self.clients@.len(),
                self.clients@.len() == old(self).clients@.len(),
                forall|x: int| 0 <= x < i ==> stripped_row(old(self).clients@[x], #[trigger] self.clients@[x], t@, views(spare@), views(waiting@)),
                forall|x: int| i <= x < self.clients@.len() ==> #[trigger] self.clients@[x] == old(self).clients@[x],
                self.topics == old(self).topics,
                self.tasks == old(self).tasks,
                self.tasks_to_retry == old(self).tasks_to_retry,
                self.timeout_as_secs == old(self).timeout_as_secs,
            decreases self.clients@.len() - i,
        {
            let ghost before = self.clients@;
            let mut row = self.clients.remove(i);
            if listed(spare, &row.name) {
                let k = count_of(waiting, &row.name);
                row.topics = without_first(&row.topics, t, k);
            } else {
                row.topics = without(&row.topics, t);
            }
            self.clients.insert(i, row);
            proof {
                assert(self.clients@ =~= before.update(i as int, row));
            }
            i = i + 1;
        }
        let ghost m = self.clients@;
        self.retain_subscribed_clients();
        proof {
            assert(forall|x: int| 0 <= x < m.len() ==> stripped_row(old(self).clients@[x], #[trigger] m[x], t@, views(spare@), views(waiting@)));
        }
    }

    /// The tables after dropping topic `t`: its clients are released and,
    /// unless `spare` holds its workers, so are they and its row. Each
    /// client's subscriptions to `t` shrink as `left_after_drop` says;
    /// clients left with nothing go.
    pub open spec fn dropped_topic(a: Broker, b: Broker, t: Seq<char>, spare: Seq<Seq<char>>, waiting: Seq<Seq<char>>) -> bool {
        &&& forall|u: Seq<char>|
            #![trigger b.workers_of(u)]
            #![trigger b.clients_of(u)]
            #![trigger b.has_topic(u)]
            #![trigger b.cursor_of(u)]
            u != t ==> b.workers_of(u) == a.workers_of(u) && b.clients_of(u) == a.clients_of(u) && b.has_topic(u)
                == a.has_topic(u) && b.cursor_of(u) == a.cursor_of(u)
        &&& b.has_topic(t) == (spare.len() > 0)
        &&& b.workers_of(t) == spare
        &&& b.clients_of(t).len() == 0
        &&& spare.len() > 0 ==> b.cursor_of(t) == a.cursor_of(t)
        &&& forall|c: Seq<char>|
            #![trigger b.has_client(c)]
            #![trigger b.subscriptions(c)]
            #![trigger b.is_worker_of(c)]
            {
                &&& b.has_client(c) == (a.has_client(c) && left_after_drop(a.subscriptions(c), c, t, spare, waiting).len() > 0)
                &&& b.subscriptions(c) == if a.has_client(c) {
                    left_after_drop(a.subscriptions(c), c, t, spare, waiting)
                } else {
                    Seq::empty()
                }
                &&& b.is_worker_of(c) == (a.is_worker_of(c) && b.has_client(c))
            }
    }

    pub proof fn lemma_drop_topic(
        a: Broker,
        m: Seq<Client>,
        b: Broker,
        t: Seq<char>,
        j: int,
        spare: Seq<Seq<char>>,
        waiting: Seq<Seq<char>>,
    )
        requires
            a.wf(),
            0 <= j < a.topics@.len(),
            a.topics@[j].name@ == t,
            spare == views(a.topics@[j].workers@) || spare.len() == 0,
            m.len() == a.clients@.len(),
            forall|x: int| 0 <= x < m.len() ==> stripped_row(a.clients@[x], #[trigger] m[x], t, spare, waiting),
            b.clients@ == clients_kept(m),
            spare.len() > 0 ==> b.topics@ == a.topics@.update(j, b.topics@[j]) && b.topics@[j].name
                == a.topics@[j].name && b.topics@[j].workers == a.topics@[j].workers
                && b.topics@[j].next_worker_index == a.topics@[j].next_worker_index && b.topics@[j].clients@.len() == 0,
            spare.len() == 0 ==> b.topics@ == a.topics@.remove(j),
            b.tasks_assigned(),
        ensures
            b.wf(),
            Self::dropped_topic(a, b, t, spare, waiting),
    {
        reveal(Seq::filter);
        a.lemma_topic_index(j);
        // topic rows: index map from b to a
        let tmap = |z: int| if spare.len() == 0 && z >= j { z + 1 } else { z };
        assert forall|z: int| 0 <= z < b.topics@.len() && tmap(z) != j implies 0 <= tmap(z) < a.topics@.len()
            && #[trigger] b.topics@[z] == a.topics@[tmap(z)] by {
        }
        // client rows of m keep unique names
        assert forall|x: int, y: int|
            0 <= x < m.len() && 0 <= y < m.len() && x != y implies #[trigger] m[x].name@ != #[trigger] m[y].name@ by {
            assert(a.clients@[x].name@ != a.clients@[y].name@);
        }
        lemma_clients_kept(m);
        assert forall|x: int| 0 <= x < m.len() implies views(m[x].topics@) == left_after_drop(
            a.subscriptions(a.clients@[x].name@), a.clients@[x].name@, t, spare, waiting) && #[trigger] m[x].name == a.clients@[x].name by {
            a.lemma_client_index(x);
        }
        // unique names
        assert forall|x: int, y: int|
            0 <= x < b.topics@.len() && 0 <= y < b.topics@.len() && x != y
                implies #[trigger] b.topics@[x].name@ != #[trigger] b.topics@[y].name@ by {
            assert(a.topics@[tmap(x)].name@ != a.topics@[tmap(y)].name@);
        }
        assert(b.unique_names());
        assert forall|x: int| 0 <= x < b.clients@.len() implies #[trigger] b.clients@[x].topics@.len() > 0 by {
            assert(subscribed(clients_kept(m)[x]));
        }
        assert forall|z: int| 0 <= z < b.topics@.len() implies #[trigger] b.topics@[z].workers@.len() > 0
            || b.topics@[z].clients@.len() > 0 by {
            if tmap(z) == j {
                assert(views(b.topics@[z].workers@) == spare);
            } else {
                assert(a.topics@[tmap(z)].workers@.len() > 0 || a.topics@[tmap(z)].clients@.len() > 0);
            }
        }
        // mirrored
        assert forall|x: int, k: int|
            0 <= x < b.clients@.len() && 0 <= k < b.clients@[x].topics@.len() implies b.mirrored(
            b.clients@[x].name@,
            #[trigger] b.clients@[x].topics@[k]@,
        ) by {
            let row = b.clients@[x];
            assert(m.contains(row));
            let mx = choose|mx: int| 0 <= mx < m.len() && m[mx] == row;
            let d = row.name@;
            let u = row.topics@[k]@;
            assert(views(row.topics@)[k] == u);
            let sub = views(a.clients@[mx].topics@);
            assert(views(row.topics@).contains(u));
            assert(sub.contains(u)) by {
                assert(stripped_row(a.clients@[mx], m[mx], t, spare, waiting));
                if spare.contains(d) {
                    lemma_drop_n(sub, t, occurrences(waiting, d));
                    assert(drop_n(sub, t, occurrences(waiting, d)).contains(u));
                } else {
                    assert(views(row.topics@) == others(sub, t));
                    lemma_others_contains(sub, t, u);
                }
            }
            let q = choose|q: int| 0 <= q < sub.len() && sub[q] == u;
            assert(a.clients@[mx].topics@[q]@ == u);
            assert(a.mirrored(d, u));
            let y = choose|y: int|
                0 <= y < a.topics@.len() && #[trigger] a.topics@[y].name@ == u && (views(
                    a.topics@[y].workers@,
                ).contains(d) || views(a.topics@[y].clients@).contains(d));
            if y == j {
                // d keeps t only when it is spared, and then it serves t
                assert(u == t);
                if !spare.contains(d) {
                    lemma_others_contains(sub, t, u);
                }
                assert(spare.contains(d));
                assert(spare.len() > 0);
                assert(b.topics@[j].name@ == u);
                assert(views(b.topics@[j].workers@) == spare);
            } else {
                let z = if spare.len() == 0 && y > j { y - 1 } else { y };
                assert(b.topics@[z] == a.topics@[y]);
                assert(b.topics@[z].name@ == u);
            }
        }
        assert(b.wf());
        // topic accessors
        if spare.len() > 0 {
            b.lemma_topic_index(j);
        } else {
            if b.has_topic(t) {
                let z = choose|z: int| 0 <= z < b.topics@.len() && #[trigger] b.topics@[z].name@ == t;
                assert(a.topics@[tmap(z)].name@ == t);
                assert(a.topics@[j].name@ != a.topics@[tmap(z)].name@);
            }
            assert(b.workers_of(t) =~= spare);
            assert(b.clients_of(t) =~= Seq::<Seq<char>>::empty());
        }
        assert forall|u: Seq<char>|
            #![trigger b.workers_of(u)]
            #![trigger b.clients_of(u)]
            #![trigger b.has_topic(u)]
            #![trigger b.cursor_of(u)]
            u != t implies b.workers_of(u) == a.workers_of(u) && b.clients_of(u) == a.clients_of(u) && b.has_topic(u)
                == a.has_topic(u) && b.cursor_of(u) == a.cursor_of(u) by {
            if a.has_topic(u) {
                let y = choose|y: int| 0 <= y < a.topics@.len() && #[trigger] a.topics@[y].name@ == u;
                let z = if spare.len() == 0 && y > j { y - 1 } else { y };
                a.lemma_topic_index(y);
                assert(b.topics@[z] == a.topics@[y]);
                b.lemma_topic_index(z);
            }
            if b.has_topic(u) {
                let z = choose|z: int| 0 <= z < b.topics@.len() && #[trigger] b.topics@[z].name@ == u;
                if tmap(z) == j {
                    assert(b.topics@[z].name@ == t);
                }
                assert(a.topics@[tmap(z)].name@ == u);
            }
        }
        // client accessors
        assert forall|c: Seq<char>|
            #![trigger b.has_client(c)]
            #![trigger b.subscriptions(c)]
            #![trigger b.is_worker_of(c)]
            {
                &&& b.has_client(c) == (a.has_client(c) && left_after_drop(a.subscriptions(c), c, t, spare, waiting).len() > 0)
                &&& b.subscriptions(c) == if a.has_client(c) {
                    left_after_drop(a.subscriptions(c), c, t, spare, waiting)
                } else {
                    Seq::empty()
                }
                &&& b.is_worker_of(c) == (a.is_worker_of(c) && b.has_client(c))
            } by {
            if a.has_client(c) {
                let x = choose|x: int| 0 <= x < a.clients@.len() && #[trigger] a.clients@[x].name@ == c;
                a.lemma_client_index(x);
                assert(m[x].name@ == c);
                if subscribed(m[x]) {
                    assert(clients_kept(m).contains(m[x]));
                    let z = choose|z: int| 0 <= z < b.clients@.len() && b.clients@[z] == m[x];
                    b.lemma_client_index(z);
                    assert(views(m[x].topics@).len() > 0);
                } else {
                    if b.has_client(c) {
                        let z = choose|z: int| 0 <= z < b.clients@.len() && #[trigger] b.clients@[z].name@ == c;
                        assert(m.contains(b.clients@[z]));
                        let x2 = choose|x2: int| 0 <= x2 < m.len() && m[x2] == b.clients@[z];
                        assert(m[x2].name@ == a.clients@[x2].name@);
                        assert(x2 == x);
                        assert(subscribed(clients_kept(m)[z]));
                    }
                    assert(views(m[x].topics@).len() == 0);
                    assert(left_after_drop(a.subscriptions(c), c, t, spare, waiting) =~= Seq::<Seq<char>>::empty());
                }
            } else {
                if b.has_client(c) {
                    let z = choose|z: int| 0 <= z < b.clients@.len() && #[trigger] b.clients@[z].name@ == c;
                    assert(m.contains(b.clients@[z]));
                    let x2 = choose|x2: int| 0 <= x2 < m.len() && m[x2] == b.clients@[z];
                    assert(a.clients@[x2].name@ == c);
                }
            }
        }
    }
}

} // verus!
