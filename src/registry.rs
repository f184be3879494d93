use vstd::prelude::*;
use crate::tables::{clients_kept, in_use, lemma_topics_kept, lemma_views_push, others, subscribed, topics_kept, views, without, Broker, Client, Topic};

verus! {

/// The slot that round-robin selection hands out from `cursor` among `n` workers.
pub open spec fn pick_index(cursor: int, n: int) -> int {
    if cursor < n {
        cursor
    } else {
        0
    }
}

/// A cursor brought back within `0..=n` after the worker list shrank to `n`.
pub open spec fn clamped(cursor: int, n: int) -> int {
    if cursor <= n {
        cursor
    } else {
        n
    }
}

/// The cursor after a round-robin selection from `cursor` among `n` workers;
/// with no worker there is no selection and the cursor stays.
pub open spec fn cursor_after(cursor: int, n: int) -> int {
    if n == 0 {
        cursor
    } else if cursor < n {
        cursor + 1
    } else {
        1
    }
}

impl Broker {
    /// Position of the client row named `name`.
    pub fn find_client(&self, name: &String) -> (r: Option<usize>)
        ensures
            match r {
                Some(i) => i < self.clients@.len() && self.clients@[i as int].name@ == name@,
                None => !self.has_client(name@),
            },
    {
        let mut i: usize = 0;
        while i < self.clients.len()
            invariant
                i <= self.clients@.len(),
                forall|k: int| 0 <= k < i ==> self.clients@[k].name@ != name@,
            decreases self.clients@.len() - i,
        {
            if self.clients[i].name == *name {
                return Some(i);
            }
            i = i + 1;
        }
        None
    }

    /// The tables after registering `c` on `t` as a worker or as a client.
    pub open spec fn registered(a: Broker, b: Broker, is_worker: bool, c: Seq<char>, t: Seq<char>) -> bool {
        &&& b.tasks == a.tasks
        &&& b.tasks_to_retry == a.tasks_to_retry
        &&& b.timeout_as_secs == a.timeout_as_secs
        &&& b.subscriptions(c) == a.subscriptions(c).push(t)
        &&& forall|d: Seq<char>| d != c ==> b.subscriptions(d) == a.subscriptions(d)
        &&& forall|d: Seq<char>| #[trigger] b.has_client(d) == (a.has_client(d) || d == c)
        &&& forall|d: Seq<char>|
            #[trigger] b.is_worker_of(d) == if a.has_client(d) {
                a.is_worker_of(d)
            } else {
                d == c && is_worker
            }
        &&& forall|u: Seq<char>| #[trigger] b.has_topic(u) == (a.has_topic(u) || u == t)
        &&& b.workers_of(t) == if is_worker { a.workers_of(t).push(c) } else { a.workers_of(t) }
        &&& b.clients_of(t) == if is_worker { a.clients_of(t) } else { a.clients_of(t).push(c) }
        &&& forall|u: Seq<char>|
            u != t ==> b.workers_of(u) == a.workers_of(u) && b.clients_of(u) == a.clients_of(u)
        &&& forall|u: Seq<char>| #[trigger] b.cursor_of(u) == a.cursor_of(u)
    }

    /// The tables after evicting `w`.
    pub open spec fn evicted(a: Broker, b: Broker, w: Seq<char>) -> bool {
        &&& b.tasks == a.tasks
        &&& b.tasks_to_retry == a.tasks_to_retry
        &&& b.timeout_as_secs == a.timeout_as_secs
        &&& forall|c: Seq<char>| #[trigger] b.has_client(c) == (a.has_client(c) && c != w)
        &&& forall|c: Seq<char>|
            c != w ==> b.subscriptions(c) == a.subscriptions(c) && #[trigger] b.is_worker_of(c)
                == a.is_worker_of(c)
        &&& forall|u: Seq<char>|
            #[trigger] b.workers_of(u) == others(a.workers_of(u), w) && b.clients_of(u) == others(
                a.clients_of(u),
                w,
            )
        &&& forall|u: Seq<char>|
            #[trigger] b.has_topic(u) == (a.has_topic(u) && (others(a.workers_of(u), w).len() > 0
                || others(a.clients_of(u), w).len() > 0))
        &&& forall|u: Seq<char>| b.has_topic(u) ==> #[trigger] b.cursor_of(u) == clamped(a.cursor_of(u), b.workers_of(u).len() as int)
    }

    /// Topic rows hold the same names, workers and clients.
    pub open spec fn same_topic_lists(a: Seq<Topic>, b: Seq<Topic>) -> bool {
        &&& a.len() == b.len()
        &&& forall|j: int|
            0 <= j < a.len() ==> (#[trigger] a[j]).name == b[j].name && a[j].workers == b[j].workers
                && a[j].clients == b[j].clients
    }

    pub proof fn lemma_same_topic_lists(a: &Broker, b: &Broker)
        requires
            a.wf(),
            Self::same_topic_lists(a.topics@, b.topics@),
            b.cursors_in_range(),
            a.clients == b.clients,
            a.tasks == b.tasks,
            a.tasks_to_retry == b.tasks_to_retry,
        ensures
            b.wf(),
            forall|t: Seq<char>| a.has_topic(t) == b.has_topic(t),
    {
        assert forall|t: Seq<char>| a.has_topic(t) == b.has_topic(t) by {
            if a.has_topic(t) {
                let j = choose|j: int| 0 <= j < a.topics@.len() && #[trigger] a.topics@[j].name@ == t;
                assert(b.topics@[j].name@ == t);
            }
            if b.has_topic(t) {
                let j = choose|j: int| 0 <= j < b.topics@.len() && #[trigger] b.topics@[j].name@ == t;
                assert(a.topics@[j].name@ == t);
            }
        }
        assert forall|i: int, k: int|
            0 <= i < b.clients@.len() && 0 <= k < b.clients@[i].topics@.len() implies b.mirrored(
            b.clients@[i].name@,
            #[trigger] b.clients@[i].topics@[k]@,
        ) by {
            let c = a.clients@[i].name@;
            let t = a.clients@[i].topics@[k]@;
            assert(a.mirrored(c, t));
            let j = choose|j: int|
                0 <= j < a.topics@.len() && #[trigger] a.topics@[j].name@ == t && (views(
                    a.topics@[j].workers@,
                ).contains(c) || views(a.topics@[j].clients@).contains(c));
            assert(b.topics@[j].name@ == t);
        }
        assert forall|j: int| 0 <= j < b.topics@.len() implies #[trigger] b.topics@[j].workers@.len() > 0
            || b.topics@[j].clients@.len() > 0 by {
            assert(a.topics@[j].workers == b.topics@[j].workers);
            assert(a.topics@[j].workers@.len() > 0 || a.topics@[j].clients@.len() > 0);
        }
        assert forall|i: int, j: int|
            0 <= i < b.topics@.len() && 0 <= j < b.topics@.len() && i != j
                implies #[trigger] b.topics@[i].name@ != #[trigger] b.topics@[j].name@ by {
            assert(a.topics@[i].name@ != a.topics@[j].name@);
        }
    }

    /// Position of the topic row named `name`.
    pub fn find_topic(&self, name: &String) -> (r: Option<usize>)
        ensures
            match r {
                Some(j) => j < self.topics@.len() && self.topics@[j as int].name@ == name@,
                None => !self.has_topic(name@),
            },
    {
        let mut j: usize = 0;
        while j < self.topics.len()
            invariant
                j <= self.topics@.len(),
                forall|k: int| 0 <= k < j ==> self.topics@[k].name@ != name@,
            decreases self.topics@.len() - j,
        {
            if self.topics[j].name == *name {
                return Some(j);
            }
            j = j + 1;
        }
        None
    }

    /// Round-robin selection of a worker of `topic_name`: the worker at the
    /// cursor, or the first one when the cursor has run past the end. The
    /// cursor moves past the slot handed out.
    pub fn get_next_worker_name(&mut self, topic_name: &str) -> (r: Option<String>)
        requires
            old(self).wf(),
        ensures
            final(self).wf(),
            final(self).clients == old(self).clients,
            final(self).tasks == old(self).tasks,
            final(self).tasks_to_retry == old(self).tasks_to_retry,
            final(self).timeout_as_secs == old(self).timeout_as_secs,
            !old(self).has_topic(topic_name@) ==> r.is_none() && final(self).topics == old(self).topics,
            old(self).has_topic(topic_name@) ==> ({
                let j = old(self).topic_index(topic_name@);
                let row = old(self).topics@[j];
                let n = row.workers@.len() as int;
                &&& final(self).topics@ == old(self).topics@.update(j, final(self).topics@[j])
                &&& final(self).topics@[j].name == row.name
                &&& final(self).topics@[j].workers == row.workers
                &&& final(self).topics@[j].clients == row.clients
                &&& final(self).topics@[j].next_worker_index == cursor_after(row.next_worker_index as int, n)
                &&& n == 0 ==> final(self).topics@[j].next_worker_index == row.next_worker_index
                &&& match r {
                    None => n == 0,
                    Some(w) => n > 0 && w@ == row.workers@[pick_index(row.next_worker_index as int, n)]@,
                }
            }),
    {
        let key = topic_name.to_owned();
        let found = self.find_topic(&key);
        match found {
            None => None,
            Some(j) => {
                proof {
                    self.lemma_topic_index(j as int);
                }
                let ghost before = *self;
                let mut row = self.topics.remove(j);
                let r = if row.next_worker_index < row.workers.len() {
                    let w = row.workers[row.next_worker_index].clone();
                    row.next_worker_index = row.next_worker_index + 1;
                    Some(w)
                } else if row.workers.len() > 0 {
                    row.next_worker_index = 1;
                    Some(row.workers[0].clone())
                } else {
                    None
                };
                self.topics.insert(j, row);
                proof {
                    assert(self.topics@ =~= before.topics@.update(j as int, row));
                    assert forall|x: int| 0 <= x < self.topics@.len() implies (#[trigger] self.topics@[x]).next_worker_index
                        <= self.topics@[x].workers@.len() by {
                        if x != j {
                            assert(self.topics@[x] == before.topics@[x]);
                        }
                    }
                    Self::lemma_same_topic_lists(&before, self);
                }
                r
            },
        }
    }

    /// Registers `identity` on `topic_name`: the topic is appended to the
    /// client's subscriptions (the client row is made if missing), and the
    /// identity to the topic's worker or client list (the topic row is made if
    /// missing). Repeated registrations accumulate.
    pub fn add_client(&mut self, is_worker: bool, identity: &str, topic_name: &str)
        requires
            old(self).wf(),
        ensures
            final(self).wf(),
            Self::registered(*old(self), *final(self), is_worker, identity@, topic_name@),
    {
        let ghost before = *self;
        let id = identity.to_owned();
        let key = topic_name.to_owned();
        let ci = self.find_client(&id);
        let ghost ci_pos: int;
        match ci {
            Some(i) => {
                let mut row = self.clients.remove(i);
                proof { lemma_views_push(row.topics@, key); }
                row.topics.push(key.clone());
                self.clients.insert(i, row);
                proof {
                    ci_pos = i as int;
                    assert(self.clients@ =~= before.clients@.update(i as int, row));
                }
            },
            None => {
                let mut row = Client::new(identity, is_worker);
                proof { assert(views(row.topics@) =~= Seq::<Seq<char>>::empty()); }
                proof { lemma_views_push(row.topics@, key); }
                row.topics.push(key.clone());
                self.clients.push(row);
                proof {
                    ci_pos = before.clients@.len() as int;
                    assert(self.clients@.drop_last() =~= before.clients@);
                }
            },
        }
        let ghost mid = *self;
        let tj = self.find_topic(&key);
        let ghost tj_pos: int;
        match tj {
            Some(j) => {
                let mut row = self.topics.remove(j);
                if is_worker {
                    proof { lemma_views_push(row.workers@, id); }
                    row.workers.push(id);
                } else {
                    proof { lemma_views_push(row.clients@, id); }
                    row.clients.push(id);
                }
                self.topics.insert(j, row);
                proof {
                    tj_pos = j as int;
                    assert(self.topics@ =~= before.topics@.update(j as int, row));
                }
            },
            None => {
                let mut row = Topic::new(topic_name);
                proof {
                    assert(views(row.workers@) =~= Seq::<Seq<char>>::empty());
                    assert(views(row.clients@) =~= Seq::<Seq<char>>::empty());
                }
                if is_worker {
                    proof { lemma_views_push(row.workers@, id); }
                    row.workers.push(id);
                } else {
                    proof { lemma_views_push(row.clients@, id); }
                    row.clients.push(id);
                }
                self.topics.push(row);
                proof {
                    tj_pos = before.topics@.len() as int;
                    assert(self.topics@.drop_last() =~= before.topics@);
                }
            },
        }
        proof {
            Self::lemma_add_client(before, *self, is_worker, identity@, topic_name@, ci_pos, tj_pos);
        }
    }

    proof fn lemma_add_client(
        a: Broker,
        b: Broker,
        is_worker: bool,
        c: Seq<char>,
        t: Seq<char>,
        i: int,
        j: int,
    )
        requires
            a.wf(),
            a.tasks == b.tasks,
            a.tasks_to_retry == b.tasks_to_retry,
            0 <= i <= a.clients@.len(),
            i == a.clients@.len() ==> !a.has_client(c) && b.clients@.len() == a.clients@.len() + 1
                && b.clients@.drop_last() == a.clients@ && b.clients@[i].is_worker == is_worker,
            i < a.clients@.len() ==> a.clients@[i].name@ == c && b.clients@.len() == a.clients@.len()
                && b.clients@ == a.clients@.update(i, b.clients@[i]) && b.clients@[i].is_worker
                == a.clients@[i].is_worker,
            b.clients@[i].name@ == c,
            views(b.clients@[i].topics@) == (if i < a.clients@.len() {
                views(a.clients@[i].topics@)
            } else {
                Seq::empty()
            }).push(t),
            0 <= j <= a.topics@.len(),
            j == a.topics@.len() ==> !a.has_topic(t) && b.topics@.len() == a.topics@.len() + 1
                && b.topics@.drop_last() == a.topics@,
            j < a.topics@.len() ==> a.topics@[j].name@ == t && b.topics@.len() == a.topics@.len()
                && b.topics@ == a.topics@.update(j, b.topics@[j]),
            b.topics@[j].name@ == t,
            b.topics@[j].next_worker_index == if j < a.topics@.len() { a.topics@[j].next_worker_index } else { 0 },
            views(b.topics@[j].workers@) == if is_worker {
                (if j < a.topics@.len() { views(a.topics@[j].workers@) } else { Seq::empty() }).push(c)
            } else {
                if j < a.topics@.len() { views(a.topics@[j].workers@) } else { Seq::empty() }
            },
            views(b.topics@[j].clients@) == if !is_worker {
                (if j < a.topics@.len() { views(a.topics@[j].clients@) } else { Seq::empty() }).push(c)
            } else {
                if j < a.topics@.len() { views(a.topics@[j].clients@) } else { Seq::empty() }
            },
        ensures
            b.wf(),
            b.subscriptions(c) == a.subscriptions(c).push(t),
            forall|d: Seq<char>| d != c ==> b.subscriptions(d) == a.subscriptions(d),
            forall|d: Seq<char>| #[trigger] b.has_client(d) == (a.has_client(d) || d == c),
            forall|d: Seq<char>|
                #[trigger] b.is_worker_of(d) == if a.has_client(d) {
                    a.is_worker_of(d)
                } else {
                    d == c && is_worker
                },
            forall|u: Seq<char>| #[trigger] b.has_topic(u) == (a.has_topic(u) || u == t),
            b.workers_of(t) == if is_worker { a.workers_of(t).push(c) } else { a.workers_of(t) },
            b.clients_of(t) == if is_worker { a.clients_of(t) } else { a.clients_of(t).push(c) },
            forall|u: Seq<char>|
                u != t ==> b.workers_of(u) == a.workers_of(u) && b.clients_of(u) == a.clients_of(u),
            forall|u: Seq<char>| #[trigger] b.cursor_of(u) == a.cursor_of(u),
    {
        // rows other than i and j are untouched
        assert forall|k: int| 0 <= k < a.clients@.len() && k != i implies #[trigger] b.clients@[k] == a.clients@[k] by {
            if i == a.clients@.len() {
                assert(b.clients@.drop_last()[k] == a.clients@[k]);
            }
        }
        assert forall|k: int| 0 <= k < a.topics@.len() && k != j implies #[trigger] b.topics@[k] == a.topics@[k] by {
            if j == a.topics@.len() {
                assert(b.topics@.drop_last()[k] == a.topics@[k]);
            }
        }
        // unique names
        assert forall|x: int, y: int|
            0 <= x < b.clients@.len() && 0 <= y < b.clients@.len() && x != y
                implies #[trigger] b.clients@[x].name@ != #[trigger] b.clients@[y].name@ by {
            if x == i && i == a.clients@.len() {
                assert(a.clients@[y].name@ == b.clients@[y].name@);
            } else if y == i && i == a.clients@.len() {
                assert(a.clients@[x].name@ == b.clients@[x].name@);
            } else {
                assert(a.clients@[x].name@ != a.clients@[y].name@);
            }
        }
        assert forall|x: int, y: int|
            0 <= x < b.topics@.len() && 0 <= y < b.topics@.len() && x != y
                implies #[trigger] b.topics@[x].name@ != #[trigger] b.topics@[y].name@ by {
            if x == j && j == a.topics@.len() {
                assert(a.topics@[y].name@ == b.topics@[y].name@);
            } else if y == j && j == a.topics@.len() {
                assert(a.topics@[x].name@ == b.topics@[x].name@);
            } else {
                assert(a.topics@[x].name@ != a.topics@[y].name@);
            }
        }
        assert(b.unique_names());
        // subscribed, in use
        assert forall|x: int| 0 <= x < b.clients@.len() implies #[trigger] b.clients@[x].topics@.len() > 0 by {
            if x == i {
                assert(views(b.clients@[i].topics@).len() > 0);
            } else {
                assert(a.clients@[x].topics@.len() > 0);
            }
        }
        assert forall|y: int| 0 <= y < b.topics@.len() implies #[trigger] b.topics@[y].workers@.len() > 0
            || b.topics@[y].clients@.len() > 0 by {
            if y == j {
                if is_worker {
                    assert(views(b.topics@[j].workers@).len() > 0);
                } else {
                    assert(views(b.topics@[j].clients@).len() > 0);
                }
            } else {
                assert(a.topics@[y].workers@.len() > 0 || a.topics@[y].clients@.len() > 0);
            }
        }
        // a listing in row j stays listed
        assert forall|d: Seq<char>|
            j < a.topics@.len() && views(a.topics@[j].workers@).contains(d) implies views(
            b.topics@[j].workers@,
        ).contains(d) by {
            let q = choose|q: int| 0 <= q < views(a.topics@[j].workers@).len() && views(a.topics@[j].workers@)[q] == d;
            assert(views(b.topics@[j].workers@)[q] == d);
        }
        assert forall|d: Seq<char>|
            j < a.topics@.len() && views(a.topics@[j].clients@).contains(d) implies views(
            b.topics@[j].clients@,
        ).contains(d) by {
            let q = choose|q: int| 0 <= q < views(a.topics@[j].clients@).len() && views(a.topics@[j].clients@)[q] == d;
            assert(views(b.topics@[j].clients@)[q] == d);
        }
        // mirrored
        assert forall|x: int, k: int|
            0 <= x < b.clients@.len() && 0 <= k < b.clients@[x].topics@.len() implies b.mirrored(
            b.clients@[x].name@,
            #[trigger] b.clients@[x].topics@[k]@,
        ) by {
            let d = b.clients@[x].name@;
            let u = b.clients@[x].topics@[k]@;
            assert(views(b.clients@[x].topics@)[k] == u);
            assert(views(b.clients@[i].topics@).len() == b.clients@[i].topics@.len());
            if i < a.clients@.len() {
                assert(views(a.clients@[i].topics@).len() == a.clients@[i].topics@.len());
            }
            if x == i && k == b.clients@[x].topics@.len() - 1 {
                assert(views(b.clients@[i].topics@)[k] == u);
                assert(u == t);
                if is_worker {
                    assert(views(b.topics@[j].workers@).last() == c);
                    assert(views(b.topics@[j].workers@).contains(c));
                } else {
                    assert(views(b.topics@[j].clients@).last() == c);
                    assert(views(b.topics@[j].clients@).contains(c));
                }
                assert(b.topics@[j].name@ == u);
            } else {
                assert(x < a.clients@.len());
                if x == i {
                    assert(k < a.clients@[i].topics@.len());
                    assert(views(b.clients@[i].topics@)[k] == views(a.clients@[i].topics@)[k]);
                    assert(a.clients@[x].topics@[k]@ == u);
                } else {
                    assert(b.clients@[x] == a.clients@[x]);
                }
                assert(a.clients@[x].name@ == d);
                assert(a.mirrored(d, a.clients@[x].topics@[k]@));
                let y = choose|y: int|
                    0 <= y < a.topics@.len() && #[trigger] a.topics@[y].name@ == u && (views(
                        a.topics@[y].workers@,
                    ).contains(d) || views(a.topics@[y].clients@).contains(d));
                if y != j {
                    assert(b.topics@[y] == a.topics@[y]);
                }
                assert(b.topics@[y].name@ == u);
            }
        }
        assert(b.tasks_assigned());
        assert(b.wf());
        // accessors
        b.lemma_client_index(i);
        b.lemma_topic_index(j);
        if i < a.clients@.len() {
            a.lemma_client_index(i);
        }
        if j < a.topics@.len() {
            a.lemma_topic_index(j);
        }
        assert forall|d: Seq<char>| #[trigger] b.has_client(d) == (a.has_client(d) || d == c) by {
            if a.has_client(d) {
                let x = choose|x: int| 0 <= x < a.clients@.len() && #[trigger] a.clients@[x].name@ == d;
                if x != i {
                    assert(b.clients@[x] == a.clients@[x]);
                }
                assert(b.clients@[x].name@ == d);
            }
            if b.has_client(d) && d != c {
                let x = choose|x: int| 0 <= x < b.clients@.len() && #[trigger] b.clients@[x].name@ == d;
                assert(x != i);
                assert(b.clients@[x] == a.clients@[x]);
                assert(a.clients@[x].name@ == d);
            }
        }
        assert forall|d: Seq<char>| d != c implies b.subscriptions(d) == a.subscriptions(d)
            && #[trigger] b.is_worker_of(d) == a.is_worker_of(d) by {
            if a.has_client(d) {
                let x = choose|x: int| 0 <= x < a.clients@.len() && #[trigger] a.clients@[x].name@ == d;
                assert(x != i);
                assert(b.clients@[x] == a.clients@[x]);
                a.lemma_client_index(x);
                b.lemma_client_index(x);
            }
        }
        assert forall|d: Seq<char>|
            #[trigger] b.is_worker_of(d) == if a.has_client(d) {
                a.is_worker_of(d)
            } else {
                d == c && is_worker
            } by {
            if d != c {
                assert(b.is_worker_of(d) == a.is_worker_of(d));
            }
        }
        assert forall|u: Seq<char>| #[trigger] b.has_topic(u) == (a.has_topic(u) || u == t) by {
            if a.has_topic(u) {
                let y = choose|y: int| 0 <= y < a.topics@.len() && #[trigger] a.topics@[y].name@ == u;
                if y != j {
                    assert(b.topics@[y] == a.topics@[y]);
                }
                assert(b.topics@[y].name@ == u);
            }
            if b.has_topic(u) && u != t {
                let y = choose|y: int| 0 <= y < b.topics@.len() && #[trigger] b.topics@[y].name@ == u;
                assert(y != j);
                assert(b.topics@[y] == a.topics@[y]);
                assert(a.topics@[y].name@ == u);
            }
        }
        assert forall|u: Seq<char>|
            u != t implies b.workers_of(u) == a.workers_of(u) && b.clients_of(u) == a.clients_of(u) by {
            if a.has_topic(u) {
                let y = choose|y: int| 0 <= y < a.topics@.len() && #[trigger] a.topics@[y].name@ == u;
                assert(y != j);
                assert(b.topics@[y] == a.topics@[y]);
                a.lemma_topic_index(y);
                b.lemma_topic_index(y);
            } else {
                assert(!b.has_topic(u));
            }
        }
        assert forall|u: Seq<char>| #[trigger] b.cursor_of(u) == a.cursor_of(u) by {
            if a.has_topic(u) {
                let y = choose|y: int| 0 <= y < a.topics@.len() && #[trigger] a.topics@[y].name@ == u;
                a.lemma_topic_index(y);
                if y != j {
                    assert(b.topics@[y] == a.topics@[y]);
                }
                b.lemma_topic_index(y);
            } else if u == t {
                b.lemma_topic_index(j);
            } else {
                assert(!b.has_topic(u));
            }
        }
    }

    /// Drops the topic rows that list neither a worker nor a client.
    pub(crate) fn retain_topics_in_use(&mut self)
        ensures
            final(self).topics@ == topics_kept(old(self).topics@),
            final(self).clients == old(self).clients,
            final(self).tasks == old(self).tasks,
            final(self).tasks_to_retry == old(self).tasks_to_retry,
            final(self).timeout_as_secs == old(self).timeout_as_secs,
    {
        let ghost orig = self.topics@;
        let mut rows: Vec<Topic> = Vec::new();
        std::mem::swap(&mut rows, &mut self.topics);
        let mut i: usize = 0;
        let n = rows.len();
        while i < n
            invariant
                n == orig.len(),
                i <= n,
                rows@ == orig.subrange(i as int, n as int),
                self.topics@ == topics_kept(orig.subrange(0, i as int)),
                self.clients == old(self).clients,
                self.tasks == old(self).tasks,
                self.tasks_to_retry == old(self).tasks_to_retry,
                self.timeout_as_secs == old(self).timeout_as_secs,
            decreases n - i,
        {
            let row = rows.remove(0);
            proof {
                reveal(Seq::filter);
                assert(orig.subrange(0, i as int + 1).drop_last() =~= orig.subrange(0, i as int));
                assert(orig.subrange(0, i as int + 1).last() == row);
                assert(rows@ =~= orig.subrange(i as int + 1, n as int));
            }
            if row.workers.len() > 0 || row.clients.len() > 0 {
                self.topics.push(row);
            }
            i = i + 1;
        }
        proof {
            assert(orig.subrange(0, n as int) =~= orig);
        }
    }

    /// Drops the client rows left without a subscription.
    pub(crate) fn retain_subscribed_clients(&mut self)
        ensures
            final(self).clients@ == clients_kept(old(self).clients@),
            final(self).topics == old(self).topics,
            final(self).tasks == old(self).tasks,
            final(self).tasks_to_retry == old(self).tasks_to_retry,
            final(self).timeout_as_secs == old(self).timeout_as_secs,
    {
        let ghost orig = self.clients@;
        let mut rows: Vec<Client> = Vec::new();
        std::mem::swap(&mut rows, &mut self.clients);
        let mut i: usize = 0;
        let n = rows.len();
        while i < n
            invariant
                n == orig.len(),
                i <= n,
                rows@ == orig.subrange(i as int, n as int),
                self.clients@ == clients_kept(orig.subrange(0, i as int)),
                self.topics == old(self).topics,
                self.tasks == old(self).tasks,
                self.tasks_to_retry == old(self).tasks_to_retry,
                self.timeout_as_secs == old(self).timeout_as_secs,
            decreases n - i,
        {
            let row = rows.remove(0);
            proof {
                reveal(Seq::filter);
                assert(orig.subrange(0, i as int + 1).drop_last() =~= orig.subrange(0, i as int));
                assert(orig.subrange(0, i as int + 1).last() == row);
                assert(rows@ =~= orig.subrange(i as int + 1, n as int));
            }
            if row.topics.len() > 0 {
                self.clients.push(row);
            }
            i = i + 1;
        }
        proof {
            assert(orig.subrange(0, n as int) =~= orig);
        }
    }

    /// Unlinks `worker` from the worker and client lists of every topic row.
    /// Rows stay where they are, even when left empty; a cursor past the end
    /// of a shortened worker list is brought back to its end.
    pub fn remove_worker_from_topics(&mut self, worker: &String)
        ensures
            final(self).topics@.len() == old(self).topics@.len(),
            forall|j: int|
                0 <= j < old(self).topics@.len() ==> {
                    &&& (#[trigger] final(self).topics@[j]).name == old(self).topics@[j].name
                    &&& final(self).topics@[j].next_worker_index == clamped(
                        old(self).topics@[j].next_worker_index as int,
                        final(self).topics@[j].workers@.len() as int,
                    )
                    &&& views(final(self).topics@[j].workers@) == others(views(old(self).topics@[j].workers@), worker@)
                    &&& views(final(self).topics@[j].clients@) == others(views(old(self).topics@[j].clients@), worker@)
                },
            final(self).clients == old(self).clients,
            final(self).tasks == old(self).tasks,
            final(self).tasks_to_retry == old(self).tasks_to_retry,
            final(self).timeout_as_secs == old(self).timeout_as_secs,
    {
        let mut j: usize = 0;
        while j < self.topics.len()
            invariant
                j <= self.topics@.len(),
                self.topics@.len() == old(self).topics@.len(),
                forall|x: int|
                    0 <= x < j ==> {
                        &&& (#[trigger] self.topics@[x]).name == old(self).topics@[x].name
                        &&& self.topics@[x].next_worker_index == clamped(
                            old(self).topics@[x].next_worker_index as int,
                            self.topics@[x].workers@.len() as int,
                        )
                        &&& views(self.topics@[x].workers@) == others(views(old(self).topics@[x].workers@), worker@)
                        &&& views(self.topics@[x].clients@) == others(views(old(self).topics@[x].clients@), worker@)
                    },
                forall|x: int| j <= x < self.topics@.len() ==> #[trigger] self.topics@[x] == old(self).topics@[x],
                self.clients == old(self).clients,
                self.tasks == old(self).tasks,
                self.tasks_to_retry == old(self).tasks_to_retry,
                self.timeout_as_secs == old(self).timeout_as_secs,
            decreases self.topics@.len() - j,
        {
            let ghost before = self.topics@;
            let mut row = self.topics.remove(j);
            row.workers = without(&row.workers, worker);
            row.clients = without(&row.clients, worker);
            if row.next_worker_index > row.workers.len() {
                row.next_worker_index = row.workers.len();
            }
            self.topics.insert(j, row);
            proof {
                assert(self.topics@ =~= before.update(j as int, row));
            }
            j = j + 1;
        }
    }

    /// Evicts `worker_name`: its client row goes, every topic stops listing
    /// it, and topic rows left with neither workers nor clients go too.
    pub fn remove_worker(&mut self, worker_name: &str)
        requires
            old(self).wf(),
        ensures
            final(self).wf(),
            Self::evicted(*old(self), *final(self), worker_name@),
    {
        let ghost a = *self;
        let w = worker_name.to_owned();
        let ghost gone: int = -1;
        match self.find_client(&w) {
            Some(i) => {
                self.clients.remove(i);
                proof { gone = i as int; }
            },
            None => {},
        }
        self.remove_worker_from_topics(&w);
        let ghost m = *self;
        self.retain_topics_in_use();
        proof {
            Self::lemma_remove_worker(a, m, *self, w@, gone);
        }
    }

    proof fn lemma_remove_worker(a: Broker, m: Broker, b: Broker, w: Seq<char>, gone: int)
        requires
            a.wf(),
            gone == -1 ==> !a.has_client(w) && m.clients == a.clients,
            gone != -1 ==> 0 <= gone < a.clients@.len() && a.clients@[gone].name@ == w && m.clients@
                == a.clients@.remove(gone),
            m.topics@.len() == a.topics@.len(),
            forall|j: int|
                0 <= j < a.topics@.len() ==> {
                    &&& (#[trigger] m.topics@[j]).name == a.topics@[j].name
                    &&& m.topics@[j].next_worker_index == clamped(
                        a.topics@[j].next_worker_index as int,
                        m.topics@[j].workers@.len() as int,
                    )
                    &&& views(m.topics@[j].workers@) == others(views(a.topics@[j].workers@), w)
                    &&& views(m.topics@[j].clients@) == others(views(a.topics@[j].clients@), w)
                },
            b.topics@ == topics_kept(m.topics@),
            b.clients == m.clients,
            b.tasks == a.tasks,
            b.tasks_to_retry == a.tasks_to_retry,
        ensures
            b.wf(),
            forall|c: Seq<char>| #[trigger] b.has_client(c) == (a.has_client(c) && c != w),
            forall|c: Seq<char>|
                c != w ==> b.subscriptions(c) == a.subscriptions(c) && #[trigger] b.is_worker_of(c)
                    == a.is_worker_of(c),
            forall|t: Seq<char>|
                #[trigger] b.workers_of(t) == others(a.workers_of(t), w) && b.clients_of(t) == others(
                    a.clients_of(t),
                    w,
                ),
            forall|t: Seq<char>|
                #[trigger] b.has_topic(t) == (a.has_topic(t) && (others(a.workers_of(t), w).len() > 0
                    || others(a.clients_of(t), w).len() > 0)),
            forall|u: Seq<char>| b.has_topic(u) ==> #[trigger] b.cursor_of(u) == clamped(a.cursor_of(u), b.workers_of(u).len() as int),
    {
        reveal(Seq::filter);
        // client rows: index map from b to a
        let shift = |x: int| if gone != -1 && x >= gone { x + 1 } else { x };
        assert forall|x: int| 0 <= x < b.clients@.len() implies 0 <= shift(x) < a.clients@.len()
            && #[trigger] b.clients@[x] == a.clients@[shift(x)] && a.clients@[shift(x)].name@ != w by {
            if gone != -1 {
                assert(shift(x) != gone);
            } else {
                if a.clients@[x].name@ == w {
                    assert(a.has_client(w));
                }
            }
        }
        // topic rows of m keep unique names
        assert forall|x: int, y: int|
            0 <= x < m.topics@.len() && 0 <= y < m.topics@.len() && x != y
                implies #[trigger] m.topics@[x].name@ != #[trigger] m.topics@[y].name@ by {
            assert(a.topics@[x].name@ != a.topics@[y].name@);
        }
        lemma_topics_kept(m.topics@);
        // a name listed in row y of a, other than w, is listed in row y of m
        assert forall|y: int, d: Seq<char>|
            0 <= y < a.topics@.len() && d != w && #[trigger] views(a.topics@[y].workers@).contains(d)
                implies views(m.topics@[y].workers@).contains(d) by {
            let q = choose|q: int| 0 <= q < views(a.topics@[y].workers@).len() && views(a.topics@[y].workers@)[q] == d;
            views(a.topics@[y].workers@).lemma_filter_contains(|x: Seq<char>| x != w, q);
        }
        assert forall|y: int, d: Seq<char>|
            0 <= y < a.topics@.len() && d != w && #[trigger] views(a.topics@[y].clients@).contains(d)
                implies views(m.topics@[y].clients@).contains(d) by {
            let q = choose|q: int| 0 <= q < views(a.topics@[y].clients@).len() && views(a.topics@[y].clients@)[q] == d;
            views(a.topics@[y].clients@).lemma_filter_contains(|x: Seq<char>| x != w, q);
        }
        // each row of b is a row of m, and a row of m in use is a row of b
        assert forall|z: int| 0 <= z < b.topics@.len() implies exists|y: int|
            0 <= y < m.topics@.len() && m.topics@[y] == #[trigger] b.topics@[z] by {
            assert(topics_kept(m.topics@).contains(b.topics@[z]));
        }
        // unique names
        assert forall|x: int, y: int|
            0 <= x < b.clients@.len() && 0 <= y < b.clients@.len() && x != y
                implies #[trigger] b.clients@[x].name@ != #[trigger] b.clients@[y].name@ by {
            assert(b.clients@[x] == a.clients@[shift(x)]);
            assert(b.clients@[y] == a.clients@[shift(y)]);
        }
        assert(b.unique_names());
        assert forall|x: int| 0 <= x < b.clients@.len() implies #[trigger] b.clients@[x].topics@.len() > 0 by {
            assert(b.clients@[x] == a.clients@[shift(x)]);
        }
        assert forall|z: int| 0 <= z < b.topics@.len() implies #[trigger] b.topics@[z].workers@.len() > 0
            || b.topics@[z].clients@.len() > 0 by {
            assert(in_use(topics_kept(m.topics@)[z]));
        }
        assert forall|x: int, k: int|
            0 <= x < b.clients@.len() && 0 <= k < b.clients@[x].topics@.len() implies b.mirrored(
            b.clients@[x].name@,
            #[trigger] b.clients@[x].topics@[k]@,
        ) by {
            let ax = shift(x);
            assert(b.clients@[x] == a.clients@[ax]);
            let d = a.clients@[ax].name@;
            let u = a.clients@[ax].topics@[k]@;
            assert(a.mirrored(d, u));
            let y = choose|y: int|
                0 <= y < a.topics@.len() && #[trigger] a.topics@[y].name@ == u && (views(
                    a.topics@[y].workers@,
                ).contains(d) || views(a.topics@[y].clients@).contains(d));
            assert(views(m.topics@[y].workers@).contains(d) || views(m.topics@[y].clients@).contains(d));
            assert(in_use(m.topics@[y]));
            assert(topics_kept(m.topics@).contains(m.topics@[y]));
            let z = choose|z: int| 0 <= z < b.topics@.len() && b.topics@[z] == m.topics@[y];
            assert(b.topics@[z].name@ == u);
        }
        assert(b.wf());
        // client accessors
        assert forall|c: Seq<char>| #[trigger] b.has_client(c) == (a.has_client(c) && c != w) by {
            if b.has_client(c) {
                let x = choose|x: int| 0 <= x < b.clients@.len() && #[trigger] b.clients@[x].name@ == c;
                assert(b.clients@[x] == a.clients@[shift(x)]);
                assert(a.clients@[shift(x)].name@ == c);
            }
            if a.has_client(c) && c != w {
                let x = choose|x: int| 0 <= x < a.clients@.len() && #[trigger] a.clients@[x].name@ == c;
                let bx = if gone != -1 && x > gone { x - 1 } else { x };
                if gone != -1 {
                    assert(x != gone);
                }
                assert(shift(bx) == x);
                assert(b.clients@[bx] == a.clients@[x]);
                assert(b.clients@[bx].name@ == c);
            }
        }
        assert forall|c: Seq<char>| c != w implies b.subscriptions(c) == a.subscriptions(c)
            && #[trigger] b.is_worker_of(c) == a.is_worker_of(c) by {
            if b.has_client(c) {
                let x = choose|x: int| 0 <= x < b.clients@.len() && #[trigger] b.clients@[x].name@ == c;
                assert(b.clients@[x] == a.clients@[shift(x)]);
                b.lemma_client_index(x);
                a.lemma_client_index(shift(x));
            }
        }
        // topic accessors
        assert forall|t: Seq<char>|
            #![trigger b.workers_of(t)]
            #![trigger b.has_topic(t)]
            b.workers_of(t) == others(a.workers_of(t), w) && b.clients_of(t) == others(a.clients_of(t), w)
                && b.has_topic(t) == (a.has_topic(t) && (others(a.workers_of(t), w).len() > 0
                || others(a.clients_of(t), w).len() > 0)) by {
            if a.has_topic(t) {
                let y = choose|y: int| 0 <= y < a.topics@.len() && #[trigger] a.topics@[y].name@ == t;
                a.lemma_topic_index(y);
                if in_use(m.topics@[y]) {
                    assert(topics_kept(m.topics@).contains(m.topics@[y]));
                    let z = choose|z: int| 0 <= z < b.topics@.len() && b.topics@[z] == m.topics@[y];
                    b.lemma_topic_index(z);
                } else {
                    if b.has_topic(t) {
                        let z = choose|z: int| 0 <= z < b.topics@.len() && #[trigger] b.topics@[z].name@ == t;
                        let y2 = choose|y2: int| 0 <= y2 < m.topics@.len() && m.topics@[y2] == b.topics@[z];
                        assert(m.topics@[y2].name@ == a.topics@[y2].name@);
                        assert(y2 == y);
                        assert(in_use(topics_kept(m.topics@)[z]));
                    }
                    assert(views(m.topics@[y].workers@).len() == 0);
                    assert(views(m.topics@[y].clients@).len() == 0);
                    assert(others(a.workers_of(t), w) =~= Seq::<Seq<char>>::empty());
                    assert(others(a.clients_of(t), w) =~= Seq::<Seq<char>>::empty());
                }
            } else {
                if b.has_topic(t) {
                    let z = choose|z: int| 0 <= z < b.topics@.len() && #[trigger] b.topics@[z].name@ == t;
                    let y2 = choose|y2: int| 0 <= y2 < m.topics@.len() && m.topics@[y2] == b.topics@[z];
                    assert(a.topics@[y2].name@ == t);
                }
                assert(others(a.workers_of(t), w) =~= Seq::<Seq<char>>::empty());
                assert(others(a.clients_of(t), w) =~= Seq::<Seq<char>>::empty());
            }
        }
        assert forall|u: Seq<char>| b.has_topic(u) implies #[trigger] b.cursor_of(u) == clamped(a.cursor_of(u), b.workers_of(u).len() as int) by {
            let z = choose|z: int| 0 <= z < b.topics@.len() && #[trigger] b.topics@[z].name@ == u;
            let y2 = choose|y2: int| 0 <= y2 < m.topics@.len() && m.topics@[y2] == b.topics@[z];
            assert(a.topics@[y2].name@ == u);
            a.lemma_topic_index(y2);
            b.lemma_topic_index(z);
            assert(views(b.topics@[z].workers@).len() == b.topics@[z].workers@.len());
        }
    }
}

} // verus!
