use vstd::prelude::*;

verus! {

/// The identities or topic names held by a list of strings, as character sequences.
pub open spec fn views(v: Seq<String>) -> Seq<Seq<char>> {
    v.map_values(|s: String| s@)
}

pub proof fn lemma_views_push(v: Seq<String>, x: String)
    ensures
        views(v.push(x)) == views(v).push(x@),
{
    assert(views(v.push(x)) =~= views(v).push(x@));
}

/// `v` without the entries equal to `n`, order kept.
pub open spec fn others(v: Seq<Seq<char>>, n: Seq<char>) -> Seq<Seq<char>> {
    v.filter(|x: Seq<char>| x != n)
}

pub proof fn lemma_others_contains(v: Seq<Seq<char>>, n: Seq<char>, e: Seq<char>)
    ensures
        others(v, n).contains(e) == (v.contains(e) && e != n),
    decreases v.len(),
{
    reveal(Seq::filter);
    if v.len() > 0 {
        let d = v.drop_last();
        lemma_others_contains(d, n, e);
        let od = others(d, n);
        if v.last() != n {
            assert(others(v, n) == od.push(v.last()));
        } else {
            assert(others(v, n) == od);
        }
        if v.contains(e) {
            let q = choose|q: int| 0 <= q < v.len() && v[q] == e;
            if q < v.len() - 1 {
                assert(d[q] == e);
            }
        }
        if d.contains(e) {
            let q = choose|q: int| 0 <= q < d.len() && d[q] == e;
            assert(v[q] == e);
        }
        if others(v, n).contains(e) && !od.contains(e) {
            let q = choose|q: int| 0 <= q < others(v, n).len() && others(v, n)[q] == e;
            assert(q == od.len());
        }
        if od.contains(e) {
            let q = choose|q: int| 0 <= q < od.len() && od[q] == e;
            assert(others(v, n)[q] == e);
        }
        if v.last() != n && v.last() == e {
            assert(others(v, n)[od.len() as int] == e);
        }
    }
}

pub proof fn lemma_others_absent(v: Seq<Seq<char>>, n: Seq<char>)
    requires
        !v.contains(n),
    ensures
        others(v, n) == v,
    decreases v.len(),
{
    reveal(Seq::filter);
    if v.len() > 0 {
        let d = v.drop_last();
        assert forall|q: int| 0 <= q < d.len() implies d[q] != n by {
            assert(v[q] != n);
        }
        lemma_others_absent(d, n);
        assert(v.last() != n);
        assert(d.push(v.last()) =~= v);
    } else {
        assert(others(v, n) =~= v);
    }
}

/// Dropping the entries equal to a listed name shortens the list.
pub proof fn lemma_others_shorter(v: Seq<Seq<char>>, n: Seq<char>)
    ensures
        others(v, n).len() <= v.len(),
        v.contains(n) ==> others(v, n).len() < v.len(),
    decreases v.len(),
{
    reveal(Seq::filter);
    if v.len() > 0 {
        lemma_others_shorter(v.drop_last(), n);
        if v.contains(n) && v.last() != n {
            let q = choose|q: int| 0 <= q < v.len() && v[q] == n;
            assert(v.drop_last()[q] == n);
        }
    }
}

/// How many entries of `v` equal `n`.
pub open spec fn occurrences(v: Seq<Seq<char>>, n: Seq<char>) -> nat
    decreases v.len(),
{
    if v.len() == 0 {
        0
    } else {
        (if v[0] == n { 1nat } else { 0nat }) + occurrences(v.skip(1), n)
    }
}

pub proof fn lemma_occurrences_absent(v: Seq<Seq<char>>, n: Seq<char>)
    requires
        !v.contains(n),
    ensures
        occurrences(v, n) == 0,
    decreases v.len(),
{
    if v.len() > 0 {
        assert(v[0] != n);
        assert forall|q: int| 0 <= q < v.skip(1).len() implies v.skip(1)[q] != n by {
            assert(v[q + 1] != n);
        }
        lemma_occurrences_absent(v.skip(1), n);
    }
}

/// `v` without its first `k` entries equal to `n`; the rest keeps its order.
pub open spec fn drop_n(v: Seq<Seq<char>>, n: Seq<char>, k: nat) -> Seq<Seq<char>>
    decreases v.len(),
{
    if v.len() == 0 {
        v
    } else if v[0] == n && k > 0 {
        drop_n(v.skip(1), n, (k - 1) as nat)
    } else {
        seq![v[0]] + drop_n(v.skip(1), n, k)
    }
}

/// Dropping `k` entries equal to `n` leaves `occurrences - k` of them (none
/// when there were fewer), and keeps nothing that was not there.
pub proof fn lemma_drop_n(v: Seq<Seq<char>>, n: Seq<char>, k: nat)
    ensures
        occurrences(drop_n(v, n, k), n) == if occurrences(v, n) >= k { (occurrences(v, n) - k) as nat } else { 0nat },
        forall|e: Seq<char>| #[trigger] drop_n(v, n, k).contains(e) ==> v.contains(e),
    decreases v.len(),
{
    if v.len() > 0 {
        let rest = v.skip(1);
        if v[0] == n && k > 0 {
            lemma_drop_n(rest, n, (k - 1) as nat);
            assert forall|e: Seq<char>| #[trigger] drop_n(v, n, k).contains(e) implies v.contains(e) by {
                let q = choose|q: int| 0 <= q < rest.len() && rest[q] == e;
                assert(v[q + 1] == e);
            }
        } else {
            lemma_drop_n(rest, n, k);
            let d = drop_n(v, n, k);
            assert(d.skip(1) =~= drop_n(rest, n, k));
            assert(d[0] == v[0]);
            assert forall|e: Seq<char>| #[trigger] drop_n(v, n, k).contains(e) implies v.contains(e) by {
                let q = choose|q: int| 0 <= q < d.len() && d[q] == e;
                if q == 0 {
                    assert(v[0] == e);
                } else {
                    assert(drop_n(rest, n, k)[q - 1] == e);
                    assert(drop_n(rest, n, k).contains(e));
                    let q2 = choose|q2: int| 0 <= q2 < rest.len() && rest[q2] == e;
                    assert(v[q2 + 1] == e);
                }
            }
        }
    }
}

/// How many entries of `list` equal `name`.
pub fn count_of(list: &Vec<String>, name: &String) -> (r: usize)
    ensures
        r == occurrences(views(list@), name@),
{
    let mut r: usize = 0;
    let mut i: usize = 0;
    proof {
        assert(views(list@).skip(0) =~= views(list@));
    }
    while i < list.len()
        invariant
            i <= list@.len(),
            r <= i,
            r + occurrences(views(list@).skip(i as int), name@) == occurrences(views(list@), name@),
        decreases list@.len() - i,
    {
        proof {
            let v = views(list@).skip(i as int);
            assert(v.skip(1) =~= views(list@).skip(i as int + 1));
            assert(v[0] == list@[i as int]@);
        }
        if list[i] == *name {
            r = r + 1;
        }
        i = i + 1;
    }
    proof {
        assert(views(list@).skip(i as int).len() == 0);
    }
    r
}

/// `list` without its first `k` entries equal to `name`, order kept.
pub fn without_first(list: &Vec<String>, name: &String, k: usize) -> (r: Vec<String>)
    ensures
        views(r@) == drop_n(views(list@), name@, k as nat),
{
    let mut r: Vec<String> = Vec::new();
    let mut left: usize = k;
    let mut i: usize = 0;
    proof {
        assert(views(list@).skip(0) =~= views(list@));
        assert(views(r@) =~= Seq::<Seq<char>>::empty());
        assert(Seq::<Seq<char>>::empty() + drop_n(views(list@), name@, k as nat) =~= drop_n(views(list@), name@, k as nat));
    }
    while i < list.len()
        invariant
            i <= list@.len(),
            left <= k,
            views(r@) + drop_n(views(list@).skip(i as int), name@, left as nat) == drop_n(views(list@), name@, k as nat),
        decreases list@.len() - i,
    {
        let ghost v = views(list@).skip(i as int);
        proof {
            assert(v.skip(1) =~= views(list@).skip(i as int + 1));
            assert(v[0] == list@[i as int]@);
        }
        if list[i] == *name && left > 0 {
            left = left - 1;
        } else {
            proof {
                lemma_views_push(r@, list@[i as int]);
                assert(views(r@).push(v[0]) + drop_n(v.skip(1), name@, left as nat) =~= views(r@) + (seq![v[0]]
                    + drop_n(v.skip(1), name@, left as nat)));
            }
            r.push(list[i].clone());
        }
        i = i + 1;
    }
    proof {
        assert(views(list@).skip(i as int) =~= Seq::<Seq<char>>::empty());
        assert(views(r@) + Seq::<Seq<char>>::empty() =~= views(r@));
    }
    r
}

/// A topic row still serves a purpose when it lists a worker or a client.
pub open spec fn in_use(r: Topic) -> bool {
    r.workers@.len() > 0 || r.clients@.len() > 0
}

pub open spec fn topics_kept(s: Seq<Topic>) -> Seq<Topic> {
    s.filter(|r: Topic| in_use(r))
}

/// A client row is kept while it subscribes to something.
pub open spec fn subscribed(c: Client) -> bool {
    c.topics@.len() > 0
}

pub open spec fn clients_kept(s: Seq<Client>) -> Seq<Client> {
    s.filter(|c: Client| subscribed(c))
}

pub proof fn lemma_topics_kept(s: Seq<Topic>)
    requires
        forall|i: int, j: int|
            0 <= i < s.len() && 0 <= j < s.len() && i != j ==> #[trigger] s[i].name@ != #[trigger] s[j].name@,
    ensures
        forall|i: int, j: int|
            0 <= i < topics_kept(s).len() && 0 <= j < topics_kept(s).len() && i != j
                ==> #[trigger] topics_kept(s)[i].name@ != #[trigger] topics_kept(s)[j].name@,
        forall|i: int| 0 <= i < topics_kept(s).len() ==> in_use(#[trigger] topics_kept(s)[i]) && s.contains(topics_kept(s)[i]),
        forall|i: int| 0 <= i < s.len() && in_use(s[i]) ==> #[trigger] topics_kept(s).contains(s[i]),
    decreases s.len(),
{
    reveal(Seq::filter);
    let k = topics_kept(s);
    assert forall|i: int| 0 <= i < s.len() && in_use(s[i]) implies #[trigger] topics_kept(s).contains(s[i]) by {
        s.lemma_filter_contains(|r: Topic| in_use(r), i);
    }
    assert forall|i: int| 0 <= i < k.len() implies in_use(#[trigger] k[i]) && s.contains(k[i]) by {
        s.lemma_filter_pred(|r: Topic| in_use(r), i);
        assert(k.contains(k[i]));
        s.lemma_filter_contains_rev(|r: Topic| in_use(r), k[i]);
    }
    if s.len() > 0 {
        let d = s.drop_last();
        assert forall|i: int, j: int|
            0 <= i < d.len() && 0 <= j < d.len() && i != j implies #[trigger] d[i].name@ != #[trigger] d[j].name@ by {
            assert(s[i].name@ != s[j].name@);
        }
        lemma_topics_kept(d);
        let kd = topics_kept(d);
        assert forall|i: int| 0 <= i < kd.len() implies (#[trigger] kd[i]).name@ != s.last().name@ by {
            let x = choose|x: int| 0 <= x < d.len() && d[x] == kd[i];
            assert(s[x] == d[x]);
        }
        assert(d =~= s.drop_last());
        if in_use(s.last()) {
            assert(k == kd.push(s.last()));
        } else {
            assert(k == kd);
        }
        assert forall|i: int, j: int|
            0 <= i < k.len() && 0 <= j < k.len() && i != j implies #[trigger] k[i].name@ != #[trigger] k[j].name@ by {
            if i < kd.len() && j < kd.len() {
                assert(kd[i].name@ != kd[j].name@);
            } else if i < kd.len() {
                assert(kd[i].name@ != s.last().name@);
            } else if j < kd.len() {
                assert(kd[j].name@ != s.last().name@);
            }
        }
    }
}

pub proof fn lemma_clients_kept(s: Seq<Client>)
    requires
        forall|i: int, j: int|
            0 <= i < s.len() && 0 <= j < s.len() && i != j ==> #[trigger] s[i].name@ != #[trigger] s[j].name@,
    ensures
        forall|i: int, j: int|
            0 <= i < clients_kept(s).len() && 0 <= j < clients_kept(s).len() && i != j
                ==> #[trigger] clients_kept(s)[i].name@ != #[trigger] clients_kept(s)[j].name@,
        forall|i: int| 0 <= i < clients_kept(s).len() ==> subscribed(#[trigger] clients_kept(s)[i]) && s.contains(clients_kept(s)[i]),
        forall|i: int| 0 <= i < s.len() && subscribed(s[i]) ==> #[trigger] clients_kept(s).contains(s[i]),
    decreases s.len(),
{
    reveal(Seq::filter);
    let k = clients_kept(s);
    assert forall|i: int| 0 <= i < s.len() && subscribed(s[i]) implies #[trigger] clients_kept(s).contains(s[i]) by {
        s.lemma_filter_contains(|c: Client| subscribed(c), i);
    }
    assert forall|i: int| 0 <= i < k.len() implies subscribed(#[trigger] k[i]) && s.contains(k[i]) by {
        s.lemma_filter_pred(|c: Client| subscribed(c), i);
        assert(k.contains(k[i]));
        s.lemma_filter_contains_rev(|c: Client| subscribed(c), k[i]);
    }
    if s.len() > 0 {
        let d = s.drop_last();
        assert forall|i: int, j: int|
            0 <= i < d.len() && 0 <= j < d.len() && i != j implies #[trigger] d[i].name@ != #[trigger] d[j].name@ by {
            assert(s[i].name@ != s[j].name@);
        }
        lemma_clients_kept(d);
        let kd = clients_kept(d);
        assert forall|i: int| 0 <= i < kd.len() implies (#[trigger] kd[i]).name@ != s.last().name@ by {
            let x = choose|x: int| 0 <= x < d.len() && d[x] == kd[i];
            assert(s[x] == d[x]);
        }
        assert(d =~= s.drop_last());
        if subscribed(s.last()) {
            assert(k == kd.push(s.last()));
        } else {
            assert(k == kd);
        }
        assert forall|i: int, j: int|
            0 <= i < k.len() && 0 <= j < k.len() && i != j implies #[trigger] k[i].name@ != #[trigger] k[j].name@ by {
            if i < kd.len() && j < kd.len() {
                assert(kd[i].name@ != kd[j].name@);
            } else if i < kd.len() {
                assert(kd[i].name@ != s.last().name@);
            } else if j < kd.len() {
                assert(kd[j].name@ != s.last().name@);
            }
        }
    }
}

/// `list` without the entries equal to `name`, order kept.
pub fn without(list: &Vec<String>, name: &String) -> (r: Vec<String>)
    ensures
        views(r@) == others(views(list@), name@),
{
    let mut r: Vec<String> = Vec::new();
    let mut i: usize = 0;
    while i < list.len()
        invariant
            i <= list@.len(),
            views(r@) == others(views(list@).subrange(0, i as int), name@),
        decreases list@.len() - i,
    {
        let ghost s = views(list@).subrange(0, i as int + 1);
        proof {
            reveal(Seq::filter);
            assert(s.drop_last() =~= views(list@).subrange(0, i as int));
            assert(s.last() == list@[i as int]@);
        }
        if list[i] != *name {
            proof { lemma_views_push(r@, list@[i as int]); }
            r.push(list[i].clone());
        }
        i = i + 1;
    }
    proof {
        assert(views(list@).subrange(0, list@.len() as int) =~= views(list@));
    }
    r
}

/// A peer known to the broker, with the topics it subscribes to.
#[derive(Debug, Clone)]
pub struct Client {
    pub name: String,
    pub is_worker: bool,
    pub topics: Vec<String>,
}

impl Client {
    pub fn new(name: &str, is_worker: bool) -> (r: Client)
        ensures
            r.name@ == name@,
            r.is_worker == is_worker,
            r.topics@.len() == 0,
    {
        Client { is_worker, name: name.to_owned(), topics: Vec::new() }
    }
}

/// A topic: the workers serving it, in round-robin order, and the clients
/// waiting for a reply on it.
#[derive(Debug, Clone)]
pub struct Topic {
    pub name: String,
    pub workers: Vec<String>,
    pub next_worker_index: usize,
    pub clients: Vec<String>,
}

impl Topic {
    pub fn new(name: &str) -> (r: Topic)
        ensures
            r.name@ == name@,
            r.workers@.len() == 0,
            r.next_worker_index == 0,
            r.clients@.len() == 0,
    {
        Topic { name: name.to_owned(), workers: Vec::new(), next_worker_index: 0, clients: Vec::new() }
    }
}

/// A unit of work: a payload to hand to one worker of `worker_topic`, whose
/// reply fans out on `response_topic`. `date` is the second of the last
/// dispatch attempt.
#[derive(Debug, Clone)]
pub struct Task {
    pub worker_topic: String,
    pub worker_name: Option<String>,
    pub response_topic: String,
    pub retry: u8,
    pub payload: String,
    pub date: u64,
    pub sent: bool,
}

impl Task {
    pub fn new(worker_topic: &str, response_topic: &str, payload: &str, now: u64) -> (r: Task)
        ensures
            r.worker_topic@ == worker_topic@,
            r.worker_name.is_none(),
            r.response_topic@ == response_topic@,
            r.retry == 0,
            r.payload@ == payload@,
            r.date == now,
            !r.sent,
    {
        Task {
            worker_topic: worker_topic.to_owned(),
            worker_name: None,
            response_topic: response_topic.to_owned(),
            retry: 0,
            payload: payload.to_owned(),
            date: now,
            sent: false,
        }
    }
}

/// The whole routing state: client and topic tables, in-flight tasks and the
/// queue of tasks waiting for a worker.
pub struct Broker {
    pub timeout_as_secs: u64,
    pub clients: Vec<Client>,
    pub topics: Vec<Topic>,
    pub tasks: Vec<Task>,
    pub tasks_to_retry: Vec<Task>,
}

impl Broker {
    /// Some row of the topic table is named `t` and lists `c` as a worker or a client.
    pub open spec fn mirrored(&self, c: Seq<char>, t: Seq<char>) -> bool {
        exists|j: int|
            0 <= j < self.topics@.len() && #[trigger] self.topics@[j].name@ == t && (views(
                self.topics@[j].workers@,
            ).contains(c) || views(self.topics@[j].clients@).contains(c))
    }

    pub open spec fn has_client(&self, c: Seq<char>) -> bool {
        exists|i: int| 0 <= i < self.clients@.len() && #[trigger] self.clients@[i].name@ == c
    }

    pub open spec fn has_topic(&self, t: Seq<char>) -> bool {
        exists|j: int| 0 <= j < self.topics@.len() && #[trigger] self.topics@[j].name@ == t
    }

    pub open spec fn client_index(&self, c: Seq<char>) -> int {
        choose|i: int| 0 <= i < self.clients@.len() && #[trigger] self.clients@[i].name@ == c
    }

    pub open spec fn topic_index(&self, t: Seq<char>) -> int {
        choose|j: int| 0 <= j < self.topics@.len() && #[trigger] self.topics@[j].name@ == t
    }

    /// The topics that client `c` subscribes to, in order; empty when `c` is unknown.
    pub open spec fn subscriptions(&self, c: Seq<char>) -> Seq<Seq<char>> {
        if self.has_client(c) {
            views(self.clients@[self.client_index(c)].topics@)
        } else {
            Seq::empty()
        }
    }

    /// Whether client `c` was registered as a worker; false when `c` is unknown.
    pub open spec fn is_worker_of(&self, c: Seq<char>) -> bool {
        self.has_client(c) && self.clients@[self.client_index(c)].is_worker
    }

    /// The workers serving topic `t`, in round-robin order; empty when `t` has no row.
    pub open spec fn workers_of(&self, t: Seq<char>) -> Seq<Seq<char>> {
        if self.has_topic(t) {
            views(self.topics@[self.topic_index(t)].workers@)
        } else {
            Seq::empty()
        }
    }

    /// The round-robin cursor of topic `t`; 0 when `t` has no row.
    pub open spec fn cursor_of(&self, t: Seq<char>) -> int {
        if self.has_topic(t) {
            self.topics@[self.topic_index(t)].next_worker_index as int
        } else {
            0
        }
    }

    /// The clients waiting for a reply on topic `t`; empty when `t` has no row.
    pub open spec fn clients_of(&self, t: Seq<char>) -> Seq<Seq<char>> {
        if self.has_topic(t) {
            views(self.topics@[self.topic_index(t)].clients@)
        } else {
            Seq::empty()
        }
    }

    pub open spec fn unique_names(&self) -> bool {
        &&& forall|i: int, j: int|
            0 <= i < self.clients@.len() && 0 <= j < self.clients@.len() && i != j
                ==> #[trigger] self.clients@[i].name@ != #[trigger] self.clients@[j].name@
        &&& forall|i: int, j: int|
            0 <= i < self.topics@.len() && 0 <= j < self.topics@.len() && i != j
                ==> #[trigger] self.topics@[i].name@ != #[trigger] self.topics@[j].name@
    }

    /// No client is left without a subscription.
    pub open spec fn clients_subscribed(&self) -> bool {
        forall|i: int| 0 <= i < self.clients@.len() ==> #[trigger] self.clients@[i].topics@.len() > 0
    }

    /// No topic row is left with neither workers nor clients.
    pub open spec fn topics_in_use(&self) -> bool {
        forall|j: int|
            0 <= j < self.topics@.len() ==> #[trigger] self.topics@[j].workers@.len() > 0
                || self.topics@[j].clients@.len() > 0
    }

    /// Every subscription of a client is listed back by the topic's row.
    pub open spec fn subscriptions_mirrored(&self) -> bool {
        forall|i: int, k: int|
            0 <= i < self.clients@.len() && 0 <= k < self.clients@[i].topics@.len()
                ==> self.mirrored(self.clients@[i].name@, #[trigger] self.clients@[i].topics@[k]@)
    }

    /// In-flight tasks were delivered to a worker; waiting tasks have none.
    pub open spec fn tasks_assigned(&self) -> bool {
        &&& forall|i: int|
            0 <= i < self.tasks@.len() ==> (#[trigger] self.tasks@[i]).sent
                && self.tasks@[i].worker_name.is_some()
        &&& forall|i: int|
            0 <= i < self.tasks_to_retry@.len() ==> (#[trigger] self.tasks_to_retry@[i]).worker_name.is_none()
    }

    /// Every round-robin cursor lies within `0..=` its topic's worker count.
    pub open spec fn cursors_in_range(&self) -> bool {
        forall|j: int|
            0 <= j < self.topics@.len() ==> (#[trigger] self.topics@[j]).next_worker_index
                <= self.topics@[j].workers@.len()
    }

    pub open spec fn wf(&self) -> bool {
        &&& self.unique_names()
        &&& self.cursors_in_range()
        &&& self.clients_subscribed()
        &&& self.topics_in_use()
        &&& self.subscriptions_mirrored()
        &&& self.tasks_assigned()
    }

    pub proof fn lemma_client_index(&self, i: int)
        requires
            self.unique_names(),
            0 <= i < self.clients@.len(),
        ensures
            self.has_client(self.clients@[i].name@),
            self.client_index(self.clients@[i].name@) == i,
            self.subscriptions(self.clients@[i].name@) == views(self.clients@[i].topics@),
            self.is_worker_of(self.clients@[i].name@) == self.clients@[i].is_worker,
    {
        let c = self.clients@[i].name@;
        assert(self.clients@[i].name@ == c);
        let k = self.client_index(c);
        assert(self.clients@[k].name@ == c);
    }

    pub proof fn lemma_topic_index(&self, j: int)
        requires
            self.unique_names(),
            0 <= j < self.topics@.len(),
        ensures
            self.has_topic(self.topics@[j].name@),
            self.topic_index(self.topics@[j].name@) == j,
            self.workers_of(self.topics@[j].name@) == views(self.topics@[j].workers@),
            self.clients_of(self.topics@[j].name@) == views(self.topics@[j].clients@),
            self.cursor_of(self.topics@[j].name@) == self.topics@[j].next_worker_index,
    {
        let t = self.topics@[j].name@;
        assert(self.topics@[j].name@ == t);
        let k = self.topic_index(t);
        assert(self.topics@[k].name@ == t);
    }

    pub fn new(timeout_as_secs: u64) -> (r: Broker)
        ensures
            r.wf(),
            r.timeout_as_secs == timeout_as_secs,
            r.clients@.len() == 0,
            r.topics@.len() == 0,
            r.tasks@.len() == 0,
            r.tasks_to_retry@.len() == 0,
    {
        Broker {
            timeout_as_secs,
            clients: Vec::new(),
            topics: Vec::new(),
            tasks: Vec::new(),
            tasks_to_retry: Vec::new(),
        }
    }
}

} // verus!
