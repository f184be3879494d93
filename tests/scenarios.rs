use broker::{classify, Broker, MessageKind, Task};

fn has_client(b: &Broker, name: &str) -> bool {
    b.find_client(&name.to_string()).is_some()
}

fn has_topic(b: &Broker, name: &str) -> bool {
    b.find_topic(&name.to_string()).is_some()
}

fn submit(b: &mut Broker, client: &str, topic: &str, response: &str, payload: &str, now: u64) -> Option<String> {
    b.add_client(false, client, response);
    let task = Task::new(topic, response, payload, now);
    let stamped = b.dispatch(task, now)?;
    let worker = stamped.worker_name.clone();
    assert!(b.delivery_outcome(stamped, true).is_none());
    worker
}

#[test]
fn happy_path() {
    let mut b = Broker::new(60);
    assert_eq!(classify("@@REGISTER", "T"), MessageKind::Register);
    b.add_client(true, "w1", "T");
    assert_eq!(classify("T", "R"), MessageKind::Request);
    let worker = submit(&mut b, "c1", "T", "R", "P", 10);
    assert_eq!(worker.as_deref(), Some("w1"));
    assert_eq!(b.tasks.len(), 1);
    assert_eq!(b.tasks[0].payload, "P");
    assert_eq!(classify("R", ""), MessageKind::Reply);
    let recipients = b.send_response("R");
    assert_eq!(recipients, vec!["c1".to_string()]);
    assert!(b.tasks.is_empty());
    assert!(!has_topic(&b, "R"));
    assert!(!has_client(&b, "c1"));
    assert!(has_client(&b, "w1"));
    assert!(has_topic(&b, "T"));
}

#[test]
fn round_robin_four_clients() {
    let mut b = Broker::new(60);
    b.add_client(true, "w1", "T");
    b.add_client(true, "w2", "T");
    b.add_client(true, "w3", "T");
    let mut order = Vec::new();
    for (c, r) in [("c1", "R1"), ("c2", "R2"), ("c3", "R3"), ("c4", "R4")] {
        order.push(submit(&mut b, c, "T", r, "P", 1).unwrap());
    }
    assert_eq!(order, vec!["w1", "w2", "w3", "w1"]);
}

#[test]
fn worker_disappearance_mid_dispatch() {
    let mut b = Broker::new(60);
    b.add_client(true, "w1", "T");
    b.add_client(true, "w2", "T");
    b.add_client(false, "c1", "R");
    let first = b.dispatch(Task::new("T", "R", "P", 5), 5).unwrap();
    assert_eq!(first.worker_name.as_deref(), Some("w1"));
    let again = b.delivery_outcome(first, false).unwrap();
    assert!(!again.sent);
    assert!(!has_client(&b, "w1"));
    let second = b.dispatch(again, 5).unwrap();
    assert_eq!(second.worker_name.as_deref(), Some("w2"));
    assert_eq!(second.retry, 2);
    assert!(b.delivery_outcome(second, true).is_none());
    assert_eq!(b.tasks.len(), 1);
    assert_eq!(b.tasks[0].worker_name.as_deref(), Some("w2"));
    assert!(b.tasks[0].sent);
}

#[test]
fn no_workers_then_retry() {
    let mut b = Broker::new(60);
    b.add_client(false, "c1", "R");
    assert!(b.dispatch(Task::new("T", "R", "P", 3), 3).is_none());
    assert_eq!(b.tasks_to_retry.len(), 1);
    assert!(b.tasks_to_retry[0].worker_name.is_none());
    assert!(b.tasks.is_empty());
    b.add_client(true, "w1", "T");
    let waiting = b.retry_tasks();
    assert_eq!(waiting.len(), 1);
    assert!(b.tasks_to_retry.is_empty());
    let task = waiting.into_iter().next().unwrap();
    let stamped = b.dispatch(task, 4).unwrap();
    assert_eq!(stamped.worker_name.as_deref(), Some("w1"));
    assert_eq!(stamped.date, 4);
    assert!(b.delivery_outcome(stamped, true).is_none());
    assert_eq!(b.tasks.len(), 1);
}

#[test]
fn ping_reconnection() {
    let b = Broker::new(60);
    assert_eq!(classify("@@PING", ""), MessageKind::Ping);
    assert_eq!(b.ping_replies("workerX"), vec!["@@REGISTER".to_string(), "@@PONG".to_string()]);
}

#[test]
fn ping_known_worker_or_other_identity() {
    let mut b = Broker::new(60);
    b.add_client(true, "worker1", "T");
    assert_eq!(b.ping_replies("worker1"), vec!["@@PONG".to_string()]);
    assert_eq!(b.ping_replies("client9"), vec!["@@PONG".to_string()]);
    assert_eq!(b.ping_replies("work"), vec!["@@PONG".to_string()]);
}

#[test]
fn timeout_cascade() {
    let mut b = Broker::new(60);
    b.add_client(true, "w1", "T");
    submit(&mut b, "c1", "T", "R", "P", 100);
    b.remove_timeout_tasks(159);
    assert_eq!(b.tasks.len(), 1);
    assert!(has_client(&b, "c1"));
    b.remove_timeout_tasks(161);
    assert!(b.tasks.is_empty());
    assert!(!has_topic(&b, "R"));
    assert!(!has_client(&b, "c1"));
    assert!(has_client(&b, "w1"));
}

#[test]
fn timeout_at_exact_deadline() {
    let mut b = Broker::new(60);
    b.add_client(true, "w1", "T");
    submit(&mut b, "c1", "T", "R", "P", 100);
    b.remove_timeout_tasks(160);
    assert!(b.tasks.is_empty());
}

#[test]
fn timeout_keeps_client_with_other_subscription() {
    let mut b = Broker::new(10);
    b.add_client(true, "w1", "T");
    submit(&mut b, "c1", "T", "R", "P", 0);
    b.add_client(false, "c1", "S");
    b.remove_timeout_tasks(20);
    assert!(has_client(&b, "c1"));
    let c = &b.clients[b.find_client(&"c1".to_string()).unwrap()];
    assert_eq!(c.topics, vec!["S".to_string()]);
    assert!(has_topic(&b, "S"));
}
