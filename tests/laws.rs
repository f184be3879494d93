use broker::{Broker, FrameError, FrameReader, Task};

#[test]
fn round_robin_each_worker_at_least_floor() {
    let mut b = Broker::new(60);
    for w in ["w1", "w2", "w3"] {
        b.add_client(true, w, "T");
    }
    let mut counts = [0usize; 3];
    for k in 0..7u64 {
        let name = format!("c{}", k);
        let resp = format!("R{}", k);
        b.add_client(false, &name, &resp);
        let s = b.dispatch(Task::new("T", &resp, "P", k), k).unwrap();
        let w = s.worker_name.clone().unwrap();
        counts[["w1", "w2", "w3"].iter().position(|x| *x == w).unwrap()] += 1;
        assert!(b.delivery_outcome(s, true).is_none());
    }
    assert!(counts.iter().all(|c| *c >= 7 / 3));
    assert_eq!(counts, [3, 2, 2]);
}

#[test]
fn cursor_wraps_after_eviction() {
    let mut b = Broker::new(60);
    b.add_client(true, "w1", "T");
    b.add_client(true, "w2", "T");
    b.add_client(false, "c", "R");
    let s = b.dispatch(Task::new("T", "R", "P", 0), 0).unwrap();
    assert!(b.delivery_outcome(s, true).is_none());
    let s = b.dispatch(Task::new("T", "R", "P", 0), 0).unwrap();
    assert_eq!(s.worker_name.as_deref(), Some("w2"));
    let back = b.delivery_outcome(s, false).unwrap();
    let s = b.dispatch(back, 0).unwrap();
    assert_eq!(s.worker_name.as_deref(), Some("w1"));
}

#[test]
fn fan_out_reaches_every_subscriber_once() {
    let mut b = Broker::new(60);
    b.add_client(true, "w1", "T");
    b.add_client(false, "c1", "R");
    b.add_client(false, "c2", "R");
    b.add_client(false, "c1", "R");
    b.add_client(false, "c2", "S");
    let mut r = b.send_response("R");
    r.sort();
    assert_eq!(r, vec!["c1".to_string(), "c2".to_string()]);
    assert!(b.find_client(&"c1".to_string()).is_none());
    let c2 = &b.clients[b.find_client(&"c2".to_string()).unwrap()];
    assert_eq!(c2.topics, vec!["S".to_string()]);
    assert!(b.find_topic(&"R".to_string()).is_none());
}

#[test]
fn fan_out_keeps_worker_topic_row() {
    let mut b = Broker::new(60);
    b.add_client(true, "w1", "R");
    b.add_client(false, "c1", "R");
    let r = b.send_response("R");
    assert_eq!(r, vec!["c1".to_string()]);
    let t = &b.topics[b.find_topic(&"R".to_string()).unwrap()];
    assert!(t.clients.is_empty());
    assert_eq!(t.workers, vec!["w1".to_string()]);
}

#[test]
fn fan_out_purges_tasks_on_topic() {
    let mut b = Broker::new(60);
    b.add_client(true, "w1", "T");
    b.add_client(false, "c1", "R");
    b.add_client(false, "c2", "Q");
    for r in ["R", "Q", "R"] {
        let s = b.dispatch(Task::new("T", r, "P", 0), 0).unwrap();
        assert!(b.delivery_outcome(s, true).is_none());
    }
    b.send_response("R");
    assert_eq!(b.tasks.len(), 1);
    assert_eq!(b.tasks[0].response_topic, "Q");
}

#[test]
fn reply_without_subscribers_is_noop() {
    let mut b = Broker::new(60);
    b.add_client(true, "w1", "T");
    b.add_client(false, "c1", "R");
    let before = b.summary();
    let r = b.send_response("nobody");
    assert!(r.is_empty());
    assert_eq!(b.summary(), before);
    assert_eq!(before, (1, 1, 2, 0, 0));
}

#[test]
fn registrations_accumulate() {
    let mut b = Broker::new(60);
    b.add_client(true, "w1", "T");
    b.add_client(true, "w1", "T");
    let t = &b.topics[b.find_topic(&"T".to_string()).unwrap()];
    assert_eq!(t.workers.len(), 2);
    let c = &b.clients[b.find_client(&"w1".to_string()).unwrap()];
    assert_eq!(c.topics.len(), 2);
    assert!(c.is_worker);
}

#[test]
fn eviction_drops_empty_topics() {
    let mut b = Broker::new(60);
    b.add_client(true, "w1", "T");
    b.add_client(true, "w1", "U");
    b.add_client(true, "w2", "U");
    b.remove_worker("w1");
    assert!(b.find_topic(&"T".to_string()).is_none());
    let u = &b.topics[b.find_topic(&"U".to_string()).unwrap()];
    assert_eq!(u.workers, vec!["w2".to_string()]);
    assert!(b.find_client(&"w1".to_string()).is_none());
}

#[test]
fn summary_counts() {
    let mut b = Broker::new(60);
    b.add_client(true, "w1", "T");
    b.add_client(true, "w2", "T");
    b.add_client(false, "c1", "R");
    assert!(b.dispatch(Task::new("X", "R", "P", 0), 0).is_none());
    assert_eq!(b.summary(), (2, 1, 2, 0, 1));
}

#[test]
fn retry_counter_saturates() {
    let mut b = Broker::new(60);
    let mut t = Task::new("T", "R", "P", 0);
    t.retry = 255;
    assert!(b.dispatch(t, 0).is_none());
    assert_eq!(b.tasks_to_retry[0].retry, 255);
}

#[test]
fn frames_assemble_a_message() {
    let mut f = FrameReader::new();
    assert_eq!(f.push("id".to_string(), true).unwrap().is_none(), true);
    assert!(f.push("T".to_string(), true).unwrap().is_none());
    assert!(f.push("R".to_string(), true).unwrap().is_none());
    let m = f.push("P".to_string(), false).unwrap().unwrap();
    assert_eq!(m.identity, "id");
    assert_eq!(m.worker_topic, "T");
    assert_eq!(m.response_topic, "R");
    assert_eq!(m.payload, "P");
    assert_eq!(f.index, 0);
}

#[test]
fn fifth_frame_is_refused() {
    let mut f = FrameReader::new();
    for p in ["a", "b", "c", "d"] {
        assert!(f.push(p.to_string(), true).unwrap().is_none());
    }
    assert_eq!(f.push("e".to_string(), false).unwrap_err(), FrameError::TooManyFrames);
}

#[test]
fn empty_frames_are_legal() {
    let mut f = FrameReader::new();
    f.push("id".to_string(), true).unwrap();
    f.push("T".to_string(), true).unwrap();
    f.push(String::new(), true).unwrap();
    let m = f.push(String::new(), false).unwrap().unwrap();
    assert_eq!(broker::classify(&m.worker_topic, &m.response_topic), broker::MessageKind::Reply);
}

#[test]
fn register_drains_retry_queue() {
    let mut b = Broker::new(60);
    b.add_client(false, "c1", "R1");
    b.add_client(false, "c2", "R2");
    assert!(b.dispatch(Task::new("T", "R1", "A", 0), 0).is_none());
    assert!(b.dispatch(Task::new("T", "R2", "B", 0), 0).is_none());
    let waiting = b.register_worker("w1", "T");
    assert_eq!(waiting.len(), 2);
    assert_eq!(waiting[0].payload, "A");
    assert_eq!(waiting[1].payload, "B");
    assert!(b.tasks_to_retry.is_empty());
    let t = &b.topics[b.find_topic(&"T".to_string()).unwrap()];
    assert_eq!(t.workers, vec!["w1".to_string()]);
    for task in waiting {
        let s = b.dispatch(task, 1).unwrap();
        assert_eq!(s.worker_name.as_deref(), Some("w1"));
        assert!(b.delivery_outcome(s, true).is_none());
    }
    assert_eq!(b.tasks.len(), 2);
}

#[test]
fn fan_out_removes_one_subscription_per_listing() {
    let mut b = Broker::new(60);
    b.add_client(true, "p", "R");
    b.add_client(false, "p", "R");
    let r = b.send_response("R");
    assert_eq!(r, vec!["p".to_string()]);
    let p = &b.clients[b.find_client(&"p".to_string()).unwrap()];
    assert_eq!(p.topics, vec!["R".to_string()]);
    let t = &b.topics[b.find_topic(&"R".to_string()).unwrap()];
    assert_eq!(t.workers, vec!["p".to_string()]);
    assert!(t.clients.is_empty());
}

#[test]
fn fan_out_recipients_in_listing_order() {
    let mut b = Broker::new(60);
    b.add_client(false, "c2", "R");
    b.add_client(false, "c1", "R");
    b.add_client(false, "c2", "R");
    b.add_client(false, "c3", "R");
    let r = b.send_response("R");
    assert_eq!(r, vec!["c2".to_string(), "c1".to_string(), "c3".to_string()]);
    assert!(b.clients.is_empty());
    assert!(b.topics.is_empty());
}

#[test]
fn registration_keeps_cursor() {
    let mut b = Broker::new(60);
    b.add_client(true, "w1", "T");
    b.add_client(true, "w2", "T");
    assert_eq!(b.get_next_worker_name("T").as_deref(), Some("w1"));
    b.add_client(true, "w3", "T");
    assert_eq!(b.topics[0].next_worker_index, 1);
    assert_eq!(b.get_next_worker_name("T").as_deref(), Some("w2"));
    assert_eq!(b.get_next_worker_name("T").as_deref(), Some("w3"));
    assert_eq!(b.get_next_worker_name("T").as_deref(), Some("w1"));
    assert_eq!(b.topics[0].next_worker_index, 1);
}

#[test]
fn sweep_without_expiry_changes_nothing() {
    let mut b = Broker::new(60);
    b.add_client(true, "w1", "T");
    b.add_client(false, "c1", "R");
    b.add_client(false, "c1", "S");
    let s = b.dispatch(Task::new("T", "R", "P", 10), 10).unwrap();
    assert!(b.delivery_outcome(s, true).is_none());
    let before = b.summary();
    b.remove_timeout_tasks(20);
    assert_eq!(b.summary(), before);
    let c = &b.clients[b.find_client(&"c1".to_string()).unwrap()];
    assert_eq!(c.topics, vec!["R".to_string(), "S".to_string()]);
}

#[test]
fn cursor_stays_on_topic_without_workers() {
    let mut b = Broker::new(60);
    b.add_client(false, "c", "T");
    assert!(b.get_next_worker_name("T").is_none());
    assert_eq!(b.topics[0].next_worker_index, 0);
    assert!(b.get_next_worker_name("missing").is_none());
}

#[test]
fn eviction_clamps_cursor() {
    let mut b = Broker::new(60);
    b.add_client(true, "w1", "T");
    b.add_client(true, "w2", "T");
    b.add_client(true, "w3", "T");
    assert_eq!(b.get_next_worker_name("T").as_deref(), Some("w1"));
    assert_eq!(b.get_next_worker_name("T").as_deref(), Some("w2"));
    assert_eq!(b.get_next_worker_name("T").as_deref(), Some("w3"));
    assert_eq!(b.topics[0].next_worker_index, 3);
    b.remove_worker("w3");
    assert_eq!(b.topics[0].next_worker_index, 2);
    assert_eq!(b.get_next_worker_name("T").as_deref(), Some("w1"));
    b.remove_worker("w1");
    assert_eq!(b.topics[0].next_worker_index, 1);
    assert_eq!(b.get_next_worker_name("T").as_deref(), Some("w2"));
}
