//! A request/response message broker: registry of clients, workers and topics,
//! round-robin dispatch, fan-out of replies, timeouts and wire framing.

mod tables;
mod registry;
mod dispatch;
mod cascade;
mod responder;
mod sweeper;
mod wire;
mod rotation;
mod setting;

pub use cascade::{left_after_drop, listed, stripped_row};
pub use dispatch::{bumped, next_worker};
pub use responder::{first_seen, tasks_not_for};
pub use setting::{
    all_digits, digits_value, is_digit, parse_u64, parsed_u64, timeout_from, timeout_setting, unsigned_part, DEFAULT_TIMEOUT_SECS,
};
pub use sweeper::{expired, expired_topic, live_tasks, none_expired, strip_expired};
pub use rotation::{cursor_after_n, lemma_round_robin, slot_at, visit};
pub use wire::{
    classify, count_workers, is_worker_identity, kind_of, ping_token, pong_token, register_token, FrameError, FrameReader, Message,
    MessageKind,
};
pub use registry::{clamped, cursor_after, pick_index};
pub use tables::{
    clients_kept, count_of, drop_n, in_use, occurrences, others, subscribed, topics_kept, views, without, without_first, Broker, Client, Task, Topic,
};
