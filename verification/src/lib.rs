//! An in-memory publish/subscribe message broker core.
//!
//! Topics route published messages to subscribers, shaped by two per-topic
//! policies: a retention window that keeps messages available for late
//! subscribers, and a compaction window that suppresses repeated keys.
//! Delivery to a client is pull-style: one message in flight, the next only
//! after a commit.
//!
//! This crate holds the broker's logic: the wire codec, the per-topic
//! controller, the topic registry, and the per-connection subscription
//! manager's state machine. Network plumbing lives outside; it hands in
//! decoded frames stamped with a millisecond instant and carries out the
//! actions these functions return.

pub mod protocol;
pub mod subscription_manager;
pub mod topic_controller;
pub mod topic_registry;
