//! A total-order multicast simulator's receiver logic: a Lamport-style
//! logical clock, the message model exchanged between receivers and the
//! operator, and the queue discipline that executes a request once every
//! receiver has acknowledged it.

pub mod clock;
pub mod ipc;
pub mod order;
pub mod seqs;
pub mod receiver;
pub mod tasks;

pub mod ipc_ab;
pub mod receiver_b;
