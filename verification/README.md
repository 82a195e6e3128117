# multi_cast_clock

The receiver logic of a total-order multicast simulator, verified with Verus.

- `src/clock.rs`: the logical clock (counted in tenths of a time unit), its
  tick, its catch-up on messages from the future, and the random pause of a
  receiver.
- `src/ipc.rs`: messages, the stable sort of the queue by timestamp, and the
  check that executes requests whose acknowledgements are complete.
- `src/order.rs`, `src/tasks.rs`, `src/seqs.rs`: what the sort and the check compute, as
  spec functions, and the laws proved of them.
- `src/receiver.rs`: how a receiver takes in a message.
- `src/ipc_ab.rs`, `src/receiver_b.rs`: the two-receiver (A/B) variant.
- `app/`: the receiver program: threads, sockets, JSON, printing.
