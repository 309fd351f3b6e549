# xarxa

A network stack for small systems, written in Verus: the behaviour of every function is
stated in its contract, and the contracts are proved.

## Layout

- `src/storage`: ring buffers, packet buffers with egress queues, slabs, and the
  reassembly of streams.
- `src/wire`: addresses, sequence numbers, checksums, and IP and UDP headers and the ICMP
  error for an unreachable port as octets.
- `src/stack.rs`, `src/iface.rs`, `src/driver.rs`: interfaces, routes, packet buffers and
  what passes between the stack and a device.
- `src/tcp`: TCP sockets and listeners.
  - `model.rs` and `egress.rs` say what a socket is and what it does, as functions of its
    state: the effect of a segment that arrives, and the segment that it sends next.
  - `state.rs`, `dispatch.rs`, `flush.rs`, `socket.rs` and `listener.rs` are the code.
  - `stream.rs` states that the octets one end sends are those the other end receives,
    in order; `laws.rs` holds the other rules that a connection keeps.
- `src/udp`: UDP sockets, which socket gets a datagram, what becomes of one that nobody
  takes, and `laws.rs`.
- `src/test_device.rs`, `src/testing_device.rs`: devices without a network.
- `tests`: tests that run the library.

Public proof functions whose names start with `law_` state properties of the library as a
whole; everything else about a function stands in its contract.

## What is trusted

`managed::ManagedSlice` is used with its two variants in the open, and
`core::task::Waker` as a value that can be cloned and woken.
