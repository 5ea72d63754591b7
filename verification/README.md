# NHIP

A verified library for the Nested Hierarchical Internet Protocol, and the programs around it.

An NHIP address is a network part of up to eight blocks, a colon and a NodeID, such as
`ru.msk.home:1k5`. Packets start on a slow path, where the daemon picks a route, and continue on a
fast path, where a link label is all that is looked up. NHARP finds the hardware address of a
NodeID.

## Layout

- `src/` is the library. Its functions have contracts that Verus proves, but for those that hand a
  call to `bytemuck`, `hex` or the standard library: ten wrappers (six around `bytemuck` in
  `bytes`, two around `hex` in `number`, two around the standard library in `text`) and the
  contract of `String::push` are believed. The comment above each says what it claims.
  - `addr`, `number`, `text`, `bytes`: the notation of addresses and numbers, and byte orders
  - `header`, `nharp`, `label`: the packet formats and link labels
  - `cfg`, `iface`: the configuration, and the interfaces as the kernel lists them
  - `daemon`, `forward`, `nharp_ctl`, `ctl`, `socket`: what the daemon decides
  - `xdp`: the fast path
  - `nhipctl`, `nhipping`: the control tool and the ping tool
- `tests/` holds its tests.
- `app/` holds the programs: files, sockets and kernel tables around the library. `app/xdp.rs` is
  the program for the kernel. The object that the daemon loads is not built here: for the BPF
  target that program needs a crate root without the standard library, and so does the part of the
  library that it calls. NHARP has no EtherType of its own in the protocol, so `app/daemon.rs`
  picks one.

The names of proof functions that state a property of the library as a whole start with `law_`.
