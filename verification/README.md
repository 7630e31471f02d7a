# datacenter_simulator

A simulator of a small GPU datacenter, written in Verus. The library keeps a
session of simulations (nodes, interfaces, links, services, instructions,
checkpoints), runs their lifecycle, routes and schedules transfers over the
simulated fabric, offers a software verbs fabric, imports and exports
manifests, compiles NetBox snapshots into manifests, plans the guest networking
of the native fabric, and checks the reports of the native backends (DeepOps, Slurm, nccl-tests, Mokka, Incus, InfiniBand
simulation).

Layout:

- `src/` — the verified library. Verus proves every function against its
  contract (a few small helpers state nothing beyond their types); the few calls into outside crates (petgraph, serde_json, sha2, uuid,
  chrono) sit behind small trusted wrappers whose contracts state what those
  crates document.
- `tests/` — ordinary Rust tests of the library.
- `app/` — the command-line program: argument handling, file and network I/O,
  and the serde copies of the library's types.

Verify with Verus on `src/lib.rs`; build and test with Cargo.
