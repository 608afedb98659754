# ironcache

The rules of a sharded, Redis-compatible cache: how the shards share work, how a node
saves, boots, stops and hands over, and how a cluster is rolled to a new version. The
library under `src/` is written in Verus; each function states what it returns or changes,
and the proofs are part of the source.

## Modules

- `coordinator`, `inbox`, `multikey`, `publish`: work that spans shards, and how its answers
  are gathered.
- `drain`: the boot of a shard, the loop in which it serves the others, and its stop.
- `persist`, `handoff`, `affinity`: saves, the snapshot of an upgrade, and the cores of the
  threads that write.
- `pubsub`, `subscriptions`, `blocking`: who is told what, and who waits for which key.
- `metrics_http`, `panic_hook`, `fd_budget`, `cluster_bus`: the health endpoint, the last
  words of a panic, the open-file limit, and the warning about an open bus.
- `cluster_observe`, `cluster_upgrade`, `cluster_upgrade_driver`, `cluster_upgrade_inventory`,
  `seams`, `rolling`, `repl`, `resp`, `client`, `idset`: the rolling upgrade, from the bytes on the
  wire to the order of its steps.
- `cli`, `server`: the arguments and the commands of the program.
- `text`, `bytes`, `value`: strings, byte strings and reply values.
- `history`: what was done so far, for the proofs.

What spans several functions is stated by the public proof functions whose names begin with
`law_`.

## Around the library

`app/` is the program: arguments, files, sockets, processes and signals, around the
decisions of the library. It can talk to servers and roll clusters; to serve, it needs a
storage engine behind the traits of `app/node.rs` and `app/shard.rs`, and none is part of
this project. `tests/` runs the library on concrete values.

Functions marked `external_body`, and the one `assume_specification`, call code outside the
library; their doc comments name it and say what is taken on trust.
