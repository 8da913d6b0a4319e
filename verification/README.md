# rust_mq

A small Kafka-like message queue. The library under `src/` holds the logic of broker
and clients, verified with Verus: every function is proved against its contract, but for
the few that call another crate or the standard library, whose contracts are taken on
trust and whose doc comments say so. The program under `app/` is ordinary Rust around
the library: the command line, files, sockets, timers and the disk.

## The library

| Module | What it holds |
| --- | --- |
| `maps`, `seqs`, `ids`, `order`, `text`, `wire` | maps and sets over vectors, sequences, sorting, text, numbers as bytes |
| `api` | the requests and answers between clients and brokers |
| `codec` | the versioned envelope of a message |
| `broker::groups`, `assignments`, `liveness`, `consumer_group_coordinator` | groups: joining, leaving, rebalancing, who reads which partition |
| `broker::raft`, `state_machine`, `store`, `recovery`, `durability` | the replicated state, what a command does to it, what is written to the store, and what a store is read back as |
| `broker::storage`, `sled_storage`, `multi_broker`, `replicated`, `reading` | brokers on this state: in memory, on disk, replicated |
| `broker::partition_log`, `kraft` | partition logs with a watermark, replicas in sync, followers, the broker on top of them |
| `broker::controller`, `cluster` | the metadata of a cluster, failover, starting and joining |
| `broker::raft_types`, `raft_state_machine`, `raft_storage`, `raft_broker`, `simple_raft`, `controller_types`, `controller_state_machine` | two further state machines with their logs |
| `broker::sbe_tcp`, `raft_network` | the binary form of replication messages, frames, buffers, peers |
| `broker::service`, `broker_core`, `rpc_router`, `command_gateway` | what a storage promises, and how requests and commands are answered from it |
| `client` | producer, consumer, membership in groups, partition leaders, configuration |

Times are arguments: a function that needs the time takes it in milliseconds. Where
the program waits, asks or stores, the library says what to do next and takes the
outcome.

## What is proved of the whole

Public proof functions state what holds across calls. Among them: every partition of a
topic has exactly one reader in a group, and shares differ by one partition at most;
offsets never fall, and messages stay until they are truncated; a store gives back the
state that was written to it, from the bytes of its keys, messages and numbers, and from
the values of its groups, whose bytes the program under `app/` codes; a message that was produced is read as it was produced; a
committed offset is recalled; a reader sees nothing at or above the watermark, which
moves no further than the slowest replica in sync; a rebalance waits for every member
until its time is over; a dead broker leads nothing; a consumer goes on behind what it
has handled; every encoded message, entry, key and envelope reads back.

## The program

`app/` has the modes `broker`, `producer` and `consumer`:

    rust-mq --mode <MODE> [--config <CONFIG>] [--broker <BROKER>]

A broker without a configuration file keeps everything in memory. One with a file takes
part in a cluster; `transport` chooses between `grpc` and `sbe_tcp`.
