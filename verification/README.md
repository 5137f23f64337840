# shredwatch

Connects to several sources of Solana shreds at once, records when each shred arrives from each of
them, and reports which source is the fastest, which is the most complete, and when each one has
delivered a whole block.

All latencies are relative: they are measured against the earliest arrival over all running sources
on the same machine, so no clocks need to be synchronised. With a single source every latency is
zero.

## Layout

`src/` is the library. Every function in it is verified with Verus against its contract.

| Module | What it is about |
| --- | --- |
| `shred`, `wire`, `bytes` | the keys and the fields of shreds |
| `erasure`, `fec` | forward error correction sets and their recovery |
| `entries`, `slot`, `reconstruction` | decoding entries, assembling slots, following sources |
| `delivery`, `repair` | that neither the order of shreds nor the choice among them matters |
| `registry`, `store` | what has arrived from which source, and when |
| `stats`, `blocks`, `percentiles` | what the records of a run amount to |
| `binary64`, `monotone`, `ranks` | arithmetic on 53 bits, as the percentiles and percentages need it |
| `table`, `text`, `order`, `report`, `logfile` | how a run is reported |
| `config`, `run` | which sources a run has, what it records, and when it ends |
| `pcap`, `yellowstone`, `interface`, `leader` | what comes in from outside, and what it says |
| `clock`, `keys` | time, and the keys of hash maps |

`app/` is the program around it: arguments, sockets, gRPC streams, RPC requests, the log file and
the printed tables. `tests/` runs the library on concrete values.

## What is trusted

A few functions of other crates and of the standard library are called through declarations whose
contracts Verus takes as they are. Each has a doc comment that says what is claimed of it:

- `erasure::reconstruct`: Reed-Solomon recovery by `reed_solomon_erasure`;
- `store`: the `DashMap`s that a registry is kept in;
- `clock`: readings of the monotonic clock, of which nothing is claimed;
- `percentiles::sort` and `String::push`.

## Use

```toml
duration_secs = 60

[[sources.raw_udp]]
bind_addr = "0.0.0.0:8001"

[[sources.yellowstone]]
endpoint = "http://127.0.0.1:10000"
```

```bash
shredwatch --config config.toml --log-file run.log
```

Instead of a duration, `start_slot` and `end_slot` limit a run to a range of slots; it then ends
about two seconds after a shred beyond `end_slot` arrives. A run also ends when no shred arrives for
`silence_timeout_secs`.

Capturing raw packets needs the `cap_net_raw` capability and Linux.
