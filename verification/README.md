# CyberSentinel, verified core

The logic of a host and network intrusion sensor, written in Rust and verified
with [Verus](https://github.com/verus-lang/verus). What a function returns or
changes is stated in its contract over a mathematical model, and proved.

## Layout

`src/` is the library; every item of it is verified.

| Module | What it holds |
|---|---|
| `reassembly` | A bounded range buffer with an overlap policy, IP defragmentation, TCP stream reassembly, the flow table, per-host policies, URL path normalization |
| `rules` | The `.rules` format: its model, its parser, its loader |
| `hids` | File integrity against a baseline, authentication logs and their tailer, the process table, Windows logon events and change journals, the state of each source, and the sensor that polls them |
| `prevent` | The verdict store, the per-packet decision, queue statistics, and the `nft` text around them |
| `address`, `bytes`, `config`, `counting`, `net`, `sorted`, `tally`, `text`, `time` | What the others share |

Properties that span several functions stand beside them as public proof
functions whose names begin with `law_`: for instance that a message cut into
segments, all inside the window and under the caps, comes back whole in whatever
order they arrive, that every stream byte taken in is delivered, dropped or still
held, that nothing enters a stream past its FIN, that both directions of a conversation share one key, that a
truncated scan never reports a deletion, that a full store forgets nothing it
holds, and that every line of a rule file is either loaded or accounted for.

`app/` is ordinary Rust around the library: files, `/proc`, `journalctl`, file
watching, SQLite, `nft`, the kernel's packet queue and the event sinks. It reads
and writes, and leaves every decision to the library.

`tests/` runs the library on concrete values.

## What is believed rather than proved

The library calls the standard library, `serde_json` and `sha2` through a small
number of trusted items. Each names the outside function and says what is claimed
of it; they stand in `text`, `bytes`, `time`, `hids::json` and `hids::digest`.
Implementations of `prevent::queue::VerdictSource` outside this crate are believed
to answer as that trait says.

Counters are 64 bits wide and are proved not to overflow under the room that each
contract asks for.
