# track

Which accounts a market-data process subscribes to, and why.

Several consumers (wallet, momentum, arbitrage, tracker) want groups of accounts to be
followed. The subscription has a fixed cap. This library decides which groups are in, which
have to go for others, and how demand that cannot be met at once is kept and replayed. It is
written in [Verus](https://github.com/verus-lang/verus): every function in `src/` but for two
carries a contract that is proved. The two are named under "What is taken on trust".

## Layout

| Where | What |
| --- | --- |
| `ordered`, `pubkey`, `aged_key`, `row_order` | Ordered lists and maps, addresses, sort keys |
| `owner_index`, `explicit_ownership` | Groups of addresses by owner, with reference counts |
| `touch_stamps` | Least-recently-used stamps and their renumbering |
| `eviction_model`, `eviction_planner` | Which groups make room, as mathematics and as code |
| `explicit_admission` | Admission under a fixed cap, with rollback |
| `desired_set`, `desired_admission` | The demanded set, address by address and group by group |
| `admission_wiring`, `geyser_sync` | From demand rows to admitted groups to a push |
| `nats`, `coalesce` | Feed updates and merging bursts of them |
| `worker_commands`, `pending` | Commands, their revisions, and what waits for replay |
| `worker`, `worker_loop` | What a command does, and the loop as a state machine |
| `snapshot`, `decimal`, `barrier`, `enrichment` | Stored snapshots, the connect barrier, pool membership |

`app/` holds what cannot be proved here: threads, channels, the clock, the snapshot file. It
runs the state machine of `worker_loop` and carries out what that asks for.

`tests/` runs the library on concrete values.

## What is taken on trust

Two functions of `snapshot` call `solana_sdk`: writing an address as text and reading it back.
Their contracts say that both are functions of their argument and that a written address reads
back as itself.
