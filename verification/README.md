# tehuti

Building blocks for networked games: peers that meet, channels between them, values that are
kept the same on several machines, remote calls, an authority that hands out numbers, and
histories of values and commands over ticks.

The library in `src/` is written in Verus. A function states what it does in `requires` and
`ensures`, its own or those of the trait it belongs to, and Verus proves it. There are two
exceptions. Calls into other crates, and a few into the standard library, stand behind small
functions whose contracts are trusted: each says in its comment what it claims of the call, which
for chance, time and other threads can be nothing. And impls of `Hash` do not state what becomes
of the hasher. What holds across functions is stated by public proof functions whose names begin
with `law_`.

| module | what it holds |
| --- | --- |
| `wire`, `buffer`, `endian`, `leb`, `number`, `primitive` | bytes, and numbers and text as bytes |
| `codec` | messages as bytes |
| `replication`, `rpc`, `replica`, `fixed` | values that travel, and calls |
| `packet`, `channel`, `protocol`, `session` | packets, channels and frames |
| `peer`, `user_data`, `meeting`, `engine`, `wiring`, `outgoing`, `mock` | peers, meetings and the machines they are on |
| `delivery` | what becomes of a message on its way from machine to machine |
| `client_server` | an authority, controllers and puppets |
| `timeline` | ticks, clocks, histories of values and of commands |
| `event`, `ordered_map`, `std_maps`, `error`, `label` | queues between threads, maps, failures, ids as text |
| `text`, `diagnostics`, `keys` | text on a screen, logs and keys |

`app/` is ordinary Rust around the library: threads, sockets, terminals, log files, messages as
other crates serialize them, and what takes floating point numbers. `tests/` runs the library.
