# rusty_time

An NTP client and server whose logic is verified with Verus.

`src/` is the library. Everything that decides something is there, with its
contract: the packet codec, the clock filter and its weighted regression, source
selection, the discipline loop, the client table with its rate limits and
interleaved mode, NTS extension fields and key-establishment records, the sealed
state store, reference clocks, the option and configuration parsers, and the
texts that go to service managers and browsers. Times are integers: nanoseconds
on the monotonic axis, picoseconds for offsets and delays, parts per quadrillion
for frequencies.

`app/` is the program around it, `rtimed` and `rtimec`: sockets, files, threads,
the system clock, and the JSON that the control socket speaks.

`tests/` runs the library.

| modules | what they hold |
|---|---|
| `wire`, `ntp`, `exchange`, `query` | bytes, packets, and what an exchange measures |
| `filter`, `wide`, `ranking`, `fading`, `regression`, `regression_laws` | samples and the line through them |
| `natural`, `select`, `select_laws` | which sources tell the truth |
| `arith`, `discipline`, `client`, `sync_loop`, `slew`, `vclock` | steering the clock |
| `policy`, `recency`, `hasher`, `server`, `client_laws`, `reply` | serving clients |
| `nts_fields`, `nts_session`, `ke` | authentication |
| `sealing`, `replica`, `entry_log`, `store`, `hex` | state that survives a restart |
| `refclock` | reference clocks |
| `api`, `control`, `gateway`, `service` | talking to operators, browsers and supervisors |
| `text`, `numbers`, `reals`, `flags`, `config`, `config_laws`, `query_options`, `serve_options`, `sync_options` | what operators write |

What the library takes on trust is said where it is taken: each function that
calls an outside crate states, above its body, what it relies on.
