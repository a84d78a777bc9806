# nya_core

A multipath overlay: several independent TCP+TLS links carry one session of
multiplexed streams. A stream sticks to the fastest class of links, moves when
its link fails or falls silent, and goes back when a faster one returns.

The library is sans-I/O. A host owns sockets, timers and tasks; it hands the
library frames, times (whole microseconds of one monotonic clock) and the
scheduler's answers, and does what comes back. Every function states what it
returns or changes, and Verus proves it.

## Layout

| place | what |
| --- | --- |
| `src/double.rs`, `num.rs`, `text.rs` | numbers as 53-bit binary floating point, integers, text |
| `src/tuning.rs`, `cfg.rs`, `path.rs`, `pool.rs` | clocks, limits, the pool of paths |
| `src/stream.rs`, `recv.rs`, `window.rs`, `send.rs`, `resend.rs` | one stream: reordering, windows, pieces, re-sends |
| `src/wire.rs`, `ledger.rs`, `early.rs`, `memory.rs`, `frames.rs`, `sched.rs` | queues, repeats of Open, Close and Reset, early data |
| `src/session.rs`, `opening.rs`, `outbound.rs`, `sending.rs`, `blocked.rs`, `inbound.rs`, `replies.rs`, `closing.rs`, `dispatch.rs` | a session, frame by frame |
| `src/steer.rs`, `health.rs`, `quiet.rs`, `failover.rs`, `hol.rs`, `outlier.rs`, `stall.rs`, `sweep.rs`, `upkeep.rs` | the periodic tick |
| `src/table.rs`, `snapshot.rs`, `rollup.rs`, `metrics.rs` | the sessions of a server, and what is shown of them |
| `src/tls.rs` | pins, certificates and keys |
| `src/impair.rs`, `packet_wan.rs`, `pipe.rs`, `workload.rs` | impaired links, a packet pipe, traffic and its statistics |
| `src/faults.rs`, `actors.rs`, `mixed.rs`, `harness.rs`, `casebook.rs` | the mixed-fault suites and their account |
| `src/scenarios.rs`, `verdicts.rs`, `report.rs` | the scenario matrix and its verdicts |
| `tests/` | behaviour on concrete values |
| `app/` | the program: sockets, TLS, processes, the command line |

Proof functions named `law_…` state what holds across functions: delivered
bytes are the sender's bytes, a failed path costs no byte, and so on.

## Conventions

- Durations are microseconds in a `u64`; sums that would not fit are held at
  `u64::MAX`.
- Loss is in parts per million, the least share of answers in thousandths.
- Rates, shares and scaled times are computed in doubles, which `double.rs`
  holds as integers: each result is the double nearest to the exact one, and of
  two equally near ones the even one. A count is what stands before the point.
- A scheduler is a trait without promises: a session holds for every answer.
  What it does is stated in terms of the answer that the scheduler gave for the
  pool it was shown; where an answer matters to the caller, the result holds it.
- A share or a time in words is the decimal nearest to the double; of two
  equally near ones, the even one.
