# cpa-stg

Admission control and error mapping for streaming model requests, verified with
[Verus](https://github.com/verus-lang/verus).

Two plugins for a model proxy are built on this library. The admission plugin gives
every credential a token bucket, a limit on running attempts and a bounded waiting
line. The router plugin passes streams of the Responses protocol on and turns the
failures that its rules match into ones that clients retry.

## Layout

| Path | What is in it |
| --- | --- |
| `src/bucket.rs` | token buckets, measured exactly in whole units |
| `src/state.rs` | the admission state and how each event changes it |
| `src/upkeep.rs` | every event keeps the state consistent |
| `src/laws.rs` | what admission promises of one event, or of two |
| `src/runs.rs` | what it promises over whole runs: rates, limits, counts |
| `src/engine.rs` | the executable engine, proved against `state` |
| `src/runtime.rs` | one step of an acquisition at a time |
| `src/config.rs` | policies, their limits, overrides |
| `src/protocol.rs` | the admission plugin's answers to the host |
| `src/router.rs`, `src/pump.rs` | the router plugin's answers, and one stream |
| `src/error_mapping.rs` | rules, delays, failures, rewriting |
| `src/framing.rs`, `src/stream.rs`, `src/records.rs` | server-sent events |
| `src/host.rs`, `src/abi.rs` | answers of the host, decisions at the native boundary |
| `src/probe.rs` | what the end-to-end probe expects |
| `src/json.rs`, `src/encoding.rs`, `src/text.rs`, `src/table.rs`, `src/clock.rs` | the ground floor |
| `tests/` | tests of the library |
| `app/` | the native plugin: C interface, threads, locks, serde |

## How the pieces fit

The engine's contracts are exact: each method computes the transition that
`state` defines over plain maps and sequences. The promises of the library (first
come, first served; no token back; no debt forgotten; nothing revived) are proved of
those transitions in `laws` and `runs`, and so hold of the engine.

What blocks, sleeps or talks to the host is left to `app/`. The library says what to
do next: a call ends in an answer, in a document to be decoded, or in a wait that is
resumed later.

JSON and base64 come from `serde_json` and `base64`. What is believed of them stands
in `json` and `encoding`, in the contracts of a few small functions.
