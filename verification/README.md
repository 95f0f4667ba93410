# cachic

An HTTP caching proxy for game-distribution and OS-update CDN traffic, with its logic verified in
Verus.

Large objects are cut into fixed-size slices. A request becomes a set of slices, which come from the
store or from the origin; what comes from the origin is held against what is already known of the
object before it is kept, so no answer mixes two versions. Hosts are matched against a list of
services, cache keys are normalised per service, and upstream addresses pass a guard, so that the
cache is no open proxy.

## Layout

- `src/` is the library. Every function in it has a contract that Verus proves.
  - `config`: settings, sizes and durations, the cache directory guard, per-service rules, the
    configuration reference.
  - `services`: the domain list, host matching, cache keys, shipped rules, refresh.
  - `proxy`: ranges and slices, headers, routing and answering, connection limits, draining.
  - `store`: the byte formats of slices and index entries, store sizing, the free-space guard.
  - `orchestrator`: planning, probing, filling, read-ahead, validators. `flow` decides what is done
    next after each read, fetch or wait.
  - `upstream`: the address guard, resolution, the fetch state machine.
  - `sni`: reading the server name of a TLS client, and the pass-through connection.
  - `admin`, `telemetry`, `startup`: the operator API, logs and metrics, and how the process starts.
  - `spike`: the decisions of the prototype proxy.
  - `testkit`: deterministic content, a mock origin, a mock DNS server, a differ and a load report.
  - `text`, `wire`: characters, numbers and bytes.
- `tests/` exercises the library from outside.
- `app/` is the program around it: sockets, files, the store engine, the index database, the
  command line.

## What is trusted

A few calls into other crates are given contracts that are not proved: hashing (`blake3`,
`xxhash-rust`), regular expressions (`regex`), URLs (`reqwest`), the text of a status code (`hyper`),
and a handful of standard string functions. Each stands behind a small wrapper whose comment says
what is claimed of it.
