# dynamodb-streams-consumer

A consumer for DynamoDB Streams whose decisions are verified with
[Verus](https://github.com/verus-lang/verus): parallel workers share the shards
of a stream through leases in a DynamoDB table, deliver the records of each
shard in order, finish parents before their children, and checkpoint what was
acknowledged.

## Layout

- `src/` is the library, which Verus verifies against the contracts of its
  functions. Nothing in it does I/O: what depends on calls is a state machine that
  asks for effects and takes their results as events.
  - `taker`, `coordinator`, `leader`, `cleanup`, `position`, `backoff`,
    `multistream`, `metrics`: the rules of lease sharing.
  - `scheduler`: a single worker over traits for the stream, the lease table and
    the processor; `scheduler::desk` makes its calls and keeps their order.
  - `worker`: which shards may be read, and the passes of a single worker.
  - `fleet`: what a worker of a fleet decides in each coordination cycle, from
    leadership to the processing pool.
  - `lease_table`, `lease_wire`, `lease_scan`, `table_setup`: conditional writes
    of the lease table, their wire form, scans, and the setup of the table.
  - `source`: descriptions of a stream, its shard graph, and rounds of reading.
  - `record`, `json`, `client`, `sidecar`: change records, their JSON views, and
    the configuration and the main loop of a consumer.
  - `text`, `collections`: strings, string sets and string maps with contracts.
- `tests/` runs the library, with a simulated stream, lease table and clock.
- `app/` is the process around it: the AWS SDK, the async runtime, and the
  conversation with a client over standard input and output.

## Laws

What holds of the library as a whole is stated as public proof functions whose
names begin with `law_`, next to the functions that they speak of. Three modules
speak of a whole fleet over time: `fleet::delivery` of one shard, whoever holds
its lease and whatever fails; `fleet::lineage` of a lease table, from which
shards are read in the order of their descent; and `fleet::holding` of one
member, which holds no more leases than its limit.

## What is trusted

Two crates are called from the library, in `src/json.rs`: the constructors of
`serde_json::Value`, and the standard Base64 engine of `base64`. The contracts of
these calls are taken on trust and are stated there.
