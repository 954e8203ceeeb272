# archiv-agent

A log governance agent for OpenTelemetry. It sits between services and the
destination of their logs, samples records, masks secrets in them, and hands
the rest on. When governance fails, the payload still leaves as it came.

The agent's logic is a verified library (`src/`, in Verus). What talks to
sockets, files and clocks is ordinary Rust around it (`app/`).

## The library

| Modules | What they hold |
| --- | --- |
| `wire`, `otlp` | the protobuf cursor and the walk that finds records in a request as offsets |
| `envelope`, `guard`, `ingest` | records, decisions, and the fail-open boundary around a stage |
| `sampling`, `policy` | the keep/drop decision and the rules that set its target |
| `glob`, `lint`, `redact` | attribute patterns, the pattern lint, and the redaction engine |
| `export`, `fidelity` | how a governed request is put together, and what it says when it is read again |
| `pipeline`, `breaker`, `config` | one payload through all stages, the rolling-window breaker around redaction, the policy |
| `metrics`, `spool`, `forward`, `grpc`, `server` | window counters, the spool's books, and the receivers' decisions |
| `buffer`, `lists`, `hash`, `pattern`, `clock`, `text` | what is taken from `bytes`, `smallvec`, `xxhash-rust`, `regex` and std |

Functions state what they return over spec functions of plain sequences and
integers. Promises that span functions are public proof functions named
`law_..`; among them:

- an assembled request parses, and holds exactly the records that were kept,
  in their order, each masked as asked (`fidelity`, `pipeline`);
- a payload that does not parse, or to which no policy applies, leaves byte for
  byte as it came (`pipeline`);
- in a dry run every payload is handed on as it came, while the counters at
  `/metrics` tell what would have left (`pipeline`, `server`);
- any threshold of faults within one window opens a closed breaker, and fewer
  never do (`breaker`);
- of any number of ticks and a shutdown, every metrics window is delivered
  exactly once, whatever the sink says (`metrics`);
- records of one trace get one verdict wherever their target agrees, and
  raising a target never drops what was kept (`pipeline`, `sampling`);
- a payload is acknowledged only where it was forwarded or is safely held, and
  the spool delivers in order and evicts nothing (`server`, `spool`).

What is believed without proof are the contracts of outside functions, in
`buffer`, `lists`, `hash`, `pattern`, `clock` and `text`. Each says which
function it speaks of.
