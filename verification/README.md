# roomdag

The decisions that a Matrix homeserver takes about the event graph of a room,
as a library verified with Verus:

- `resolve`, `algorithm`, `conflicted_set`, `power_sort`: state resolution. Which
  events take part, what has to be fetched, how the power level of a sender is
  found, and what the resolved state is.
- `auth_set`, `auth_types`: auth chains, and the state that authorises an event.
- `unreject`: another chance for rejected events.
- `export`, `dag_stats`, `dag_files`, `dag_report`, `export_run`: an export of the event
  graph of a room, line by line, with its counts, its files and its report, and what
  holds of it as a whole.
- `signatures`, `verify_pdu`: an inspection of one event.
- `rules`, `conflict`, `state_map`, `ids`, `order`, `text`, `json`: what the others are
  made of.

State resolution itself is done by `rezzy`, JSON by `serde_json`, identifiers, room
versions and signatures by `ruma`. Each call into one of them stands in a small
function marked `#[verifier::external_body]`, whose comment names what is called and
what is taken on trust.

`app/` holds the asynchronous code around the library: it asks the services of the
server, hands the answers to the library, and does what the library decides.
`tests/` runs the library.
