# codex_local_access

The logic of a local gateway in front of the Codex API. Clients on the same machine talk to it
under `/v1/` with a key of their own; it serves them with the accounts of a pool.

- `src/` is the library. It is verified with Verus: every function states what it returns, and
  the properties that span functions are proved as `pub proof fn`.
- `app/` is the part that Verus does not see: sockets, files, tasks and the account store.
- `tests/` runs the library, with the crates that it calls.

What is believed without proof stands in `src/` under `#[verifier::external_body]`,
`assume_specification` and `uninterp`: the calls into `serde_json`, `url`, `http` (through
`reqwest`), `chrono` and `rand`, and two functions of `std` that turn bytes and characters into
text. `serde_json` keeps the members of an object in an ordered map of `std`; the calls that take
an object apart and put one together rest on that map holding each key once.
