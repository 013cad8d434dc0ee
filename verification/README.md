# clippy_sync

Clippy is a clipboard notebook that keeps the devices of one account in step. This crate holds its
logic, written in Verus: the functions in `src/` state what they return or change, and the verifier
proves it. It takes on trust what is stated of the outside crates that do the cryptography, the JSON
and the addresses: each such call stands in a small function whose comment names it and says what is
believed. Of what is drawn at random only the form is stated, and of what a clock says nothing.

- `model`, `convergence`, `agreement`: operations, version vectors, registers and entities, and why
  devices that have seen the same operations agree.
- `store`, `scan`, `snapshot`, `exchange`, `projection`, `attachments`, `batches`, `log_laws`: a
  device's copy of a workspace, what it tells others, what it takes in, and what is shown of it.
- `engine`, `activation`, `admission`, `enrollment`, `coordinator`, `cloud`, `schedule`: the passes
  with the cloud store, as machines that are told what has happened and say what to do next.
- `crypto`, `encoding`, `signing`, `dpop`, `sessions`, `relay`, `auth`, `login`, `linking`: keys,
  envelopes, pairings, proofs, tokens and the link to a relay.
- `origin`, `transfer`, `tunnel`: what a device answers to the others.
- `notebook`, `entries`, `export`, `agent`, `companion`, `capture`, `status`: lists and notes, what
  an agent may do with them, and what the window shows.
- `text`, `textmap`, `plain`, `bykind`, `json`, `files`, `ids`, `weburl`, `counters`, `limits`: the
  ground that the rest stands on.

Calls into other crates stand behind small functions marked `external_body`, each with the outside
function named above it. Public `lemma_` functions state what holds of several functions together.

`app/` is the program around the library: files, the database, the network and the command line.
`tests/` runs the library on concrete values.
