# motherboard

A service locator and RPC transport for an operating system built around a kernel module:
services bind names, clients call them through the module, replies travel back by reply
token, and services publish stores that clients subscribe to. Around it sit MIDL, the interface
language services are described in, a userspace client, and a few small programs.

The library is verified with Verus: the functions in `src/` carry contracts and are proved
against them. The exceptions are the small wrappers around calls into `hashbrown` and `std`
(in `src/kernel/tables.rs`, `src/text.rs` and `src/poc.rs`, each marked
`#[verifier::external_body]`): their contracts restate what those libraries document and are
trusted, not proved.

## Layout

- `src/protocol.rs` — the commands, replies, inbox messages and errors exchanged with the module.
- `src/kernel/` — the module's bookkeeping:
  - `state.rs`: the state and what each command does to it (`State::execute_command`: binding
    services, calls and replies, store creation, updates with their fan-out to subscribers,
    public and private subscriptions, unsubscribing, fetching), plus connection cleanup, which
    also drops a closing provider's stores and sends `ServiceClosed` to their subscribers.
    The work only the kernel can do (resolving and installing descriptors, latch descriptors,
    waking pollers) is left to the caller, which gets a `Step` saying what remains.
  - `services.rs`, `reply_tokens.rs`, `message_inbox.rs`: bound services and their queued
    calls, reply tokens, per-connection inboxes with their latch generations.
  - `services/store.rs`: named and anonymous stores, store subscriptions, pending
    subscription requests.
  - `device.rs`: the device's checks on an `ioctl` request number and ABI version.
  - `numbering.rs`: allocation of nonzero numbers (tokens, anonymous store ids).
  - `tables.rs`: the `hashbrown` maps the state is kept in, each behind a small contract.
  - `laws.rs`: what holds across commands (a reply reaches its caller, tokens work once, ...).
- `src/midl/` — MIDL: syntax tree, tokenizer, parser, and the compiler's argument handling.
- `src/client.rs` — how a client numbers requests and reads the module's answers.
- `src/ui.rs` — store subscriptions of a user interface and what inbox messages mean for them.
- `src/poc.rs` — the decisions of the ping service, the settings service and the settings window.
- `app/` — the `midl` front end (reads and checks an interface file), the `postcard`/`serde`
  wire form of the protocol types, latch waiting, and the benchmark helpers that work in
  floating point.
- `tests/` — scenarios for each part of the library.
