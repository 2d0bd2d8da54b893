# chud

A chain of captcha-gated messages. Each message carries arbitrary data, a
freshly generated captcha, and the answer to the captcha of an earlier message;
its hash is the SHA-256 digest of its compact JSON form.

- `src/` is the library, verified with Verus:
  - `crypto::hash`: 32-byte hashes, their hex form, and the calls into `hex`
    and `sha2`.
  - `captcha`: captchas, generated through `captcha_rs`.
  - `keyed`: vectors of key-value pairs with distinct keys, read as maps.
  - `sys::json`, `sys::msg`: message data, its JSON form, its hash and lookback.
  - `sys::rt`: the runtime that stores messages and keeps the chains they form,
    with the longest chain, its head, and lookups along the current chain
    (the messages reached back from the longest head through previous hashes).
  - `net`: the client's state and the decisions of message gossip and chain
    synchronization, taken on plain values.
  - `rpc`: the commands and responses between the RPC interface and the client.
- `app/` is the program around it: the command line, the RPC server, saving
  and loading the client as JSON, and the loop that runs the client.
- `tests/` exercises the library.
