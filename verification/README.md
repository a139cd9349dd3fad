# nemo

The core of a private messenger and of its home server, written in Verus:
every function in `src/` carries a contract that Verus proves.

## Layout

- `src/` – the verified library.
  - Wire and storage formats: `cbor` (the data items every stored form and
    message uses), `app` (application messages), `home` and `home_state`
    (the durable binding to a home), `snapshot`, `invite`, `hex`,
    `display`, `signal_image` and `vault_lists` (what the vault keeps),
    `keyed` (maps kept as key-ordered lists).
  - Client rules: `privacy` (send timing and the Tor hop per privacy mode),
    `discovery` (what a contact pin accepts), `call` and `ice` (call
    signalling), `tor` (SOCKS5 and HTTP/1.1 framing), `audio` (sample
    queues and channel mixing), `vault` (key derivation parameters),
    `device_bind`, `group`, `ffi` (the records handed to the apps),
    `identity` (the revocation seed written down as a BIP-39 phrase),
    `session` (privacy mode names, re-homing, wake-up frames).
  - Server rules: `mailbox`, `server` (mailboxes, delivery tokens, prekeys,
    replay window), `home_server` (a whole home: registration, discovery,
    delivery, owner fetch and ack, bindings, revocation, the server to
    server hop), `group_host` (hosted group streams and files),
    `federation` (outbound retry schedule and link counters), `turn`.
  - Outside crates (randomness, Argon2, HMAC, Base64, BIP-39, constant-time
    comparison) are reached through a few trusted wrappers, each documented
    where it stands.
- `tests/` – tests run against the compiled library.
- `app/` – the parts that are input and output: environment, device key
  storage, HTTP and Tor transports, audio resampling.

Properties that relate several operations are stated as `law_*` proof
functions next to the code they are about (for example that every stored
form reads back as what was stored, that a share token lets one envelope
in, and that a replayed envelope gets its first number again).
