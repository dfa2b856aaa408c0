# scram

The server side of SCRAM-SHA-256 (RFC 5802 with RFC 7677's hash), verified with
Verus.

- `src/message.rs` reads the two messages a client sends.
- `src/exchange.rs` and `src/table.rs` remember what stands between them, within
  a bound.
- `src/authenticator.rs` answers, weighs and signs.
- `src/store.rs` and `src/claim.rs` hold what is enrolled and what is presented;
  `src/nonce.rs` says where nonces come from; `src/text.rs` takes text apart.
- `src/laws.rs` states and proves what holds of all of it together, and
  `src/history.rs` what holds over many calls.
- `src/crypto.rs` holds the calls into other crates: SHA-256, HMAC, base64 and
  chance. Their contracts, and that of `String::push` in `src/text.rs`, are
  believed and not proved.
- `app/` puts the authenticator behind a lock, to be shared by reference.
