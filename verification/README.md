# oktz-signal

Signal protocol sessions in Rust, verified with Verus: X3DH key agreement, the
double ratchet, session records, XEdDSA signatures and the message wire format.

## Layout

- `src/` is the library, proved by Verus against its contracts.
  - `wire`, `proto`: protobuf primitives; `WhisperMessage` and
    `PreKeyWhisperMessage`.
  - `curve`, `kdf`, `cipher`, `util`, `clock`: key agreement and signatures, key
    derivation, AES-CBC, base64, time stamps. The calls into other crates stand
    here, each behind a small function whose contract is trusted.
  - `map`, `session`: maps in the order of their keys; session records.
  - `chain`, `turn`, `ratchet`: message keys, turning the ratchet, encryption
    and decryption.
  - `x3dh`: the first keys of a session.
  - `delivery`: what is promised of messages on their way from one record to
    another.
- `tests/` runs the library with the real crates.
- `app/` is the Node.js module around it: buffers, and session records as JSON.

## What is proved

Contracts are stated over the contents of records (`RecordView`) and over named
results of the primitives, such as `hmac_tag` or `x25519`. Beside the exact
result of every function, the library states, among others:

- messages decode to what was encoded, and unknown fields are skipped;
- a signature verifies under the public key of its secret key;
- an initiator and the recipient it means come to the same keys;
- a message decrypts to its plaintext at every receiver that has its key to
  give, in any order, once, and late ones too;
- a turn of the ratchet is followed by the other party;
- a changed authentication code is rejected.

What is random or read from a clock enters through functions that take it as an
argument (`..._with_seed`, `..._at`); the ones without it promise that some seed
or time explains their result.
