# flexaccess_keys

Ed25519 authentication keys in the `ed25519-sec:` / `ed25519-pub:` token
format, generated key files, and authorized-keys documents, verified with
Verus.

- `src/` is the verified library:
  - `text.rs`: whitespace, trimming, line splitting, decimal text;
  - `time.rs`: the proleptic Gregorian calendar and RFC 3339 instants;
  - `encoding.rs`, `crypto.rs`: the calls into `base64`, `ed25519-dalek`
    and `getrandom`, with the contracts they are trusted to meet;
  - `keys.rs`: public and private keys and their tokens;
  - `authorized.rs`: authorized-key entries and documents;
  - `key_file.rs`: private-key files;
  - `error.rs`: the error type.
- `app/` is the command-line program: argument parsing, file I/O and JSON
  output around the library.
- `tests/` exercises the library through its public API.
