# bifrox_server

The broker-side logic of a Kafka-like message broker, written in Verus: the functions in `src/`
carry contracts that are proved, and the laws that span several functions stand beside them as
proof functions. The few functions that call another crate or an unspecified part of std are the
exception: their contracts are taken for granted, and each says so.

* `src/` is the library. It holds the state of a broker as plain values and decides what happens;
  it reads no file and opens no socket. `src/lib.rs` lists its modules.
* `app/` runs the library: sockets, TLS, files, timers and quotas. What it needs of the rest of
  the broker (segment files, wire format, peers, SCRAM hashes) it takes through the traits in
  `app/parts.rs`.
* `tests/` runs the library on concrete values.

Outside work is done between two calls of the library: one says what has to be done, the next is
told what came of it (`engine::flow`, `engine::ending`, `engine::proposal`). Where the library calls
another crate itself (`dashmap`, `crc32fast`, `base64`, `ring`, `rustls-pemfile`, `rcgen`), or a part of
std that Verus has no contract for (`String::from_utf8`, `String::from_utf8_lossy`,
`char::is_alphanumeric`), the call stands in a small function of its own, marked `external_body`,
whose contract says what is taken for granted. `String::push` is given its contract where it stands.

Times are nanoseconds of a monotonic clock unless a name says otherwise.
