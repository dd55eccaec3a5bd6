# spex

A file-transfer protocol over UDP: a file is split into numbered chunks,
described by its size and SHA-256 digest, sent in random order, and rebuilt and
checked by the receiver, which asks again for chunks that do not arrive, with
a doubling backoff and a bounded number of attempts.

- `src/` is the library, verified with Verus: chunking (`chunk`), hashing
  (`hash`, over the `sha2` crate), file metadata (`metadata`), reassembly and
  verification (`reassemble`), the messages (`protocol`), the receiver's state
  and its step on each message (`receiver`), the sender's store and answers
  (`sender`), configuration (`config`) and the command line (`cli`).
- `app/` is the program around it: argument parsing with clap, UDP sockets and
  timers with tokio, bincode encoding of the messages, file I/O and logging.
- `tests/` exercises the library on concrete values.
