# media-lock core

In-place, crash-safe encryption of video files (MP4, MKV): the I-frames (and
optionally the audio samples) are encrypted with AES-256-CTR where they lie in
the file, the key comes from the password through Argon2id, and a write-ahead
log saves the original bytes before anything is touched.

The library in `src/` is verified with Verus:

- `parsers/` — MP4 box and MKV/EBML parsing over the bytes of a file: which
  regions (keyframes, audio samples, metadata) a scan finds, against
  specifications of each structure.
- `crypto/` — the AES-CTR engine (random access by file offset; processing is
  its own inverse) and the Argon2id key derivation.
- `common.rs` — regions, the 73-byte footer of encrypted files (salt, nonce,
  original length and a password check derived with the key), configuration.
  The footer's 32-byte checksum field holds that password check, not a
  sample of the file's first bytes: files whose footer carries such a sample
  are refused on decryption as having a wrong password.
- `io/` — the write-ahead log format (encode, validate, recovery plan) and the
  lock-file state.
- `workflow.rs` — the decisions of a run as a state machine (`TaskFlow`):
  a decryption with the wrong password is refused before any byte changes,
  every refusal releases the lock; also region batching, the pieces of the
  in-place loop, file-state detection and the footer. Its laws include the
  round trip of a whole run (encrypt, rescan, decrypt gives the file back)
  on files whose scan ignores the encrypted bytes and the footer, proved to
  include the minimal MKV and MP4 files.
- `gui/` — the model behind the desktop front end: task records and their
  progress (`task_manager.rs`); configuration, status and the errors shown
  to the user (`mod.rs`).

`app/` is the command-line program: it does the file I/O that the library's
state machine asks for, prints progress and statistics, and runs the files of
a desktop task one after the other through the task manager's steps.
