# tauri-wire

A binary wire protocol for high-frequency IPC. Every frame is self-contained:

```text
[u8  msg_type] [u32 sequence] [u32 payload_len] [payload ...]   (little-endian)
```

- `src/protocol.rs`: the `WireMessage` trait, `FrameHeader`, frame encoding.
- `src/decode.rs`: `FrameReader` and `FrameView`, which read frames back without copying.
- `src/stream.rs`: `StreamBuffer`, which accumulates frames with per-type sequence numbers.
- `src/field_layout.rs`: the packed layout of records with primitive fields.
- `src/laws.rs`: proved properties across encoder and decoder (round trips, streams of frames).
- `app/lib.rs`: a mutex-guarded `SharedStreamBuffer` for many producer threads, and the
  token generation of the `WireMessage` derive.
