# voip

A push-to-talk voice chat over WebTransport datagrams. While the talk key is
down the client records its microphone in 20 ms frames, encodes them with
Opus and sends each as a protobuf `Packet`; the server passes every datagram
that decodes as a packet on to all connected clients, which decode the frames
and play them.

- `src/` is the verified library: the protobuf codec of the datagrams (over
  prost's encoding functions), the decisions of the client (push-to-talk,
  recording, frame assembly, playback buffering, codec buffer and frame-size
  checks) and the server's relay decision, with their laws.
- `app/` is the program around it (`client`, the default, or `server`): the
  network endpoints, the audio devices and threads, Opus and resampling,
  which work on `f32` samples, and logging.
- `tests/` runs the library on concrete values, and compares its codec with a
  `prost::Message` implementation of the same messages.

The messages are

```text
message AudioPacket { uint32 index = 1; bytes frame = 2; }
message Packet { oneof packet_type { AudioPacket audio = 1; } }
```
