# dnss

Reading and writing DNS messages in a fixed 512-byte packet buffer, with
every function's behaviour stated as a Verus contract and proved.

- `src/bytepacketbuffer.rs`: the buffer and its cursor; byte, 16-bit and
  32-bit reads and writes; domain names (labels and compression pointers).
  Writes are described as a sequence of steps (`WStep`) run on a
  `WriteState`, so that what a write leaves behind, also when it runs out of
  room half-way, is stated exactly.
- `src/dns/mod.rs`: header, question and resource record types, with the
  spec functions that say what reading (`parse_*`) and writing (`*_steps`,
  `put_record`) them does.
- `src/dns/kinddns.rs`: a whole packet.
- `src/text.rs`: the two conversions of std that turn label bytes into text.
- `src/wire.rs`: the bytes each write produces, and the lemmas that read
  them back.
- `src/laws.rs`: what holds across functions: what reading gives back of
  what writing wrote, and that each write succeeds exactly when its bytes fit.
- `app/main.rs`: a relay that takes queries over UDP and forwards them over
  TLS.
