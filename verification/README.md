# fountain-core

File transfer over a stream of QR codes: the sender cuts a file into source
symbols, sends an endless stream of Luby Transform combinations of them, one per
QR frame, and the receiver peels the frames it catches until every source symbol
is known.

`src/` is the library, verified with Verus:

- `rng` — the xorshift64* generator every symbol's neighbour set is drawn from.
- `xor` — byte-wise XOR and the algebra of XOR combinations.
- `lt` — neighbour selection, the encoder and the peeling decoder, with the laws
  that tie them together (round trip, soundness, progress).
- `peeling` — what a peeling decoder recovers, stated as a closure.
- `text` — the character-level helpers: UTF-8 lengths, whitespace, trimming, hex.
- `packet` — the binary packet layout, pair codes and filename sanitising.
- `qr` — QR encoding into packed module matrices (through `qrcode`) and scanning
  camera frames (through `rqrr`).
- `session` — the sender and receiver sessions.

The robust soliton degree of each symbol is computed in floating point, so it is
drawn outside the library (`app/`) and handed in as an argument wherever a symbol
is encoded or decoded. `app/` also holds the WebAssembly bindings.
