# batch_encryption

Batch threshold encryption over BLS12-381 with partial fractions, written in
Verus. Two schemes share one library:

- Construction 1 (`batch_enc`): ciphertexts `(ct1, ct2, ct3)` with a
  Schnorr-style simulation-extractable NIZK (`nizk`) for the relation
  `x1 = [w]_1, x2 = w·x0`.
- Construction 5 (`batch_enc_short`): shorter ciphertexts `(ct1, ct2)` with a
  NIZK of knowledge of a discrete logarithm (`nizk_dlog`).

A batch of `ell` ciphertexts (a power of two) is pre-decrypted with the secret
key into one G1 element `sbk`; anyone holding the public decryption key then
decrypts the whole batch with three (or two) FFT convolutions.

## Layout

- `src/field.rs`, `src/group.rs`: Fr and the groups G1, G2, GT of the pairing,
  modelled by canonical integers and discrete logarithms; the arithmetic of
  `ark_ff`/`ark_ec` is reached through small trusted wrappers.
- `src/fft.rs`, `src/bits.rs`: the radix-2 FFT over the field and the groups,
  its inverse, and the circulant product used by decryption.
- `src/convolution.rs`: the laws of the transform (the inverse transform
  undoes it; the circulant product through the FFT is the product with the
  circulant matrix).
- `src/partial_fractions.rs`: roots of unity, the extra index γ, partial
  fractions `1/(x + i)` and the circulant kernel, with their algebra.
- `src/nizk.rs`, `src/nizk_dlog.rs`, `src/hashing.rs`: the two NIZKs, their
  batch verification, the compressed encoding of their proofs, and the
  SHA-2 transcripts.
- `src/batch_enc.rs`, `src/batch_enc_short.rs`: setup, encryption,
  pre-decryption and decryption; `src/batch_enc_correctness.rs` and
  `src/batch_enc_short_correctness.rs` prove that decryption returns the
  encrypted messages.
- `src/payload.rs`: sealing message payloads with AES-256-GCM under keys
  hashed from GT pads.
- `src/message.rs`: what the mock messages of the `thunder` simulation say
  (timestamp, text, attachment type and size) for each slot.
- `app/`: the `shade` and `thunder` simulations (timing, printing, serde and
  bincode of the message types) and the browser-facing entry points.
- `tests/`: the test suites of the schemes, the NIZKs, the FFT and the
  payload sealing and the mock messages.
