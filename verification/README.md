# steg

A library for hiding encrypted payloads in images and audio, with its
behaviour stated in Verus contracts and proved.

- `payload`: the payload formats. A bare record (`STEG1`: text, or a named
  file) is wrapped in a container (`STEG3` with a MIME type; `STEG2` is
  still read) that stores it zlib-compressed when that is shorter.
- `crypto`: password-based sealing (PBKDF2-HMAC-SHA256, AES-256-GCM); the
  blob is salt, nonce, ciphertext.
- `stego`: where payload bits go among the 8x8 blocks of an image: the
  coefficient slots of each block, their password-keyed order, the
  Hamming-protected length header, capacities, and the plans for embedding
  and reading back. `stego::ecc` holds the header code.
- `image_ops`: the block grid (padding, splitting, merging, usable blocks).
- `audio`: hiding a payload in the lowest bits of 16-bit PCM samples.
- `bitstream`, `text`: bits and bytes, decimal rendering for messages.

`app/` holds the command-line tools, file and WAV I/O, and the
floating-point work (colour conversion, DCT, forcing and reading
coefficient signs), which calls into the library for every decision.
