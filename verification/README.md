# aabox

The phone's side of a projection to a car, and the tool that keeps the launcher behind
it running.

- `src/` is the library, verified with Verus. It holds what is said on the wire
  (`framing`, `proto`, `services`), what is answered to it (`control`, `channels`,
  `control_channel`), the TLS tunnel (`encrypted`, `tls_tunnel`), directions (`nav`),
  the USB handshake (`usb`, `startup`), and the patching and signing of packages
  (`resigner`). The library decides; it does no input or output.
- `app/` is the daemon and the signing tool. They move bytes between the library and
  sockets, files and devices.
- `tests/` runs the library.

Contracts speak of views: a message is the record that it carries, a frame the values
in its header and its payload, a connection the bytes that went in and came out. Proof
functions named `lemma_...` that are public state what holds of several functions
together: that a frame reads back as it was written, that a message reads back, that
fragments join to the message, that no more frames are in flight than may be.

What comes from other crates (`bytes`, `prost`, `ring`, `rustls`, `x509-cert`, `zip`)
is called through small functions whose contracts are trusted; each says what it
claims.
