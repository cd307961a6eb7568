# lorawan

Streams over LoRaWAN, verified with Verus: the MAC frame with its AES-128
encrypted payload and CMAC MIC, confirmed and unconfirmed data up and down,
frame counters, streams longer than one frame as flagged fragments, the network
server's side of one device, and a loopback radio that holds such a server.

## Layout

- `src/sbox.rs`, `src/aes.rs`: the S-box from its field arithmetic, AES-128,
  CMAC and the counter stream.
- `src/frame.rs`: a frame sealed and opened, a stream as frame payloads.
- `src/server.rs`: the network server of one device.
- `src/device.rs`: the device's session.
- `src/radio.rs`: the radio as a trait, and the loopback radio.
- `src/transport.rs`: one device on one radio.
- `src/loopback.rs`: what holds of a device and its server in step.
- `src/error.rs`, `src/text.rs`: refusals in words, numbers as text.
- `tests/`: tests, with published vectors for the ciphers.
- `app/`: sessions and radios shared between threads, and the `transport`
  crate's traits on top of the library.

What each type means is its view: a contract speaks of `FrameView`,
`ServerView`, `DeviceView` and `LinkView`. What a radio does is its own, so what
a send or a receive does is stated as a relation between the link before it and
the link after it; on a loopback radio the laws in `src/loopback.rs` say what
comes of it.

## What is trusted

`Duration::from_secs`, of which no more is used than that the same number makes
the same span.
