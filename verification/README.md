# stream_core

Core of a low-latency screen streaming stack, verified with Verus: wire formats, forward
error correction, assembly of frames, jitter buffering, clock alignment, HEVC bitstream
handling, and the decisions of a receiver.

## Layout

- `src/` is the verified library.
  - `packet`, `control`: datagrams, slices and messages.
  - `fec`: shards and parity on the sending side; recovery, requests for missing shards and
    in-order release on the receiving side.
  - `slice_fec`, `lazy_fec`, `chunked`: the simpler wire formats that peers may speak.
  - `jitter`: when slices and sound are handed on.
  - `clock`, `time`: the offset between the clocks of the two sides.
  - `hevc`: bits, parameter sets, reference sets, and frames that stand in for lost ones.
  - `receiver`: what goes to the decoder and to the screen.
  - `buffer`, `text`, `sorting`: what the others build on.
- `tests/` runs the library on concrete values.
- `app/` is the receiver program and the sending side around the library: QUIC, windows,
  decoders and devices. The decoder and the sound output need system libraries and are
  compiled in with the feature `desktop`, the capture of a screen with the feature `sender`.

The contracts are stated over mathematical models. Laws that relate several functions are
public proof functions whose names begin with `law_`.

What is believed without proof stands in `buffer` (the `bytes` crate), `fec/codec` (the
`reed-solomon-erasure` crate), `fec/slice_wire` and `chunked/packet` (the `postcard` crate),
and in `text`, `time`, `clock` and `receiver/display` (the standard library).
