# netspectrum

A graphic equaliser for network traffic: packets seen on an interface are
counted into bands (by protocol, port, remote host, direction or size), and each
band is drawn as a bar with a peak cap, or as a firework. Capture is passive; no
packet is ever sent.

- `src/` is the library, verified with Verus: packet metadata, classification,
  the spectrum and its host slots, the scenes, the keys and readouts of the
  window, the steps of the capture thread and of the audio worker, and the
  decisions at the start.
- `app/` is the program around it: command line, libpcap, the playback program,
  the window and the GPU. Floating-point arithmetic (smoothing, synthesis,
  geometry) is done there; the library takes its results as bit patterns of
  non-negative numbers (`src/number.rs`) and decides with them.
- `tests/` runs the library.

What is taken on trust: `slice_ethernet` in `src/capture.rs`, which calls
`etherparse`, and the contracts of `String::push` and `char::is_whitespace` in
`src/text.rs`.
