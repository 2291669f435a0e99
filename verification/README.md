# led_visualizer

An audio-reactive LED wall (128 x 128 pixels, 64 physical strips of 259 LEDs
driven by four Art-Net controllers), with its wire protocols and bookkeeping
verified with Verus.

## Layout

- `src/` — the verified library:
  - `wire`, `text`, `gzip`: little-endian fields, UTF-8 text, gzip framing.
  - `udp`: the client/server UDP protocol (packets, flags, commands, frame
    and spectrum payloads) with round-trip laws.
  - `frames`, `preview`: change detection, downscaling, compression choice
    and fragmentation of the live preview.
  - `server`: the server's list of clients and what each packet does to it.
  - `client`: the remote client's packets, payload readers and stream
    counters.
  - `ehub`, `ihub`, `hubmsg`, `router`: the entity protocols spoken to the
    wall's controllers, the frame-to-entity mapping and the routing of
    entities onto DMX universes.
  - `led`, `artnet`: matrix geometry, test patterns, Art-Net packets and the
    mapping of frames onto universes.
  - `effects`, `modes`: effect selection, colour modes, the random
    generator's step, and the launch switches.
- `tests/` — tests of the library on concrete values.
- `app/` — the server program: sockets, threads, audio capture, FFT and the
  floating-point effects, calling the library for every decision.
