# mmo_stream

The logic of a server that tells every player of a large crowd about the players around it, written
and proved in Verus.

- `src/` is the library. Positions are single-precision numbers, held as bit patterns; their
  arithmetic is computed on integers and proved to round as IEEE 754 asks. On top of it stand the map
  of squares, the streams that players get, the walk of a crowd, the records and buffers of a
  graphics device, the schedule of the server, its datagrams, and the state of a viewer.
- `tests/` runs the library, among other things against the arithmetic of the machine.
- `app/` holds three programs around the library: a benchmark on the processor, a server that runs
  on a graphics device, and a viewer. The viewer's window needs `winit` 0.29, which
  `Cargo.toml` leaves out for the size of its sources. Sockets, windows, threads, clocks and device calls are there.

rayon, rand and bytemuck are called from the library through a handful of functions whose contracts
are stated and not proved; each says in its doc comment what it takes from the crate.
