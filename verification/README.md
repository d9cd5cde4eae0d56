# ledviz

An audio visualiser for a block of chained 8x8 LED displays (MAX7219
controllers on a Raspberry Pi). A client captures audio, turns its spectrum
into a bar graph and streams it over TCP; the server shows the latest grid.

The library (`src/`) is written in Verus and verified:

- `protocol`: the one-byte instructions, the 256-byte framing of payloads and
  whole messages, with the round-trip laws of both.
- `codec`: the calls into bincode that encode grids and configurations.
- `config`: the display size the server reports.
- `grid`: the pixel grid, points, bar graphs, and the grid's wire form.
- `matrix`: the MAX7219 chain driver; each operation yields its register
  writes, `write_raw` the GPIO line levels of one write, and drawing a grid
  is proved to send its pixels.
- `session`: the decisions of the server's connection handler, of the
  client's configuration request and of the server's grid store, with the
  laws that, on any byte stream, a server publishes exactly the payloads sent
  since the last completion, and a client reads back the server's
  configuration.

`app/` holds the two programs (`ledviz server`, `ledviz client`): sockets,
threads, GPIO lines and audio capture.
