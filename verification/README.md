# cena_map_layout

Layout of a text game's room graph as a map, verified with Verus.

- `src/` is the library. Every function in it is verified against its
  `requires`/`ensures`. The modules, roughly in pipeline order:
  - `model`: rooms, exits and the map.
  - `direction`: the compass bearing of each exit, with curated corrections.
  - `satisfiable`: whether a component's bearings can all hold at once.
  - `positioner`: placing each component on its own grid.
  - `classifier`: which components are interiors, and their doorways.
  - `packer` and `packing`: placing the outdoor components on one sheet.
  - `shelf`: merging each building into one floor plan and laying the
    interiors sheet, the town frame at the outdoor sheet's scaled shape and
    the other buildings in rows below it.
  - `pipeline`: the two steps that run all of the above, and
    `generate_layout` for selections without image seats.
  - `inspect`: the direction violations that name a room.
  - `regions`, `derived`, `areas`: the grouping of rooms into areas.
  - `overrides`, `keyed`, `export`, `labels`, `paths`, `text`, `split`: the
    store of hand-made corrections and its export.
- `app/` is a command-line front end. It reads a map file as JSON, computes
  the seats that hand-drawn map images give (float pixel arithmetic), runs
  the pipeline and prints the layout.
- `tests/` holds the tests.
