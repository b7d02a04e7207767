# vectorflow-sgs

The runtime state engine of a digital twin, written in Verus: the functions of the
library state what they return or change, and the statements are proved. What the
outside crates do is stated where they are called, and believed.

A scene is indexed once, with its payloads closed. Subscriptions say which part of
it matters now; a working set of pages follows them, telemetry is resolved for
those pages alone, and renderers are kept in step by snapshots and diffs. Edits
that people commit (pins, and the opinions that the Flow3D language lowers into)
live in an overlay and never reach the vendor's files.

## Layout

- `src/` is the library.
  - `lsg`, `import`, `synth`, `report`: the logical scene, where it comes from and
    what is said of it.
  - `overlay`, `opinion`, `overridden`, `publish`, `dsl/`: pins, opinions, what they
    override, and the language that opinions are written in.
  - `spatial`, `interest`, `alert`, `rsg`, `hydrate`, `pipeline`: areas of
    interest, and the working set that follows them.
  - `resolver`, `promql`: lazy telemetry.
  - `bridge`, `fake_bridge`, `mirror`, `serve`, `geomstore`: what renderers are
    told, and the meshes that they fetch.
  - `scalar`, `text`, `order`, `table`, `dict`, `model`, `hash`, `json`: the
    values that the rest is made of.
- `tests/` runs the library on concrete worlds.
- `app/` is the program around it: the command line, the SQLite store, the
  WebSocket server, the USD helper, VictoriaMetrics, and floating-point geometry.

Functions named `law_…` state what holds between several operations: that a pin
wins over what was authored, that an edited source does not storm the working set,
that a bridge which reconnects ends up where one that never left is.

Numbers with a fraction are carried as the bits of a double (`scalar::Double`).
The library compares them and hands them on; arithmetic on them is done in `app/`.
