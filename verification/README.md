# waterui_gtk

The GTK 4 backend of WaterUI: views become native widgets, and the layout engine
of WaterUI measures and places them.

## Layout of the project

- `src/` is the library. Every function has a contract, and Verus proves it.
  - `single`, `double`, `rounding`: IEEE 754 numbers by their bits, with exact
    rounding.
  - `geometry`: points, sizes, proposals, and measured sizes with their guides.
  - `layout`: the tree of widgets (`widget`), the layout protocol between a host
    and its content (`proposal`), measurement probes (`subview`), allocation
    (`placer`), the record of what containers answered (`memo`), and what holds
    of all of these together (`laws`).
  - `components`: containers, gaps, lists and lazy stacks, badges, pickers,
    styled text, hosts of changing content, navigation chrome, and the machines
    behind GPU surfaces, filters and recorded drawings.
- `tests/` runs the library. The layout tests drive it with the real engine; the
  toolkit is stood in for by the extents that it would report.
- `app/` is the code around the library: widgets, signals, the GPU, and the
  libraries of the OpenGL runtime. It asks the toolkit and the engine what the
  library wants to know, hands back the answers, and does what the library says.

## What is trusted

Besides the Verus standard library: that `String::push` appends, that a gap has
the lowest default layout priority, that copied texture rows are aligned to 256
bytes, and the values of eight OpenGL constants.
