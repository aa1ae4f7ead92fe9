# yog_vlsi

Redstone microchips for the Yog Mod Loader: players design circuits in a
private editor lane, save them as designs, fabricate chips from them at a
workbench, and install chips into ALUs that simulate and link them.

The library in `src/` holds the logic, verified with Verus:

- `vm` — the tiers and the redstone simulator (`RedstoneVM`), stated over
  its cells and update queue; `vm/propagate.rs` holds signal propagation.
- `chip` — chip metadata, circuits, and the SNBT framing chips and
  blueprints are stored in.
- `port` — the three port blocks and their labels.
- `commands` — saved blocks read as simulator blocks, fabrication cost,
  paying from a workbench, the test chip.
- `designs` — a player's design index: save, find, delete.
- `workbench` — blueprint SNBT and the tier of a world size.
- `editor` — editor lanes, sessions, and what a scanned platform saves as.
- `alu` (and `alu/tick.rs`) — the ALU network: installing chips, one server
  tick of stepping, reading outputs and routing links.
- `alu_ui`, `workbench_ui`, `workbench_inv_ui` — what each screen does on a
  click or scroll.
- `network` — the GUI packet payloads and the actions they carry.
- `text` — string helpers and the trusted wrappers over `std`.

`app/` is the mod around it: registration with the loader, storage, world
access, drawing the screens and sending packets. It depends on `yog_api`.

The tests in `tests/` exercise the library on concrete values.
