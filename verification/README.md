# ohmc

A compiler from Ohm, a small hardware language, to Minecraft redstone, written in Rust
and verified with Verus. The library under `src/` is the compiler; `app/` is its command
line.

| Stage | Modules |
|---|---|
| Source text | `lexer`, `ast`, `parser`, `parser_types` |
| Clocked design | `ir`, `ir_values`, `lower`, `lower_types`, `meaning`, `machine` |
| NOR netlist | `netlist`, `graph`, `bits`, `circuits`, `bitblast` |
| Blocks | `world`, `posmap`, `sorting`, `tech`, `steps`, `deep`, `flop`, `bank` |
| Placement | `floorplan`, `wiring`, `layout` |
| Routing | `route`, `search`, `heap`, `boxmap`, `paths`, `relay`, `negotiate`, `clocking`, `keepout`, `ownership` |
| Simulation | `redstone`, `logic`, `wires`, `memory` |
| Files | `nbt`, `palette`, `gzip`, `schem`, `structure` |
| Command line | `cli`, `text` |

Each stage states what it produces as a function of what it is given. What relates the
stages is proved too: a netlist follows the golden model cycle by cycle, assignments of
the source take effect in order, wires of two nets join only where one was placed by hand
or ends at a lamp, a NOR cell of any width puts out the NOR of its inputs, a latch holds
what it was given, no wire could do with fewer repeaters, a settled circuit stays settled,
a burned-out torch recovers.

Compressing a file is left to `flate2`; its contract, and those of the few functions of
std that the library calls without a proof, stand beside the calls.
