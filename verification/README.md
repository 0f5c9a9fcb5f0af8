# magictile

The combinatorial core of MagicTile, a puzzle program for Rubik's Cube-like puzzles on regular
tilings of the sphere, the Euclidean plane and the hyperbolic plane, written in Verus with its
behaviour stated in contracts and proved.

`src/` is the verified library:

- `state`, `twist`, `macros`: the puzzle state, single twists and the undo/redo history,
  macro recording and setup moves, and their saved text formats;
- `xml`: the element tree that saved files are written from (and its pretty printer), and
  reading parsed documents (parsed with `roxmltree`) with DataContract member matching;
- `config`: cell identifications and the IRP, surface and skew polyhedron settings;
- `group_presentation`: reading group presentations such as `[R^4, S^3, (R*S)^2]` as words
  in reflections;
- `nethash`: maps and sets with .NET `Dictionary` / `HashSet` lookup semantics;
- `cayley`, `cayley_graph`: permutations of S_q, and the labelling of a truncated tiling's
  vertices as the Cayley graph of S_q, with shortest routes through the group;
- `controller`: the twisting controller (undo, redo, solving, macro blocks) as a state machine;
- `cell`, `puzzle`: cells and stickers, carrying colors along a twist's sticker moves (a twist
  then its reverse restores the colors), lights-on toggling (toggling twice undoes itself), and
  the twist data and stickers a twist moves;
- `twist_data`, `topology`: which circles and stickers the slices of a twist take in, and the
  grouping of copies into logical faces, edges and vertices;
- `texture_helper`: triangle lattices for texture mapping;
- `slice_mask`, `geometry2d`, `netfmt`, `text` and smaller modules.

`app/` is a small command-line tool around the library (reading saved logs, expanding
presentations). `tests/` runs the library on concrete values.
