# gdn-gis

Reads the vector tiles of a gas distribution network's map viewer, stitches the fragments of each
main across tile borders and packs the network for a map: a table of pipes with their geometry, and
per-cell binary layers of pipes, relief, buildings and street works.

The library in `src/` holds the rules and is verified with Verus. The program in `app/` reads and
writes files and does the floating-point arithmetic.

## The library

Reading tiles

- `cgm`: the obfuscation, the command stream and the search for where a drawing starts
- `tile`: a tile's header, its drawing and what of it is kept
- `bucket`: the pieces gathered by feature, and the rows that they make
- `label`: what a screen tip says of a main, and the metadata of the table
- `table`: the tables of features and of assets, and which column holds what
- `builtin`, `vocab`, `config`: the words and settings that the tiles are read with

Geometry

- `geom`: lines stitched at shared nodes, well-known binary
- `simplify`, `grid`: thinning, and cutting at the borders of cells
- `extent`: the extent of points

Packing

- `paint`, `map`, `years`: the pipes of the map, their style and the year they were laid
- `records`, `order`: fixed-size records sorted by cell, and the index over them
- `terrain`, `bldg`, `works`, `ext`, `pipes`, `fetch`: relief, buildings, street works, the networks
  of other operators, the export of pipes, and the scripts that fetch sources

Groundwork

- `bytes`, `text`, `number`, `keyed`: bytes, text, decimal and binary numbers, tables by name
- `pattern`, `archive`: regular expressions, and compressed files

## Numbers

The library holds no floating-point value. A number is the decimal text it was read from or the bit
pattern of its double, which the library compares and orders. Where arithmetic on such a number is
needed, the caller passes a function for it, and the contracts speak of what that function returned.

## What is trusted

The calls into `regex`, `rayon`, `flate2` and `zip`, and a few of the standard library, stand behind
declarations in `pattern`, `order`, `archive` and `text`. Each says in its comment what it claims.
