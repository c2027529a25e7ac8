# spacemaxxer

Scans a directory tree and shows it as a 3D city of islands (big files make big
buildings) or as a 2D squarified treemap.

- `src/` is the verified library: the tree a scan builds (`types`, `scanner`), the order
  in which islands are placed (`order`), the block structure of an island (`layout`, with
  its laws in `layout_laws`), the colour key of a block (`hash`), the structure and the
  colours of the 2D drawing (`draw`, `render`) and the framing of a saved scan (`storage`).
- `app/` holds what stays outside it: reading the file system, saving and loading scans
  with serde, the floating-point geometry of both layouts, and the command-line tools.
