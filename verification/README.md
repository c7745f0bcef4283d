# fantasy_map

A fantasy map generator whose integer and topological core is verified with
Verus.

- `src/` is the verified library:
  - `rng` — glibc-compatible `rand()`, proved to follow glibc's additive
    generator step by step.
  - `dcel`, `delaunay`, `voronoi` — the doubly connected edge list, the DCEL
    surgery of incremental Delaunay triangulation (super triangle, point
    insertion, edge flips, removal of the super triangle) and the dual
    Voronoi diagram; every step is proved to keep the DCEL consistent.
  - `vertex_map`, `node_map` — the vertices that take part in map generation
    and per-vertex values.
  - `regions`, `paths` — connected regions of the face graph (island and lake
    removal, territory smoothing and repair) and line tracing (coasts and
    borders) through the vertex graph.
  - `face_tables`, `borders`, `contours` — the per-face neighbour, vertex and
    half-edge tables of the Voronoi diagram, and the whole collection of
    territory border paths and coastline paths: which edges separate
    territories or land from sea, which vertices end a line, and the walks
    from them.
  - `labels` — the choice of city and town names.
  - `cli` — parsing of image sizes.
  - `satellite_svg`, `webgpu`, `presentation`, `render_config`,
    `svg_adapter` — the integer and byte-level parts of the map's
    presentation: data URLs of PNG and JPEG images, XML escaping, raster row
    flipping, mask textures, the terrain mesh's triangle list, and the
    settings and layer descriptions of the presentation plugins.  The
    floating-point scene builders that would use them are not part of this
    crate, and the program writes the map's draw data as JSON.
- `tests/` runs the library on concrete inputs.
- `app/` is the command line program: options, file I/O and the
  floating-point parts of map generation (sampling, geometric predicates,
  terrain, erosion, label placement), built on the library.

The program reads glyph metrics from `fontdata/fontdata.json` and city names
from `citydata/countrycities.json` in the working directory.
