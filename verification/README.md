# tile_clipper

Clips 3D Tiles (`.3tz`) and I3S (`.slpk`, `.spk`) archives to a GeoJSON polygon, on S3 or on a
local disk, reading only the byte ranges that the clip needs.

`src/` is the library, verified with Verus:

| Module | What it does |
|---|---|
| `eocd`, `directory` | find and read the Central Directory of an archive |
| `payload`, `codec` | read and decode single entries |
| `json`, `text`, `uri`, `le` | documents, text, references and little-endian numbers |
| `tileset`, `walk` | clip tilesets and follow nested ones |
| `i3s`, `nodes`, `traversal`, `keepset` | find the nodes of an I3S archive that stay, and their files |
| `archive`, `index` | plan the clipped archive, lay it out behind its index, and write the index |
| `package` | clip a tileset of whole archives |
| `endpoint`, `request`, `options`, `reader`, `polygon` | connections, options and inputs |

`app/` is the command line around it: arguments, S3 and file access, and geometry in floating
point. The library takes the geometric tests as predicates on the extents of tiles and nodes,
and its contracts speak of their answers.

The contracts rest on trusted declarations for DEFLATE, gzip and Zstandard (`codec`), MD5 and
CRC-32 (`index`), UTF-8 decoding (`directory`) and `String::push` (`text`). Each says in its
doc comment what it claims.
