//! Clips 3D Tiles and I3S archives to a polygon without reading more of them than the clip
//! needs.
//!
//! An archive is a zip file that is read in byte ranges: its Central Directory first
//! (`eocd`, `directory`), single entries after (`payload`, `codec`). Its documents (`json`)
//! say which of its files lie where: `tileset` and `walk` follow a 3D Tiles archive, `i3s`,
//! `nodes`, `traversal` and `keepset` an I3S archive. `archive` plans the clipped archive,
//! and `index` writes the index that it begins with. `package` clips a tileset of whole archives.
//!
//! Geometry is decided by the caller: the functions that clip take a predicate on the
//! extents of tiles and nodes, and state their results over its answers.
pub mod archive;
pub mod codec;
pub mod directory;
pub mod endpoint;
pub mod eocd;
pub mod i3s;
pub mod index;
pub mod json;
pub mod keepset;
pub mod le;
pub mod nodes;
pub mod options;
pub mod package;
pub mod payload;
pub mod polygon;
pub mod reader;
pub mod request;
pub mod text;
pub mod tileset;
pub mod traversal;
pub mod uri;
pub mod walk;

pub use vstd::hash_map::StringHashMap;
pub use vstd::hash_set::StringHashSet;
