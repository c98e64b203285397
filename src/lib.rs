//! Procedural plant model: a typed relation graph between entities, a tree of
//! stem segments, edge constraints relaxed along their adjacency, and an indexed
//! triangle mesh extruded from the stem tree.
//!
//! Every item here is verified. Coordinates are a type parameter: the library
//! decides which entities, vertices and faces take part and in what order, and
//! leaves the arithmetic on coordinates to its caller.
mod constraint;
mod relation;
mod select;
mod drag;
mod extrude;
mod mesh;
mod stem;

pub use constraint::{ConstraintError, ConstraintSystem};
pub use drag::{drag_step, orbit_enabled};
pub use extrude::{extrude, stitch_count, stitch_face, stitched_at};
pub use mesh::{face_has, face_ids, FaceId, MeshMap, VertexId};
pub use relation::{Relation, RelationError, RelationKind};
pub use select::{is_first_max, is_first_min, nearest_candidate, select_seed};
pub use stem::{StemError, StemHierarchy};
