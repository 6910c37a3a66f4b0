//! Tools for Qt translation catalogs (`.ts`): the catalog model, merging two catalogs,
//! compiling a catalog into the binary release format (`.qm`), and the sort, strip,
//! extract and statistics transforms, each with its contract proved by Verus.

pub mod hash;
pub mod ts;
pub mod encode;
pub mod order;
pub mod merge;
pub mod release;
pub mod strip;
pub mod extract;
pub mod sort;
pub mod stat;
