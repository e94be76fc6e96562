//! Tree-indexed catalog of taxonomy units: anchor path derivation and the
//! planning of index links between anchors and entries.

pub mod address;
pub mod entry;
pub mod error;
pub mod index;
pub mod model;
pub mod path;
pub mod shard;
pub mod unit;

pub use address::Address;
pub use entry::Document;
pub use entry::EntryTypes;
pub use entry::Section;
pub use entry::Unit;
pub use error::HowError;
pub use error::HowResult;
pub use index::IndexAction;
pub use index::IndexLink;
pub use index::LinkTypes;
pub use path::TreePath;
pub use path::TREE_ROOT;
