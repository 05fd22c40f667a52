//! Verified core of an archive manager built around an external
//! command-line archiving tool.
//!
//! The library reconstructs a coherent entry tree from the tool's flat
//! text listing and plans structural mutations (rename, move, copy,
//! create-folder, delete, add) as ordered sequences of the tool's
//! primitive verbs. All parsing and planning logic is verified; the
//! subprocess and filesystem work itself is left to the surrounding
//! application.

pub mod decode;
pub mod entry;
pub mod labels;
pub mod parser;
pub mod paths;
pub mod plan;
pub mod sort;
pub mod text;
pub mod tree;

pub use decode::decode_7z_output;
pub use entry::FileItem;
pub use parser::parse_7z_list_output;
pub use parser::parse_primary_entries;
pub use parser::get_7z_resource_path;
pub use paths::compute_move_dest;
pub use paths::compute_rename_dest;
pub use paths::validate_folder_path;
