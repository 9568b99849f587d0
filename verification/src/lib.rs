//! Planning of file and directory renames that make every name fit a byte
//! limit, keeping extensions, code points and, where asked for, whole words.
//!
//! A file name is split into a raw stem and its extensions (`parts`). The
//! files of one directory that share a raw stem form a sibling group
//! (`group`), whose stem gets one budget (`budget`) and is truncated once
//! (`truncate`); each file keeps its own extensions (`plan`). Directories are
//! truncated as whole names. What holds of every plan is proved in `laws`.

pub mod budget;
pub mod config;
pub mod entry;
pub mod group;
pub mod laws;
pub mod parts;
pub mod plan;
pub mod text;
pub mod truncate;

pub use budget::calculate_max_stem_bytes;
pub use config::CliArgs;
pub use entry::{join_path, PathEntry};
pub use group::{group_files, Sibling, SiblingGroup};
pub use parts::{build_new_name, split_rstem_ext, split_stem_ext};
pub use plan::{
    plan_group, plan_rename, process_directories, process_files, trunc_path, Action, TruncationPlan,
};
pub use truncate::{truncate_dir_name, truncate_stem};
