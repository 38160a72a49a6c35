//! Canvas context views as a file tree.

pub mod api;
pub mod api_laws;
pub mod blobs;
pub mod config;
pub mod content_laws;
pub mod contexts;
pub mod dates;
pub mod docmap;
pub mod edit_laws;
pub mod events;
pub mod file_laws;
pub mod fsimpl;
pub mod inodes;
pub mod json;
pub mod laws;
pub mod listing;
pub mod markdown;
pub mod model;
pub mod mount_laws;
pub mod name_laws;
pub mod names;
pub mod naming;
pub mod neatness;
pub mod notices;
pub mod overlay;
pub mod posix;
pub mod render;
pub mod reports;
pub mod runtime;
pub mod saving_laws;
pub mod showing;
pub mod state;
pub mod strmap;
pub mod text;
pub mod time;
pub mod tree_laws;
pub mod tree_listing;
pub mod unmount;
pub mod wellformed;
pub mod whole;
pub mod worker;
pub mod workspace;
pub mod workspace_laws;
pub mod write_laws;
pub mod writes;

pub use crate::runtime::MountOptions;
