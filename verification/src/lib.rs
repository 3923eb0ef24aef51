//! Disk usage analysis: a compact sized directory tree and the scanners'
//! bookkeeping, master-file-table parsing, file types ranked by size, the
//! app state that front ends drive (navigation, menus, trash and
//! permanent deletion), and the command line.

pub mod fold;
pub mod text;
pub mod paths;
pub mod format;

pub mod tree;
pub mod scan;
pub mod linux;
pub mod walker;
pub mod mft;
pub mod ntfs_tree;
pub mod volume;

pub mod app;
pub mod keys;
pub mod menu;
pub mod rows;
pub mod terminal;
pub mod status;
pub mod trash;
pub mod delete;
pub mod dialogs;
pub mod backup;
pub mod cloud;

pub mod treemap;
pub mod boxes;
pub mod extensions;
pub mod glyphs;
pub mod icon_files;

pub mod locations;
pub mod settings;
pub mod session;
pub mod cli;
