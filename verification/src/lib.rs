//! Directory listings that can be edited as text: each line describes one
//! file (inode, mode, owner, group, modification time, name), and an edited
//! listing is read back as commands that rename, delete or change files.

pub mod command;
pub mod datetime;
pub mod listing;
pub mod options;
pub mod plan;
pub mod text;
