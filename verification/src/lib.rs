//! Scans directories for videos and lists them in m3u playlists.
//!
//! The crate holds the rules of the tool: which directories are scanned, which files are videos,
//! what is stored about them, which of them a playlist lists and under which URL. Reading
//! directories, running `ffprobe`, talking to the database and writing files is left to the
//! program around it.

pub mod config;
pub mod db;
pub mod ffprobe;
pub mod m3u;
pub mod order;
pub mod path;
pub mod path_laws;
pub mod path_set;
pub mod pipeline;
pub mod roots;
pub mod scanner;
pub mod text;
pub mod url;
