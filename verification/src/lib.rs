//! The ZipMount core: archive formats, names, the directory tree, and the
//! small pieces of text handling that the command line, the context menu and
//! the mount backends share.

pub mod bytes;
pub mod entry;
pub mod zipfmt;
pub mod crc;
pub mod text;
pub mod tarfmt;
pub mod sanitize;
pub mod secret;
pub mod zipcrypt;
pub mod tree;
pub mod names;
pub mod cmdline;
pub mod mounts;
pub mod shell;
pub mod i18n;
pub mod posix;
pub mod fsview;
pub mod console;
pub mod winmenu;
pub mod glob;
pub mod lru;
pub mod cache;
pub mod blockcache;
pub mod backend;
pub mod seek;
pub mod integrity;
pub mod search;
pub mod reader;
pub mod messages;
