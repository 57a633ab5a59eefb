//! Lists the entries of a directory as `ls` does.
//!
//! The entries come with what the file system tells of them. They are put in
//! order by name, time, size, kind or extension, each is turned into a row of
//! fields, and the rows are drawn as a table whose columns stand in line, or
//! put in one line. Times become dates of the Gregorian calendar.
//!
//! Nothing here reads a directory or writes to a terminal: what is found on
//! disk is handed in, and the text of the listing is handed back.
//!
//! Texts are read as the bytes of their UTF-8 form: names are ordered, and
//! widths are counted, byte by byte.

pub mod entries;
pub mod entry;
pub mod format;
pub mod listing;
pub mod options;
pub mod order;
pub mod path;
pub mod text;
pub mod time;
pub mod user;
