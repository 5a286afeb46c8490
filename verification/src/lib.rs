//! Page-level editing of CBZ comic archives.

pub mod text;
pub mod paths;
pub mod comicinfo;
pub mod natural;
pub mod picture;
pub mod book;
pub mod archive;
pub mod save;
pub mod reload;
pub mod lang;
