//! Firmware inventory: reads a firmware catalog, turns it into an index of firmware images per
//! product and version, and checks the locations that the catalog gives for those images.

pub mod text;
pub mod version;
pub mod db;
pub mod assoc;
pub mod index;
pub mod xml;
pub mod catalog;
pub mod update;
pub mod get;
