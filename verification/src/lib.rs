pub mod archive;
pub mod catalog;
pub mod fileset;
pub mod index;
pub mod json;
pub mod keyed;
pub mod layout;
pub mod metadata;
pub mod order;
pub mod pkgadd;
pub mod pkginfo;
pub mod pkgrm;
pub mod pkgutil;
pub mod query;
pub mod repo;
pub mod resolver;
pub mod text;
pub mod version;
