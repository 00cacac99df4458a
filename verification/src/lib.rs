//! A hierarchical namespace of named entries: the entry capability set
//! (name, rename, clone) and a folder container that owns uniquely-named
//! child entries.

pub mod model;
