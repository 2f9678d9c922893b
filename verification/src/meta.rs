//! What a store writes down about the schema it was last opened with.
use crate::fields::Role;
use crate::path::StorePath;
use vstd::prelude::*;

verus! {

/// What stood at one recorded path.
pub struct StoredShape {
    pub role: Role,
    pub optional: bool,
    pub children: Vec<StoredFieldEntry>,
    pub flattened: bool,
}

/// One recorded path, as the disk holds it.
pub struct StoredFieldEntry {
    pub name: StorePath,
    pub value_type: String,
    pub shape: StoredShape,
}

/// One declaration as it was recorded the last time the store opened.
pub struct SchemaSnapshot {
    pub version: u32,
    pub fields: Vec<StoredFieldEntry>,
}

impl StoredShape {
    /// The shape of a path holding one value.
    pub fn field() -> (r: StoredShape)
        ensures
            r.role == Role::Field,
            !r.optional,
            r.children@.len() == 0,
            !r.flattened,
    {
        StoredShape { role: Role::Field, optional: false, children: Vec::new(), flattened: false }
    }
}

} // verus!
