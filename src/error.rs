use vstd::prelude::*;

verus! {

/// Why a store operation was refused. A refused operation leaves the store as it was.
#[derive(Debug, Clone, Copy, PartialEq, Eq, Structural)]
pub enum StoreError {
    /// The tables have not been created yet.
    NoSuchTable,
    /// The tables were already created.
    TablesExist,
    /// No further identifier fits in an `i64`.
    Full,
    /// An event names a tag id that the registry never assigned.
    UnknownTag,
    /// An event names the same tag twice.
    DuplicateTag,
}

} // verus!
