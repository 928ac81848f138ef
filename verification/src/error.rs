use vstd::prelude::*;

verus! {

/// Why a build or a lookup was abandoned. A key that is absent is not an
/// error: lookups report it as `None`.
#[derive(Clone, Copy, Debug, PartialEq, Eq, Structural)]
pub enum IndexError {
    /// A read at or past the end of a file.
    Io,
    /// A malformed record, key bytes that are not UTF-8, or a directory whose
    /// length is not a multiple of its record size.
    Format,
    /// A record with too few fields for the key column.
    Parse,
}

impl IndexError {
    /// A short description of the error.
    pub fn message(&self) -> (text: &'static str)
        ensures
            text@ == (match *self {
                IndexError::Io => "read at or past the end of a file"@,
                IndexError::Format => "malformed index or record"@,
                IndexError::Parse => "record has no field at the key column"@,
            }),
    {
        match self {
            IndexError::Io => "read at or past the end of a file",
            IndexError::Format => "malformed index or record",
            IndexError::Parse => "record has no field at the key column",
        }
    }
}

} // verus!
