//! The fixed-layout structures of the change-journal device controls, as
//! plain values.
#![allow(non_camel_case_types)]
#![allow(non_snake_case)]

use vstd::prelude::*;

verus! {

/// Largest size, in bytes, that a journal created by this tool may reach.
pub const JOURNAL_MAXIMUM_SIZE: u64 = 104857600;

/// Number of bytes by which such a journal grows and shrinks.
pub const JOURNAL_ALLOCATION_DELTA: u64 = 1048576;

/// What a volume reports about its change journal.
#[derive(Debug)]
pub struct USN_JOURNAL_DATA {
    pub UsnJournalID: u64,
    pub FirstUsn: i64,
    pub NextUsn: i64,
    pub LowestValidUsn: i64,
    pub MaxUsn: i64,
    pub MaximumSize: u64,
    pub AllocationDelta: u64,
}

/// The parameters with which a change journal is created.
pub struct CREATE_USN_JOURNAL_DATA {
    pub MaximumSize: u64,
    pub AllocationDelta: u64,
}

/// The request for one page of records: every entry whose update sequence
/// number lies in `LowUsn ..= HighUsn`, from `StartFileReferenceNumber` on.
pub struct MFT_ENUM_DATA {
    pub StartFileReferenceNumber: u64,
    pub LowUsn: i64,
    pub HighUsn: i64,
}

/// The fixed part of a version 2 change-journal record.  The entry's name
/// follows it in the record, `FileNameLength` bytes of 16-bit units that
/// start `FileNameOffset` bytes into the record.
#[derive(Debug, Clone, Copy, PartialEq, Eq, Structural)]
pub struct USN_RECORD {
    pub RecordLength: u32,
    pub MajorVersion: u16,
    pub MinorVersion: u16,
    pub FileReferenceNumber: u64,
    pub ParentFileReferenceNumber: u64,
    pub Usn: i64,
    pub TimeStamp: i64,
    pub Reason: u32,
    pub SourceInfo: u32,
    pub SecurityId: u32,
    pub FileAttributes: u32,
    pub FileNameLength: u16,
    pub FileNameOffset: u16,
}

impl CREATE_USN_JOURNAL_DATA {
    /// The parameters this tool creates a journal with.
    pub fn standard() -> (request: Self)
        ensures
            request.MaximumSize == JOURNAL_MAXIMUM_SIZE,
            request.AllocationDelta == JOURNAL_ALLOCATION_DELTA,
    {
        CREATE_USN_JOURNAL_DATA {
            MaximumSize: JOURNAL_MAXIMUM_SIZE,
            AllocationDelta: JOURNAL_ALLOCATION_DELTA,
        }
    }
}

} // verus!
