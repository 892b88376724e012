//! Change-journal records: their binary layout, decoding, and the paging
//! state of an enumeration.

use crate::wdk_ntfs::{MFT_ENUM_DATA, USN_JOURNAL_DATA, USN_RECORD};
use vstd::prelude::*;

verus! {

/// Offset of the record's length in bytes (32 bits) within a record.
pub const RECORD_LENGTH_AT: usize = 0;

/// Offset of the layout's major version (16 bits).
pub const MAJOR_VERSION_AT: usize = 4;

/// Offset of the layout's minor version (16 bits).
pub const MINOR_VERSION_AT: usize = 6;

/// Offset of the entry's own reference number (64 bits).
pub const FILE_REFERENCE_AT: usize = 8;

/// Offset of the parent directory's reference number (64 bits).
pub const PARENT_REFERENCE_AT: usize = 16;

/// Offset of the update sequence number (64 bits).
pub const USN_AT: usize = 24;

/// Offset of the time stamp (64 bits).
pub const TIME_STAMP_AT: usize = 32;

/// Offset of the reason flags (32 bits).
pub const REASON_AT: usize = 40;

/// Offset of the source information (32 bits).
pub const SOURCE_INFO_AT: usize = 44;

/// Offset of the security identifier (32 bits).
pub const SECURITY_ID_AT: usize = 48;

/// Offset of the attribute flags (32 bits).
pub const FILE_ATTRIBUTES_AT: usize = 52;

/// Offset of the name's length in bytes (16 bits).
pub const FILE_NAME_LENGTH_AT: usize = 56;

/// Offset of the name's offset from the start of the record (16 bits).
pub const FILE_NAME_OFFSET_AT: usize = 58;

/// Size of the fixed part of a record; the name follows it.
pub const HEADER_SIZE: usize = 60;

/// Size of the continuation token that opens every page.
pub const TOKEN_SIZE: usize = 8;

/// The attribute bit that marks a directory.
pub const FILE_ATTRIBUTE_DIRECTORY: u32 = 0x10;

/// The operating system's code for "reached the end of the file", with which
/// a page request reports that no records are left.
pub const ERROR_HANDLE_EOF: i32 = 38;

/// Whether an entry is a file or a directory.
#[derive(Debug, Clone, Copy, PartialEq, Eq, Structural)]
pub enum UsnRecordType {
    File,
    Directory,
}

/// One entry of the volume: its identifier, that of the directory that holds
/// it, its kind and its name.
pub struct UsnRecord {
    pub id: u64,
    pub parent_id: u64,
    pub record_type: UsnRecordType,
    pub filename: String,
}

/// A record as a mathematical value.
pub struct UsnRecordView {
    pub id: u64,
    pub parent_id: u64,
    pub record_type: UsnRecordType,
    pub filename: Seq<char>,
}

impl View for UsnRecord {
    type V = UsnRecordView;

    open spec fn view(&self) -> UsnRecordView {
        UsnRecordView {
            id: self.id,
            parent_id: self.parent_id,
            record_type: self.record_type,
            filename: self.filename@,
        }
    }
}

/// The bounds of the update sequence numbers that an enumeration covers.
pub struct UsnRange {
    pub low: i64,
    pub high: i64,
}

impl UsnRange {
    /// The range of a journal's valid records: from its lowest valid update
    /// sequence number to the next one it will assign.
    pub fn of_journal(journal: &USN_JOURNAL_DATA) -> (range: Self)
        ensures
            range.low == journal.LowestValidUsn,
            range.high == journal.NextUsn,
    {
        UsnRange { low: journal.LowestValidUsn, high: journal.NextUsn }
    }
}

/// The little-endian 16-bit number at `at`.
pub open spec fn spec_u16_le(bytes: Seq<u8>, at: int) -> int {
    bytes[at] + 256 * bytes[at + 1]
}

/// The little-endian 32-bit number at `at`.
pub open spec fn spec_u32_le(bytes: Seq<u8>, at: int) -> int {
    spec_u16_le(bytes, at) + 65536 * spec_u16_le(bytes, at + 2)
}

/// The little-endian 64-bit number at `at`.
pub open spec fn spec_u64_le(bytes: Seq<u8>, at: int) -> int {
    spec_u32_le(bytes, at) + 4294967296 * spec_u32_le(bytes, at + 4)
}

fn read_u16_le(bytes: &[u8], at: usize) -> (value: u16)
    requires
        at + 2 <= bytes.len(),
    ensures
        value == spec_u16_le(bytes@, at as int),
{
    bytes[at] as u16 + 256 * (bytes[at + 1] as u16)
}

fn read_u32_le(bytes: &[u8], at: usize) -> (value: u32)
    requires
        at + 4 <= bytes.len(),
    ensures
        value == spec_u32_le(bytes@, at as int),
{
    let low: u32 = read_u16_le(bytes, at) as u32;
    let high: u32 = read_u16_le(bytes, at + 2) as u32;
    low + 65536 * high
}

fn read_u64_le(bytes: &[u8], at: usize) -> (value: u64)
    requires
        at + 8 <= bytes.len(),
    ensures
        value == spec_u64_le(bytes@, at as int),
{
    let low: u64 = read_u32_le(bytes, at) as u64;
    let high: u64 = read_u32_le(bytes, at + 4) as u64;
    low + 4294967296 * high
}

/// The little-endian 64-bit number at `at`, read as a signed number.
pub open spec fn spec_i64_le(bytes: Seq<u8>, at: int) -> i64 {
    spec_u64_le(bytes, at) as u64 as i64
}

fn read_i64_le(bytes: &[u8], at: usize) -> (value: i64)
    requires
        at + 8 <= bytes.len(),
    ensures
        value == spec_i64_le(bytes@, at as int),
{
    read_u64_le(bytes, at) as i64
}

/// The fixed part that the layout places at `at`.
pub open spec fn spec_header(bytes: Seq<u8>, at: int) -> USN_RECORD {
    USN_RECORD {
        RecordLength: spec_u32_le(bytes, at + RECORD_LENGTH_AT) as u32,
        MajorVersion: spec_u16_le(bytes, at + MAJOR_VERSION_AT) as u16,
        MinorVersion: spec_u16_le(bytes, at + MINOR_VERSION_AT) as u16,
        FileReferenceNumber: spec_u64_le(bytes, at + FILE_REFERENCE_AT) as u64,
        ParentFileReferenceNumber: spec_u64_le(bytes, at + PARENT_REFERENCE_AT) as u64,
        Usn: spec_i64_le(bytes, at + USN_AT),
        TimeStamp: spec_i64_le(bytes, at + TIME_STAMP_AT),
        Reason: spec_u32_le(bytes, at + REASON_AT) as u32,
        SourceInfo: spec_u32_le(bytes, at + SOURCE_INFO_AT) as u32,
        SecurityId: spec_u32_le(bytes, at + SECURITY_ID_AT) as u32,
        FileAttributes: spec_u32_le(bytes, at + FILE_ATTRIBUTES_AT) as u32,
        FileNameLength: spec_u16_le(bytes, at + FILE_NAME_LENGTH_AT) as u16,
        FileNameOffset: spec_u16_le(bytes, at + FILE_NAME_OFFSET_AT) as u16,
    }
}

/// A whole record lies at `at`: its fixed part fits, its declared length
/// covers the fixed part and stays within the bytes, and its name stays
/// within the record.
pub open spec fn record_at(bytes: Seq<u8>, at: int) -> bool {
    let header = spec_header(bytes, at);
    &&& 0 <= at
    &&& at + HEADER_SIZE <= bytes.len()
    &&& HEADER_SIZE <= header.RecordLength
    &&& at + header.RecordLength <= bytes.len()
    &&& header.FileNameOffset + header.FileNameLength <= header.RecordLength
}

/// The 16-bit units of the name of the record at `at`.
pub open spec fn spec_name_units(bytes: Seq<u8>, at: int) -> Seq<u16> {
    let header = spec_header(bytes, at);
    Seq::new(
        (header.FileNameLength / 2) as nat,
        |i: int| spec_u16_le(bytes, at + header.FileNameOffset + 2 * i) as u16,
    )
}

/// The kind that a record's attribute flags give it.
pub open spec fn spec_record_type(attributes: u32) -> UsnRecordType {
    if attributes & FILE_ATTRIBUTE_DIRECTORY != 0 {
        UsnRecordType::Directory
    } else {
        UsnRecordType::File
    }
}

/// The text that `String::from_utf16_lossy` makes of `units`.
pub uninterp spec fn utf16_lossy_text(units: Seq<u16>) -> Seq<char>;

/// Calls `String::from_utf16_lossy`.
///
/// Trusted: the text returned is the named value `utf16_lossy_text(units)`,
/// the UTF-16 decoding in which each unpaired surrogate becomes U+FFFD.
#[verifier::external_body]
fn utf16_lossy(units: &[u16]) -> (text: String)
    ensures
        text@ == utf16_lossy_text(units@),
{
    String::from_utf16_lossy(units)
}

/// The record that lies at `at`.
pub open spec fn spec_record(bytes: Seq<u8>, at: int) -> UsnRecordView {
    let header = spec_header(bytes, at);
    UsnRecordView {
        id: header.FileReferenceNumber,
        parent_id: header.ParentFileReferenceNumber,
        record_type: spec_record_type(header.FileAttributes),
        filename: utf16_lossy_text(spec_name_units(bytes, at)),
    }
}

/// All records decoded from `at` onwards, up to the first offset at which no
/// whole record lies.
pub open spec fn decode_from(bytes: Seq<u8>, at: int) -> Seq<UsnRecordView>
    decreases bytes.len() - at,
{
    if record_at(bytes, at) {
        seq![spec_record(bytes, at)] + decode_from(
            bytes,
            at + spec_header(bytes, at).RecordLength,
        )
    } else {
        Seq::empty()
    }
}

/// Reads the fixed part of the record at `at`, if a whole record lies there.
pub fn decode_header(bytes: &[u8], at: usize) -> (header: Option<USN_RECORD>)
    ensures
        header == if record_at(bytes@, at as int) {
            Some(spec_header(bytes@, at as int))
        } else {
            None
        },
{
    let len: usize = bytes.len();
    if len < HEADER_SIZE || at > len - HEADER_SIZE {
        return None;
    }
    let header = USN_RECORD {
        RecordLength: read_u32_le(bytes, at + RECORD_LENGTH_AT),
        MajorVersion: read_u16_le(bytes, at + MAJOR_VERSION_AT),
        MinorVersion: read_u16_le(bytes, at + MINOR_VERSION_AT),
        FileReferenceNumber: read_u64_le(bytes, at + FILE_REFERENCE_AT),
        ParentFileReferenceNumber: read_u64_le(bytes, at + PARENT_REFERENCE_AT),
        Usn: read_i64_le(bytes, at + USN_AT),
        TimeStamp: read_i64_le(bytes, at + TIME_STAMP_AT),
        Reason: read_u32_le(bytes, at + REASON_AT),
        SourceInfo: read_u32_le(bytes, at + SOURCE_INFO_AT),
        SecurityId: read_u32_le(bytes, at + SECURITY_ID_AT),
        FileAttributes: read_u32_le(bytes, at + FILE_ATTRIBUTES_AT),
        FileNameLength: read_u16_le(bytes, at + FILE_NAME_LENGTH_AT),
        FileNameOffset: read_u16_le(bytes, at + FILE_NAME_OFFSET_AT),
    };
    let fits: bool = header.RecordLength as u64 >= HEADER_SIZE as u64
        && header.RecordLength as u64 <= (len - at) as u64 && header.FileNameOffset as u64
        + header.FileNameLength as u64 <= header.RecordLength as u64;
    if fits {
        Some(header)
    } else {
        None
    }
}

/// Reads the 16-bit units of the name of the record at `at`.
pub fn name_units(bytes: &[u8], at: usize, header: &USN_RECORD) -> (units: Vec<u16>)
    requires
        record_at(bytes@, at as int),
        *header == spec_header(bytes@, at as int),
    ensures
        units@ == spec_name_units(bytes@, at as int),
{
    assert(bytes@.len() == bytes.len());
    let count: usize = (header.FileNameLength / 2) as usize;
    let start: usize = at + header.FileNameOffset as usize;
    let mut units: Vec<u16> = Vec::with_capacity(count);
    let mut i: usize = 0;
    while i < count
        invariant
            bytes@.len() == bytes.len(),
            record_at(bytes@, at as int),
            *header == spec_header(bytes@, at as int),
            count == header.FileNameLength / 2,
            start == at + header.FileNameOffset,
            i <= count,
            units@.len() == i,
            forall|j: int| 0 <= j < i ==> units@[j] == spec_name_units(bytes@, at as int)[j],
        decreases count - i,
    {
        units.push(read_u16_le(bytes, start + 2 * i));
        i += 1;
    }
    assert(units@ =~= spec_name_units(bytes@, at as int));
    units
}

/// Makes a record of a decoded header and the decoded name.
pub fn record_from_parts(header: &USN_RECORD, filename: String) -> (record: UsnRecord)
    ensures
        record.id == header.FileReferenceNumber,
        record.parent_id == header.ParentFileReferenceNumber,
        record.record_type == spec_record_type(header.FileAttributes),
        record.filename == filename,
{
    let record_type = if header.FileAttributes & FILE_ATTRIBUTE_DIRECTORY != 0 {
        UsnRecordType::Directory
    } else {
        UsnRecordType::File
    };
    UsnRecord {
        id: header.FileReferenceNumber,
        parent_id: header.ParentFileReferenceNumber,
        record_type,
        filename,
    }
}

/// Decodes the record at `at`, if a whole record lies there, and gives with
/// it the offset just behind the record.
pub fn decode_record(bytes: &[u8], at: usize) -> (decoded: Option<(UsnRecord, usize)>)
    ensures
        decoded is Some <==> record_at(bytes@, at as int),
        decoded matches Some((record, next)) ==> {
            &&& record@ == spec_record(bytes@, at as int)
            &&& next == at + spec_header(bytes@, at as int).RecordLength
        },
{
    assert(bytes@.len() == bytes.len());
    match decode_header(bytes, at) {
        None => None,
        Some(header) => {
            let units = name_units(bytes, at, &header);
            let filename = utf16_lossy(units.as_slice());
            let record = record_from_parts(&header, filename);
            Some((record, at + header.RecordLength as usize))
        },
    }
}

/// Where an enumeration stands.
#[derive(Debug, Clone, Copy, PartialEq, Eq, Structural)]
pub enum Phase {
    /// Records may still come.
    Active,
    /// The volume reported that no records are left.
    Finished,
    /// A page did not hold what the layout describes.
    Malformed,
}

/// What the holder of the volume learns from a failed page request.
#[derive(Debug, Clone, Copy, PartialEq, Eq, Structural)]
pub enum FetchFailure {
    /// No records are left: the enumeration ends normally.
    EndOfEnumeration,
    /// The device failed with the given code: the enumeration is aborted.
    DeviceError(i32),
}

/// Tells the end of the records from a failure of the device.
pub fn classify_fetch_failure(code: i32) -> (failure: FetchFailure)
    ensures
        failure == if code == ERROR_HANDLE_EOF {
            FetchFailure::EndOfEnumeration
        } else {
            FetchFailure::DeviceError(code)
        },
{
    if code == ERROR_HANDLE_EOF {
        FetchFailure::EndOfEnumeration
    } else {
        FetchFailure::DeviceError(code)
    }
}

/// What an enumeration asks of, or hands to, whoever drives it.
pub enum Step {
    /// The page is used up: request the next one with this, then call
    /// `supply` with the bytes returned, or `end` when none are left.
    Fetch(MFT_ENUM_DATA),
    /// The next record.
    Record(UsnRecord),
    /// The enumeration is over.
    Finished,
    /// The enumeration stopped at bytes that are no record.
    Malformed,
}

/// An enumeration as a mathematical value.
pub struct UsnRecordsIteratorView {
    /// The page last supplied, continuation token included.
    pub page: Seq<u8>,
    /// Offset in the page of the next record.
    pub cursor: int,
    /// The reference number from which the next page is requested.
    pub reference_number: u64,
    pub low: i64,
    pub high: i64,
    pub phase: Phase,
}

/// The paging state of one forward-only enumeration of a volume's records.
pub struct UsnRecordsIterator {
    buffer: Vec<u8>,
    reference_number: u64,
    usn_range: UsnRange,
    offset: usize,
    phase: Phase,
}

impl View for UsnRecordsIterator {
    type V = UsnRecordsIteratorView;

    closed spec fn view(&self) -> UsnRecordsIteratorView {
        UsnRecordsIteratorView {
            page: self.buffer@,
            cursor: self.offset as int,
            reference_number: self.reference_number,
            low: self.usn_range.low,
            high: self.usn_range.high,
            phase: self.phase,
        }
    }
}

impl UsnRecordsIterator {
    /// An enumeration of `usn_range` that has fetched nothing yet.
    pub fn new(usn_range: UsnRange) -> (iterator: Self)
        ensures
            iterator@ == (UsnRecordsIteratorView {
                page: Seq::empty(),
                cursor: 0,
                reference_number: 0,
                low: usn_range.low,
                high: usn_range.high,
                phase: Phase::Active,
            }),
    {
        UsnRecordsIterator {
            buffer: Vec::new(),
            reference_number: 0,
            usn_range,
            offset: 0,
            phase: Phase::Active,
        }
    }

    /// Takes in a page that the volume returned, by copying it into the
    /// enumeration's own buffer.  Its first eight bytes are the reference
    /// number to continue from, and its records start right behind them.  A
    /// page too short to hold that number stops the enumeration as malformed.
    /// A page that comes after the enumeration has stopped is dropped.
    pub fn supply(&mut self, page: &[u8])
        ensures
            final(self)@ == if old(self)@.phase != Phase::Active {
                old(self)@
            } else if page@.len() < TOKEN_SIZE {
                UsnRecordsIteratorView { phase: Phase::Malformed, ..old(self)@ }
            } else {
                UsnRecordsIteratorView {
                    page: page@,
                    cursor: TOKEN_SIZE as int,
                    reference_number: spec_u64_le(page@, 0) as u64,
                    ..old(self)@
                }
            },
    {
        match self.phase {
            Phase::Active => {
                if page.len() < TOKEN_SIZE {
                    self.phase = Phase::Malformed;
                } else {
                    self.reference_number = read_u64_le(page, 0);
                    self.buffer.clear();
                    self.buffer.extend_from_slice(page);
                    assert(self.buffer@ =~= page@);
                    self.offset = TOKEN_SIZE;
                }
            },
            _ => {},
        }
    }

    /// Takes in the volume's report that no records are left.
    pub fn end(&mut self)
        ensures
            final(self)@ == if old(self)@.phase == Phase::Active {
                UsnRecordsIteratorView { phase: Phase::Finished, ..old(self)@ }
            } else {
                old(self)@
            },
    {
        match self.phase {
            Phase::Active => {
                self.phase = Phase::Finished;
            },
            _ => {},
        }
    }

    /// Advances the enumeration by one step.
    ///
    /// While the cursor stands inside the page, the record there is decoded
    /// and the cursor moves behind it; bytes that are no whole record stop
    /// the enumeration as malformed.  Once the cursor has reached the end of
    /// the page, the next page is asked for and nothing changes.
    pub fn next(&mut self) -> (step: Step)
        ensures
            match step {
                Step::Finished => old(self)@.phase == Phase::Finished && final(self)@ == old(
                    self,
                )@,
                Step::Fetch(request) => {
                    &&& old(self)@.phase == Phase::Active
                    &&& old(self)@.cursor >= old(self)@.page.len()
                    &&& request.StartFileReferenceNumber == old(self)@.reference_number
                    &&& request.LowUsn == old(self)@.low
                    &&& request.HighUsn == old(self)@.high
                    &&& final(self)@ == old(self)@
                },
                Step::Record(record) => {
                    &&& old(self)@.phase == Phase::Active
                    &&& old(self)@.cursor < old(self)@.page.len()
                    &&& record_at(old(self)@.page, old(self)@.cursor)
                    &&& record@ == spec_record(old(self)@.page, old(self)@.cursor)
                    &&& decode_from(old(self)@.page, old(self)@.cursor) == seq![record@]
                        + decode_from(final(self)@.page, final(self)@.cursor)
                    &&& final(self)@ == (UsnRecordsIteratorView {
                        cursor: old(self)@.cursor + spec_header(
                            old(self)@.page,
                            old(self)@.cursor,
                        ).RecordLength,
                        ..old(self)@
                    })
                },
                Step::Malformed => {
                    &&& final(self)@ == (UsnRecordsIteratorView {
                        phase: Phase::Malformed,
                        ..old(self)@
                    })
                    &&& old(self)@.phase == Phase::Malformed || {
                        &&& old(self)@.phase == Phase::Active
                        &&& old(self)@.cursor < old(self)@.page.len()
                        &&& !record_at(old(self)@.page, old(self)@.cursor)
                        &&& decode_from(old(self)@.page, old(self)@.cursor) == Seq::<
                            UsnRecordView,
                        >::empty()
                    }
                },
            },
    {
        match self.phase {
            Phase::Finished => Step::Finished,
            Phase::Malformed => Step::Malformed,
            Phase::Active => {
                if self.offset >= self.buffer.len() {
                    Step::Fetch(
                        MFT_ENUM_DATA {
                            StartFileReferenceNumber: self.reference_number,
                            LowUsn: self.usn_range.low,
                            HighUsn: self.usn_range.high,
                        },
                    )
                } else {
                    match decode_record(self.buffer.as_slice(), self.offset) {
                        Some((record, next)) => {
                            self.offset = next;
                            Step::Record(record)
                        },
                        None => {
                            self.phase = Phase::Malformed;
                            Step::Malformed
                        },
                    }
                }
            },
        }
    }
}

} // verus!
