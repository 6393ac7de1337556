//! The NTFS USN change journal: record parsing and catch-up planning.
//!
//! This is the **durable** half of file integrity monitoring on Windows.
//! `ReadDirectoryChangesW` sees changes as they happen, sees nothing that
//! happened while the sensor was down, and drops events when its buffer
//! overflows. The USN journal is written by the filesystem itself and survives
//! both, so it can answer "what changed between the USN last processed and now".
//!
//! The journal records **that** a file changed and **why**, as a reason bitmask,
//! never what it changed *to*. So it is a way to find the files worth hashing,
//! not a substitute for hashing them.
//!
//! `FSCTL_READ_USN_JOURNAL` hands back a raw byte buffer containing a run of
//! variable-length records, each declaring its own length and the offset of its
//! own filename. Everything here is parsing of bytes with no Windows dependency:
//! every record is checked for internal coherence, and the filename is located
//! by the record's *own* declared offset rather than by an assumed position.

use vstd::prelude::*;
use vstd::slice::slice_subrange;
use crate::bytes::{
    as_signed, decode_utf16, decoded, number_at, read_i64, read_number, read_u16, read_u32, units_of,
};
use crate::text::{append, append_number, decimal, owned, string_of};
use super::clean::{sanitise, sanitised};
use super::event::FileChange;

verus! {

/// Smallest `USN_RECORD_V2`: the header up to and including `FileNameOffset`.
pub const V2_HEADER: usize = 60;

/// Smallest `USN_RECORD_V3`, whose file references are 128-bit.
pub const V3_HEADER: usize = 76;

/// `FSCTL_READ_USN_JOURNAL` prefixes the record run with the next USN to read.
pub const NEXT_USN_PREFIX: usize = 8;

/// `USN_JOURNAL_DATA_V0`, the prefix every later version shares.
pub const JOURNAL_DATA_V0: usize = 56;

/// Longest filename kept, in characters. NTFS caps a component at 255.
pub const MAX_NAME_CHARS: usize = 255;

/// File data was overwritten.
pub const USN_REASON_DATA_OVERWRITE: u32 = 0x0000_0001;

/// File data was extended.
pub const USN_REASON_DATA_EXTEND: u32 = 0x0000_0002;

/// File data was truncated.
pub const USN_REASON_DATA_TRUNCATION: u32 = 0x0000_0004;

/// A named data stream was overwritten.
pub const USN_REASON_NAMED_DATA_OVERWRITE: u32 = 0x0000_0010;

/// A named data stream was extended.
pub const USN_REASON_NAMED_DATA_EXTEND: u32 = 0x0000_0020;

/// A named data stream was truncated.
pub const USN_REASON_NAMED_DATA_TRUNCATION: u32 = 0x0000_0040;

/// The file was created.
pub const USN_REASON_FILE_CREATE: u32 = 0x0000_0100;

/// The file was deleted.
pub const USN_REASON_FILE_DELETE: u32 = 0x0000_0200;

/// Extended attributes changed.
pub const USN_REASON_EA_CHANGE: u32 = 0x0000_0400;

/// The security descriptor changed: the ACL, which is detection signal.
pub const USN_REASON_SECURITY_CHANGE: u32 = 0x0000_0800;

/// The record carries the name the file had before a rename.
pub const USN_REASON_RENAME_OLD_NAME: u32 = 0x0000_1000;

/// The record carries the name the file has after a rename.
pub const USN_REASON_RENAME_NEW_NAME: u32 = 0x0000_2000;

/// The indexable state changed.
pub const USN_REASON_INDEXABLE_CHANGE: u32 = 0x0000_4000;

/// Timestamps or attributes changed.
pub const USN_REASON_BASIC_INFO_CHANGE: u32 = 0x0000_8000;

/// A hard link was added or removed.
pub const USN_REASON_HARD_LINK_CHANGE: u32 = 0x0001_0000;

/// Compression state changed.
pub const USN_REASON_COMPRESSION_CHANGE: u32 = 0x0002_0000;

/// Encryption state changed.
pub const USN_REASON_ENCRYPTION_CHANGE: u32 = 0x0004_0000;

/// The object id changed.
pub const USN_REASON_OBJECT_ID_CHANGE: u32 = 0x0008_0000;

/// A reparse point changed: junctions and symlinks.
pub const USN_REASON_REPARSE_POINT_CHANGE: u32 = 0x0010_0000;

/// A named stream was added, removed, or renamed.
pub const USN_REASON_STREAM_CHANGE: u32 = 0x0020_0000;

/// The change was part of a transaction.
pub const USN_REASON_TRANSACTED_CHANGE: u32 = 0x0040_0000;

/// Integrity state changed (ReFS).
pub const USN_REASON_INTEGRITY_CHANGE: u32 = 0x0080_0000;

/// The final record for a file handle that has been closed.
pub const USN_REASON_CLOSE: u32 = 0x8000_0000;

/// `FILE_ATTRIBUTE_DIRECTORY`.
pub const FILE_ATTRIBUTE_DIRECTORY: u32 = 0x0000_0010;

/// The reasons that say the file's data changed: the six data reasons and
/// `USN_REASON_STREAM_CHANGE`.
pub const CONTENT_REASONS: u32 = 0x0020_0077;

/// The reasons that say what surrounds the data changed. The security descriptor
/// is among them: an ACL edit changes who can read a file without changing a
/// byte of it, so it must not be filtered out as noise.
pub const ATTRIBUTE_REASONS: u32 = 0x009f_cc00;

/// The reasons that say the file was renamed.
pub const RENAME_REASONS: u32 = 0x0000_3000;

/// What a record says.
pub struct RecordModel {
    /// The record's position in the journal.
    pub usn: int,
    /// The file's reference number.
    pub file_reference: nat,
    /// The containing directory's reference number.
    pub parent_reference: nat,
    /// When the record was written.
    pub timestamp: int,
    /// Why the record was written.
    pub reason: nat,
    /// The file's attributes.
    pub attributes: nat,
    /// The file's name.
    pub file_name: Seq<char>,
    /// The record's layout.
    pub version: (nat, nat),
}

/// One change the filesystem recorded.
#[derive(Debug, PartialEq, Eq)]
pub struct UsnRecord {
    /// This record's position in the journal. The next read resumes past it.
    pub usn: i64,
    /// The file's NTFS reference number. 64-bit records are widened, so one
    /// field serves both layouts.
    pub file_reference: u128,
    /// The containing directory's reference number.
    ///
    /// The journal records **names, not paths**: resolving this to a full path
    /// needs the volume.
    pub parent_reference: u128,
    /// Windows `FILETIME`: 100ns ticks since 1601-01-01 UTC.
    pub timestamp: i64,
    /// Why the record was written. A bitmask; several reasons can be set.
    pub reason: u32,
    /// `FILE_ATTRIBUTE_*` bits at the time of the change.
    pub attributes: u32,
    /// The file's name, without its directory.
    pub file_name: String,
    /// Which record layout this came from.
    pub version: (u16, u16),
}

impl View for UsnRecord {
    type V = RecordModel;

    open spec fn view(&self) -> RecordModel {
        RecordModel {
            usn: self.usn as int,
            file_reference: self.file_reference as nat,
            parent_reference: self.parent_reference as nat,
            timestamp: self.timestamp as int,
            reason: self.reason as nat,
            attributes: self.attributes as nat,
            file_name: self.file_name@,
            version: (self.version.0 as nat, self.version.1 as nat),
        }
    }
}

impl Clone for UsnRecord {
    fn clone(&self) -> (copy: Self)
        ensures
            copy@ == self@,
    {
        UsnRecord {
            usn: self.usn,
            file_reference: self.file_reference,
            parent_reference: self.parent_reference,
            timestamp: self.timestamp,
            reason: self.reason,
            attributes: self.attributes,
            file_name: self.file_name.clone(),
            version: self.version,
        }
    }
}

/// The change that a set of reasons implies. They are ordered by consequence: a
/// file that was created and then written within one record is a creation, and
/// one that was deleted is a deletion whatever else happened to it first.
pub open spec fn change_for(reason: u32) -> Option<FileChange> {
    if reason & USN_REASON_FILE_DELETE != 0 {
        Some(FileChange::Deleted)
    } else if reason & USN_REASON_FILE_CREATE != 0 {
        Some(FileChange::Created)
    } else if reason & RENAME_REASONS != 0 {
        Some(FileChange::Renamed)
    } else if reason & CONTENT_REASONS != 0 {
        Some(FileChange::Modified)
    } else if reason & ATTRIBUTE_REASONS != 0 {
        Some(FileChange::AttributesChanged)
    } else {
        None
    }
}

/// The sets of reasons are made of the reasons that the filesystem documents.
pub proof fn law_reason_sets_name_their_reasons()
    ensures
        CONTENT_REASONS == USN_REASON_DATA_OVERWRITE | USN_REASON_DATA_EXTEND
            | USN_REASON_DATA_TRUNCATION | USN_REASON_NAMED_DATA_OVERWRITE
            | USN_REASON_NAMED_DATA_EXTEND | USN_REASON_NAMED_DATA_TRUNCATION
            | USN_REASON_STREAM_CHANGE,
        ATTRIBUTE_REASONS == USN_REASON_BASIC_INFO_CHANGE | USN_REASON_SECURITY_CHANGE
            | USN_REASON_EA_CHANGE | USN_REASON_COMPRESSION_CHANGE | USN_REASON_ENCRYPTION_CHANGE
            | USN_REASON_OBJECT_ID_CHANGE | USN_REASON_REPARSE_POINT_CHANGE
            | USN_REASON_HARD_LINK_CHANGE | USN_REASON_INDEXABLE_CHANGE
            | USN_REASON_INTEGRITY_CHANGE,
        RENAME_REASONS == USN_REASON_RENAME_OLD_NAME | USN_REASON_RENAME_NEW_NAME,
{
    assert(0x0020_0077u32 == 0x1u32 | 0x2 | 0x4 | 0x10 | 0x20 | 0x40 | 0x20_0000) by (bit_vector);
    assert(0x009f_cc00u32 == 0x8000u32 | 0x800 | 0x400 | 0x2_0000 | 0x4_0000 | 0x8_0000 | 0x10_0000
        | 0x1_0000 | 0x4000 | 0x80_0000) by (bit_vector);
    assert(0x3000u32 == 0x1000u32 | 0x2000) by (bit_vector);
}

impl UsnRecord {
    /// Whether the record describes a directory rather than a file.
    pub fn is_directory(&self) -> (yes: bool)
        ensures
            yes == (self.attributes & FILE_ATTRIBUTE_DIRECTORY != 0),
    {
        self.attributes & FILE_ATTRIBUTE_DIRECTORY != 0
    }

    /// The change this record implies.
    ///
    /// Returns `None` for records that carry no change worth an event: a bare
    /// `CLOSE`, or reasons outside the sets above. Silence here is deliberate:
    /// an event per handle close would bury the changes.
    pub fn change(&self) -> (change: Option<FileChange>)
        ensures
            change == change_for(self.reason),
    {
        if self.reason & USN_REASON_FILE_DELETE != 0 {
            Some(FileChange::Deleted)
        } else if self.reason & USN_REASON_FILE_CREATE != 0 {
            Some(FileChange::Created)
        } else if self.reason & RENAME_REASONS != 0 {
            Some(FileChange::Renamed)
        } else if self.reason & CONTENT_REASONS != 0 {
            Some(FileChange::Modified)
        } else if self.reason & ATTRIBUTE_REASONS != 0 {
            Some(FileChange::AttributesChanged)
        } else {
            None
        }
    }
}

/// Why a record could not be read.
///
/// Every variant is a *rejection*, never a guess. A record whose declared
/// offsets do not cohere is skipped and counted rather than parsed from an
/// assumed layout.
#[derive(Debug, Clone, Copy, PartialEq, Eq, Structural)]
#[non_exhaustive]
pub enum RecordError {
    /// Fewer bytes than the smallest possible record.
    TooShort {
        /// How many bytes there were.
        len: usize,
    },
    /// A record layout this build does not know.
    ///
    /// Refused rather than approximated: guessing at an unknown layout would
    /// produce filenames read from the wrong offset, which is worse than a
    /// counted gap.
    UnsupportedVersion {
        /// Major version from the record.
        major: u16,
        /// Minor version from the record.
        minor: u16,
    },
    /// `RecordLength` disagrees with the bytes available.
    LengthMismatch {
        /// What the record claimed.
        declared: usize,
        /// What there was.
        available: usize,
    },
    /// The filename does not lie inside the record.
    NameOutOfBounds {
        /// Declared offset.
        offset: usize,
        /// Declared length in bytes.
        len: usize,
        /// The record's own declared length.
        record: usize,
    },
    /// A UTF-16 filename with an odd byte length cannot be one.
    OddNameLength {
        /// Declared length in bytes.
        len: usize,
    },
}

impl RecordError {
    /// The error's text.
    pub open spec fn text(self) -> Seq<char> {
        match self {
            RecordError::TooShort { len } => "record is "@ + decimal(len as nat)
                + " bytes, shorter than any USN record header"@,
            RecordError::UnsupportedVersion { major, minor } => "unsupported USN record version "@
                + decimal(major as nat) + "."@ + decimal(minor as nat),
            RecordError::LengthMismatch { declared, available } => "record declares "@ + decimal(
                declared as nat,
            ) + " bytes, "@ + decimal(available as nat) + " available"@,
            RecordError::NameOutOfBounds { offset, len, record } => "filename at offset "@
                + decimal(offset as nat) + " length "@ + decimal(len as nat)
                + " does not fit in a "@ + decimal(record as nat) + " byte record"@,
            RecordError::OddNameLength { len } => "filename length "@ + decimal(len as nat)
                + " is not a whole number of UTF-16 code units"@,
        }
    }

    /// The error as text.
    pub fn to_text(&self) -> (text: String)
        ensures
            text@ == self.text(),
    {
        match *self {
            RecordError::TooShort { len } => {
                let mut text = owned("record is ");
                append_number(&mut text, len as u64);
                append(&mut text, " bytes, shorter than any USN record header");
                text
            },
            RecordError::UnsupportedVersion { major, minor } => {
                let mut text = owned("unsupported USN record version ");
                append_number(&mut text, major as u64);
                append(&mut text, ".");
                append_number(&mut text, minor as u64);
                text
            },
            RecordError::LengthMismatch { declared, available } => {
                let mut text = owned("record declares ");
                append_number(&mut text, declared as u64);
                append(&mut text, " bytes, ");
                append_number(&mut text, available as u64);
                append(&mut text, " available");
                text
            },
            RecordError::NameOutOfBounds { offset, len, record } => {
                let mut text = owned("filename at offset ");
                append_number(&mut text, offset as u64);
                append(&mut text, " length ");
                append_number(&mut text, len as u64);
                append(&mut text, " does not fit in a ");
                append_number(&mut text, record as u64);
                append(&mut text, " byte record");
                text
            },
            RecordError::OddNameLength { len } => {
                let mut text = owned("filename length ");
                append_number(&mut text, len as u64);
                append(&mut text, " is not a whole number of UTF-16 code units");
                text
            },
        }
    }
}

/// The name that the bytes of a name field spell, cut to the longest name that
/// is kept and without control characters.
pub open spec fn name_of(bytes: Seq<u8>) -> Seq<char> {
    sanitised(decoded(units_of(bytes)), MAX_NAME_CHARS as nat)
}

/// The length of the header of a record layout.
pub open spec fn header_of(major: nat) -> Option<nat> {
    if major == 2 {
        Some(V2_HEADER as nat)
    } else if major == 3 {
        Some(V3_HEADER as nat)
    } else {
        None
    }
}

/// The width of a file reference in a record layout.
pub open spec fn reference_width(major: nat) -> int {
    if major == 2 {
        8
    } else {
        16
    }
}

/// What is wrong with a record at the start of a buffer.
pub open spec fn record_fault(bytes: Seq<u8>) -> Option<RecordError> {
    if bytes.len() < 8 {
        Some(RecordError::TooShort { len: bytes.len() as usize })
    } else {
        let declared = number_at(bytes, 0, 4);
        let major = number_at(bytes, 4, 2);
        let minor = number_at(bytes, 6, 2);
        match header_of(major) {
            None => Some(
                RecordError::UnsupportedVersion { major: major as u16, minor: minor as u16 },
            ),
            Some(header) => if declared < header || declared > bytes.len() {
                Some(
                    RecordError::LengthMismatch {
                        declared: declared as usize,
                        available: bytes.len() as usize,
                    },
                )
            } else {
                let rest = 8 + 2 * reference_width(major);
                let length = number_at(bytes, rest + 32, 2);
                let offset = number_at(bytes, rest + 34, 2);
                if length % 2 != 0 {
                    Some(RecordError::OddNameLength { len: length as usize })
                } else if offset < header || offset + length > declared {
                    Some(
                        RecordError::NameOutOfBounds {
                            offset: offset as usize,
                            len: length as usize,
                            record: declared as usize,
                        },
                    )
                } else {
                    None
                }
            },
        }
    }
}

/// What a record at the start of a buffer says, where nothing is wrong with it.
pub open spec fn record_of(bytes: Seq<u8>) -> RecordModel {
    let major = number_at(bytes, 4, 2);
    let wide = reference_width(major);
    let rest = 8 + 2 * wide;
    let length = number_at(bytes, rest + 32, 2);
    let offset = number_at(bytes, rest + 34, 2);
    RecordModel {
        usn: as_signed(number_at(bytes, rest, 8)),
        file_reference: number_at(bytes, 8, wide),
        parent_reference: number_at(bytes, 8 + wide, wide),
        timestamp: as_signed(number_at(bytes, rest + 8, 8)),
        reason: number_at(bytes, rest + 16, 4),
        attributes: number_at(bytes, rest + 28, 4),
        file_name: name_of(bytes.subrange(offset as int, (offset + length) as int)),
        version: (major, number_at(bytes, 6, 2)),
    }
}

/// Decode a UTF-16LE filename into something safe to put in an event.
///
/// Unpaired surrogates become the replacement character rather than an error:
/// NTFS permits names that are not valid UTF-16, and refusing to name a file
/// would mean not reporting a change to it.
fn decode_name(bytes: &[u8]) -> (name: String)
    ensures
        name@ == name_of(bytes@),
{
    let text = decode_utf16(bytes);
    let (name, _) = sanitise(text.as_slice(), MAX_NAME_CHARS);
    string_of(name.as_slice())
}

/// Parse one record from the start of `bytes`.
///
/// `bytes` may be longer than the record; only `RecordLength` bytes are read.
pub fn parse_record(bytes: &[u8]) -> (result: Result<UsnRecord, RecordError>)
    ensures
        match result {
            Ok(record) => record_fault(bytes@) is None && record@ == record_of(bytes@),
            Err(error) => record_fault(bytes@) == Some(error),
        },
{
    if bytes.len() < 8 {
        return Err(RecordError::TooShort { len: bytes.len() });
    }
    let declared: usize = read_u32(bytes, 0) as usize;
    let major: u16 = read_u16(bytes, 4);
    let minor: u16 = read_u16(bytes, 6);
    let (header, wide): (usize, usize) = if major == 2 {
        (V2_HEADER, 8)
    } else if major == 3 {
        (V3_HEADER, 16)
    } else {
        return Err(RecordError::UnsupportedVersion { major, minor });
    };
    // The record must be at least its own header and no longer than what there
    // is. Both directions matter: too short and the fields below are not there,
    // too long and the next record would be read into.
    if declared < header || declared > bytes.len() {
        return Err(RecordError::LengthMismatch { declared, available: bytes.len() });
    }
    let rest: usize = 8 + 2 * wide;
    // SourceInfo at +20 and SecurityId at +24 are read past: neither is used.
    let length: usize = read_u16(bytes, rest + 32) as usize;
    let offset: usize = read_u16(bytes, rest + 34) as usize;
    if length % 2 != 0 {
        return Err(RecordError::OddNameLength { len: length });
    }
    // The record locates its own filename, and the bounds are checked against
    // the record's declared length rather than the buffer's: a name that "fits"
    // only by running into the next record is not this record's name.
    if offset < header || offset + length > declared {
        return Err(RecordError::NameOutOfBounds { offset, len: length, record: declared });
    }
    Ok(
        UsnRecord {
            usn: read_i64(bytes, rest),
            file_reference: read_number(bytes, 8, wide),
            parent_reference: read_number(bytes, 8 + wide, wide),
            timestamp: read_i64(bytes, rest + 8),
            reason: read_u32(bytes, rest + 16),
            attributes: read_u32(bytes, rest + 28),
            file_name: decode_name(slice_subrange(bytes, offset, offset + length)),
            version: (major, minor),
        },
    )
}

/// What a response to a journal read contained.
pub struct ResponseModel {
    /// The USN to resume from on the next read.
    pub next_usn: int,
    /// The records that parsed.
    pub records: Seq<RecordModel>,
    /// How many records were rejected.
    pub rejected: nat,
}

/// The models of records.
pub open spec fn record_models(records: Seq<UsnRecord>) -> Seq<RecordModel> {
    records.map_values(|record: UsnRecord| record@)
}

/// What a whole `FSCTL_READ_USN_JOURNAL` response contained.
#[derive(Debug, Clone, PartialEq, Eq)]
pub struct ReadResponse {
    /// The USN to resume from on the next read.
    pub next_usn: i64,
    /// The records that parsed.
    pub records: Vec<UsnRecord>,
    /// Records rejected as malformed.
    ///
    /// **A coverage hole, not a statistic.** Every rejection is a filesystem
    /// change the sensor did not see.
    pub rejected: u64,
}

impl View for ReadResponse {
    type V = ResponseModel;

    open spec fn view(&self) -> ResponseModel {
        ResponseModel {
            next_usn: self.next_usn as int,
            records: record_models(self.records@),
            rejected: self.rejected as nat,
        }
    }
}

impl Default for ReadResponse {
    fn default() -> (response: Self)
        ensures
            response@ == (ResponseModel { next_usn: 0, records: seq![], rejected: 0 }),
    {
        let response = ReadResponse { next_usn: 0, records: Vec::new(), rejected: 0 };
        assert(response@.records =~= seq![]);
        response
    }
}

/// Whether a record can be stepped over: its length is given, is that of a
/// record, and lies inside the buffer.
pub open spec fn is_step(rest: Seq<u8>) -> bool {
    rest.len() >= 4 && V2_HEADER <= number_at(rest, 0, 4) <= rest.len()
}

/// A response with the records from a place of the buffer on.
pub open spec fn walked(response: ResponseModel, buffer: Seq<u8>, offset: int) -> ResponseModel
    decreases buffer.len() - offset,
{
    if offset < 0 || offset >= buffer.len() {
        response
    } else {
        let rest = buffer.skip(offset);
        if is_step(rest) {
            let declared = number_at(rest, 0, 4) as int;
            let bytes = rest.take(declared);
            walked(
                if record_fault(bytes) is None {
                    ResponseModel { records: response.records.push(record_of(bytes)), ..response }
                } else {
                    ResponseModel { rejected: response.rejected + 1, ..response }
                },
                buffer,
                offset + declared,
            )
        } else {
            ResponseModel { rejected: response.rejected + 1, ..response }
        }
    }
}

/// What an output buffer of a journal read contains.
pub open spec fn response_of(buffer: Seq<u8>) -> ResponseModel {
    if buffer.len() < 8 {
        ResponseModel { next_usn: 0, records: seq![], rejected: 0 }
    } else {
        walked(
            ResponseModel {
                next_usn: as_signed(number_at(buffer, 0, 8)),
                records: seq![],
                rejected: 0,
            },
            buffer,
            NEXT_USN_PREFIX as int,
        )
    }
}

/// Parse a `FSCTL_READ_USN_JOURNAL` output buffer.
///
/// The buffer is a `USN` (the next USN to read from) followed by a run of
/// variable-length records. The walk stops at the first record that cannot be
/// stepped over, because continuing would mean guessing where the next record
/// starts: a zero length would loop for ever, and anything below the smallest
/// header or past the end of the buffer would land mid-record and turn one bad
/// length into a run of fabricated rejections. Records that parse before that
/// point are kept: partial progress through a buffer is still progress, and the
/// next read resumes from `next_usn` regardless.
pub fn parse_read_response(buffer: &[u8]) -> (response: ReadResponse)
    ensures
        response@ == response_of(buffer@),
{
    let mut response = ReadResponse::default();
    if buffer.len() < 8 {
        return response;
    }
    response.next_usn = read_i64(buffer, 0);
    let mut offset: usize = NEXT_USN_PREFIX;
    while offset < buffer.len()
        invariant
            NEXT_USN_PREFIX <= offset <= buffer@.len(),
            response.rejected <= offset,
            walked(response@, buffer@, offset as int) == response_of(buffer@),
        decreases buffer@.len() - offset,
    {
        let rest = slice_subrange(buffer, offset, buffer.len());
        assert(rest@ =~= buffer@.skip(offset as int));
        assert(offset < u64::MAX) by {
            assert(buffer@.len() == buffer.len());
        }
        if rest.len() < 4 {
            response.rejected = response.rejected + 1;
            return response;
        }
        let declared: usize = read_u32(rest, 0) as usize;
        if declared < V2_HEADER || declared > rest.len() {
            response.rejected = response.rejected + 1;
            return response;
        }
        let bytes = slice_subrange(rest, 0, declared);
        assert(bytes@ =~= rest@.take(declared as int));
        match parse_record(bytes) {
            Ok(record) => {
                let ghost before = response.records@;
                response.records.push(record);
                assert(record_models(response.records@) =~= record_models(before).push(record@));
            },
            // A record that is individually malformed but whose length is usable
            // is skipped: the run can still be walked.
            Err(_) => response.rejected = response.rejected + 1,
        }
        offset = offset + declared;
    }
    response
}

/// The volume's journal, from `FSCTL_QUERY_USN_JOURNAL`.
#[derive(Debug, Clone, Copy, PartialEq, Eq, Structural)]
pub struct JournalData {
    /// Identifies this journal instance. **Changes when the journal is deleted
    /// and recreated**, which is what makes a stored USN meaningless.
    pub journal_id: u64,
    /// The oldest USN still in the journal.
    pub first_usn: i64,
    /// The USN the next record will be written at.
    pub next_usn: i64,
    /// The oldest USN that can still be read.
    pub lowest_valid_usn: i64,
    /// The USN at which the journal will be reset.
    pub max_usn: i64,
}

/// Parse `USN_JOURNAL_DATA`.
///
/// Only the `V0` prefix is read, which every later version shares, so a newer
/// buffer parses fine and the extra fields are ignored rather than mis-read.
pub fn parse_journal_data(bytes: &[u8]) -> (data: Option<JournalData>)
    ensures
        data is Some <==> bytes@.len() >= JOURNAL_DATA_V0,
        data matches Some(data) ==> {
            &&& data.journal_id == number_at(bytes@, 0, 8)
            &&& data.first_usn == as_signed(number_at(bytes@, 8, 8))
            &&& data.next_usn == as_signed(number_at(bytes@, 16, 8))
            &&& data.lowest_valid_usn == as_signed(number_at(bytes@, 24, 8))
            &&& data.max_usn == as_signed(number_at(bytes@, 32, 8))
        },
{
    if bytes.len() < JOURNAL_DATA_V0 {
        return None;
    }
    Some(
        JournalData {
            journal_id: read_number(bytes, 0, 8) as u64,
            first_usn: read_i64(bytes, 8),
            next_usn: read_i64(bytes, 16),
            lowest_valid_usn: read_i64(bytes, 24),
            max_usn: read_i64(bytes, 32),
        },
    )
}

/// What to do when the sensor starts and wants to know what it missed.
#[derive(Debug, Clone, PartialEq, Eq, Structural)]
pub enum CatchUp {
    /// Read the journal from this USN. Everything since is recoverable.
    Resume(i64),
    /// The journal cannot answer. Fall back to a full baseline rescan, and
    /// **say why**: this is the expensive path, and an operator seeing it
    /// repeatedly has a journal sized too small for the sensor's downtime.
    FullRescan(RescanReason),
}

/// Why the journal could not be resumed from.
#[derive(Debug, Clone, Copy, PartialEq, Eq, Structural)]
#[non_exhaustive]
pub enum RescanReason {
    /// Nothing was stored: a first run.
    NoStoredPosition,
    /// The journal was deleted and recreated, so the stored USN refers to a
    /// journal that no longer exists. A stored USN from a different journal is
    /// not merely stale, it is meaningless: the same number names a different
    /// change.
    JournalReplaced,
    /// The journal wrapped past the stored position while the sensor was down.
    /// The records in between are gone.
    RecordsAgedOut,
    /// The stored position is ahead of the journal's next USN, which should be
    /// impossible: a restored volume snapshot, or a corrupt store.
    PositionFromTheFuture,
}

/// How to catch up, given what was stored and what the volume says now.
pub open spec fn planned(stored: Option<(u64, i64)>, current: JournalData) -> CatchUp {
    match stored {
        None => CatchUp::FullRescan(RescanReason::NoStoredPosition),
        Some((journal, usn)) => if journal != current.journal_id {
            CatchUp::FullRescan(RescanReason::JournalReplaced)
        } else if usn > current.next_usn {
            CatchUp::FullRescan(RescanReason::PositionFromTheFuture)
        } else if usn < current.lowest_valid_usn || usn < current.first_usn {
            CatchUp::FullRescan(RescanReason::RecordsAgedOut)
        } else {
            CatchUp::Resume(usn)
        },
    }
}

/// Decide how to catch up, given what was stored and what the volume says now.
///
/// **Fails toward the rescan.** Every uncertain case returns
/// [`CatchUp::FullRescan`], because the expensive-but-complete answer is the
/// right way to be wrong when the alternative is silently skipping a range of
/// changes.
pub fn plan_catch_up(stored: Option<(u64, i64)>, current: &JournalData) -> (plan: CatchUp)
    ensures
        plan == planned(stored, *current),
{
    let (journal, usn): (u64, i64) = match stored {
        Some(position) => position,
        None => return CatchUp::FullRescan(RescanReason::NoStoredPosition),
    };
    if journal != current.journal_id {
        return CatchUp::FullRescan(RescanReason::JournalReplaced);
    }
    if usn > current.next_usn {
        return CatchUp::FullRescan(RescanReason::PositionFromTheFuture);
    }
    // `lowest_valid_usn` is the oldest readable position. Anything before it has
    // been overwritten as the journal wrapped.
    if usn < current.lowest_valid_usn || usn < current.first_usn {
        return CatchUp::FullRescan(RescanReason::RecordsAgedOut);
    }
    CatchUp::Resume(usn)
}

/// A read resumes only where the journal still holds every change since: in the
/// same journal, at a position that is neither overwritten nor still to come.
pub proof fn law_a_resumed_read_misses_nothing(
    stored: Option<(u64, i64)>,
    current: JournalData,
    usn: i64,
)
    ensures
        planned(stored, current) == CatchUp::Resume(usn) <==> {
            &&& stored == Some((current.journal_id, usn))
            &&& current.lowest_valid_usn <= usn <= current.next_usn
            &&& current.first_usn <= usn
        },
{
}

/// Every record that a walk steps over is either kept or counted, and the walk
/// counts at most one record more, where it has to stop.
pub proof fn law_the_walk_accounts_for_every_record(
    response: ResponseModel,
    buffer: Seq<u8>,
    offset: int,
)
    requires
        0 <= offset <= buffer.len(),
    ensures
        ({
            let after = walked(response, buffer, offset);
            let counted = after.records.len() + after.rejected - response.records.len()
                - response.rejected;
            &&& counted == steps(buffer, offset) || counted == steps(buffer, offset) + 1
            &&& after.records.len() >= response.records.len()
            &&& after.rejected >= response.rejected
            &&& after.next_usn == response.next_usn
        }),
    decreases buffer.len() - offset,
{
    if offset < buffer.len() {
        let rest = buffer.skip(offset);
        if is_step(rest) {
            let declared = number_at(rest, 0, 4) as int;
            let bytes = rest.take(declared);
            let next = if record_fault(bytes) is None {
                ResponseModel { records: response.records.push(record_of(bytes)), ..response }
            } else {
                ResponseModel { rejected: response.rejected + 1, ..response }
            };
            law_the_walk_accounts_for_every_record(next, buffer, offset + declared);
        }
    }
}

/// How many records can be stepped over from a place on.
pub open spec fn steps(buffer: Seq<u8>, offset: int) -> nat
    decreases buffer.len() - offset,
{
    if offset < 0 || offset >= buffer.len() || !is_step(buffer.skip(offset)) {
        0
    } else {
        1 + steps(buffer, offset + number_at(buffer.skip(offset), 0, 4))
    }
}

/// What the reasons of a record come to, the gravest first: a deletion, a creation, a
/// renaming, new contents, new attributes.
pub proof fn law_the_gravest_reason_decides(reason: u32)
    ensures
        reason & 0x200 != 0 <==> change_for(reason) == Some(FileChange::Deleted),
        reason & 0x200 == 0 && reason & 0x100 != 0 <==> change_for(reason) == Some(
            FileChange::Created,
        ),
        reason & 0x200 == 0 && reason & 0x100 == 0 && (reason & 0x1000 != 0 || reason & 0x2000 != 0)
            ==> change_for(reason) == Some(FileChange::Renamed),
        reason & 0x3300 == 0 && (reason & 0x1 != 0 || reason & 0x2 != 0 || reason & 0x4 != 0
            || reason & 0x10 != 0 || reason & 0x20 != 0 || reason & 0x40 != 0 || reason & 0x20_0000
            != 0) ==> change_for(reason) == Some(FileChange::Modified),
        reason & 0x20_3377 == 0 && (reason & 0x400 != 0 || reason & 0x800 != 0 || reason & 0x4000
            != 0 || reason & 0x8000 != 0 || reason & 0x1_0000 != 0 || reason & 0x2_0000 != 0
            || reason & 0x4_0000 != 0 || reason & 0x8_0000 != 0 || reason & 0x10_0000 != 0 || reason
            & 0x80_0000 != 0) ==> change_for(reason) == Some(FileChange::AttributesChanged),
        reason == 0x8000_0000 || reason == 0 ==> change_for(reason) is None,
{
    assert(reason & 0x1000 != 0 || reason & 0x2000 != 0 ==> reason & 0x3000 != 0) by (bit_vector);
    assert(reason & 0x3300 == 0 ==> reason & 0x200 == 0 && reason & 0x100 == 0 && reason & 0x3000
        == 0) by (bit_vector);
    assert(reason & 0x1 != 0 || reason & 0x2 != 0 || reason & 0x4 != 0 || reason & 0x10 != 0
        || reason & 0x20 != 0 || reason & 0x40 != 0 || reason & 0x20_0000 != 0 ==> reason
        & 0x20_0077 != 0) by (bit_vector);
    assert(reason & 0x20_3377 == 0 ==> reason & 0x200 == 0 && reason & 0x100 == 0 && reason & 0x3000
        == 0 && reason & 0x20_0077 == 0) by (bit_vector);
    assert(reason & 0x400 != 0 || reason & 0x800 != 0 || reason & 0x4000 != 0 || reason & 0x8000
        != 0 || reason & 0x1_0000 != 0 || reason & 0x2_0000 != 0 || reason & 0x4_0000 != 0 || reason
        & 0x8_0000 != 0 || reason & 0x10_0000 != 0 || reason & 0x80_0000 != 0 ==> reason
        & 0x9f_cc00 != 0) by (bit_vector);
    assert(reason == 0x8000_0000 || reason == 0 ==> reason & 0x200 == 0 && reason & 0x100 == 0
        && reason & 0x3000 == 0 && reason & 0x20_0077 == 0 && reason & 0x9f_cc00 == 0)
        by (bit_vector);
}

/// The fields of a record stand where its layout puts them: version two has file
/// references of eight bytes, version three of sixteen, and the rest follows.
pub proof fn law_record_fields_stand_where_the_layout_puts_them(bytes: Seq<u8>)
    requires
        record_fault(bytes) is None,
    ensures
        ({
            let record = record_of(bytes);
            let major = number_at(bytes, 4, 2);
            &&& major == 2 || major == 3
            &&& record.version == (major, number_at(bytes, 6, 2))
            &&& major == 2 ==> {
                &&& record.file_reference == number_at(bytes, 8, 8)
                &&& record.parent_reference == number_at(bytes, 16, 8)
                &&& record.usn == as_signed(number_at(bytes, 24, 8))
                &&& record.timestamp == as_signed(number_at(bytes, 32, 8))
                &&& record.reason == number_at(bytes, 40, 4)
                &&& record.attributes == number_at(bytes, 52, 4)
                &&& record.file_name == name_of(
                    bytes.subrange(
                        number_at(bytes, 58, 2) as int,
                        number_at(bytes, 58, 2) as int + number_at(bytes, 56, 2),
                    ),
                )
            }
            &&& major == 3 ==> {
                &&& record.file_reference == number_at(bytes, 8, 16)
                &&& record.parent_reference == number_at(bytes, 24, 16)
                &&& record.usn == as_signed(number_at(bytes, 40, 8))
                &&& record.timestamp == as_signed(number_at(bytes, 48, 8))
                &&& record.reason == number_at(bytes, 56, 4)
                &&& record.attributes == number_at(bytes, 68, 4)
                &&& record.file_name == name_of(
                    bytes.subrange(
                        number_at(bytes, 74, 2) as int,
                        number_at(bytes, 74, 2) as int + number_at(bytes, 72, 2),
                    ),
                )
            }
        }),
{
}

/// A record is accepted exactly where its version is known, its declared length holds the
/// header and is there, and its name is whole code units behind the header and inside
/// the record.
pub proof fn law_a_record_is_sound_or_refused(bytes: Seq<u8>)
    ensures
        ({
            let declared = number_at(bytes, 0, 4);
            let major = number_at(bytes, 4, 2);
            let header: int = if major == 2 {
                60
            } else {
                76
            };
            let length = number_at(bytes, header - 4, 2);
            let offset = number_at(bytes, header - 2, 2);
            record_fault(bytes) is None <==> {
                &&& bytes.len() >= 8
                &&& major == 2 || major == 3
                &&& header <= declared <= bytes.len()
                &&& length % 2 == 0
                &&& header <= offset
                &&& offset + length <= declared
            }
        }),
        bytes.len() < 8 ==> record_fault(bytes) is Some && record_fault(bytes)->0 is TooShort,
        bytes.len() >= 8 && number_at(bytes, 4, 2) != 2 && number_at(bytes, 4, 2) != 3
            ==> record_fault(bytes) is Some && record_fault(bytes)->0 is UnsupportedVersion,
{
}

/// A response starts with the number to go on from, and its records follow, each as long
/// as it declares. One that cannot be stepped over ends the walk and is counted.
pub proof fn law_records_follow_one_another(response: ResponseModel, buffer: Seq<u8>, offset: int)
    requires
        0 <= offset < buffer.len(),
    ensures
        ({
            let rest = buffer.skip(offset);
            let declared = number_at(rest, 0, 4);
            let whole = rest.len() >= 4 && 60 <= declared <= rest.len();
            let bytes = rest.take(declared as int);
            &&& !whole ==> walked(response, buffer, offset) == (ResponseModel {
                rejected: response.rejected + 1,
                ..response
            })
            &&& whole && record_fault(bytes) is None ==> walked(response, buffer, offset) == walked(
                ResponseModel { records: response.records.push(record_of(bytes)), ..response },
                buffer,
                offset + declared,
            )
            &&& whole && record_fault(bytes) is Some ==> walked(response, buffer, offset) == walked(
                ResponseModel { rejected: response.rejected + 1, ..response },
                buffer,
                offset + declared,
            )
        }),
        buffer.len() < 8 ==> response_of(buffer).records.len() == 0 && response_of(buffer).next_usn
            == 0,
        buffer.len() == 8 ==> response_of(buffer).records.len() == 0 && response_of(
            buffer,
        ).next_usn == as_signed(number_at(buffer, 0, 8)) && response_of(buffer).rejected == 0,
{
}

/// Where reading goes on: where it stopped, as long as the journal is the same and still
/// has what follows; otherwise everything is scanned again, for the reason that holds.
pub proof fn law_a_rescan_says_why(journal: u64, usn: i64, current: JournalData)
    ensures
        planned(None, current) == CatchUp::FullRescan(RescanReason::NoStoredPosition),
        journal != current.journal_id <==> planned(Some((journal, usn)), current)
            == CatchUp::FullRescan(RescanReason::JournalReplaced),
        journal == current.journal_id && usn > current.next_usn <==> planned(
            Some((journal, usn)),
            current,
        ) == CatchUp::FullRescan(RescanReason::PositionFromTheFuture),
        journal == current.journal_id && usn <= current.next_usn && (usn < current.lowest_valid_usn
            || usn < current.first_usn) <==> planned(Some((journal, usn)), current)
            == CatchUp::FullRescan(RescanReason::RecordsAgedOut),
{
}

} // verus!
