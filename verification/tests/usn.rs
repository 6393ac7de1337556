use cybersentinel::hids::event::FileChange;
use cybersentinel::hids::usn::{
    parse_journal_data, parse_read_response, parse_record, plan_catch_up, CatchUp, JournalData,
    RecordError, RescanReason, FILE_ATTRIBUTE_DIRECTORY, JOURNAL_DATA_V0, USN_REASON_CLOSE,
    USN_REASON_DATA_EXTEND, USN_REASON_DATA_OVERWRITE, USN_REASON_FILE_CREATE,
    USN_REASON_FILE_DELETE, USN_REASON_RENAME_NEW_NAME, USN_REASON_RENAME_OLD_NAME,
    USN_REASON_SECURITY_CHANGE, V2_HEADER, V3_HEADER,
};

/// Build a `USN_RECORD_V2` the way the documented layout says one looks.
///
/// The tests are only as right as this builder, which is the honest limit
/// of what can be established without a Windows volume: they pin the
/// parser's *behaviour* — bounds, totality, rejection of incoherent input —
/// and they pin it against this file's understanding of the layout, not
/// against NTFS.
fn v2_record(usn: i64, reason: u32, attributes: u32, name: &str) -> Vec<u8> {
    let name_utf16: Vec<u8> = name
        .encode_utf16()
        .flat_map(|unit| unit.to_le_bytes())
        .collect();
    let len = V2_HEADER + name_utf16.len();
    // Records are 8-byte aligned in the buffer.
    let padded = len.div_ceil(8) * 8;

    let mut record = vec![0_u8; padded];
    record[0..4].copy_from_slice(&(padded as u32).to_le_bytes());
    record[4..6].copy_from_slice(&2_u16.to_le_bytes());
    record[6..8].copy_from_slice(&0_u16.to_le_bytes());
    record[8..16].copy_from_slice(&0x1234_5678_u64.to_le_bytes());
    record[16..24].copy_from_slice(&0x8765_4321_u64.to_le_bytes());
    record[24..32].copy_from_slice(&usn.to_le_bytes());
    record[32..40].copy_from_slice(&132_000_000_000_000_000_i64.to_le_bytes());
    record[40..44].copy_from_slice(&reason.to_le_bytes());
    record[44..48].copy_from_slice(&0_u32.to_le_bytes()); // SourceInfo
    record[48..52].copy_from_slice(&0_u32.to_le_bytes()); // SecurityId
    record[52..56].copy_from_slice(&attributes.to_le_bytes());
    record[56..58].copy_from_slice(&(name_utf16.len() as u16).to_le_bytes());
    record[58..60].copy_from_slice(&(V2_HEADER as u16).to_le_bytes());
    record[V2_HEADER..V2_HEADER + name_utf16.len()].copy_from_slice(&name_utf16);
    record
}

fn v3_record(usn: i64, reason: u32, name: &str) -> Vec<u8> {
    let name_utf16: Vec<u8> = name
        .encode_utf16()
        .flat_map(|unit| unit.to_le_bytes())
        .collect();
    let len = V3_HEADER + name_utf16.len();
    let padded = len.div_ceil(8) * 8;

    let mut record = vec![0_u8; padded];
    record[0..4].copy_from_slice(&(padded as u32).to_le_bytes());
    record[4..6].copy_from_slice(&3_u16.to_le_bytes());
    record[6..8].copy_from_slice(&0_u16.to_le_bytes());
    record[8..24].copy_from_slice(&1_u128.to_le_bytes());
    record[24..40].copy_from_slice(&2_u128.to_le_bytes());
    record[40..48].copy_from_slice(&usn.to_le_bytes());
    record[48..56].copy_from_slice(&0_i64.to_le_bytes());
    record[56..60].copy_from_slice(&reason.to_le_bytes());
    record[60..64].copy_from_slice(&0_u32.to_le_bytes());
    record[64..68].copy_from_slice(&0_u32.to_le_bytes());
    record[68..72].copy_from_slice(&0_u32.to_le_bytes());
    record[72..74].copy_from_slice(&(name_utf16.len() as u16).to_le_bytes());
    record[74..76].copy_from_slice(&(V3_HEADER as u16).to_le_bytes());
    record[V3_HEADER..V3_HEADER + name_utf16.len()].copy_from_slice(&name_utf16);
    record
}

fn response(records: &[Vec<u8>], next_usn: i64) -> Vec<u8> {
    let mut buffer = next_usn.to_le_bytes().to_vec();
    for record in records {
        buffer.extend_from_slice(record);
    }
    buffer
}

// -----------------------------------------------------------------------
// parsing
// -----------------------------------------------------------------------

#[test]
fn parses_a_v2_record() {
    let bytes = v2_record(4_096, USN_REASON_DATA_OVERWRITE, 0, "passwords.txt");
    let record = parse_record(&bytes).expect("a record");

    assert_eq!(record.usn, 4_096);
    assert_eq!(record.file_name, "passwords.txt");
    assert_eq!(record.reason, USN_REASON_DATA_OVERWRITE);
    assert_eq!(record.version, (2, 0));
    assert_eq!(record.file_reference, 0x1234_5678);
    assert!(!record.is_directory());
}

#[test]
fn parses_a_v3_record_with_a_128_bit_reference() {
    let bytes = v3_record(9_000, USN_REASON_FILE_CREATE, "new.dll");
    let record = parse_record(&bytes).expect("a record");

    assert_eq!(record.usn, 9_000);
    assert_eq!(record.file_name, "new.dll");
    assert_eq!(record.version, (3, 0));
    assert_eq!(record.file_reference, 1);
    assert_eq!(record.parent_reference, 2);
}

#[test]
fn a_directory_attribute_is_read() {
    let bytes = v2_record(1, USN_REASON_FILE_CREATE, FILE_ATTRIBUTE_DIRECTORY, "sub");
    assert!(parse_record(&bytes).expect("a record").is_directory());
}

#[test]
fn parses_a_non_ascii_name() {
    let bytes = v2_record(1, USN_REASON_DATA_EXTEND, 0, "café-Ω-日本語.log");
    assert_eq!(
        parse_record(&bytes).expect("a record").file_name,
        "café-Ω-日本語.log"
    );
}

#[test]
fn a_walk_of_several_records_finds_them_all() {
    let buffer = response(
        &[
            v2_record(10, USN_REASON_FILE_CREATE, 0, "a.txt"),
            v2_record(20, USN_REASON_DATA_OVERWRITE, 0, "b.txt"),
            v2_record(30, USN_REASON_FILE_DELETE, 0, "c.txt"),
        ],
        40,
    );
    let parsed = parse_read_response(&buffer);

    assert_eq!(parsed.next_usn, 40);
    assert_eq!(parsed.rejected, 0);
    let names: Vec<_> = parsed
        .records
        .iter()
        .map(|record| record.file_name.as_str())
        .collect();
    assert_eq!(names, ["a.txt", "b.txt", "c.txt"]);
}

#[test]
fn mixed_record_versions_in_one_buffer_are_both_read() {
    let buffer = response(
        &[
            v2_record(10, USN_REASON_FILE_CREATE, 0, "old.txt"),
            v3_record(20, USN_REASON_FILE_CREATE, "new.txt"),
        ],
        30,
    );
    let parsed = parse_read_response(&buffer);
    assert_eq!(parsed.records.len(), 2);
    assert_eq!(parsed.records[0].version, (2, 0));
    assert_eq!(parsed.records[1].version, (3, 0));
}

// -----------------------------------------------------------------------
// rejection rather than guessing
// -----------------------------------------------------------------------

#[test]
fn an_unknown_version_is_refused_not_approximated() {
    let mut bytes = v2_record(1, USN_REASON_FILE_CREATE, 0, "x.txt");
    bytes[4..6].copy_from_slice(&9_u16.to_le_bytes());
    assert_eq!(
        parse_record(&bytes),
        Err(RecordError::UnsupportedVersion { major: 9, minor: 0 }),
        "guessing at an unknown layout would read a filename from the wrong offset"
    );
}

#[test]
fn a_filename_pointing_outside_the_record_is_refused() {
    let mut bytes = v2_record(1, USN_REASON_FILE_CREATE, 0, "x.txt");
    // Claim the name is far past the end.
    bytes[58..60].copy_from_slice(&60_000_u16.to_le_bytes());
    assert!(matches!(
        parse_record(&bytes),
        Err(RecordError::NameOutOfBounds { .. })
    ));
}

#[test]
fn a_filename_running_past_the_record_end_is_refused() {
    let mut bytes = v2_record(1, USN_REASON_FILE_CREATE, 0, "x.txt");
    // A length that would run into whatever follows this record.
    bytes[56..58].copy_from_slice(&4_000_u16.to_le_bytes());
    assert!(matches!(
        parse_record(&bytes),
        Err(RecordError::NameOutOfBounds { .. })
    ));
}

#[test]
fn a_filename_inside_the_header_is_refused() {
    let mut bytes = v2_record(1, USN_REASON_FILE_CREATE, 0, "x.txt");
    // Offset 8 is inside the header: the "name" would overlap the fields.
    bytes[58..60].copy_from_slice(&8_u16.to_le_bytes());
    assert!(matches!(
        parse_record(&bytes),
        Err(RecordError::NameOutOfBounds { .. })
    ));
}

#[test]
fn an_odd_length_utf16_name_is_refused() {
    let mut bytes = v2_record(1, USN_REASON_FILE_CREATE, 0, "x.txt");
    bytes[56..58].copy_from_slice(&7_u16.to_le_bytes());
    assert_eq!(
        parse_record(&bytes),
        Err(RecordError::OddNameLength { len: 7 })
    );
}

#[test]
fn a_record_shorter_than_its_own_header_is_refused() {
    let mut bytes = v2_record(1, USN_REASON_FILE_CREATE, 0, "x.txt");
    bytes[0..4].copy_from_slice(&16_u32.to_le_bytes());
    assert!(matches!(
        parse_record(&bytes),
        Err(RecordError::LengthMismatch { .. })
    ));
}

#[test]
fn a_record_claiming_more_bytes_than_exist_is_refused() {
    let mut bytes = v2_record(1, USN_REASON_FILE_CREATE, 0, "x.txt");
    bytes[0..4].copy_from_slice(&100_000_u32.to_le_bytes());
    assert!(matches!(
        parse_record(&bytes),
        Err(RecordError::LengthMismatch { .. })
    ));
}

/// The property that stops a malformed buffer becoming an infinite loop.
/// Found by the fuzzer. A declared length too small to be a record is not
/// a usable step: following it lands mid-record and turns one bad length
/// into a run of fabricated rejections.
#[test]
fn a_length_too_small_to_be_a_record_stops_the_walk_once() {
    let mut buffer = 7_i64.to_le_bytes().to_vec();
    // Three "records" each claiming to be 10 bytes long.
    for _ in 0..3 {
        let mut stub = vec![0_u8; 10];
        stub[0..4].copy_from_slice(&10_u32.to_le_bytes());
        buffer.extend_from_slice(&stub);
    }

    let parsed = parse_read_response(&buffer);
    assert!(parsed.records.is_empty());
    assert_eq!(
        parsed.rejected, 1,
        "one unreadable run is one hole, not one per bogus length"
    );
    assert_eq!(parsed.next_usn, 7);
}

#[test]
fn a_zero_length_record_terminates_the_walk_instead_of_looping() {
    let mut buffer = 100_i64.to_le_bytes().to_vec();
    buffer.extend_from_slice(&[0_u8; 64]); // RecordLength == 0
    let parsed = parse_read_response(&buffer);
    assert!(parsed.records.is_empty());
    assert_eq!(parsed.rejected, 1);
    assert_eq!(parsed.next_usn, 100);
}

#[test]
fn a_truncated_buffer_keeps_what_parsed_and_counts_the_rest() {
    let mut buffer = response(
        &[
            v2_record(10, USN_REASON_FILE_CREATE, 0, "kept.txt"),
            v2_record(20, USN_REASON_FILE_CREATE, 0, "lost.txt"),
        ],
        30,
    );
    buffer.truncate(buffer.len() - 20);

    let parsed = parse_read_response(&buffer);
    assert_eq!(parsed.records.len(), 1);
    assert_eq!(parsed.records[0].file_name, "kept.txt");
    assert_eq!(
        parsed.rejected, 1,
        "the change we could not read is a hole, and must be counted"
    );
}

#[test]
fn a_malformed_record_between_good_ones_does_not_stop_the_walk() {
    let mut bad = v2_record(20, USN_REASON_FILE_CREATE, 0, "bad.txt");
    bad[4..6].copy_from_slice(&9_u16.to_le_bytes()); // unknown version
    let buffer = response(
        &[
            v2_record(10, USN_REASON_FILE_CREATE, 0, "one.txt"),
            bad,
            v2_record(30, USN_REASON_FILE_CREATE, 0, "two.txt"),
        ],
        40,
    );

    let parsed = parse_read_response(&buffer);
    assert_eq!(parsed.rejected, 1);
    let names: Vec<_> = parsed
        .records
        .iter()
        .map(|record| record.file_name.as_str())
        .collect();
    assert_eq!(
        names,
        ["one.txt", "two.txt"],
        "a usable RecordLength lets the walk step over a bad record"
    );
}

#[test]
fn an_empty_or_tiny_buffer_is_not_an_error() {
    assert_eq!(parse_read_response(&[]).records.len(), 0);
    assert_eq!(parse_read_response(&[0; 4]).records.len(), 0);
    assert_eq!(parse_read_response(&[0; 8]).next_usn, 0);
}

#[test]
fn control_characters_in_a_name_are_stripped() {
    let bytes = v2_record(1, USN_REASON_FILE_CREATE, 0, "ev\u{1b}[31mil.txt");
    let record = parse_record(&bytes).expect("a record");
    assert!(!record.file_name.contains('\u{1b}'));
}

#[test]
fn arbitrary_bytes_never_panic() {
    // Totality, the way every other parser in this workspace is checked.
    for seed in 0_u8..=255 {
        let noise: Vec<u8> = (0..256)
            .map(|index| seed.wrapping_mul(index as u8))
            .collect();
        let _ = parse_read_response(&noise);
        let _ = parse_record(&noise);
        let _ = parse_journal_data(&noise);
    }
}

// -----------------------------------------------------------------------
// reason -> change
// -----------------------------------------------------------------------

#[test]
fn a_write_is_a_modification() {
    let bytes = v2_record(
        1,
        USN_REASON_DATA_EXTEND | USN_REASON_DATA_OVERWRITE | USN_REASON_CLOSE,
        0,
        "a.txt",
    );
    assert_eq!(
        parse_record(&bytes).expect("a record").change(),
        Some(FileChange::Modified)
    );
}

#[test]
fn a_deletion_outranks_whatever_else_happened_first() {
    // One record often carries a whole handle's history. A file written and
    // then deleted is a deletion; reporting it as a modification would
    // describe a file that is no longer there.
    let bytes = v2_record(
        1,
        USN_REASON_DATA_OVERWRITE | USN_REASON_FILE_DELETE | USN_REASON_CLOSE,
        0,
        "a.txt",
    );
    assert_eq!(
        parse_record(&bytes).expect("a record").change(),
        Some(FileChange::Deleted)
    );
}

#[test]
fn a_creation_outranks_the_write_that_followed_it() {
    let bytes = v2_record(
        1,
        USN_REASON_FILE_CREATE | USN_REASON_DATA_EXTEND | USN_REASON_CLOSE,
        0,
        "a.txt",
    );
    assert_eq!(
        parse_record(&bytes).expect("a record").change(),
        Some(FileChange::Created)
    );
}

/// An ACL edit changes who can read a file without changing a byte of it.
/// Filtering it out as noise would lose one of the better host signals.
#[test]
fn a_security_descriptor_change_is_reported() {
    let bytes = v2_record(1, USN_REASON_SECURITY_CHANGE | USN_REASON_CLOSE, 0, "a.txt");
    assert_eq!(
        parse_record(&bytes).expect("a record").change(),
        Some(FileChange::AttributesChanged)
    );
}

#[test]
fn both_halves_of_a_rename_are_renames() {
    for reason in [USN_REASON_RENAME_OLD_NAME, USN_REASON_RENAME_NEW_NAME] {
        let bytes = v2_record(1, reason | USN_REASON_CLOSE, 0, "a.txt");
        assert_eq!(
            parse_record(&bytes).expect("a record").change(),
            Some(FileChange::Renamed)
        );
    }
}

#[test]
fn a_bare_close_is_not_a_change() {
    let bytes = v2_record(1, USN_REASON_CLOSE, 0, "a.txt");
    assert_eq!(
        parse_record(&bytes).expect("a record").change(),
        None,
        "an event per handle close would bury the changes"
    );
}

// -----------------------------------------------------------------------
// catch-up
// -----------------------------------------------------------------------

fn journal(id: u64, first: i64, next: i64) -> JournalData {
    JournalData {
        journal_id: id,
        first_usn: first,
        next_usn: next,
        lowest_valid_usn: first,
        max_usn: 1 << 40,
    }
}

#[test]
fn a_stored_position_inside_the_journal_resumes() {
    let current = journal(7, 1_000, 9_000);
    assert_eq!(
        plan_catch_up(Some((7, 5_000)), &current),
        CatchUp::Resume(5_000)
    );
}

#[test]
fn a_first_run_rescans() {
    assert_eq!(
        plan_catch_up(None, &journal(7, 0, 100)),
        CatchUp::FullRescan(RescanReason::NoStoredPosition)
    );
}

/// The same USN in a different journal names a different change. Resuming
/// from it would skip everything since the journal was recreated while
/// looking like it had caught up.
#[test]
fn a_recreated_journal_forces_a_rescan() {
    assert_eq!(
        plan_catch_up(Some((7, 5_000)), &journal(8, 0, 9_000)),
        CatchUp::FullRescan(RescanReason::JournalReplaced)
    );
}

#[test]
fn a_position_the_journal_has_wrapped_past_forces_a_rescan() {
    // The sensor was down long enough that its position aged out.
    let current = journal(7, 6_000, 9_000);
    assert_eq!(
        plan_catch_up(Some((7, 5_000)), &current),
        CatchUp::FullRescan(RescanReason::RecordsAgedOut)
    );
}

#[test]
fn a_position_ahead_of_the_journal_forces_a_rescan() {
    // A restored snapshot, or a corrupt store. Either way the stored
    // position cannot be trusted.
    assert_eq!(
        plan_catch_up(Some((7, 50_000)), &journal(7, 0, 9_000)),
        CatchUp::FullRescan(RescanReason::PositionFromTheFuture)
    );
}

#[test]
fn the_boundary_positions_resume_rather_than_rescan() {
    // Exactly at the oldest readable record, and exactly at the newest, are
    // both valid: an off-by-one here would either rescan needlessly on
    // every start or skip the oldest record.
    let current = journal(7, 1_000, 9_000);
    assert_eq!(
        plan_catch_up(Some((7, 1_000)), &current),
        CatchUp::Resume(1_000)
    );
    assert_eq!(
        plan_catch_up(Some((7, 9_000)), &current),
        CatchUp::Resume(9_000)
    );
}

#[test]
fn parses_journal_data() {
    let mut bytes = vec![0_u8; JOURNAL_DATA_V0];
    bytes[0..8].copy_from_slice(&42_u64.to_le_bytes());
    bytes[8..16].copy_from_slice(&100_i64.to_le_bytes());
    bytes[16..24].copy_from_slice(&900_i64.to_le_bytes());
    bytes[24..32].copy_from_slice(&150_i64.to_le_bytes());
    bytes[32..40].copy_from_slice(&(1_i64 << 40).to_le_bytes());

    let data = parse_journal_data(&bytes).expect("journal data");
    assert_eq!(data.journal_id, 42);
    assert_eq!(data.first_usn, 100);
    assert_eq!(data.next_usn, 900);
    assert_eq!(data.lowest_valid_usn, 150);
}

#[test]
fn a_short_journal_data_buffer_is_refused() {
    assert!(parse_journal_data(&[0; 40]).is_none());
}

#[test]
fn a_longer_journal_data_buffer_parses_its_v0_prefix() {
    // V1 and V2 append fields; the prefix is unchanged, so a newer buffer
    // must not be refused.
    let mut bytes = vec![0_u8; JOURNAL_DATA_V0 + 24];
    bytes[0..8].copy_from_slice(&5_u64.to_le_bytes());
    assert_eq!(parse_journal_data(&bytes).expect("data").journal_id, 5);
}

#[test]
fn every_rejection_says_what_was_wrong() {
    let cases = [
        (
            RecordError::TooShort { len: 3 },
            "record is 3 bytes, shorter than any USN record header",
        ),
        (
            RecordError::UnsupportedVersion { major: 9, minor: 1 },
            "unsupported USN record version 9.1",
        ),
        (
            RecordError::LengthMismatch {
                declared: 80,
                available: 64,
            },
            "record declares 80 bytes, 64 available",
        ),
        (
            RecordError::NameOutOfBounds {
                offset: 60,
                len: 20,
                record: 64,
            },
            "filename at offset 60 length 20 does not fit in a 64 byte record",
        ),
        (
            RecordError::OddNameLength { len: 7 },
            "filename length 7 is not a whole number of UTF-16 code units",
        ),
    ];
    for (error, expected) in cases {
        assert_eq!(error.to_text(), expected);
    }
}

#[test]
fn a_few_bytes_are_too_short_to_be_a_record() {
    assert_eq!(
        parse_record(&[1, 2, 3]),
        Err(RecordError::TooShort { len: 3 })
    );
}
