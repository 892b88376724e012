use ddup::ntfs::{
    classify_fetch_failure, decode_header, decode_record, name_units, record_from_parts,
    FetchFailure, Phase, Step, UsnRecordsIterator, FILE_ATTRIBUTE_DIRECTORY, HEADER_SIZE,
    TOKEN_SIZE,
};
use ddup::wdk_ntfs::{CREATE_USN_JOURNAL_DATA, USN_JOURNAL_DATA, USN_RECORD};
use ddup::{UsnRange, UsnRecord, UsnRecordType};

fn image(id: u64, parent: u64, attributes: u32, name: &str, padding: usize) -> Vec<u8> {
    let units: Vec<u16> = name.encode_utf16().collect();
    let length = 60 + 2 * units.len() + padding;
    let mut bytes = Vec::new();
    bytes.extend_from_slice(&(length as u32).to_le_bytes());
    bytes.extend_from_slice(&2u16.to_le_bytes());
    bytes.extend_from_slice(&0u16.to_le_bytes());
    bytes.extend_from_slice(&id.to_le_bytes());
    bytes.extend_from_slice(&parent.to_le_bytes());
    bytes.extend_from_slice(&0x1122334455667788u64.to_le_bytes());
    bytes.extend_from_slice(&0x0102030405060708u64.to_le_bytes());
    bytes.extend_from_slice(&0xdeadbeefu32.to_le_bytes());
    bytes.extend_from_slice(&7u32.to_le_bytes());
    bytes.extend_from_slice(&9u32.to_le_bytes());
    bytes.extend_from_slice(&attributes.to_le_bytes());
    bytes.extend_from_slice(&((2 * units.len()) as u16).to_le_bytes());
    bytes.extend_from_slice(&60u16.to_le_bytes());
    for unit in units {
        bytes.extend_from_slice(&unit.to_le_bytes());
    }
    bytes.extend(std::iter::repeat(0xaau8).take(padding));
    assert_eq!(bytes.len(), length);
    bytes
}

fn page(token: u64, images: &[Vec<u8>]) -> Vec<u8> {
    let mut bytes = token.to_le_bytes().to_vec();
    for image in images {
        bytes.extend_from_slice(image);
    }
    bytes
}

fn sample_images() -> Vec<Vec<u8>> {
    vec![
        image(5, 5, FILE_ATTRIBUTE_DIRECTORY, "root", 0),
        image(0x0001_0000_0000_0021, 5, 0x10 | 0x02, "a", 6),
        image(0xffff_ffff_ffff_fffe, 0x0001_0000_0000_0021, 0x20, "x.txt", 2),
        image(77, 0x8000_0000_0000_0000, 0, "", 4),
        image(78, 5, 0x20, "naïve – 文件.bin", 0),
    ]
}

fn expected() -> Vec<(u64, u64, UsnRecordType, &'static str)> {
    vec![
        (5, 5, UsnRecordType::Directory, "root"),
        (0x0001_0000_0000_0021, 5, UsnRecordType::Directory, "a"),
        (0xffff_ffff_ffff_fffe, 0x0001_0000_0000_0021, UsnRecordType::File, "x.txt"),
        (77, 0x8000_0000_0000_0000, UsnRecordType::File, ""),
        (78, 5, UsnRecordType::File, "naïve – 文件.bin"),
    ]
}

fn check(records: &[UsnRecord]) {
    let want = expected();
    assert_eq!(records.len(), want.len());
    for (record, (id, parent, kind, name)) in records.iter().zip(want) {
        assert_eq!(record.id, id);
        assert_eq!(record.parent_id, parent);
        assert_eq!(record.record_type, kind);
        assert_eq!(record.filename, name);
    }
}

fn drain(pages: Vec<Vec<u8>>) -> (Vec<UsnRecord>, Vec<u64>) {
    let mut iterator = UsnRecordsIterator::new(UsnRange { low: 3, high: 900 });
    let mut pages = pages.into_iter();
    let mut records = Vec::new();
    let mut tokens = Vec::new();
    loop {
        match iterator.next() {
            Step::Record(record) => records.push(record),
            Step::Fetch(request) => {
                assert_eq!(request.LowUsn, 3);
                assert_eq!(request.HighUsn, 900);
                tokens.push(request.StartFileReferenceNumber);
                match pages.next() {
                    Some(page) => iterator.supply(&page),
                    None => iterator.end(),
                }
            }
            Step::Finished => break,
            Step::Malformed => panic!("malformed page"),
        }
    }
    (records, tokens)
}

#[test]
fn header_fields_are_read_at_their_offsets() {
    let bytes = image(0x0102030405060708, 0x1112131415161718, 0x00c0ffee, "ab", 4);
    let header = decode_header(&bytes, 0).unwrap();
    assert_eq!(
        header,
        USN_RECORD {
            RecordLength: 68,
            MajorVersion: 2,
            MinorVersion: 0,
            FileReferenceNumber: 0x0102030405060708,
            ParentFileReferenceNumber: 0x1112131415161718,
            Usn: 0x1122334455667788,
            TimeStamp: 0x0102030405060708,
            Reason: 0xdeadbeef,
            SourceInfo: 7,
            SecurityId: 9,
            FileAttributes: 0x00c0ffee,
            FileNameLength: 4,
            FileNameOffset: 60,
        }
    );
    assert_eq!(name_units(&bytes, 0, &header), vec![0x61, 0x62]);
}

#[test]
fn sequence_numbers_and_time_stamps_are_signed() {
    let mut bytes = image(1, 2, 0, "n", 0);
    bytes[24..32].copy_from_slice(&(-2i64).to_le_bytes());
    bytes[32..40].copy_from_slice(&i64::MIN.to_le_bytes());
    let header = decode_header(&bytes, 0).unwrap();
    assert_eq!(header.Usn, -2);
    assert_eq!(header.TimeStamp, i64::MIN);
    bytes[24..32].copy_from_slice(&i64::MAX.to_le_bytes());
    assert_eq!(decode_header(&bytes, 0).unwrap().Usn, i64::MAX);
}

#[test]
fn record_is_decoded_with_offset_behind_it() {
    let mut bytes = vec![0u8; 11];
    bytes.extend(image(9, 4, 0x20, "file", 4));
    bytes.extend(image(10, 4, 0x10, "dir", 0));
    let (first, next) = decode_record(&bytes, 11).unwrap();
    assert_eq!((first.id, first.parent_id), (9, 4));
    assert_eq!(first.record_type, UsnRecordType::File);
    assert_eq!(first.filename, "file");
    assert_eq!(next, 11 + 60 + 8 + 4);
    let (second, end) = decode_record(&bytes, next).unwrap();
    assert_eq!(second.id, 10);
    assert_eq!(second.record_type, UsnRecordType::Directory);
    assert_eq!(second.filename, "dir");
    assert_eq!(end, bytes.len());
    assert!(decode_record(&bytes, end).is_none());
}

#[test]
fn name_may_stand_apart_from_the_header() {
    let mut bytes = image(1, 2, 0, "", 10);
    bytes[56..58].copy_from_slice(&4u16.to_le_bytes());
    bytes[58..60].copy_from_slice(&64u16.to_le_bytes());
    bytes[64..68].copy_from_slice(&[b'o', 0, b'k', 0]);
    let (record, next) = decode_record(&bytes, 0).unwrap();
    assert_eq!(record.filename, "ok");
    assert_eq!(next, 70);
}

#[test]
fn odd_name_length_drops_the_half_unit() {
    let mut bytes = image(1, 2, 0, "abc", 2);
    bytes[56..58].copy_from_slice(&5u16.to_le_bytes());
    let (record, _) = decode_record(&bytes, 0).unwrap();
    assert_eq!(record.filename, "ab");
}

#[test]
fn unpaired_surrogate_becomes_replacement_character() {
    let mut bytes = image(1, 2, 0, "a?b", 0);
    bytes[62..64].copy_from_slice(&0xd800u16.to_le_bytes());
    let (record, _) = decode_record(&bytes, 0).unwrap();
    assert_eq!(record.filename, "a\u{fffd}b");
}

#[test]
fn surrogate_pair_is_one_character() {
    let bytes = image(1, 2, 0, "\u{1f600}.png", 0);
    let header = decode_header(&bytes, 0).unwrap();
    assert_eq!(header.FileNameLength, 12);
    let (record, _) = decode_record(&bytes, 0).unwrap();
    assert_eq!(record.filename, "\u{1f600}.png");
    assert_eq!(record.filename.chars().count(), 5);
}

#[test]
fn truncated_or_inconsistent_records_are_refused() {
    let whole = image(1, 2, 0, "name", 0);
    assert!(decode_header(&whole, 0).is_some());
    assert!(decode_header(&whole[..59], 0).is_none());
    assert!(decode_header(&whole[..whole.len() - 1], 0).is_none());
    assert!(decode_header(&whole, 1).is_none());
    assert!(decode_header(&whole, whole.len()).is_none());
    assert!(decode_header(&whole, usize::MAX).is_none());
    assert!(decode_header(&[], 0).is_none());

    let mut short = whole.clone();
    short[0..4].copy_from_slice(&59u32.to_le_bytes());
    assert!(decode_header(&short, 0).is_none());

    let mut zero = whole.clone();
    zero[0..4].copy_from_slice(&0u32.to_le_bytes());
    assert!(decode_record(&zero, 0).is_none());

    let mut long_name = whole.clone();
    long_name[56..58].copy_from_slice(&10u16.to_le_bytes());
    assert!(decode_header(&long_name, 0).is_none());

    let mut far_name = whole.clone();
    far_name[58..60].copy_from_slice(&0xffffu16.to_le_bytes());
    assert!(decode_header(&far_name, 0).is_none());

    let mut exact = whole.clone();
    exact[0..4].copy_from_slice(&60u32.to_le_bytes());
    exact[56..58].copy_from_slice(&0u16.to_le_bytes());
    assert_eq!(decode_header(&exact, 0).unwrap().RecordLength, 60);
}

#[test]
fn directory_bit_decides_the_kind() {
    let header = USN_RECORD {
        RecordLength: 60,
        MajorVersion: 2,
        MinorVersion: 0,
        FileReferenceNumber: 1,
        ParentFileReferenceNumber: 2,
        Usn: 0,
        TimeStamp: 0,
        Reason: 0,
        SourceInfo: 0,
        SecurityId: 0,
        FileAttributes: 0xffff_ffef,
        FileNameLength: 0,
        FileNameOffset: 60,
    };
    let file = record_from_parts(&header, String::from("f"));
    assert_eq!(file.record_type, UsnRecordType::File);
    assert_eq!((file.id, file.parent_id), (1, 2));
    assert_eq!(file.filename, "f");
    let directory = record_from_parts(
        &USN_RECORD { FileAttributes: 0x10, ..header },
        String::from("d"),
    );
    assert_eq!(directory.record_type, UsnRecordType::Directory);
    assert_eq!(HEADER_SIZE, 60);
    assert_eq!(TOKEN_SIZE, 8);
}

#[test]
fn decoding_gives_back_every_record_of_one_page() {
    let (records, tokens) = drain(vec![page(0xabcdef, &sample_images())]);
    check(&records);
    assert_eq!(tokens, vec![0, 0xabcdef]);
}

#[test]
fn decoding_does_not_depend_on_the_windows() {
    let images = sample_images();
    for cut in 0..=images.len() {
        let pages = vec![page(100, &images[..cut]), page(200, &images[cut..])];
        let (records, tokens) = drain(pages);
        check(&records);
        assert_eq!(tokens, vec![0, 100, 200]);
    }
    let pages: Vec<Vec<u8>> = images
        .iter()
        .enumerate()
        .map(|(i, one)| page(10 + i as u64, std::slice::from_ref(one)))
        .collect();
    let (records, tokens) = drain(pages);
    check(&records);
    assert_eq!(tokens, vec![0, 10, 11, 12, 13, 14]);
}

#[test]
fn page_of_a_token_alone_asks_for_the_next_page() {
    let images = sample_images();
    let pages = vec![page(1, &[]), page(2, &images), page(3, &[])];
    let (records, tokens) = drain(pages);
    check(&records);
    assert_eq!(tokens, vec![0, 1, 2, 3]);
}

#[test]
fn enumeration_without_pages_is_empty() {
    let (records, tokens) = drain(vec![]);
    assert!(records.is_empty());
    assert_eq!(tokens, vec![0]);
}

#[test]
fn exhausted_enumeration_stays_exhausted() {
    let mut iterator = UsnRecordsIterator::new(UsnRange { low: 0, high: 1 });
    assert!(matches!(iterator.next(), Step::Fetch(_)));
    iterator.end();
    assert!(matches!(iterator.next(), Step::Finished));
    iterator.supply(&page(1, &sample_images()));
    assert!(matches!(iterator.next(), Step::Finished));
    iterator.end();
    assert!(matches!(iterator.next(), Step::Finished));
}

#[test]
fn short_page_stops_the_enumeration() {
    let mut iterator = UsnRecordsIterator::new(UsnRange { low: 0, high: 1 });
    iterator.supply(&[1, 2, 3, 4, 5, 6, 7]);
    assert!(matches!(iterator.next(), Step::Malformed));
    iterator.supply(&page(1, &sample_images()));
    assert!(matches!(iterator.next(), Step::Malformed));
    iterator.end();
    assert!(matches!(iterator.next(), Step::Malformed));
}

#[test]
fn broken_record_stops_the_enumeration() {
    let mut images = sample_images();
    images[1].truncate(40);
    images.truncate(2);
    let mut iterator = UsnRecordsIterator::new(UsnRange { low: 0, high: 1 });
    iterator.supply(&page(1, &images));
    match iterator.next() {
        Step::Record(record) => assert_eq!(record.filename, "root"),
        _ => panic!("first record is whole"),
    }
    assert!(matches!(iterator.next(), Step::Malformed));
    assert!(matches!(iterator.next(), Step::Malformed));
}

#[test]
fn end_of_file_code_ends_the_enumeration() {
    assert_eq!(classify_fetch_failure(38), FetchFailure::EndOfEnumeration);
    assert_eq!(classify_fetch_failure(5), FetchFailure::DeviceError(5));
    assert_eq!(classify_fetch_failure(0), FetchFailure::DeviceError(0));
    assert_eq!(classify_fetch_failure(-38), FetchFailure::DeviceError(-38));
    assert_ne!(Phase::Active, Phase::Finished);
}

#[test]
fn range_spans_the_valid_part_of_the_journal() {
    let journal = USN_JOURNAL_DATA {
        UsnJournalID: 0x01d5_0000_0000_0001,
        FirstUsn: 10,
        NextUsn: 5000,
        LowestValidUsn: 40,
        MaxUsn: i64::MAX,
        MaximumSize: 1 << 25,
        AllocationDelta: 1 << 20,
    };
    let range = UsnRange::of_journal(&journal);
    assert_eq!((range.low, range.high), (40, 5000));
}

#[test]
fn journal_is_created_with_standard_sizes() {
    let request = CREATE_USN_JOURNAL_DATA::standard();
    assert_eq!(request.MaximumSize, 1024 * 1024 * 100);
    assert_eq!(request.AllocationDelta, 1024 * 1024);
}
