use sonixflash::error::Error;
use sonixflash::firmware::{Firmware, ImageFormat, Section};
use sonixflash::hex::{line_of_record, HexRecord};

fn section(offset: usize, data: &[u8]) -> Section {
    Section::new(offset, data.to_vec())
}

fn covered(sections: &[Section]) -> Vec<(usize, u8)> {
    let mut bytes = Vec::new();
    for s in sections {
        for (i, b) in s.data().iter().enumerate() {
            bytes.push((s.offset() + i, *b));
        }
    }
    bytes
}

#[test]
fn test_align_and_merge_sections() {
    let src = vec![
        section(1, &[2]),
        section(2, &[3, 4]),
        section(3, &[5]),
        section(9, &[7]),
        section(5, &[6]),
        section(256, &[8]),
    ];
    let res = Firmware::align_and_merge_sections(src, 2);
    assert_eq!(
        res,
        vec![
            section(0, &[0xFF, 2, 3, 5, 0xFF, 6]),
            section(8, &[0xFF, 7]),
            section(256, &[8, 0xFF]),
        ]
    );
}

#[test]
fn merging_twice_changes_nothing() {
    let src = vec![
        section(1, &[2]),
        section(2, &[3, 4]),
        section(3, &[5]),
        section(9, &[7]),
        section(5, &[6]),
        section(256, &[8]),
    ];
    let once = Firmware::align_and_merge_sections(src, 2);
    let copy: Vec<Section> = once.iter().map(|s| section(s.offset(), s.data())).collect();
    let twice = Firmware::align_and_merge_sections(copy, 2);
    assert_eq!(once, twice);
}

#[test]
fn merged_sections_are_whole_pages_in_order() {
    let src = vec![
        section(100, &[1; 40]),
        section(7, &[2; 3]),
        section(130, &[3; 70]),
        section(1000, &[4]),
        section(33, &[5; 31]),
    ];
    let res = Firmware::align_and_merge_sections(src, 32);
    assert!(!res.is_empty());
    for s in &res {
        assert_eq!(s.offset() % 32, 0);
        assert_eq!(s.len() % 32, 0);
    }
    for pair in res.windows(2) {
        assert!(pair[0].end() < pair[1].offset());
    }
    assert_eq!(
        res.iter().map(|s| (s.offset(), s.len())).collect::<Vec<_>>(),
        vec![(0, 64), (96, 128), (992, 32)]
    );
}

#[test]
fn adjoining_pages_become_one_section() {
    let res = Firmware::align_and_merge_sections(vec![section(0, &[1; 4]), section(4, &[2; 4])], 4);
    assert_eq!(res, vec![section(0, &[1, 1, 1, 1, 2, 2, 2, 2])]);
}

#[test]
fn pages_with_a_gap_stay_apart() {
    let res = Firmware::align_and_merge_sections(vec![section(0, &[1; 4]), section(9, &[2; 2])], 4);
    assert_eq!(
        res,
        vec![section(0, &[1, 1, 1, 1]), section(8, &[0xFF, 2, 2, 0xFF])]
    );
}

#[test]
fn later_section_overwrites_earlier_at_same_offset() {
    let res = Firmware::align_and_merge_sections(
        vec![section(4, &[1, 1, 1]), section(4, &[2, 2]), section(5, &[3])],
        4,
    );
    assert_eq!(res, vec![section(4, &[2, 3, 1, 0xFF])]);
}

#[test]
fn shorter_section_inside_a_longer_does_not_shrink_it() {
    let res = Firmware::align_and_merge_sections(vec![section(0, &[1; 8]), section(2, &[9])], 4);
    assert_eq!(res, vec![section(0, &[1, 1, 9, 1, 1, 1, 1, 1])]);
}

#[test]
fn no_sections_merge_to_none() {
    let res = Firmware::align_and_merge_sections(Vec::new(), 32);
    assert!(res.is_empty());
}

#[test]
fn empty_section_on_a_page_boundary_stays_empty() {
    let res = Firmware::align_and_merge_sections(vec![section(64, &[])], 32);
    assert_eq!(res, vec![section(64, &[])]);
}

#[test]
fn empty_section_inside_a_page_opens_that_page() {
    let res = Firmware::align_and_merge_sections(vec![section(3, &[])], 4);
    assert_eq!(res, vec![section(0, &[0xFF; 4])]);
}

#[test]
fn section_accessors() {
    let s = section(10, &[1, 2, 3]);
    assert_eq!(s.offset(), 10);
    assert_eq!(s.data(), &[1, 2, 3]);
    assert_eq!(s.len(), 3);
    assert!(!s.is_empty());
    assert_eq!(s.end(), 13);
    assert!(section(5, &[]).is_empty());
    assert_eq!(section(5, &[]).end(), 5);
}

#[test]
fn raw_bytes_become_one_aligned_section() {
    let fw = Firmware::from_raw_bytes(vec![1, 2, 3, 4, 5], 4, 6).unwrap();
    assert_eq!(fw.page_size(), 4);
    assert_eq!(fw.sections(), &[section(4, &[0xFF, 0xFF, 1, 2, 3, 4, 5, 0xFF])]);
    assert_eq!(fw.len(), 8);
    assert!(fw.is_empty());
}

#[test]
fn no_raw_bytes_on_a_boundary_give_no_byte() {
    let fw = Firmware::from_raw_bytes(Vec::new(), 32, 0).unwrap();
    assert_eq!(fw.sections(), &[section(0, &[])]);
    assert_eq!(fw.len(), 0);
    assert!(!fw.is_empty());
}

#[test]
fn intel_hex_data_records_become_sections() {
    let text = ":0400100001020304E2\n:020020000506D3\n:00000001FF\n";
    let fw = Firmware::from_intel_hex(text.as_bytes().to_vec(), 4, 0).unwrap();
    assert_eq!(
        fw.sections(),
        &[section(0x10, &[1, 2, 3, 4]), section(0x20, &[5, 6, 0xFF, 0xFF])]
    );
    assert_eq!(fw.len(), 8);
    assert_eq!(fw.page_size(), 4);
}

#[test]
fn intel_hex_base_offset_is_added() {
    let text = ":0400100001020304E2\n:00000001FF\n";
    let fw = Firmware::from_intel_hex(text.as_bytes().to_vec(), 4, 0x100).unwrap();
    assert_eq!(fw.sections(), &[section(0x110, &[1, 2, 3, 4])]);
}

#[test]
fn intel_hex_segment_address_counts_sixteenfold() {
    let mut records = Vec::new();
    records.push(ihex::Record::ExtendedSegmentAddress(0x0012));
    records.push(ihex::Record::Data { offset: 0x0004, value: vec![9, 8, 7, 6] });
    records.push(ihex::Record::EndOfFile);
    let text = ihex::create_object_file_representation(&records).unwrap();
    let fw = Firmware::from_intel_hex(text.into_bytes(), 4, 0).unwrap();
    assert_eq!(fw.sections(), &[section(0x124, &[9, 8, 7, 6])]);
}

#[test]
fn intel_hex_linear_address_gives_the_upper_bits() {
    let mut records = Vec::new();
    records.push(ihex::Record::ExtendedLinearAddress(0x0003));
    records.push(ihex::Record::Data { offset: 0x0008, value: vec![1, 2] });
    records.push(ihex::Record::ExtendedSegmentAddress(0x0001));
    records.push(ihex::Record::Data { offset: 0x0000, value: vec![3, 4] });
    records.push(ihex::Record::EndOfFile);
    let text = ihex::create_object_file_representation(&records).unwrap();
    let fw = Firmware::from_intel_hex(text.into_bytes(), 2, 0).unwrap();
    assert_eq!(
        fw.sections(),
        &[section(0x10, &[3, 4]), section(0x30008, &[1, 2])]
    );
}

#[test]
fn intel_hex_start_records_are_passed_over() {
    let mut records = Vec::new();
    records.push(ihex::Record::StartSegmentAddress { cs: 0x1234, ip: 0x5678 });
    records.push(ihex::Record::StartLinearAddress(0xDEADBEEF));
    records.push(ihex::Record::Data { offset: 0x0000, value: vec![1, 2] });
    records.push(ihex::Record::EndOfFile);
    let text = ihex::create_object_file_representation(&records).unwrap();
    let fw = Firmware::from_intel_hex(text.into_bytes(), 2, 0).unwrap();
    assert_eq!(fw.sections(), &[section(0, &[1, 2])]);
}

#[test]
fn intel_hex_malformed_record_is_reported_with_its_number() {
    let text = ":0400100001020304E2\n\n:02002000050600\n:00000001FF\n";
    let err = Firmware::from_intel_hex(text.as_bytes().to_vec(), 4, 0).unwrap_err();
    match err {
        Error::IHexParseError(inner, line) => {
            assert_eq!(line, 3);
            assert!(matches!(inner, ihex::ReaderError::ChecksumMismatch(_, _)));
        }
        other => panic!("unexpected error {:?}", other),
    }
}

#[test]
fn intel_hex_records_are_numbered_without_the_text() {
    let records = vec![
        Ok(HexRecord::Data { offset: 0x10, value: vec![1, 2, 3, 4] }),
        Err(ihex::ReaderError::ChecksumMismatch(0x00, 0xD3)),
        Ok(HexRecord::EndOfFile),
    ];
    let err = Firmware::from_records(records, 4, 0).unwrap_err();
    assert!(matches!(err, Error::IHexParseError(ihex::ReaderError::ChecksumMismatch(_, _), 2)));
}

fn failing_line(text: &str) -> usize {
    match Firmware::from_intel_hex(text.as_bytes().to_vec(), 4, 0).unwrap_err() {
        Error::IHexParseError(_, line) => line,
        other => panic!("unexpected error {:?}", other),
    }
}

#[test]
fn intel_hex_error_names_the_line_of_the_text() {
    assert_eq!(failing_line("\n\n\nhello\n"), 4);
    assert_eq!(failing_line("\r\n:0400100001020304E2\r\n\r\n\r\nhello\r\n"), 5);
    assert_eq!(failing_line(":0400100001020304E2\n:02002000050600"), 2);
    assert_eq!(failing_line(":0400100001020304E2\n:02002000050600\n:02002000050600\n"), 2);
    assert_eq!(failing_line("\r"), 1);
    assert_eq!(failing_line("\n\r\r\n"), 2);
}

#[test]
fn line_of_record_passes_over_blank_lines() {
    let text = b"a\n\nb\r\n\r\n\nc";
    assert_eq!(line_of_record(text, 1), 1);
    assert_eq!(line_of_record(text, 2), 3);
    assert_eq!(line_of_record(text, 3), 6);
}

#[test]
fn line_of_record_is_zero_where_no_such_record_is() {
    assert_eq!(line_of_record(b"", 1), 0);
    assert_eq!(line_of_record(b"\n\n\r\n", 1), 0);
    assert_eq!(line_of_record(b"a\nb\n", 0), 0);
    assert_eq!(line_of_record(b"a\nb\n", 3), 0);
    assert_eq!(line_of_record(b"a\nb\n", usize::MAX), 0);
}

#[test]
fn line_of_record_ends_a_line_at_a_line_feed_only() {
    assert_eq!(line_of_record(b"a\rb\nc\n", 2), 2);
    assert_eq!(line_of_record(b"\r\r\nx", 1), 1);
    assert_eq!(line_of_record(b"\r\r\nx", 2), 2);
    assert_eq!(line_of_record(b"\rx\nx", 2), 2);
    assert_eq!(line_of_record(b" \n\t\n", 2), 2);
}

#[test]
fn intel_hex_first_record_malformed() {
    let err = Firmware::from_intel_hex(b"hello\n".to_vec(), 4, 0).unwrap_err();
    match err {
        Error::IHexParseError(inner, line) => {
            assert_eq!(line, 1);
            assert_eq!(inner, ihex::ReaderError::MissingStartCode);
        }
        other => panic!("unexpected error {:?}", other),
    }
}

#[test]
fn intel_hex_that_is_not_utf8_is_refused() {
    let err = Firmware::from_intel_hex(vec![b':', 0xFF, 0xFE], 4, 0).unwrap_err();
    assert!(matches!(err, Error::IHexDecodeError(_)));
}

#[test]
fn intel_hex_without_records_gives_no_section() {
    let fw = Firmware::from_intel_hex(Vec::new(), 32, 0).unwrap();
    assert!(fw.sections().is_empty());
    assert_eq!(fw.len(), 0);
}

#[test]
fn intel_hex_round_trip_keeps_every_given_byte() {
    let given = vec![
        (0x0003usize, vec![1u8, 2, 3, 4, 5]),
        (0x0040, vec![6; 40]),
        (0x0100, vec![7, 8]),
    ];
    let mut records = Vec::new();
    for (offset, data) in &given {
        records.push(ihex::Record::Data { offset: *offset as u16, value: data.clone() });
    }
    records.push(ihex::Record::EndOfFile);
    let text = ihex::create_object_file_representation(&records).unwrap();
    let fw = Firmware::from_intel_hex(text.into_bytes(), 32, 0).unwrap();
    let bytes = covered(fw.sections());
    let mut expected = 0;
    for (offset, data) in &given {
        for (i, b) in data.iter().enumerate() {
            assert!(bytes.contains(&(offset + i, *b)));
            expected += 1;
        }
    }
    let not_filler = bytes
        .iter()
        .filter(|(at, _)| given.iter().any(|(o, d)| *o <= *at && *at < *o + d.len()))
        .count();
    assert_eq!(not_filler, expected);
    for (at, b) in &bytes {
        if !given.iter().any(|(o, d)| *o <= *at && *at < *o + d.len()) {
            assert_eq!(*b, 0xFF);
        }
    }
    assert_eq!(
        fw.sections().iter().map(|s| (s.offset(), s.len())).collect::<Vec<_>>(),
        vec![(0, 32), (0x40, 64), (0x100, 32)]
    );
}

#[test]
fn records_decode_without_text() {
    let records = vec![
        Ok(HexRecord::ExtendedLinearAddress(1)),
        Ok(HexRecord::Data { offset: 2, value: vec![0xAA, 0xBB] }),
        Ok(HexRecord::StartLinearAddress(5)),
        Ok(HexRecord::ExtendedSegmentAddress(2)),
        Ok(HexRecord::Data { offset: 1, value: vec![0xCC] }),
        Ok(HexRecord::EndOfFile),
    ];
    let fw = Firmware::from_records(records, 2, 4).unwrap();
    assert_eq!(
        fw.sections(),
        &[section(0x24, &[0xFF, 0xCC]), section(0x10006, &[0xAA, 0xBB])]
    );
}

#[test]
fn records_stop_at_the_first_failure() {
    let records = vec![
        Ok(HexRecord::Data { offset: 0, value: vec![1] }),
        Ok(HexRecord::EndOfFile),
        Err(ihex::ReaderError::RecordTooShort),
        Err(ihex::ReaderError::RecordTooLong),
    ];
    let err = Firmware::from_records(records, 2, 0).unwrap_err();
    match err {
        Error::IHexParseError(inner, line) => {
            assert_eq!(line, 3);
            assert_eq!(inner, ihex::ReaderError::RecordTooShort);
        }
        other => panic!("unexpected error {:?}", other),
    }
}

#[test]
fn records_that_reach_beyond_the_address_space_do_not_fit() {
    let records = vec![Ok(HexRecord::Data { offset: 0xFFFF, value: vec![1, 2, 3] })];
    assert!(Firmware::fits(&records, 32, 0));
    assert!(!Firmware::fits(&records, 32, usize::MAX - 0xFFFF));
    let behind_failure = vec![
        Err(ihex::ReaderError::RecordTooShort),
        Ok(HexRecord::Data { offset: 0xFFFF, value: vec![1, 2, 3] }),
    ];
    assert!(Firmware::fits(&behind_failure, 32, usize::MAX));
}

#[test]
fn checked_loading_refuses_what_cannot_be_laid_out() {
    let text = ":0400100001020304E2\n:00000001FF\n";
    assert!(Firmware::try_from_intel_hex(text.as_bytes().to_vec(), 0, 0).is_none());
    assert!(Firmware::try_from_intel_hex(text.as_bytes().to_vec(), 4, usize::MAX - 0x10).is_none());
    let fw = Firmware::try_from_intel_hex(text.as_bytes().to_vec(), 4, 0).unwrap().unwrap();
    assert_eq!(fw.sections(), &[section(0x10, &[1, 2, 3, 4])]);
    let refused = Firmware::try_from_intel_hex(vec![0xC0], 4, 0).unwrap();
    assert!(matches!(refused, Err(Error::IHexDecodeError(_))));
}

#[test]
fn file_format_follows_the_extension() {
    for extension in ["hex", "ihex", "ihx"] {
        assert_eq!(Firmware::format_for_extension(extension), ImageFormat::IntelHex);
    }
    for extension in ["", "bin", "HEX", "hexx", "he", "ihe", "x"] {
        assert_eq!(Firmware::format_for_extension(extension), ImageFormat::RawBinary);
    }
}
