use sonixflash::chip::ChipInfo;

fn known(chip_id: u32) -> (String, u32, u8) {
    let info = ChipInfo::from_chip_id(chip_id).unwrap();
    (info.series().to_string(), info.flash_size(), info.page_size())
}

#[test]
fn known_identifiers_are_found() {
    assert_eq!(known(0x1110), ("SNPD5111".to_string(), 0x4000, 0x20));
    assert_eq!(known(0x111F), ("SNPD5111".to_string(), 0x4000, 0x20));
    assert_eq!(known(0x6215), ("SN8F5702".to_string(), 0x1000, 0x20));
    assert_eq!(known(0x6216), ("SN8F5702A".to_string(), 0x1000, 0x20));
    assert_eq!(known(0x6240), ("SN8F5762".to_string(), 0x4800, 0x40));
    assert_eq!(known(0x6335), ("SN8F5703".to_string(), 0x2000, 0x20));
    assert_eq!(known(0x6336), ("SN8F5703A".to_string(), 0x2000, 0x20));
    assert_eq!(known(0x8401), ("SN8F5804".to_string(), 0x2000, 0x20));
    assert_eq!(known(0x8835), ("SN8F5869".to_string(), 0x10000, 0x40));
    assert_eq!(known(0x9935), ("SN8F5930".to_string(), 0x20000, 0x40));
    assert_eq!(known(0x99CF), ("SN8F5900C".to_string(), 0x10000, 0x40));
}

#[test]
fn identifiers_outside_every_range_are_unknown() {
    for chip_id in [0, 0x110F, 0x1120, 0x6230, 0x623F, 0x8400, 0x9900, 0x9970, 0x999F, 0x99D0, u32::MAX] {
        assert!(ChipInfo::from_chip_id(chip_id).is_none());
    }
}

#[test]
fn every_identifier_of_a_range_gives_the_same_series() {
    let first = ChipInfo::from_chip_id(0x6310).unwrap();
    for chip_id in 0x6310..0x6330 {
        assert_eq!(ChipInfo::from_chip_id(chip_id), Some(first));
    }
    assert_eq!(first.series(), "SN8F5713");
    assert_ne!(ChipInfo::from_chip_id(0x6330), Some(first));
}

#[test]
fn known_identifiers_are_counted() {
    let mut count = 0;
    for chip_id in 0..0x10000u32 {
        if ChipInfo::from_chip_id(chip_id).is_some() {
            count += 1;
        }
    }
    assert_eq!(count, 574);
}
