//! The table of known chips, keyed by the identifier that a chip reports.

use vstd::prelude::*;

verus! {

/// What is known of one chip series: the mathematical value of a [`ChipInfo`].
pub struct ChipModel {
    pub series: Seq<char>,
    pub flash_size: u32,
    pub page_size: u8,
}

/// One row of the table: the identifiers `first..end` belong to `info`.
pub struct ChipRange {
    pub first: u32,
    pub end: u32,
    pub info: ChipModel,
}

impl ChipRange {
    /// `chip_id` lies in this row's identifiers.
    pub open spec fn holds(self, chip_id: u32) -> bool {
        self.first <= chip_id < self.end
    }
}

/// The row for the identifiers `first..end`.
pub open spec fn row(
    first: u32,
    end: u32,
    series: &str,
    flash_size: u32,
    page_size: u8,
) -> ChipRange {
    ChipRange { first, end, info: ChipModel { series: series@, flash_size, page_size } }
}

/// `chip_id` lies in the row with index `i`.
pub open spec fn in_row(i: int, chip_id: u32) -> bool {
    0 <= i < chip_table().len() && chip_table()[i].holds(chip_id)
}

/// The known chips, ascending by identifier. The values are those of the
/// vendor's own programming plug-in.
pub open spec fn chip_table() -> Seq<ChipRange> {
    seq![
        row(0x1110, 0x1120, "SNPD5111", 0x4000, 0x20),
        row(0x2710, 0x2720, "SN8F5283", 0x4000, 0x20),
        row(0x6100, 0x6110, "SN8F5701", 0x1000, 0x20),
        row(0x6110, 0x6120, "SN8F5721", 0x1000, 0x20),
        row(0x6200, 0x6216, "SN8F5702", 0x1000, 0x20),
        row(0x6216, 0x6220, "SN8F5702A", 0x1000, 0x20),
        row(0x6220, 0x6230, "SN8F5732", 0x4000, 0x20),
        row(0x6240, 0x6250, "SN8F5762", 0x4800, 0x40),
        row(0x6260, 0x6270, "SN8F5782", 0x10000, 0x40),
        row(0x6270, 0x6280, "SN8F5602", 0x4800, 0x40),
        row(0x6300, 0x6310, "SN8F5703", 0x2000, 0x20),
        row(0x6310, 0x6330, "SN8F5713", 0x2000, 0x20),
        row(0x6330, 0x6336, "SN8F5703", 0x2000, 0x20),
        row(0x6336, 0x6340, "SN8F5703A", 0x2000, 0x20),
        row(0x6400, 0x6410, "SN8F5754", 0x4000, 0x20),
        row(0x6700, 0x6720, "SN8F5708", 0x4000, 0x20),
        row(0x8401, 0x8410, "SN8F5804", 0x2000, 0x20),
        row(0x8410, 0x8420, "SN8F5814", 0x4000, 0x20),
        row(0x8420, 0x8430, "SN8F5804A", 0x2000, 0x20),
        row(0x8500, 0x8510, "SN8F5835", 0x8000, 0x40),
        row(0x8700, 0x8710, "SN8F5858", 0x4000, 0x20),
        row(0x8800, 0x8820, "SN8F5829", 0x8000, 0x40),
        row(0x8820, 0x8830, "SN8F5840", 0x8000, 0x40),
        row(0x8830, 0x8840, "SN8F5869", 0x10000, 0x40),
        row(0x9901, 0x9910, "SN8F5900", 0x10000, 0x40),
        row(0x9910, 0x9920, "SN8F5910", 0x8000, 0x40),
        row(0x9920, 0x9930, "SN8F5900A", 0x10000, 0x40),
        row(0x9930, 0x9940, "SN8F5930", 0x20000, 0x40),
        row(0x9940, 0x9950, "SN8F5920", 0x8000, 0x40),
        row(0x9950, 0x9960, "SN8F5950", 0x20000, 0x40),
        row(0x9960, 0x9970, "SN8F5960", 0x10000, 0x40),
        row(0x99A0, 0x99B0, "SN8F5900B", 0x10000, 0x40),
        row(0x99B0, 0x99C0, "SN8F5940", 0x20000, 0x40),
        row(0x99C0, 0x99D0, "SN8F5900C", 0x10000, 0x40),
    ]
}

/// The series that `chip_id` belongs to, if the table knows it.
pub open spec fn lookup(chip_id: u32) -> Option<ChipModel> {
    if exists|i: int| in_row(i, chip_id) {
        let i = choose|i: int| in_row(i, chip_id);
        Some(chip_table()[i].info)
    } else {
        None
    }
}

/// The rows of the table are non-empty and ascend without touching: no
/// identifier belongs to two rows.
pub proof fn lemma_rows_ascend(i: int, j: int)
    requires
        0 <= i < j < chip_table().len(),
    ensures
        chip_table()[i].first < chip_table()[i].end <= chip_table()[j].first < chip_table()[j].end,
{
}

/// An identifier that lies in row `i` is looked up as that row's series, and
/// lies in no other row.
pub proof fn lemma_lookup_row(i: int, chip_id: u32)
    requires
        0 <= i < chip_table().len(),
        chip_table()[i].holds(chip_id),
    ensures
        lookup(chip_id) == Some(chip_table()[i].info),
        forall|j: int| j != i ==> !in_row(j, chip_id),
{
    assert(in_row(i, chip_id));
    assert forall|j: int| j != i && 0 <= j < chip_table().len() implies !in_row(j, chip_id) by {
        if j < i {
            lemma_rows_ascend(j, i);
        } else {
            lemma_rows_ascend(i, j);
        }
    }
}

/// Name, flash size and page size of a chip series.
#[derive(PartialEq, Eq, Debug, Clone, Copy)]
pub struct ChipInfo {
    series: &'static str,
    flash_size: u32,
    page_size: u8,
}

impl View for ChipInfo {
    type V = ChipModel;

    closed spec fn view(&self) -> ChipModel {
        ChipModel { series: self.series@, flash_size: self.flash_size, page_size: self.page_size }
    }
}

impl ChipInfo {
    /// The name of the series.
    pub fn series(&self) -> (r: &'static str)
        ensures
            r@ == self@.series,
    {
        self.series
    }

    /// The size of the flash in bytes.
    pub fn flash_size(&self) -> (r: u32)
        ensures
            r == self@.flash_size,
    {
        self.flash_size
    }

    /// The size of one flash page in bytes.
    pub fn page_size(&self) -> (r: u8)
        ensures
            r == self@.page_size,
    {
        self.page_size
    }

    /// Looks up the series of the chip that reported `chip_id`.
    pub fn from_chip_id(chip_id: u32) -> (r: Option<ChipInfo>)
        ensures
            match r {
                Some(info) => lookup(chip_id) == Some(info@),
                None => lookup(chip_id) is None,
            },
    {
        if 0x1110 <= chip_id && chip_id < 0x1120 {
            proof {
                lemma_lookup_row(0, chip_id);
            }
            Some(ChipInfo { series: "SNPD5111", flash_size: 0x4000, page_size: 0x20 })
        } else if 0x2710 <= chip_id && chip_id < 0x2720 {
            proof {
                lemma_lookup_row(1, chip_id);
            }
            Some(ChipInfo { series: "SN8F5283", flash_size: 0x4000, page_size: 0x20 })
        } else if 0x6100 <= chip_id && chip_id < 0x6110 {
            proof {
                lemma_lookup_row(2, chip_id);
            }
            Some(ChipInfo { series: "SN8F5701", flash_size: 0x1000, page_size: 0x20 })
        } else if 0x6110 <= chip_id && chip_id < 0x6120 {
            proof {
                lemma_lookup_row(3, chip_id);
            }
            Some(ChipInfo { series: "SN8F5721", flash_size: 0x1000, page_size: 0x20 })
        } else if 0x6200 <= chip_id && chip_id < 0x6216 {
            proof {
                lemma_lookup_row(4, chip_id);
            }
            Some(ChipInfo { series: "SN8F5702", flash_size: 0x1000, page_size: 0x20 })
        } else if 0x6216 <= chip_id && chip_id < 0x6220 {
            proof {
                lemma_lookup_row(5, chip_id);
            }
            Some(ChipInfo { series: "SN8F5702A", flash_size: 0x1000, page_size: 0x20 })
        } else if 0x6220 <= chip_id && chip_id < 0x6230 {
            proof {
                lemma_lookup_row(6, chip_id);
            }
            Some(ChipInfo { series: "SN8F5732", flash_size: 0x4000, page_size: 0x20 })
        } else if 0x6240 <= chip_id && chip_id < 0x6250 {
            proof {
                lemma_lookup_row(7, chip_id);
            }
            Some(ChipInfo { series: "SN8F5762", flash_size: 0x4800, page_size: 0x40 })
        } else if 0x6260 <= chip_id && chip_id < 0x6270 {
            proof {
                lemma_lookup_row(8, chip_id);
            }
            Some(ChipInfo { series: "SN8F5782", flash_size: 0x10000, page_size: 0x40 })
        } else if 0x6270 <= chip_id && chip_id < 0x6280 {
            proof {
                lemma_lookup_row(9, chip_id);
            }
            Some(ChipInfo { series: "SN8F5602", flash_size: 0x4800, page_size: 0x40 })
        } else if 0x6300 <= chip_id && chip_id < 0x6310 {
            proof {
                lemma_lookup_row(10, chip_id);
            }
            Some(ChipInfo { series: "SN8F5703", flash_size: 0x2000, page_size: 0x20 })
        } else if 0x6310 <= chip_id && chip_id < 0x6330 {
            proof {
                lemma_lookup_row(11, chip_id);
            }
            Some(ChipInfo { series: "SN8F5713", flash_size: 0x2000, page_size: 0x20 })
        } else if 0x6330 <= chip_id && chip_id < 0x6336 {
            proof {
                lemma_lookup_row(12, chip_id);
            }
            Some(ChipInfo { series: "SN8F5703", flash_size: 0x2000, page_size: 0x20 })
        } else if 0x6336 <= chip_id && chip_id < 0x6340 {
            proof {
                lemma_lookup_row(13, chip_id);
            }
            Some(ChipInfo { series: "SN8F5703A", flash_size: 0x2000, page_size: 0x20 })
        } else if 0x6400 <= chip_id && chip_id < 0x6410 {
            proof {
                lemma_lookup_row(14, chip_id);
            }
            Some(ChipInfo { series: "SN8F5754", flash_size: 0x4000, page_size: 0x20 })
        } else if 0x6700 <= chip_id && chip_id < 0x6720 {
            proof {
                lemma_lookup_row(15, chip_id);
            }
            Some(ChipInfo { series: "SN8F5708", flash_size: 0x4000, page_size: 0x20 })
        } else if 0x8401 <= chip_id && chip_id < 0x8410 {
            proof {
                lemma_lookup_row(16, chip_id);
            }
            Some(ChipInfo { series: "SN8F5804", flash_size: 0x2000, page_size: 0x20 })
        } else if 0x8410 <= chip_id && chip_id < 0x8420 {
            proof {
                lemma_lookup_row(17, chip_id);
            }
            Some(ChipInfo { series: "SN8F5814", flash_size: 0x4000, page_size: 0x20 })
        } else if 0x8420 <= chip_id && chip_id < 0x8430 {
            proof {
                lemma_lookup_row(18, chip_id);
            }
            Some(ChipInfo { series: "SN8F5804A", flash_size: 0x2000, page_size: 0x20 })
        } else if 0x8500 <= chip_id && chip_id < 0x8510 {
            proof {
                lemma_lookup_row(19, chip_id);
            }
            Some(ChipInfo { series: "SN8F5835", flash_size: 0x8000, page_size: 0x40 })
        } else if 0x8700 <= chip_id && chip_id < 0x8710 {
            proof {
                lemma_lookup_row(20, chip_id);
            }
            Some(ChipInfo { series: "SN8F5858", flash_size: 0x4000, page_size: 0x20 })
        } else if 0x8800 <= chip_id && chip_id < 0x8820 {
            proof {
                lemma_lookup_row(21, chip_id);
            }
            Some(ChipInfo { series: "SN8F5829", flash_size: 0x8000, page_size: 0x40 })
        } else if 0x8820 <= chip_id && chip_id < 0x8830 {
            proof {
                lemma_lookup_row(22, chip_id);
            }
            Some(ChipInfo { series: "SN8F5840", flash_size: 0x8000, page_size: 0x40 })
        } else if 0x8830 <= chip_id && chip_id < 0x8840 {
            proof {
                lemma_lookup_row(23, chip_id);
            }
            Some(ChipInfo { series: "SN8F5869", flash_size: 0x10000, page_size: 0x40 })
        } else if 0x9901 <= chip_id && chip_id < 0x9910 {
            proof {
                lemma_lookup_row(24, chip_id);
            }
            Some(ChipInfo { series: "SN8F5900", flash_size: 0x10000, page_size: 0x40 })
        } else if 0x9910 <= chip_id && chip_id < 0x9920 {
            proof {
                lemma_lookup_row(25, chip_id);
            }
            Some(ChipInfo { series: "SN8F5910", flash_size: 0x8000, page_size: 0x40 })
        } else if 0x9920 <= chip_id && chip_id < 0x9930 {
            proof {
                lemma_lookup_row(26, chip_id);
            }
            Some(ChipInfo { series: "SN8F5900A", flash_size: 0x10000, page_size: 0x40 })
        } else if 0x9930 <= chip_id && chip_id < 0x9940 {
            proof {
                lemma_lookup_row(27, chip_id);
            }
            Some(ChipInfo { series: "SN8F5930", flash_size: 0x20000, page_size: 0x40 })
        } else if 0x9940 <= chip_id && chip_id < 0x9950 {
            proof {
                lemma_lookup_row(28, chip_id);
            }
            Some(ChipInfo { series: "SN8F5920", flash_size: 0x8000, page_size: 0x40 })
        } else if 0x9950 <= chip_id && chip_id < 0x9960 {
            proof {
                lemma_lookup_row(29, chip_id);
            }
            Some(ChipInfo { series: "SN8F5950", flash_size: 0x20000, page_size: 0x40 })
        } else if 0x9960 <= chip_id && chip_id < 0x9970 {
            proof {
                lemma_lookup_row(30, chip_id);
            }
            Some(ChipInfo { series: "SN8F5960", flash_size: 0x10000, page_size: 0x40 })
        } else if 0x99A0 <= chip_id && chip_id < 0x99B0 {
            proof {
                lemma_lookup_row(31, chip_id);
            }
            Some(ChipInfo { series: "SN8F5900B", flash_size: 0x10000, page_size: 0x40 })
        } else if 0x99B0 <= chip_id && chip_id < 0x99C0 {
            proof {
                lemma_lookup_row(32, chip_id);
            }
            Some(ChipInfo { series: "SN8F5940", flash_size: 0x20000, page_size: 0x40 })
        } else if 0x99C0 <= chip_id && chip_id < 0x99D0 {
            proof {
                lemma_lookup_row(33, chip_id);
            }
            Some(ChipInfo { series: "SN8F5900C", flash_size: 0x10000, page_size: 0x40 })
        } else {
            None
        }
    }
}

} // verus!
