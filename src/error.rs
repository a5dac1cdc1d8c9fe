//! The ways in which a conversion can fail.
use vstd::prelude::*;

use crate::util::Base;

verus! {

/// Why a variant could not be brought to its canonical form.
#[derive(Debug)]
pub enum SpdiError {
    /// A byte of allele text that names no base.
    InvalidBase { base: u8 },
    /// The repeat went on for more probe windows than the configured bound.
    NoNonRepeat { chrom: Vec<u8>, search_len: usize, search_start: usize },
    /// Growth was asked for a variant that is not a pure insertion or deletion.
    NotIndel { chrom: Vec<u8>, pos: usize, ref_base: Vec<Base>, alt_base: Vec<Base> },
    /// A probe fell outside the part of the chromosome that can be addressed.
    InvalidPosition { chrom: Vec<u8>, pos: usize },
    /// Both alleles are empty.
    EmptyVariant { chrom: Vec<u8>, pos: usize, ref_base: Vec<Base>, alt_base: Vec<Base> },
    /// The genome file's tables are not whole, or its blocks of unknown bases
    /// are out of order, overlap or overflow.
    MalformedGenome,
    /// The genome file could not be parsed.
    TwoBitError(twobit::Error),
}

} // verus!
