//! Access to the reference genome held in a two-bit file.
use vstd::prelude::*;
use vstd::string::StringSliceAdditionalSpecFns;
use vstd::utf8::valid_utf8;

use crate::error::SpdiError;
use crate::layout::{tables_ok, two_bit_tables_ok};


verus! {

#[verifier::external_type_specification]
#[verifier::external_body]
pub struct ExTwoBitError(twobit::Error);

/// A reference genome, loaded whole into memory from the bytes of a two-bit file.
#[verifier::external_body]
pub struct Genome {
    tb: twobit::TwoBitMemoryFile,
}

/// The sequences that a two-bit file holds, by name: the letters that
/// `read_sequence` gives for each chromosome over its whole length.
pub uninterp spec fn sequences_of(g: Genome) -> Map<Seq<char>, Seq<char>>;

/// The bytes of the two-bit file that a genome was parsed from.
pub uninterp spec fn buffer_of(g: Genome) -> Seq<u8>;

/// The sequence of a chromosome; a name that the file does not hold reads as
/// an empty sequence.
pub open spec fn chrom_sequence(g: Genome, chrom: Seq<char>) -> Seq<char> {
    if sequences_of(g).contains_key(chrom) {
        sequences_of(g)[chrom]
    } else {
        seq![]
    }
}

/// The letters of `s` in the 0-based half-open range `start..end`, with both
/// ends clipped to the length of `s`.
pub open spec fn window_of(s: Seq<char>, start: int, end: int) -> Seq<char> {
    let a = if start < s.len() { start } else { s.len() as int };
    let b = if end < s.len() { end } else { s.len() as int };
    if a < b {
        s.subrange(a, b)
    } else {
        seq![]
    }
}

/// Relies on twobit::TwoBitFile::read_sequence: it looks the name up (an
/// unknown name is `MissingName`), clips both ends of the range to the
/// sequence's length, and returns the letters there, with `N` over the blocks
/// of unknown bases. Reading only moves the cursor over the buffer. In a file
/// whose tables pass `tables_ok` the blocks are sorted and disjoint, so every
/// read agrees with one sequence per name, and the packed bases lie within the
/// buffer, so no read runs out of bytes.
#[verifier::external_body]
pub(crate) fn read_window(g: &mut Genome, chrom: &str, start: usize, end: usize) -> (r: Result<
    Option<Vec<char>>,
    twobit::Error,
>)
    requires
        tables_ok(buffer_of(*old(g))),
    ensures
        sequences_of(*final(g)) == sequences_of(*old(g)),
        buffer_of(*final(g)) == buffer_of(*old(g)),
        r is Ok,
        r matches Ok(None) <==> !sequences_of(*old(g)).contains_key(chrom@),
        r matches Ok(Some(v)) ==> v@ == window_of(
            chrom_sequence(*old(g), chrom@),
            start as int,
            end as int,
        ),
{
    match g.tb.read_sequence(chrom, start..end) {
        Ok(s) => Ok(Some(s.chars().collect())),
        Err(twobit::Error::MissingName(_)) => Ok(None),
        Err(e) => Err(e),
    }
}

/// Relies on twobit::TwoBitFile::from_buf: it parses the header, the index
/// and each record's tables from the buffer, which it keeps, or reports why it
/// cannot. It adds each block's start and length as 32-bit numbers, which
/// `tables_ok` keeps from overflowing.
#[verifier::external_body]
fn parse_two_bit(buf: Vec<u8>) -> (r: Result<Genome, twobit::Error>)
    requires
        tables_ok(buf@),
    ensures
        r matches Ok(g) ==> buffer_of(g) == buf@,
{
    match twobit::TwoBitFile::from_buf(buf) {
        Ok(tb) => Ok(Genome { tb }),
        Err(e) => Err(e),
    }
}

impl Genome {
    /// Loads a genome from the bytes of a two-bit file. A file whose tables
    /// are not whole, or whose blocks of unknown bases are out of order,
    /// overlap or overflow, is refused before it is parsed.
    pub fn from_buf(buf: Vec<u8>) -> (r: Result<Genome, SpdiError>)
        ensures
            r matches Ok(g) ==> buffer_of(g) == buf@ && tables_ok(buf@),
            !tables_ok(buf@) ==> r matches Err(SpdiError::MalformedGenome),
            r matches Err(e) ==> (e is MalformedGenome || e is TwoBitError),
    {
        if !two_bit_tables_ok(buf.as_slice()) {
            return Err(SpdiError::MalformedGenome);
        }
        match parse_two_bit(buf) {
            Ok(g) => Ok(g),
            Err(e) => Err(SpdiError::TwoBitError(e)),
        }
    }
}

/// Relies on std::str::from_utf8: it accepts exactly the valid UTF-8 byte
/// strings, and the text it gives has those bytes.
#[verifier::external_body]
pub(crate) fn utf8_text(b: &[u8]) -> (r: Option<&str>)
    ensures
        r is Some <==> valid_utf8(b@),
        r matches Some(s) ==> s.spec_bytes() == b@,
{
    std::str::from_utf8(b).ok()
}

} // verus!
