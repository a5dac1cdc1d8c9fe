//! Helpers for the tab-separated lines of a VCF file.
use vstd::prelude::*;
use vstd::string::{StringExecFns, StringSliceAdditionalSpecFns};

verus! {

/// How many tab bytes `s` holds.
pub open spec fn tab_count(s: Seq<u8>) -> nat
    decreases s.len(),
{
    if s.len() == 0 {
        0
    } else {
        tab_count(s.drop_last()) + if s.last() == 9 {
            1nat
        } else {
            0nat
        }
    }
}

/// Whether a `#CHROM` header line names sample columns: it has more than
/// eight tab-separated fields, that is, at least eight tabs.
pub fn header_has_sample(line: &str) -> (r: bool)
    ensures
        r == (tab_count(line.spec_bytes()) >= 8),
{
    let bytes = line.as_bytes();
    let mut tabs: usize = 0;
    let mut i: usize = 0;
    while i < bytes.len()
        invariant
            i <= bytes@.len(),
            bytes@ == line.spec_bytes(),
            tabs == tab_count(bytes@.take(i as int)),
            tabs <= i,
        decreases bytes@.len() - i,
    {
        assert(bytes@.take(i + 1).drop_last() == bytes@.take(i as int));
        if bytes[i] == 9 {
            tabs += 1;
        }
        i += 1;
    }
    assert(bytes@.take(bytes@.len() as int) == bytes@);
    tabs >= 8
}

/// The UCSC name of a chromosome written without the "chr" prefix: names that
/// start with a digit from 1 to 9, X or Y get the prefix, names that start with
/// M are the mitochondrial chromosome, and other names are not of this kind.
pub open spec fn ucsc_name(name: Seq<char>) -> Option<Seq<char>> {
    if name.len() == 0 {
        None
    } else if ('1' <= name[0] && name[0] <= '9') || name[0] == 'X' || name[0] == 'Y' {
        Some(seq!['c', 'h', 'r'] + name)
    } else if name[0] == 'M' {
        Some(seq!['c', 'h', 'r', 'M'])
    } else {
        None
    }
}

/// The UCSC name of a chromosome named in a VCF record, where a rule gives it.
pub fn ucsc_chrom_name(name: &str) -> (r: Option<String>)
    ensures
        r matches Some(t) ==> ucsc_name(name@) == Some(t@),
        r is None ==> ucsc_name(name@) is None,
{
    broadcast use vstd::string::axiom_spec_iter, vstd::string::next_postcondition;

    let mut chars = name.chars();
    let first = chars.next();
    proof {
        reveal_strlit("chr");
        reveal_strlit("chrM");
    }
    match first {
        None => None,
        Some(c) => {
            if ('1' <= c && c <= '9') || c == 'X' || c == 'Y' {
                let mut t = String::from_str("chr");
                t.append(name);
                Some(t)
            } else if c == 'M' {
                Some(String::from_str("chrM"))
            } else {
                None
            }
        },
    }
}

} // verus!
