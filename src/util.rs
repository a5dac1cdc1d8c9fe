//! Conversion between allele text and sequences of bases.
use vstd::prelude::*;
use vstd::string::{StringExecFns, StringSliceAdditionalSpecFns};

use crate::error::SpdiError;

verus! {

/// One nucleotide of an allele. `N` stands for an unknown base.
#[derive(Clone, Copy, Debug, PartialEq, Eq, Structural)]
pub enum Base {
    A,
    C,
    G,
    T,
    N,
}

/// The byte that stands for no base at all (an empty allele is written as this byte).
pub const PLACEHOLDER: u8 = 45;

/// The base that one byte of allele text names, case-insensitively.
pub open spec fn base_of_byte(c: u8) -> Option<Base> {
    if c == 65 || c == 97 {
        Some(Base::A)
    } else if c == 84 || c == 116 {
        Some(Base::T)
    } else if c == 71 || c == 103 {
        Some(Base::G)
    } else if c == 67 || c == 99 {
        Some(Base::C)
    } else if c == 78 || c == 110 {
        Some(Base::N)
    } else {
        None
    }
}

/// The bases that allele text names: the placeholder byte contributes no base,
/// and the first byte that is neither a base nor the placeholder is the error.
pub open spec fn parse_bases(s: Seq<u8>) -> Result<Seq<Base>, u8>
    decreases s.len(),
{
    if s.len() == 0 {
        Ok(seq![])
    } else {
        match parse_bases(s.drop_last()) {
            Err(c) => Err(c),
            Ok(prefix) => if s.last() == PLACEHOLDER {
                Ok(prefix)
            } else {
                match base_of_byte(s.last()) {
                    Some(b) => Ok(prefix.push(b)),
                    None => Err(s.last()),
                }
            },
        }
    }
}

/// The upper-case letter of a base.
pub open spec fn char_of(b: Base) -> char {
    match b {
        Base::A => 'A',
        Base::C => 'C',
        Base::G => 'G',
        Base::T => 'T',
        Base::N => 'N',
    }
}

/// The text of an allele: its letters, or the placeholder alone when it is empty.
pub open spec fn render_bases(b: Seq<Base>) -> Seq<char> {
    if b.len() == 0 {
        seq!['-']
    } else {
        b.map_values(|x: Base| char_of(x))
    }
}

/// Whether a base of an allele agrees with a letter read from the genome:
/// `N` in the allele agrees with every letter.
pub open spec fn base_matches(b: Base, c: char) -> bool {
    match b {
        Base::N => true,
        _ => c == char_of(b),
    }
}

/// Parses allele text given as bytes.
pub fn get_bases_of_vu8(s: &[u8]) -> (r: Result<Vec<Base>, SpdiError>)
    ensures
        match parse_bases(s@) {
            Ok(bases) => r matches Ok(v) && v@ == bases,
            Err(c) => r matches Err(SpdiError::InvalidBase { base }) && base == c,
        },
{
    let mut bases: Vec<Base> = Vec::with_capacity(s.len());
    let mut i: usize = 0;
    while i < s.len()
        invariant
            i <= s@.len(),
            parse_bases(s@.take(i as int)) == Ok::<Seq<Base>, u8>(bases@),
        decreases s@.len() - i,
    {
        let c = s[i];
        assert(s@.take(i + 1).drop_last() == s@.take(i as int));
        if c != PLACEHOLDER {
            match get_base_of_char(&c) {
                Some(base) => bases.push(base),
                None => {
                    proof {
                        lemma_parse_error_persists(s@, i as int + 1);
                    }
                    return Err(SpdiError::InvalidBase { base: c });
                },
            }
        }
        i += 1;
    }
    assert(s@.take(s@.len() as int) == s@);
    Ok(bases)
}

/// Once a prefix fails to parse, the whole text fails with the same byte.
proof fn lemma_parse_error_persists(s: Seq<u8>, k: int)
    requires
        0 <= k <= s.len(),
        parse_bases(s.take(k)) is Err,
    ensures
        parse_bases(s) == parse_bases(s.take(k)),
    decreases s.len() - k,
{
    if k < s.len() {
        assert(s.take(k + 1).drop_last() == s.take(k));
        lemma_parse_error_persists(s, k + 1);
    } else {
        assert(s.take(k) == s);
    }
}

/// The base that one byte names, if any.
pub fn get_base_of_char(c: &u8) -> (r: Option<Base>)
    ensures
        r == base_of_byte(*c),
{
    match *c {
        65 | 97 => Some(Base::A),
        84 | 116 => Some(Base::T),
        71 | 103 => Some(Base::G),
        67 | 99 => Some(Base::C),
        78 | 110 => Some(Base::N),
        _ => None,
    }
}

/// The upper-case letter of a base.
pub fn get_char_of_base(base: &Base) -> (r: char)
    ensures
        r == char_of(*base),
{
    match base {
        Base::A => 'A',
        Base::T => 'T',
        Base::G => 'G',
        Base::C => 'C',
        Base::N => 'N',
    }
}

/// The text of one base, as a string slice.
fn text_of_base(base: &Base) -> (r: &'static str)
    ensures
        r@ == seq![char_of(*base)],
{
    proof {
        reveal_strlit("A");
        reveal_strlit("C");
        reveal_strlit("G");
        reveal_strlit("T");
        reveal_strlit("N");
    }
    match base {
        Base::A => "A",
        Base::T => "T",
        Base::G => "G",
        Base::C => "C",
        Base::N => "N",
    }
}

/// Renders an allele as text; the empty allele is the placeholder "-".
pub fn get_string_of_bases(bases: &[Base]) -> (r: String)
    ensures
        r@ == render_bases(bases@),
{
    if bases.len() == 0 {
        proof {
            reveal_strlit("-");
        }
        return String::from_str("-");
    }
    let mut s = String::new();
    let mut i: usize = 0;
    while i < bases.len()
        invariant
            i <= bases@.len(),
            s@ == bases@.take(i as int).map_values(|x: Base| char_of(x)),
        decreases bases@.len() - i,
    {
        s.append(text_of_base(&bases[i]));
        assert(bases@.take(i + 1).map_values(|x: Base| char_of(x)) =~= bases@.take(
            i as int,
        ).map_values(|x: Base| char_of(x)).push(char_of(bases@[i as int])));
        i += 1;
    }
    assert(bases@.take(bases@.len() as int) == bases@);
    s
}

/// Whether a base of an allele agrees with a letter read from the genome
/// (`N` agrees with every letter).
pub fn is_base_same_as_char(base: &Base, c: char) -> (r: bool)
    ensures
        r == base_matches(*base, c),
{
    match base {
        Base::A => c == 'A',
        Base::T => c == 'T',
        Base::G => c == 'G',
        Base::C => c == 'C',
        Base::N => true,
    }
}

/// Parses allele text given as a string, byte by byte.
pub fn get_bases_of_string(s: &str) -> (r: Result<Vec<Base>, SpdiError>)
    ensures
        match parse_bases(s.spec_bytes()) {
            Ok(bases) => r matches Ok(v) && v@ == bases,
            Err(c) => r matches Err(SpdiError::InvalidBase { base }) && base == c,
        },
{
    get_bases_of_vu8(s.as_bytes())
}

} // verus!
