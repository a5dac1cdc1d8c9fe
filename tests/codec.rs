use spdi::trim;
use spdi::util::{
    get_base_of_char, get_bases_of_string, get_bases_of_vu8, get_char_of_base,
    get_string_of_bases, is_base_same_as_char,
};
use spdi::vcf::{header_has_sample, ucsc_chrom_name};
use spdi::{Base, SpdiError};

#[test]
fn trim_right() {
    // ACTGTC
    // AC  TC
    let ref_bases = get_bases_of_string("ACTGTC").unwrap();
    let alt_bases = get_bases_of_string("ACTC").unwrap();
    assert_eq!((4, 2), trim::trim_right(&ref_bases, &alt_bases, 0, 6, 0, 4));
    // A
    // G
    let ref_bases = get_bases_of_string("A").unwrap();
    let alt_bases = get_bases_of_string("G").unwrap();
    assert_eq!((1, 1), trim::trim_right(&ref_bases, &alt_bases, 0, 1, 0, 1));
}

#[test]
fn trim_left() {
    // A
    // G
    let ref_bases = get_bases_of_string("A").unwrap();
    let alt_bases = get_bases_of_string("G").unwrap();
    assert_eq!((0, 0), trim::trim_left(&ref_bases, &alt_bases, 0, 1, 0, 1));
    // ACTG
    // AC
    let ref_bases = get_bases_of_string("ACTG").unwrap();
    let alt_bases = get_bases_of_string("AC").unwrap();
    assert_eq!((2, 2), trim::trim_left(&ref_bases, &alt_bases, 0, 4, 0, 2));
}

#[test]
fn trim_in_sequence_reconstructs_alleles() {
    let r = get_bases_of_string("GCATTAGC").unwrap();
    let a = get_bases_of_string("GCAGC").unwrap();
    let (re, ae) = trim::trim_right(&r, &a, 0, r.len(), 0, a.len());
    let (rs, as_) = trim::trim_left(&r, &a, 0, re, 0, ae);
    assert_eq!((re, ae), (5, 2));
    assert_eq!((rs, as_), (2, 2));
    assert_eq!(r[..rs].to_vec(), a[..as_].to_vec());
    assert_eq!(r[re..].to_vec(), a[ae..].to_vec());
    let mut rebuilt = r[..rs].to_vec();
    rebuilt.extend_from_slice(&r[rs..re]);
    rebuilt.extend_from_slice(&r[re..]);
    assert_eq!(rebuilt, r);
    assert_eq!(get_string_of_bases(&r[rs..re]), "ATT");
    assert_eq!(get_string_of_bases(&a[as_..ae]), "-");
}

#[test]
fn trim_stops_at_range_ends() {
    let r = get_bases_of_string("AAAA").unwrap();
    let a = get_bases_of_string("AA").unwrap();
    assert_eq!(trim::trim_right(&r, &a, 0, 4, 0, 2), (2, 0));
    assert_eq!(trim::trim_left(&r, &a, 0, 4, 0, 2), (2, 2));
    assert_eq!(trim::trim_left(&r, &a, 1, 3, 0, 1), (2, 1));
}

#[test]
fn trim_treats_n_as_a_plain_base() {
    let r = get_bases_of_string("AN").unwrap();
    let a = get_bases_of_string("AC").unwrap();
    assert_eq!(trim::trim_right(&r, &a, 0, 2, 0, 2), (2, 2));
    assert_eq!(trim::trim_left(&r, &a, 0, 2, 0, 2), (1, 1));
}

#[test]
fn parse_maps_letters_case_insensitively() {
    assert_eq!(
        get_bases_of_vu8(b"acgtnACGTN").unwrap(),
        vec![Base::A, Base::C, Base::G, Base::T, Base::N, Base::A, Base::C, Base::G, Base::T, Base::N]
    );
}

#[test]
fn parse_placeholder_contributes_no_base() {
    assert_eq!(get_bases_of_vu8(b"-").unwrap(), Vec::<Base>::new());
    assert_eq!(get_bases_of_vu8(b"").unwrap(), Vec::<Base>::new());
    assert_eq!(get_bases_of_vu8(b"T-A").unwrap(), vec![Base::T, Base::A]);
}

#[test]
fn parse_rejects_first_invalid_byte() {
    match get_bases_of_vu8(b"ACXZ") {
        Err(SpdiError::InvalidBase { base }) => assert_eq!(base, b'X'),
        other => panic!("unexpected {:?}", other),
    }
    match get_bases_of_string("AC.") {
        Err(SpdiError::InvalidBase { base }) => assert_eq!(base, b'.'),
        other => panic!("unexpected {:?}", other),
    }
}

#[test]
fn single_byte_and_letter_conversions() {
    assert_eq!(get_base_of_char(&b'g'), Some(Base::G));
    assert_eq!(get_base_of_char(&b'N'), Some(Base::N));
    assert_eq!(get_base_of_char(&b'-'), None);
    assert_eq!(get_base_of_char(&b'U'), None);
    assert_eq!(get_char_of_base(&Base::T), 'T');
    assert_eq!(get_char_of_base(&Base::N), 'N');
}

#[test]
fn render_empty_allele_as_placeholder() {
    assert_eq!(get_string_of_bases(&[]), "-");
    assert_eq!(get_string_of_bases(&[Base::G, Base::A, Base::N]), "GAN");
}

#[test]
fn n_in_an_allele_matches_every_letter() {
    assert!(is_base_same_as_char(&Base::N, 'G'));
    assert!(is_base_same_as_char(&Base::N, 'N'));
    assert!(is_base_same_as_char(&Base::C, 'C'));
    assert!(!is_base_same_as_char(&Base::C, 'c'));
    assert!(!is_base_same_as_char(&Base::A, 'N'));
}

#[test]
fn header_with_and_without_samples() {
    let plain = "#CHROM\tPOS\tID\tREF\tALT\tQUAL\tFILTER\tINFO";
    assert!(!header_has_sample(plain));
    let with_sample = "#CHROM\tPOS\tID\tREF\tALT\tQUAL\tFILTER\tINFO\tFORMAT\tS1";
    assert!(header_has_sample(with_sample));
    assert!(!header_has_sample(""));
}

#[test]
fn chromosome_names_get_ucsc_prefix() {
    assert_eq!(ucsc_chrom_name("1"), Some("chr1".to_string()));
    assert_eq!(ucsc_chrom_name("22"), Some("chr22".to_string()));
    assert_eq!(ucsc_chrom_name("X"), Some("chrX".to_string()));
    assert_eq!(ucsc_chrom_name("Y"), Some("chrY".to_string()));
    assert_eq!(ucsc_chrom_name("MT"), Some("chrM".to_string()));
    assert_eq!(ucsc_chrom_name("KI270721.1"), None);
    assert_eq!(ucsc_chrom_name("0"), None);
    assert_eq!(ucsc_chrom_name(""), None);
}
