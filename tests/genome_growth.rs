use spdi::util::get_bases_of_string;
use spdi::{Base, Genome, Grower, SpdiError, SPDI};

/// The bytes of a two-bit file holding each `(name, length, segments)`: every
/// segment's letters stand at its 1-based position; every other position is N.
fn two_bit(seqs: &[(&str, usize, Vec<(usize, String)>)]) -> Vec<u8> {
    fn field(out: &mut Vec<u8>, v: u32) {
        out.extend_from_slice(&v.to_be_bytes());
    }
    let mut out = Vec::new();
    field(&mut out, 0x1A41_2743);
    field(&mut out, 0);
    field(&mut out, seqs.len() as u32);
    field(&mut out, 0);
    let index_len: usize = seqs.iter().map(|(n, _, _)| 1 + n.len() + 4).sum();
    let mut records = Vec::new();
    let mut offsets = Vec::new();
    for (_, len, segs) in seqs {
        offsets.push(16 + index_len + records.len());
        let mut segs = segs.clone();
        segs.sort();
        let mut blocks: Vec<(usize, usize)> = Vec::new();
        let mut cursor = 0;
        for (p, t) in &segs {
            if p - 1 > cursor {
                blocks.push((cursor, p - 1 - cursor));
            }
            cursor = p - 1 + t.len();
        }
        if cursor < *len {
            blocks.push((cursor, len - cursor));
        }
        field(&mut records, *len as u32);
        field(&mut records, blocks.len() as u32);
        for (s, _) in &blocks {
            field(&mut records, *s as u32);
        }
        for (_, l) in &blocks {
            field(&mut records, *l as u32);
        }
        field(&mut records, 0);
        field(&mut records, 0);
        let mut packed = vec![0u8; (len + 3) / 4];
        for (p, t) in &segs {
            for (i, c) in t.bytes().enumerate() {
                let at = p - 1 + i;
                let code: u8 = match c {
                    b'T' => 0,
                    b'C' => 1,
                    b'A' => 2,
                    b'G' => 3,
                    _ => panic!("letter {}", c),
                };
                packed[at / 4] |= code << (6 - 2 * (at % 4));
            }
        }
        records.extend_from_slice(&packed);
    }
    for ((name, _, _), off) in seqs.iter().zip(offsets) {
        out.push(name.len() as u8);
        out.extend_from_slice(name.as_bytes());
        field(&mut out, off as u32);
    }
    out.extend_from_slice(&records);
    out
}

fn genome(seqs: &[(&str, usize, Vec<(usize, String)>)]) -> Genome {
    Genome::from_buf(two_bit(seqs)).unwrap()
}

/// chr1 with the run TTATTATTATTATT at 141454 (a G at 141453) and an
/// AAAAT repeat after 4950531.
fn chr1() -> Genome {
    genome(&[(
        "chr1",
        4950600,
        vec![
            (141440, "CCCCCCCCCCCCCGTTATTATTATTATTGCCCC".to_string()),
            (4950530, "CAAAAATAAAATAAAATAAAATAAAATAAC".to_string()),
        ],
    )])
}

fn bases(s: &str) -> Vec<Base> {
    get_bases_of_string(s).unwrap()
}

#[test]
fn get_spdi_string_del() {
    let mut spdi = SPDI::new(chr1());
    assert_eq!(
        "chr1:141454:TTATTATTATTATT:TTATTATTATT".to_string(),
        spdi.get_spdi_string("chr1".as_bytes(), 141457, "TTA".as_bytes(), "".as_bytes()).unwrap()
    );
    assert_eq!(
        "chr1:141454:TTATTATTATTATT:TTATTATTATT".to_string(),
        spdi.get_spdi_string("chr1".as_bytes(), 141455, "TAT".as_bytes(), "".as_bytes()).unwrap()
    );
}

#[test]
fn get_spdi_string_ins() {
    let mut spdi = SPDI::new(chr1());
    assert_eq!(
        "chr1:141454:TTATTATTATTATT:TTATTATTATTATTATT".to_string(),
        spdi.get_spdi_string("chr1".as_bytes(), 141458, "".as_bytes(), "TAT".as_bytes()).unwrap()
    );
    assert_eq!(
        "chr1:141454:TTATTATTATTATT:TTATTATTATTATTATT".to_string(),
        spdi.get_spdi_string("chr1".as_bytes(), 141457, "".as_bytes(), "TTA".as_bytes()).unwrap()
    );
    assert_eq!(
        "chr1:4950532:AAAATAAAATAAAATAAAATAAAATAA:AAAATAAAATAAAATAAAATAAAATAAAATAAAATAAAATAAAATAAAATAA".to_string(),
        spdi.get_spdi_string("chr1".as_bytes(), 4950531, "AAAAATAAAAT".as_bytes(), "AAAAATAAAATAAAATAAAATAAAATAAAATAAAAT".as_bytes()).unwrap()
    );
}

#[test]
fn get_spdi_string_snv() {
    let mut spdi = SPDI::new(chr1());
    assert_eq!(
        "chr1:141453:G:C".to_string(),
        spdi.get_spdi_string("chr1".as_bytes(), 141453, "G".as_bytes(), "C".as_bytes()).unwrap()
    );
    assert_eq!(
        "chr1:30025797:A:T".to_string(),
        spdi.get_spdi_string("chr1".as_bytes(), 30025797, "A".as_bytes(), "T".as_bytes()).unwrap()
    );
}

#[test]
fn grow_left() {
    // TTA(TTA)TTA
    //     ---
    let mut spdi = SPDI::new(chr1());
    let ref_bases = bases("TTA");
    assert_eq!(
        (141454, bases("TTA")),
        spdi.grower.grow_left("chr1".as_bytes(), 141457, &ref_bases).unwrap()
    );
}

#[test]
fn grow_right() {
    // TTA(TTA)TTA
    //     ---
    let mut spdi = SPDI::new(chr1());
    let unit = bases("TTA");
    assert_eq!(
        (141468, bases("TTATTATTATT")),
        spdi.grower.grow_right("chr1".as_bytes(), 141457, &unit).unwrap()
    );
}

#[test]
fn grow() {
    let mut spdi = SPDI::new(chr1());
    let ref_bases = bases("TTA");
    let alt_bases = bases("");
    assert_eq!(
        (141454, bases("TTATTATTATTATT"), bases("TTATTATTATT")),
        spdi.grower.grow("chr1".as_bytes(), 141457, &ref_bases, &alt_bases).unwrap()
    );
    let ref_bases = bases("");
    let alt_bases = bases("TTA");
    assert_eq!(
        (141454, bases("TTATTATTATTATT"), bases("TTATTATTATTATTATT")),
        spdi.grower.grow("chr1".as_bytes(), 141457, &ref_bases, &alt_bases).unwrap()
    );
}

#[test]
fn long_conversion() {
    let run = format!("G{}G", "ATTCT".repeat(14));
    let mut spdi = SPDI::new(genome(&[("chr22", 45795500, vec![(45795354, run)])]));
    let ref_bases = bases("GATTC");
    let alt_bases = bases("GATTCTATTC");
    let result = spdi.get_spdi_conversion("chr22".as_bytes(), 45795354, &ref_bases, &alt_bases).unwrap();
    assert_eq!(
        (
            45795355,
            bases("ATTCTATTCTATTCTATTCTATTCTATTCTATTCTATTCTATTCTATTCTATTCTATTCTATTCTATTCT"),
            bases("ATTCTATTCTATTCTATTCTATTCTATTCTATTCTATTCTATTCTATTCTATTCTATTCTATTCTATTCTATTCT"),
        ),
        result
    );
}

#[test]
fn test_grow_left() {
    let mut grower = Grower::new(genome(&[("chr19_GL383575v2_alt", 40, vec![(1, "CCGTAGGCTA".to_string())])]));
    let result = grower.grow_left("chr19_GL383575v2_alt".as_bytes(), 1, &vec![Base::C, Base::A, Base::C, Base::A]).unwrap();
    assert_eq!(result, (1, vec![]));
    let result = grower.grow_left("chr19_GL383575v2_alt".as_bytes(), 3, &vec![Base::A, Base::G, Base::C, Base::C]).unwrap();
    // The absorbed CC reaches the chromosome's start, where the boundary goes.
    assert_eq!(result, (1, vec![Base::C, Base::C]));
}

#[test]
fn test_grow_right() {
    let mut grower = Grower::new(genome(&[("chr19_GL383576v1_alt", 188024, vec![(188015, "GCAGCAGCTT".to_string())])]));
    let result = grower.grow_right("chr19_GL383576v1_alt".as_bytes(), 188023, &vec![Base::C, Base::A, Base::C, Base::A]).unwrap();
    assert_eq!(result, (188023, vec![]));
    // The chromosome ends after 188024: the boundary is the last confirmed position.
    let result = grower.grow_right("chr19_GL383576v1_alt".as_bytes(), 188023, &vec![Base::T]).unwrap();
    assert_eq!(result, (188025, vec![Base::T, Base::T]));
    let result = grower.grow_right("chr19_GL383576v1_alt".as_bytes(), 188023, &vec![Base::T, Base::T, Base::T]).unwrap();
    assert_eq!(result, (188025, vec![Base::T, Base::T]));
}

#[test]
fn placeholder_alleles_roll_left() {
    let mut spdi = SPDI::new(chr1());
    assert_eq!(
        spdi.get_spdi_string(b"chr1", 141457, b"TTA", b"-").unwrap(),
        "chr1:141454:TTATTATTATTATT:TTATTATTATT"
    );
    assert_eq!(
        spdi.get_spdi_string(b"chr1", 141457, b"-", b"TTA").unwrap(),
        "chr1:141454:TTATTATTATTATT:TTATTATTATTATTATT"
    );
}

/// chrR holding GGC TATATATA CGG with the run at 1001..=1008.
fn tata() -> Genome {
    genome(&[("chrR", 1100, vec![(998, "GGCTATATATACGG".to_string())])])
}

#[test]
fn insertions_anywhere_in_a_repeat_agree() {
    let mut spdi = SPDI::new(tata());
    let expected = "chrR:1001:TATATATA:TATATATATA";
    for pos in [1001usize, 1003, 1005, 1007, 1009] {
        assert_eq!(spdi.get_spdi_string(b"chrR", pos, b"", b"TA").unwrap(), expected, "TA at {}", pos);
    }
    for pos in [1002usize, 1004, 1006, 1008] {
        assert_eq!(spdi.get_spdi_string(b"chrR", pos, b"", b"AT").unwrap(), expected, "AT at {}", pos);
    }
    // Anchored as a VCF would write it.
    assert_eq!(spdi.get_spdi_string(b"chrR", 1004, b"A", b"ATA").unwrap(), expected);
}

#[test]
fn deletion_and_insertion_share_their_context() {
    let mut spdi = SPDI::new(tata());
    let del = spdi.get_spdi_conversion(b"chrR", 1003, &bases("TA"), &[]).unwrap();
    let ins = spdi.get_spdi_conversion(b"chrR", 1003, &[], &bases("TA")).unwrap();
    assert_eq!(del.0, ins.0);
    assert_eq!(del.1, ins.1);
    assert_eq!(del.1, bases("TATATATA"));
    assert_eq!(del.2, bases("TATATA"));
    assert_eq!(ins.2, bases("TATATATATA"));
}

#[test]
fn normalizing_twice_changes_nothing() {
    let mut spdi = SPDI::new(chr1());
    let cases: Vec<(usize, &str, &str)> = vec![
        (141457, "TTA", ""),
        (141458, "", "TAT"),
        (141453, "G", "C"),
        (141450, "CCGT", "CAAT"),
        (4950531, "AAAAATAAAAT", "AAAAATAAAATAAAAT"),
        (500, "ACG", "ACG"),
    ];
    for (pos, r, a) in cases {
        let (p1, r1, a1) = spdi.get_spdi_conversion(b"chr1", pos, &bases(r), &bases(a)).unwrap();
        let again = spdi.get_spdi_conversion(b"chr1", p1, &r1, &a1).unwrap();
        assert_eq!(again, (p1, r1, a1), "variant {}:{}:{}", pos, r, a);
    }
}

#[test]
fn long_perfect_repeat_hits_the_bound() {
    let g = genome(&[("chrA", 3000, vec![(100, format!("G{}G", "AC".repeat(1000)))])]);
    let mut spdi = SPDI::with_max_windows(g, 10);
    match spdi.get_spdi_conversion(b"chrA", 101, &[], &bases("AC")) {
        Err(SpdiError::NoNonRepeat { chrom, search_len, search_start }) => {
            assert_eq!(chrom, b"chrA".to_vec());
            assert_eq!(search_len, 10);
            assert_eq!(search_start, 101 + 11 * 2);
        }
        other => panic!("unexpected {:?}", other),
    }
    let g = genome(&[("chrA", 3000, vec![(100, format!("G{}G", "AC".repeat(1000)))])]);
    let mut spdi = SPDI::new(g);
    let (pos, r, a) = spdi.get_spdi_conversion(b"chrA", 101, &[], &bases("AC")).unwrap();
    assert_eq!(pos, 101);
    assert_eq!(r.len(), 2000);
    assert_eq!(a.len(), 2002);
}

#[test]
fn bound_counts_windows_exactly() {
    // Three whole windows of AC, then a mismatch in the fourth.
    let g = genome(&[("chrB", 100, vec![(10, "ACACACGG".to_string())])]);
    let mut grower = Grower::with_max_windows(g, 3);
    assert_eq!(grower.grow_right(b"chrB", 10, &bases("AC")).unwrap(), (16, bases("ACACAC")));
    let g = genome(&[("chrB", 100, vec![(10, "ACACACGG".to_string())])]);
    let mut grower = Grower::with_max_windows(g, 2);
    match grower.grow_right(b"chrB", 10, &bases("AC")) {
        Err(SpdiError::NoNonRepeat { search_len, search_start, .. }) => {
            assert_eq!((search_len, search_start), (2, 16));
        }
        other => panic!("unexpected {:?}", other),
    }
}

#[test]
fn n_unit_absorbs_to_the_chromosome_end() {
    let g = genome(&[("chrS", 20, vec![(1, "ACGTACGTACGTACGTACGT".to_string())])]);
    let mut grower = Grower::new(g);
    let (end, absorbed) = grower.grow_right(b"chrS", 5, &[Base::N, Base::N]).unwrap();
    assert_eq!(end, 21);
    assert_eq!(absorbed, vec![Base::N; 16]);
}

#[test]
fn same_alleles_keep_first_base() {
    let mut spdi = SPDI::new(chr1());
    assert_eq!(
        spdi.get_spdi_conversion(b"chr1", 500, &bases("ACG"), &bases("ACG")).unwrap(),
        (500, bases("A"), bases("A"))
    );
    assert_eq!(spdi.get_spdi_string(b"chr1", 7, b"GT", b"GT").unwrap(), "chr1:7:G:G");
}

#[test]
fn substitution_is_trimmed_and_shifted() {
    let mut spdi = SPDI::new(chr1());
    assert_eq!(spdi.get_spdi_string(b"chr1", 1000, b"GACG", b"GTTG").unwrap(), "chr1:1001:AC:TT");
    assert_eq!(
        spdi.get_spdi_string_components(b"chr1", 1000, &bases("GACG"), &bases("GTTG")).unwrap(),
        (1001, "AC".to_string(), "TT".to_string())
    );
}

#[test]
fn dot_alternate_stands_for_reference() {
    let mut spdi = SPDI::new(chr1());
    assert_eq!(
        spdi.get_spdi_conversion_str(b"chr1", 141453, b"GT", b".").unwrap(),
        (141453, bases("G"), bases("G"))
    );
    assert_eq!(
        spdi.get_spdi_conversion_str(b"chr1", 141457, b"TTA", b"-").unwrap(),
        (141454, bases("TTATTATTATTATT"), bases("TTATTATTATT"))
    );
    match spdi.get_spdi_conversion_str(b"chr1", 1, b"A", b"Q") {
        Err(SpdiError::InvalidBase { base }) => assert_eq!(base, b'Q'),
        other => panic!("unexpected {:?}", other),
    }
}

#[test]
fn empty_variant_is_refused() {
    let mut spdi = SPDI::new(chr1());
    assert!(matches!(
        spdi.get_spdi_string(b"chr1", 10, b"", b"-"),
        Err(SpdiError::EmptyVariant { pos: 10, .. })
    ));
    assert!(matches!(
        spdi.grower.grow(b"chr1", 10, &[], &[]),
        Err(SpdiError::EmptyVariant { pos: 10, .. })
    ));
}

#[test]
fn grow_refuses_substitution() {
    let mut spdi = SPDI::new(chr1());
    assert!(matches!(
        spdi.grower.grow(b"chr1", 10, &bases("A"), &bases("C")),
        Err(SpdiError::NotIndel { pos: 10, .. })
    ));
}

#[test]
fn invalid_base_comes_before_any_read() {
    let mut spdi = SPDI::new(chr1());
    match spdi.get_spdi_string(b"chr1", 10, b"AZ", b"A") {
        Err(SpdiError::InvalidBase { base }) => assert_eq!(base, b'Z'),
        other => panic!("unexpected {:?}", other),
    }
    match spdi.get_spdi_string(b"chr1", 10, b"A", b"A!") {
        Err(SpdiError::InvalidBase { base }) => assert_eq!(base, b'!'),
        other => panic!("unexpected {:?}", other),
    }
}

#[test]
fn positions_out_of_range() {
    let g = genome(&[("chrX", 10, vec![(1, "ACGTACGTAC".to_string())])]);
    let mut grower = Grower::new(g);
    assert!(matches!(
        grower.grow_right(b"chrX", 0, &bases("A")),
        Err(SpdiError::InvalidPosition { pos: 0, .. })
    ));
    assert!(matches!(
        grower.grow_left(b"chrX", 13, &bases("AAAA")),
        Err(SpdiError::InvalidPosition { pos: 9, .. })
    ));
    assert!(matches!(
        grower.grow_right(b"chrX", usize::MAX - 1, &bases("AAA")),
        Err(SpdiError::InvalidPosition { .. })
    ));
    // Wholly past the end: nothing is read, nothing is absorbed.
    assert_eq!(grower.grow_left(b"chrX", 40, &bases("AC")).unwrap(), (40, vec![]));
}

#[test]
fn repeat_at_chromosome_start_reports_its_first_position() {
    let g = genome(&[("chrS", 30, vec![(1, "TTATTAGCCC".to_string())])]);
    let mut spdi = SPDI::new(g);
    assert_eq!(spdi.get_spdi_string(b"chrS", 4, b"", b"TTA").unwrap(), "chrS:1:TTATTA:TTATTATTA");
}

#[test]
fn unknown_chromosome_does_not_grow() {
    let mut spdi = SPDI::new(chr1());
    assert_eq!(spdi.get_spdi_string(b"chrZ", 100, b"", b"A").unwrap(), "chrZ:100:-:A");
    assert_eq!(spdi.get_spdi_string(b"chrZ", 100, b"CA", b"C").unwrap(), "chrZ:101:A:-");
}

#[test]
fn truncated_buffer_is_refused() {
    let mut bytes = two_bit(&[("chrT", 4000, vec![(1, "ACGT".repeat(1000))])]);
    bytes.truncate(bytes.len() - 900);
    assert!(matches!(Genome::from_buf(bytes), Err(SpdiError::MalformedGenome)));
}

#[test]
fn unsorted_unknown_blocks_are_refused() {
    // One record whose two blocks of unknown bases, 10..20 and 0..5, are out of order.
    let mut bytes = Vec::new();
    for v in [0x1A41_2743u32, 0, 1, 0] {
        bytes.extend_from_slice(&v.to_be_bytes());
    }
    bytes.push(4);
    bytes.extend_from_slice(b"chrU");
    bytes.extend_from_slice(&25u32.to_be_bytes());
    for v in [30u32, 2, 10, 0, 10, 5, 0, 0] {
        bytes.extend_from_slice(&v.to_be_bytes());
    }
    bytes.extend_from_slice(&[0u8; 8]);
    assert!(matches!(Genome::from_buf(bytes.clone()), Err(SpdiError::MalformedGenome)));
    // The same record with its blocks in order is accepted.
    let at = 25 + 8;
    bytes[at..at + 4].copy_from_slice(&0u32.to_be_bytes());
    bytes[at + 4..at + 8].copy_from_slice(&10u32.to_be_bytes());
    bytes[at + 8..at + 12].copy_from_slice(&5u32.to_be_bytes());
    bytes[at + 12..at + 16].copy_from_slice(&10u32.to_be_bytes());
    assert!(Genome::from_buf(bytes).is_ok());
}

#[test]
fn overflowing_block_is_refused() {
    let mut bytes = Vec::new();
    for v in [0x1A41_2743u32, 0, 1, 0] {
        bytes.extend_from_slice(&v.to_be_bytes());
    }
    bytes.push(4);
    bytes.extend_from_slice(b"chrO");
    bytes.extend_from_slice(&25u32.to_be_bytes());
    for v in [8u32, 1, 0xFFFF_FFF0, 0x20, 0, 0] {
        bytes.extend_from_slice(&v.to_be_bytes());
    }
    bytes.extend_from_slice(&[0u8; 2]);
    assert!(matches!(Genome::from_buf(bytes), Err(SpdiError::MalformedGenome)));
}

#[test]
fn malformed_buffer_is_refused() {
    assert!(matches!(
        Genome::from_buf(vec![1, 2, 3, 4, 5, 6, 7, 8]),
        Err(SpdiError::MalformedGenome)
    ));
    // Fields stored least significant byte first are read as such.
    let mut le = Vec::new();
    for v in [0x1A41_2743u32, 0, 1, 0] {
        le.extend_from_slice(&v.to_le_bytes());
    }
    le.push(4);
    le.extend_from_slice(b"chrL");
    le.extend_from_slice(&25u32.to_le_bytes());
    for v in [4u32, 0, 0, 0] {
        le.extend_from_slice(&v.to_le_bytes());
    }
    le.push(0b1001_1110);
    let mut grower = Grower::new(Genome::from_buf(le).unwrap());
    assert_eq!(grower.grow_right(b"chrL", 1, &bases("AC")).unwrap(), (3, bases("AC")));
}
