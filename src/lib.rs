//! Canonical (SPDI) form of genomic variants: the shared flanks of the two
//! alleles are trimmed, and a pure insertion or deletion is rolled across the
//! tandem repeat around it, as read from a two-bit genome.
pub mod error;
pub mod genome;
pub mod grow;
pub mod layout;
pub mod periodic;
pub mod trim;
pub mod util;
pub mod vcf;

pub use error::SpdiError;
pub use genome::Genome;
pub use grow::Grower;
pub use util::Base;

use vstd::prelude::*;
use vstd::slice::slice_to_vec;
use vstd::string::StringExecFns;
use vstd::utf8::{decode_utf8, valid_utf8};

use genome::{buffer_of, sequences_of, window_of};
use layout::tables_ok;
use grow::{chrom_name, chrom_of, indel_growth, reports_failure, reports_variant, GrowthFailure};
use trim::{trim_left, trim_left_spec, trim_right, trim_right_spec};
use util::{base_matches, get_bases_of_vu8, get_string_of_bases, parse_bases, render_bases};

verus! {

/// The canonical form of the variant `r` > `a` at the 1-based position `pos`
/// on the chromosome `s`: the position, reference allele and alternate allele.
/// The shared suffix and then the shared prefix are trimmed; a variant that
/// changes nothing keeps its first reference base on both sides at `pos`; a
/// substitution is returned trimmed, at the position of its first kept base;
/// an insertion or deletion is grown from there.
pub open spec fn normalized(s: Seq<char>, pos: int, r: Seq<Base>, a: Seq<Base>, max: nat) -> Result<
    (int, Seq<Base>, Seq<Base>),
    GrowthFailure,
> {
    let (re, ae) = trim_right_spec(r, a, 0, r.len() as int, 0, a.len() as int);
    let (rs, as_) = trim_left_spec(r, a, 0, re, 0, ae);
    let sr = r.subrange(rs, re);
    let sa = a.subrange(as_, ae);
    if r.len() == 0 && a.len() == 0 {
        Err(GrowthFailure::Empty)
    } else if sr.len() == 0 && sa.len() == 0 {
        Ok((pos, r.take(1), r.take(1)))
    } else if pos + rs > usize::MAX {
        Err(GrowthFailure::OutOfRange { pos })
    } else if sr.len() > 0 && sa.len() > 0 {
        Ok((pos + rs, sr, sa))
    } else {
        indel_growth(s, pos + rs, sr, sa, max)
    }
}

/// Whether trimming leaves the variant where it is: both trimmed alleles are
/// empty (it changes nothing) or both have bases (a substitution).
pub open spec fn stays_in_place(r: Seq<Base>, a: Seq<Base>) -> bool {
    let (re, ae) = trim_right_spec(r, a, 0, r.len() as int, 0, a.len() as int);
    let (rs, as_) = trim_left_spec(r, a, 0, re, 0, ae);
    (re - rs == 0) == (ae - as_ == 0)
}

/// Idempotence for variants that are not rolled: the canonical form of a
/// variant that changes nothing, or of a substitution, is its own canonical form.
pub proof fn lemma_normalize_idempotent_in_place(
    s: Seq<char>,
    pos: int,
    r: Seq<Base>,
    a: Seq<Base>,
    max: nat,
)
    requires
        normalized(s, pos, r, a, max) is Ok,
        stays_in_place(r, a),
    ensures
        ({
            let (p, r1, a1) = normalized(s, pos, r, a, max)->Ok_0;
            normalized(s, p, r1, a1, max) == Ok::<(int, Seq<Base>, Seq<Base>), GrowthFailure>(
                (p, r1, a1),
            )
        }),
{
    let (p, r1, a1) = normalized(s, pos, r, a, max)->Ok_0;
    trim::lemma_trim_is_parsimonious(r, a);
    assert(r1.subrange(0, r1.len() as int) == r1);
    assert(a1.subrange(0, a1.len() as int) == a1);
    if r1.len() > 0 && a1.len() > 0 && r1.len() == 1 && r1 == a1 && r.len() > 0 && r1 == r.take(
        1,
    ) {
        let e: Seq<Base> = seq![];
        assert(r1.drop_last() =~= e);
        assert(trim::common_suffix_len(r1, a1) == 1 + trim::common_suffix_len(e, e));
        assert(r1.subrange(0, 0) =~= e);
        assert(r1.take(1) == r1);
    }
}

/// Growing again the first unit of a rolled insertion's alternate allele, as
/// an insertion at its boundary, gives back the same alleles.
#[verifier::rlimit(50)]
#[verifier::spinoff_prover]
proof fn lemma_regrow_insertion(
    s: Seq<char>,
    unit: Seq<Base>,
    pos: int,
    max: nat,
    l: Seq<Base>,
    r: Seq<Base>,
)
    requires
        unit.len() > 0,
        r == periodic::periodic(unit, r.len()),
        pos - 1 + r.len() < s.len(),
        forall|i: int|
            0 <= i < r.len() ==> base_matches(
                #[trigger] unit[i % (unit.len() as int)],
                s[pos - 1 + i],
            ),
        !base_matches(unit[(r.len() as int) % (unit.len() as int)], s[pos - 1 + r.len()]),
        0 <= pos - 2 - l.len(),
        pos - 2 < s.len(),
        forall|i: int|
            0 <= i < l.len() ==> base_matches(
                #[trigger] unit[unit.len() - 1 - (i % (unit.len() as int))],
                s[pos - 2 - i],
            ) && l[l.len() - 1 - i] == unit[unit.len() - 1 - (i % (unit.len() as int))],
        !base_matches(
            unit[unit.len() - 1 - ((l.len() as int) % (unit.len() as int))],
            s[pos - 2 - l.len()],
        ),
        l.len() + r.len() < (max + 1) * unit.len(),
        pos + r.len() + unit.len() <= usize::MAX,
    ensures
        grow::indel_growth(s, pos - l.len(), seq![], (l + unit + r).take(unit.len() as int), max)
            == Ok::<(int, Seq<Base>, Seq<Base>), GrowthFailure>(
            (pos - l.len(), l + r, l + unit + r),
        ),
{
    let n = unit.len() as int;
    let e: Seq<Base> = seq![];
    let a = l.len() as int;
    let b = pos - a;
    let x = l + r;
    let y = l + unit + r;
    assert forall|j: int| 0 <= j < a implies #[trigger] l[j] == unit[n - 1 - ((a - 1 - j) % n)] by {
        let i = a - 1 - j;
        assert(l[a - 1 - i] == unit[n - 1 - (i % n)]);
    }
    periodic::lemma_rolled_insertion_alleles(unit, l, r);
    let u2 = y.take(n);
    periodic::lemma_window_index(x.len() as int, n);
    let w = x.len() as int / n;
    assert(w <= max) by (nonlinear_arith)
        requires
            w * n <= x.len(),
            x.len() < (max + 1) * n,
            n > 0,
    ;
    assert(b + (w + 1) * n <= usize::MAX) by (nonlinear_arith)
        requires
            w * n <= x.len(),
            b + x.len() + n <= usize::MAX,
    ;
    assert forall|i: int| 0 <= i < x.len() implies base_matches(
        #[trigger] u2[i % n],
        s[b - 1 + i],
    ) by {
        assert(x[i] == u2[i % n]);
        if i < a {
            let i2 = a - 1 - i;
            assert(base_matches(unit[n - 1 - (i2 % n)], s[pos - 2 - i2]));
            assert(l[a - 1 - i2] == unit[n - 1 - (i2 % n)]);
        } else {
            assert(x[i] == r[i - a]);
            assert(base_matches(unit[(i - a) % n], s[pos - 1 + (i - a)]));
        }
    }
    periodic::lemma_right_scan_from_agreement(s, u2, b, b, 0, max, x.len(), w as nat);
    assert(periodic::periodic(u2, x.len()) =~= x);
    let probe_start = if b <= n {
        1
    } else {
        b - n
    };
    let frag = window_of(s, probe_start - 1, b - 1);
    assert(frag.last() == s[b - 2]);
    assert(u2.last() == y[n - 1]);
    assert(grow::agree_back_len(u2, frag) == 0);
    assert(u2.subrange(n, n) =~= e);
    assert(grow::left_scan(s, u2, b) == Ok::<(int, Seq<Base>), GrowthFailure>((b, e)));
    assert(e + e + x =~= x);
    assert(e + u2 + x =~= y) by {
        assert forall|i: int| 0 <= i < y.len() implies #[trigger] (e + u2 + x)[i] == y[i] by {
            if i >= n {
                assert(x[i - n] == y[i - n + n]);
            }
        }
    }
}

/// Idempotence for rolled insertions: the canonical form of inserting the
/// unit at `pos` is its own canonical form, when its growth meets a letter
/// that breaks the repeat on each side, and growing its reference allele again
/// from the new position stays within the bound and below the largest position.
#[verifier::rlimit(50)]
#[verifier::spinoff_prover]
pub proof fn lemma_normalize_idempotent_insertion(s: Seq<char>, unit: Seq<Base>, pos: int, max: nat)
    requires
        unit.len() > 0,
        pos >= 1,
        periodic::right_scan_hits(s, unit, pos, 0, max),
        grow::left_scan_hits(s, unit, pos),
        normalized(s, pos, seq![], unit, max) is Ok,
        normalized(s, pos, seq![], unit, max)->Ok_0.1.len() < (max + 1) * unit.len(),
        normalized(s, pos, seq![], unit, max)->Ok_0.0 + normalized(
            s,
            pos,
            seq![],
            unit,
            max,
        )->Ok_0.1.len() + unit.len() <= usize::MAX,
    ensures
        ({
            let (b, x, y) = normalized(s, pos, seq![], unit, max)->Ok_0;
            normalized(s, b, x, y, max) == Ok::<(int, Seq<Base>, Seq<Base>), GrowthFailure>(
                (b, x, y),
            )
        }),
{
    let n = unit.len() as int;
    let e: Seq<Base> = seq![];
    assert(unit.subrange(0, n) == unit);
    assert(unit.subrange(0, 0) =~= e);
    assert(e.subrange(0, 0) == e);
    periodic::lemma_right_scan_closed(s, unit, pos, pos, 0, max);
    let r = grow::right_scan(s, unit, pos, pos, 0, max)->Ok_0.1;
    periodic::lemma_left_scan_closed(s, unit, pos);
    let (b, l) = grow::left_scan(s, unit, pos)->Ok_0;
    let x = l + r;
    let y = l + unit + r;
    assert(l + e + r =~= x);
    assert(normalized(s, pos, e, unit, max) == Ok::<(int, Seq<Base>, Seq<Base>), GrowthFailure>(
        (b, x, y),
    ));
    // Trimming the canonical alleles leaves the inserted unit as the canonical
    // alternate allele shows it first.
    let a = l.len() as int;
    assert forall|j: int| 0 <= j < a implies #[trigger] l[j] == unit[n - 1 - ((a - 1 - j) % n)] by {
        let i = a - 1 - j;
        assert(l[a - 1 - i] == unit[n - 1 - (i % n)]);
    }
    periodic::lemma_rolled_insertion_alleles(unit, l, r);
    let u2 = y.take(n);
    assert forall|i: int| x.len() - x.len() <= i < x.len() implies #[trigger] x[i] == y[i + y.len()
        - x.len()] by {}
    trim::lemma_common_suffix_len(x, y, x.len() as int);
    assert(x.subrange(0, x.len() as int) == x);
    assert(y.subrange(0, y.len() as int) == y);
    assert(x.subrange(0, 0) =~= e);
    assert(y.subrange(0, n) == u2);
    assert(normalized(s, b, x, y, max) == grow::indel_growth(s, b, e, u2, max));
    lemma_regrow_insertion(s, unit, pos, max, l, r);
}

/// Idempotence for rolled deletions: the canonical form of deleting the unit
/// that the genome holds at `pos` is its own canonical form, when its growth
/// meets a letter that breaks the repeat on each side, and growing its
/// alternate allele again from the new position stays within the bound and
/// below the largest position.
#[verifier::rlimit(80)]
#[verifier::spinoff_prover]
pub proof fn lemma_normalize_idempotent_deletion(s: Seq<char>, unit: Seq<Base>, pos: int, max: nat)
    requires
        unit.len() > 0,
        pos >= 1,
        pos - 1 + unit.len() <= s.len(),
        s.subrange(pos - 1, pos - 1 + unit.len()) == grow::letters(unit),
        periodic::right_scan_hits(s, unit, pos + unit.len(), 0, max),
        grow::left_scan_hits(s, unit, pos),
        normalized(s, pos, unit, seq![], max) is Ok,
        normalized(s, pos, unit, seq![], max)->Ok_0.2.len() < (max + 1) * unit.len(),
        normalized(s, pos, unit, seq![], max)->Ok_0.0 + normalized(
            s,
            pos,
            unit,
            seq![],
            max,
        )->Ok_0.1.len() + unit.len() <= usize::MAX,
    ensures
        ({
            let (b, x, y) = normalized(s, pos, unit, seq![], max)->Ok_0;
            normalized(s, b, x, y, max) == Ok::<(int, Seq<Base>, Seq<Base>), GrowthFailure>(
                (b, x, y),
            )
        }),
{
    let n = unit.len() as int;
    let e: Seq<Base> = seq![];
    assert(unit.subrange(0, n) == unit);
    assert(unit.subrange(0, 0) =~= e);
    assert(e.subrange(0, 0) == e);
    periodic::lemma_right_scan_closed(s, unit, pos + n, pos + n, 0, max);
    let r = grow::right_scan(s, unit, pos + n, pos + n, 0, max)->Ok_0.1;
    periodic::lemma_left_scan_closed(s, unit, pos);
    let (b, l) = grow::left_scan(s, unit, pos)->Ok_0;
    let a = l.len() as int;
    let x = l + unit + r;
    let y = l + r;
    assert(l + e + r =~= y);
    assert(normalized(s, pos, unit, e, max) == Ok::<(int, Seq<Base>, Seq<Base>), GrowthFailure>(
        (b, x, y),
    ));
    assert forall|j: int| 0 <= j < a implies #[trigger] l[j] == unit[n - 1 - ((a - 1 - j) % n)] by {
        let i = a - 1 - j;
        assert(l[a - 1 - i] == unit[n - 1 - (i % n)]);
    }
    periodic::lemma_rolled_insertion_alleles(unit, l, r);
    let u2 = x.take(n);
    // Trimming the canonical alleles leaves the deleted unit as the canonical
    // reference allele shows it first.
    assert forall|i: int| x.len() - y.len() <= i < x.len() implies #[trigger] x[i] == y[i + y.len()
        - x.len()] by {
        assert(y[i - n] == x[i - n + n]);
    }
    trim::lemma_common_suffix_len(x, y, y.len() as int);
    assert(x.subrange(0, x.len() as int) == x);
    assert(y.subrange(0, y.len() as int) == y);
    assert(y.subrange(0, 0) =~= e);
    assert(x.subrange(0, n) == u2);
    assert(normalized(s, b, x, y, max) == grow::indel_growth(s, b, u2, e, max));
    // Growing that unit rightward from past it absorbs the canonical alternate allele again.
    periodic::lemma_window_index(y.len() as int, n);
    let w = y.len() as int / n;
    assert(w <= max) by (nonlinear_arith)
        requires
            w * n <= y.len(),
            y.len() < (max + 1) * n,
            n > 0,
    ;
    assert(b + n + (w + 1) * n <= usize::MAX) by (nonlinear_arith)
        requires
            w * n <= y.len(),
            b + x.len() + n <= usize::MAX,
            x.len() == y.len() + n,
    ;
    assert forall|i: int| 0 <= i < y.len() implies base_matches(
        #[trigger] u2[i % n],
        s[b + n - 1 + i],
    ) by {
        assert(y[i] == u2[i % n]);
        assert(y[i] == x[i + n]);
        let j = i + n;
        if j < a {
            let i2 = a - 1 - j;
            assert(base_matches(unit[n - 1 - (i2 % n)], s[pos - 2 - i2]));
            assert(l[a - 1 - i2] == unit[n - 1 - (i2 % n)]);
        } else if j < a + n {
            assert(x[j] == unit[j - a]);
            assert(s[pos - 1 + (j - a)] == grow::letters(unit)[j - a]);
        } else {
            assert(x[j] == r[j - a - n]);
            assert(base_matches(unit[(j - a - n) % n], s[pos + n - 1 + (j - a - n)]));
        }
    }
    periodic::lemma_right_scan_from_agreement(s, u2, b + n, b + n, 0, max, y.len(), w as nat);
    assert(periodic::periodic(u2, y.len()) =~= y);
    // Growing it leftward meets the breaking letter at once.
    let probe_start = if b <= n {
        1
    } else {
        b - n
    };
    let frag = window_of(s, probe_start - 1, b - 1);
    assert(frag.last() == s[b - 2]);
    assert(u2.last() == x[n - 1]);
    assert(grow::agree_back_len(u2, frag) == 0);
    assert(u2.subrange(n, n) =~= e);
    assert(grow::left_growth(s, u2, b) == Ok::<(int, Seq<Base>), GrowthFailure>((b, e)));
    assert(e + e + y =~= y);
    assert(e + u2 + y =~= x) by {
        assert forall|i: int| 0 <= i < x.len() implies #[trigger] (e + u2 + y)[i] == x[i] by {
            if i >= n {
                assert(y[i - n] == x[i - n + n]);
            }
        }
    }
}

/// Repeat-insertion canonicalization: inserting the unit at `pos`, where the
/// genome holds that unit, or one unit further right, has the same canonical
/// form, as long as the insertion at `pos` grows to the right without failing
/// and is at least one unit from the chromosome's start.
pub proof fn lemma_insertions_one_unit_apart_agree(
    s: Seq<char>,
    unit: Seq<Base>,
    pos: int,
    max: nat,
)
    requires
        unit.len() > 0,
        pos > unit.len(),
        pos - 1 + unit.len() <= s.len(),
        s.subrange(pos - 1, pos - 1 + unit.len()) == grow::letters(unit),
        grow::right_growth(s, unit, pos, max) is Ok,
    ensures
        normalized(s, pos, seq![], unit, max) == normalized(s, pos + unit.len(), seq![], unit, max),
{
    let e: Seq<Base> = seq![];
    assert(unit.subrange(0, unit.len() as int) == unit);
    assert(e.subrange(0, 0) == e);
    assert(unit.subrange(0, 0) =~= e);
    grow::lemma_insertion_shift_by_unit(s, unit, pos, max);
}

/// Repeat-insertion canonicalization along a run: where the genome repeats
/// the unit `j` times from `pos`, inserting the unit at `pos` or at any whole
/// number of units further right, up to the run's end, has the same canonical
/// form, as long as the insertion at `pos` grows to the right without failing
/// and is at least one unit from the chromosome's start.
pub proof fn lemma_insertions_along_run_agree(
    s: Seq<char>,
    unit: Seq<Base>,
    pos: int,
    j: nat,
    max: nat,
)
    requires
        unit.len() > 0,
        pos > unit.len(),
        pos - 1 + j * unit.len() <= s.len(),
        s.subrange(pos - 1, pos - 1 + j * unit.len()) == grow::repeat_letters(unit, j),
        grow::right_growth(s, unit, pos, max) is Ok,
    ensures
        forall|i: nat|
            i <= j ==> normalized(s, pos, seq![], unit, max) == #[trigger] normalized(
                s,
                pos + i * unit.len(),
                seq![],
                unit,
                max,
            ),
    decreases j,
{
    let n = unit.len() as int;
    assert forall|i: nat| i <= j implies normalized(s, pos, seq![], unit, max) == #[trigger] normalized(
        s,
        pos + i * unit.len(),
        seq![],
        unit,
        max,
    ) by {
        if i == 0 {
            assert(i * n == 0) by (nonlinear_arith)
                requires
                    i == 0,
            ;
        } else {
            let j1 = (j - 1) as nat;
            let i1 = (i - 1) as nat;
            assert(j * n == n + j1 * n) by (nonlinear_arith)
                requires
                    j1 == j - 1,
            ;
            assert(i * n == n + i1 * n) by (nonlinear_arith)
                requires
                    i1 == i - 1,
            ;
            assert(j1 * n >= 0) by (nonlinear_arith)
                requires
                    n > 0,
            ;
            let run = grow::repeat_letters(unit, j);
            assert(run == grow::letters(unit) + grow::repeat_letters(unit, j1));
            assert(grow::letters(unit).len() == n);
            assert(s.subrange(pos - 1, pos - 1 + n) =~= run.subrange(0, n));
            assert(s.subrange(pos - 1 + n, pos - 1 + n + j1 * n) =~= run.subrange(n, n + j1 * n));
            assert(run.subrange(0, n) =~= grow::letters(unit));
            assert(run.subrange(n, n + j1 * n) =~= grow::repeat_letters(unit, j1));
            lemma_insertions_one_unit_apart_agree(s, unit, pos, max);
            grow::lemma_insertion_premises_shift(s, unit, pos, max);
            lemma_insertions_along_run_agree(s, unit, pos + n, j1, max);
            assert(normalized(s, pos + n, seq![], unit, max) == normalized(
                s,
                pos + n + i1 * unit.len(),
                seq![],
                unit,
                max,
            ));
            assert(pos + n + i1 * unit.len() == pos + i * unit.len());
        }
    }
}

/// Bound enforcement at the entry point: inserting the unit where the
/// chromosome repeats it perfectly over more windows than the bound allows
/// fails with the repeat being too long.
pub proof fn lemma_insertion_in_long_repeat_refused(
    s: Seq<char>,
    unit: Seq<Base>,
    pos: int,
    max: nat,
)
    requires
        unit.len() > 0,
        pos >= 1,
        pos + (max + 1) * unit.len() <= usize::MAX,
        pos - 1 + (max + 1) * unit.len() <= s.len(),
        s.subrange(pos - 1, pos - 1 + (max + 1) * unit.len()) == grow::repeat_letters(
            unit,
            max + 1,
        ),
    ensures
        normalized(s, pos, seq![], unit, max) == Err::<(int, Seq<Base>, Seq<Base>), GrowthFailure>(
            GrowthFailure::RepeatTooLong { search_start: pos + (max + 1) * unit.len() },
        ),
{
    let e: Seq<Base> = seq![];
    assert(unit.subrange(0, unit.len() as int) == unit);
    assert(unit.subrange(0, 0) =~= e);
    grow::lemma_perfect_repeat_hits_bound(s, unit, pos, max);
}

/// The decimal digit `d` as a letter.
pub open spec fn digit_char(d: int) -> char {
    seq!['0', '1', '2', '3', '4', '5', '6', '7', '8', '9'][d]
}

/// The decimal text of `n`, without leading zeros.
pub open spec fn decimal(n: nat) -> Seq<char>
    decreases n,
{
    if n < 10 {
        seq![digit_char(n as int)]
    } else {
        decimal(n / 10).push(digit_char((n % 10) as int))
    }
}

/// The SPDI text `chrom:pos:ref:alt`.
pub open spec fn spdi_text(chrom: Seq<char>, pos: nat, r: Seq<Base>, a: Seq<Base>) -> Seq<char> {
    chrom + seq![':'] + decimal(pos) + seq![':'] + render_bases(r) + seq![':'] + render_bases(a)
}

/// Whether `r` is what the text form of a conversion reports when the
/// model gives `expected`: the position and the rendered alleles,
/// or the matching error.
pub open spec fn reports_components(
    r: Result<(usize, String, String), SpdiError>,
    chrom: Seq<u8>,
    max: usize,
    expected: Result<(int, Seq<Base>, Seq<Base>), GrowthFailure>,
) -> bool {
    match r {
        Ok((p, x, y)) => expected is Ok && p == expected->Ok_0.0 && x@ == render_bases(
            expected->Ok_0.1,
        ) && y@ == render_bases(expected->Ok_0.2),
        Err(e) => expected is Err && reports_failure(e, chrom, max, expected->Err_0),
    }
}

/// Whether `r` is what `get_spdi_string` reports when the model
/// expects `expected` (see `reports_components`).
pub open spec fn reports_text(
    r: Result<String, SpdiError>,
    chrom: Seq<u8>,
    max: usize,
    expected: Result<(int, Seq<Base>, Seq<Base>), GrowthFailure>,
) -> bool {
    match r {
        Ok(t) => expected is Ok && expected->Ok_0.0 >= 0 && t@ == spdi_text(
            decode_utf8(chrom),
            expected->Ok_0.0 as nat,
            expected->Ok_0.1,
            expected->Ok_0.2,
        ),
        Err(e) => expected is Err && reports_failure(e, chrom, max, expected->Err_0),
    }
}

/// The text of one decimal digit.
fn digit_text(d: usize) -> (r: &'static str)
    requires
        d < 10,
    ensures
        r@ == seq![digit_char(d as int)],
{
    proof {
        reveal_strlit("0");
        reveal_strlit("1");
        reveal_strlit("2");
        reveal_strlit("3");
        reveal_strlit("4");
        reveal_strlit("5");
        reveal_strlit("6");
        reveal_strlit("7");
        reveal_strlit("8");
        reveal_strlit("9");
    }
    match d {
        0 => "0",
        1 => "1",
        2 => "2",
        3 => "3",
        4 => "4",
        5 => "5",
        6 => "6",
        7 => "7",
        8 => "8",
        _ => "9",
    }
}

/// Appends the decimal text of `n` to `s`.
fn push_decimal(s: &mut String, n: usize)
    ensures
        final(s)@ == old(s)@ + decimal(n as nat),
    decreases n,
{
    if n >= 10 {
        push_decimal(s, n / 10);
    }
    s.append(digit_text(n % 10));
    assert(s@ =~= old(s)@ + decimal(n as nat));
}

/// Converts variants to their canonical SPDI form against one reference genome.
pub struct SPDI {
    /// The grower that probes the genome.
    pub grower: Grower,
}

impl SPDI {
    /// A converter over `genome`, with the default bound on probe windows.
    pub fn new(genome: Genome) -> (r: SPDI)
        ensures
            sequences_of(r.grower.genome) == sequences_of(genome),
            buffer_of(r.grower.genome) == buffer_of(genome),
            r.grower.max_windows == grow::GROW_RIGHT_MAX,
    {
        SPDI { grower: Grower::new(genome) }
    }

    /// A converter over `genome` whose rightward growth absorbs at most
    /// `max_windows` probe windows.
    pub fn with_max_windows(genome: Genome, max_windows: usize) -> (r: SPDI)
        ensures
            sequences_of(r.grower.genome) == sequences_of(genome),
            buffer_of(r.grower.genome) == buffer_of(genome),
            r.grower.max_windows == max_windows,
    {
        SPDI { grower: Grower::with_max_windows(genome, max_windows) }
    }

    /// The canonical position, reference allele and alternate allele of the
    /// variant `ref_bases` > `alt_bases` at the 1-based position `pos`.
    pub fn get_spdi_conversion(
        &mut self,
        chrom: &[u8],
        pos: usize,
        ref_bases: &[Base],
        alt_bases: &[Base],
    ) -> (r: Result<(usize, Vec<Base>, Vec<Base>), SpdiError>)
        requires
            tables_ok(buffer_of(old(self).grower.genome)),
        ensures
            sequences_of(final(self).grower.genome) == sequences_of(old(self).grower.genome),
            buffer_of(final(self).grower.genome) == buffer_of(old(self).grower.genome),
            final(self).grower.max_windows == old(self).grower.max_windows,
            reports_variant(
                r,
                chrom@,
                old(self).grower.max_windows,
                normalized(
                    chrom_of(old(self).grower.genome, chrom@),
                    pos as int,
                    ref_bases@,
                    alt_bases@,
                    old(self).grower.max_windows as nat,
                ),
            ),
    {
        let ref_len = ref_bases.len();
        let alt_len = alt_bases.len();
        if ref_len == 0 && alt_len == 0 {
            return Err(
                SpdiError::EmptyVariant {
                    chrom: slice_to_vec(chrom),
                    pos,
                    ref_base: Vec::new(),
                    alt_base: Vec::new(),
                },
            );
        }
        let (new_ref_end, new_alt_end) = trim_right(ref_bases, alt_bases, 0, ref_len, 0, alt_len);
        let (new_ref_start, new_alt_start) = trim_left(
            ref_bases,
            alt_bases,
            0,
            new_ref_end,
            0,
            new_alt_end,
        );
        let shrunk_ref = slice_to_vec(&ref_bases[new_ref_start..new_ref_end]);
        let shrunk_alt = slice_to_vec(&alt_bases[new_alt_start..new_alt_end]);
        assert(shrunk_ref@ == ref_bases@.subrange(new_ref_start as int, new_ref_end as int));
        assert(shrunk_alt@ == alt_bases@.subrange(new_alt_start as int, new_alt_end as int));
        if shrunk_ref.len() == 0 && shrunk_alt.len() == 0 {
            let base = slice_to_vec(&ref_bases[0..1]);
            assert(base@ == ref_bases@.take(1));
            return Ok((pos, base.clone(), base));
        }
        if new_ref_start > usize::MAX - pos {
            return Err(SpdiError::InvalidPosition { chrom: slice_to_vec(chrom), pos });
        }
        let shrunk_pos = pos + new_ref_start;
        if shrunk_ref.len() > 0 && shrunk_alt.len() > 0 {
            return Ok((shrunk_pos, shrunk_ref, shrunk_alt));
        }
        self.grower.grow(chrom, shrunk_pos, shrunk_ref.as_slice(), shrunk_alt.as_slice())
    }

    /// Parses both alleles' text and converts the variant; an alternate allele
    /// that starts with '.' stands for the reference allele.
    pub fn get_spdi_conversion_str(
        &mut self,
        chrom: &[u8],
        pos: usize,
        ref_bases: &[u8],
        alt_bases: &[u8],
    ) -> (r: Result<(usize, Vec<Base>, Vec<Base>), SpdiError>)
        requires
            tables_ok(buffer_of(old(self).grower.genome)),
        ensures
            sequences_of(final(self).grower.genome) == sequences_of(old(self).grower.genome),
            buffer_of(final(self).grower.genome) == buffer_of(old(self).grower.genome),
            final(self).grower.max_windows == old(self).grower.max_windows,
            ({
                let alt_text = if alt_bases@.len() > 0 && alt_bases@[0] == 46 {
                    ref_bases@
                } else {
                    alt_bases@
                };
                match (parse_bases(ref_bases@), parse_bases(alt_text)) {
                    (Err(c), _) => r matches Err(SpdiError::InvalidBase { base }) && base == c,
                    (Ok(_), Err(c)) => r matches Err(SpdiError::InvalidBase { base }) && base == c,
                    (Ok(rb), Ok(ab)) => reports_variant(
                        r,
                        chrom@,
                        old(self).grower.max_windows,
                        normalized(
                            chrom_of(old(self).grower.genome, chrom@),
                            pos as int,
                            rb,
                            ab,
                            old(self).grower.max_windows as nat,
                        ),
                    ),
                }
            }),
    {
        let ref_bases_v = match get_bases_of_vu8(ref_bases) {
            Ok(v) => v,
            Err(e) => {
                return Err(e);
            },
        };
        let alt_text: &[u8] = if alt_bases.len() > 0 && alt_bases[0] == 46 {
            ref_bases
        } else {
            alt_bases
        };
        let alt_bases_v = match get_bases_of_vu8(alt_text) {
            Ok(v) => v,
            Err(e) => {
                return Err(e);
            },
        };
        self.get_spdi_conversion(chrom, pos, ref_bases_v.as_slice(), alt_bases_v.as_slice())
    }

    /// The canonical position and the text of both canonical alleles.
    pub fn get_spdi_string_components(
        &mut self,
        chrom: &[u8],
        pos: usize,
        ref_bases: &[Base],
        alt_bases: &[Base],
    ) -> (r: Result<(usize, String, String), SpdiError>)
        requires
            tables_ok(buffer_of(old(self).grower.genome)),
        ensures
            sequences_of(final(self).grower.genome) == sequences_of(old(self).grower.genome),
            buffer_of(final(self).grower.genome) == buffer_of(old(self).grower.genome),
            final(self).grower.max_windows == old(self).grower.max_windows,
            reports_components(
                r,
                chrom@,
                old(self).grower.max_windows,
                normalized(
                    chrom_of(old(self).grower.genome, chrom@),
                    pos as int,
                    ref_bases@,
                    alt_bases@,
                    old(self).grower.max_windows as nat,
                ),
            ),
    {
        let (new_pos, new_ref, new_alt) = match self.get_spdi_conversion(
            chrom,
            pos,
            ref_bases,
            alt_bases,
        ) {
            Ok(v) => v,
            Err(e) => {
                return Err(e);
            },
        };
        let new_ref_s = get_string_of_bases(new_ref.as_slice());
        let new_alt_s = get_string_of_bases(new_alt.as_slice());
        Ok((new_pos, new_ref_s, new_alt_s))
    }

    /// The SPDI text `chrom:pos:ref:alt` of the variant whose alleles are given as text.
    pub fn get_spdi_string(
        &mut self,
        chrom: &[u8],
        pos: usize,
        ref_bases_s: &[u8],
        alt_bases_s: &[u8],
    ) -> (r: Result<String, SpdiError>)
        requires
            tables_ok(buffer_of(old(self).grower.genome)),
            valid_utf8(chrom@),
        ensures
            sequences_of(final(self).grower.genome) == sequences_of(old(self).grower.genome),
            buffer_of(final(self).grower.genome) == buffer_of(old(self).grower.genome),
            final(self).grower.max_windows == old(self).grower.max_windows,
            match (parse_bases(ref_bases_s@), parse_bases(alt_bases_s@)) {
                (Err(c), _) => r matches Err(SpdiError::InvalidBase { base }) && base == c,
                (Ok(_), Err(c)) => r matches Err(SpdiError::InvalidBase { base }) && base == c,
                (Ok(rb), Ok(ab)) => reports_text(
                    r,
                    chrom@,
                    old(self).grower.max_windows,
                    normalized(
                        chrom_of(old(self).grower.genome, chrom@),
                        pos as int,
                        rb,
                        ab,
                        old(self).grower.max_windows as nat,
                    ),
                ),
            },
    {
        let ref_bases = match get_bases_of_vu8(ref_bases_s) {
            Ok(v) => v,
            Err(e) => {
                return Err(e);
            },
        };
        let alt_bases = match get_bases_of_vu8(alt_bases_s) {
            Ok(v) => v,
            Err(e) => {
                return Err(e);
            },
        };
        let (new_pos, new_ref_s, new_alt_s) = match self.get_spdi_string_components(
            chrom,
            pos,
            ref_bases.as_slice(),
            alt_bases.as_slice(),
        ) {
            Ok(v) => v,
            Err(e) => {
                return Err(e);
            },
        };
        proof {
            reveal_strlit(":");
        }
        let name = match chrom_name(chrom) {
            Some(n) => n,
            None => {
                assert(false);
                ""
            },
        };
        let mut out = String::from_str(name);
        out.append(":");
        push_decimal(&mut out, new_pos);
        out.append(":");
        out.append(new_ref_s.as_str());
        out.append(":");
        out.append(new_alt_s.as_str());
        assert(out@ =~= decode_utf8(chrom@) + seq![':'] + decimal(new_pos as nat) + seq![':']
            + new_ref_s@ + seq![':'] + new_alt_s@);
        Ok(out)
    }
}

} // verus!
