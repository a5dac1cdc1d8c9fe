//! Rolling a pure insertion or deletion across the tandem repeat around it,
//! by probing the reference genome one repeat unit at a time.
use vstd::prelude::*;
use vstd::slice::slice_to_vec;
use vstd::string::StringSliceAdditionalSpecFns;
use vstd::utf8::{decode_utf8, encode_utf8_decode_utf8, valid_utf8};

use crate::error::SpdiError;
use crate::genome::{
    buffer_of, chrom_sequence, read_window, sequences_of, utf8_text, window_of, Genome,
};
use crate::layout::tables_ok;
use crate::periodic::{lemma_left_scan_closed, lemma_right_scan_closed, periodic, right_scan_hits};
use crate::util::{base_matches, char_of, is_base_same_as_char, Base};

verus! {

/// The number of probe windows that rightward growth absorbs before it gives up,
/// unless a grower is made with another bound.
pub const GROW_RIGHT_MAX: usize = 10000;

/// Why growth gives no result, in the model that the contracts state.
pub enum GrowthFailure {
    /// Every window up to the bound was absorbed; the next would have started at `search_start`.
    RepeatTooLong { search_start: int },
    /// A probe would have left the range of addressable positions.
    OutOfRange { pos: int },
    /// Neither allele has a base.
    Empty,
    /// Both alleles have bases.
    NotIndel,
}

/// The sequence of the chromosome that the bytes `chrom` name; bytes that are
/// not UTF-8 name no sequence.
pub open spec fn chrom_of(g: Genome, chrom: Seq<u8>) -> Seq<char> {
    if valid_utf8(chrom) {
        chrom_sequence(g, decode_utf8(chrom))
    } else {
        seq![]
    }
}

/// How many leading letters of `frag` agree with the leading bases of `unit`.
pub open spec fn agree_len(unit: Seq<Base>, frag: Seq<char>) -> nat
    decreases unit.len(),
{
    if unit.len() == 0 || frag.len() == 0 || !base_matches(unit[0], frag[0]) {
        0
    } else {
        1 + agree_len(unit.drop_first(), frag.drop_first())
    }
}

/// How many trailing letters of `frag` agree with the trailing bases of `unit`.
pub open spec fn agree_back_len(unit: Seq<Base>, frag: Seq<char>) -> nat
    decreases unit.len(),
{
    if unit.len() == 0 || frag.len() == 0 || !base_matches(unit.last(), frag.last()) {
        0
    } else {
        1 + agree_back_len(unit.drop_last(), frag.drop_last())
    }
}

pub(crate) proof fn lemma_agree_len_exact(unit: Seq<Base>, frag: Seq<char>, k: int)
    requires
        0 <= k <= unit.len(),
        k <= frag.len(),
        forall|j: int| 0 <= j < k ==> base_matches(#[trigger] unit[j], frag[j]),
        k == unit.len() || k == frag.len() || !base_matches(unit[k], frag[k]),
    ensures
        agree_len(unit, frag) == k,
{
    lemma_agree_len(unit, frag, k);
}

proof fn lemma_agree_len(unit: Seq<Base>, frag: Seq<char>, k: int)
    requires
        0 <= k <= unit.len(),
        k <= frag.len(),
        forall|j: int| 0 <= j < k ==> base_matches(#[trigger] unit[j], frag[j]),
        k == unit.len() || k == frag.len() || !base_matches(unit[k], frag[k]),
    ensures
        agree_len(unit, frag) == k,
    decreases k,
{
    if k > 0 {
        assert forall|j: int| 0 <= j < k - 1 implies base_matches(
            #[trigger] unit.drop_first()[j],
            frag.drop_first()[j],
        ) by {
            assert(base_matches(unit[j + 1], frag[j + 1]));
        }
        lemma_agree_len(unit.drop_first(), frag.drop_first(), k - 1);
    }
}

proof fn lemma_agree_back_len(unit: Seq<Base>, frag: Seq<char>, k: int)
    requires
        0 <= k <= unit.len(),
        k <= frag.len(),
        forall|j: int|
            0 <= j < k ==> base_matches(
                #[trigger] unit[unit.len() - 1 - j],
                frag[frag.len() - 1 - j],
            ),
        k == unit.len() || k == frag.len() || !base_matches(
            unit[unit.len() - 1 - k],
            frag[frag.len() - 1 - k],
        ),
    ensures
        agree_back_len(unit, frag) == k,
    decreases k,
{
    if k > 0 {
        let u2 = unit.drop_last();
        let f2 = frag.drop_last();
        assert forall|j: int| 0 <= j < k - 1 implies base_matches(
            #[trigger] u2[u2.len() - 1 - j],
            f2[f2.len() - 1 - j],
        ) by {
            assert(base_matches(unit[unit.len() - 1 - (j + 1)], frag[frag.len() - 1 - (j + 1)]));
        }
        lemma_agree_back_len(u2, f2, k - 1);
    }
}

/// Puts `acc` in front of the bases that a growth result absorbed.
pub open spec fn prepend_absorbed(acc: Seq<Base>, r: Result<(int, Seq<Base>), GrowthFailure>) -> Result<
    (int, Seq<Base>),
    GrowthFailure,
> {
    match r {
        Ok((b, a)) => Ok((b, acc + a)),
        Err(e) => Err(e),
    }
}

/// Puts `acc` after the bases that a growth result absorbed.
pub open spec fn append_absorbed(r: Result<(int, Seq<Base>), GrowthFailure>, acc: Seq<Base>) -> Result<
    (int, Seq<Base>),
    GrowthFailure,
> {
    match r {
        Ok((b, a)) => Ok((b, a + acc)),
        Err(e) => Err(e),
    }
}

/// Rightward growth over the chromosome `s` from the window that starts at the
/// 1-based position `probe`, after `count` windows were absorbed whole;
/// `confirmed` is the position just past the last base absorbed so far.
/// Windows are `unit.len()` letters long. At the first letter that disagrees
/// with `unit` the boundary is that letter's position; where no letters are
/// left to read it is `confirmed`.
pub open spec fn right_scan(
    s: Seq<char>,
    unit: Seq<Base>,
    confirmed: int,
    probe: int,
    count: nat,
    max: nat,
) -> Result<(int, Seq<Base>), GrowthFailure>
    decreases max - count,
{
    let frag = window_of(s, probe - 1, probe - 1 + unit.len());
    let k = agree_len(unit, frag) as int;
    if probe + unit.len() > usize::MAX {
        Err(GrowthFailure::OutOfRange { pos: probe })
    } else if frag.len() == 0 {
        Ok((confirmed, seq![]))
    } else if k < frag.len() {
        Ok((probe + k, unit.take(k)))
    } else if count + 1 > max {
        Err(GrowthFailure::RepeatTooLong { search_start: probe + unit.len() })
    } else {
        prepend_absorbed(
            unit.take(k),
            right_scan(s, unit, probe + k, probe + unit.len(), count + 1, max),
        )
    }
}

/// What `grow_right` gives for the repeat unit `unit` from the 1-based position `pos`.
pub open spec fn right_growth(s: Seq<char>, unit: Seq<Base>, pos: int, max: nat) -> Result<
    (int, Seq<Base>),
    GrowthFailure,
> {
    if unit.len() == 0 {
        Ok((pos, seq![]))
    } else if pos < 1 {
        Err(GrowthFailure::OutOfRange { pos })
    } else {
        right_scan(s, unit, pos, pos, 0, max)
    }
}

/// Leftward growth over the chromosome `s` from the window that ends just
/// before the 1-based position `probe_end`. Each window is compared from its
/// right edge. The boundary is where the absorbed run begins: just right of the
/// first letter that disagrees, or where the growth stops because the next
/// window would be cut short by the chromosome's start, or where no letters
/// are left to read.
pub open spec fn left_scan(s: Seq<char>, unit: Seq<Base>, probe_end: int) -> Result<
    (int, Seq<Base>),
    GrowthFailure,
>
    decreases probe_end,
{
    let n = unit.len() as int;
    let probe_start = if probe_end <= n {
        1
    } else {
        probe_end - n
    };
    let frag = window_of(s, probe_start - 1, probe_end - 1);
    let k = agree_back_len(unit, frag) as int;
    if frag.len() == 0 {
        Ok((probe_end, seq![]))
    } else if frag.len() < probe_end - probe_start {
        Err(GrowthFailure::OutOfRange { pos: probe_start })
    } else if k < frag.len() || probe_start <= n {
        Ok((probe_end - k, unit.subrange(n - k, n)))
    } else {
        append_absorbed(left_scan(s, unit, probe_start), unit.subrange(n - k, n))
    }
}

/// What `grow_left` gives for the repeat unit `unit` from the 1-based position `pos`.
pub open spec fn left_growth(s: Seq<char>, unit: Seq<Base>, pos: int) -> Result<
    (int, Seq<Base>),
    GrowthFailure,
> {
    if unit.len() == 0 || pos <= 1 {
        Ok((pos, seq![]))
    } else {
        left_scan(s, unit, pos)
    }
}

/// What `grow` gives for a pure insertion (`r` empty) or a pure deletion (`a`
/// empty) at the 1-based position `pos`: the left boundary, and each allele
/// between the bases absorbed on the left and those absorbed on the right.
pub open spec fn indel_growth(s: Seq<char>, pos: int, r: Seq<Base>, a: Seq<Base>, max: nat) -> Result<
    (int, Seq<Base>, Seq<Base>),
    GrowthFailure,
> {
    if r.len() == 0 && a.len() == 0 {
        Err(GrowthFailure::Empty)
    } else if r.len() > 0 && a.len() > 0 {
        Err(GrowthFailure::NotIndel)
    } else {
        let unit = if r.len() == 0 {
            a
        } else {
            r
        };
        let right_start = pos + r.len();
        if right_start > usize::MAX {
            Err(GrowthFailure::OutOfRange { pos })
        } else {
            match right_growth(s, unit, right_start, max) {
                Err(e) => Err(e),
                Ok((_, right)) => match left_growth(s, unit, pos) {
                    Err(e) => Err(e),
                    Ok((b, left)) => Ok((b, left + r + right, left + a + right)),
                },
            }
        }
    }
}

/// The letters of `unit`.
pub open spec fn letters(unit: Seq<Base>) -> Seq<char> {
    unit.map_values(|b: Base| char_of(b))
}

/// The letters of `unit` repeated `k` times.
pub open spec fn repeat_letters(unit: Seq<Base>, k: nat) -> Seq<char>
    decreases k,
{
    if k == 0 {
        seq![]
    } else {
        letters(unit) + repeat_letters(unit, (k - 1) as nat)
    }
}

proof fn lemma_repeat_letters_len(unit: Seq<Base>, k: nat)
    ensures
        repeat_letters(unit, k).len() == k * unit.len(),
    decreases k,
{
    if k > 0 {
        lemma_repeat_letters_len(unit, (k - 1) as nat);
        assert(letters(unit).len() == unit.len());
        let n = unit.len() as int;
        let k1 = k - 1;
        assert(k * n == n + k1 * n) by (nonlinear_arith)
            requires
                k1 == k - 1,
        ;
        assert(repeat_letters(unit, k) == letters(unit) + repeat_letters(unit, (k - 1) as nat));
    } else {
        assert(k * unit.len() == 0) by (nonlinear_arith)
            requires
                k == 0,
        ;
    }
}

/// A unit agrees with its own letters at every position.
proof fn lemma_agree_own_letters(unit: Seq<Base>)
    ensures
        agree_len(unit, letters(unit)) == unit.len(),
{
    assert forall|j: int| 0 <= j < unit.len() implies base_matches(
        #[trigger] unit[j],
        letters(unit)[j],
    ) by {}
    lemma_agree_len(unit, letters(unit), unit.len() as int);
}

/// Rightward growth over `m` whole windows that spell the unit, with `m`
/// windows left under the bound, runs into the bound.
proof fn lemma_scan_over_repeat(
    s: Seq<char>,
    unit: Seq<Base>,
    start: int,
    probe: int,
    count: nat,
    max: nat,
    m: nat,
)
    requires
        unit.len() > 0,
        count <= max,
        m == max + 1 - count,
        probe >= 1,
        probe + m * unit.len() <= usize::MAX,
        probe - 1 + m * unit.len() <= s.len(),
        s.subrange(probe - 1, probe - 1 + m * unit.len()) == repeat_letters(unit, m),
    ensures
        right_scan(s, unit, start, probe, count, max) == Err::<(int, Seq<Base>), GrowthFailure>(
            GrowthFailure::RepeatTooLong { search_start: probe + m * unit.len() },
        ),
    decreases m,
{
    let n = unit.len() as int;
    lemma_repeat_letters_len(unit, m);
    assert(m * n >= n) by (nonlinear_arith)
        requires
            m >= 1,
            n > 0,
    ;
    let run = repeat_letters(unit, m);
    let frag = window_of(s, probe - 1, probe - 1 + n);
    assert(frag =~= run.subrange(0, n));
    assert(run.subrange(0, n) =~= letters(unit));
    lemma_agree_own_letters(unit);
    assert(frag.len() == n);
    if count + 1 > max {
        assert(m * n == n) by (nonlinear_arith)
            requires
                m == 1,
        ;
    } else {
        let m1 = m - 1;
        assert(m * n == n + m1 * n) by (nonlinear_arith)
            requires
                m1 == m - 1,
        ;
        let rest = repeat_letters(unit, (m - 1) as nat);
        assert(s.subrange(probe - 1 + n, probe - 1 + n + (m - 1) * n) =~= run.subrange(n, m * n));
        assert(run.subrange(n, m * n) =~= rest);
        lemma_scan_over_repeat(s, unit, probe + n, probe + n, count + 1, max, (m - 1) as nat);
    }
}

/// Bound enforcement: where the chromosome repeats the unit perfectly over
/// more windows than the bound allows, rightward growth fails with the repeat
/// being too long, and names the position where the next window would have
/// started (as long as that position can be addressed).
pub proof fn lemma_perfect_repeat_hits_bound(s: Seq<char>, unit: Seq<Base>, pos: int, max: nat)
    requires
        unit.len() > 0,
        pos >= 1,
        pos + (max + 1) * unit.len() <= usize::MAX,
        pos - 1 + (max + 1) * unit.len() <= s.len(),
        s.subrange(pos - 1, pos - 1 + (max + 1) * unit.len()) == repeat_letters(unit, max + 1),
    ensures
        right_growth(s, unit, pos, max) == Err::<(int, Seq<Base>), GrowthFailure>(
            GrowthFailure::RepeatTooLong { search_start: pos + (max + 1) * unit.len() },
        ),
{
    lemma_scan_over_repeat(s, unit, pos, pos, 0, max, max + 1);
}

/// Whether two growth results absorbed the same bases (their boundaries may
/// differ), or failed alike.
pub open spec fn same_absorbed(
    r1: Result<(int, Seq<Base>), GrowthFailure>,
    r2: Result<(int, Seq<Base>), GrowthFailure>,
) -> bool {
    match (r1, r2) {
        (Ok((_, a1)), Ok((_, a2))) => a1 == a2,
        (Err(e1), Err(e2)) => e1 == e2,
        _ => false,
    }
}

/// Rightward growth that has one more window counted against a bound one
/// higher absorbs the same bases.
proof fn lemma_scan_shift(
    s: Seq<char>,
    unit: Seq<Base>,
    st1: int,
    st2: int,
    probe: int,
    count: nat,
    max: nat,
)
    requires
        count <= max,
    ensures
        same_absorbed(
            right_scan(s, unit, st1, probe, count + 1, max + 1),
            right_scan(s, unit, st2, probe, count, max),
        ),
    decreases max - count,
{
    let n = unit.len() as int;
    let frag = window_of(s, probe - 1, probe - 1 + n);
    let k = agree_len(unit, frag) as int;
    if probe + n <= usize::MAX && frag.len() != 0 && k >= frag.len() && count + 1 <= max {
        lemma_scan_shift(s, unit, probe + k, probe + k, probe + n, count + 1, max);
    }
}

/// Deletion/insertion duality: deleting the unit that the genome holds at
/// `pos`, and inserting the same unit at `pos`, roll to the same position and
/// the same reference allele, and the deletion takes the unit out of that
/// allele at the very spot where the insertion puts one more in. The
/// insertion reads one window more than the deletion before it meets the same
/// genome, so its bound is one window higher; where the deletion fails, the
/// insertion fails alike.
pub proof fn lemma_deletion_insertion_duality(s: Seq<char>, unit: Seq<Base>, pos: int, max: nat)
    requires
        unit.len() > 0,
        pos >= 1,
        pos + unit.len() <= usize::MAX,
        pos - 1 + unit.len() <= s.len(),
        s.subrange(pos - 1, pos - 1 + unit.len()) == letters(unit),
    ensures
        ({
            let del = indel_growth(s, pos, unit, seq![], max);
            let ins = indel_growth(s, pos, seq![], unit, max + 1);
            &&& del is Err ==> ins == del
            &&& del is Ok ==> {
                &&& ins is Ok
                &&& ins->Ok_0.0 == del->Ok_0.0
                &&& ins->Ok_0.1 == del->Ok_0.1
                &&& exists|x: Seq<Base>, y: Seq<Base>|
                    del->Ok_0.1 == x + unit + y && del->Ok_0.2 == x + y && ins->Ok_0.2 == x + unit
                        + unit + y
            }
        }),
{
    let n = unit.len() as int;
    let frag = window_of(s, pos - 1, pos - 1 + n);
    assert(frag =~= letters(unit));
    lemma_agree_own_letters(unit);
    assert(unit.take(n) == unit);
    lemma_scan_shift(s, unit, pos + n, pos + n, pos + n, 0, max);
    let rd = right_growth(s, unit, pos + n, max);
    let ri = right_growth(s, unit, pos, max + 1);
    assert(ri == prepend_absorbed(unit, right_scan(s, unit, pos + n, pos + n, 1, max + 1)));
    let del = indel_growth(s, pos, unit, seq![], max);
    let ins = indel_growth(s, pos, seq![], unit, max + 1);
    match (rd, left_growth(s, unit, pos)) {
        (Ok((_, right)), Ok((b, left))) => {
            assert(ri->Ok_0.1 == unit + right);
            assert(del == Ok::<(int, Seq<Base>, Seq<Base>), GrowthFailure>(
                (b, left + unit + right, left + seq![] + right),
            ));
            assert(left + seq![] + (unit + right) =~= left + unit + right);
            assert(left + unit + (unit + right) =~= left + unit + unit + right);
            assert(left + seq![] + right =~= left + right);
            assert(del->Ok_0.1 == left + unit + right && del->Ok_0.2 == left + right
                && ins->Ok_0.2 == left + unit + unit + right);
        },
        _ => {},
    }
}

/// Deletion/insertion duality under one bound: where the insertion of the unit
/// at `pos` succeeds, the deletion of the unit that the genome holds at `pos`
/// succeeds under the same bound, rolls to the same position and the same
/// reference allele, and takes the unit out of it at the spot where the
/// insertion puts one more in.
pub proof fn lemma_deletion_insertion_duality_same_bound(
    s: Seq<char>,
    unit: Seq<Base>,
    pos: int,
    max: nat,
)
    requires
        unit.len() > 0,
        pos >= 1,
        pos + unit.len() <= usize::MAX,
        pos - 1 + unit.len() <= s.len(),
        s.subrange(pos - 1, pos - 1 + unit.len()) == letters(unit),
        indel_growth(s, pos, seq![], unit, max) is Ok,
    ensures
        ({
            let del = indel_growth(s, pos, unit, seq![], max);
            let ins = indel_growth(s, pos, seq![], unit, max);
            &&& del is Ok
            &&& ins->Ok_0.0 == del->Ok_0.0
            &&& ins->Ok_0.1 == del->Ok_0.1
            &&& exists|x: Seq<Base>, y: Seq<Base>|
                del->Ok_0.1 == x + unit + y && del->Ok_0.2 == x + y && ins->Ok_0.2 == x + unit
                    + unit + y
        }),
{
    let n = unit.len() as int;
    let frag = window_of(s, pos - 1, pos - 1 + n);
    assert(frag =~= letters(unit));
    lemma_agree_own_letters(unit);
    assert(unit.subrange(0, 0) =~= Seq::<Base>::empty());
    assert(max >= 1);
    let m = (max - 1) as nat;
    lemma_deletion_insertion_duality(s, unit, pos, m);
    lemma_scan_bound_monotone(s, unit, pos + n, pos + n, 0, m);
    assert(indel_growth(s, pos, unit, seq![], max) == indel_growth(s, pos, unit, seq![], m));
}

/// Whether leftward growth from the window that ends before `probe_end` meets
/// a letter that breaks the repeat before it stops for any other reason.
pub open spec fn left_scan_hits(s: Seq<char>, unit: Seq<Base>, probe_end: int) -> bool
    decreases probe_end,
{
    let n = unit.len() as int;
    let probe_start = if probe_end <= n {
        1
    } else {
        probe_end - n
    };
    let frag = window_of(s, probe_start - 1, probe_end - 1);
    let k = agree_back_len(unit, frag) as int;
    if frag.len() == 0 || frag.len() < probe_end - probe_start {
        false
    } else if k < frag.len() {
        true
    } else if probe_start <= n {
        false
    } else {
        left_scan_hits(s, unit, probe_start)
    }
}

/// Rightward growth that succeeds under a bound succeeds alike under a bound one higher.
proof fn lemma_scan_bound_monotone(
    s: Seq<char>,
    unit: Seq<Base>,
    start: int,
    probe: int,
    count: nat,
    max: nat,
)
    requires
        count <= max,
        right_scan(s, unit, start, probe, count, max) is Ok,
    ensures
        right_scan(s, unit, start, probe, count, max + 1) == right_scan(
            s,
            unit,
            start,
            probe,
            count,
            max,
        ),
    decreases max - count,
{
    let n = unit.len() as int;
    let frag = window_of(s, probe - 1, probe - 1 + n);
    let k = agree_len(unit, frag) as int;
    if probe + n <= usize::MAX && frag.len() != 0 && k >= frag.len() && count + 1 <= max {
        lemma_scan_bound_monotone(s, unit, probe + k, probe + n, count + 1, max);
    }
}

/// Repeat-insertion canonicalization: inserting the unit at `pos`, where the
/// genome holds that unit, or one unit further right, gives the same position
/// and alleles, as long as the insertion at `pos` grows to the right without
/// failing and is at least one unit from the chromosome's start.
pub proof fn lemma_insertion_shift_by_unit(s: Seq<char>, unit: Seq<Base>, pos: int, max: nat)
    requires
        unit.len() > 0,
        pos > unit.len(),
        pos - 1 + unit.len() <= s.len(),
        s.subrange(pos - 1, pos - 1 + unit.len()) == letters(unit),
        right_growth(s, unit, pos, max) is Ok,
    ensures
        indel_growth(s, pos, seq![], unit, max) == indel_growth(
            s,
            pos + unit.len(),
            seq![],
            unit,
            max,
        ),
{
    let n = unit.len() as int;
    let frag = window_of(s, pos - 1, pos - 1 + n);
    assert(frag =~= letters(unit));
    lemma_agree_own_letters(unit);
    assert(unit.take(n) == unit);
    assert(max >= 1);
    let rest = right_scan(s, unit, pos + n, pos + n, 1, max);
    assert(right_growth(s, unit, pos, max) == prepend_absorbed(unit, rest));
    lemma_scan_shift(s, unit, pos + n, pos + n, pos + n, 0, (max - 1) as nat);
    let far = right_scan(s, unit, pos + n, pos + n, 0, (max - 1) as nat);
    lemma_scan_bound_monotone(s, unit, pos + n, pos + n, 0, (max - 1) as nat);
    assert(right_growth(s, unit, pos + n, max) == far);
    // On the left: the first window of the shifted insertion is the unit itself.
    let bfrag = window_of(s, pos - 1, pos + n - 1);
    assert(bfrag =~= letters(unit));
    assert forall|j: int| 0 <= j < n implies base_matches(
        #[trigger] unit[n - 1 - j],
        bfrag[bfrag.len() - 1 - j],
    ) by {}
    lemma_agree_back_len(unit, bfrag, n);
    assert(unit.subrange(0, n) == unit);
    assert(left_growth(s, unit, pos + n) == append_absorbed(left_scan(s, unit, pos), unit));
    match (rest, left_growth(s, unit, pos)) {
        (Ok((_, a)), Ok((b, left))) => {
            assert(left + seq![] + (unit + a) =~= (left + unit) + seq![] + a);
            assert(left + unit + (unit + a) =~= (left + unit) + unit + a);
        },
        _ => {},
    }
}

/// The conditions of `lemma_insertion_shift_by_unit` hold again one unit
/// further right.
pub(crate) proof fn lemma_insertion_premises_shift(s: Seq<char>, unit: Seq<Base>, pos: int, max: nat)
    requires
        unit.len() > 0,
        pos > unit.len(),
        pos - 1 + unit.len() <= s.len(),
        s.subrange(pos - 1, pos - 1 + unit.len()) == letters(unit),
        right_growth(s, unit, pos, max) is Ok,
    ensures
        right_growth(s, unit, pos + unit.len(), max) is Ok,
{
    let n = unit.len() as int;
    let frag = window_of(s, pos - 1, pos - 1 + n);
    assert(frag =~= letters(unit));
    lemma_agree_own_letters(unit);
    assert(unit.take(n) == unit);
    assert(max >= 1);
    lemma_scan_shift(s, unit, pos + n, pos + n, pos + n, 0, (max - 1) as nat);
    lemma_scan_bound_monotone(s, unit, pos + n, pos + n, 0, (max - 1) as nat);
    let bfrag = window_of(s, pos - 1, pos + n - 1);
    assert(bfrag =~= letters(unit));
    assert forall|j: int| 0 <= j < n implies base_matches(
        #[trigger] unit[n - 1 - j],
        bfrag[bfrag.len() - 1 - j],
    ) by {}
    lemma_agree_back_len(unit, bfrag, n);
}

/// Growth in one direction fails only for a long repeat or a position out of range.
proof fn lemma_right_scan_failures(
    s: Seq<char>,
    unit: Seq<Base>,
    start: int,
    probe: int,
    count: nat,
    max: nat,
)
    ensures
        right_scan(s, unit, start, probe, count, max) matches Err(f) ==> (f is RepeatTooLong
            || f is OutOfRange),
    decreases max - count,
{
    let n = unit.len() as int;
    let frag = window_of(s, probe - 1, probe - 1 + n);
    let k = agree_len(unit, frag) as int;
    if probe + n <= usize::MAX && frag.len() != 0 && k >= frag.len() && count + 1 <= max {
        lemma_right_scan_failures(s, unit, probe + k, probe + n, count + 1, max);
    }
}

proof fn lemma_left_scan_failures(s: Seq<char>, unit: Seq<Base>, probe_end: int)
    ensures
        left_scan(s, unit, probe_end) matches Err(f) ==> f is OutOfRange,
    decreases probe_end,
{
    let n = unit.len() as int;
    let probe_start = if probe_end <= n {
        1
    } else {
        probe_end - n
    };
    let frag = window_of(s, probe_start - 1, probe_end - 1);
    let k = agree_back_len(unit, frag) as int;
    if frag.len() != 0 && frag.len() >= probe_end - probe_start && k >= frag.len() && probe_start
        > n {
        lemma_left_scan_failures(s, unit, probe_start);
    }
}

/// Whether the error `e` is how the modelled failure `f` is
/// reported for the chromosome named by `chrom`, under the bound `max`.
pub open spec fn reports_failure(e: SpdiError, chrom: Seq<u8>, max: usize, f: GrowthFailure) -> bool {
    match e {
        SpdiError::NoNonRepeat { chrom: c, search_len, search_start } => c@ == chrom && search_len
            == max && f == GrowthFailure::RepeatTooLong { search_start: search_start as int },
        SpdiError::InvalidPosition { chrom: c, pos } => c@ == chrom && f
            == GrowthFailure::OutOfRange { pos: pos as int },
        SpdiError::EmptyVariant { chrom: c, .. } => c@ == chrom && f == GrowthFailure::Empty,
        SpdiError::NotIndel { chrom: c, .. } => c@ == chrom && f == GrowthFailure::NotIndel,
        _ => false,
    }
}

/// Whether `r` is what growth reports when the model gives `expected`:
/// the same boundary and bases, or the matching error.
pub open spec fn reports_growth(
    r: Result<(usize, Vec<Base>), SpdiError>,
    chrom: Seq<u8>,
    max: usize,
    expected: Result<(int, Seq<Base>), GrowthFailure>,
) -> bool {
    match r {
        Ok((b, v)) => expected == Ok::<(int, Seq<Base>), GrowthFailure>((b as int, v@)),
        Err(e) => expected is Err && reports_failure(e, chrom, max, expected->Err_0),
    }
}

/// Whether `r` is what a variant's growth or conversion reports when the
/// model gives `expected` (see `reports_growth`).
pub open spec fn reports_variant(
    r: Result<(usize, Vec<Base>, Vec<Base>), SpdiError>,
    chrom: Seq<u8>,
    max: usize,
    expected: Result<(int, Seq<Base>, Seq<Base>), GrowthFailure>,
) -> bool {
    match r {
        Ok((b, v, w)) => expected == Ok::<(int, Seq<Base>, Seq<Base>), GrowthFailure>(
            (b as int, v@, w@),
        ),
        Err(e) => expected is Err && reports_failure(e, chrom, max, expected->Err_0),
    }
}

/// The text of a chromosome name given as bytes, if they are UTF-8.
pub(crate) fn chrom_name(chrom: &[u8]) -> (r: Option<&str>)
    ensures
        r is Some <==> valid_utf8(chrom@),
        r matches Some(n) ==> n@ == decode_utf8(chrom@),
{
    match utf8_text(chrom) {
        Some(s) => {
            proof {
                encode_utf8_decode_utf8(s@);
            }
            Some(s)
        },
        None => None,
    }
}

/// The letters of the named chromosome in the 0-based half-open range
/// `start..end`, clipped to its length; a name that is not there reads as an
/// empty sequence.
fn read_letters(g: &mut Genome, chrom: &[u8], name: Option<&str>, start: usize, end: usize) -> (r:
    Result<Vec<char>, twobit::Error>)
    requires
        tables_ok(buffer_of(*old(g))),
        name is Some <==> valid_utf8(chrom@),
        name matches Some(n) ==> n@ == decode_utf8(chrom@),
    ensures
        sequences_of(*final(g)) == sequences_of(*old(g)),
        buffer_of(*final(g)) == buffer_of(*old(g)),
        r is Ok,
        r matches Ok(v) ==> v@ == window_of(chrom_of(*old(g), chrom@), start as int, end as int),
{
    match name {
        None => Ok(Vec::new()),
        Some(n) => match read_window(g, n, start, end) {
            Ok(Some(v)) => Ok(v),
            Ok(None) => Ok(Vec::new()),
            Err(e) => Err(e),
        },
    }
}

/// A copy of `v` in reverse order.
fn reversed(v: &Vec<Base>) -> (r: Vec<Base>)
    ensures
        r@.len() == v@.len(),
        forall|i: int| 0 <= i < v@.len() ==> #[trigger] r@[i] == v@[v@.len() - 1 - i],
{
    let mut r: Vec<Base> = Vec::with_capacity(v.len());
    let mut i: usize = v.len();
    while i > 0
        invariant
            i <= v@.len(),
            r@.len() == v@.len() - i,
            forall|j: int| 0 <= j < r@.len() ==> #[trigger] r@[j] == v@[v@.len() - 1 - j],
        decreases i,
    {
        i -= 1;
        r.push(v[i]);
    }
    r
}

/// Probes a reference genome to roll indels across repeats.
pub struct Grower {
    /// The reference genome.
    pub genome: Genome,
    /// How many probe windows rightward growth may absorb.
    pub max_windows: usize,
}

impl Grower {
    /// A grower over `genome` with the default bound on probe windows.
    pub fn new(genome: Genome) -> (r: Grower)
        ensures
            sequences_of(r.genome) == sequences_of(genome),
            buffer_of(r.genome) == buffer_of(genome),
            r.max_windows == GROW_RIGHT_MAX,
    {
        Grower { genome, max_windows: GROW_RIGHT_MAX }
    }

    /// A grower over `genome` that absorbs at most `max_windows` probe windows
    /// when it grows rightward.
    pub fn with_max_windows(genome: Genome, max_windows: usize) -> (r: Grower)
        ensures
            sequences_of(r.genome) == sequences_of(genome),
            buffer_of(r.genome) == buffer_of(genome),
            r.max_windows == max_windows,
    {
        Grower { genome, max_windows }
    }

    /// Grows rightward from the 1-based position `pos`, one window of
    /// `bases.len()` letters at a time, while the genome repeats `bases`.
    pub fn grow_right(&mut self, chrom: &[u8], pos: usize, bases: &[Base]) -> (r: Result<
        (usize, Vec<Base>),
        SpdiError,
    >)
        requires
            tables_ok(buffer_of(old(self).genome)),
        ensures
            sequences_of(final(self).genome) == sequences_of(old(self).genome),
            buffer_of(final(self).genome) == buffer_of(old(self).genome),
            final(self).max_windows == old(self).max_windows,
            reports_growth(
                r,
                chrom@,
                old(self).max_windows,
                right_growth(
                    chrom_of(old(self).genome, chrom@),
                    bases@,
                    pos as int,
                    old(self).max_windows as nat,
                ),
            ),
            bases@.len() > 0 && pos >= 1 && right_scan_hits(
                chrom_of(old(self).genome, chrom@),
                bases@,
                pos as int,
                0,
                old(self).max_windows as nat,
            ) ==> (r matches Ok((e, v)) && e == pos + v@.len() && v@ == periodic(
                bases@,
                v@.len(),
            )),
    {
        proof {
            if bases@.len() > 0 && pos >= 1 && right_scan_hits(
                chrom_of(self.genome, chrom@),
                bases@,
                pos as int,
                0,
                self.max_windows as nat,
            ) {
                lemma_right_scan_closed(
                    chrom_of(self.genome, chrom@),
                    bases@,
                    pos as int,
                    pos as int,
                    0,
                    self.max_windows as nat,
                );
            }
        }
        let bases_len = bases.len();
        let mut expansion: Vec<Base> = Vec::with_capacity(bases_len);
        if bases_len == 0 {
            return Ok((pos, expansion));
        }
        if pos == 0 {
            return Err(SpdiError::InvalidPosition { chrom: slice_to_vec(chrom), pos });
        }
        let name = chrom_name(chrom);
        let ghost s = chrom_of(self.genome, chrom@);
        let ghost unit = bases@;
        let ghost max = self.max_windows as nat;
        let ghost whole = right_growth(s, unit, pos as int, max);
        let mut probe: usize = pos;
        let mut confirmed: usize = pos;
        let mut count: usize = 0;
        loop
            invariant
                bases_len == bases@.len() == unit.len() > 0,
                unit == bases@,
                self.max_windows == old(self).max_windows,
                sequences_of(self.genome) == sequences_of(old(self).genome),
                buffer_of(self.genome) == buffer_of(old(self).genome),
                tables_ok(buffer_of(old(self).genome)),
                1 <= probe,
                count <= self.max_windows,
                max == self.max_windows,
                name is Some <==> valid_utf8(chrom@),
                name matches Some(n) ==> n@ == decode_utf8(chrom@),
                s == chrom_of(old(self).genome, chrom@),
                whole == right_growth(s, unit, pos as int, max),
                right_scan_hits(s, unit, pos as int, 0, max) ==> (whole matches Ok((e, v)) && e
                    == pos + v.len() && v == periodic(unit, v.len())),
                whole == prepend_absorbed(
                    expansion@,
                    right_scan(s, unit, confirmed as int, probe as int, count as nat, max),
                ),
            decreases self.max_windows - count,
        {
            if bases_len > usize::MAX - probe {
                return Err(SpdiError::InvalidPosition { chrom: slice_to_vec(chrom), pos: probe });
            }
            let frag: Vec<char> = match read_letters(
                &mut self.genome,
                chrom,
                name,
                probe - 1,
                probe - 1 + bases_len,
            ) {
                Ok(v) => v,
                Err(_) => {
                    // `read_letters` never fails on a genome whose tables are whole.
                    assert(false);
                    Vec::new()
                },
            };
            let ghost f = window_of(s, probe - 1, probe - 1 + unit.len());
            assert(frag@ == f);
            let flen = frag.len();
            if flen == 0 {
                assert(expansion@ + seq![] == expansion@);
                return Ok((confirmed, expansion));
            }
            assert(flen <= bases_len);
            let ghost before = expansion@;
            let mut offset: usize = 0;
            while offset < flen
                invariant
                    flen == frag@.len() <= bases_len == bases@.len(),
                    unit == bases@,
                    f == frag@,
                    probe + bases_len <= usize::MAX,
                    self.max_windows == old(self).max_windows,
                    sequences_of(self.genome) == sequences_of(old(self).genome),
                buffer_of(self.genome) == buffer_of(old(self).genome),
                tables_ok(buffer_of(old(self).genome)),
                    s == chrom_of(old(self).genome, chrom@),
                    max == old(self).max_windows,
                    count <= max,
                    f == window_of(s, probe - 1, probe - 1 + unit.len()),
                    whole == right_growth(s, unit, pos as int, max),
                right_scan_hits(s, unit, pos as int, 0, max) ==> (whole matches Ok((e, v)) && e
                    == pos + v.len() && v == periodic(unit, v.len())),
                    whole == prepend_absorbed(
                        before,
                        right_scan(s, unit, confirmed as int, probe as int, count as nat, max),
                    ),
                    offset <= flen,
                    forall|j: int| 0 <= j < offset ==> base_matches(#[trigger] bases@[j], frag@[j]),
                    expansion@ == before + bases@.take(offset as int),
                decreases flen - offset,
            {
                if !is_base_same_as_char(&bases[offset], frag[offset]) {
                    proof {
                        lemma_agree_len(unit, f, offset as int);
                    }
                    return Ok((probe + offset, expansion));
                }
                expansion.push(bases[offset]);
                assert(bases@.take(offset + 1) == bases@.take(offset as int).push(bases@[offset as int]));
                offset += 1;
            }
            proof {
                lemma_agree_len(unit, f, flen as int);
            }
            if count >= self.max_windows {
                return Err(
                    SpdiError::NoNonRepeat {
                        chrom: slice_to_vec(chrom),
                        search_len: self.max_windows,
                        search_start: probe + bases_len,
                    },
                );
            }
            assert(before + (unit.take(flen as int) + right_scan(s, unit, (probe + flen) as int, (probe + bases_len) as int, (count + 1) as nat, max)->Ok_0.1) == (before + unit.take(flen as int)) + right_scan(s, unit, (probe + flen) as int, (probe + bases_len) as int, (count + 1) as nat, max)->Ok_0.1);
            confirmed = probe + flen;
            probe = probe + bases_len;
            count = count + 1;
        }
    }

    /// Grows leftward from the 1-based position `pos`, one window of
    /// `bases.len()` letters at a time, each compared from its right edge,
    /// while the genome repeats `bases`. The absorbed bases read left to right.
    pub fn grow_left(&mut self, chrom: &[u8], pos: usize, bases: &[Base]) -> (r: Result<
        (usize, Vec<Base>),
        SpdiError,
    >)
        requires
            tables_ok(buffer_of(old(self).genome)),
        ensures
            sequences_of(final(self).genome) == sequences_of(old(self).genome),
            buffer_of(final(self).genome) == buffer_of(old(self).genome),
            final(self).max_windows == old(self).max_windows,
            reports_growth(
                r,
                chrom@,
                old(self).max_windows,
                left_growth(chrom_of(old(self).genome, chrom@), bases@, pos as int),
            ),
            bases@.len() > 0 && left_scan_hits(chrom_of(old(self).genome, chrom@), bases@, pos as int)
                ==> (r matches Ok((b, v)) && b == pos - v@.len() && (forall|i: int|
                0 <= i < v@.len() ==> #[trigger] v@[v@.len() - 1 - i] == bases@[bases@.len() - 1 - (i
                % (bases@.len() as int))])),
    {
        proof {
            if bases@.len() > 0 && left_scan_hits(chrom_of(self.genome, chrom@), bases@, pos as int) {
                lemma_left_scan_closed(chrom_of(self.genome, chrom@), bases@, pos as int);
            }
        }
        let bases_len = bases.len();
        let mut expansion: Vec<Base> = Vec::with_capacity(bases_len);
        if bases_len == 0 || pos <= 1 {
            return Ok((pos, expansion));
        }
        let name = chrom_name(chrom);
        let ghost s = chrom_of(self.genome, chrom@);
        let ghost unit = bases@;
        let ghost n = bases_len as int;
        let ghost whole = left_growth(s, unit, pos as int);
        // `expansion` holds the absorbed bases from right to left; `acc` reads left to right.
        let ghost mut acc: Seq<Base> = seq![];
        let mut probe_end: usize = pos;
        let mut probe_start: usize = if pos <= bases_len {
            1
        } else {
            pos - bases_len
        };
        loop
            invariant
                bases_len == bases@.len() == unit.len() == n > 0,
                unit == bases@,
                self.max_windows == old(self).max_windows,
                sequences_of(self.genome) == sequences_of(old(self).genome),
                buffer_of(self.genome) == buffer_of(old(self).genome),
                tables_ok(buffer_of(old(self).genome)),
                1 <= probe_start < probe_end <= pos,
                probe_start == (if probe_end <= n {
                    1
                } else {
                    probe_end - n
                }),
                name is Some <==> valid_utf8(chrom@),
                name matches Some(n) ==> n@ == decode_utf8(chrom@),
                s == chrom_of(old(self).genome, chrom@),
                whole == left_growth(s, unit, pos as int),
                left_scan_hits(s, unit, pos as int) ==> (whole matches Ok((b, v)) && b == pos
                    - v.len() && (forall|i: int|
                    0 <= i < v.len() ==> #[trigger] v[v.len() - 1 - i] == unit[unit.len() - 1 - (i
                    % (unit.len() as int))])),
                whole == append_absorbed(left_scan(s, unit, probe_end as int), acc),
                expansion@.len() == acc.len(),
                forall|i: int|
                    0 <= i < acc.len() ==> #[trigger] expansion@[i] == acc[acc.len() - 1 - i],
            decreases probe_end,
        {
            let frag: Vec<char> = match read_letters(
                &mut self.genome,
                chrom,
                name,
                probe_start - 1,
                probe_end - 1,
            ) {
                Ok(v) => v,
                Err(_) => {
                    // `read_letters` never fails on a genome whose tables are whole.
                    assert(false);
                    Vec::new()
                },
            };
            let ghost f = window_of(s, probe_start - 1, probe_end - 1);
            assert(frag@ == f);
            let flen = frag.len();
            if flen == 0 {
                let out = reversed(&expansion);
                assert(out@ =~= seq![] + acc);
                return Ok((probe_end, out));
            }
            if flen < probe_end - probe_start {
                return Err(
                    SpdiError::InvalidPosition { chrom: slice_to_vec(chrom), pos: probe_start },
                );
            }
            assert(flen <= bases_len);
            let ghost acc0 = acc;
            let mut offset: usize = 0;
            while offset < flen
                invariant
                    flen == frag@.len() <= bases_len == bases@.len() == n,
                    unit == bases@,
                    f == frag@,
                    offset <= flen,
                    self.max_windows == old(self).max_windows,
                    sequences_of(self.genome) == sequences_of(old(self).genome),
                buffer_of(self.genome) == buffer_of(old(self).genome),
                tables_ok(buffer_of(old(self).genome)),
                    1 <= probe_start < probe_end <= pos,
                    probe_start == (if probe_end <= n {
                        1
                    } else {
                        probe_end - n
                    }),
                    flen == probe_end - probe_start,
                    f == window_of(s, probe_start - 1, probe_end - 1),
                    s == chrom_of(old(self).genome, chrom@),
                    whole == left_growth(s, unit, pos as int),
                left_scan_hits(s, unit, pos as int) ==> (whole matches Ok((b, v)) && b == pos
                    - v.len() && (forall|i: int|
                    0 <= i < v.len() ==> #[trigger] v[v.len() - 1 - i] == unit[unit.len() - 1 - (i
                    % (unit.len() as int))])),
                    whole == append_absorbed(
                        left_scan(s, unit, probe_end as int),
                        acc0,
                    ),
                    forall|j: int|
                        0 <= j < offset ==> base_matches(
                            #[trigger] bases@[n - 1 - j],
                            frag@[flen - 1 - j],
                        ),
                    acc == bases@.subrange(n - offset, n) + acc0,
                    expansion@.len() == acc.len(),
                    forall|i: int|
                        0 <= i < acc.len() ==> #[trigger] expansion@[i] == acc[acc.len() - 1 - i],
                decreases flen - offset,
            {
                let b = bases[bases_len - 1 - offset];
                if !is_base_same_as_char(&b, frag[flen - 1 - offset]) {
                    proof {
                        lemma_agree_back_len(unit, f, offset as int);
                        assert(left_scan(s, unit, probe_end as int) == Ok::<
                            (int, Seq<Base>),
                            GrowthFailure,
                        >((probe_end - offset, unit.subrange(n - offset, n))));
                    }
                    let out = reversed(&expansion);
                    assert(out@ =~= acc);
                    return Ok((probe_end - offset, out));
                }
                expansion.push(b);
                proof {
                    let acc1 = seq![b] + acc;
                    assert(bases@.subrange(n - (offset + 1), n) =~= seq![b] + bases@.subrange(
                        n - offset,
                        n,
                    ));
                    assert(acc1 =~= bases@.subrange(n - (offset + 1), n) + acc0);
                    assert forall|i: int| 0 <= i < acc1.len() implies #[trigger] expansion@[i]
                        == acc1[acc1.len() - 1 - i] by {
                        if i < acc.len() {
                            assert(expansion@[i] == acc[acc.len() - 1 - i]);
                        }
                    }
                    acc = acc1;
                }
                offset += 1;
            }
            proof {
                lemma_agree_back_len(unit, f, flen as int);
            }
            if probe_start <= bases_len {
                let out = reversed(&expansion);
                assert(out@ =~= acc);
                return Ok((probe_start, out));
            }
            proof {
                let part = unit.subrange(n - flen, n);
                assert(acc == part + acc0);
                match left_scan(s, unit, probe_start as int) {
                    Ok((b, a)) => {
                        assert((a + part) + acc0 =~= a + acc);
                    },
                    Err(_) => {},
                }
            }
            probe_end = probe_start;
            probe_start = probe_start - bases_len;
        }
    }

    /// Rolls a pure insertion (`ref_bases` empty) or pure deletion
    /// (`alt_bases` empty) at the 1-based position `pos` across the repeat
    /// around it: the result is the left boundary and both alleles between the
    /// bases absorbed on the left and on the right.
    pub fn grow(&mut self, chrom: &[u8], pos: usize, ref_bases: &[Base], alt_bases: &[Base]) -> (r:
        Result<(usize, Vec<Base>, Vec<Base>), SpdiError>)
        requires
            tables_ok(buffer_of(old(self).genome)),
        ensures
            sequences_of(final(self).genome) == sequences_of(old(self).genome),
            buffer_of(final(self).genome) == buffer_of(old(self).genome),
            final(self).max_windows == old(self).max_windows,
            (ref_bases@.len() == 0 && alt_bases@.len() == 0) <==> r matches Err(
                SpdiError::EmptyVariant { .. },
            ),
            (ref_bases@.len() > 0 && alt_bases@.len() > 0) <==> r matches Err(
                SpdiError::NotIndel { .. },
            ),
            reports_variant(
                r,
                chrom@,
                old(self).max_windows,
                indel_growth(
                    chrom_of(old(self).genome, chrom@),
                    pos as int,
                    ref_bases@,
                    alt_bases@,
                    old(self).max_windows as nat,
                ),
            ),
    {
        let ref_len = ref_bases.len();
        let alt_len = alt_bases.len();
        if ref_len == 0 && alt_len == 0 {
            return Err(
                SpdiError::EmptyVariant {
                    chrom: slice_to_vec(chrom),
                    pos,
                    ref_base: slice_to_vec(ref_bases),
                    alt_base: slice_to_vec(alt_bases),
                },
            );
        }
        if ref_len > 0 && alt_len > 0 {
            return Err(
                SpdiError::NotIndel {
                    chrom: slice_to_vec(chrom),
                    pos,
                    ref_base: slice_to_vec(ref_bases),
                    alt_base: slice_to_vec(alt_bases),
                },
            );
        }
        let unit = if ref_len == 0 {
            alt_bases
        } else {
            ref_bases
        };
        if ref_len > usize::MAX - pos {
            return Err(SpdiError::InvalidPosition { chrom: slice_to_vec(chrom), pos });
        }
        proof {
            lemma_right_scan_failures(
                chrom_of(self.genome, chrom@),
                unit@,
                (pos + ref_len) as int,
                (pos + ref_len) as int,
                0,
                self.max_windows as nat,
            );
            lemma_left_scan_failures(chrom_of(self.genome, chrom@), unit@, pos as int);
        }
        let right = match self.grow_right(chrom, pos + ref_len, unit) {
            Ok((_, v)) => v,
            Err(e) => {
                return Err(e);
            },
        };
        let (left_start, left) = match self.grow_left(chrom, pos, unit) {
            Ok(v) => v,
            Err(e) => {
                return Err(e);
            },
        };
        let mut new_ref: Vec<Base> = Vec::new();
        let mut new_alt: Vec<Base> = Vec::new();
        new_ref.extend_from_slice(left.as_slice());
        new_ref.extend_from_slice(ref_bases);
        new_ref.extend_from_slice(right.as_slice());
        new_alt.extend_from_slice(left.as_slice());
        new_alt.extend_from_slice(alt_bases);
        new_alt.extend_from_slice(right.as_slice());
        assert(new_ref@ =~= left@ + ref_bases@ + right@);
        assert(new_alt@ =~= left@ + alt_bases@ + right@);
        Ok((left_start, new_ref, new_alt))
    }
}

} // verus!
