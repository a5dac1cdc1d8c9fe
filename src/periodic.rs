//! Growth over tandem repeats in closed form: what the window-by-window scans
//! absorb is the unit repeated periodically, up to the first disagreeing letter.
use vstd::arithmetic::div_mod::{
    lemma_fundamental_div_mod, lemma_mod_add_multiples_vanish, lemma_mod_pos_bound, lemma_small_mod,
};
use vstd::prelude::*;

use crate::genome::window_of;
use crate::grow::{
    agree_back_len, agree_len, left_scan, left_scan_hits, prepend_absorbed, right_scan,
    GrowthFailure,
};
use crate::util::{base_matches, Base};

verus! {

/// The first `k` bases of the unit repeated without end.
pub open spec fn periodic(unit: Seq<Base>, k: nat) -> Seq<Base> {
    Seq::new(k, |i: int| unit[i % (unit.len() as int)])
}

/// Whether rightward growth from the window at `probe` meets a letter that
/// breaks the repeat before it stops for any other reason.
pub open spec fn right_scan_hits(s: Seq<char>, unit: Seq<Base>, probe: int, count: nat, max: nat) -> bool
    decreases max - count,
{
    let frag = window_of(s, probe - 1, probe - 1 + unit.len());
    let k = agree_len(unit, frag) as int;
    if probe + unit.len() > usize::MAX || frag.len() == 0 {
        false
    } else if k < frag.len() {
        true
    } else if count + 1 > max {
        false
    } else {
        right_scan_hits(s, unit, probe + unit.len(), count + 1, max)
    }
}

proof fn lemma_mod_step(i: int, n: int)
    requires
        0 <= i,
        0 < n,
    ensures
        (i + n) % n == i % n,
{
    lemma_mod_add_multiples_vanish(i, n);
}

proof fn lemma_mod_small(i: int, n: int)
    requires
        0 <= i < n,
    ensures
        i % n == i,
{
    lemma_small_mod(i as nat, n as nat);
}

proof fn lemma_agree_len_props(unit: Seq<Base>, frag: Seq<char>)
    ensures
        agree_len(unit, frag) <= unit.len(),
        agree_len(unit, frag) <= frag.len(),
        forall|j: int| 0 <= j < agree_len(unit, frag) ==> base_matches(#[trigger] unit[j], frag[j]),
        agree_len(unit, frag) < unit.len() && agree_len(unit, frag) < frag.len() ==> !base_matches(
            unit[agree_len(unit, frag) as int],
            frag[agree_len(unit, frag) as int],
        ),
    decreases unit.len(),
{
    if unit.len() > 0 && frag.len() > 0 && base_matches(unit[0], frag[0]) {
        lemma_agree_len_props(unit.drop_first(), frag.drop_first());
        assert forall|j: int| 0 <= j < agree_len(unit, frag) implies base_matches(
            #[trigger] unit[j],
            frag[j],
        ) by {
            if j > 0 {
                assert(base_matches(unit.drop_first()[j - 1], frag.drop_first()[j - 1]));
            }
        }
    }
}

proof fn lemma_agree_back_len_props(unit: Seq<Base>, frag: Seq<char>)
    ensures
        agree_back_len(unit, frag) <= unit.len(),
        agree_back_len(unit, frag) <= frag.len(),
        forall|j: int|
            0 <= j < agree_back_len(unit, frag) ==> base_matches(
                #[trigger] unit[unit.len() - 1 - j],
                frag[frag.len() - 1 - j],
            ),
        agree_back_len(unit, frag) < unit.len() && agree_back_len(unit, frag) < frag.len()
            ==> !base_matches(
            unit[unit.len() - 1 - agree_back_len(unit, frag)],
            frag[frag.len() - 1 - agree_back_len(unit, frag)],
        ),
    decreases unit.len(),
{
    if unit.len() > 0 && frag.len() > 0 && base_matches(unit.last(), frag.last()) {
        let u2 = unit.drop_last();
        let f2 = frag.drop_last();
        lemma_agree_back_len_props(u2, f2);
        assert forall|j: int| 0 <= j < agree_back_len(unit, frag) implies base_matches(
            #[trigger] unit[unit.len() - 1 - j],
            frag[frag.len() - 1 - j],
        ) by {
            if j > 0 {
                assert(base_matches(u2[u2.len() - 1 - (j - 1)], f2[f2.len() - 1 - (j - 1)]));
            }
        }
    }
}

/// Rightward growth that meets a breaking letter absorbs the unit repeated
/// periodically up to that letter, which it names as the boundary.
pub proof fn lemma_right_scan_closed(
    s: Seq<char>,
    unit: Seq<Base>,
    start: int,
    probe: int,
    count: nat,
    max: nat,
)
    requires
        unit.len() > 0,
        probe >= 1,
        right_scan_hits(s, unit, probe, count, max),
    ensures
        right_scan(s, unit, start, probe, count, max) matches Ok((e, r)) && {
            &&& e == probe + r.len()
            &&& r == periodic(unit, r.len())
            &&& probe - 1 + r.len() < s.len()
            &&& forall|i: int|
                0 <= i < r.len() ==> base_matches(
                    #[trigger] unit[i % (unit.len() as int)],
                    s[probe - 1 + i],
                )
            &&& !base_matches(unit[(r.len() as int) % (unit.len() as int)], s[probe - 1 + r.len()])
        },
    decreases max - count,
{
    let n = unit.len() as int;
    let frag = window_of(s, probe - 1, probe - 1 + n);
    let k = agree_len(unit, frag) as int;
    lemma_agree_len_props(unit, frag);
    if k < frag.len() {
        let r = unit.take(k);
        assert forall|i: int| 0 <= i < k implies base_matches(
            #[trigger] unit[i % n],
            s[probe - 1 + i],
        ) by {
            lemma_mod_small(i, n);
            assert(frag[i] == s[probe - 1 + i]);
        }
        lemma_mod_small(k, n);
        assert(frag[k] == s[probe - 1 + k]);
        assert forall|i: int| 0 <= i < k implies #[trigger] r[i] == periodic(unit, k as nat)[i] by {
            lemma_mod_small(i, n);
        }
        assert(r =~= periodic(unit, k as nat));
    } else {
        lemma_right_scan_closed(s, unit, probe + n, probe + n, count + 1, max);
        let rest = right_scan(s, unit, probe + n, probe + n, count + 1, max);
        let r2 = rest->Ok_0.1;
        assert(frag.len() == n);
        let r = unit + r2;
        assert(unit.take(k) == unit);
        assert forall|i: int| 0 <= i < r.len() implies #[trigger] r[i] == periodic(
            unit,
            r.len(),
        )[i] by {
            if i < n {
                lemma_mod_small(i, n);
            } else {
                lemma_mod_step(i - n, n);
            }
        }
        assert(r =~= periodic(unit, r.len()));
        assert forall|i: int| 0 <= i < r.len() implies base_matches(
            #[trigger] unit[i % n],
            s[probe - 1 + i],
        ) by {
            if i < n {
                lemma_mod_small(i, n);
                assert(frag[i] == s[probe - 1 + i]);
            } else {
                lemma_mod_step(i - n, n);
                assert(base_matches(unit[(i - n) % n], s[probe + n - 1 + (i - n)]));
            }
        }
        lemma_mod_step(r2.len() as int, n);
    }
}

/// Rightward growth over letters that agree with the unit repeated
/// periodically up to a breaking letter, with room under the bound and below
/// the largest position, absorbs exactly those repeated bases.
pub proof fn lemma_right_scan_from_agreement(
    s: Seq<char>,
    unit: Seq<Base>,
    start: int,
    probe: int,
    count: nat,
    max: nat,
    k: nat,
    w: nat,
)
    requires
        unit.len() > 0,
        probe >= 1,
        w * unit.len() <= k < (w + 1) * unit.len(),
        count + w <= max,
        probe + (w + 1) * unit.len() <= usize::MAX,
        probe - 1 + k < s.len(),
        forall|i: int|
            0 <= i < k ==> base_matches(#[trigger] unit[i % (unit.len() as int)], s[probe - 1 + i]),
        !base_matches(unit[(k as int) % (unit.len() as int)], s[probe - 1 + k]),
    ensures
        right_scan(s, unit, start, probe, count, max) == Ok::<(int, Seq<Base>), GrowthFailure>(
            (probe + k, periodic(unit, k)),
        ),
    decreases w,
{
    let n = unit.len() as int;
    let frag = window_of(s, probe - 1, probe - 1 + n);
    assert((w + 1) * n == w * n + n) by (nonlinear_arith);
    assert(w * n >= 0) by (nonlinear_arith)
        requires
            n > 0,
    ;
    if w == 0 {
        assert(w * n == 0) by (nonlinear_arith)
            requires
                w == 0,
        ;
        assert(k < n);
        assert forall|j: int| 0 <= j < k implies base_matches(#[trigger] unit[j], frag[j]) by {
            lemma_mod_small(j, n);
            assert(base_matches(unit[j % n], s[probe - 1 + j]));
        }
        lemma_mod_small(k as int, n);
        crate::grow::lemma_agree_len_exact(unit, frag, k as int);
        assert(unit.take(k as int) =~= periodic(unit, k)) by {
            assert forall|i: int| 0 <= i < k implies #[trigger] unit.take(k as int)[i] == periodic(
                unit,
                k,
            )[i] by {
                lemma_mod_small(i, n);
            }
        }
    } else {
        assert(w * n >= n) by (nonlinear_arith)
            requires
                w >= 1,
                n > 0,
        ;
        assert(frag.len() == n);
        assert forall|j: int| 0 <= j < n implies base_matches(#[trigger] unit[j], frag[j]) by {
            lemma_mod_small(j, n);
            assert(base_matches(unit[j % n], s[probe - 1 + j]));
        }
        crate::grow::lemma_agree_len_exact(unit, frag, n);
        let w1 = (w - 1) as nat;
        let k1 = (k - n) as nat;
        assert(w1 * n <= k1 < (w1 + 1) * n) by (nonlinear_arith)
            requires
                w * n <= k < (w + 1) * n,
                w1 == w - 1,
                k1 == k - n,
        ;
        assert forall|i: int| 0 <= i < k1 implies base_matches(
            #[trigger] unit[i % n],
            s[probe + n - 1 + i],
        ) by {
            lemma_mod_step(i, n);
            assert(base_matches(unit[(i + n) % n], s[probe - 1 + (i + n)]));
        }
        lemma_mod_step(k1 as int, n);
        assert(probe + n + (w1 + 1) * n <= usize::MAX) by (nonlinear_arith)
            requires
                probe + (w + 1) * n <= usize::MAX,
                w1 == w - 1,
        ;
        lemma_right_scan_from_agreement(s, unit, probe + n, probe + n, count + 1, max, k1, w1);
        assert(unit.take(n) == unit);
        assert(unit + periodic(unit, k1) =~= periodic(unit, k)) by {
            assert forall|i: int| 0 <= i < k implies #[trigger] (unit + periodic(unit, k1))[i]
                == periodic(unit, k)[i] by {
                if i < n {
                    lemma_mod_small(i, n);
                } else {
                    lemma_mod_step(i - n, n);
                }
            }
        }
    }
}

/// Leftward growth that meets a breaking letter absorbs, reading left to
/// right, the unit repeated periodically backward from its end, and the
/// boundary is just right of the breaking letter.
pub proof fn lemma_left_scan_closed(s: Seq<char>, unit: Seq<Base>, probe_end: int)
    requires
        unit.len() > 0,
        left_scan_hits(s, unit, probe_end),
    ensures
        left_scan(s, unit, probe_end) matches Ok((b, l)) && {
            let n = unit.len() as int;
            let a = l.len() as int;
            &&& b == probe_end - a
            &&& 0 <= probe_end - 2 - a
            &&& probe_end - 2 < s.len()
            &&& forall|i: int|
                0 <= i < a ==> base_matches(#[trigger] unit[n - 1 - (i % n)], s[probe_end - 2 - i])
                    && l[a - 1 - i] == unit[n - 1 - (i % n)]
            &&& !base_matches(unit[n - 1 - (a % n)], s[probe_end - 2 - a])
        },
    decreases probe_end,
{
    let n = unit.len() as int;
    let probe_start = if probe_end <= n {
        1
    } else {
        probe_end - n
    };
    let frag = window_of(s, probe_start - 1, probe_end - 1);
    let k = agree_back_len(unit, frag) as int;
    lemma_agree_back_len_props(unit, frag);
    let f = frag.len() as int;
    if k < f {
        let l = unit.subrange(n - k, n);
        assert forall|i: int| 0 <= i < k implies base_matches(
            #[trigger] unit[n - 1 - (i % n)],
            s[probe_end - 2 - i],
        ) && l[k - 1 - i] == unit[n - 1 - (i % n)] by {
            lemma_mod_small(i, n);
            assert(frag[f - 1 - i] == s[probe_end - 2 - i]);
        }
        lemma_mod_small(k, n);
        assert(frag[f - 1 - k] == s[probe_end - 2 - k]);
    } else {
        lemma_left_scan_closed(s, unit, probe_start);
        let l2 = left_scan(s, unit, probe_start)->Ok_0.1;
        let a2 = l2.len() as int;
        assert(f == n);
        let l = l2 + unit.subrange(0, n);
        assert(unit.subrange(0, n) == unit);
        let a = l.len() as int;
        assert forall|i: int| 0 <= i < a implies base_matches(
            #[trigger] unit[n - 1 - (i % n)],
            s[probe_end - 2 - i],
        ) && l[a - 1 - i] == unit[n - 1 - (i % n)] by {
            if i < n {
                lemma_mod_small(i, n);
                assert(frag[f - 1 - i] == s[probe_end - 2 - i]);
            } else {
                lemma_mod_step(i - n, n);
                assert(base_matches(unit[n - 1 - ((i - n) % n)], s[probe_start - 2 - (i - n)]));
                assert(l2[a2 - 1 - (i - n)] == unit[n - 1 - ((i - n) % n)]);
            }
        }
        lemma_mod_step(a2, n);
    }
}

/// What the rolled insertion's alternate allele `l + unit + r` holds from the
/// inserted unit on: the unit repeated periodically.
proof fn lemma_rolled_right_part(unit: Seq<Base>, l: Seq<Base>, r: Seq<Base>)
    requires
        unit.len() > 0,
        r == periodic(unit, r.len()),
    ensures
        forall|k: int|
            l.len() <= k < (l + unit + r).len() ==> #[trigger] (l + unit + r)[k] == unit[(k
                - l.len()) % (unit.len() as int)],
{
    let n = unit.len() as int;
    let a = l.len() as int;
    let y = l + unit + r;
    assert forall|k: int| a <= k < y.len() implies #[trigger] y[k] == unit[(k - a) % n] by {
        if k < a + n {
            lemma_mod_small(k - a, n);
        } else {
            lemma_mod_step(k - a - n, n);
        }
    }
}

/// The rolled insertion's alternate allele repeats with the unit's period.
proof fn lemma_rolled_periodic(unit: Seq<Base>, l: Seq<Base>, r: Seq<Base>)
    requires
        unit.len() > 0,
        r == periodic(unit, r.len()),
        forall|j: int|
            0 <= j < l.len() ==> #[trigger] l[j] == unit[unit.len() - 1 - ((l.len() - 1 - j) % (
            unit.len() as int))],
    ensures
        forall|i: int|
            0 <= i && i + unit.len() < (l + unit + r).len() ==> #[trigger] (l + unit + r)[i] == (l
                + unit + r)[i + unit.len()],
{
    let n = unit.len() as int;
    let a = l.len() as int;
    let y = l + unit + r;
    lemma_rolled_right_part(unit, l, r);
    assert forall|i: int| 0 <= i && i + n < y.len() implies #[trigger] y[i] == y[i + n] by {
        if i >= a {
            assert(y[i + n] == unit[(i + n - a) % n]);
            assert(y[i] == unit[(i - a) % n]);
            lemma_mod_step(i - a, n);
        } else if i + n >= a {
            assert(y[i + n] == unit[(i + n - a) % n]);
            lemma_mod_small(a - 1 - i, n);
            lemma_mod_small(i + n - a, n);
        } else {
            lemma_mod_step(a - 1 - i - n, n);
            assert(y[i + n] == l[i + n]);
            assert(y[i] == l[i]);
        }
    }
}

/// One place of the rolled insertion's reference allele `l + r`: it holds
/// what the alternate allele holds one unit further on, and what the first
/// unit of the alternate allele holds at that place modulo the unit's length.
proof fn lemma_rolled_at(unit: Seq<Base>, l: Seq<Base>, r: Seq<Base>, k: int)
    requires
        unit.len() > 0,
        r == periodic(unit, r.len()),
        forall|j: int|
            0 <= j < l.len() ==> #[trigger] l[j] == unit[unit.len() - 1 - ((l.len() - 1 - j) % (
            unit.len() as int))],
        0 <= k < (l + r).len(),
    ensures
        (l + r)[k] == (l + unit + r)[k + unit.len()],
        (l + r)[k] == (l + unit + r).take(unit.len() as int)[k % (unit.len() as int)],
{
    let n = unit.len() as int;
    let y = l + unit + r;
    lemma_rolled_periodic(unit, l, r);
    if k < l.len() {
        assert(y[k] == y[k + n]);
    }
    lemma_periodic_reduce(y, n, k);
    lemma_mod_pos_bound(k, n);
}

/// The place of the rolled insertion's alternate allele just past the
/// reference allele's length holds what the unit holds there periodically.
proof fn lemma_rolled_end(unit: Seq<Base>, l: Seq<Base>, r: Seq<Base>)
    requires
        unit.len() > 0,
        r == periodic(unit, r.len()),
        forall|j: int|
            0 <= j < l.len() ==> #[trigger] l[j] == unit[unit.len() - 1 - ((l.len() - 1 - j) % (
            unit.len() as int))],
    ensures
        (l + unit + r).take(unit.len() as int)[((l + r).len() as int) % (unit.len() as int)]
            == unit[(r.len() as int) % (unit.len() as int)],
{
    let n = unit.len() as int;
    let y = l + unit + r;
    let m = (l + r).len() as int;
    lemma_rolled_periodic(unit, l, r);
    lemma_periodic_reduce(y, n, m);
    lemma_rolled_right_part(unit, l, r);
    assert(y[m] == unit[(m - l.len()) % n]);
    lemma_mod_pos_bound(m, n);
}

/// The last base of the rolled insertion's first unit.
proof fn lemma_rolled_first_unit_end(unit: Seq<Base>, l: Seq<Base>, r: Seq<Base>)
    requires
        unit.len() > 0,
        r == periodic(unit, r.len()),
        forall|j: int|
            0 <= j < l.len() ==> #[trigger] l[j] == unit[unit.len() - 1 - ((l.len() - 1 - j) % (
            unit.len() as int))],
    ensures
        (l + unit + r)[unit.len() - 1] == unit[unit.len() - 1 - ((l.len() as int) % (
        unit.len() as int))],
{
    let n = unit.len() as int;
    let a = l.len() as int;
    let y = l + unit + r;
    if n - 1 < a {
        assert(y[n - 1] == l[n - 1]);
        lemma_mod_step(a - n, n);
    } else {
        lemma_rolled_right_part(unit, l, r);
        assert(y[n - 1] == unit[(n - 1 - a) % n]);
        lemma_mod_small(n - 1 - a, n);
        lemma_mod_small(a, n);
    }
}

/// The alleles of a rolled insertion: the reference allele `l + r` is the
/// alternate allele `l + unit + r` without its first unit, and repeats the
/// alternate allele's first unit periodically.
pub proof fn lemma_rolled_insertion_alleles(unit: Seq<Base>, l: Seq<Base>, r: Seq<Base>)
    requires
        unit.len() > 0,
        r == periodic(unit, r.len()),
        forall|j: int|
            0 <= j < l.len() ==> #[trigger] l[j] == unit[unit.len() - 1 - ((l.len() - 1 - j) % (
            unit.len() as int))],
    ensures
        ({
            let n = unit.len() as int;
            let y = l + unit + r;
            let x = l + r;
            &&& forall|k: int| 0 <= k < x.len() ==> #[trigger] x[k] == y[k + n]
            &&& forall|k: int| 0 <= k < x.len() ==> #[trigger] x[k] == y.take(n)[k % n]
            &&& y.take(n)[(x.len() as int) % n] == unit[(r.len() as int) % n]
            &&& y[n - 1] == unit[n - 1 - ((l.len() as int) % n)]
        }),
{
    let n = unit.len() as int;
    let y = l + unit + r;
    let x = l + r;
    assert forall|k: int| 0 <= k < x.len() implies #[trigger] x[k] == y[k + n] by {
        lemma_rolled_at(unit, l, r, k);
    }
    assert forall|k: int| 0 <= k < x.len() implies #[trigger] x[k] == y.take(n)[k % n] by {
        lemma_rolled_at(unit, l, r, k);
    }
    lemma_rolled_end(unit, l, r);
    lemma_rolled_first_unit_end(unit, l, r);
}

/// A sequence that repeats with period `n` holds at each place what it holds
/// at that place taken modulo `n`.
proof fn lemma_periodic_reduce(y: Seq<Base>, n: int, k: int)
    requires
        n > 0,
        0 <= k < y.len(),
        forall|i: int| 0 <= i && i + n < y.len() ==> #[trigger] y[i] == y[i + n],
    ensures
        y[k] == y[k % n],
    decreases k,
{
    if k < n {
        lemma_mod_small(k, n);
    } else {
        lemma_periodic_reduce(y, n, k - n);
        lemma_mod_step(k - n, n);
        assert(y[k - n] == y[k - n + n]);
    }
}

/// The number of whole windows of `n` letters before position `k`.
pub proof fn lemma_window_index(k: int, n: int)
    requires
        k >= 0,
        n > 0,
    ensures
        (k / n) * n <= k < (k / n + 1) * n,
        k / n >= 0,
{
    lemma_fundamental_div_mod(k, n);
    lemma_mod_pos_bound(k, n);
    assert((k / n) * n <= k < (k / n + 1) * n) by (nonlinear_arith)
        requires
            k == n * (k / n) + (k % n),
            0 <= k % n < n,
    ;
    assert(k / n >= 0) by (nonlinear_arith)
        requires
            k == n * (k / n) + (k % n),
            0 <= k % n < n,
            n > 0,
            k >= 0,
    ;
}

} // verus!
