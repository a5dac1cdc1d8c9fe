//! Parsimonious trimming: the shared suffix, then the shared prefix, of the
//! reference and alternate alleles are cut away.
use vstd::prelude::*;

use crate::util::Base;

verus! {

/// How many leading bases `a` and `b` share.
pub open spec fn common_prefix_len(a: Seq<Base>, b: Seq<Base>) -> nat
    decreases a.len(),
{
    if a.len() == 0 || b.len() == 0 || a[0] != b[0] {
        0
    } else {
        1 + common_prefix_len(a.drop_first(), b.drop_first())
    }
}

/// How many trailing bases `a` and `b` share.
pub open spec fn common_suffix_len(a: Seq<Base>, b: Seq<Base>) -> nat
    decreases a.len(),
{
    if a.len() == 0 || b.len() == 0 || a.last() != b.last() {
        0
    } else {
        1 + common_suffix_len(a.drop_last(), b.drop_last())
    }
}

/// The common prefix length is the first offset at which the two differ, or
/// the shorter length when they never do.
pub proof fn lemma_common_prefix_len(a: Seq<Base>, b: Seq<Base>, k: int)
    requires
        0 <= k <= a.len(),
        k <= b.len(),
        forall|j: int| 0 <= j < k ==> a[j] == b[j],
        k == a.len() || k == b.len() || a[k] != b[k],
    ensures
        common_prefix_len(a, b) == k,
    decreases k,
{
    if k > 0 {
        lemma_common_prefix_len(a.drop_first(), b.drop_first(), k - 1);
    }
}

/// The common suffix length is the first offset from the end at which the two
/// differ, or the shorter length when they never do.
pub proof fn lemma_common_suffix_len(a: Seq<Base>, b: Seq<Base>, k: int)
    requires
        0 <= k <= a.len(),
        k <= b.len(),
        forall|i: int| a.len() - k <= i < a.len() ==> #[trigger] a[i] == b[i + b.len() - a.len()],
        k == a.len() || k == b.len() || a[a.len() - k - 1] != b[b.len() - k - 1],
    ensures
        common_suffix_len(a, b) == k,
    decreases k,
{
    if k > 0 {
        let a2 = a.drop_last();
        let b2 = b.drop_last();
        assert forall|i: int| a2.len() - (k - 1) <= i < a2.len() implies #[trigger] a2[i] == b2[i
            + b2.len() - a2.len()] by {
            assert(a[i] == b[i + b.len() - a.len()]);
        }
        lemma_common_suffix_len(a2, b2, k - 1);
    }
}

/// The bases before the common prefix length agree, and the first bases
/// after it (where both have one) differ.
pub proof fn lemma_common_prefix_props(a: Seq<Base>, b: Seq<Base>)
    ensures
        common_prefix_len(a, b) <= a.len(),
        common_prefix_len(a, b) <= b.len(),
        forall|j: int| 0 <= j < common_prefix_len(a, b) ==> #[trigger] a[j] == b[j],
        common_prefix_len(a, b) < a.len() && common_prefix_len(a, b) < b.len() ==> a[common_prefix_len(
            a,
            b,
        ) as int] != b[common_prefix_len(a, b) as int],
    decreases a.len(),
{
    if a.len() > 0 && b.len() > 0 && a[0] == b[0] {
        lemma_common_prefix_props(a.drop_first(), b.drop_first());
        assert forall|j: int| 0 <= j < common_prefix_len(a, b) implies #[trigger] a[j] == b[j] by {
            if j > 0 {
                assert(a.drop_first()[j - 1] == b.drop_first()[j - 1]);
            }
        }
    }
}

/// The bases within the common suffix length of the ends agree, and the last
/// bases before it (where both have one) differ.
pub proof fn lemma_common_suffix_props(a: Seq<Base>, b: Seq<Base>)
    ensures
        common_suffix_len(a, b) <= a.len(),
        common_suffix_len(a, b) <= b.len(),
        forall|j: int|
            a.len() - common_suffix_len(a, b) <= j < a.len() ==> #[trigger] a[j] == b[j + b.len()
                - a.len()],
        common_suffix_len(a, b) < a.len() && common_suffix_len(a, b) < b.len() ==> a[a.len()
            - common_suffix_len(a, b) - 1] != b[b.len() - common_suffix_len(a, b) - 1],
    decreases a.len(),
{
    if a.len() > 0 && b.len() > 0 && a.last() == b.last() {
        let a2 = a.drop_last();
        let b2 = b.drop_last();
        lemma_common_suffix_props(a2, b2);
        assert forall|j: int|
            a.len() - common_suffix_len(a, b) <= j < a.len() implies #[trigger] a[j] == b[j
            + b.len() - a.len()] by {
            if j < a.len() - 1 {
                assert(a2[j] == b2[j + b2.len() - a2.len()]);
            }
        }
    }
}

/// The starts that `trim_left` gives for the ranges `rs..re` of `r` and `as_..ae` of `a`.
pub open spec fn trim_left_spec(r: Seq<Base>, a: Seq<Base>, rs: int, re: int, as_: int, ae: int) -> (
    int,
    int,
) {
    let k = common_prefix_len(r.subrange(rs, re), a.subrange(as_, ae)) as int;
    (rs + k, as_ + k)
}

/// The ends that `trim_right` gives for the ranges `rs..re` of `r` and `as_..ae` of `a`.
pub open spec fn trim_right_spec(r: Seq<Base>, a: Seq<Base>, rs: int, re: int, as_: int, ae: int) -> (
    int,
    int,
) {
    let k = common_suffix_len(r.subrange(rs, re), a.subrange(as_, ae)) as int;
    (re - k, ae - k)
}

/// Trimming the shared suffix and then the shared prefix of two alleles loses
/// nothing and leaves nothing more to trim: the cut prefixes are the same in
/// both alleles, so are the cut suffixes, each allele is its prefix, middle and
/// suffix put back together, and where both middles have bases they differ in
/// their first base and in their last.
pub proof fn lemma_trim_is_parsimonious(r: Seq<Base>, a: Seq<Base>)
    ensures
        ({
            let (re, ae) = trim_right_spec(r, a, 0, r.len() as int, 0, a.len() as int);
            let (rs, as_) = trim_left_spec(r, a, 0, re, 0, ae);
            &&& 0 <= rs <= re <= r.len()
            &&& 0 <= as_ <= ae <= a.len()
            &&& r.take(rs) == a.take(as_)
            &&& r.skip(re) == a.skip(ae)
            &&& r == r.take(rs) + r.subrange(rs, re) + r.skip(re)
            &&& a == a.take(as_) + a.subrange(as_, ae) + a.skip(ae)
            &&& (rs < re && as_ < ae) ==> r[rs] != a[as_] && r[re - 1] != a[ae - 1]
        }),
{
    let (re, ae) = trim_right_spec(r, a, 0, r.len() as int, 0, a.len() as int);
    assert(r.subrange(0, r.len() as int) == r);
    assert(a.subrange(0, a.len() as int) == a);
    lemma_common_suffix_props(r, a);
    let ks = common_suffix_len(r, a) as int;
    let rp = r.subrange(0, re);
    let ap = a.subrange(0, ae);
    lemma_common_prefix_props(rp, ap);
    let (rs, as_) = trim_left_spec(r, a, 0, re, 0, ae);
    assert(r.take(rs) =~= a.take(as_)) by {
        assert forall|j: int| 0 <= j < rs implies r.take(rs)[j] == a.take(as_)[j] by {
            assert(rp[j] == ap[j]);
        }
    }
    assert(r.skip(re) =~= a.skip(ae)) by {
        assert forall|j: int| 0 <= j < r.len() - re implies r.skip(re)[j] == a.skip(ae)[j] by {
            assert(r[re + j] == a[re + j + a.len() - r.len()]);
        }
    }
    assert(r =~= r.take(rs) + r.subrange(rs, re) + r.skip(re));
    assert(a =~= a.take(as_) + a.subrange(as_, ae) + a.skip(ae));
    if rs < re && as_ < ae {
        assert(rp[rs] == r[rs]);
        assert(ap[as_] == a[as_]);
    }
}

/// Moves both starts right past the bases that the two ranges share at their left ends.
pub fn trim_left(
    ref_bases: &[Base],
    alt_bases: &[Base],
    ref_start: usize,
    ref_end: usize,
    alt_start: usize,
    alt_end: usize,
) -> (r: (usize, usize))
    requires
        ref_start <= ref_end <= ref_bases@.len(),
        alt_start <= alt_end <= alt_bases@.len(),
    ensures
        ref_start <= r.0 <= ref_end,
        alt_start <= r.1 <= alt_end,
        (r.0 as int, r.1 as int) == trim_left_spec(
            ref_bases@,
            alt_bases@,
            ref_start as int,
            ref_end as int,
            alt_start as int,
            alt_end as int,
        ),
{
    let ref_span = ref_end - ref_start;
    let alt_span = alt_end - alt_start;
    let span = if ref_span < alt_span {
        ref_span
    } else {
        alt_span
    };
    let ghost ra = ref_bases@.subrange(ref_start as int, ref_end as int);
    let ghost aa = alt_bases@.subrange(alt_start as int, alt_end as int);
    let mut i: usize = 0;
    while i < span
        invariant
            span <= ref_span == ref_end - ref_start,
            span <= alt_span == alt_end - alt_start,
            (span == ref_span || span == alt_span),
            ref_start <= ref_end <= ref_bases@.len(),
            alt_start <= alt_end <= alt_bases@.len(),
            ra == ref_bases@.subrange(ref_start as int, ref_end as int),
            aa == alt_bases@.subrange(alt_start as int, alt_end as int),
            i <= span,
            forall|j: int| 0 <= j < i ==> ra[j] == aa[j],
        decreases span - i,
    {
        if ref_bases[ref_start + i] != alt_bases[alt_start + i] {
            proof {
                lemma_common_prefix_len(ra, aa, i as int);
            }
            return (ref_start + i, alt_start + i);
        }
        i += 1;
    }
    proof {
        lemma_common_prefix_len(ra, aa, i as int);
    }
    (ref_start + i, alt_start + i)
}

/// Moves both ends left past the bases that the two ranges share at their right ends.
pub fn trim_right(
    ref_bases: &[Base],
    alt_bases: &[Base],
    ref_start: usize,
    ref_end: usize,
    alt_start: usize,
    alt_end: usize,
) -> (r: (usize, usize))
    requires
        ref_start <= ref_end <= ref_bases@.len(),
        alt_start <= alt_end <= alt_bases@.len(),
    ensures
        ref_start <= r.0 <= ref_end,
        alt_start <= r.1 <= alt_end,
        (r.0 as int, r.1 as int) == trim_right_spec(
            ref_bases@,
            alt_bases@,
            ref_start as int,
            ref_end as int,
            alt_start as int,
            alt_end as int,
        ),
{
    let ref_span = ref_end - ref_start;
    let alt_span = alt_end - alt_start;
    let span = if ref_span < alt_span {
        ref_span
    } else {
        alt_span
    };
    let ghost ra = ref_bases@.subrange(ref_start as int, ref_end as int);
    let ghost aa = alt_bases@.subrange(alt_start as int, alt_end as int);
    let mut i: usize = 0;
    while i < span
        invariant
            span <= ref_span == ref_end - ref_start,
            span <= alt_span == alt_end - alt_start,
            (span == ref_span || span == alt_span),
            ref_start <= ref_end <= ref_bases@.len(),
            alt_start <= alt_end <= alt_bases@.len(),
            ra == ref_bases@.subrange(ref_start as int, ref_end as int),
            aa == alt_bases@.subrange(alt_start as int, alt_end as int),
            i <= span,
            forall|j: int| ra.len() - i <= j < ra.len() ==> #[trigger] ra[j] == aa[j + aa.len() - ra.len()],
        decreases span - i,
    {
        if ref_bases[ref_end - 1 - i] != alt_bases[alt_end - 1 - i] {
            proof {
                lemma_common_suffix_len(ra, aa, i as int);
            }
            return (ref_end - i, alt_end - i);
        }
        i += 1;
    }
    proof {
        lemma_common_suffix_len(ra, aa, i as int);
    }
    (ref_end - i, alt_end - i)
}

} // verus!
