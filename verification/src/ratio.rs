//! Renormalization of sibling size ratios.
//!
//! After a child joins, leaves, or changes its tiling participation, the
//! ratios of a parent's tiling children are reassigned from cumulative
//! integer boundaries so that they sum to exactly `RATIO_UNIT`: the
//! boundary of the first `i` weights is `whole * presum(i) / total`, and
//! each child receives the difference of its two boundaries, so the sum
//! telescopes to `whole * total / total == whole`.

use vstd::arithmetic::div_mod::{
    lemma_div_is_ordered, lemma_div_multiples_vanish, lemma_div_nonincreasing,
};
use vstd::arithmetic::mul::lemma_mul_inequality;
use vstd::prelude::*;

use crate::tree::{has_tiling_child, ratio_sum, Container, RATIO_UNIT};

verus! {

/// Weight of one sibling in a rescale pass: `0` for containers that do
/// not participate in tiling and for the fixed child (whose new ratio is
/// given, not derived); otherwise the old ratio in weighted mode, or `1`
/// in uniform mode.
pub open spec fn rescale_weight(c: Container, fixed: Option<u64>, uniform: bool) -> int {
    if !c.participates_in_tiling() || fixed == Some(c.id) {
        0
    } else if uniform {
        1
    } else {
        c.ratio as int
    }
}

/// Sum of the rescale weights of the first `i` siblings.
pub open spec fn weight_presum(
    s: Seq<Container>,
    fixed: Option<u64>,
    uniform: bool,
    i: int,
) -> int
    decreases i,
{
    if i <= 0 {
        0
    } else {
        weight_presum(s, fixed, uniform, i - 1) + rescale_weight(s[i - 1], fixed, uniform)
    }
}

/// Sum of the tiling ratios of the first `i` siblings.
pub open spec fn ratio_presum(s: Seq<Container>, i: int) -> int
    decreases i,
{
    if i <= 0 {
        0
    } else {
        ratio_presum(s, i - 1) + s[i - 1].tiling_ratio()
    }
}

/// The head-recursive `ratio_sum` equals the prefix sum over the whole
/// sequence.
pub proof fn lemma_ratio_sum_is_presum(s: Seq<Container>)
    ensures
        ratio_sum(s) == ratio_presum(s, s.len() as int),
    decreases s.len(),
{
    if s.len() > 0 {
        lemma_ratio_sum_is_presum(s.drop_first());
        lemma_ratio_presum_shift(s, s.len() as int);
    }
}

/// Prefix sums commute with dropping the first element.
proof fn lemma_ratio_presum_shift(s: Seq<Container>, i: int)
    requires
        1 <= i <= s.len(),
    ensures
        ratio_presum(s, i) == s[0].tiling_ratio() + ratio_presum(s.drop_first(), i - 1),
    decreases i,
{
    if i == 1 {
        assert(ratio_presum(s, 0) == 0);
        assert(ratio_presum(s.drop_first(), 0) == 0);
    } else {
        lemma_ratio_presum_shift(s, i - 1);
        assert(s.drop_first()[i - 2] == s[i - 1]);
        assert(ratio_presum(s.drop_first(), i - 1) == ratio_presum(s.drop_first(), i - 2)
            + s.drop_first()[i - 2].tiling_ratio());
    }
}

/// The cumulative boundary: how much of `whole` the first `cum` weight
/// units are entitled to, out of `total` weight units.
pub open spec fn boundary(whole: int, cum: int, total: int) -> int {
    whole * cum / total
}

/// Boundaries are monotone and bounded by `whole`.
pub proof fn lemma_boundary_bounds(whole: int, c1: int, c2: int, total: int)
    requires
        0 < total,
        0 <= whole,
        0 <= c1 <= c2 <= total,
    ensures
        0 <= boundary(whole, c1, total) <= boundary(whole, c2, total) <= whole,
{
    lemma_mul_inequality(c1, c2, whole);
    lemma_div_is_ordered(whole * c1, whole * c2, total);
    lemma_mul_inequality(c2, total, whole);
    lemma_div_is_ordered(whole * c2, whole * total, total);
    lemma_div_multiples_vanish(whole, total);
    assert(whole * c1 >= 0) by (nonlinear_arith)
        requires
            whole >= 0,
            c1 >= 0,
    ;
    lemma_div_nonincreasing(whole * c1, total);
    assert(whole * c1 / total >= 0);
}

/// The boundary of the full weight range is the whole extent.
pub proof fn lemma_boundary_full(whole: int, total: int)
    requires
        0 < total,
        0 <= whole,
    ensures
        boundary(whole, total, total) == whole,
{
    lemma_div_multiples_vanish(whole, total);
    assert(whole * total == total * whole) by (nonlinear_arith);
}

/// Whether one of the first `i` siblings is the fixed child: a tiling
/// participant whose identifier is the fixed one.
pub open spec fn has_fixed(s: Seq<Container>, fixed: Option<u64>, i: int) -> bool
    decreases i,
{
    if i <= 0 {
        false
    } else {
        has_fixed(s, fixed, i - 1) || (s[i - 1].participates_in_tiling() && fixed == Some(
            s[i - 1].id,
        ))
    }
}

/// Uniform mode: every sibling that would take a derived share has old
/// ratio zero, so old ratios cannot serve as weights and each such
/// sibling weighs one instead.
pub open spec fn rescale_uniform(s: Seq<Container>, fixed: Option<u64>) -> bool {
    weight_presum(s, fixed, false, s.len() as int) == 0
}

/// Total weight of the siblings whose share is derived.
pub open spec fn rescale_total(s: Seq<Container>, fixed: Option<u64>) -> int {
    weight_presum(s, fixed, rescale_uniform(s, fixed), s.len() as int)
}

/// The extent left for derived shares: all of `RATIO_UNIT`, minus the
/// fixed child's ratio when a fixed child and derived siblings coexist.
pub open spec fn rescale_whole(s: Seq<Container>, fixed: Option<u64>, fixed_ratio: u32) -> int {
    if has_fixed(s, fixed, s.len() as int) && rescale_total(s, fixed) > 0 {
        RATIO_UNIT as int - fixed_ratio as int
    } else {
        RATIO_UNIT as int
    }
}

/// New tiling ratio of sibling `j` after a rescale: the fixed child gets
/// the requested ratio (all of `RATIO_UNIT` when it is alone), every
/// other participant the difference of its two cumulative boundaries.
pub open spec fn rescaled_ratio(
    s: Seq<Container>,
    fixed: Option<u64>,
    fixed_ratio: u32,
    j: int,
) -> int {
    let u = rescale_uniform(s, fixed);
    let total = rescale_total(s, fixed);
    let whole = rescale_whole(s, fixed, fixed_ratio);
    if s[j].participates_in_tiling() && fixed == Some(s[j].id) {
        if total > 0 {
            fixed_ratio as int
        } else {
            RATIO_UNIT as int
        }
    } else {
        boundary(whole, weight_presum(s, fixed, u, j) + rescale_weight(s[j], fixed, u), total)
            - boundary(whole, weight_presum(s, fixed, u, j), total)
    }
}

/// Weight prefix sums are monotone: every weight is non-negative.
proof fn lemma_weight_presum_mono(s: Seq<Container>, fixed: Option<u64>, u: bool, i: int, j: int)
    requires
        0 <= i <= j,
    ensures
        weight_presum(s, fixed, u, i) <= weight_presum(s, fixed, u, j),
    decreases j - i,
{
    if i < j {
        lemma_weight_presum_mono(s, fixed, u, i, j - 1);
    }
}

/// Weight prefix sums of bounded ratios are bounded.
proof fn lemma_weight_presum_bound(s: Seq<Container>, fixed: Option<u64>, u: bool, i: int)
    requires
        0 <= i <= s.len(),
        forall|j: int| 0 <= j < s.len() ==> #[trigger] s[j].ratio <= RATIO_UNIT,
    ensures
        weight_presum(s, fixed, u, i) <= i * (RATIO_UNIT as int),
    decreases i,
{
    if i > 0 {
        lemma_weight_presum_bound(s, fixed, u, i - 1);
    }
}

/// A derived sibling below `i` makes the weight prefix sum positive.
proof fn lemma_weight_presum_pos(s: Seq<Container>, fixed: Option<u64>, u: bool, j: int, i: int)
    requires
        0 <= j < i,
        rescale_weight(s[j], fixed, u) > 0,
    ensures
        weight_presum(s, fixed, u, i) > 0,
{
    lemma_weight_presum_mono(s, fixed, u, 0, j);
    lemma_weight_presum_mono(s, fixed, u, j + 1, i);
}

/// When the total weight is zero, no sibling takes a derived share.
proof fn lemma_total_zero_no_derived(s: Seq<Container>, fixed: Option<u64>, j: int)
    requires
        0 <= j < s.len(),
        rescale_total(s, fixed) == 0,
        s[j].participates_in_tiling(),
    ensures
        fixed == Some(s[j].id),
{
    let u = rescale_uniform(s, fixed);
    if fixed != Some(s[j].id) {
        if u {
            assert(rescale_weight(s[j], fixed, true) == 1);
            lemma_weight_presum_pos(s, fixed, true, j, s.len() as int);
        } else {
            assert(weight_presum(s, fixed, false, s.len() as int) > 0);
        }
    }
}

/// A fixed child at index `j` is seen by `has_fixed` at any larger bound.
proof fn lemma_has_fixed_at(s: Seq<Container>, fixed: Option<u64>, j: int, i: int)
    requires
        0 <= j < i,
        s[j].participates_in_tiling(),
        fixed == Some(s[j].id),
    ensures
        has_fixed(s, fixed, i),
    decreases i,
{
    if j < i - 1 {
        lemma_has_fixed_at(s, fixed, j, i - 1);
    }
}

/// `ratio_presum` reads only the first `i` entries.
proof fn lemma_ratio_presum_ext(s1: Seq<Container>, s2: Seq<Container>, i: int)
    requires
        forall|k: int| 0 <= k < i ==> s1[k] == s2[k],
    ensures
        ratio_presum(s1, i) == ratio_presum(s2, i),
    decreases i,
{
    if i > 0 {
        lemma_ratio_presum_ext(s1, s2, i - 1);
    }
}

/// Reassigns the ratios of every tiling participant in `children` so
/// that they sum to exactly `RATIO_UNIT`: the child named by `fixed`
/// (if present and participating) gets `fixed_ratio`, the others split
/// the rest in proportion to their old ratios (evenly when all old
/// ratios are zero). Non-participating children and every other field
/// are left untouched.
#[verifier::loop_isolation(false)]
pub fn rescale_ratios(children: &mut Vec<Container>, fixed: Option<u64>, fixed_ratio: u32)
    requires
        fixed_ratio <= RATIO_UNIT,
        old(children)@.len() <= 0x0100_0000,
        forall|j: int|
            0 <= j < old(children)@.len() ==> #[trigger] old(children)@[j].ratio <= RATIO_UNIT,
        forall|j: int, k: int|
            0 <= j < k < old(children)@.len() && fixed == Some(
                #[trigger] old(children)@[j].id,
            ) ==> fixed != Some(#[trigger] old(children)@[k].id),
    ensures
        final(children)@.len() == old(children)@.len(),
        forall|j: int|
            0 <= j < final(children)@.len() ==> (#[trigger] final(children)@[j]).id == old(children)@[j].id && final(children)@[j].kind == old(children)@[j].kind && final(children)@[j].children@ == old(children)@[j].children@ && final(children)@[j].ratio
                <= RATIO_UNIT,
        forall|j: int|
            0 <= j < final(children)@.len() && !(#[trigger] old(children)@[j]).participates_in_tiling() ==> final(children)@[j].ratio == old(children)@[j].ratio,
        forall|j: int|
            0 <= j < final(children)@.len() && (#[trigger] old(children)@[j]).participates_in_tiling() ==> final(children)@[j].ratio as int == rescaled_ratio(
                old(children)@,
                fixed,
                fixed_ratio,
                j,
            ),
        has_tiling_child(final(children)@) ==> ratio_sum(final(children)@) == RATIO_UNIT as int,
{
    let ghost orig = children@;
    let n = children.len();
    // First pass: total old weight, derived-sibling count, fixed child.
    let mut tw: u64 = 0;
    let mut cnt: u64 = 0;
    let mut seen: bool = false;
    let mut i: usize = 0;
    while i < n
        invariant
            n == children@.len(),
            children@ == orig,
            0 <= i <= n,
            n <= 0x0100_0000,
            forall|j: int| 0 <= j < n ==> #[trigger] orig[j].ratio <= RATIO_UNIT,
            tw == weight_presum(orig, fixed, false, i as int),
            cnt == weight_presum(orig, fixed, true, i as int),
            seen == has_fixed(orig, fixed, i as int),
            cnt <= i as u64,
        decreases n - i,
    {
        proof {
            lemma_weight_presum_bound(orig, fixed, false, i as int);
            lemma_mul_inequality(i as int, 0x0100_0000, RATIO_UNIT as int);
        }
        let participant = children[i].participates();
        let isfx = match fixed {
            Some(f) => children[i].id == f,
            None => false,
        };
        if participant && isfx {
            seen = true;
        } else if participant {
            tw = tw + children[i].ratio as u64;
            cnt = cnt + 1;
        }
        i += 1;
    }
    proof {
        assert(tw == weight_presum(orig, fixed, false, n as int));
        assert(cnt == weight_presum(orig, fixed, true, n as int));
    }
    let u: bool = tw == 0;
    let total: u64 = if u {
        cnt
    } else {
        tw
    };
    proof {
        assert(u == rescale_uniform(orig, fixed));
        assert(total as int == rescale_total(orig, fixed));
    }
    if total == 0 {
        // No sibling takes a derived share; the fixed child, if any,
        // spans the whole extent.
        let mut i: usize = 0;
        assert(ratio_presum(children@, 0) == 0);
        while i < n
            invariant
                n == children@.len(),
                0 <= i <= n,
                rescale_total(orig, fixed) == 0,
                rescale_uniform(orig, fixed) == u,
                fixed_ratio <= RATIO_UNIT,
                forall|j: int| i <= j < n ==> children@[j] == orig[j],
                forall|j: int|
                    0 <= j < n ==> (#[trigger] children@[j]).id == orig[j].id && children@[j].kind
                        == orig[j].kind && children@[j].children@ == orig[j].children@
                        && children@[j].ratio <= RATIO_UNIT,
                forall|j: int|
                    0 <= j < i && !(#[trigger] orig[j]).participates_in_tiling() ==> children@[j].ratio
                        == orig[j].ratio,
                forall|j: int|
                    0 <= j < i && (#[trigger] orig[j]).participates_in_tiling() ==> children@[j].ratio
                        as int == rescaled_ratio(orig, fixed, fixed_ratio, j),
                ratio_presum(children@, i as int) == if has_fixed(orig, fixed, i as int) {
                    RATIO_UNIT as int
                } else {
                    0
                },
            decreases n - i,
        {
            let ghost before = children@;
            let participant = children[i].participates();
            let isfx = match fixed {
                Some(f) => children[i].id == f,
                None => false,
            };
            if participant && isfx {
                let mut c = children.remove(i);
                c.ratio = RATIO_UNIT;
                children.insert(i, c);
                proof {
                    assert(children@ =~= before.update(i as int, children@[i as int]));
                }
            } else {
                proof {
                    if participant {
                        lemma_total_zero_no_derived(orig, fixed, i as int);
                        assert(false);
                    }
                }
            }
            proof {
                lemma_ratio_presum_ext(before, children@, i as int);
                if participant && isfx {
                    lemma_has_fixed_unique(orig, fixed, i as int, i as int);
                }
            }
            i += 1;
        }
        proof {
            lemma_ratio_sum_is_presum(children@);
            if has_tiling_child(children@) {
                let j = choose|j: int|
                    0 <= j < children@.len() && #[trigger] children@[j].participates_in_tiling();
                assert(orig[j].participates_in_tiling());
                lemma_total_zero_no_derived(orig, fixed, j);
                lemma_has_fixed_at(orig, fixed, j, n as int);
            }
        }
        return ;
    }
    let whole: u64 = if seen {
        (RATIO_UNIT - fixed_ratio) as u64
    } else {
        RATIO_UNIT as u64
    };
    proof {
        assert(whole as int == rescale_whole(orig, fixed, fixed_ratio));
        assert(ratio_presum(children@, 0) == 0);
        assert(weight_presum(orig, fixed, u, 0) == 0);
    }
    let mut cum: u64 = 0;
    let mut prev_b: u64 = 0;
    let mut i: usize = 0;
    while i < n
        invariant
            n == children@.len(),
            0 <= i <= n,
            n <= 0x0100_0000,
            fixed_ratio <= RATIO_UNIT,
            forall|j: int| 0 <= j < n ==> #[trigger] orig[j].ratio <= RATIO_UNIT,
            forall|j: int, k: int|
                0 <= j < k < n && fixed == Some(#[trigger] orig[j].id) ==> fixed != Some(
                    #[trigger] orig[k].id,
                ),
            total as int == rescale_total(orig, fixed),
            total > 0,
            u == rescale_uniform(orig, fixed),
            whole as int == rescale_whole(orig, fixed, fixed_ratio),
            whole <= RATIO_UNIT,
            seen == has_fixed(orig, fixed, n as int),
            forall|j: int| i <= j < n ==> children@[j] == orig[j],
            forall|j: int|
                0 <= j < n ==> (#[trigger] children@[j]).id == orig[j].id && children@[j].kind
                    == orig[j].kind && children@[j].children@ == orig[j].children@
                    && children@[j].ratio <= RATIO_UNIT,
            forall|j: int|
                0 <= j < i && !(#[trigger] orig[j]).participates_in_tiling() ==> children@[j].ratio
                    == orig[j].ratio,
            forall|j: int|
                0 <= j < i && (#[trigger] orig[j]).participates_in_tiling() ==> children@[j].ratio
                    as int == rescaled_ratio(orig, fixed, fixed_ratio, j),
            cum == weight_presum(orig, fixed, u, i as int),
            cum <= total,
            prev_b as int == boundary(whole as int, cum as int, total as int),
            prev_b <= whole,
            ratio_presum(children@, i as int) == prev_b as int + if has_fixed(
                orig,
                fixed,
                i as int,
            ) {
                fixed_ratio as int
            } else {
                0
            },
        decreases n - i,
    {
        let ghost before = children@;
        let participant = children[i].participates();
        let isfx = match fixed {
            Some(f) => children[i].id == f,
            None => false,
        };
        if participant && isfx {
            let mut c = children.remove(i);
            c.ratio = fixed_ratio;
            children.insert(i, c);
            proof {
                assert(children@ =~= before.update(i as int, children@[i as int]));
                lemma_has_fixed_unique(orig, fixed, i as int, i as int);
                assert(rescale_weight(orig[i as int], fixed, u) == 0);
            }
        } else if participant {
            let w: u64 = if u {
                1
            } else {
                children[i].ratio as u64
            };
            proof {
                assert(w as int == rescale_weight(orig[i as int], fixed, u));
                assert(weight_presum(orig, fixed, u, i as int + 1) == cum + w);
                lemma_weight_presum_mono(orig, fixed, u, i as int + 1, n as int);
                lemma_boundary_bounds(whole as int, cum as int, cum as int + w, total as int);
                lemma_boundary_bounds(whole as int, cum as int + w, total as int, total as int);
                lemma_boundary_full(whole as int, total as int);
                lemma_weight_presum_bound(orig, fixed, u, n as int);
                lemma_mul_inequality(n as int, 0x0100_0000, RATIO_UNIT as int);
                assert(whole as int * (cum as int + w as int) <= 0x0100_0000i64 * RATIO_UNIT as i64
                    * RATIO_UNIT as i64) by (nonlinear_arith)
                    requires
                        0 <= whole <= RATIO_UNIT,
                        0 <= cum as int + w as int <= total as int,
                        total as int <= 0x0100_0000 * RATIO_UNIT as int,
                ;
            }
            let cum2: u64 = cum + w;
            let b2: u64 = (whole * cum2) / total;
            let mut c = children.remove(i);
            c.ratio = (b2 - prev_b) as u32;
            children.insert(i, c);
            proof {
                assert(children@ =~= before.update(i as int, children@[i as int]));
            }
            cum = cum2;
            prev_b = b2;
        }
        proof {
            lemma_ratio_presum_ext(before, children@, i as int);
            if !participant {
                assert(children@[i as int].tiling_ratio() == 0);
            }
        }
        i += 1;
    }
    proof {
        lemma_weight_presum_mono(orig, fixed, u, n as int, n as int);
        assert(cum == total);
        lemma_boundary_full(whole as int, total as int);
        lemma_ratio_sum_is_presum(children@);
        if has_tiling_child(children@) {
        }
        if !has_fixed(orig, fixed, n as int) {
            assert(whole == RATIO_UNIT);
        }
    }
}

/// When sibling identifiers never repeat, a fixed child at index `i`
/// leaves no fixed child among the first `b <= i` siblings.
proof fn lemma_has_fixed_unique(s: Seq<Container>, fixed: Option<u64>, b: int, i: int)
    requires
        0 <= b <= i < s.len(),
        fixed == Some(s[i].id),
        forall|j: int, k: int|
            0 <= j < k < s.len() && fixed == Some(#[trigger] s[j].id) ==> fixed != Some(
                #[trigger] s[k].id,
            ),
    ensures
        !has_fixed(s, fixed, b),
    decreases b,
{
    if b > 0 {
        lemma_has_fixed_unique(s, fixed, b - 1, i);
    }
}


/// Rescale weights read only each sibling's identifier, ratio and
/// participation, so pointwise-agreeing lists share their prefix sums.
pub proof fn lemma_weight_presum_congruence(
    s1: Seq<Container>,
    s2: Seq<Container>,
    fixed: Option<u64>,
    u: bool,
    i: int,
)
    requires
        s1.len() == s2.len(),
        forall|j: int|
            0 <= j < s1.len() ==> (#[trigger] s1[j]).id == s2[j].id && s1[j].ratio == s2[j].ratio
                && s1[j].participates_in_tiling() == s2[j].participates_in_tiling(),
        0 <= i <= s1.len(),
    ensures
        weight_presum(s1, fixed, u, i) == weight_presum(s2, fixed, u, i),
    decreases i,
{
    if i > 0 {
        lemma_weight_presum_congruence(s1, s2, fixed, u, i - 1);
    }
}

/// `has_fixed` likewise depends only on identifiers and participation.
pub proof fn lemma_has_fixed_congruence(
    s1: Seq<Container>,
    s2: Seq<Container>,
    fixed: Option<u64>,
    i: int,
)
    requires
        s1.len() == s2.len(),
        forall|j: int|
            0 <= j < s1.len() ==> (#[trigger] s1[j]).id == s2[j].id
                && s1[j].participates_in_tiling() == s2[j].participates_in_tiling(),
        0 <= i <= s1.len(),
    ensures
        has_fixed(s1, fixed, i) == has_fixed(s2, fixed, i),
    decreases i,
{
    if i > 0 {
        lemma_has_fixed_congruence(s1, s2, fixed, i - 1);
    }
}

/// The whole rescale outcome is therefore the same on
/// pointwise-agreeing sibling lists.
pub proof fn lemma_rescaled_ratio_congruence(
    s1: Seq<Container>,
    s2: Seq<Container>,
    fixed: Option<u64>,
    fixed_ratio: u32,
    j: int,
)
    requires
        s1.len() == s2.len(),
        forall|j: int|
            0 <= j < s1.len() ==> (#[trigger] s1[j]).id == s2[j].id && s1[j].ratio == s2[j].ratio
                && s1[j].participates_in_tiling() == s2[j].participates_in_tiling(),
        0 <= j < s1.len(),
    ensures
        rescaled_ratio(s1, fixed, fixed_ratio, j) == rescaled_ratio(s2, fixed, fixed_ratio, j),
{
    lemma_weight_presum_congruence(s1, s2, fixed, false, s1.len() as int);
    lemma_weight_presum_congruence(s1, s2, fixed, true, s1.len() as int);
    lemma_weight_presum_congruence(s1, s2, fixed, rescale_uniform(s1, fixed), j);
    lemma_has_fixed_congruence(s1, s2, fixed, s1.len() as int);
    assert(rescale_uniform(s1, fixed) == rescale_uniform(s2, fixed));
    assert(rescale_total(s1, fixed) == rescale_total(s2, fixed));
    assert(rescale_whole(s1, fixed, fixed_ratio) == rescale_whole(s2, fixed, fixed_ratio));
    assert(rescale_weight(s1[j], fixed, rescale_uniform(s1, fixed)) == rescale_weight(
        s2[j],
        fixed,
        rescale_uniform(s2, fixed),
    ));
}

} // verus!
