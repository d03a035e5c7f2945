use vstd::prelude::*;
use vstd::arithmetic::power2::{
    lemma2_to64, lemma2_to64_rest, lemma_pow2_adds, lemma_pow2_pos, lemma_pow2_strictly_increases,
    pow2,
};

verus! {

/// Largest scale exponent the library accepts.
///
/// A value is an `i64` numerator read at a power-of-two scale: the numerator
/// divided by `2^scale`. Keeping every scale at or below this bound lets two
/// values be aligned to a common scale inside `i128` arithmetic: a numerator
/// of magnitude at most `2^64` shifted by at most `62` stays below `2^127`.
pub const SCALE_LIMIT: u32 = 62;

/// The value `a_num / 2^a_scale` is at most `b_num / 2^b_scale`.
///
/// Written in cross-multiplied form, which is exact for all integers: both
/// sides are multiplied by the positive quantity `2^(a_scale + b_scale)`.
pub open spec fn le_at(a_num: int, a_scale: nat, b_num: int, b_scale: nat) -> bool {
    a_num * pow2(b_scale) <= b_num * pow2(a_scale)
}

/// Comparing at a common scale agrees with the cross-multiplied comparison:
/// when `sa <= sb`, scaling `a` up by `2^(sb - sa)` and comparing numerators
/// at scale `sb` decides `le_at`.
pub proof fn lemma_le_at_align(a_num: int, sa: nat, b_num: int, sb: nat)
    requires
        sa <= sb,
    ensures
        le_at(a_num, sa, b_num, sb) <==> a_num * pow2((sb - sa) as nat) <= b_num,
{
    lemma_pow2_adds((sb - sa) as nat, sa);
    lemma_pow2_pos(sa);
    lemma_pow2_pos((sb - sa) as nat);
    assert((a_num * pow2((sb - sa) as nat) <= b_num) <==> (a_num * (pow2((sb - sa) as nat)
        * pow2(sa)) <= b_num * pow2(sa))) by (nonlinear_arith)
        requires
            pow2(sa) > 0,
    ;
    assert(a_num * (pow2((sb - sa) as nat) * pow2(sa)) == a_num * pow2(sb)) by (nonlinear_arith)
        requires
            pow2((sb - sa) as nat) * pow2(sa) == pow2(sb),
    ;
}

/// Doubling a numerator while raising its scale by one leaves the value,
/// and hence every comparison against it, unchanged.
pub proof fn lemma_le_at_double(a: int, sa: nat, b: int, sb: nat)
    ensures
        le_at(2 * a, sa + 1, b, sb) <==> le_at(a, sa, b, sb),
        le_at(b, sb, 2 * a, sa + 1) <==> le_at(b, sb, a, sa),
{
    lemma_pow2_adds(sa, 1);
    lemma2_to64();
    assert(pow2(sa + 1) == 2 * pow2(sa));
    assert((2 * a * pow2(sb) <= b * (2 * pow2(sa))) <==> (a * pow2(sb) <= b * pow2(sa)))
        by (nonlinear_arith);
    assert((b * (2 * pow2(sa)) <= 2 * a * pow2(sb)) <==> (b * pow2(sa) <= a * pow2(sb)))
        by (nonlinear_arith);
}

/// Multiply `v` by `2^k`, exactly, in `i128` arithmetic.
pub(crate) fn scale_up(v: i128, k: u32) -> (r: i128)
    requires
        k <= SCALE_LIMIT,
        -0x1_0000_0000_0000_0000 <= v <= 0x1_0000_0000_0000_0000,
    ensures
        r == v * pow2(k as nat),
{
    let mut acc: i128 = v;
    let mut j: u32 = 0;
    proof {
        lemma2_to64();
        assert(acc == v * pow2(0));
    }
    while j < k
        invariant
            0 <= j <= k,
            k <= SCALE_LIMIT,
            -0x1_0000_0000_0000_0000 <= v <= 0x1_0000_0000_0000_0000,
            acc == v * pow2(j as nat),
        decreases k - j,
    {
        proof {
            lemma_pow2_pos(j as nat);
            if (j as nat) < 61 {
                lemma_pow2_strictly_increases(j as nat, 61);
            }
            lemma2_to64_rest();
            assert(pow2(61) == 0x2000_0000_0000_0000);
            assert(-0x8000_0000_0000_0000_0000_0000_0000_0000 <= acc * 2 * 2
                && acc * 2 <= 0x8000_0000_0000_0000_0000_0000_0000_0000 - 1) by (nonlinear_arith)
                requires
                    acc == v * pow2(j as nat),
                    -0x1_0000_0000_0000_0000 <= v <= 0x1_0000_0000_0000_0000,
                    0 < pow2(j as nat) <= 0x2000_0000_0000_0000,
            ;
            lemma_pow2_adds(j as nat, 1);
            lemma2_to64();
            assert(v * pow2(j as nat) * 2 == v * pow2(j as nat + 1)) by (nonlinear_arith)
                requires
                    pow2(j as nat + 1) == pow2(j as nat) * pow2(1),
                    pow2(1) == 2,
            ;
        }
        acc = acc * 2;
        j = j + 1;
    }
    acc
}

/// Decide whether `a_num / 2^a_scale <= b_num / 2^b_scale` by aligning both
/// numerators to the larger of the two scales.
pub(crate) fn le_at_exec(a_num: i128, a_scale: u32, b_num: i128, b_scale: u32) -> (r: bool)
    requires
        a_scale <= SCALE_LIMIT,
        b_scale <= SCALE_LIMIT,
        -0x1_0000_0000_0000_0000 <= a_num <= 0x1_0000_0000_0000_0000,
        -0x1_0000_0000_0000_0000 <= b_num <= 0x1_0000_0000_0000_0000,
    ensures
        r == le_at(a_num as int, a_scale as nat, b_num as int, b_scale as nat),
{
    if a_scale <= b_scale {
        let shifted = scale_up(a_num, b_scale - a_scale);
        proof {
            lemma_le_at_align(a_num as int, a_scale as nat, b_num as int, b_scale as nat);
        }
        shifted <= b_num
    } else {
        let shifted = scale_up(b_num, a_scale - b_scale);
        proof {
            lemma_le_at_align_flip(a_num as int, a_scale as nat, b_num as int, b_scale as nat);
        }
        a_num <= shifted
    }
}

/// Mirror of `lemma_le_at_align` for the case where `a` has the larger scale.
pub proof fn lemma_le_at_align_flip(a_num: int, sa: nat, b_num: int, sb: nat)
    requires
        sb <= sa,
    ensures
        le_at(a_num, sa, b_num, sb) <==> a_num <= b_num * pow2((sa - sb) as nat),
{
    lemma_pow2_adds((sa - sb) as nat, sb);
    lemma_pow2_pos(sb);
    lemma_pow2_pos((sa - sb) as nat);
    assert((a_num <= b_num * pow2((sa - sb) as nat)) <==> (a_num * pow2(sb) <= b_num * (pow2((sa
        - sb) as nat) * pow2(sb)))) by (nonlinear_arith)
        requires
            pow2(sb) > 0,
    ;
    assert(b_num * (pow2((sa - sb) as nat) * pow2(sb)) == b_num * pow2(sa)) by (nonlinear_arith)
        requires
            pow2((sa - sb) as nat) * pow2(sb) == pow2(sa),
    ;
}

/// Compute `2^e` as a `usize`.
pub(crate) fn pow2_usize(e: usize) -> (r: usize)
    requires
        pow2(e as nat) <= usize::MAX,
    ensures
        r == pow2(e as nat),
{
    let mut acc: usize = 1;
    let mut j: usize = 0;
    proof {
        lemma2_to64();
    }
    while j < e
        invariant
            0 <= j <= e,
            pow2(e as nat) <= usize::MAX,
            acc == pow2(j as nat),
        decreases e - j,
    {
        proof {
            if j as nat + 1 < e as nat {
                lemma_pow2_strictly_increases(j as nat + 1, e as nat);
            }
            lemma_pow2_adds(j as nat, 1);
            lemma2_to64();
            assert(pow2(j as nat + 1) == pow2(j as nat) * 2) by (nonlinear_arith)
                requires
                    pow2(j as nat + 1) == pow2(j as nat) * pow2(1),
                    pow2(1) == 2,
            ;
        }
        acc = acc * 2;
        j = j + 1;
    }
    acc
}

} // verus!
