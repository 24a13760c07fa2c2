use vstd::prelude::*;

verus! {

/// The emphasis of a session: how its lines are spread over the six sections.
#[derive(Clone, Copy, Debug, PartialEq, Eq, Structural)]
pub enum Template {
    Balanced,
    Alternation,
    Transitions,
    Precision,
    Endurance,
    WeakFocus,
}

/// The template a seed selects; `WeakFocus` only when there is a weakness.
pub open spec fn choose_spec(seed: u64, has_weakness: bool) -> Template {
    let r = seed % (if has_weakness { 6u64 } else { 5u64 });
    if r == 0 {
        Template::Balanced
    } else if r == 1 {
        Template::Alternation
    } else if r == 2 {
        Template::Transitions
    } else if r == 3 {
        Template::Precision
    } else if r == 4 {
        Template::Endurance
    } else {
        Template::WeakFocus
    }
}

/// The section weights of each template.
pub open spec fn allocation_spec(t: Template) -> Seq<usize> {
    match t {
        Template::Balanced => seq![4usize, 4, 4, 4, 4, 4],
        Template::Alternation => seq![4usize, 6, 5, 4, 3, 2],
        Template::Transitions => seq![3usize, 3, 4, 7, 4, 3],
        Template::Precision => seq![6usize, 5, 4, 3, 3, 3],
        Template::Endurance => seq![3usize, 3, 3, 4, 5, 6],
        Template::WeakFocus => seq![3usize, 3, 3, 4, 6, 5],
    }
}

impl Template {
    /// The template a seed selects.
    pub fn select(seed: u64, has_weakness: bool) -> (t: Self)
        ensures
            t == choose_spec(seed, has_weakness),
            !has_weakness ==> t != Template::WeakFocus,
    {
        let r = seed % if has_weakness { 6 } else { 5 };
        if r == 0 {
            Template::Balanced
        } else if r == 1 {
            Template::Alternation
        } else if r == 2 {
            Template::Transitions
        } else if r == 3 {
            Template::Precision
        } else if r == 4 {
            Template::Endurance
        } else {
            Template::WeakFocus
        }
    }

    /// The six section weights of the template.
    pub fn allocation(self) -> (w: [usize; 6])
        ensures
            w@ == allocation_spec(self),
    {
        let w = match self {
            Template::Balanced => [4usize, 4, 4, 4, 4, 4],
            Template::Alternation => [4usize, 6, 5, 4, 3, 2],
            Template::Transitions => [3usize, 3, 4, 7, 4, 3],
            Template::Precision => [6usize, 5, 4, 3, 3, 3],
            Template::Endurance => [3usize, 3, 3, 4, 5, 6],
            Template::WeakFocus => [3usize, 3, 3, 4, 6, 5],
        };
        assert(w@ =~= allocation_spec(self));
        w
    }
}

/// The sum of a sequence of counts.
pub open spec fn seq_sum(s: Seq<usize>) -> int
    decreases s.len(),
{
    if s.len() == 0 {
        0
    } else {
        seq_sum(s.drop_last()) + s.last()
    }
}

/// The starting share of each section: `total * weight / weight_total`, at least 1.
pub open spec fn initial_counts(total: usize, w: Seq<usize>) -> Seq<usize> {
    let wt = seq_sum(w);
    Seq::new(
        6,
        |i: int|
            if (total * w[i]) / wt >= 1 {
                ((total * w[i]) / wt) as usize
            } else {
                1usize
            },
    )
}

/// Whether section `i` comes strictly before section `j` when looking for the
/// section to grow: the smaller `count * weight_total`, then the larger weight.
pub open spec fn grows_before(c: Seq<usize>, w: Seq<usize>, wt: int, i: int, j: int) -> bool {
    c[i] * wt < c[j] * wt || (c[i] * wt == c[j] * wt && w[i] > w[j])
}

/// The first section among `0..=i` that comes first for growing.
pub open spec fn grow_pick(c: Seq<usize>, w: Seq<usize>, wt: int, i: int) -> int
    decreases i,
{
    if i <= 0 {
        0
    } else {
        let b = grow_pick(c, w, wt, i - 1);
        if grows_before(c, w, wt, i, b) {
            i
        } else {
            b
        }
    }
}

/// The last section among `0..=i` holding more than one line with the greatest
/// `count * weight_total / weight`, or -1 when none holds more than one.
pub open spec fn shrink_pick(c: Seq<usize>, w: Seq<usize>, wt: int, i: int) -> int
    decreases i + 1,
{
    if i < 0 {
        -1
    } else {
        let b = shrink_pick(c, w, wt, i - 1);
        if c[i] > 1 && (b < 0 || c[i] * wt / (w[i] as int) >= c[b] * wt / (w[b] as int)) {
            i
        } else {
            b
        }
    }
}

/// `k` growth steps: each adds one line to the section `grow_pick` names.
pub open spec fn grow_steps(c: Seq<usize>, w: Seq<usize>, k: nat) -> Seq<usize>
    decreases k,
{
    if k == 0 {
        c
    } else {
        let p = grow_steps(c, w, (k - 1) as nat);
        let i = grow_pick(p, w, seq_sum(w), 5);
        p.update(i, (p[i] + 1) as usize)
    }
}

/// `k` shrink steps: each takes one line from the section `shrink_pick` names.
pub open spec fn shrink_steps(c: Seq<usize>, w: Seq<usize>, k: nat) -> Seq<usize>
    decreases k,
{
    if k == 0 {
        c
    } else {
        let p = shrink_steps(c, w, (k - 1) as nat);
        let i = shrink_pick(p, w, seq_sum(w), 5);
        p.update(i, (p[i] - 1) as usize)
    }
}

/// The number of lines of each section for `total` lines and weights `w`.
pub open spec fn section_counts_spec(total: usize, w: Seq<usize>) -> Seq<usize> {
    let init = initial_counts(total, w);
    if seq_sum(init) <= total {
        grow_steps(init, w, (total - seq_sum(init)) as nat)
    } else {
        shrink_steps(init, w, (seq_sum(init) - total) as nat)
    }
}

/// What `section_counts` requires: at least one line per section, positive
/// weights, and no overflow in `count * weight_total`.
pub open spec fn counts_input_ok(total: usize, w: Seq<usize>) -> bool {
    &&& w.len() == 6
    &&& total >= 6
    &&& forall|i: int| 0 <= i < 6 ==> w[i] >= 1
    &&& seq_sum(w) <= usize::MAX
}

pub proof fn lemma_sum_update(s: Seq<usize>, i: int, v: usize)
    requires
        0 <= i < s.len(),
    ensures
        seq_sum(s.update(i, v)) == seq_sum(s) - s[i] + v,
    decreases s.len(),
{
    if i == s.len() - 1 {
        assert(s.update(i, v).drop_last() =~= s.drop_last());
    } else {
        lemma_sum_update(s.drop_last(), i, v);
        assert(s.update(i, v).drop_last() =~= s.drop_last().update(i, v));
    }
}

pub proof fn lemma_sum_six(s: Seq<usize>)
    requires
        s.len() == 6,
    ensures
        seq_sum(s) == s[0] + s[1] + s[2] + s[3] + s[4] + s[5],
{
    let s5 = s.drop_last();
    let s4 = s5.drop_last();
    let s3 = s4.drop_last();
    let s2 = s3.drop_last();
    let s1 = s2.drop_last();
    let s0 = s1.drop_last();
    assert(s0.len() == 0);
    assert(seq_sum(s0) == 0);
    assert(seq_sum(s1) == s[0]);
    assert(seq_sum(s2) == s[0] + s[1]);
    assert(seq_sum(s3) == s[0] + s[1] + s[2]);
    assert(seq_sum(s4) == s[0] + s[1] + s[2] + s[3]);
    assert(seq_sum(s5) == s[0] + s[1] + s[2] + s[3] + s[4]);
}

pub proof fn lemma_grow_pick_range(c: Seq<usize>, w: Seq<usize>, wt: int, i: int)
    requires
        0 <= i,
    ensures
        0 <= grow_pick(c, w, wt, i) <= i,
    decreases i,
{
    if i > 0 {
        lemma_grow_pick_range(c, w, wt, i - 1);
    }
}

pub proof fn lemma_shrink_pick_range(c: Seq<usize>, w: Seq<usize>, wt: int, i: int)
    requires
        -1 <= i,
    ensures
        -1 <= shrink_pick(c, w, wt, i) <= i,
        shrink_pick(c, w, wt, i) >= 0 ==> c[shrink_pick(c, w, wt, i)] > 1,
        (exists|k: int| 0 <= k <= i && c[k] > 1) ==> shrink_pick(c, w, wt, i) >= 0,
    decreases i + 1,
{
    if i >= 0 {
        lemma_shrink_pick_range(c, w, wt, i - 1);
        if exists|k: int| 0 <= k <= i && c[k] > 1 {
            if c[i] <= 1 {
                let k = choose|k: int| 0 <= k <= i && c[k] > 1;
                assert(0 <= k <= i - 1);
            }
        }
    }
}

/// Splits `total` lines over six sections in proportion to `weights`.
pub fn section_counts(total: usize, weights: [usize; 6]) -> (counts: [usize; 6])
    requires
        counts_input_ok(total, weights@),
    ensures
        counts@ == section_counts_spec(total, weights@),
        seq_sum(counts@) == total,
        forall|i: int| 0 <= i < 6 ==> counts@[i] >= 1,
{
    let ghost w = weights@;
    proof {
        lemma_sum_six(w);
    }
    assert forall|k: int| 0 <= k < 6 implies w[k] <= seq_sum(w) by {
        if k == 0 {
        } else if k == 1 {
        } else if k == 2 {
        } else if k == 3 {
        } else if k == 4 {
        } else {
        }
    }
    let weight_total: usize = weights[0] + weights[1] + weights[2] + weights[3] + weights[4]
        + weights[5];
    assert(weight_total == seq_sum(w));
    let wt: u128 = weight_total as u128;
    let tt: u128 = total as u128;
    let mut counts: [usize; 6] = [0usize; 6];
    let mut i: usize = 0;
    while i < 6
        invariant
            i <= 6,
            w == weights@,
            weight_total == seq_sum(w),
            weight_total >= 6,
            wt == weight_total,
            tt == total,
            forall|k: int| 0 <= k < 6 ==> w[k] <= seq_sum(w),
            counts@.len() == 6,
            forall|k: int| 0 <= k < i ==> counts@[k] == initial_counts(total, w)[k],
        decreases 6 - i,
    {
        let wi: u128 = weights[i] as u128;
        assert(tt * wi <= tt * wt) by (nonlinear_arith)
            requires
                wi <= wt,
        ;
        assert(tt * wi <= 0xffff_ffff_ffff_ffff * 0xffff_ffff_ffff_ffffu128) by (nonlinear_arith)
            requires
                tt <= 0xffff_ffff_ffff_ffffu128,
                wi <= 0xffff_ffff_ffff_ffffu128,
        ;
        let share: u128 = tt * wi / wt;
        assert(share <= tt) by (nonlinear_arith)
            requires
                tt * wi <= tt * wt,
                wt > 0,
                share as int == (tt * wi) as int / (wt as int),
        ;
        counts[i] = if share >= 1 { share as usize } else { 1 };
        i = i + 1;
    }
    assert(counts@ =~= initial_counts(total, w));
    let ghost init = counts@;
    // Each starting share is at most `total`.
    assert forall|k: int| 0 <= k < 6 implies 1 <= #[trigger] init[k] <= total by {
        assert(total * w[k] <= total * weight_total) by (nonlinear_arith)
            requires
                w[k] <= weight_total,
        ;
        assert((total * w[k]) / (weight_total as int) <= total) by (nonlinear_arith)
            requires
                total * w[k] <= total * weight_total,
                weight_total > 0,
        ;
    }
    let mut sum: u128 = counts[0] as u128 + counts[1] as u128 + counts[2] as u128 + counts[3] as u128
        + counts[4] as u128 + counts[5] as u128;
    proof {
        lemma_sum_six(counts@);
    }
    let ghost steps: nat = 0;
    while sum < tt
        invariant
            w == weights@,
            weight_total == seq_sum(w),
            weight_total >= 6,
            wt == weight_total,
            tt == total,
            forall|k: int| 0 <= k < 6 ==> w[k] >= 1,
            counts@.len() == 6,
            sum == seq_sum(counts@),
            seq_sum(init) <= total ==> counts@ == grow_steps(init, w, steps),
            seq_sum(init) <= total ==> sum == seq_sum(init) + steps,
            seq_sum(init) <= total ==> sum <= total,
            seq_sum(init) > total ==> counts@ == init && steps == 0,
            forall|k: int| 0 <= k < 6 ==> 1 <= #[trigger] counts@[k] <= total,
        decreases total - sum,
    {
        let ghost before = counts@;
        let mut best: usize = 0;
        let mut j: usize = 1;
        while j < 6
            invariant
                1 <= j <= 6,
                counts@ == before,
                counts@.len() == 6,
                weight_total == seq_sum(w),
                w == weights@,
                forall|k: int| 0 <= k < 6 ==> 1 <= #[trigger] counts@[k] <= total,
                wt == weight_total,
                best < j,
                best == grow_pick(before, w, weight_total as int, j - 1),
            decreases 6 - j,
        {
            let cj: u128 = counts[j] as u128;
            let cb: u128 = counts[best] as u128;
            assert(cj * wt <= 0xffff_ffff_ffff_ffff * 0xffff_ffff_ffff_ffffu128) by (nonlinear_arith)
                requires
                    cj <= 0xffff_ffff_ffff_ffffu128,
                    wt <= 0xffff_ffff_ffff_ffffu128,
            ;
            assert(cb * wt <= 0xffff_ffff_ffff_ffff * 0xffff_ffff_ffff_ffffu128) by (nonlinear_arith)
                requires
                    cb <= 0xffff_ffff_ffff_ffffu128,
                    wt <= 0xffff_ffff_ffff_ffffu128,
            ;
            let kj = cj * wt;
            let kb = cb * wt;
            if kj < kb || (kj == kb && weights[j] > weights[best]) {
                best = j;
            }
            j = j + 1;
        }
        proof {
            lemma_grow_pick_range(before, w, weight_total as int, 5);
            lemma_sum_update(before, best as int, (before[best as int] + 1) as usize);
            lemma_sum_six(before);
        }
        counts[best] = counts[best] + 1;
        sum = sum + 1;
        proof {
            steps = steps + 1;
            assert(counts@ =~= before.update(best as int, (before[best as int] + 1) as usize));
        }
    }
    let ghost grown = counts@;
    let ghost shrink_count: nat = 0;
    while sum > tt
        invariant
            w == weights@,
            weight_total == seq_sum(w),
            total >= 6,
            wt == weight_total,
            tt == total,
            forall|k: int| 0 <= k < 6 ==> w[k] >= 1,
            counts@.len() == 6,
            sum == seq_sum(counts@),
            seq_sum(init) <= total ==> sum == total && counts@ == grown,
            seq_sum(init) > total ==> counts@ == shrink_steps(init, w, shrink_count),
            seq_sum(init) > total ==> sum == seq_sum(init) - shrink_count,
            seq_sum(init) > total ==> sum >= total,
            seq_sum(init) <= total ==> grown == grow_steps(init, w, (total - seq_sum(init)) as nat),
            forall|k: int| 0 <= k < 6 ==> 1 <= #[trigger] counts@[k] <= total,
        decreases sum,
    {
        let ghost before = counts@;
        proof {
            lemma_sum_six(before);
            if forall|k: int| 0 <= k < 6 ==> before[k] <= 1 {
                assert(sum <= 6);
            }
        }
        let mut best: usize = 6;
        let mut j: usize = 0;
        while j < 6
            invariant
                j <= 6,
                counts@ == before,
                counts@.len() == 6,
                weight_total == seq_sum(w),
                w == weights@,
                forall|k: int| 0 <= k < 6 ==> w[k] >= 1,
                forall|k: int| 0 <= k < 6 ==> 1 <= #[trigger] counts@[k] <= total,
                wt == weight_total,
                best == 6 || best < j,
                (best == 6 && shrink_pick(before, w, weight_total as int, j - 1) == -1) || (
                best < 6 && best == shrink_pick(before, w, weight_total as int, j - 1)),
            decreases 6 - j,
        {
            let cj: u128 = counts[j] as u128;
            assert(cj * wt <= 0xffff_ffff_ffff_ffff * 0xffff_ffff_ffff_ffffu128) by (nonlinear_arith)
                requires
                    cj <= 0xffff_ffff_ffff_ffffu128,
                    wt <= 0xffff_ffff_ffff_ffffu128,
            ;
            if counts[j] > 1 {
                let kj = cj * wt / (weights[j] as u128);
                if best == 6 {
                    best = j;
                } else {
                    let cb: u128 = counts[best] as u128;
                    assert(cb * wt <= 0xffff_ffff_ffff_ffff * 0xffff_ffff_ffff_ffffu128)
                        by (nonlinear_arith)
                        requires
                            cb <= 0xffff_ffff_ffff_ffffu128,
                            wt <= 0xffff_ffff_ffff_ffffu128,
                    ;
                    let kb = cb * wt / (weights[best] as u128);
                    if kj >= kb {
                        best = j;
                    }
                }
            }
            j = j + 1;
        }
        proof {
            lemma_shrink_pick_range(before, w, weight_total as int, 5);
            assert(exists|k: int| 0 <= k <= 5 && before[k] > 1);
            lemma_sum_update(before, best as int, (before[best as int] - 1) as usize);
        }
        counts[best] = counts[best] - 1;
        sum = sum - 1;
        proof {
            shrink_count = shrink_count + 1;
            assert(counts@ =~= before.update(best as int, (before[best as int] - 1) as usize));
        }
    }
    counts
}


/// Every template's weights are positive and sum to 24, so any total of at
/// least 6 can be split.
pub proof fn lemma_allocation_ok(t: Template, total: usize)
    requires
        total >= 6,
    ensures
        counts_input_ok(total, allocation_spec(t)),
        seq_sum(allocation_spec(t)) == 24,
{
    lemma_sum_six(allocation_spec(t));
}

/// Each of six counts is at most their sum.
pub proof fn lemma_count_at_most_sum(c: Seq<usize>)
    requires
        c.len() == 6,
    ensures
        forall|k: int| 0 <= k < 6 ==> #[trigger] c[k] <= seq_sum(c),
{
    lemma_sum_six(c);
    assert forall|k: int| 0 <= k < 6 implies #[trigger] c[k] <= seq_sum(c) by {
        if k == 0 {
        } else if k == 1 {
        } else if k == 2 {
        } else if k == 3 {
        } else if k == 4 {
        } else {
        }
    }
}


proof fn lemma_grow_steps(c: Seq<usize>, w: Seq<usize>, k: nat, total: int)
    requires
        c.len() == 6,
        seq_sum(c) + k <= total,
        total <= usize::MAX,
        forall|i: int| 0 <= i < 6 ==> #[trigger] c[i] >= 1,
    ensures
        grow_steps(c, w, k).len() == 6,
        seq_sum(grow_steps(c, w, k)) == seq_sum(c) + k,
        forall|i: int| 0 <= i < 6 ==> #[trigger] grow_steps(c, w, k)[i] >= 1,
    decreases k,
{
    if k > 0 {
        lemma_grow_steps(c, w, (k - 1) as nat, total);
        let p = grow_steps(c, w, (k - 1) as nat);
        let i = grow_pick(p, w, seq_sum(w), 5);
        lemma_grow_pick_range(p, w, seq_sum(w), 5);
        lemma_count_at_most_sum(p);
        lemma_sum_update(p, i, (p[i] + 1) as usize);
    }
}

proof fn lemma_shrink_steps(c: Seq<usize>, w: Seq<usize>, k: nat)
    requires
        c.len() == 6,
        seq_sum(c) - k >= 6,
        forall|i: int| 0 <= i < 6 ==> #[trigger] c[i] >= 1,
    ensures
        shrink_steps(c, w, k).len() == 6,
        seq_sum(shrink_steps(c, w, k)) == seq_sum(c) - k,
        forall|i: int| 0 <= i < 6 ==> #[trigger] shrink_steps(c, w, k)[i] >= 1,
    decreases k,
{
    if k > 0 {
        lemma_shrink_steps(c, w, (k - 1) as nat);
        let p = shrink_steps(c, w, (k - 1) as nat);
        lemma_sum_six(p);
        if forall|m: int| 0 <= m < 6 ==> p[m] <= 1 {
            assert(seq_sum(p) <= 6);
        }
        assert(exists|m: int| 0 <= m <= 5 && p[m] > 1);
        lemma_shrink_pick_range(p, w, seq_sum(w), 5);
        let i = shrink_pick(p, w, seq_sum(w), 5);
        lemma_sum_update(p, i, (p[i] - 1) as usize);
    }
}

/// Law: the section split gives every section at least one line, and the
/// lines of all sections add up to the total.
pub proof fn lemma_section_counts_law(total: usize, w: Seq<usize>)
    requires
        counts_input_ok(total, w),
    ensures
        section_counts_spec(total, w).len() == 6,
        seq_sum(section_counts_spec(total, w)) == total,
        forall|i: int| 0 <= i < 6 ==> #[trigger] section_counts_spec(total, w)[i] >= 1,
{
    let init = initial_counts(total, w);
    let wt = seq_sum(w);
    lemma_sum_six(w);
    assert(wt >= 6);
    assert(total * wt >= total) by (nonlinear_arith)
        requires
            wt >= 1,
            total >= 0,
    ;
    assert(6 * total <= total * wt) by (nonlinear_arith)
        requires
            wt >= 6,
            total >= 0,
    ;
    assert forall|i: int| 0 <= i < 6 implies #[trigger] init[i] >= 1 by {
        assert(w[i] <= wt) by {
            if i == 0 {
            } else if i == 1 {
            } else if i == 2 {
            } else if i == 3 {
            } else if i == 4 {
            } else {
            }
        }
        assert(total * w[i] <= total * wt) by (nonlinear_arith)
            requires
                w[i] <= wt,
                total >= 0,
        ;
        assert((total * w[i]) / wt <= total) by (nonlinear_arith)
            requires
                total * w[i] <= total * wt,
                wt > 0,
                total >= 0,
        ;
    }
    if seq_sum(init) <= total {
        lemma_grow_steps(init, w, (total - seq_sum(init)) as nat, total as int);
    } else {
        lemma_shrink_steps(init, w, (seq_sum(init) - total) as nat);
    }
}


proof fn lemma_dist6(x: int, a0: int, a1: int, a2: int, a3: int, a4: int, a5: int)
    ensures
        x * (a0 + a1 + a2 + a3 + a4 + a5) == x * a0 + x * a1 + x * a2 + x * a3 + x * a4 + x * a5,
{
    vstd::arithmetic::mul::lemma_mul_is_distributive_add(x, a0 + a1 + a2 + a3 + a4, a5);
    vstd::arithmetic::mul::lemma_mul_is_distributive_add(x, a0 + a1 + a2 + a3, a4);
    vstd::arithmetic::mul::lemma_mul_is_distributive_add(x, a0 + a1 + a2, a3);
    vstd::arithmetic::mul::lemma_mul_is_distributive_add(x, a0 + a1, a2);
    vstd::arithmetic::mul::lemma_mul_is_distributive_add(x, a0, a1);
}

proof fn lemma_grow_keeps(c: Seq<usize>, w: Seq<usize>, k: nat, total: int)
    requires
        c.len() == 6,
        seq_sum(c) + k <= total,
        total <= usize::MAX,
        forall|i: int| 0 <= i < 6 ==> #[trigger] c[i] >= 1,
    ensures
        forall|i: int| 0 <= i < 6 ==> #[trigger] grow_steps(c, w, k)[i] >= c[i],
    decreases k,
{
    if k > 0 {
        lemma_grow_keeps(c, w, (k - 1) as nat, total);
        lemma_grow_steps(c, w, (k - 1) as nat, total);
        let p = grow_steps(c, w, (k - 1) as nat);
        let i = grow_pick(p, w, seq_sum(w), 5);
        lemma_grow_pick_range(p, w, seq_sum(w), 5);
        lemma_count_at_most_sum(p);
    }
}

/// Law (the split follows the weights): every section gets at least its
/// share `total * weight / weight_total` when every share is at least one
/// line, and exactly its share when every share is a whole number.
pub proof fn lemma_section_counts_shares(total: usize, w: Seq<usize>)
    requires
        counts_input_ok(total, w),
    ensures
        (forall|i: int| 0 <= i < 6 ==> (total * w[i]) / seq_sum(w) >= 1) ==> forall|i: int|
            0 <= i < 6 ==> #[trigger] section_counts_spec(total, w)[i] >= (total * w[i]) / seq_sum(w),
        (forall|i: int| 0 <= i < 6 ==> (total * w[i]) % seq_sum(w) == 0) ==> forall|i: int|
            0 <= i < 6 ==> #[trigger] section_counts_spec(total, w)[i] == (total * w[i]) / seq_sum(w),
{
    let wt = seq_sum(w);
    let t = total as int;
    lemma_sum_six(w);
    let init = initial_counts(total, w);
    lemma_sum_six(init);
    let f0 = (t * w[0]) / wt;
    let f1 = (t * w[1]) / wt;
    let f2 = (t * w[2]) / wt;
    let f3 = (t * w[3]) / wt;
    let f4 = (t * w[4]) / wt;
    let f5 = (t * w[5]) / wt;
    assert forall|i: int| 0 <= i < 6 implies wt * ((t * w[i]) / wt) <= t * w[i] && (t * w[i]) / wt
        >= 0 by {
        vstd::arithmetic::div_mod::lemma_fundamental_div_mod(t * w[i], wt);
        vstd::arithmetic::div_mod::lemma_mod_bound(t * w[i], wt);
        assert(t * w[i] >= 0) by (nonlinear_arith)
            requires
                t >= 0,
                w[i] >= 0,
        ;
        vstd::arithmetic::div_mod::lemma_div_pos_is_pos(t * w[i], wt);
    }
    lemma_dist6(wt, f0, f1, f2, f3, f4, f5);
    lemma_dist6(t, w[0] as int, w[1] as int, w[2] as int, w[3] as int, w[4] as int, w[5] as int);
    vstd::arithmetic::mul::lemma_mul_is_commutative(t, wt);
    assert(wt * (f0 + f1 + f2 + f3 + f4 + f5) <= t * wt);
    assert(f0 + f1 + f2 + f3 + f4 + f5 <= t) by (nonlinear_arith)
        requires
            wt * (f0 + f1 + f2 + f3 + f4 + f5) <= t * wt,
            wt > 0,
    ;
    if forall|i: int| 0 <= i < 6 ==> (total * w[i]) / seq_sum(w) >= 1 {
        assert forall|i: int| 0 <= i < 6 implies init[i] == (t * w[i]) / wt by {}
        assert(seq_sum(init) <= total);
        lemma_grow_keeps(init, w, (total - seq_sum(init)) as nat, total as int);
    }
    if forall|i: int| 0 <= i < 6 ==> (total * w[i]) % seq_sum(w) == 0 {
        assert forall|i: int| 0 <= i < 6 implies wt * ((t * w[i]) / wt) == t * w[i] by {
            vstd::arithmetic::div_mod::lemma_fundamental_div_mod(t * w[i], wt);
        }
        assert(wt * f0 == t * w[0] && wt * f1 == t * w[1] && wt * f2 == t * w[2]);
        assert(wt * f3 == t * w[3] && wt * f4 == t * w[4] && wt * f5 == t * w[5]);
        assert(wt * (f0 + f1 + f2 + f3 + f4 + f5) == t * wt);
        assert(f0 + f1 + f2 + f3 + f4 + f5 == t) by (nonlinear_arith)
            requires
                wt * (f0 + f1 + f2 + f3 + f4 + f5) == t * wt,
                wt > 0,
        ;
        assert forall|i: int| 0 <= i < 6 implies init[i] == (t * w[i]) / wt by {
            assert(w[i] >= 1);
            assert(wt * ((t * w[i]) / wt) == t * w[i]);
            assert((t * w[i]) / wt >= 1) by (nonlinear_arith)
                requires
                    wt * ((t * w[i]) / wt) == t * w[i],
                    t >= 6,
                    w[i] >= 1,
                    wt > 0,
            ;
        }
        assert(seq_sum(init) == total);
        assert(section_counts_spec(total, w) == init);
    }
}

/// The section `grow_pick` names comes first for growing: no section among
/// `0..=i` comes strictly before it.
proof fn lemma_grow_pick_first(c: Seq<usize>, w: Seq<usize>, wt: int, i: int)
    requires
        0 <= i,
    ensures
        forall|j: int| 0 <= j <= i ==> !#[trigger] grows_before(c, w, wt, j, grow_pick(c, w, wt, i)),
    decreases i,
{
    if i > 0 {
        lemma_grow_pick_first(c, w, wt, i - 1);
        let b = grow_pick(c, w, wt, i - 1);
        if grows_before(c, w, wt, i, b) {
            assert(grow_pick(c, w, wt, i) == i);
            assert forall|j: int| 0 <= j <= i implies !#[trigger] grows_before(c, w, wt, j, i) by {
                if j < i && grows_before(c, w, wt, j, i) {
                    assert(grows_before(c, w, wt, j, b));
                }
            }
        } else {
            assert(grow_pick(c, w, wt, i) == b);
        }
    }
}

/// Growing never lets a section overtake section `m` when `m` has the
/// strictly greatest weight and the most lines to begin with.
proof fn lemma_grow_keeps_peak(c: Seq<usize>, w: Seq<usize>, k: nat, total: int, m: int)
    requires
        c.len() == 6,
        w.len() == 6,
        0 <= m < 6,
        seq_sum(w) > 0,
        seq_sum(c) + k <= total,
        total <= usize::MAX,
        forall|i: int| 0 <= i < 6 ==> #[trigger] c[i] >= 1,
        forall|i: int| 0 <= i < 6 ==> #[trigger] c[i] <= c[m],
        forall|i: int| 0 <= i < 6 && i != m ==> #[trigger] w[i] < w[m],
    ensures
        forall|i: int| 0 <= i < 6 ==> #[trigger] grow_steps(c, w, k)[i] <= grow_steps(c, w, k)[m],
    decreases k,
{
    if k > 0 {
        lemma_grow_keeps_peak(c, w, (k - 1) as nat, total, m);
        lemma_grow_steps(c, w, (k - 1) as nat, total);
        let p = grow_steps(c, w, (k - 1) as nat);
        let wt = seq_sum(w);
        let b = grow_pick(p, w, wt, 5);
        lemma_grow_pick_range(p, w, wt, 5);
        lemma_grow_pick_first(p, w, wt, 5);
        lemma_count_at_most_sum(p);
        assert(!grows_before(p, w, wt, m, b));
        if b != m {
            assert(p[m] * wt >= p[b] * wt);
            assert(p[m] * wt != p[b] * wt);
            assert(p[b] < p[m]) by (nonlinear_arith)
                requires
                    p[m] * wt > p[b] * wt,
                    wt > 0,
            ;
        }
        let r = p.update(b, (p[b] + 1) as usize);
        assert(grow_steps(c, w, k) == r);
    }
}

/// When every share `total * w[i] / weight_total` is at least one line, the
/// starting counts are the shares and add up to at most the total.
proof fn lemma_whole_shares_fit(total: usize, w: Seq<usize>)
    requires
        counts_input_ok(total, w),
        forall|i: int| 0 <= i < 6 ==> (total * w[i]) / seq_sum(w) >= 1,
    ensures
        forall|i: int| 0 <= i < 6 ==> #[trigger] initial_counts(total, w)[i] == (total * w[i]) / seq_sum(w),
        seq_sum(initial_counts(total, w)) <= total,
{
    let wt = seq_sum(w);
    let t = total as int;
    lemma_sum_six(w);
    let init = initial_counts(total, w);
    lemma_sum_six(init);
    let f0 = (t * w[0]) / wt;
    let f1 = (t * w[1]) / wt;
    let f2 = (t * w[2]) / wt;
    let f3 = (t * w[3]) / wt;
    let f4 = (t * w[4]) / wt;
    let f5 = (t * w[5]) / wt;
    assert forall|i: int| 0 <= i < 6 implies wt * ((t * w[i]) / wt) <= t * w[i] by {
        vstd::arithmetic::div_mod::lemma_fundamental_div_mod(t * w[i], wt);
        vstd::arithmetic::div_mod::lemma_mod_bound(t * w[i], wt);
    }
    lemma_dist6(wt, f0, f1, f2, f3, f4, f5);
    lemma_dist6(t, w[0] as int, w[1] as int, w[2] as int, w[3] as int, w[4] as int, w[5] as int);
    vstd::arithmetic::mul::lemma_mul_is_commutative(t, wt);
    assert(wt * (f0 + f1 + f2 + f3 + f4 + f5) <= t * wt);
    assert(f0 + f1 + f2 + f3 + f4 + f5 <= t) by (nonlinear_arith)
        requires
            wt * (f0 + f1 + f2 + f3 + f4 + f5) <= t * wt,
            wt > 0,
    ;
    assert forall|i: int| 0 <= i < 6 implies #[trigger] init[i] == (t * w[i]) / wt by {}
}

/// Law (the heaviest section gets the most lines): when one section's
/// weight is strictly greater than every other section's and every share is
/// at least one line, that section gets at least as many lines as any other.
pub proof fn lemma_peak_gets_most(total: usize, w: Seq<usize>, m: int)
    requires
        counts_input_ok(total, w),
        forall|i: int| 0 <= i < 6 ==> (total * w[i]) / seq_sum(w) >= 1,
        0 <= m < 6,
        forall|i: int| 0 <= i < 6 && i != m ==> #[trigger] w[i] < w[m],
    ensures
        forall|i: int| 0 <= i < 6 ==> #[trigger] section_counts_spec(total, w)[i] <= section_counts_spec(total, w)[m],
{
    let wt = seq_sum(w);
    let t = total as int;
    lemma_sum_six(w);
    lemma_whole_shares_fit(total, w);
    let init = initial_counts(total, w);
    assert forall|i: int| 0 <= i < 6 implies #[trigger] init[i] >= 1 && init[i] <= init[m] by {
        if i != m {
            assert(t * w[i] <= t * w[m]) by (nonlinear_arith)
                requires
                    t >= 0,
                    w[i] < w[m],
            ;
            vstd::arithmetic::div_mod::lemma_div_is_ordered(t * w[i], t * w[m], wt);
        }
    }
    lemma_grow_keeps_peak(init, w, (total - seq_sum(init)) as nat, t, m);
}

/// Law (each template stresses its own section): for a session of twelve
/// lines or more, the Alternation template gives the Basic patterns section
/// (pair alternations) the most lines, Transitions the Transition practice
/// section, Precision the Warm-up section, Endurance the Longer sequences section and
/// WeakFocus the Difficult combinations section; the Balanced template
/// weighs all sections alike.
pub proof fn lemma_template_emphasis(total: usize)
    requires
        total >= 12,
    ensures
        forall|i: int, j: int|
            0 <= i < 6 && 0 <= j < 6 ==> #[trigger] allocation_spec(Template::Balanced)[i]
                == #[trigger] allocation_spec(Template::Balanced)[j],
        forall|i: int|
            0 <= i < 6 ==> #[trigger] section_counts_spec(total, allocation_spec(Template::Alternation))[i]
                <= section_counts_spec(total, allocation_spec(Template::Alternation))[1],
        forall|i: int|
            0 <= i < 6 ==> #[trigger] section_counts_spec(total, allocation_spec(Template::Transitions))[i]
                <= section_counts_spec(total, allocation_spec(Template::Transitions))[3],
        forall|i: int|
            0 <= i < 6 ==> #[trigger] section_counts_spec(total, allocation_spec(Template::Precision))[i]
                <= section_counts_spec(total, allocation_spec(Template::Precision))[0],
        forall|i: int|
            0 <= i < 6 ==> #[trigger] section_counts_spec(total, allocation_spec(Template::Endurance))[i]
                <= section_counts_spec(total, allocation_spec(Template::Endurance))[5],
        forall|i: int|
            0 <= i < 6 ==> #[trigger] section_counts_spec(total, allocation_spec(Template::WeakFocus))[i]
                <= section_counts_spec(total, allocation_spec(Template::WeakFocus))[4],
{
    let t = total as int;
    assert forall|tp: Template| counts_input_ok(total, #[trigger] allocation_spec(tp)) && forall|i: int|
        0 <= i < 6 ==> (total * allocation_spec(tp)[i]) / seq_sum(allocation_spec(tp)) >= 1 by {
        lemma_allocation_ok(tp, total);
        let w = allocation_spec(tp);
        assert forall|i: int| 0 <= i < 6 implies (total * w[i]) / seq_sum(w) >= 1 by {
            assert(w[i] >= 2);
            assert(t * w[i] >= 24) by (nonlinear_arith)
                requires
                    t >= 12,
                    w[i] >= 2,
            ;
            vstd::arithmetic::div_mod::lemma_div_is_ordered(24, t * w[i], 24);
        }
    }
    lemma_peak_gets_most(total, allocation_spec(Template::Alternation), 1);
    lemma_peak_gets_most(total, allocation_spec(Template::Transitions), 3);
    lemma_peak_gets_most(total, allocation_spec(Template::Precision), 0);
    lemma_peak_gets_most(total, allocation_spec(Template::Endurance), 5);
    lemma_peak_gets_most(total, allocation_spec(Template::WeakFocus), 4);
}

/// Law (the Endurance template favours longer sequences): its weights rise
/// from the Warm-up section to the Longer sequences section, and for every
/// session total the Longer sequences section gets at least as many lines as
/// any other section.
pub proof fn lemma_endurance_favours_longer(total: usize)
    requires
        total >= 6,
    ensures
        forall|i: int, j: int|
            0 <= i <= j < 6 ==> #[trigger] allocation_spec(Template::Endurance)[i] <= #[trigger] allocation_spec(
                Template::Endurance,
            )[j],
        forall|i: int|
            0 <= i < 6 ==> #[trigger] section_counts_spec(total, allocation_spec(Template::Endurance))[i]
                <= section_counts_spec(total, allocation_spec(Template::Endurance))[5],
{
    let w = allocation_spec(Template::Endurance);
    lemma_allocation_ok(Template::Endurance, total);
    let t = total as int;
    let init = initial_counts(total, w);
    lemma_sum_six(init);
    assert(w[0] == 3 && w[1] == 3 && w[2] == 3 && w[3] == 4 && w[4] == 5 && w[5] == 6);
    let f0 = (t * 3) / 24;
    let f3 = (t * 4) / 24;
    let f4 = (t * 5) / 24;
    let f5 = (t * 6) / 24;
    assert(t * 3 <= t * 4 && t * 4 <= t * 5 && t * 5 <= t * 6) by (nonlinear_arith)
        requires
            t >= 0,
    ;
    vstd::arithmetic::div_mod::lemma_div_is_ordered(t * 3, t * 4, 24);
    vstd::arithmetic::div_mod::lemma_div_is_ordered(t * 4, t * 5, 24);
    vstd::arithmetic::div_mod::lemma_div_is_ordered(t * 5, t * 6, 24);
    assert(init[0] == init[1] && init[1] == init[2]);
    assert(init[0] <= init[3] && init[3] <= init[4] && init[4] <= init[5]);
    vstd::arithmetic::div_mod::lemma_fundamental_div_mod(t * 3, 24);
    vstd::arithmetic::div_mod::lemma_fundamental_div_mod(t * 4, 24);
    vstd::arithmetic::div_mod::lemma_fundamental_div_mod(t * 5, 24);
    vstd::arithmetic::div_mod::lemma_fundamental_div_mod(t * 6, 24);
    vstd::arithmetic::div_mod::lemma_mod_bound(t * 3, 24);
    vstd::arithmetic::div_mod::lemma_mod_bound(t * 4, 24);
    vstd::arithmetic::div_mod::lemma_mod_bound(t * 5, 24);
    vstd::arithmetic::div_mod::lemma_mod_bound(t * 6, 24);
    if t >= 8 {
        assert(f0 >= 1);
        assert(24 * (3 * f0 + f3 + f4 + f5) <= 24 * t);
        assert(seq_sum(init) <= total);
    } else {
        assert(f5 <= 1);
        assert(seq_sum(init) == 6);
    }
    assert forall|i: int| 0 <= i < 6 implies #[trigger] init[i] >= 1 && init[i] <= init[5] by {}
    lemma_grow_keeps_peak(init, w, (total - seq_sum(init)) as nat, t, 5);
}
} // verus!
