use vstd::prelude::*;
use crate::adaptive::{lemma_utf8_len_bounds, pick_key_spec, utf8_len, walk_rest, walk_spec, weights_spec};
use crate::coverage::{coverage_group, coverage_groups, coverage_layout, coverage_line_spec, index_range, pairs_behind};
use crate::directions::{cross_edge, keys_distinct};
use crate::laws::{lemma_flat_keys_in, lemma_pair_in, lemma_select_in_keys, pair_keys};
use crate::lines::{adaptive_groups, group_count, mixed_group, mixed_spec, standalone_spec, walks_spec};
use crate::patterns::{
    alternation_table, balanced_at, balanced_order, flat_keys, longer_balanced_spec, rendered,
    rotated, standalone_table, KeyPair,
};
use crate::rng::shuffle_spec;
use crate::plan::{candidate_spec, lines_upto, sections_upto, PlanSpec};
use crate::text::join_spaced;

verus! {

/// Every character of `x` is one of `keys`.
pub open spec fn keyed(x: Seq<char>, keys: Set<char>) -> bool {
    forall|i: int| 0 <= i < x.len() ==> keys.contains(#[trigger] x[i])
}

/// The longest group of a session: twelve keys in long and endless
/// sessions, ten otherwise.
pub open spec fn group_cap(extended: bool) -> int {
    if extended {
        12
    } else {
        10
    }
}

/// A practice group: two to `hi` keys of `keys`.
pub open spec fn group_ok(x: Seq<char>, keys: Set<char>, hi: int) -> bool {
    2 <= x.len() <= hi && keyed(x, keys)
}

/// A practice line: one or more practice groups joined by single spaces.
pub open spec fn grouped_line(l: Seq<char>, keys: Set<char>, hi: int) -> bool {
    exists|gs: Seq<Seq<char>>|
        l == join_spaced(gs) && gs.len() >= 1 && forall|g: int|
            0 <= g < gs.len() ==> group_ok(#[trigger] gs[g], keys, hi)
}

/// Groups that are all practice groups.
pub open spec fn all_ok(gs: Seq<Seq<char>>, keys: Set<char>, hi: int) -> bool {
    forall|g: int| 0 <= g < gs.len() ==> group_ok(#[trigger] gs[g], keys, hi)
}

proof fn lemma_concat_ok(a: Seq<Seq<char>>, b: Seq<Seq<char>>, keys: Set<char>, hi: int)
    requires
        all_ok(a, keys, hi),
        all_ok(b, keys, hi),
    ensures
        all_ok(a + b, keys, hi),
{
    assert forall|g: int| 0 <= g < (a + b).len() implies group_ok(#[trigger] (a + b)[g], keys, hi) by {
        if g < a.len() {
            assert((a + b)[g] == a[g]);
        } else {
            assert((a + b)[g] == b[g - a.len()]);
        }
    }
}

proof fn lemma_walk_rest_shape(
    keys: Seq<char>,
    km: Map<char, u64>,
    tm: Map<(char, char), u64>,
    out: Seq<char>,
    state: u64,
    len: int,
    allowed: Set<char>,
)
    requires
        keys.len() > 0,
        forall|i: int| 0 <= i < keys.len() ==> allowed.contains(#[trigger] keys[i]),
        keyed(out, allowed),
        1 <= out.len() <= len,
    ensures
        keyed(walk_rest(keys, km, tm, out, state, len).0, allowed),
        walk_rest(keys, km, tm, out, state, len).0.len() <= len,
        4 * walk_rest(keys, km, tm, out, state, len).0.len() >= len,
    decreases len - out.len(),
{
    lemma_utf8_len_bounds(out);
    if !(utf8_len(out) >= len || out.len() == 0) {
        let (c, next) = pick_key_spec(keys, km, tm, Some(out.last()), state);
        let ws = weights_spec(keys, km, tm, Some(out.last()));
        lemma_select_in_keys(keys, ws, (crate::rng::xorshift(state) as int) % crate::adaptive::weight_sum(ws), 0);
        let k = choose|k: int| 0 <= k < keys.len() && keys[k] == c;
        assert(allowed.contains(keys[k]));
        let pushed = out.push(c);
        assert forall|i: int| 0 <= i < pushed.len() implies allowed.contains(#[trigger] pushed[i]) by {
            if i < out.len() {
                assert(pushed[i] == out[i]);
            }
        }
        lemma_walk_rest_shape(keys, km, tm, pushed, next, len, allowed);
    }
}

/// A weighted walk of eight to twelve bytes is a practice group.
proof fn lemma_walk_ok(
    keys: Seq<char>,
    km: Map<char, u64>,
    tm: Map<(char, char), u64>,
    len: int,
    state: u64,
    allowed: Set<char>,
    hi: int,
)
    requires
        keys.len() > 0,
        forall|i: int| 0 <= i < keys.len() ==> allowed.contains(#[trigger] keys[i]),
        8 <= len <= hi,
    ensures
        group_ok(walk_spec(keys, km, tm, len, state).0, allowed, hi),
{
    let (c, next) = pick_key_spec(keys, km, tm, None, state);
    let ws = weights_spec(keys, km, tm, None);
    lemma_select_in_keys(keys, ws, (crate::rng::xorshift(state) as int) % crate::adaptive::weight_sum(ws), 0);
    let k = choose|k: int| 0 <= k < keys.len() && keys[k] == c;
    assert(allowed.contains(keys[k]));
    assert(keyed(seq![c], allowed));
    lemma_walk_rest_shape(keys, km, tm, seq![c], next, len, allowed);
}

proof fn lemma_walks_ok(
    keys: Seq<char>,
    km: Map<char, u64>,
    tm: Map<(char, char), u64>,
    len: int,
    state: u64,
    count: int,
    allowed: Set<char>,
    hi: int,
)
    requires
        keys.len() > 0,
        forall|i: int| 0 <= i < keys.len() ==> allowed.contains(#[trigger] keys[i]),
        count > 0 ==> 8 <= len <= hi,
    ensures
        all_ok(walks_spec(keys, km, tm, len, state, count).0, allowed, hi),
    decreases count,
{
    if count > 0 {
        let (prev, s) = walks_spec(keys, km, tm, len, state, count - 1);
        lemma_walks_ok(keys, km, tm, len, state, count - 1, allowed, hi);
        lemma_walk_ok(keys, km, tm, len, s, allowed, hi);
        let (w, s2) = walk_spec(keys, km, tm, len, s);
        let all = prev.push(w);
        assert forall|g: int| 0 <= g < all.len() implies group_ok(#[trigger] all[g], allowed, hi) by {
            if g < prev.len() {
                assert(all[g] == prev[g]);
            }
        }
    }
}

/// Every standalone pattern has two to ten digits.
proof fn lemma_standalone_table_lengths(stage: int, k: int)
    requires
        0 <= stage < 6,
        0 <= k < standalone_table(stage).len(),
    ensures
        2 <= standalone_table(stage)[k].len() <= 10,
{
    let t = standalone_table(stage);
    if k == 0 {} else if k == 1 {} else if k == 2 {} else if k == 3 {} else if k == 4 {}
    else if k == 5 {} else if k == 6 {} else if k == 7 {} else if k == 8 {} else {}
}

/// A standalone line is made of practice groups over its pair.
pub proof fn lemma_standalone_grouped(
    pair: KeyPair,
    stage: int,
    line_index: int,
    template: crate::template::Template,
    extended: bool,
    km: Map<char, u64>,
    tm: Map<(char, char), u64>,
    state: u64,
    keys: Set<char>,
)
    requires
        keys.contains(pair.0),
        keys.contains(pair.1),
        0 <= stage < 6,
        line_index >= 0,
    ensures
        grouped_line(
            standalone_spec(pair, stage, line_index, template, extended, km, tm, state).0,
            keys,
            group_cap(extended),
        ),
{
    let pats = standalone_table(stage);
    let n = pats.len() as int;
    assert(n >= 6);
    crate::directions::lemma_order_permutes(n, state);
    let (order0, s1) = shuffle_spec(index_range(n), state);
    let r = line_index % n;
    let order = rotated(order0, r);
    let gc = group_count(stage);
    let ag = adaptive_groups(stage, crate::adaptive::weak_spec(km, tm), template);
    let fixed = Seq::new((gc - ag) as nat, |g: int| rendered(pats[order[g % n] as int], pair));
    let walk_len = if extended {
        6 + stage
    } else {
        2 * stage
    };
    let hi = group_cap(extended);
    assert forall|g: int| 0 <= g < fixed.len() implies group_ok(#[trigger] fixed[g], keys, hi) by {
        let x = g % n;
        assert(0 <= x < n);
        if x < n - r {
            assert(order[x] == order0[x + r]);
        } else {
            assert(order[x] == order0[x - (n - r)]);
        }
        let q = order[x] as int;
        assert(0 <= q < n);
        lemma_standalone_table_lengths(stage, q);
    }
    let ks = seq![pair.0, pair.1];
    assert forall|i: int| 0 <= i < ks.len() implies keys.contains(#[trigger] ks[i]) by {}
    lemma_walks_ok(ks, km, tm, walk_len, s1, ag, keys, hi);
    let (walks, s2) = walks_spec(ks, km, tm, walk_len, s1, ag);
    lemma_concat_ok(fixed, walks, keys, hi);
    let gs = fixed + walks;
    assert(gs.len() >= 1);
    assert(standalone_spec(pair, stage, line_index, template, extended, km, tm, state).0 == join_spaced(gs));
}


/// A fixed group of a mixed line is a practice group over the selection.
proof fn lemma_mixed_group_ok(pairs: Seq<KeyPair>, stage: int, index: int, extended: bool)
    requires
        pairs.len() >= 2,
        index >= 0,
        0 <= stage < 6,
        stage != 3,
    ensures
        group_ok(mixed_group(pairs, stage, index, extended), pair_keys(pairs), group_cap(extended)),
{
    let keys = pair_keys(pairs);
    let n = pairs.len() as int;
    let g = mixed_group(pairs, stage, index, extended);
    lemma_flat_keys_in(pairs);
    if stage == 0 {
        let fk = flat_keys(pairs);
        assert(keys.contains(fk[index % fk.len() as int]));
    } else if stage == 1 {
        lemma_pair_in(pairs, index % n);
        let m = (index / n) % 6;
        let pat = alternation_table()[m];
        if m == 0 {} else if m == 1 {} else if m == 2 {} else if m == 3 {} else if m == 4 {} else {}
        assert(2 <= pat.len() <= 4);
    } else if stage == 2 || stage == 4 {
        let s = crate::patterns::cross_source(n, index);
        let t = crate::patterns::cross_target(n, index);
        lemma_pair_in(pairs, s);
        lemma_pair_in(pairs, t);
    } else {
        let len = (if extended {
            9int
        } else {
            7int
        }) + index % 4;
        let base = balanced_order(pairs, index % 4);
        assert forall|k: int| 0 <= k < base.len() implies keys.contains(#[trigger] base[k]) by {
            let v = index % 4;
            if v == 0 {
            } else if v == 1 {
                assert(keys.contains(flat_keys(pairs)[2 * n - 1 - k]));
            } else if v == 2 {
                if k < n {
                    lemma_pair_in(pairs, k);
                } else {
                    lemma_pair_in(pairs, k - n);
                }
            } else {
                if k < n {
                    lemma_pair_in(pairs, n - 1 - k);
                } else {
                    lemma_pair_in(pairs, 2 * n - 1 - k);
                }
            }
        }
        let order = rotated(base, (index / 4) % base.len() as int);
        assert forall|k: int| 0 <= k < order.len() implies keys.contains(#[trigger] order[k]) by {
            let r = (index / 4) % base.len() as int;
            if k < base.len() - r {
                assert(order[k] == base[k + r]);
            } else {
                assert(order[k] == base[k - (base.len() - r)]);
            }
        }
        let s = longer_balanced_spec(pairs, index, len);
        assert forall|i: int| 0 <= i < s.len() implies keys.contains(#[trigger] s[i]) by {
            assert(s[i] == balanced_at(order, i));
            if i > 1 && i % 6 == 4 {
                assert(keys.contains(order[(i - 1) % order.len() as int]));
            } else {
                assert(keys.contains(order[i % order.len() as int]));
            }
        }
    }
}

/// A mixed line is made of practice groups over the selection.
pub proof fn lemma_mixed_grouped(
    pairs: Seq<KeyPair>,
    stage: int,
    line_index: int,
    template: crate::template::Template,
    extended: bool,
    km: Map<char, u64>,
    tm: Map<(char, char), u64>,
    state: u64,
)
    requires
        pairs.len() >= 1,
        0 <= stage < 6,
        pairs.len() >= 2 ==> stage != 3,
        line_index >= 0,
    ensures
        grouped_line(
            mixed_spec(pairs, stage, line_index, template, extended, km, tm, state).0,
            pair_keys(pairs),
            group_cap(extended),
        ),
{
    let keys = pair_keys(pairs);
    if pairs.len() == 1 {
        lemma_pair_in(pairs, 0);
        lemma_standalone_grouped(pairs[0], stage, line_index, template, extended, km, tm, state, keys);
    } else {
        let gc = group_count(stage);
        let ag = adaptive_groups(stage, crate::adaptive::weak_spec(km, tm), template);
        let start = Seq::new(gc as nat, |g: int| (line_index * gc + g) as usize);
        let (indices, s1) = shuffle_spec(start, state);
        let fixed = Seq::new(
            (gc - ag) as nat,
            |g: int| mixed_group(pairs, stage, indices[g] as int, extended),
        );
        let walk_len = if extended {
            7 + stage
        } else {
            2 * stage
        };
        let hi = group_cap(extended);
        assert forall|g: int| 0 <= g < fixed.len() implies group_ok(#[trigger] fixed[g], keys, hi) by {
            lemma_mixed_group_ok(pairs, stage, indices[g] as int, extended);
        }
        let ks = flat_keys(pairs);
        lemma_flat_keys_in(pairs);
        lemma_walks_ok(ks, km, tm, walk_len, s1, ag, keys, hi);
        let (walks, s2) = walks_spec(ks, km, tm, walk_len, s1, ag);
        lemma_concat_ok(fixed, walks, keys, hi);
        let gs = fixed + walks;
        assert(gs.len() >= 1);
        assert(mixed_spec(pairs, stage, line_index, template, extended, km, tm, state).0 == join_spaced(gs));
    }
}

/// A line of the transition section is made of practice groups of two keys.
pub proof fn lemma_transition_line_grouped(
    edges: Seq<KeyPair>,
    pairs: Seq<KeyPair>,
    lc: int,
    k: int,
    attempt: int,
    hi: int,
)
    requires
        crate::coverage::schedule_of(edges.len() as int, pairs.len() as int),
        pairs_behind(edges.len() as int) == pairs.len(),
        lc >= 1,
        k >= 0,
        attempt >= 0,
        hi >= 2,
        forall|p: int| 0 <= p < edges.len() ==> cross_edge(pairs, #[trigger] edges[p]),
    ensures
        grouped_line(coverage_line_spec(edges, lc, k, attempt), pair_keys(pairs), hi),
{
    let len = edges.len() as int;
    let n = pairs.len() as int;
    let keys = pair_keys(pairs);
    assert(len >= 8) by (nonlinear_arith)
        requires
            n >= 2,
            len == 4 * n * (n - 1),
    ;
    let block = n * 4;
    let capacity = if lc * 12 >= block {
        lc * 12
    } else {
        block
    };
    let (covered, line_len, start) = coverage_layout(len, n, lc, k, attempt);
    assert(1 <= covered <= len) by {
        if len > capacity {
            vstd::arithmetic::div_mod::lemma_fundamental_div_mod(capacity, block);
            vstd::arithmetic::div_mod::lemma_mod_bound(capacity, block);
            assert(capacity / block >= 1) by (nonlinear_arith)
                requires
                    capacity == block * (capacity / block) + capacity % block,
                    0 <= capacity % block < block,
                    capacity >= block,
            ;
            assert((capacity / block) * block >= block) by (nonlinear_arith)
                requires
                    capacity / block >= 1,
                    block >= 1,
            ;
            assert((capacity / block) * block <= capacity) by (nonlinear_arith)
                requires
                    capacity == block * (capacity / block) + capacity % block,
                    0 <= capacity % block,
            ;
        }
    }
    let wanted = if covered >= lc * 6 {
        covered
    } else {
        lc * 6
    };
    let target = (wanted + block - 1) / block * block;
    vstd::arithmetic::div_mod::lemma_fundamental_div_mod(wanted + block - 1, block);
    vstd::arithmetic::div_mod::lemma_mod_bound(wanted + block - 1, block);
    assert(target >= wanted) by (nonlinear_arith)
        requires
            target == (wanted + block - 1) / block * block,
            wanted + block - 1 == block * ((wanted + block - 1) / block) + (wanted + block - 1)
                % block,
            (wanted + block - 1) % block < block,
    ;
    let base = target / lc;
    let extra = target % lc;
    vstd::arithmetic::div_mod::lemma_fundamental_div_mod(target, lc);
    vstd::arithmetic::div_mod::lemma_mod_bound(target, lc);
    assert(base >= 6) by (nonlinear_arith)
        requires
            target >= lc * 6,
            target == lc * base + extra,
            0 <= extra < lc,
    ;
    assert(start >= 0) by (nonlinear_arith)
        requires
            k >= 0,
            base >= 0,
            extra >= 0,
            attempt >= 0,
            start == k * base + (if k < extra { k } else { extra }) + attempt,
    ;
    let gs = coverage_groups(edges, lc, k, attempt);
    assert(gs.len() == line_len && line_len >= 6);
    assert forall|g: int| 0 <= g < gs.len() implies group_ok(#[trigger] gs[g], keys, hi) by {
        let q = (start + g) % covered;
        vstd::arithmetic::div_mod::lemma_mod_bound(start + g, covered);
        assert(gs[g] == coverage_group(edges, start, covered, g));
        assert(cross_edge(pairs, edges[q]));
        let (i, j, a, b) = choose|i: int, j: int, a: int, b: int|
            0 <= i < pairs.len() && 0 <= j < pairs.len() && i != j && 0 <= a < 2 && 0 <= b < 2
                && edges[q] == (
                #[trigger] crate::coverage::side_key(pairs[i], a),
                #[trigger] crate::coverage::side_key(pairs[j], b),
            );
        lemma_pair_in(pairs, i);
        lemma_pair_in(pairs, j);
        assert(keys.contains(gs[g][0]) && keys.contains(gs[g][1]));
    }
}

/// A line over some keys is a line over any wider set of keys.
proof fn lemma_grouped_widen(l: Seq<char>, k1: Set<char>, k2: Set<char>, hi: int)
    requires
        grouped_line(l, k1, hi),
        forall|c: char| #[trigger] k1.contains(c) ==> k2.contains(c),
    ensures
        grouped_line(l, k2, hi),
{
    let gs = choose|gs: Seq<Seq<char>>|
        l == join_spaced(gs) && gs.len() >= 1 && forall|g: int|
            0 <= g < gs.len() ==> group_ok(#[trigger] gs[g], k1, hi);
    assert forall|g: int| 0 <= g < gs.len() implies group_ok(#[trigger] gs[g], k2, hi) by {
        assert(group_ok(gs[g], k1, hi));
        assert forall|i: int| 0 <= i < gs[g].len() implies k2.contains(#[trigger] gs[g][i]) by {
            assert(k1.contains(gs[g][i]));
        }
    }
}

/// What the lines of a plan need to be practice lines.
pub open spec fn groupable_plan(p: PlanSpec) -> bool {
    &&& p.pairs.len() >= 1
    &&& p.standalone ==> p.pairs.len() == 1
    &&& p.counts.len() == 6
    &&& p.counts[3] >= 1
    &&& p.pairs.len() >= 2 ==> {
        &&& crate::coverage::schedule_of(p.coverage.len() as int, p.pairs.len() as int)
        &&& pairs_behind(p.coverage.len() as int) == p.pairs.len()
        &&& forall|q: int| 0 <= q < p.coverage.len() ==> cross_edge(p.pairs, #[trigger] p.coverage[q])
    }
}

proof fn lemma_candidate_grouped(p: PlanSpec, stage: int, li: int, a: int, s: u64)
    requires
        groupable_plan(p),
        0 <= stage < 6,
        li >= 0,
        a >= 0,
    ensures
        grouped_line(candidate_spec(p, stage, li, a, s).0, pair_keys(p.pairs), group_cap(p.extended)),
{
    let keys = pair_keys(p.pairs);
    if p.standalone {
        lemma_pair_in(p.pairs, 0);
        lemma_standalone_grouped(p.pairs[0], stage, li + a, p.template, p.extended, p.km, p.tm, s, keys);
    } else if stage == 3 && p.pairs.len() > 1 {
        lemma_transition_line_grouped(
            p.coverage,
            p.pairs,
            p.counts[3] as int,
            li,
            a,
            group_cap(p.extended),
        );
    } else {
        lemma_mixed_grouped(p.pairs, stage, li + a, p.template, p.extended, p.km, p.tm, s);
    }
}

/// Section `st` of a session is the lines built after the sections before it.
proof fn lemma_section_at(p: PlanSpec, m: int, st: int, s0: u64)
    requires
        0 <= st < m,
    ensures
        ({
            let (prev, u, s) = sections_upto(p, st, Set::empty(), s0);
            sections_upto(p, m, Set::empty(), s0).0[st] == lines_upto(p, st, p.counts[st] as int, u, s).0
        }),
    decreases m,
{
    crate::directions::lemma_sections_len(p, m - 1, Set::empty(), s0);
    if m > st + 1 {
        lemma_section_at(p, m - 1, st, s0);
    }
}

/// Law (practice groups): every line of a generated session is one or more
/// groups joined by single spaces, each group two to twelve keys of the
/// selected pairs, and at most ten in short and medium sessions.
pub proof fn lemma_session_groups(
    ps: Seq<Seq<char>>,
    mode: Seq<char>,
    length: Seq<char>,
    adaptive: bool,
    data: crate::model::AppData,
    seed: u64,
)
    requires
        ps.no_duplicates(),
        forall|x: int| 0 <= x < ps.len() ==> crate::generator::is_known_pair(#[trigger] ps[x]),
        1 <= ps.len(),
        mode == "standalone"@ ==> ps.len() == 1,
        crate::generator::session_total(length) > 0,
    ensures
        ({
            let p = crate::generator::plan_for(ps, mode, length, adaptive, data, seed);
            let lines = crate::generator::session_lines(p, seed);
            forall|st: int, k: int|
                0 <= st < 6 && 0 <= k < lines[st].len() ==> grouped_line(
                    #[trigger] lines[st][k],
                    crate::adaptive::allowed_chars(ps),
                    group_cap(length == "long"@ || length == "endless"@),
                )
        }),
{
    let p = crate::generator::plan_for(ps, mode, length, adaptive, data, seed);
    let cs = crate::generator::initial_state(seed);
    let pairs = p.pairs;
    crate::generator::lemma_selection_small(ps);
    crate::directions::lemma_selection_keys_distinct(ps);
    let total = crate::generator::session_total(length);
    crate::template::lemma_allocation_ok(p.template, total as usize);
    crate::template::lemma_section_counts_law(total as usize, crate::template::allocation_spec(p.template));
    if pairs.len() >= 2 {
        crate::coverage::lemma_schedule_len(pairs, cs);
        crate::directions::lemma_schedule_distinct(pairs, cs);
    }
    assert(groupable_plan(p));
    let s0 = crate::coverage::schedule_spec(pairs, cs).1;
    assert forall|c: char| pair_keys(pairs).contains(c) implies crate::adaptive::allowed_chars(
        ps,
    ).contains(c) by {
        let i = choose|i: int| 0 <= i < pairs.len() && (pairs[i].0 == c || pairs[i].1 == c);
        if pairs[i].0 == c {
            assert(ps[i][0] == c);
        } else {
            assert(ps[i][1] == c);
        }
    }
    let lines = crate::generator::session_lines(p, seed);
    let hi = group_cap(length == "long"@ || length == "endless"@);
    assert(hi == group_cap(p.extended));
    assert forall|st: int, k: int| 0 <= st < 6 && 0 <= k < lines[st].len() implies grouped_line(
        #[trigger] lines[st][k],
        crate::adaptive::allowed_chars(ps),
        hi,
    ) by {
        lemma_section_at(p, 6, st, s0);
        let (prev, u, s) = sections_upto(p, st, Set::empty(), s0);
        let ls = lines_upto(p, st, p.counts[st] as int, u, s).0;
        assert(lines[st] == ls);
        crate::directions::lemma_lines_are_candidates(p, st, p.counts[st] as int, u, s);
        assert(crate::directions::is_candidate(p, st, k, ls[k]));
        let (a, s2) = choose|a: int, s2: u64|
            0 <= a < 12 && ls[k] == (#[trigger] candidate_spec(p, st, k, a, s2)).0;
        lemma_candidate_grouped(p, st, k, a, s2);
        lemma_grouped_widen(ls[k], pair_keys(pairs), crate::adaptive::allowed_chars(ps), hi);
    }
}

} // verus!
