use vstd::prelude::*;
use crate::adaptive::{pick_key_spec, select_key, walk_rest, walk_spec, weights_spec};
use crate::coverage::{
    blocks_upto, coverage_group, coverage_layout, coverage_line_spec, index_range, offset_block,
    pairs_behind, schedule_spec, side_key,
};
use crate::lines::{mixed_group, mixed_spec, standalone_spec, walks_spec};
use crate::patterns::{
    alternation_table, balanced_at, balanced_order, difficult_cross_spec, flat_keys,
    longer_balanced_spec, pair_alternation_spec, rendered, repeated_key_spec, rotated,
    short_cross_spec, standalone_table, KeyPair,
};
use crate::plan::{attempts_from, candidate_spec, lines_upto, sections_upto, PlanSpec};
use crate::rng::shuffle_spec;
use crate::text::join_spaced;

verus! {

/// The keys of a selection of pairs.
pub open spec fn pair_keys(pairs: Seq<KeyPair>) -> Set<char> {
    Set::new(|c: char| exists|i: int| 0 <= i < pairs.len() && (pairs[i].0 == c || pairs[i].1 == c))
}

/// Every character of `s` is a space or a key of `keys`.
pub open spec fn typed_with(s: Seq<char>, keys: Set<char>) -> bool {
    forall|i: int| 0 <= i < s.len() ==> s[i] == ' ' || keys.contains(#[trigger] s[i])
}

/// Every group is typed with `keys`.
pub open spec fn all_typed_with(groups: Seq<Seq<char>>, keys: Set<char>) -> bool {
    forall|g: int| 0 <= g < groups.len() ==> typed_with(#[trigger] groups[g], keys)
}

proof fn lemma_join_typed(groups: Seq<Seq<char>>, keys: Set<char>)
    requires
        all_typed_with(groups, keys),
    ensures
        typed_with(join_spaced(groups), keys),
    decreases groups.len(),
{
    if groups.len() > 1 {
        let rest = groups.drop_last();
        assert(all_typed_with(rest, keys)) by {
            assert forall|g: int| 0 <= g < rest.len() implies typed_with(#[trigger] rest[g], keys) by {
                assert(rest[g] == groups[g]);
            }
        }
        lemma_join_typed(rest, keys);
        let j = join_spaced(rest);
        let last = groups.last();
        assert(typed_with(last, keys)) by {
            assert(groups[groups.len() - 1] == last);
        }
        let whole = j + seq![' '] + last;
        assert forall|i: int| 0 <= i < whole.len() implies whole[i] == ' ' || keys.contains(
            #[trigger] whole[i],
        ) by {
            if i < j.len() {
                assert(whole[i] == j[i]);
            } else if i == j.len() {
            } else {
                assert(whole[i] == last[i - j.len() - 1]);
            }
        }
    } else if groups.len() == 1 {
        assert(typed_with(groups[0], keys));
    }
}

pub(crate) proof fn lemma_select_in_keys(keys: Seq<char>, ws: Seq<u64>, choice: int, i: int)
    requires
        keys.len() > 0,
    ensures
        keys.contains(select_key(keys, ws, choice, i)),
    decreases keys.len() - i,
{
    if i < 0 || i >= keys.len() {
        assert(keys[0] == select_key(keys, ws, choice, i));
    } else if choice < ws[i] {
        assert(keys[i] == select_key(keys, ws, choice, i));
    } else {
        lemma_select_in_keys(keys, ws, choice - ws[i], i + 1);
    }
}

proof fn lemma_walk_rest_typed(
    keys: Seq<char>,
    km: Map<char, u64>,
    tm: Map<(char, char), u64>,
    out: Seq<char>,
    state: u64,
    len: int,
    allowed: Set<char>,
)
    requires
        keys.len() > 0,
        forall|i: int| 0 <= i < keys.len() ==> allowed.contains(#[trigger] keys[i]),
        typed_with(out, allowed),
    ensures
        typed_with(walk_rest(keys, km, tm, out, state, len).0, allowed),
    decreases len - out.len(),
{
    if !(crate::adaptive::utf8_len(out) >= len || out.len() == 0) {
        crate::adaptive::lemma_utf8_len_bounds(out);
        let (c, next) = pick_key_spec(keys, km, tm, Some(out.last()), state);
        let ws = weights_spec(keys, km, tm, Some(out.last()));
        lemma_select_in_keys(keys, ws, (crate::rng::xorshift(state) as int) % crate::adaptive::weight_sum(ws), 0);
        let k = choose|k: int| 0 <= k < keys.len() && keys[k] == c;
        assert(allowed.contains(keys[k]));
        let pushed = out.push(c);
        assert forall|i: int| 0 <= i < pushed.len() implies pushed[i] == ' ' || allowed.contains(
            #[trigger] pushed[i],
        ) by {
            if i < out.len() {
                assert(pushed[i] == out[i]);
            }
        }
        lemma_walk_rest_typed(keys, km, tm, pushed, next, len, allowed);
    }
}

/// A weighted walk uses only the keys it draws from.
pub proof fn lemma_walk_typed(
    keys: Seq<char>,
    km: Map<char, u64>,
    tm: Map<(char, char), u64>,
    len: int,
    state: u64,
    allowed: Set<char>,
)
    requires
        keys.len() > 0,
        forall|i: int| 0 <= i < keys.len() ==> allowed.contains(#[trigger] keys[i]),
    ensures
        typed_with(walk_spec(keys, km, tm, len, state).0, allowed),
{
    let (c, next) = pick_key_spec(keys, km, tm, None, state);
    let ws = weights_spec(keys, km, tm, None);
    lemma_select_in_keys(keys, ws, (crate::rng::xorshift(state) as int) % crate::adaptive::weight_sum(ws), 0);
    let k = choose|k: int| 0 <= k < keys.len() && keys[k] == c;
    assert(allowed.contains(keys[k]));
    assert(typed_with(seq![c], allowed));
    lemma_walk_rest_typed(keys, km, tm, seq![c], next, len, allowed);
}

proof fn lemma_walks_typed(
    keys: Seq<char>,
    km: Map<char, u64>,
    tm: Map<(char, char), u64>,
    len: int,
    state: u64,
    count: int,
    allowed: Set<char>,
)
    requires
        keys.len() > 0,
        forall|i: int| 0 <= i < keys.len() ==> allowed.contains(#[trigger] keys[i]),
    ensures
        all_typed_with(walks_spec(keys, km, tm, len, state, count).0, allowed),
    decreases count,
{
    if count > 0 {
        let (prev, s) = walks_spec(keys, km, tm, len, state, count - 1);
        lemma_walks_typed(keys, km, tm, len, state, count - 1, allowed);
        lemma_walk_typed(keys, km, tm, len, s, allowed);
        let (w, s2) = walk_spec(keys, km, tm, len, s);
        let all = prev.push(w);
        assert forall|g: int| 0 <= g < all.len() implies typed_with(#[trigger] all[g], allowed) by {
            if g < prev.len() {
                assert(all[g] == prev[g]);
            }
        }
    }
}

proof fn lemma_concat_typed(a: Seq<Seq<char>>, b: Seq<Seq<char>>, keys: Set<char>)
    requires
        all_typed_with(a, keys),
        all_typed_with(b, keys),
    ensures
        all_typed_with(a + b, keys),
{
    assert forall|g: int| 0 <= g < (a + b).len() implies typed_with(#[trigger] (a + b)[g], keys) by {
        if g < a.len() {
            assert((a + b)[g] == a[g]);
        } else {
            assert((a + b)[g] == b[g - a.len()]);
        }
    }
}

proof fn lemma_rendered_typed(p: Seq<u8>, pair: KeyPair, keys: Set<char>)
    requires
        keys.contains(pair.0),
        keys.contains(pair.1),
    ensures
        typed_with(rendered(p, pair), keys),
{
}

/// A standalone line uses only the keys of its pair.
pub proof fn lemma_standalone_typed(
    pair: KeyPair,
    stage: int,
    line_index: int,
    template: crate::template::Template,
    extended: bool,
    km: Map<char, u64>,
    tm: Map<(char, char), u64>,
    state: u64,
    keys: Set<char>,
)
    requires
        keys.contains(pair.0),
        keys.contains(pair.1),
    ensures
        typed_with(standalone_spec(pair, stage, line_index, template, extended, km, tm, state).0, keys),
{
    let pats = standalone_table(stage);
    let n = pats.len() as int;
    let (order0, s1) = shuffle_spec(index_range(n), state);
    let order = rotated(order0, line_index % n);
    let gc = crate::lines::group_count(stage);
    let ag = crate::lines::adaptive_groups(stage, crate::adaptive::weak_spec(km, tm), template);
    let fixed = Seq::new((gc - ag) as nat, |g: int| rendered(pats[order[g % n] as int], pair));
    let walk_len = if extended {
        6 + stage
    } else {
        2 * stage
    };
    assert(all_typed_with(fixed, keys)) by {
        assert forall|g: int| 0 <= g < fixed.len() implies typed_with(#[trigger] fixed[g], keys) by {
            lemma_rendered_typed(pats[order[g % n] as int], pair, keys);
        }
    }
    let ks = seq![pair.0, pair.1];
    assert forall|i: int| 0 <= i < ks.len() implies keys.contains(#[trigger] ks[i]) by {}
    lemma_walks_typed(ks, km, tm, walk_len, s1, ag, keys);
    let (walks, s2) = walks_spec(ks, km, tm, walk_len, s1, ag);
    lemma_concat_typed(fixed, walks, keys);
    lemma_join_typed(fixed + walks, keys);
}

pub(crate) proof fn lemma_flat_keys_in(pairs: Seq<KeyPair>)
    ensures
        forall|i: int| 0 <= i < flat_keys(pairs).len() ==> pair_keys(pairs).contains(
            #[trigger] flat_keys(pairs)[i],
        ),
{
    assert forall|i: int| 0 <= i < flat_keys(pairs).len() implies pair_keys(pairs).contains(
        #[trigger] flat_keys(pairs)[i],
    ) by {
        assert(0 <= i / 2 < pairs.len());
    }
}

pub(crate) proof fn lemma_pair_in(pairs: Seq<KeyPair>, i: int)
    requires
        0 <= i < pairs.len(),
    ensures
        pair_keys(pairs).contains(pairs[i].0),
        pair_keys(pairs).contains(pairs[i].1),
{
}

proof fn lemma_mixed_group_typed(pairs: Seq<KeyPair>, stage: int, index: int, extended: bool)
    requires
        pairs.len() >= 2,
        index >= 0,
        stage != 3,
    ensures
        typed_with(mixed_group(pairs, stage, index, extended), pair_keys(pairs)),
{
    let keys = pair_keys(pairs);
    let n = pairs.len() as int;
    lemma_flat_keys_in(pairs);
    if stage == 0 {
        let fk = flat_keys(pairs);
        assert(keys.contains(fk[index % fk.len() as int]));
    } else if stage == 1 {
        lemma_pair_in(pairs, index % n);
        lemma_rendered_typed(alternation_table()[(index / n) % 6], pairs[index % n], keys);
    } else if stage == 2 || stage == 4 {
        let s = crate::patterns::cross_source(n, index);
        let t = crate::patterns::cross_target(n, index);
        lemma_pair_in(pairs, s);
        lemma_pair_in(pairs, t);
    } else {
        let len = (if extended {
            9int
        } else {
            7int
        }) + index % 4;
        let base = balanced_order(pairs, index % 4);
        assert forall|k: int| 0 <= k < base.len() implies keys.contains(#[trigger] base[k]) by {
            let v = index % 4;
            if v == 0 {
            } else if v == 1 {
                assert(keys.contains(flat_keys(pairs)[2 * n - 1 - k]));
            } else if v == 2 {
                if k < n {
                    lemma_pair_in(pairs, k);
                } else {
                    lemma_pair_in(pairs, k - n);
                }
            } else {
                if k < n {
                    lemma_pair_in(pairs, n - 1 - k);
                } else {
                    lemma_pair_in(pairs, 2 * n - 1 - k);
                }
            }
        }
        let order = rotated(base, (index / 4) % base.len() as int);
        assert forall|k: int| 0 <= k < order.len() implies keys.contains(#[trigger] order[k]) by {
            let r = (index / 4) % base.len() as int;
            if k < base.len() - r {
                assert(order[k] == base[k + r]);
            } else {
                assert(order[k] == base[k - (base.len() - r)]);
            }
        }
        let s = longer_balanced_spec(pairs, index, len);
        assert forall|i: int| 0 <= i < s.len() implies s[i] == ' ' || keys.contains(#[trigger] s[i]) by {
            assert(s[i] == balanced_at(order, i));
        }
    }
}

/// A mixed line uses only the keys of the selected pairs.
pub proof fn lemma_mixed_typed(
    pairs: Seq<KeyPair>,
    stage: int,
    line_index: int,
    template: crate::template::Template,
    extended: bool,
    km: Map<char, u64>,
    tm: Map<(char, char), u64>,
    state: u64,
)
    requires
        pairs.len() >= 1,
        0 <= line_index,
        stage == 3 ==> pairs.len() == 1,
    ensures
        typed_with(
            mixed_spec(pairs, stage, line_index, template, extended, km, tm, state).0,
            pair_keys(pairs),
        ),
{
    let keys = pair_keys(pairs);
    if pairs.len() == 1 {
        lemma_pair_in(pairs, 0);
        lemma_standalone_typed(pairs[0], stage, line_index, template, extended, km, tm, state, keys);
    } else {
        let gc = crate::lines::group_count(stage);
        let ag = crate::lines::adaptive_groups(stage, crate::adaptive::weak_spec(km, tm), template);
        let start = Seq::new(gc as nat, |g: int| (line_index * gc + g) as usize);
        let (indices, s1) = shuffle_spec(start, state);
        let fixed = Seq::new(
            (gc - ag) as nat,
            |g: int| mixed_group(pairs, stage, indices[g] as int, extended),
        );
        assert(all_typed_with(fixed, keys)) by {
            assert forall|g: int| 0 <= g < fixed.len() implies typed_with(#[trigger] fixed[g], keys) by {
                lemma_mixed_group_typed(pairs, stage, indices[g] as int, extended);
            }
        }
        let walk_len = if extended {
            7 + stage
        } else {
            2 * stage
        };
        lemma_flat_keys_in(pairs);
        lemma_walks_typed(flat_keys(pairs), km, tm, walk_len, s1, ag, keys);
        let (walks, s2) = walks_spec(flat_keys(pairs), km, tm, walk_len, s1, ag);
        lemma_concat_typed(fixed, walks, keys);
        lemma_join_typed(fixed + walks, keys);
    }
}

/// Every edge of the schedule joins two keys of the selection.
proof fn lemma_schedule_typed(pairs: Seq<KeyPair>, state: u64)
    requires
        2 <= pairs.len() <= usize::MAX,
    ensures
        forall|e: int| 0 <= e < schedule_spec(pairs, state).0.len() ==> {
            let edge = #[trigger] schedule_spec(pairs, state).0[e];
            pair_keys(pairs).contains(edge.0) && pair_keys(pairs).contains(edge.1)
        },
{
    broadcast use vstd::seq_lib::group_to_multiset_ensures;

    let n = pairs.len() as int;
    let range = index_range(n);
    let (order, s1) = shuffle_spec(range, state);
    crate::rng::lemma_shuffle_is_permutation(range, state, n - 1);
    assert forall|q: int| 0 <= q < order.len() implies #[trigger] order[q] < n by {
        assert(order.contains(order[q]));
        assert(order.to_multiset().count(order[q]) > 0);
        assert(range.contains(order[q]));
    }
    lemma_blocks_typed(pairs, order, s1, n);
}

proof fn lemma_blocks_typed(pairs: Seq<KeyPair>, order: Seq<usize>, state: u64, o: int)
    requires
        pairs.len() >= 1,
        order.len() == pairs.len(),
        forall|q: int| 0 <= q < order.len() ==> #[trigger] order[q] < pairs.len(),
    ensures
        forall|e: int| 0 <= e < blocks_upto(pairs, order, state, o).0.len() ==> {
            let edge = #[trigger] blocks_upto(pairs, order, state, o).0[e];
            pair_keys(pairs).contains(edge.0) && pair_keys(pairs).contains(edge.1)
        },
    decreases o,
{
    if o > 1 {
        lemma_blocks_typed(pairs, order, state, o - 1);
        let (prev, s) = blocks_upto(pairs, order, state, o - 1);
        let x = crate::rng::xorshift(s);
        let blk = offset_block(pairs, order, o - 1, x & 1 != 0);
        let all = prev + blk;
        let n = pairs.len() as int;
        assert forall|e: int| 0 <= e < all.len() implies {
            let edge = #[trigger] all[e];
            pair_keys(pairs).contains(edge.0) && pair_keys(pairs).contains(edge.1)
        } by {
            if e < prev.len() {
                assert(all[e] == prev[e]);
            } else {
                let f = e - prev.len();
                let src = f / 4;
                assert(0 <= src < n);
                let dst = (src + (o - 1)) % n;
                assert(0 <= dst < n);
                lemma_pair_in(pairs, order[src] as int);
                lemma_pair_in(pairs, order[dst] as int);
                assert(all[e] == blk[f]);
            }
        }
    }
}

/// A transition line uses only keys of the selection.
pub proof fn lemma_coverage_typed(pairs: Seq<KeyPair>, state: u64, line_count: int, line: int, attempt: int)
    requires
        2 <= pairs.len() <= usize::MAX,
        line_count >= 1,
        line >= 0,
        attempt >= 0,
    ensures
        typed_with(
            coverage_line_spec(schedule_spec(pairs, state).0, line_count, line, attempt),
            pair_keys(pairs),
        ),
{
    let edges = schedule_spec(pairs, state).0;
    let keys = pair_keys(pairs);
    lemma_schedule_typed(pairs, state);
    crate::coverage::lemma_schedule_len(pairs, state);
    let n = pairs.len() as int;
    let len = edges.len() as int;
    assert(len >= 8) by (nonlinear_arith)
        requires
            len == 4 * n * (n - 1),
            n >= 2,
    ;
    let (covered, line_len, start) = coverage_layout(len, pairs_behind(len), line_count, line, attempt);
    let block = n * 4;
    let capacity = if line_count * 12 >= block {
        line_count * 12
    } else {
        block
    };
    assert(capacity / block * block <= capacity) by (nonlinear_arith)
        requires
            block >= 1,
            capacity >= 0,
    ;
    assert(covered >= 1 && covered <= len) by (nonlinear_arith)
        requires
            covered == (if len <= capacity {
                len
            } else {
                capacity / block * block
            }),
            capacity >= block,
            block >= 8,
            capacity / block * block <= capacity,
            len >= 8,
    ;
    let groups = Seq::new(line_len as nat, |i: int| coverage_group(edges, start, covered, i));
    assert forall|g: int| 0 <= g < groups.len() implies typed_with(#[trigger] groups[g], keys) by {
        let k = (start + g) % covered;
        assert(0 <= k < len);
        let edge = edges[k];
        assert(keys.contains(edge.0) && keys.contains(edge.1));
    }
    lemma_join_typed(groups, keys);
}


/// A plan whose lines are built from its pairs and their schedule.
pub open spec fn plan_shape(p: PlanSpec, coverage_state: u64) -> bool {
    &&& 1 <= p.pairs.len() <= usize::MAX
    &&& p.standalone ==> p.pairs.len() == 1
    &&& p.coverage == schedule_spec(p.pairs, coverage_state).0
    &&& p.counts.len() == 6
    &&& forall|k: int| 0 <= k < 6 ==> #[trigger] p.counts[k] >= 1
}

proof fn lemma_candidate_typed(p: PlanSpec, cs: u64, stage: int, li: int, attempt: int, state: u64)
    requires
        plan_shape(p, cs),
        0 <= stage < 6,
        li >= 0,
        attempt >= 0,
    ensures
        typed_with(candidate_spec(p, stage, li, attempt, state).0, pair_keys(p.pairs)),
{
    let keys = pair_keys(p.pairs);
    if p.standalone {
        lemma_pair_in(p.pairs, 0);
        lemma_standalone_typed(
            p.pairs[0],
            stage,
            li + attempt,
            p.template,
            p.extended,
            p.km,
            p.tm,
            state,
            keys,
        );
    } else if stage == 3 && p.pairs.len() > 1 {
        lemma_coverage_typed(p.pairs, cs, p.counts[3] as int, li, attempt);
    } else {
        lemma_mixed_typed(p.pairs, stage, li + attempt, p.template, p.extended, p.km, p.tm, state);
    }
}

proof fn lemma_attempts_typed(
    p: PlanSpec,
    cs: u64,
    stage: int,
    li: int,
    used: Set<Seq<char>>,
    state: u64,
    attempt: int,
)
    requires
        plan_shape(p, cs),
        0 <= stage < 6,
        li >= 0,
        attempt >= 0,
    ensures
        typed_with(attempts_from(p, stage, li, used, state, attempt).0, pair_keys(p.pairs)),
    decreases 12 - attempt,
{
    lemma_candidate_typed(p, cs, stage, li, attempt, state);
    let (line, next) = candidate_spec(p, stage, li, attempt, state);
    if used.contains(line) && attempt + 1 < 12 {
        lemma_attempts_typed(p, cs, stage, li, used, next, attempt + 1);
    }
}

proof fn lemma_lines_typed(p: PlanSpec, cs: u64, stage: int, k: int, used: Set<Seq<char>>, state: u64)
    requires
        plan_shape(p, cs),
        0 <= stage < 6,
    ensures
        all_typed_with(lines_upto(p, stage, k, used, state).0, pair_keys(p.pairs)),
        k >= 0 ==> lines_upto(p, stage, k, used, state).0.len() == k,
    decreases k,
{
    if k > 0 {
        lemma_lines_typed(p, cs, stage, k - 1, used, state);
        let (prev, u, s) = lines_upto(p, stage, k - 1, used, state);
        lemma_attempts_typed(p, cs, stage, k - 1, u, s, 0);
        let (line, u2, s2) = attempts_from(p, stage, k - 1, u, s, 0);
        let all = prev.push(line);
        assert forall|g: int| 0 <= g < all.len() implies typed_with(#[trigger] all[g], pair_keys(p.pairs)) by {
            if g < prev.len() {
                assert(all[g] == prev[g]);
            }
        }
    }
}

proof fn lemma_sections_typed(p: PlanSpec, cs: u64, st: int, used: Set<Seq<char>>, state: u64)
    requires
        plan_shape(p, cs),
        0 <= st <= 6,
    ensures
        sections_upto(p, st, used, state).0.len() == st,
        forall|i: int| 0 <= i < st ==> all_typed_with(
            #[trigger] sections_upto(p, st, used, state).0[i],
            pair_keys(p.pairs),
        ),
        forall|i: int| 0 <= i < st ==> (#[trigger] sections_upto(p, st, used, state).0[i]).len()
            == p.counts[i],
    decreases st,
{
    if st > 0 {
        lemma_sections_typed(p, cs, st - 1, used, state);
        let (prev, u, s) = sections_upto(p, st - 1, used, state);
        lemma_lines_typed(p, cs, st - 1, p.counts[st - 1] as int, u, s);
        let (lines, u2, s2) = lines_upto(p, st - 1, p.counts[st - 1] as int, u, s);
        let all = prev.push(lines);
        assert forall|i: int| 0 <= i < st implies all_typed_with(#[trigger] all[i], pair_keys(p.pairs))
            && all[i].len() == p.counts[i] by {
            if i < st - 1 {
                assert(all[i] == prev[i]);
            }
        }
    }
}

/// Law: a generated session has six sections; section `i` holds the number
/// of lines the section split gives it (so a session holds as many lines as
/// its length asks for), and every line is typed with the keys of the
/// selected pairs and spaces only.
pub proof fn lemma_session_shape(
    ps: Seq<Seq<char>>,
    mode: Seq<char>,
    length: Seq<char>,
    adaptive: bool,
    data: crate::model::AppData,
    seed: u64,
)
    requires
        1 <= ps.len() <= 15,
        forall|i: int| 0 <= i < ps.len() ==> (#[trigger] ps[i]).len() == 2,
        mode == "standalone"@ ==> ps.len() == 1,
        crate::generator::session_total(length) > 0,
    ensures
        ({
            let p = crate::generator::plan_for(ps, mode, length, adaptive, data, seed);
            let lines = crate::generator::session_lines(p, seed);
            &&& lines.len() == 6
            &&& forall|i: int| 0 <= i < 6 ==> (#[trigger] lines[i]).len() == p.counts[i]
            &&& crate::template::seq_sum(p.counts) == crate::generator::session_total(length)
            &&& forall|i: int, j: int|
                0 <= i < 6 && 0 <= j < lines[i].len() ==> typed_with(
                    #[trigger] lines[i][j],
                    crate::adaptive::allowed_chars(ps),
                )
        }),
{
    let p = crate::generator::plan_for(ps, mode, length, adaptive, data, seed);
    let cs = crate::generator::initial_state(seed);
    let total = crate::generator::session_total(length);
    crate::template::lemma_allocation_ok(p.template, total as usize);
    crate::template::lemma_section_counts_law(total as usize, crate::template::allocation_spec(p.template));
    assert(p.counts =~= crate::template::section_counts_spec(
        total as usize,
        crate::template::allocation_spec(p.template),
    ));
    assert(plan_shape(p, cs));
    let start = schedule_spec(p.pairs, cs).1;
    lemma_sections_typed(p, cs, 6, Set::empty(), start);
    let lines = crate::generator::session_lines(p, seed);
    assert forall|c: char| pair_keys(p.pairs).contains(c) implies crate::adaptive::allowed_chars(
        ps,
    ).contains(c) by {
        let i = choose|i: int| 0 <= i < p.pairs.len() && (p.pairs[i].0 == c || p.pairs[i].1 == c);
        if p.pairs[i].0 == c {
            assert(ps[i][0] == c);
        } else {
            assert(ps[i][1] == c);
        }
    }
    assert forall|i: int, j: int| 0 <= i < 6 && 0 <= j < lines[i].len() implies typed_with(
        #[trigger] lines[i][j],
        crate::adaptive::allowed_chars(ps),
    ) by {
        assert(all_typed_with(lines[i], pair_keys(p.pairs)));
        assert(typed_with(lines[i][j], pair_keys(p.pairs)));
    }
}

/// Law: a session is reproducible from its seed. Two requests that differ at
/// most in their `seed` field, generated with the same seed over the same
/// statistics, give the same outcome: the same error, or plans with the same
/// mode, pairs, seed and lines.
pub proof fn lemma_seed_reproduces(
    r1: Result<crate::model::SessionPlan, String>,
    r2: Result<crate::model::SessionPlan, String>,
    req1: crate::model::GenerateRequest,
    req2: crate::model::GenerateRequest,
    data: crate::model::AppData,
    seed: u64,
)
    requires
        crate::text::string_views(req1.pairs@) == crate::text::string_views(req2.pairs@),
        req1.mode@ == req2.mode@,
        req1.length@ == req2.length@,
        req1.adaptive == req2.adaptive,
        crate::generator::generated(r1, req1, data, seed),
        crate::generator::generated(r2, req2, data, seed),
    ensures
        r1 is Ok <==> r2 is Ok,
        r1 is Err ==> r1->Err_0@ == r2->Err_0@,
        r1 is Ok ==> {
            &&& r1->Ok_0.mode@ == r2->Ok_0.mode@
            &&& crate::text::string_views(r1->Ok_0.pairs@) == crate::text::string_views(
                r2->Ok_0.pairs@,
            )
            &&& r1->Ok_0.seed == r2->Ok_0.seed
            &&& crate::plan::section_views(r1->Ok_0.sections@) == crate::plan::section_views(
                r2->Ok_0.sections@,
            )
        },
{
}

/// Two plans that agree in everything but their weights.
pub open spec fn same_but_weights(p: PlanSpec, q: PlanSpec) -> bool {
    &&& p.pairs == q.pairs
    &&& p.standalone == q.standalone
    &&& p.template == q.template
    &&& p.extended == q.extended
    &&& p.coverage == q.coverage
    &&& p.counts == q.counts
}

/// Without a weakness, a plan's weights do not reach its candidate lines:
/// no line holds weighted walks.
proof fn lemma_unweighted_candidate(p: PlanSpec, q: PlanSpec, stage: int, li: int, attempt: int, state: u64)
    requires
        same_but_weights(p, q),
        !crate::adaptive::weak_spec(p.km, p.tm),
        !crate::adaptive::weak_spec(q.km, q.tm),
    ensures
        candidate_spec(p, stage, li, attempt, state) == candidate_spec(q, stage, li, attempt, state),
{
    assert(crate::lines::adaptive_groups(stage, false, p.template) == 0);
    assert forall|keys: Seq<char>, len: int, s1: u64|
        #[trigger] walks_spec(keys, p.km, p.tm, len, s1, 0) == walks_spec(keys, q.km, q.tm, len, s1, 0) by {}
}

/// Without a weakness, attempts at a line do not depend on the weights.
proof fn lemma_unweighted_attempts(
    p: PlanSpec,
    q: PlanSpec,
    stage: int,
    li: int,
    used: Set<Seq<char>>,
    state: u64,
    attempt: int,
)
    requires
        same_but_weights(p, q),
        !crate::adaptive::weak_spec(p.km, p.tm),
        !crate::adaptive::weak_spec(q.km, q.tm),
    ensures
        attempts_from(p, stage, li, used, state, attempt) == attempts_from(q, stage, li, used, state, attempt),
    decreases 12 - attempt,
{
    lemma_unweighted_candidate(p, q, stage, li, attempt, state);
    let (line, next) = candidate_spec(p, stage, li, attempt, state);
    if !used.contains(line) {
    } else if attempt + 1 >= 12 {
    } else {
        lemma_unweighted_attempts(p, q, stage, li, used, next, attempt + 1);
    }
}

/// Without a weakness, the lines of a section do not depend on the weights.
proof fn lemma_unweighted_lines(p: PlanSpec, q: PlanSpec, stage: int, k: int, used: Set<Seq<char>>, state: u64)
    requires
        same_but_weights(p, q),
        !crate::adaptive::weak_spec(p.km, p.tm),
        !crate::adaptive::weak_spec(q.km, q.tm),
    ensures
        lines_upto(p, stage, k, used, state) == lines_upto(q, stage, k, used, state),
    decreases k,
{
    if k > 0 {
        lemma_unweighted_lines(p, q, stage, k - 1, used, state);
        let (prev, u, s) = lines_upto(p, stage, k - 1, used, state);
        lemma_unweighted_attempts(p, q, stage, k - 1, u, s, 0);
    }
}

/// Without a weakness, the sections do not depend on the weights.
proof fn lemma_unweighted_sections(p: PlanSpec, q: PlanSpec, st: int, used: Set<Seq<char>>, state: u64)
    requires
        same_but_weights(p, q),
        !crate::adaptive::weak_spec(p.km, p.tm),
        !crate::adaptive::weak_spec(q.km, q.tm),
    ensures
        sections_upto(p, st, used, state) == sections_upto(q, st, used, state),
    decreases st,
{
    if st > 0 {
        lemma_unweighted_sections(p, q, st - 1, used, state);
        let (prev, u, s) = sections_upto(p, st - 1, used, state);
        lemma_unweighted_lines(p, q, st - 1, p.counts[st - 1] as int, u, s);
    }
}

/// Law (weights of 1 are no weakness): a profile whose every key and
/// transition weight over the selection is 1 (or that has none) is treated
/// like no profile at all: the session gets the template the seed selects
/// among the five ordinary ones (`seed % 5`), no line gets weighted walks,
/// and its lines are exactly those of the same request without adaptive
/// practice.
pub proof fn lemma_unit_weights_like_no_profile(
    ps: Seq<Seq<char>>,
    mode: Seq<char>,
    length: Seq<char>,
    data: crate::model::AppData,
    seed: u64,
)
    requires
        forall|c: char| #[trigger]
            crate::adaptive::expected_keys(data, crate::adaptive::allowed_chars(ps)).contains_key(c)
                ==> crate::adaptive::expected_keys(data, crate::adaptive::allowed_chars(ps))[c] == 1,
        forall|t: (char, char)| #[trigger]
            crate::adaptive::expected_transitions(data, crate::adaptive::allowed_chars(ps)).contains_key(t)
                ==> crate::adaptive::expected_transitions(data, crate::adaptive::allowed_chars(ps))[t] == 1,
    ensures
        ({
            let p = crate::generator::plan_for(ps, mode, length, true, data, seed);
            let q = crate::generator::plan_for(ps, mode, length, false, data, seed);
            &&& p.template == q.template
            &&& p.template == crate::template::choose_spec(seed, false)
            &&& p.template != crate::template::Template::WeakFocus
            &&& p.counts == q.counts
            &&& forall|stage: int| #[trigger] crate::lines::adaptive_groups(
                stage,
                crate::adaptive::weak_spec(p.km, p.tm),
                p.template,
            ) == 0
            &&& crate::generator::session_lines(p, seed) == crate::generator::session_lines(q, seed)
        }),
{
    let allowed = crate::adaptive::allowed_chars(ps);
    let km = crate::adaptive::expected_keys(data, allowed);
    let tm = crate::adaptive::expected_transitions(data, allowed);
    assert(!crate::adaptive::weak_spec(km, tm));
    assert(!crate::adaptive::weak_spec(Map::<char, u64>::empty(), Map::<(char, char), u64>::empty()));
    let p = crate::generator::plan_for(ps, mode, length, true, data, seed);
    let q = crate::generator::plan_for(ps, mode, length, false, data, seed);
    assert(same_but_weights(p, q));
    lemma_unweighted_sections(
        p,
        q,
        6,
        Set::empty(),
        schedule_spec(p.pairs, crate::generator::initial_state(seed)).1,
    );
}

/// `group` holds a key of the pair `p`.
pub open spec fn holds_key_of(group: Seq<char>, p: KeyPair) -> bool {
    group.contains(p.0) || group.contains(p.1)
}

/// `group` holds keys of two different selected pairs.
pub open spec fn crosses_pairs(group: Seq<char>, pairs: Seq<KeyPair>) -> bool {
    exists|i: int, j: int|
        0 <= i < pairs.len() && 0 <= j < pairs.len() && i != j && #[trigger] holds_key_of(group, pairs[i])
            && #[trigger] holds_key_of(group, pairs[j])
}

/// The source and target of a cross-pair exercise are two different pairs.
proof fn lemma_cross_ends_differ(n: int, index: int)
    requires
        n >= 2,
        index >= 0,
    ensures
        0 <= crate::patterns::cross_source(n, index) < n,
        0 <= crate::patterns::cross_target(n, index) < n,
        crate::patterns::cross_source(n, index) != crate::patterns::cross_target(n, index),
{
    let s = index % n;
    let d = 1 + (index / n) % (n - 1);
    vstd::arithmetic::div_mod::lemma_mod_bound(index, n);
    vstd::arithmetic::div_mod::lemma_div_pos_is_pos(index, n);
    vstd::arithmetic::div_mod::lemma_mod_bound(index / n, n - 1);
    assert(1 <= d <= n - 1);
    if s + d < n {
        vstd::arithmetic::div_mod::lemma_small_mod((s + d) as nat, n as nat);
    } else {
        vstd::arithmetic::div_mod::lemma_small_mod((s + d - n) as nat, n as nat);
        vstd::arithmetic::div_mod::lemma_mod_sub_multiples_vanish(s + d, n);
    }
}

/// Law (cross-pair exercises cross pairs): over two or more selected pairs,
/// every fixed group of the Short combinations and Difficult combinations
/// sections of a mixed session holds keys of at least two different
/// selected pairs: a key of its source pair and a key of its target pair.
pub proof fn lemma_cross_groups_cross_pairs(pairs: Seq<KeyPair>, index: int, extended: bool)
    requires
        pairs.len() >= 2,
        index >= 0,
    ensures
        crosses_pairs(mixed_group(pairs, 4, index, extended), pairs),
        crosses_pairs(mixed_group(pairs, 2, index, extended), pairs),
{
    let n = pairs.len() as int;
    lemma_cross_ends_differ(n, index);
    let i = crate::patterns::cross_source(n, index);
    let j = crate::patterns::cross_target(n, index);
    let a = pairs[i];
    let b = pairs[j];
    let round = index / n;
    let d = difficult_cross_spec(pairs, index);
    assert(d == mixed_group(pairs, 4, index, extended));
    if round % 4 == 0 {
        assert(d[0] == a.0 && d[1] == b.0);
    } else if round % 4 == 1 {
        assert(d[1] == a.1 && d[0] == b.1);
    } else if round % 4 == 2 {
        assert(d[0] == a.0 && d[1] == b.1);
    } else {
        assert(d[1] == a.1 && d[0] == b.0);
    }
    assert(holds_key_of(d, pairs[i]) && holds_key_of(d, pairs[j]));
    let c = short_cross_spec(pairs, index);
    assert(c == mixed_group(pairs, 2, index, extended));
    if round % 6 == 0 {
        assert(c[0] == a.0 && c[1] == b.0);
    } else if round % 6 == 1 {
        assert(c[0] == a.1 && c[1] == b.1);
    } else if round % 6 == 2 {
        assert(c[0] == a.0 && c[1] == b.1);
    } else if round % 6 == 3 {
        assert(c[1] == a.1 && c[0] == b.1);
    } else if round % 6 == 4 {
        assert(c[0] == a.0 && c[2] == b.0);
    } else {
        assert(c[2] == a.1 && c[0] == b.1);
    }
    assert(holds_key_of(c, pairs[i]) && holds_key_of(c, pairs[j]));
}

/// Law (a weakness brings weighted practice): when some key or transition
/// of the selection weighs 2 or more, the session may take the WeakFocus
/// template (the seed selects among all six templates, `seed % 6`), and every
/// line of the Difficult combinations and Longer sequences sections ends in
/// at least one weighted walk.
pub proof fn lemma_weakness_brings_weighted_walks(
    ps: Seq<Seq<char>>,
    mode: Seq<char>,
    length: Seq<char>,
    data: crate::model::AppData,
    seed: u64,
)
    requires
        (exists|c: char| #[trigger]
            crate::adaptive::expected_keys(data, crate::adaptive::allowed_chars(ps)).contains_key(c)
                && crate::adaptive::expected_keys(data, crate::adaptive::allowed_chars(ps))[c] >= 2)
            || (exists|t: (char, char)| #[trigger]
            crate::adaptive::expected_transitions(data, crate::adaptive::allowed_chars(ps)).contains_key(t)
                && crate::adaptive::expected_transitions(data, crate::adaptive::allowed_chars(ps))[t] >= 2),
    ensures
        ({
            let p = crate::generator::plan_for(ps, mode, length, true, data, seed);
            &&& p.template == crate::template::choose_spec(seed, true)
            &&& forall|stage: int|
                4 <= stage < 6 ==> #[trigger] crate::lines::adaptive_groups(
                    stage,
                    crate::adaptive::weak_spec(p.km, p.tm),
                    p.template,
                ) >= 1
        }),
{
}

} // verus!
