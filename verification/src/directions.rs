use vstd::prelude::*;
use crate::coverage::{
    blocks_upto, coverage_group, coverage_groups, coverage_layout, coverage_line_spec, index_range, is_edge_group,
    lemma_coverage_line_groups, on_some_line,
    offset_block, pairs_behind, schedule_of, schedule_spec, side_key, side_of,
};
use crate::lines::{adaptive_groups, mixed_group, mixed_spec, walks_spec};
use crate::patterns::{
    alternation_table, flat_keys, pair_alternation_spec, rendered, repeated_key_spec,
    short_cross_spec,
};
use crate::plan::{attempts_from, candidate_spec, lines_upto, sections_upto, PlanSpec};
use crate::text::join_spaced;
use crate::rng::{lemma_shuffle_is_permutation, shuffle_spec, xorshift};
use crate::generator::{is_known_pair, key_pairs_spec, known_pairs};
use crate::patterns::KeyPair;

verus! {

/// The place of a key in the layout's table of pairs: `2 * t + side` for the
/// key on side `side` of pair `t`, and -1 for any other character.
pub open spec fn key_slot(c: char) -> int {
    if c == 'f' { 0 } else if c == 'j' { 1 }
    else if c == 'd' { 2 } else if c == 'k' { 3 }
    else if c == 's' { 4 } else if c == 'l' { 5 }
    else if c == 'a' { 6 } else if c == ';' { 7 }
    else if c == 'g' { 8 } else if c == 'h' { 9 }
    else if c == 'r' { 10 } else if c == 'u' { 11 }
    else if c == 'e' { 12 } else if c == 'i' { 13 }
    else if c == 'w' { 14 } else if c == 'o' { 15 }
    else if c == 'q' { 16 } else if c == 'y' { 17 }
    else if c == 't' { 18 } else if c == 'p' { 19 }
    else if c == 'v' { 20 } else if c == 'm' { 21 }
    else if c == 'c' { 22 } else if c == ',' { 23 }
    else if c == 'x' { 24 } else if c == '.' { 25 }
    else if c == 'z' { 26 } else if c == '/' { 27 }
    else if c == 'b' { 28 } else if c == 'n' { 29 }
    else { -1 }
}

/// Every key of the layout sits at its own place.
pub proof fn lemma_key_slots(t: int, a: int)
    requires
        0 <= t < 15,
        0 <= a < 2,
    ensures
        key_slot(side_key(known_pairs()[t], a)) == 2 * t + a,
{
    let k = known_pairs();
    if t == 0 { assert(k[0] == ('f', 'j')); }
    else if t == 1 { assert(k[1] == ('d', 'k')); }
    else if t == 2 { assert(k[2] == ('s', 'l')); }
    else if t == 3 { assert(k[3] == ('a', ';')); }
    else if t == 4 { assert(k[4] == ('g', 'h')); }
    else if t == 5 { assert(k[5] == ('r', 'u')); }
    else if t == 6 { assert(k[6] == ('e', 'i')); }
    else if t == 7 { assert(k[7] == ('w', 'o')); }
    else if t == 8 { assert(k[8] == ('q', 'y')); }
    else if t == 9 { assert(k[9] == ('t', 'p')); }
    else if t == 10 { assert(k[10] == ('v', 'm')); }
    else if t == 11 { assert(k[11] == ('c', ',')); }
    else if t == 12 { assert(k[12] == ('x', '.')); }
    else if t == 13 { assert(k[13] == ('z', '/')); }
    else { assert(k[14] == ('b', 'n')); }
}

/// No key is shared by two places of a selection.
pub open spec fn keys_distinct(pairs: Seq<KeyPair>) -> bool {
    forall|i: int, j: int, a: int, b: int|
        0 <= i < pairs.len() && 0 <= j < pairs.len() && 0 <= a < 2 && 0 <= b < 2 && #[trigger] side_key(
            pairs[i],
            a,
        ) == #[trigger] side_key(pairs[j], b) ==> i == j && a == b
}

/// No key of a selection is a space.
pub open spec fn keys_not_space(pairs: Seq<KeyPair>) -> bool {
    forall|i: int, a: int| 0 <= i < pairs.len() && 0 <= a < 2 ==> #[trigger] side_key(pairs[i], a) != ' '
}

/// A selection of distinct known pairs has distinct keys, none of them a space.
pub proof fn lemma_selection_keys_distinct(ps: Seq<Seq<char>>)
    requires
        ps.no_duplicates(),
        forall|i: int| 0 <= i < ps.len() ==> is_known_pair(#[trigger] ps[i]),
    ensures
        keys_distinct(key_pairs_spec(ps)),
        keys_not_space(key_pairs_spec(ps)),
{
    let pairs = key_pairs_spec(ps);
    assert forall|i: int, a: int| 0 <= i < pairs.len() && 0 <= a < 2 implies key_slot(
        #[trigger] side_key(pairs[i], a),
    ) == 2 * place_of(ps[i]) + a && 0 <= place_of(ps[i]) < 15 by {
        lemma_place_of(ps[i]);
        lemma_key_slots(place_of(ps[i]), a);
    }
    assert forall|i: int, j: int, a: int, b: int|
        0 <= i < pairs.len() && 0 <= j < pairs.len() && 0 <= a < 2 && 0 <= b < 2 && #[trigger] side_key(
            pairs[i],
            a,
        ) == #[trigger] side_key(pairs[j], b) implies i == j && a == b by {
        let ti = place_of(ps[i]);
        let tj = place_of(ps[j]);
        assert(key_slot(side_key(pairs[i], a)) == 2 * ti + a);
        assert(key_slot(side_key(pairs[j], b)) == 2 * tj + b);
        assert(ti == tj && a == b);
        lemma_place_of(ps[i]);
        lemma_place_of(ps[j]);
        assert(ps[i] =~= ps[j]);
        assert(ps.no_duplicates());
    }
    assert forall|i: int, a: int| 0 <= i < pairs.len() && 0 <= a < 2 implies #[trigger] side_key(
        pairs[i],
        a,
    ) != ' ' by {
        assert(key_slot(side_key(pairs[i], a)) >= 0);
    }
}

/// The place of a known pair in the layout's table.
pub open spec fn place_of(s: Seq<char>) -> int {
    choose|t: int| 0 <= t < 15 && known_pairs()[t] == (s[0], s[1])
}

proof fn lemma_place_of(s: Seq<char>)
    requires
        is_known_pair(s),
    ensures
        0 <= place_of(s) < 15,
        known_pairs()[place_of(s)] == (s[0], s[1]),
        s == seq![known_pairs()[place_of(s)].0, known_pairs()[place_of(s)].1],
{
    let t = choose|t: int| 0 <= t < known_pairs().len() && known_pairs()[t] == (s[0], s[1]);
    assert(0 <= t < 15 && known_pairs()[t] == (s[0], s[1]));
    assert(s =~= seq![s[0], s[1]]);
}


/// `e` goes from a key of one pair of the selection to a key of another.
pub open spec fn cross_edge(pairs: Seq<KeyPair>, e: KeyPair) -> bool {
    exists|i: int, j: int, a: int, b: int|
        0 <= i < pairs.len() && 0 <= j < pairs.len() && i != j && 0 <= a < 2 && 0 <= b < 2 && e == (
            #[trigger] side_key(pairs[i], a),
            #[trigger] side_key(pairs[j], b),
        )
}

/// The side order drawn for the block of offset `b`.
pub open spec fn flip_at(pairs: Seq<KeyPair>, order: Seq<usize>, state: u64, b: int) -> bool {
    xorshift(blocks_upto(pairs, order, state, b).1) & 1 != 0
}

/// Position `p` of the blocks up to offset `o` lies in the block of offset
/// `p / (4n) + 1`, at place `p % (4n)` of it.
proof fn lemma_block_index(pairs: Seq<KeyPair>, order: Seq<usize>, state: u64, o: int, p: int)
    requires
        pairs.len() >= 1,
        o >= 1,
        0 <= p < 4 * pairs.len() * (o - 1),
    ensures
        ({
            let w: int = 4 * pairs.len() as int;
            let b = p / w + 1;
            &&& 1 <= b < o
            &&& blocks_upto(pairs, order, state, o).0[p] == offset_block(
                pairs,
                order,
                b,
                flip_at(pairs, order, state, b),
            )[p % w]
        }),
    decreases o,
{
    let w: int = 4 * pairs.len() as int;
    let prev = blocks_upto(pairs, order, state, o - 1).0;
    crate::coverage::lemma_blocks_len(pairs, order, state, o - 1);
    assert(blocks_upto(pairs, order, state, o).0 == prev + offset_block(
        pairs,
        order,
        o - 1,
        flip_at(pairs, order, state, o - 1),
    ));
    assert(w * (o - 1) == w * (o - 2) + w) by (nonlinear_arith);
    assert(4 * pairs.len() * (o - 1) == w * (o - 1)) by (nonlinear_arith)
        requires
            w == 4 * pairs.len(),
    ;
    assert(4 * pairs.len() * (o - 2) == w * (o - 2)) by (nonlinear_arith)
        requires
            w == 4 * pairs.len(),
    ;
    if p < w * (o - 2) {
        lemma_block_index(pairs, order, state, o - 1, p);
    } else {
        vstd::arithmetic::div_mod::lemma_fundamental_div_mod(p, w);
        vstd::arithmetic::div_mod::lemma_mod_bound(p, w);
        let q = p / w;
        assert(q == o - 2) by (nonlinear_arith)
            requires
                p == w * q + p % w,
                0 <= p % w < w,
                w * (o - 2) <= p < w * (o - 2) + w,
                w > 0,
        ;
        assert(prev.len() == w * (o - 2));
        assert(p % w == p - prev.len());
    }
}

/// The shuffled order of a selection lists each of its positions once.
pub(crate) proof fn lemma_order_permutes(n: int, state: u64)
    requires
        1 <= n <= usize::MAX,
    ensures
        shuffle_spec(index_range(n), state).0.len() == n,
        shuffle_spec(index_range(n), state).0.no_duplicates(),
        forall|s: int| 0 <= s < n ==> #[trigger] shuffle_spec(index_range(n), state).0[s] < n,
{
    broadcast use vstd::seq_lib::group_to_multiset_ensures;

    let range = index_range(n);
    let order = shuffle_spec(range, state).0;
    lemma_shuffle_is_permutation(range, state, n - 1);
    assert(range.no_duplicates());
    range.lemma_multiset_has_no_duplicates();
    order.lemma_multiset_has_no_duplicates_conv();
    assert forall|s: int| 0 <= s < n implies #[trigger] order[s] < n by {
        assert(order.contains(order[s]));
        assert(order.to_multiset().count(order[s]) > 0);
        assert(range.contains(order[s]));
    }
}

/// The schedule of a selection with distinct keys holds no edge twice, and
/// each of its edges goes from a key of one pair to a key of another.
pub proof fn lemma_schedule_distinct(pairs: Seq<KeyPair>, state: u64)
    requires
        2 <= pairs.len() <= usize::MAX,
        keys_distinct(pairs),
    ensures
        schedule_spec(pairs, state).0.no_duplicates(),
        forall|p: int|
            0 <= p < schedule_spec(pairs, state).0.len() ==> cross_edge(
                pairs,
                #[trigger] schedule_spec(pairs, state).0[p],
            ),
{
    let n = pairs.len() as int;
    let w = 4 * n;
    let (order, s1) = shuffle_spec(index_range(n), state);
    lemma_order_permutes(n, state);
    let edges = schedule_spec(pairs, state).0;
    crate::coverage::lemma_schedule_len(pairs, state);
    assert(edges.len() == 4 * n * (n - 1));
    assert forall|p: int| 0 <= p < edges.len() implies cross_edge(pairs, #[trigger] edges[p]) by {
        lemma_edge_parts(pairs, order, s1, p);
        let (i, j, a, b) = edge_parts(pairs, order, s1, p);
        assert(edges[p] == (side_key(pairs[i], a), side_key(pairs[j], b)));
    }
    assert forall|p1: int, p2: int|
        0 <= p1 < edges.len() && 0 <= p2 < edges.len() && p1 != p2 implies edges[p1]
        != edges[p2] by {
        lemma_edge_parts(pairs, order, s1, p1);
        lemma_edge_parts(pairs, order, s1, p2);
        let (i1, j1, a1, b1) = edge_parts(pairs, order, s1, p1);
        let (i2, j2, a2, b2) = edge_parts(pairs, order, s1, p2);
        if edges[p1] == edges[p2] {
            assert(side_key(pairs[i1], a1) == side_key(pairs[i2], a2));
            assert(side_key(pairs[j1], b1) == side_key(pairs[j2], b2));
            assert(i1 == i2 && a1 == a2);
            assert(j1 == j2 && b1 == b2);
            lemma_edge_parts_inj(pairs, order, s1, p1, p2);
        }
    }
}

/// The pair and side positions of the edge at `p`: source pair, target pair,
/// source side, target side.
spec fn edge_parts(pairs: Seq<KeyPair>, order: Seq<usize>, state: u64, p: int) -> (int, int, int, int) {
    let n = pairs.len() as int;
    let w = 4 * n;
    let bl = p / w + 1;
    let e = p % w;
    let s = e / 4;
    let k = e % 4;
    let f = flip_at(pairs, order, state, bl);
    (order[s] as int, order[(s + bl) % n] as int, side_of(f, k / 2), side_of(f, k % 2))
}

proof fn lemma_edge_parts(pairs: Seq<KeyPair>, order: Seq<usize>, state: u64, p: int)
    requires
        2 <= pairs.len(),
        order.len() == pairs.len(),
        order.no_duplicates(),
        forall|s: int| 0 <= s < pairs.len() ==> #[trigger] order[s] < pairs.len(),
        0 <= p < 4 * pairs.len() * (pairs.len() - 1),
    ensures
        ({
            let (i, j, a, b) = edge_parts(pairs, order, state, p);
            &&& 0 <= i < pairs.len() && 0 <= j < pairs.len() && i != j
            &&& 0 <= a < 2 && 0 <= b < 2
            &&& blocks_upto(pairs, order, state, pairs.len() as int).0[p] == (
                side_key(pairs[i], a),
                side_key(pairs[j], b),
            )
        }),
{
    let n = pairs.len() as int;
    let w = 4 * n;
    lemma_block_index(pairs, order, state, n, p);
    let bl = p / w + 1;
    let e = p % w;
    vstd::arithmetic::div_mod::lemma_mod_bound(p, w);
    let s = e / 4;
    let k = e % 4;
    assert(0 <= s < n) by (nonlinear_arith)
        requires
            0 <= e < w,
            w == 4 * n,
            s == e / 4,
    ;
    assert(1 <= bl < n);
    let t = (s + bl) % n;
    assert(0 <= t < n);
    assert(t != s) by {
        if s + bl < n {
            vstd::arithmetic::div_mod::lemma_small_mod((s + bl) as nat, n as nat);
        } else {
            vstd::arithmetic::div_mod::lemma_small_mod((s + bl - n) as nat, n as nat);
            vstd::arithmetic::div_mod::lemma_mod_sub_multiples_vanish(s + bl, n);
        }
    }
    assert(order[s] != order[t]);
}

proof fn lemma_edge_parts_inj(pairs: Seq<KeyPair>, order: Seq<usize>, state: u64, p1: int, p2: int)
    requires
        2 <= pairs.len(),
        keys_distinct(pairs),
        order.len() == pairs.len(),
        order.no_duplicates(),
        forall|s: int| 0 <= s < pairs.len() ==> #[trigger] order[s] < pairs.len(),
        0 <= p1 < 4 * pairs.len() * (pairs.len() - 1),
        0 <= p2 < 4 * pairs.len() * (pairs.len() - 1),
        edge_parts(pairs, order, state, p1) == edge_parts(pairs, order, state, p2),
    ensures
        p1 == p2,
{
    let n = pairs.len() as int;
    let w = 4 * n;
    let b1 = p1 / w + 1;
    let b2 = p2 / w + 1;
    let e1 = p1 % w;
    let e2 = p2 % w;
    lemma_block_index(pairs, order, state, n, p1);
    lemma_block_index(pairs, order, state, n, p2);
    vstd::arithmetic::div_mod::lemma_fundamental_div_mod(p1, w);
    vstd::arithmetic::div_mod::lemma_fundamental_div_mod(p2, w);
    vstd::arithmetic::div_mod::lemma_mod_bound(p1, w);
    vstd::arithmetic::div_mod::lemma_mod_bound(p2, w);
    vstd::arithmetic::div_mod::lemma_fundamental_div_mod(e1, 4);
    vstd::arithmetic::div_mod::lemma_fundamental_div_mod(e2, 4);
    let s1 = e1 / 4;
    let s2 = e2 / 4;
    let k1 = e1 % 4;
    let k2 = e2 % 4;
    assert(0 <= s1 < n && 0 <= s2 < n) by (nonlinear_arith)
        requires
            0 <= e1 < w,
            0 <= e2 < w,
            w == 4 * n,
            s1 == e1 / 4,
            s2 == e2 / 4,
    ;
    assert(order[s1] == order[s2]);
    assert(s1 == s2);
    let t1 = (s1 + b1) % n;
    let t2 = (s2 + b2) % n;
    assert(order[t1] == order[t2]);
    assert(0 <= t1 < n && 0 <= t2 < n);
    assert(t1 == t2);
    assert(b1 == b2) by {
        if s1 + b1 < n {
            vstd::arithmetic::div_mod::lemma_small_mod((s1 + b1) as nat, n as nat);
        } else {
            vstd::arithmetic::div_mod::lemma_small_mod((s1 + b1 - n) as nat, n as nat);
            vstd::arithmetic::div_mod::lemma_mod_sub_multiples_vanish(s1 + b1, n);
        }
        if s2 + b2 < n {
            vstd::arithmetic::div_mod::lemma_small_mod((s2 + b2) as nat, n as nat);
        } else {
            vstd::arithmetic::div_mod::lemma_small_mod((s2 + b2 - n) as nat, n as nat);
            vstd::arithmetic::div_mod::lemma_mod_sub_multiples_vanish(s2 + b2, n);
        }
    }
    let f = flip_at(pairs, order, state, b1);
    assert(side_of(f, k1 / 2) == side_of(f, k2 / 2));
    assert(side_of(f, k1 % 2) == side_of(f, k2 % 2));
    assert(k1 == k2) by {
        vstd::arithmetic::div_mod::lemma_fundamental_div_mod(k1, 2);
        vstd::arithmetic::div_mod::lemma_fundamental_div_mod(k2, 2);
    }
    assert(e1 == e2);
    assert(p1 / w == p2 / w);
    assert(p1 == w * (p1 / w) + e1);
    assert(p2 == w * (p2 / w) + e2);
}


/// A line that opens like a line of the transition section: a group of two
/// keys from different pairs, then a space.
pub open spec fn cross_start(pairs: Seq<KeyPair>, l: Seq<char>) -> bool {
    l.len() >= 3 && l[2] == ' ' && cross_edge(pairs, (l[0], l[1]))
}

/// A line of groups begins with its first group, followed by a space when
/// there is a second group.
pub proof fn lemma_join_head(gs: Seq<Seq<char>>)
    requires
        gs.len() >= 1,
    ensures
        join_spaced(gs).len() >= gs[0].len(),
        forall|x: int| 0 <= x < gs[0].len() ==> #[trigger] join_spaced(gs)[x] == gs[0][x],
        gs.len() >= 2 ==> join_spaced(gs).len() > gs[0].len() && join_spaced(gs)[gs[0].len() as int]
            == ' ',
    decreases gs.len(),
{
    if gs.len() >= 2 {
        let d = gs.drop_last();
        lemma_join_head(d);
        assert(d[0] == gs[0]);
        let j = join_spaced(d);
        assert(join_spaced(gs) == j + seq![' '] + gs.last());
        if d.len() == 1 {
            assert(j == gs[0]);
        }
    }
}

/// Mixed lines of the first three sections never open like a transition line.
pub proof fn lemma_early_lines_plain(
    pairs: Seq<KeyPair>,
    stage: int,
    line_index: int,
    template: crate::template::Template,
    extended: bool,
    km: Map<char, u64>,
    tm: Map<(char, char), u64>,
    state: u64,
)
    requires
        2 <= pairs.len(),
        keys_distinct(pairs),
        keys_not_space(pairs),
        0 <= stage < 3,
    ensures
        !cross_start(pairs, mixed_spec(pairs, stage, line_index, template, extended, km, tm, state).0),
{
    let n = pairs.len() as int;
    let gc = crate::lines::group_count(stage);
    let start = Seq::new(gc as nat, |g: int| (line_index * gc + g) as usize);
    let (indices, s1) = crate::rng::shuffle_spec(start, state);
    assert(adaptive_groups(stage, crate::adaptive::weak_spec(km, tm), template) == 0);
    let fixed = Seq::new(gc as nat, |g: int| mixed_group(pairs, stage, indices[g] as int, extended));
    let (walks, s2) = walks_spec(flat_keys(pairs), km, tm, if extended {
        7 + stage
    } else {
        2 * stage
    }, s1, 0);
    assert(walks.len() == 0);
    assert(fixed + walks =~= fixed);
    let line = join_spaced(fixed);
    assert(mixed_spec(pairs, stage, line_index, template, extended, km, tm, state).0 == line);
    lemma_join_head(fixed);
    let x = indices[0] as int;
    let g0 = fixed[0];
    assert(g0 == mixed_group(pairs, stage, x, extended));
    if cross_start(pairs, line) {
        let (i, j, a, b) = choose|i: int, j: int, a: int, b: int|
            0 <= i < pairs.len() && 0 <= j < pairs.len() && i != j && 0 <= a < 2 && 0 <= b < 2 && (
            line[0],
            line[1],
        ) == (#[trigger] side_key(pairs[i], a), #[trigger] side_key(pairs[j], b));
        if stage == 0 {
            let keys = flat_keys(pairs);
            assert(g0 == repeated_key_spec(keys, x));
            assert(g0.len() >= 2);
            assert(line[0] == g0[0] && line[1] == g0[1]);
            assert(g0[0] == g0[1]);
            assert(side_key(pairs[i], a) == side_key(pairs[j], b));
        } else if stage == 1 {
            let q = x % n;
            let pat = alternation_table()[(x / n) % 6];
            assert(g0 == rendered(pat, pairs[q]));
            assert(pat.len() >= 2);
            assert(line[0] == g0[0] && line[1] == g0[1]);
            let d0: int = if pat[0] == 0 { 0 } else { 1 };
            let d1: int = if pat[1] == 0 { 0 } else { 1 };
            assert(g0[0] == side_key(pairs[q], d0));
            assert(g0[1] == side_key(pairs[q], d1));
            assert(side_key(pairs[i], a) == side_key(pairs[q], d0));
            assert(side_key(pairs[j], b) == side_key(pairs[q], d1));
        } else {
            let src = crate::patterns::cross_source(n, x);
            let tgt = crate::patterns::cross_target(n, x);
            assert(0 <= src < n && 0 <= tgt < n);
            assert(g0 == short_cross_spec(pairs, x));
            assert(g0.len() >= 3);
            assert(line[2] == g0[2]);
            let pa = pairs[src];
            let pb = pairs[tgt];
            assert(side_key(pa, 0) != ' ' && side_key(pa, 1) != ' ');
            assert(side_key(pb, 0) != ' ' && side_key(pb, 1) != ' ');
            assert(g0[2] != ' ');
        }
    }
}

/// The layout of the transition section when the schedule fits in it.
pub proof fn lemma_fitting_layout(len: int, n: int, lc: int, k: int)
    requires
        schedule_of(len, n),
        lc >= 1,
        len <= 12 * lc,
        k >= 0,
    ensures
        ({
            let (covered, line_len, start) = coverage_layout(len, n, lc, k, 0);
            &&& covered == len
            &&& line_len >= 6
            &&& start >= 0
        }),
{
    let block = n * 4;
    let wanted = if len >= lc * 6 {
        len
    } else {
        lc * 6
    };
    let target = (wanted + block - 1) / block * block;
    vstd::arithmetic::div_mod::lemma_fundamental_div_mod(wanted + block - 1, block);
    vstd::arithmetic::div_mod::lemma_mod_bound(wanted + block - 1, block);
    assert(target >= wanted) by (nonlinear_arith)
        requires
            target == (wanted + block - 1) / block * block,
            wanted + block - 1 == block * ((wanted + block - 1) / block) + (wanted + block - 1)
                % block,
            (wanted + block - 1) % block < block,
    ;
    let base = target / lc;
    let extra = target % lc;
    vstd::arithmetic::div_mod::lemma_fundamental_div_mod(target, lc);
    vstd::arithmetic::div_mod::lemma_mod_bound(target, lc);
    assert(base >= 6) by (nonlinear_arith)
        requires
            target >= lc * 6,
            target == lc * base + extra,
            0 <= extra < lc,
    ;
    assert(k * base >= 0) by (nonlinear_arith)
        requires
            k >= 0,
            base >= 0,
    ;
}

/// Later lines of the transition section start further on.
pub proof fn lemma_starts_increase(len: int, n: int, lc: int, k1: int, k2: int)
    requires
        schedule_of(len, n),
        lc >= 1,
        len <= 12 * lc,
        0 <= k1 < k2,
    ensures
        coverage_layout(len, n, lc, k1, 0).2 < coverage_layout(len, n, lc, k2, 0).2,
{
    lemma_fitting_layout(len, n, lc, k1);
    let l1 = coverage_layout(len, n, lc, k1, 0).1;
    let s1 = coverage_layout(len, n, lc, k1, 0).2;
    let s2 = coverage_layout(len, n, lc, k2, 0).2;
    let block = n * 4;
    let wanted = if len >= lc * 6 {
        len
    } else {
        lc * 6
    };
    let target = (wanted + block - 1) / block * block;
    let base = target / lc;
    let extra = target % lc;
    assert(base >= 1);
    assert(k1 * base + base <= k2 * base) by (nonlinear_arith)
        requires
            k1 < k2,
            base >= 1,
    ;
}

/// A transition line of a fitting section opens with the edge at its start,
/// followed by a space, so it opens like a transition line.
pub proof fn lemma_transition_line_head(edges: Seq<KeyPair>, pairs: Seq<KeyPair>, lc: int, k: int)
    requires
        schedule_of(edges.len() as int, pairs.len() as int),
        pairs_behind(edges.len() as int) == pairs.len(),
        lc >= 1,
        edges.len() <= 12 * lc,
        k >= 0,
        forall|p: int| 0 <= p < edges.len() ==> cross_edge(pairs, #[trigger] edges[p]),
    ensures
        ({
            let start = coverage_layout(edges.len() as int, pairs.len() as int, lc, k, 0).2;
            let l = coverage_line_spec(edges, lc, k, 0);
            &&& cross_start(pairs, l)
            &&& start < edges.len() ==> l[0] == edges[start].0 && l[1] == edges[start].1
        }),
{
    let len = edges.len() as int;
    let n = pairs.len() as int;
    lemma_fitting_layout(len, n, lc, k);
    let (covered, line_len, start) = coverage_layout(len, n, lc, k, 0);
    let gs = coverage_groups(edges, lc, k, 0);
    assert(gs.len() == line_len);
    lemma_join_head(gs);
    assert(len >= 8) by (nonlinear_arith)
        requires
            n >= 2,
            len == 4 * n * (n - 1),
    ;
    let q = start % covered;
    vstd::arithmetic::div_mod::lemma_mod_bound(start, covered);
    assert(gs[0] == coverage_group(edges, start, covered, 0));
    assert(gs[0] == seq![edges[q].0, edges[q].1]);
    let l = coverage_line_spec(edges, lc, k, 0);
    assert(l[0] == edges[q].0 && l[1] == edges[q].1 && l[2] == ' ');
    assert((l[0], l[1]) == edges[q]);
    assert(cross_edge(pairs, edges[q]));
    if start < len {
        vstd::arithmetic::div_mod::lemma_small_mod(start as nat, covered as nat);
    }
}


/// Attempts record at most the line they return, and return one of the
/// candidates they tried.
proof fn lemma_attempts_result(
    p: PlanSpec,
    stage: int,
    li: int,
    used: Set<Seq<char>>,
    state: u64,
    attempt: int,
)
    requires
        0 <= attempt < 12,
    ensures
        ({
            let r = attempts_from(p, stage, li, used, state, attempt);
            &&& forall|x: Seq<char>| #[trigger] r.1.contains(x) ==> used.contains(x) || x == r.0
            &&& exists|a: int, s: u64|
                attempt <= a < 12 && r.0 == (#[trigger] candidate_spec(p, stage, li, a, s)).0
        }),
    decreases 12 - attempt,
{
    let (line, next) = candidate_spec(p, stage, li, attempt, state);
    if !used.contains(line) {
    } else if attempt + 1 >= 12 {
    } else {
        lemma_attempts_result(p, stage, li, used, next, attempt + 1);
    }
}

/// The plan of a mixed session over distinct keys.
pub open spec fn mixed_plan(p: PlanSpec) -> bool {
    &&& !p.standalone
    &&& 2 <= p.pairs.len()
    &&& keys_distinct(p.pairs)
    &&& keys_not_space(p.pairs)
}

/// The lines recorded in the first three sections never open like a transition line.
proof fn lemma_lines_plain(p: PlanSpec, stage: int, k: int, used: Set<Seq<char>>, state: u64)
    requires
        mixed_plan(p),
        0 <= stage < 3,
        forall|x: Seq<char>| #[trigger] used.contains(x) ==> !cross_start(p.pairs, x),
    ensures
        forall|x: Seq<char>| #[trigger] lines_upto(p, stage, k, used, state).1.contains(x) ==> !cross_start(
            p.pairs,
            x,
        ),
    decreases k,
{
    if k > 0 {
        lemma_lines_plain(p, stage, k - 1, used, state);
        let (prev, u, s) = lines_upto(p, stage, k - 1, used, state);
        lemma_attempts_result(p, stage, k - 1, u, s, 0);
        let r = attempts_from(p, stage, k - 1, u, s, 0);
        let (a, s2) = choose|a: int, s2: u64|
            0 <= a < 12 && r.0 == (#[trigger] candidate_spec(p, stage, k - 1, a, s2)).0;
        lemma_early_lines_plain(p.pairs, stage, k - 1 + a, p.template, p.extended, p.km, p.tm, s2);
    }
}

proof fn lemma_sections_plain(p: PlanSpec, st: int, used: Set<Seq<char>>, state: u64)
    requires
        mixed_plan(p),
        0 <= st <= 3,
        forall|x: Seq<char>| #[trigger] used.contains(x) ==> !cross_start(p.pairs, x),
    ensures
        forall|x: Seq<char>| #[trigger] sections_upto(p, st, used, state).1.contains(x) ==> !cross_start(
            p.pairs,
            x,
        ),
    decreases st,
{
    if st > 0 {
        lemma_sections_plain(p, st - 1, used, state);
        let (prev, u, s) = sections_upto(p, st - 1, used, state);
        lemma_lines_plain(p, st - 1, p.counts[st - 1] as int, u, s);
    }
}

/// What the transition section of a mixed plan needs to cover every direction.
pub open spec fn covering_plan(p: PlanSpec) -> bool {
    let len = p.coverage.len() as int;
    &&& mixed_plan(p)
    &&& p.pairs.len() <= usize::MAX
    &&& schedule_of(len, p.pairs.len() as int)
    &&& pairs_behind(len) == p.pairs.len()
    &&& p.coverage.no_duplicates()
    &&& forall|q: int| 0 <= q < len ==> cross_edge(p.pairs, #[trigger] p.coverage[q])
    &&& p.counts.len() == 6
    &&& 1 <= p.counts[3]
    &&& len <= 12 * p.counts[3]
}

/// Line `k` of the transition section starts inside the schedule.
pub open spec fn starts_inside(p: PlanSpec, k: int) -> bool {
    coverage_layout(p.coverage.len() as int, p.pairs.len() as int, p.counts[3] as int, k, 0).2
        < p.coverage.len()
}

/// Each line of the transition section that starts inside the schedule is
/// its designed line: nothing recorded before it can equal it.
proof fn lemma_transition_lines(p: PlanSpec, k: int, u3: Set<Seq<char>>, s3: u64)
    requires
        covering_plan(p),
        k >= 0,
        forall|x: Seq<char>| #[trigger] u3.contains(x) ==> !cross_start(p.pairs, x),
    ensures
        ({
            let (ls, u, s) = lines_upto(p, 3, k, u3, s3);
            &&& ls.len() == k
            &&& forall|x: Seq<char>| #[trigger]
                u.contains(x) ==> u3.contains(x) || exists|k2: int| 0 <= k2 < k && ls[k2] == x
            &&& forall|k2: int|
                0 <= k2 < k && starts_inside(p, k2) ==> #[trigger] ls[k2] == coverage_line_spec(
                    p.coverage,
                    p.counts[3] as int,
                    k2,
                    0,
                )
        }),
    decreases k,
{
    if k > 0 {
        lemma_transition_lines(p, k - 1, u3, s3);
        let lc = p.counts[3] as int;
        let edges = p.coverage;
        let len = edges.len() as int;
        let n = p.pairs.len() as int;
        let (prev, u, s) = lines_upto(p, 3, k - 1, u3, s3);
        let cov = coverage_line_spec(edges, lc, k - 1, 0);
        assert(candidate_spec(p, 3, k - 1, 0, s) == (cov, s));
        lemma_attempts_result(p, 3, k - 1, u, s, 0);
        let r = attempts_from(p, 3, k - 1, u, s, 0);
        let (ls, u2, s2) = lines_upto(p, 3, k, u3, s3);
        assert(ls == prev.push(r.0));
        assert(u2 == r.1);
        if starts_inside(p, k - 1) {
            let st = coverage_layout(len, n, lc, k - 1, 0).2;
            lemma_transition_line_head(edges, p.pairs, lc, k - 1);
            if u.contains(cov) {
                if u3.contains(cov) {
                    assert(!cross_start(p.pairs, cov));
                } else {
                    let k2 = choose|k2: int| 0 <= k2 < k - 1 && prev[k2] == cov;
                    lemma_starts_increase(len, n, lc, k2, k - 1);
                    let st2 = coverage_layout(len, n, lc, k2, 0).2;
                    lemma_fitting_layout(len, n, lc, k2);
                    assert(starts_inside(p, k2));
                    let cov2 = coverage_line_spec(edges, lc, k2, 0);
                    assert(prev[k2] == cov2);
                    lemma_transition_line_head(edges, p.pairs, lc, k2);
                    assert(edges[st2] == (cov2[0], cov2[1]));
                    assert(edges[st] == (cov[0], cov[1]));
                    assert(edges[st2] == edges[st]);
                    assert(edges.no_duplicates());
                }
            }
            assert(r.0 == cov);
        }
        assert forall|x: Seq<char>| #[trigger] u2.contains(x) implies u3.contains(x) || exists|k2: int|
            0 <= k2 < k && ls[k2] == x by {
            if u.contains(x) {
                if !u3.contains(x) {
                    let k2 = choose|k2: int| 0 <= k2 < k - 1 && prev[k2] == x;
                    assert(ls[k2] == x);
                }
            } else {
                assert(x == r.0);
                assert(ls[k - 1] == x);
            }
        }
        assert forall|k2: int| 0 <= k2 < k && starts_inside(p, k2) implies #[trigger] ls[k2]
            == coverage_line_spec(p.coverage, p.counts[3] as int, k2, 0) by {
            if k2 < k - 1 {
                assert(ls[k2] == prev[k2]);
            }
        }
    }
}

/// Law (directed coverage): in a mixed session over two or more distinct
/// pairs whose transition schedule fits in the transition section (at most
/// twelve edges per line), every ordered pair of keys taken from two
/// different selected pairs is a group of a line of that section, and that
/// line is the section's designed line (no line before it displaced it).
pub proof fn lemma_session_covers_directions(
    ps: Seq<Seq<char>>,
    length: Seq<char>,
    adaptive: bool,
    data: crate::model::AppData,
    seed: u64,
    i: int,
    j: int,
    l: int,
    r: int,
)
    requires
        ps.no_duplicates(),
        forall|x: int| 0 <= x < ps.len() ==> is_known_pair(#[trigger] ps[x]),
        2 <= ps.len(),
        crate::generator::session_total(length) > 0,
        4 * ps.len() * (ps.len() - 1) <= 12 * crate::generator::plan_for(
            ps,
            "mixed"@,
            length,
            adaptive,
            data,
            seed,
        ).counts[3],
        0 <= i < ps.len(),
        0 <= j < ps.len(),
        i != j,
        0 <= l < 2,
        0 <= r < 2,
    ensures
        ({
            let p = crate::generator::plan_for(ps, "mixed"@, length, adaptive, data, seed);
            let lc = p.counts[3] as int;
            exists|k: int, g: int|
                0 <= k < lc && crate::generator::session_lines(p, seed)[3][k] == coverage_line_spec(
                    p.coverage,
                    lc,
                    k,
                    0,
                ) && 0 <= g < coverage_groups(p.coverage, lc, k, 0).len() && #[trigger] coverage_groups(
                    p.coverage,
                    lc,
                    k,
                    0,
                )[g] == seq![ps[i][l], ps[j][r]]
        }),
{
    let p = crate::generator::plan_for(ps, "mixed"@, length, adaptive, data, seed);
    let lc = p.counts[3] as int;
    let cs = crate::generator::initial_state(seed);
    let pairs = p.pairs;
    lemma_plan_covering(ps, length, adaptive, data, seed);
    let edges = p.coverage;
    let len = edges.len() as int;
    let s0 = schedule_spec(pairs, cs).1;
    lemma_sections_plain(p, 3, Set::empty(), s0);
    let (secs3, u3, s3) = sections_upto(p, 3, Set::empty(), s0);
    lemma_transition_lines(p, lc, u3, s3);
    let l3 = lines_upto(p, 3, lc, u3, s3).0;
    lemma_section_three(p, s0);
    assert(crate::generator::session_lines(p, seed)[3] == l3);
    let x = side_key(pairs[i], l);
    let y = side_key(pairs[j], r);
    assert(x == ps[i][l] && y == ps[j][r]);
    crate::coverage::lemma_schedule_covers(pairs, cs, i, j, l, r);
    let e = choose|e: int| 0 <= e < len && edges[e] == (x, y);
    crate::coverage::lemma_transition_lines_cover(edges, lc, e);
    let (k, g) = choose|k: int, g: int|
        0 <= k < lc && 0 <= g < coverage_groups(edges, lc, k, 0).len()
            && #[trigger] coverage_groups(edges, lc, k, 0)[g] == seq![edges[e].0, edges[e].1]
            && coverage_layout(len, pairs_behind(len), lc, k, 0).2 <= e;
    assert(starts_inside(p, k));
    assert(l3[k] == coverage_line_spec(edges, lc, k, 0));
    assert(coverage_groups(edges, lc, k, 0)[g] == seq![ps[i][l], ps[j][r]]);
}


/// The plan of a mixed session over distinct known pairs whose schedule fits
/// its transition section is a covering plan.
proof fn lemma_plan_covering(
    ps: Seq<Seq<char>>,
    length: Seq<char>,
    adaptive: bool,
    data: crate::model::AppData,
    seed: u64,
)
    requires
        ps.no_duplicates(),
        forall|x: int| 0 <= x < ps.len() ==> is_known_pair(#[trigger] ps[x]),
        2 <= ps.len(),
        crate::generator::session_total(length) > 0,
        4 * ps.len() * (ps.len() - 1) <= 12 * crate::generator::plan_for(
            ps,
            "mixed"@,
            length,
            adaptive,
            data,
            seed,
        ).counts[3],
    ensures
        covering_plan(crate::generator::plan_for(ps, "mixed"@, length, adaptive, data, seed)),
{
    let p = crate::generator::plan_for(ps, "mixed"@, length, adaptive, data, seed);
    let cs = crate::generator::initial_state(seed);
    let pairs = p.pairs;
    crate::generator::lemma_selection_small(ps);
    lemma_selection_keys_distinct(ps);
    crate::coverage::lemma_schedule_len(pairs, cs);
    lemma_schedule_distinct(pairs, cs);
    let total = crate::generator::session_total(length);
    crate::template::lemma_allocation_ok(p.template, total as usize);
    crate::template::lemma_section_counts_law(total as usize, crate::template::allocation_spec(p.template));
    assert(4 * pairs.len() * (pairs.len() - 1) >= 8) by (nonlinear_arith)
        requires
            pairs.len() >= 2,
    ;
    reveal_strlit("mixed");
    reveal_strlit("standalone");
    assert("mixed"@.len() == 5 && "standalone"@.len() == 10);
    assert(mixed_plan(p));
    assert(p.pairs.len() <= usize::MAX);
    assert(schedule_of(p.coverage.len() as int, p.pairs.len() as int));
    assert(p.coverage.no_duplicates());
    assert(p.counts.len() == 6);
    assert(1 <= p.counts[3]);
}

pub(crate) proof fn lemma_sections_len(p: PlanSpec, st: int, used: Set<Seq<char>>, state: u64)
    requires
        st >= 0,
    ensures
        sections_upto(p, st, used, state).0.len() == st,
    decreases st,
{
    if st > 0 {
        lemma_sections_len(p, st - 1, used, state);
    }
}

/// The transition section of a session is built from what the first three
/// sections recorded.
proof fn lemma_section_three(p: PlanSpec, s0: u64)
    ensures
        ({
            let (secs3, u3, s3) = sections_upto(p, 3, Set::empty(), s0);
            sections_upto(p, 6, Set::empty(), s0).0[3] == lines_upto(p, 3, p.counts[3] as int, u3, s3).0
        }),
{
    let (secs3, u3, s3) = sections_upto(p, 3, Set::empty(), s0);
    lemma_sections_len(p, 3, Set::empty(), s0);
    let l3 = lines_upto(p, 3, p.counts[3] as int, u3, s3).0;
    let (secs4, v4, t4) = sections_upto(p, 4, Set::empty(), s0);
    assert(secs4 == secs3.push(l3));
    assert(secs4[3] == l3);
    let (secs5, v5, t5) = sections_upto(p, 5, Set::empty(), s0);
    assert(secs5 == secs4.push(lines_upto(p, 4, p.counts[4] as int, v4, t4).0));
    assert(secs5[3] == l3);
    let secs6 = sections_upto(p, 6, Set::empty(), s0).0;
    assert(secs6 == secs5.push(lines_upto(p, 5, p.counts[5] as int, v5, t5).0));
    assert(secs6[3] == l3);
}

/// Group `g` holds a key of one selected pair and a key of another.
pub open spec fn crosses(ps: Seq<Seq<char>>, g: Seq<char>) -> bool {
    exists|i: int, j: int, x: int, y: int|
        0 <= i < ps.len() && 0 <= j < ps.len() && i != j && 0 <= x < g.len() && 0 <= y < g.len()
            && #[trigger] ps[i].contains(g[x]) && #[trigger] ps[j].contains(g[y])
}

/// `line` is one of the twelve candidates for line `m` of section `stage`.
pub open spec fn is_candidate(p: PlanSpec, stage: int, m: int, line: Seq<char>) -> bool {
    exists|a: int, s: u64| 0 <= a < 12 && line == (#[trigger] candidate_spec(p, stage, m, a, s)).0
}

/// Every line recorded for a section is one of the section's candidates.
pub(crate) proof fn lemma_lines_are_candidates(p: PlanSpec, stage: int, k: int, used: Set<Seq<char>>, state: u64)
    requires
        k >= 0,
    ensures
        lines_upto(p, stage, k, used, state).0.len() == k,
        forall|m: int|
            0 <= m < k ==> is_candidate(p, stage, m, #[trigger] lines_upto(p, stage, k, used, state).0[m]),
    decreases k,
{
    if k > 0 {
        lemma_lines_are_candidates(p, stage, k - 1, used, state);
        let (prev, u, s) = lines_upto(p, stage, k - 1, used, state);
        lemma_attempts_result(p, stage, k - 1, u, s, 0);
        let ls = lines_upto(p, stage, k, used, state).0;
        assert(ls == prev.push(attempts_from(p, stage, k - 1, u, s, 0).0));
        assert forall|m: int| 0 <= m < k implies is_candidate(p, stage, m, #[trigger] ls[m]) by {
            if m < k - 1 {
                assert(ls[m] == prev[m]);
            } else {
                let r = attempts_from(p, stage, k - 1, u, s, 0);
                let (a, s2) = choose|a: int, s2: u64|
                    0 <= a < 12 && r.0 == (#[trigger] candidate_spec(p, stage, k - 1, a, s2)).0;
                assert(ls[m] == candidate_spec(p, stage, m, a, s2).0);
            }
        }
    }
}

/// The alternation section of a session is built from what the first two
/// sections recorded.
proof fn lemma_section_two(p: PlanSpec, s0: u64)
    ensures
        ({
            let (secs2, u2, s2) = sections_upto(p, 2, Set::empty(), s0);
            sections_upto(p, 6, Set::empty(), s0).0[2] == lines_upto(p, 2, p.counts[2] as int, u2, s2).0
        }),
{
    let (secs2, u2, s2) = sections_upto(p, 2, Set::empty(), s0);
    lemma_sections_len(p, 2, Set::empty(), s0);
    let l2 = lines_upto(p, 2, p.counts[2] as int, u2, s2).0;
    let (secs3, v3, t3) = sections_upto(p, 3, Set::empty(), s0);
    assert(secs3 == secs2.push(l2));
    assert(secs3[2] == l2);
    let (secs4, v4, t4) = sections_upto(p, 4, Set::empty(), s0);
    assert(secs4 == secs3.push(lines_upto(p, 3, p.counts[3] as int, v3, t3).0));
    assert(secs4[2] == l2);
    let (secs5, v5, t5) = sections_upto(p, 5, Set::empty(), s0);
    assert(secs5 == secs4.push(lines_upto(p, 4, p.counts[4] as int, v4, t4).0));
    assert(secs5[2] == l2);
    let secs6 = sections_upto(p, 6, Set::empty(), s0).0;
    assert(secs6 == secs5.push(lines_upto(p, 5, p.counts[5] as int, v5, t5).0));
    assert(secs6[2] == l2);
}

/// A short cross-pair exercise holds a key of its source pair and a key of
/// its target pair, and the two pairs differ.
proof fn lemma_short_cross_crosses(ps: Seq<Seq<char>>, x: int)
    requires
        2 <= ps.len(),
        forall|q: int| 0 <= q < ps.len() ==> (#[trigger] ps[q]).len() == 2,
        x >= 0,
    ensures
        crosses(ps, short_cross_spec(key_pairs_spec(ps), x)),
{
    let pairs = key_pairs_spec(ps);
    let n = ps.len() as int;
    let src = crate::patterns::cross_source(n, x);
    let tgt = crate::patterns::cross_target(n, x);
    let d = 1 + (x / n) % (n - 1);
    vstd::arithmetic::div_mod::lemma_mod_bound(x, n);
    vstd::arithmetic::div_mod::lemma_mod_bound(x / n, n - 1);
    assert(1 <= d < n);
    assert(tgt == (src + d) % n);
    assert(tgt != src) by {
        if src + d < n {
            vstd::arithmetic::div_mod::lemma_small_mod((src + d) as nat, n as nat);
        } else {
            vstd::arithmetic::div_mod::lemma_small_mod((src + d - n) as nat, n as nat);
            vstd::arithmetic::div_mod::lemma_mod_sub_multiples_vanish(src + d, n);
        }
    }
    vstd::arithmetic::div_mod::lemma_mod_bound(src + d, n);
    let g = short_cross_spec(pairs, x);
    let a = pairs[src];
    let b = pairs[tgt];
    assert(ps[src].contains(a.0) && ps[src].contains(a.1)) by {
        assert(ps[src][0] == a.0 && ps[src][1] == a.1);
    }
    assert(ps[tgt].contains(b.0) && ps[tgt].contains(b.1)) by {
        assert(ps[tgt][0] == b.0 && ps[tgt][1] == b.1);
    }
    let round = x / n;
    if round % 6 == 0 || round % 6 == 1 || round % 6 == 2 {
        assert(ps[src].contains(g[0]) && ps[tgt].contains(g[1]));
    } else if round % 6 == 3 {
        assert(ps[tgt].contains(g[0]) && ps[src].contains(g[1]));
    } else if round % 6 == 4 {
        assert(ps[src].contains(g[0]) && ps[tgt].contains(g[2]));
    } else {
        assert(ps[tgt].contains(g[0]) && ps[src].contains(g[2]));
    }
}

/// Law (mixed practice is not concatenated standalone practice): in a mixed
/// session over two or more distinct pairs, every line of the alternation
/// section is made of five groups, each holding keys of two different pairs.
pub proof fn lemma_alternation_crosses_pairs(
    ps: Seq<Seq<char>>,
    length: Seq<char>,
    adaptive: bool,
    data: crate::model::AppData,
    seed: u64,
    k: int,
)
    requires
        ps.no_duplicates(),
        forall|x: int| 0 <= x < ps.len() ==> is_known_pair(#[trigger] ps[x]),
        2 <= ps.len(),
        crate::generator::session_total(length) > 0,
        0 <= k < crate::generator::plan_for(ps, "mixed"@, length, adaptive, data, seed).counts[2],
    ensures
        exists|gs: Seq<Seq<char>>|
            crate::generator::session_lines(
                crate::generator::plan_for(ps, "mixed"@, length, adaptive, data, seed),
                seed,
            )[2][k] == join_spaced(gs) && gs.len() == 5 && forall|g: int|
                0 <= g < 5 ==> crosses(ps, #[trigger] gs[g]),
{
    let p = crate::generator::plan_for(ps, "mixed"@, length, adaptive, data, seed);
    let cs = crate::generator::initial_state(seed);
    let pairs = p.pairs;
    crate::generator::lemma_selection_small(ps);
    reveal_strlit("mixed");
    reveal_strlit("standalone");
    assert("mixed"@.len() == 5 && "standalone"@.len() == 10);
    assert(!p.standalone);
    let s0 = schedule_spec(pairs, cs).1;
    lemma_section_two(p, s0);
    let (secs2, u2, s2) = sections_upto(p, 2, Set::empty(), s0);
    let lc = p.counts[2] as int;
    lemma_lines_are_candidates(p, 2, lc, u2, s2);
    let ls = lines_upto(p, 2, lc, u2, s2).0;
    assert(is_candidate(p, 2, k, ls[k]));
    let (a, st) = choose|a: int, st: u64|
        0 <= a < 12 && ls[k] == (#[trigger] candidate_spec(p, 2, k, a, st)).0;
    let li = k + a;
    assert(ls[k] == mixed_spec(pairs, 2, li, p.template, p.extended, p.km, p.tm, st).0);
    let start = Seq::new(5nat, |g: int| (li * 5 + g) as usize);
    let (indices, t1) = crate::rng::shuffle_spec(start, st);
    assert(adaptive_groups(2, crate::adaptive::weak_spec(p.km, p.tm), p.template) == 0);
    let fixed = Seq::new(5nat, |g: int| mixed_group(pairs, 2, indices[g] as int, p.extended));
    let walks = walks_spec(flat_keys(pairs), p.km, p.tm, if p.extended {
        9int
    } else {
        4int
    }, t1, 0).0;
    assert(fixed + walks =~= fixed);
    assert(ls[k] == join_spaced(fixed));
    assert forall|g: int| 0 <= g < 5 implies crosses(ps, #[trigger] fixed[g]) by {
        assert(fixed[g] == short_cross_spec(pairs, indices[g] as int));
        lemma_short_cross_crosses(ps, indices[g] as int);
    }
}

/// Law (shape of transition lines): when the schedule of distinct pairs fits
/// the transition section, every line of the section, at any attempt, has at
/// least six groups, each of two keys going from one pair to another.
pub proof fn lemma_transition_line_shape(pairs: Seq<KeyPair>, state: u64, lc: int, k: int, attempt: int)
    requires
        2 <= pairs.len() <= usize::MAX,
        keys_distinct(pairs),
        lc >= 1,
        4 * pairs.len() * (pairs.len() - 1) <= 12 * lc,
        k >= 0,
        attempt >= 0,
    ensures
        ({
            let gs = coverage_groups(schedule_spec(pairs, state).0, lc, k, attempt);
            &&& gs.len() >= 6
            &&& forall|g: int|
                0 <= g < gs.len() ==> (#[trigger] gs[g]).len() == 2 && cross_edge(
                    pairs,
                    (gs[g][0], gs[g][1]),
                )
        }),
{
    let edges = schedule_spec(pairs, state).0;
    let len = edges.len() as int;
    let n = pairs.len() as int;
    crate::coverage::lemma_schedule_len(pairs, state);
    lemma_schedule_distinct(pairs, state);
    lemma_fitting_layout(len, n, lc, k);
    assert(coverage_layout(len, n, lc, k, attempt).1 == coverage_layout(len, n, lc, k, 0).1);
    let (covered, line_len, start) = coverage_layout(len, n, lc, k, attempt);
    assert(len >= 8) by (nonlinear_arith)
        requires
            n >= 2,
            len == 4 * n * (n - 1),
    ;
    let gs = coverage_groups(edges, lc, k, attempt);
    assert forall|g: int| 0 <= g < gs.len() implies (#[trigger] gs[g]).len() == 2 && cross_edge(
        pairs,
        (gs[g][0], gs[g][1]),
    ) by {
        let q = (start + g) % covered;
        vstd::arithmetic::div_mod::lemma_mod_bound(start + g, covered);
        assert(gs[g] == coverage_group(edges, start, covered, g));
        assert(cross_edge(pairs, edges[q]));
        assert((gs[g][0], gs[g][1]) == edges[q]);
    }
}

/// Law (transition lines partition the schedule): when the schedule of two or
/// more pairs fits the transition section, every line of the section holds at
/// least six groups, each of them one edge of the schedule written as its two
/// keys, and every edge of the schedule is a group of some line.
pub proof fn lemma_transition_lines_hold_schedule(pairs: Seq<KeyPair>, state: u64, lc: int)
    requires
        2 <= pairs.len() <= usize::MAX,
        lc >= 1,
        4 * pairs.len() * (pairs.len() - 1) <= 12 * lc,
    ensures
        ({
            let edges = schedule_spec(pairs, state).0;
            &&& forall|k: int, g: int|
                0 <= k < lc && 0 <= g < coverage_groups(edges, lc, k, 0).len() ==> is_edge_group(
                    edges,
                    #[trigger] coverage_groups(edges, lc, k, 0)[g],
                )
            &&& forall|k: int| 0 <= k < lc ==> #[trigger] coverage_groups(edges, lc, k, 0).len() >= 6
            &&& forall|e: int| 0 <= e < edges.len() ==> #[trigger] on_some_line(edges, lc, e)
        }),
{
    let edges = schedule_spec(pairs, state).0;
    let len = edges.len() as int;
    let n = pairs.len() as int;
    crate::coverage::lemma_schedule_len(pairs, state);
    assert(schedule_of(len, n));
    assert forall|k: int| 0 <= k < lc implies #[trigger] coverage_groups(edges, lc, k, 0).len() >= 6 by {
        lemma_coverage_line_groups(edges, lc, k, 0);
    }
    assert forall|k: int, g: int|
        0 <= k < lc && 0 <= g < coverage_groups(edges, lc, k, 0).len() implies is_edge_group(
        edges,
        #[trigger] coverage_groups(edges, lc, k, 0)[g],
    ) by {
        lemma_coverage_line_groups(edges, lc, k, 0);
    }
    assert forall|e: int| 0 <= e < edges.len() implies #[trigger] on_some_line(edges, lc, e) by {
        crate::coverage::lemma_transition_lines_cover(edges, lc, e);
    }
}
} // verus!
