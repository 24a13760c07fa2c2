use vstd::prelude::*;
use crate::adaptive::{adaptive_walk, walk_spec, weak_spec, AdaptiveWeights};
use crate::coverage::index_range;
use crate::patterns::{
    difficult_cross_pair, flatten_pairs, longer_balanced, pair_alternation, repeated_key,
    short_cross_pair, binary_pattern, difficult_cross_spec, flat_keys, lemma_tables_are_binary, longer_balanced_spec,
    pair_alternation_spec, render_pattern, rendered, repeated_key_spec, rotate_left, rotated,
    short_cross_spec, standalone_patterns, standalone_table, table_views, KeyPair,
};
use crate::rng::{shuffle_spec, Rng};
use crate::template::Template;
use crate::text::{char_views, join_groups, join_spaced};

verus! {

/// Groups per line: six in the first two sections, five afterwards.
pub open spec fn group_count(stage: int) -> int {
    if stage < 2 {
        6
    } else {
        5
    }
}

/// Groups at the end of a line given to weighted walks: none before the
/// difficult sections or without a weakness; two for the weak-focus template.
pub open spec fn adaptive_groups(stage: int, weak: bool, template: Template) -> int {
    if stage >= 4 && weak {
        if template == Template::WeakFocus {
            2
        } else {
            1
        }
    } else {
        0
    }
}

/// `count` weighted walks in a row and the generator state after them.
pub open spec fn walks_spec(
    keys: Seq<char>,
    km: Map<char, u64>,
    tm: Map<(char, char), u64>,
    len: int,
    state: u64,
    count: int,
) -> (Seq<Seq<char>>, u64)
    decreases count,
{
    if count <= 0 {
        (Seq::empty(), state)
    } else {
        let (prev, s) = walks_spec(keys, km, tm, len, state, count - 1);
        let (w, s2) = walk_spec(keys, km, tm, len, s);
        (prev.push(w), s2)
    }
}

/// A standalone line: shuffled, rotated patterns of the stage spelled with the
/// pair, then any weighted walks; and the generator state after it.
pub open spec fn standalone_spec(
    pair: KeyPair,
    stage: int,
    line_index: int,
    template: Template,
    extended: bool,
    km: Map<char, u64>,
    tm: Map<(char, char), u64>,
    state: u64,
) -> (Seq<char>, u64) {
    let pats = standalone_table(stage);
    let n = pats.len() as int;
    let (order0, s1) = shuffle_spec(index_range(n), state);
    let order = rotated(order0, line_index % n);
    let gc = group_count(stage);
    let ag = adaptive_groups(stage, weak_spec(km, tm), template);
    let fixed = Seq::new((gc - ag) as nat, |g: int| rendered(pats[order[g % n] as int], pair));
    let walk_len = if extended {
        6 + stage
    } else {
        2 * stage
    };
    let (walks, s2) = walks_spec(seq![pair.0, pair.1], km, tm, walk_len, s1, ag);
    (join_spaced(fixed + walks), s2)
}

/// A fixed group of a mixed line for the given stage and shuffled index.
pub open spec fn mixed_group(pairs: Seq<KeyPair>, stage: int, index: int, extended: bool) -> Seq<
    char,
> {
    if stage == 0 {
        repeated_key_spec(flat_keys(pairs), index)
    } else if stage == 1 {
        pair_alternation_spec(pairs, index)
    } else if stage == 2 {
        short_cross_spec(pairs, index)
    } else if stage == 4 {
        difficult_cross_spec(pairs, index)
    } else {
        longer_balanced_spec(
            pairs,
            index,
            (if extended {
                9int
            } else {
                7int
            }) + index % 4,
        )
    }
}

/// A mixed line: groups built from shuffled indices, then any weighted walks
/// over all selected keys; a standalone line when one pair is selected.
pub open spec fn mixed_spec(
    pairs: Seq<KeyPair>,
    stage: int,
    line_index: int,
    template: Template,
    extended: bool,
    km: Map<char, u64>,
    tm: Map<(char, char), u64>,
    state: u64,
) -> (Seq<char>, u64) {
    if pairs.len() == 1 {
        standalone_spec(pairs[0], stage, line_index, template, extended, km, tm, state)
    } else {
        let gc = group_count(stage);
        let ag = adaptive_groups(stage, weak_spec(km, tm), template);
        let start = Seq::new(gc as nat, |g: int| (line_index * gc + g) as usize);
        let (indices, s1) = shuffle_spec(start, state);
        let fixed = Seq::new(
            (gc - ag) as nat,
            |g: int| mixed_group(pairs, stage, indices[g] as int, extended),
        );
        let walk_len = if extended {
            7 + stage
        } else {
            2 * stage
        };
        let (walks, s2) = walks_spec(flat_keys(pairs), km, tm, walk_len, s1, ag);
        (join_spaced(fixed + walks), s2)
    }
}


/// The adaptive groups count for the exec side.
fn adaptive_group_count(stage: usize, adaptive: &AdaptiveWeights, template: Template) -> (r: usize)
    ensures
        r == adaptive_groups(stage as int, weak_spec(adaptive.key_map(), adaptive.transition_map()), template),
{
    if stage >= 4 && adaptive.has_weakness() {
        if template == Template::WeakFocus {
            2
        } else {
            1
        }
    } else {
        0
    }
}

/// A standalone practice line for one pair.
pub fn standalone(
    pair: KeyPair,
    stage: usize,
    line_index: usize,
    template: Template,
    extended: bool,
    adaptive: &AdaptiveWeights,
    rng: &mut Rng,
) -> (r: Vec<char>)
    requires
        stage < 6,
    ensures
        (r@, final(rng).0) == standalone_spec(
            pair,
            stage as int,
            line_index as int,
            template,
            extended,
            adaptive.key_map(),
            adaptive.transition_map(),
            old(rng).0,
        ),
{
    let ghost km = adaptive.key_map();
    let ghost tm = adaptive.transition_map();
    let patterns = standalone_patterns(stage);
    let ghost pats = standalone_table(stage as int);
    assert(patterns@.len() == table_views(patterns@).len());
    let n = patterns.len();
    let group_count: usize = if stage < 2 { 6 } else { 5 };
    let mut order0: Vec<usize> = Vec::new();
    let mut i: usize = 0;
    while i < n
        invariant
            i <= n,
            order0@ == index_range(n as int).subrange(0, i as int),
        decreases n - i,
    {
        order0.push(i);
        i = i + 1;
        assert(order0@ =~= index_range(n as int).subrange(0, i as int));
    }
    assert(order0@ =~= index_range(n as int));
    proof {
        crate::rng::lemma_shuffle_is_permutation(order0@, rng.0, n - 1);
    }
    rng.shuffle(&mut order0);
    let ghost s1 = rng.0;
    let order = rotate_left(&order0, line_index % n);
    proof {
        broadcast use vstd::seq_lib::group_to_multiset_ensures;

        assert forall|q: int| 0 <= q < order@.len() implies #[trigger] order@[q] < n by {
            let o = order0@;
            let r = (line_index % n) as int;
            let src = if q < o.len() - r {
                q + r
            } else {
                q - (o.len() - r)
            };
            assert(order@[q] == o[src]);
            assert(o.contains(o[src]));
            assert(o.to_multiset().count(o[src]) > 0);
            assert(index_range(n as int).contains(o[src]));
        }
        lemma_tables_are_binary();
    }
    let adaptive_groups = adaptive_group_count(stage, adaptive, template);
    let keys = vec![pair.0, pair.1];
    let walk_len: usize = if extended { 6 + stage } else { 2 * stage };
    let ghost fixed = Seq::new(
        (group_count - adaptive_groups) as nat,
        |g: int| rendered(pats[order@[g % (n as int)] as int], pair),
    );
    let mut groups: Vec<Vec<char>> = Vec::new();
    let mut g: usize = 0;
    while g < group_count - adaptive_groups
        invariant
            g <= group_count - adaptive_groups,
            adaptive_groups <= 2,
            group_count >= 5,
            n == pats.len(),
            n >= 6,
            order@.len() == n,
            forall|q: int| 0 <= q < order@.len() ==> #[trigger] order@[q] < n,
            table_views(patterns@) == pats,
            pats == standalone_table(stage as int),
            stage < 6,
            forall|k: int| 0 <= k < pats.len() ==> binary_pattern(#[trigger] pats[k]),
            char_views(groups@) == fixed.subrange(0, g as int),
            fixed == Seq::new(
                (group_count - adaptive_groups) as nat,
                |q: int| rendered(pats[order@[q % (n as int)] as int], pair),
            ),
        decreases group_count - adaptive_groups - g,
    {
        let k = order[g % n];
        assert(patterns@[k as int]@ == pats[k as int]);
        let text = render_pattern(&patterns[k], pair);
        let ghost before = groups@;
        groups.push(text);
        assert(char_views(groups@) =~= char_views(before).push(text@));
        g = g + 1;
        assert(char_views(groups@) =~= fixed.subrange(0, g as int));
    }
    let mut w: usize = 0;
    assert(char_views(groups@) =~= fixed + walks_spec(keys@, km, tm, walk_len as int, s1, 0).0);
    while w < adaptive_groups
        invariant
            w <= adaptive_groups,
            keys@ == seq![pair.0, pair.1],
            km == adaptive.key_map(),
            tm == adaptive.transition_map(),
            (char_views(groups@), rng.0) == (fixed + walks_spec(
                keys@,
                km,
                tm,
                walk_len as int,
                s1,
                w as int,
            ).0, walks_spec(keys@, km, tm, walk_len as int, s1, w as int).1),
        decreases adaptive_groups - w,
    {
        let ghost before = groups@;
        let walk = adaptive_walk(&keys, walk_len, adaptive, rng);
        groups.push(walk);
        w = w + 1;
        assert(char_views(groups@) =~= char_views(before).push(walk@));
        assert(char_views(groups@) =~= fixed + walks_spec(keys@, km, tm, walk_len as int, s1, w as int).0);
    }
    join_groups(&groups)
}


/// What `mixed` needs: a known stage, a pair selection of one-byte keys small
/// enough for the arithmetic, a line index whose groups fit in `usize`, and no
/// transition section for more than one pair (that section has its own lines).
pub open spec fn mixed_ok(pairs: Seq<KeyPair>, stage: int, line_index: int) -> bool {
    &&& 0 <= stage < 6
    &&& 1 <= pairs.len() < usize::MAX / 2
    &&& line_index * 6 + 6 <= usize::MAX
    &&& (stage == 3 ==> pairs.len() == 1)
}

/// A fixed group of a mixed line.
fn mixed_group_exec(pairs: &Vec<KeyPair>, keys: &Vec<char>, stage: usize, index: usize, extended: bool) -> (r:
    Vec<char>)
    requires
        2 <= pairs@.len() < usize::MAX / 2,
        keys@ == flat_keys(pairs@),
        stage < 6,
        stage != 3,
    ensures
        r@ == mixed_group(pairs@, stage as int, index as int, extended),
{
    if stage == 0 {
        repeated_key(keys, index)
    } else if stage == 1 {
        pair_alternation(pairs, index)
    } else if stage == 2 {
        short_cross_pair(pairs, index)
    } else if stage == 4 {
        difficult_cross_pair(pairs, index)
    } else {
        let base: usize = if extended { 9 } else { 7 };
        longer_balanced(pairs, index, base + index % 4)
    }
}

/// A mixed practice line over all selected pairs.
pub fn mixed(
    pairs: &Vec<KeyPair>,
    stage: usize,
    line_index: usize,
    template: Template,
    extended: bool,
    adaptive: &AdaptiveWeights,
    rng: &mut Rng,
) -> (r: Vec<char>)
    requires
        mixed_ok(pairs@, stage as int, line_index as int),
    ensures
        (r@, final(rng).0) == mixed_spec(
            pairs@,
            stage as int,
            line_index as int,
            template,
            extended,
            adaptive.key_map(),
            adaptive.transition_map(),
            old(rng).0,
        ),
{
    if pairs.len() == 1 {
        return standalone(pairs[0], stage, line_index, template, extended, adaptive, rng);
    }
    let ghost km = adaptive.key_map();
    let ghost tm = adaptive.transition_map();
    let keys = flatten_pairs(pairs);
    let groups_n: usize = if stage < 2 { 6 } else { 5 };
    let adaptive_groups = adaptive_group_count(stage, adaptive, template);
    let mut indices: Vec<usize> = Vec::new();
    let mut g: usize = 0;
    let ghost start = Seq::new(groups_n as nat, |q: int| (line_index * groups_n + q) as usize);
    while g < groups_n
        invariant
            g <= groups_n,
            groups_n <= 6,
            line_index * 6 + 6 <= usize::MAX,
            start == Seq::new(groups_n as nat, |q: int| (line_index * groups_n + q) as usize),
            indices@ == start.subrange(0, g as int),
        decreases groups_n - g,
    {
        assert(line_index * groups_n + g <= line_index * 6 + 6) by (nonlinear_arith)
            requires
                groups_n <= 6,
                g < groups_n,
        ;
        indices.push(line_index * groups_n + g);
        g = g + 1;
        assert(indices@ =~= start.subrange(0, g as int));
    }
    assert(indices@ =~= start);
    rng.shuffle(&mut indices);
    let ghost s1 = rng.0;
    let ghost idx = indices@;
    let walk_len: usize = if extended { 7 + stage } else { 2 * stage };
    let ghost fixed = Seq::new(
        (groups_n - adaptive_groups) as nat,
        |q: int| mixed_group(pairs@, stage as int, idx[q] as int, extended),
    );
    let mut groups: Vec<Vec<char>> = Vec::new();
    let mut k: usize = 0;
    while k < groups_n - adaptive_groups
        invariant
            k <= groups_n - adaptive_groups,
            adaptive_groups <= 2,
            groups_n >= 5,
            indices@ == idx,
            idx.len() == groups_n,
            keys@ == flat_keys(pairs@),
            mixed_ok(pairs@, stage as int, line_index as int),
            pairs@.len() >= 2,
            char_views(groups@) == fixed.subrange(0, k as int),
            fixed == Seq::new(
                (groups_n - adaptive_groups) as nat,
                |q: int| mixed_group(pairs@, stage as int, idx[q] as int, extended),
            ),
        decreases groups_n - adaptive_groups - k,
    {
        let text = mixed_group_exec(pairs, &keys, stage, indices[k], extended);
        let ghost before = groups@;
        groups.push(text);
        assert(char_views(groups@) =~= char_views(before).push(text@));
        k = k + 1;
        assert(char_views(groups@) =~= fixed.subrange(0, k as int));
    }
    let mut w: usize = 0;
    assert(char_views(groups@) =~= fixed + walks_spec(keys@, km, tm, walk_len as int, s1, 0).0);
    while w < adaptive_groups
        invariant
            w <= adaptive_groups,
            keys@ == flat_keys(pairs@),
            2 <= keys@.len(),
            km == adaptive.key_map(),
            tm == adaptive.transition_map(),
            (char_views(groups@), rng.0) == (fixed + walks_spec(
                keys@,
                km,
                tm,
                walk_len as int,
                s1,
                w as int,
            ).0, walks_spec(keys@, km, tm, walk_len as int, s1, w as int).1),
        decreases adaptive_groups - w,
    {
        let ghost before = groups@;
        let walk = adaptive_walk(&keys, walk_len, adaptive, rng);
        groups.push(walk);
        w = w + 1;
        assert(char_views(groups@) =~= char_views(before).push(walk@));
        assert(char_views(groups@) =~= fixed + walks_spec(keys@, km, tm, walk_len as int, s1, w as int).0);
    }
    join_groups(&groups)
}

} // verus!
