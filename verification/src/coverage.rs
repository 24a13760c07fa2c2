use vstd::prelude::*;
use crate::patterns::KeyPair;
use crate::rng::{shuffle_spec, xorshift, Rng};
use crate::text::{char_views, join_spaced};

verus! {

/// The key of `p` on side `side` (0 = first key, 1 = second key).
pub open spec fn side_key(p: KeyPair, side: int) -> char {
    if side == 0 {
        p.0
    } else {
        p.1
    }
}

/// The side order of a block: `[0, 1]`, or `[1, 0]` when `flip`.
pub open spec fn side_of(flip: bool, k: int) -> int {
    if flip {
        1 - k
    } else {
        k
    }
}

/// The edges for one offset: for each source position `s` of the shuffled
/// order, the four edges from the pair at `s` to the pair `offset` places on,
/// sides taken in the block's side order.
pub open spec fn offset_block(pairs: Seq<KeyPair>, order: Seq<usize>, offset: int, flip: bool) -> Seq<
    KeyPair,
> {
    let n = pairs.len() as int;
    Seq::new(
        (4 * n) as nat,
        |e: int|
            {
                let s = e / 4;
                let k = e % 4;
                let a = pairs[order[s] as int];
                let b = pairs[order[(s + offset) % n] as int];
                (side_key(a, side_of(flip, k / 2)), side_key(b, side_of(flip, k % 2)))
            },
    )
}

/// The blocks for offsets `1..o` and the generator state after drawing their
/// side orders (one word per block; odd words flip the sides).
pub open spec fn blocks_upto(pairs: Seq<KeyPair>, order: Seq<usize>, state: u64, o: int) -> (Seq<
    KeyPair,
>, u64)
    decreases o,
{
    if o <= 1 {
        (Seq::empty(), state)
    } else {
        let (prev, s) = blocks_upto(pairs, order, state, o - 1);
        let x = xorshift(s);
        (prev + offset_block(pairs, order, o - 1, x & 1 != 0), x)
    }
}

/// The integers `0..n`.
pub open spec fn index_range(n: int) -> Seq<usize> {
    Seq::new(n as nat, |i: int| i as usize)
}

/// The directed transition schedule of a selection and the generator state after it.
pub open spec fn schedule_spec(pairs: Seq<KeyPair>, state: u64) -> (Seq<KeyPair>, u64) {
    if pairs.len() < 2 {
        (Seq::empty(), state)
    } else {
        let (order, s1) = shuffle_spec(index_range(pairs.len() as int), state);
        blocks_upto(pairs, order, s1, pairs.len() as int)
    }
}

/// A selection small enough for the schedule's arithmetic.
pub open spec fn schedule_size_ok(n: int) -> bool {
    n < 0x1000_0000
}

pub proof fn lemma_blocks_len(pairs: Seq<KeyPair>, order: Seq<usize>, state: u64, o: int)
    requires
        o >= 1,
    ensures
        blocks_upto(pairs, order, state, o).0.len() == 4 * pairs.len() * (o - 1),
    decreases o,
{
    if o > 1 {
        lemma_blocks_len(pairs, order, state, o - 1);
        let (prev, s) = blocks_upto(pairs, order, state, o - 1);
        let x = xorshift(s);
        assert(blocks_upto(pairs, order, state, o).0 == prev + offset_block(
            pairs,
            order,
            o - 1,
            x & 1 != 0,
        ));
        let n = pairs.len() as int;
        assert(4 * n * (o - 1) == 4 * n * (o - 2) + 4 * n) by (nonlinear_arith);
    } else {
        let n = pairs.len() as int;
        assert(4 * n * (o - 1) == 0) by (nonlinear_arith)
            requires
                o == 1,
        ;
    }
}

proof fn lemma_blocks_prefix(pairs: Seq<KeyPair>, order: Seq<usize>, state: u64, o: int, o2: int)
    requires
        1 <= o <= o2,
    ensures
        blocks_upto(pairs, order, state, o).0.is_prefix_of(blocks_upto(pairs, order, state, o2).0),
    decreases o2,
{
    if o < o2 {
        lemma_blocks_prefix(pairs, order, state, o, o2 - 1);
    }
}

/// Every block before offset `o` is in the schedule up to `o`.
proof fn lemma_block_in(
    pairs: Seq<KeyPair>,
    order: Seq<usize>,
    state: u64,
    o: int,
    offset: int,
    e: int,
) -> (flip: bool)
    requires
        1 <= offset < o,
        0 <= e < 4 * pairs.len(),
    ensures
        blocks_upto(pairs, order, state, o).0.contains(
            offset_block(pairs, order, offset, flip)[e],
        ),
        ({
            let x = xorshift(blocks_upto(pairs, order, state, offset).1);
            flip == (x & 1 != 0)
        }),
    decreases o,
{
    let x = xorshift(blocks_upto(pairs, order, state, offset).1);
    let f = x & 1 != 0;
    let whole = blocks_upto(pairs, order, state, offset + 1).0;
    let prev = blocks_upto(pairs, order, state, offset).0;
    let blk = offset_block(pairs, order, offset, f);
    assert(whole == prev + blk);
    assert(whole[prev.len() + e] == blk[e]);
    lemma_blocks_prefix(pairs, order, state, offset + 1, o);
    let full = blocks_upto(pairs, order, state, o).0;
    assert(full[prev.len() + e] == blk[e]);
    f
}

/// Law: the schedule holds every directed edge between two different pairs
/// of the selection, for every side of each pair.
pub proof fn lemma_schedule_covers(pairs: Seq<KeyPair>, state: u64, i: int, j: int, l: int, r: int)
    requires
        2 <= pairs.len() <= usize::MAX,
        0 <= i < pairs.len(),
        0 <= j < pairs.len(),
        i != j,
        0 <= l < 2,
        0 <= r < 2,
    ensures
        schedule_spec(pairs, state).0.contains((side_key(pairs[i], l), side_key(pairs[j], r))),
{
    broadcast use vstd::seq_lib::group_to_multiset_ensures;

    let n = pairs.len() as int;
    let range = index_range(n);
    let (order, s1) = shuffle_spec(range, state);
    crate::rng::lemma_shuffle_is_permutation(range, state, n - 1);
    assert(range[i] == i as usize);
    assert(range[j] == j as usize);
    assert(range.contains(i as usize));
    assert(range.contains(j as usize));
    assert(order.to_multiset().count(i as usize) > 0);
    assert(order.to_multiset().count(j as usize) > 0);
    assert(order.contains(i as usize));
    assert(order.contains(j as usize));
    let s = choose|s: int| 0 <= s < order.len() && order[s] == i as usize;
    let t = choose|t: int| 0 <= t < order.len() && order[t] == j as usize;
    assert(s != t);
    let offset = if t > s {
        t - s
    } else {
        t + n - s
    };
    assert((s + offset) % n == t) by {
        assert(order.len() == n);
        if t > s {
            assert(s + offset == t);
            assert(t % n == t) by (nonlinear_arith)
                requires
                    0 <= t,
                    t < n,
            ;
        } else {
            assert(s + offset == t + n);
            assert((t + n) % n == t) by (nonlinear_arith)
                requires
                    0 <= t,
                    t < n,
            ;
        }
    }
    let flip = lemma_block_in(pairs, order, s1, n, offset, 0);
    let k = 2 * side_of(flip, l) + side_of(flip, r);
    assert(side_of(flip, k / 2) == l);
    assert(side_of(flip, k % 2) == r);
    let e = 4 * s + k;
    assert(e / 4 == s && e % 4 == k);
    let flip2 = lemma_block_in(pairs, order, s1, n, offset, e);
    assert(flip2 == flip);
}

/// The directed transitions between different selected pairs, in a shuffled
/// order with a random side order per offset.
pub fn transition_schedule(pairs: &Vec<KeyPair>, rng: &mut Rng) -> (edges: Vec<KeyPair>)
    requires
        schedule_size_ok(pairs@.len() as int),
    ensures
        (edges@, final(rng).0) == schedule_spec(pairs@, old(rng).0),
{
    let n = pairs.len();
    if n < 2 {
        return Vec::new();
    }
    let mut order: Vec<usize> = Vec::new();
    let mut i: usize = 0;
    while i < n
        invariant
            i <= n,
            order@ == index_range(n as int).subrange(0, i as int),
        decreases n - i,
    {
        order.push(i);
        i = i + 1;
        assert(order@ =~= index_range(n as int).subrange(0, i as int));
    }
    assert(order@ =~= index_range(n as int));
    let ghost range = order@;
    rng.shuffle(&mut order);
    let ghost ord = order@;
    proof {
        broadcast use vstd::seq_lib::group_to_multiset_ensures;

        assert forall|q: int| 0 <= q < n implies #[trigger] ord[q] < n by {
            assert(ord.contains(ord[q]));
            assert(ord.to_multiset().count(ord[q]) > 0);
            assert(range.contains(ord[q]));
        }
    }
    let ghost s1 = rng.0;
    let mut edges: Vec<KeyPair> = Vec::new();
    let mut offset: usize = 1;
    while offset < n
        invariant
            n == pairs@.len(),
            2 <= n < 0x1000_0000,
            order@ == ord,
            ord.len() == n,
            forall|q: int| 0 <= q < n ==> #[trigger] ord[q] < n,
            1 <= offset <= n,
            (edges@, rng.0) == blocks_upto(pairs@, ord, s1, offset as int),
        decreases n - offset,
    {
        let x = rng.next();
        let flip = x & 1 != 0;
        let side0: usize = if flip { 1 } else { 0 };
        let side1: usize = if flip { 0 } else { 1 };
        let ghost base = edges@;
        let ghost blk = offset_block(pairs@, ord, offset as int, flip);
        let mut source: usize = 0;
        while source < n
            invariant
                n == pairs@.len(),
                2 <= n < 0x1000_0000,
                order@ == ord,
                ord.len() == n,
                forall|q: int| 0 <= q < n ==> #[trigger] ord[q] < n,
                1 <= offset < n,
                side0 == side_of(flip, 0),
                side1 == side_of(flip, 1),
                blk == offset_block(pairs@, ord, offset as int, flip),
                source <= n,
                edges@ == base + blk.subrange(0, 4 * source as int),
            decreases n - source,
        {
            let a = pairs[order[source]];
            let b = pairs[order[(source + offset) % n]];
            let sides = [side0, side1];
            let mut li: usize = 0;
            while li < 2
                invariant
                    li <= 2,
                    source < n,
                    sides@ == seq![side0, side1],
                    edges@ == base + blk.subrange(0, 4 * source + 2 * li),
                    a == pairs@[ord[source as int] as int],
                    b == pairs@[ord[(source + offset) % (n as int)] as int],
                    blk == offset_block(pairs@, ord, offset as int, flip),
                    side0 == side_of(flip, 0),
                    side1 == side_of(flip, 1),
                    n == pairs@.len(),
                decreases 2 - li,
            {
                let left = sides[li];
                let mut ri: usize = 0;
                while ri < 2
                    invariant
                        li < 2,
                        ri <= 2,
                        source < n,
                        sides@ == seq![side0, side1],
                        left == sides@[li as int],
                        edges@ == base + blk.subrange(0, 4 * source + 2 * li + ri),
                        a == pairs@[ord[source as int] as int],
                        b == pairs@[ord[(source + offset) % (n as int)] as int],
                        blk == offset_block(pairs@, ord, offset as int, flip),
                        side0 == side_of(flip, 0),
                        side1 == side_of(flip, 1),
                        n == pairs@.len(),
                    decreases 2 - ri,
                {
                    let right = sides[ri];
                    let from = if left == 0 { a.0 } else { a.1 };
                    let to = if right == 0 { b.0 } else { b.1 };
                    let ghost e = 4 * source + 2 * li + ri;
                    assert(e / 4 == source && e % 4 == 2 * li + ri);
                    assert(blk[e] == (from, to));
                    edges.push((from, to));
                    ri = ri + 1;
                    assert(edges@ =~= base + blk.subrange(0, 4 * source + 2 * li + ri));
                }
                li = li + 1;
            }
            source = source + 1;
        }
        assert(blk.subrange(0, 4 * n as int) =~= blk);
        offset = offset + 1;
    }
    edges
}


/// The layout of a coverage line: the number of edges in rotation, the number
/// of edges on this line, and the position of its first edge.
pub open spec fn coverage_layout(len: int, pair_count: int, line_count: int, line: int, attempt: int) -> (
    int,
    int,
    int,
) {
    let block = if pair_count * 4 >= 1 {
        pair_count * 4
    } else {
        1
    };
    let capacity = if line_count * 12 >= block {
        line_count * 12
    } else {
        block
    };
    let covered = if len <= capacity {
        len
    } else {
        capacity / block * block
    };
    let wanted = if covered >= line_count * 6 {
        covered
    } else {
        line_count * 6
    };
    let target = (wanted + block - 1) / block * block;
    let base = target / line_count;
    let extra = target % line_count;
    let line_len = base + (if line < extra {
        1int
    } else {
        0
    });
    let start = line * base + (if line < extra {
        line
    } else {
        extra
    }) + attempt;
    (covered, line_len, start)
}

/// The intermediate values of the layout stay within `usize`.
pub open spec fn coverage_fits(len: int, pair_count: int, line_count: int, line: int, attempt: int) -> bool {
    let block = if pair_count * 4 >= 1 {
        pair_count * 4
    } else {
        1
    };
    let capacity = if line_count * 12 >= block {
        line_count * 12
    } else {
        block
    };
    let (covered, line_len, start) = coverage_layout(len, pair_count, line_count, line, attempt);
    let wanted = if covered >= line_count * 6 {
        covered
    } else {
        line_count * 6
    };
    &&& line_count >= 1
    &&& pair_count * 4 <= usize::MAX
    &&& line_count * 12 <= usize::MAX
    &&& wanted + block <= usize::MAX
    &&& line * (wanted + block) + wanted + block + attempt <= usize::MAX
    &&& start + line_len <= usize::MAX
}

/// The groups of one line of the transition section: consecutive edges of
/// the schedule, wrapping around, each written as two keys.
pub open spec fn coverage_groups(edges: Seq<KeyPair>, line_count: int, line: int, attempt: int) -> Seq<
    Seq<char>,
> {
    let (covered, line_len, start) = coverage_layout(
        edges.len() as int,
        pairs_behind(edges.len() as int),
        line_count,
        line,
        attempt,
    );
    Seq::new(line_len as nat, |i: int| coverage_group(edges, start, covered, i))
}

/// One line of the transition section: its groups joined by spaces.
pub open spec fn coverage_line_spec(edges: Seq<KeyPair>, line_count: int, line: int, attempt: int) -> Seq<
    char,
> {
    join_spaced(coverage_groups(edges, line_count, line, attempt))
}

/// The edge at `start + i` (wrapping at `covered`), written as two keys.
pub open spec fn coverage_group(edges: Seq<KeyPair>, start: int, covered: int, i: int) -> Seq<char> {
    let e = edges[(start + i) % covered];
    seq![e.0, e.1]
}

/// The number of pairs behind a schedule of `len` edges: the `n` with
/// `len == 4 * n * (n - 1)`.
pub open spec fn schedule_of(len: int, n: int) -> bool {
    n >= 2 && len == 4 * n * (n - 1)
}

/// Only one pair count gives a schedule of a given length.
pub proof fn lemma_schedule_of_unique(len: int, a: int, b: int)
    requires
        schedule_of(len, a),
        schedule_of(len, b),
    ensures
        a == b,
{
    if a < b {
        assert(4 * a * (a - 1) < 4 * b * (b - 1)) by (nonlinear_arith)
            requires
                2 <= a,
                a < b,
        ;
    }
    if b < a {
        assert(4 * b * (b - 1) < 4 * a * (a - 1)) by (nonlinear_arith)
            requires
                2 <= b,
                b < a,
        ;
    }
}

/// The number of pairs behind a schedule of `len` edges.
pub open spec fn pairs_behind(len: int) -> int {
    choose|n: int| schedule_of(len, n)
}

/// The schedule of `n >= 2` pairs has `4 * n * (n - 1)` edges.
pub proof fn lemma_schedule_len(pairs: Seq<KeyPair>, state: u64)
    requires
        2 <= pairs.len() <= usize::MAX,
    ensures
        schedule_of(schedule_spec(pairs, state).0.len() as int, pairs.len() as int),
        pairs_behind(schedule_spec(pairs, state).0.len() as int) == pairs.len(),
{
    let n = pairs.len() as int;
    let (order, s1) = shuffle_spec(index_range(n), state);
    lemma_blocks_len(pairs, order, s1, n);
    let len = schedule_spec(pairs, state).0.len() as int;
    assert(schedule_of(len, n));
    let m = pairs_behind(len);
    lemma_schedule_of_unique(len, m, n);
}

/// Recovers the number of pairs from the length of their schedule.
pub fn schedule_pair_count(len: usize) -> (n: usize)
    requires
        exists|k: int| schedule_of(len as int, k),
    ensures
        schedule_of(len as int, n as int),
        n == pairs_behind(len as int),
{
    let ghost k = choose|k: int| schedule_of(len as int, k);
    let mut p: usize = 2;
    assert(4 * p * (p - 1) <= 4 * k * (k - 1)) by (nonlinear_arith)
        requires
            p == 2,
            k >= 2,
    ;
    while 4 * p * (p - 1) < len
        invariant
            2 <= p <= k,
            4 * p <= 4 * p * (p - 1),
            schedule_of(len as int, k),
            4 * p * (p - 1) <= len,
        decreases k - p,
    {
        assert(p < k) by (nonlinear_arith)
            requires
                4 * p * (p - 1) < 4 * k * (k - 1),
                2 <= p,
                p <= k,
        ;
        assert(4 * (p + 1) * p <= 4 * k * (k - 1)) by (nonlinear_arith)
            requires
                p + 1 <= k,
                2 <= p,
        ;
        assert(4 * (p + 1) <= 4 * (p + 1) * p) by (nonlinear_arith)
            requires
                2 <= p,
        ;
        p = p + 1;
    }
    proof {
        lemma_schedule_of_unique(len as int, p as int, pairs_behind(len as int));
    }
    p
}

/// A line of the transition section.
pub fn coverage_line(edges: &Vec<KeyPair>, line_count: usize, line: usize, attempt: usize) -> (r:
    Vec<char>)
    requires
        exists|k: int| schedule_of(edges@.len() as int, k),
        coverage_fits(
            edges@.len() as int,
            pairs_behind(edges@.len() as int),
            line_count as int,
            line as int,
            attempt as int,
        ),
    ensures
        r@ == coverage_line_spec(edges@, line_count as int, line as int, attempt as int),
{
    let len = edges.len();
    let pair_count = schedule_pair_count(len);
    let block = if pair_count * 4 >= 1 { pair_count * 4 } else { 1 };
    let capacity = if line_count * 12 >= block { line_count * 12 } else { block };
    let covered = if len <= capacity { len } else { capacity / block * block };
    let wanted = if covered >= line_count * 6 { covered } else { line_count * 6 };
    let q = (wanted + block - 1) / block;
    assert(q * block <= wanted + block - 1) by (nonlinear_arith)
        requires
            q == (wanted + block - 1) / (block as int),
            block >= 1,
            wanted >= 0,
    ;
    let target = q * block;
    let base = target / line_count;
    let extra = target % line_count;
    let line_len = base + if line < extra { 1 } else { 0 };
    let ghost layout = coverage_layout(
        len as int,
        pair_count as int,
        line_count as int,
        line as int,
        attempt as int,
    );
    assert(target <= wanted + block) by (nonlinear_arith)
        requires
            target == q * block,
            q == (wanted + block - 1) / (block as int),
            block >= 1,
            wanted >= 0,
    ;
    assert(base <= target) by (nonlinear_arith)
        requires
            base == target / line_count,
            line_count >= 1,
            target >= 0,
    ;
    assert(line * base <= line * (wanted + block)) by (nonlinear_arith)
        requires
            base <= wanted + block,
            line >= 0,
    ;
    let start = line * base + (if line < extra { line } else { extra }) + attempt;
    assert(len >= 8) by (nonlinear_arith)
        requires
            schedule_of(len as int, pair_count as int),
    ;
    assert(covered >= 1) by (nonlinear_arith)
        requires
            len >= 8,
            block >= 1,
            capacity >= block,
            covered == (if len <= capacity {
                len as int
            } else {
                capacity / block * block
            }),
    ;
    assert(capacity / block * block <= capacity) by (nonlinear_arith)
        requires
            block >= 1,
    ;
    assert(covered <= len);
    assert(layout == (covered as int, line_len as int, start as int));
    let mut groups: Vec<Vec<char>> = Vec::new();
    let mut i: usize = 0;
    while i < line_len
        invariant
            i <= line_len,
            covered >= 1,
            covered <= len,
            len == edges@.len(),
            start + line_len <= usize::MAX,
            char_views(groups@) == Seq::new(
                i as nat,
                |q: int| coverage_group(edges@, start as int, covered as int, q),
            ),
        decreases line_len - i,
    {
        let e = edges[(start + i) % covered];
        let g = vec![e.0, e.1];
        assert(g@ =~= coverage_group(edges@, start as int, covered as int, i as int));
        let ghost before = groups@;
        groups.push(g);
        assert(char_views(groups@) =~= char_views(before).push(
            coverage_group(edges@, start as int, covered as int, i as int),
        ));
        i = i + 1;
        assert(char_views(groups@) =~= Seq::new(
            i as nat,
            |q: int| coverage_group(edges@, start as int, covered as int, q),
        ));
    }
    crate::text::join_groups(&groups)
}


/// Law: when the schedule fits the transition section (at most twelve edges
/// per line), the first attempts at its `line_count` lines together hold
/// every edge of the schedule as a group.
pub proof fn lemma_transition_lines_cover(edges: Seq<KeyPair>, line_count: int, e: int)
    requires
        exists|k: int| schedule_of(edges.len() as int, k),
        line_count >= 1,
        edges.len() <= 12 * line_count,
        0 <= e < edges.len(),
    ensures
        exists|line: int, g: int|
            0 <= line < line_count && 0 <= g < coverage_groups(edges, line_count, line, 0).len()
                && #[trigger] coverage_groups(edges, line_count, line, 0)[g] == seq![
                edges[e].0,
                edges[e].1,
            ] && coverage_layout(edges.len() as int, pairs_behind(edges.len() as int), line_count, line, 0).2
                <= e,
{
    let len = edges.len() as int;
    let n = pairs_behind(len);
    assert(schedule_of(len, n));
    let lc = line_count;
    let block = n * 4;
    assert(block >= 8);
    let capacity = if lc * 12 >= block {
        lc * 12
    } else {
        block
    };
    let covered = len;
    assert(coverage_layout(len, n, lc, 0, 0).0 == len);
    let wanted = if covered >= lc * 6 {
        covered
    } else {
        lc * 6
    };
    let target = (wanted + block - 1) / block * block;
    vstd::arithmetic::div_mod::lemma_fundamental_div_mod(wanted + block - 1, block);
    vstd::arithmetic::div_mod::lemma_mod_bound(wanted + block - 1, block);
    assert(target >= wanted) by (nonlinear_arith)
        requires
            target == (wanted + block - 1) / block * block,
            wanted + block - 1 == block * ((wanted + block - 1) / block) + (wanted + block - 1)
                % block,
            (wanted + block - 1) % block < block,
    ;
    let base = target / lc;
    let extra = target % lc;
    vstd::arithmetic::div_mod::lemma_fundamental_div_mod(target, lc);
    vstd::arithmetic::div_mod::lemma_mod_bound(target, lc);
    assert(base >= 6) by (nonlinear_arith)
        requires
            target >= lc * 6,
            target == lc * base + extra,
            0 <= extra < lc,
    ;
    let line: int;
    let g: int;
    if e < extra * (base + 1) {
        line = e / (base + 1);
        g = e % (base + 1);
        vstd::arithmetic::div_mod::lemma_fundamental_div_mod(e, base + 1);
        vstd::arithmetic::div_mod::lemma_mod_bound(e, base + 1);
        assert(line < extra) by (nonlinear_arith)
            requires
                e == (base + 1) * line + g,
                0 <= g,
                e < extra * (base + 1),
                base >= 0,
        ;
        assert(0 <= line) by (nonlinear_arith)
            requires
                e == (base + 1) * line + g,
                g < base + 1,
                e >= 0,
                base >= 0,
        ;
        assert(line * base + line == (base + 1) * line) by (nonlinear_arith);
    } else {
        let f = e - extra * (base + 1);
        line = extra + f / base;
        g = f % base;
        vstd::arithmetic::div_mod::lemma_fundamental_div_mod(f, base);
        vstd::arithmetic::div_mod::lemma_mod_bound(f, base);
        assert(f / base >= 0) by (nonlinear_arith)
            requires
                f == base * (f / base) + f % base,
                f % base < base,
                f >= 0,
        ;
        assert(e < target);
        assert(line < lc) by (nonlinear_arith)
            requires
                f == base * (f / base) + g,
                0 <= g,
                f == e - extra * (base + 1),
                e < lc * base + extra,
                line == extra + f / base,
                base >= 1,
        ;
        assert(line * base + extra + g == e) by (nonlinear_arith)
            requires
                line == extra + f / base,
                f == base * (f / base) + g,
                f == e - extra * (base + 1),
        ;
    }
    let (cov, line_len, start) = coverage_layout(len, n, lc, line, 0);
    assert(cov == len);
    assert(start + g == e);
    assert(0 <= g < line_len);
    assert(e % len == e) by (nonlinear_arith)
        requires
            0 <= e < len,
    ;
    let groups = coverage_groups(edges, lc, line, 0);
    assert(groups[g] == seq![edges[e].0, edges[e].1]);
}


/// An edge written as its two keys.
pub open spec fn edge_keys(e: KeyPair) -> Seq<char> {
    seq![e.0, e.1]
}

/// The edge at `e` is a group on one of the first `lc` lines of the
/// transition section (first attempts).
pub open spec fn on_some_line(edges: Seq<KeyPair>, lc: int, e: int) -> bool {
    exists|k: int, g: int|
        0 <= k < lc && 0 <= g < coverage_groups(edges, lc, k, 0).len() && #[trigger] coverage_groups(
            edges,
            lc,
            k,
            0,
        )[g] == edge_keys(edges[e])
}

/// `group` is one of the `edges`, written as its two keys.
pub open spec fn is_edge_group(edges: Seq<KeyPair>, group: Seq<char>) -> bool {
    exists|j: int| 0 <= j < edges.len() && group == edge_keys(#[trigger] edges[j])
}

/// The layout of a line keeps at least six groups, starts at a position
/// that is not negative, and rotates through at least one and at most all
/// edges.
proof fn lemma_line_layout_bounds(len: int, n: int, lc: int, line: int, attempt: int)
    requires
        schedule_of(len, n),
        lc >= 1,
        0 <= line < lc,
        attempt >= 0,
    ensures
        1 <= coverage_layout(len, n, lc, line, attempt).0 <= len,
        coverage_layout(len, n, lc, line, attempt).1 >= 6,
        coverage_layout(len, n, lc, line, attempt).2 >= 0,
{
    let block = n * 4;
    assert(block >= 8);
    assert(len >= 8) by (nonlinear_arith)
        requires
            schedule_of(len, n),
    ;
    let capacity = if lc * 12 >= block {
        lc * 12
    } else {
        block
    };
    let (covered, line_len, start) = coverage_layout(len, n, lc, line, attempt);
    assert(capacity / block * block <= capacity) by (nonlinear_arith)
        requires
            block >= 1,
            capacity >= 0,
    ;
    assert(capacity / block * block >= block) by (nonlinear_arith)
        requires
            block >= 1,
            capacity >= block,
    ;
    assert(1 <= covered <= len);
    let wanted = if covered >= lc * 6 {
        covered
    } else {
        lc * 6
    };
    let target = (wanted + block - 1) / block * block;
    vstd::arithmetic::div_mod::lemma_fundamental_div_mod(wanted + block - 1, block);
    vstd::arithmetic::div_mod::lemma_mod_bound(wanted + block - 1, block);
    assert(target >= wanted) by (nonlinear_arith)
        requires
            target == (wanted + block - 1) / block * block,
            wanted + block - 1 == block * ((wanted + block - 1) / block) + (wanted + block - 1)
                % block,
            (wanted + block - 1) % block < block,
    ;
    let base = target / lc;
    let extra = target % lc;
    vstd::arithmetic::div_mod::lemma_fundamental_div_mod(target, lc);
    vstd::arithmetic::div_mod::lemma_mod_bound(target, lc);
    assert(base >= 6) by (nonlinear_arith)
        requires
            target >= lc * 6,
            target == lc * base + extra,
            0 <= extra < lc,
    ;
    assert(line_len >= 6);
    assert(start >= 0) by (nonlinear_arith)
        requires
            start == line * base + (if line < extra {
                line
            } else {
                extra
            }) + attempt,
            line >= 0,
            base >= 0,
            extra >= 0,
            attempt >= 0,
    ;
}

/// Law: every line of the transition section (on any attempt) has at least
/// six groups, and each group is an edge of the schedule written as its two
/// keys.
pub proof fn lemma_coverage_line_groups(edges: Seq<KeyPair>, line_count: int, line: int, attempt: int)
    requires
        exists|k: int| schedule_of(edges.len() as int, k),
        line_count >= 1,
        0 <= line < line_count,
        attempt >= 0,
    ensures
        coverage_groups(edges, line_count, line, attempt).len() >= 6,
        forall|g: int|
            #![trigger coverage_groups(edges, line_count, line, attempt)[g]]
            0 <= g < coverage_groups(edges, line_count, line, attempt).len() ==> is_edge_group(
                edges,
                coverage_groups(edges, line_count, line, attempt)[g],
            ),
{
    let len = edges.len() as int;
    let n = pairs_behind(len);
    assert(schedule_of(len, n));
    lemma_line_layout_bounds(len, n, line_count, line, attempt);
    let (covered, line_len, start) = coverage_layout(len, n, line_count, line, attempt);
    let groups = coverage_groups(edges, line_count, line, attempt);
    assert forall|g: int| 0 <= g < groups.len() implies is_edge_group(edges, #[trigger] groups[g]) by {
        let j = (start + g) % covered;
        vstd::arithmetic::div_mod::lemma_mod_bound(start + g, covered);
        assert(groups[g] =~= edge_keys(edges[j]));
    }
}

} // verus!
