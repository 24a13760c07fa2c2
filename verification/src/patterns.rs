use vstd::prelude::*;

verus! {

/// A key pair: the left-hand key and the right-hand key.
pub type KeyPair = (char, char);

/// The standalone pattern table: for each of the six stages, the patterns
/// (0 = first key of the pair, 1 = second key).
pub open spec fn standalone_table(stage: int) -> Seq<Seq<u8>> {
    if stage == 0 {
        seq![seq![0u8, 0, 0, 0], seq![1u8, 1, 1, 1], seq![0u8, 0, 0], seq![1u8, 1, 1],
            seq![0u8, 0], seq![1u8, 1], seq![0u8, 0, 0, 0, 0], seq![1u8, 1, 1, 1, 1]]
    } else if stage == 1 {
        seq![seq![0u8, 1], seq![1u8, 0], seq![0u8, 1, 0, 1], seq![1u8, 0, 1, 0],
            seq![0u8, 1, 0, 1, 0], seq![1u8, 0, 1, 0, 1]]
    } else if stage == 2 {
        seq![seq![0u8, 0, 1], seq![1u8, 1, 0], seq![0u8, 1, 1], seq![1u8, 0, 0],
            seq![0u8, 0, 1, 0], seq![1u8, 1, 0, 1], seq![0u8, 1, 1, 0], seq![1u8, 0, 0, 1]]
    } else if stage == 3 {
        seq![seq![0u8, 1, 0, 0], seq![1u8, 0, 1, 1], seq![0u8, 0, 1, 1], seq![1u8, 1, 0, 0],
            seq![0u8, 1, 1, 0], seq![1u8, 0, 0, 1], seq![0u8, 1, 0, 0, 1], seq![1u8, 0, 1, 1, 0]]
    } else if stage == 4 {
        seq![seq![0u8, 1, 0, 1, 0], seq![1u8, 0, 1, 0, 1], seq![0u8, 0, 1, 0, 1],
            seq![1u8, 1, 0, 1, 0], seq![0u8, 1, 1, 0, 1], seq![1u8, 0, 0, 1, 0],
            seq![0u8, 1, 0, 1, 1, 0], seq![1u8, 0, 1, 0, 0, 1]]
    } else {
        seq![seq![0u8, 1, 0, 1, 0, 0, 1, 1], seq![1u8, 0, 1, 0, 1, 1, 0, 0],
            seq![0u8, 0, 1, 0, 1, 1, 0, 1], seq![1u8, 1, 0, 1, 0, 0, 1, 0],
            seq![0u8, 1, 0, 1, 1, 0, 0, 1], seq![1u8, 0, 1, 0, 0, 1, 1, 0],
            seq![0u8, 0, 1, 1, 0, 1, 0, 1], seq![1u8, 1, 0, 0, 1, 0, 1, 0],
            seq![0u8, 1, 0, 0, 1, 1, 0, 1, 0, 1], seq![1u8, 0, 1, 1, 0, 0, 1, 0, 1, 0]]
    }
}

/// The alternation patterns used for mixed basic patterns.
pub open spec fn alternation_table() -> Seq<Seq<u8>> {
    seq![seq![0u8, 1], seq![1u8, 0], seq![0u8, 1, 0, 1], seq![1u8, 0, 1, 0],
        seq![0u8, 0, 1, 0], seq![1u8, 1, 0, 1]]
}

/// A pattern whose digits are all 0 or 1.
pub open spec fn binary_pattern(p: Seq<u8>) -> bool {
    forall|i: int| 0 <= i < p.len() ==> p[i] <= 1
}

/// Every pattern of the tables is made of 0 and 1 digits.
pub proof fn lemma_tables_are_binary()
    ensures
        forall|k: int| 0 <= k < 6 ==> binary_pattern(#[trigger] alternation_table()[k]),
        forall|stage: int, k: int|
            0 <= stage < 6 && 0 <= k < standalone_table(stage).len() ==> binary_pattern(
                #[trigger] standalone_table(stage)[k],
            ),
{
    assert forall|k: int| 0 <= k < 6 implies binary_pattern(#[trigger] alternation_table()[k]) by {
        let p = alternation_table()[k];
        assert forall|i: int| 0 <= i < p.len() implies p[i] <= 1 by {}
    }
    assert forall|stage: int, k: int|
        0 <= stage < 6 && 0 <= k < standalone_table(stage).len() implies binary_pattern(
            #[trigger] standalone_table(stage)[k],
        ) by {
        let p = standalone_table(stage)[k];
        assert forall|i: int| 0 <= i < p.len() implies p[i] <= 1 by {}
    }
}

/// A pattern spelled with the keys of `pair`.
pub open spec fn rendered(p: Seq<u8>, pair: KeyPair) -> Seq<char> {
    p.map_values(|d: u8| if d == 0 { pair.0 } else { pair.1 })
}

/// The views of a table of patterns.
pub open spec fn table_views(t: Seq<Vec<u8>>) -> Seq<Seq<u8>> {
    t.map_values(|p: Vec<u8>| p@)
}

/// The standalone patterns of `stage` (0..6).
pub fn standalone_patterns(stage: usize) -> (t: Vec<Vec<u8>>)
    requires
        stage < 6,
    ensures
        table_views(t@) == standalone_table(stage as int),
{
    let t = if stage == 0 {
        vec![vec![0u8, 0, 0, 0], vec![1u8, 1, 1, 1], vec![0u8, 0, 0], vec![1u8, 1, 1],
            vec![0u8, 0], vec![1u8, 1], vec![0u8, 0, 0, 0, 0], vec![1u8, 1, 1, 1, 1]]
    } else if stage == 1 {
        vec![vec![0u8, 1], vec![1u8, 0], vec![0u8, 1, 0, 1], vec![1u8, 0, 1, 0],
            vec![0u8, 1, 0, 1, 0], vec![1u8, 0, 1, 0, 1]]
    } else if stage == 2 {
        vec![vec![0u8, 0, 1], vec![1u8, 1, 0], vec![0u8, 1, 1], vec![1u8, 0, 0],
            vec![0u8, 0, 1, 0], vec![1u8, 1, 0, 1], vec![0u8, 1, 1, 0], vec![1u8, 0, 0, 1]]
    } else if stage == 3 {
        vec![vec![0u8, 1, 0, 0], vec![1u8, 0, 1, 1], vec![0u8, 0, 1, 1], vec![1u8, 1, 0, 0],
            vec![0u8, 1, 1, 0], vec![1u8, 0, 0, 1], vec![0u8, 1, 0, 0, 1], vec![1u8, 0, 1, 1, 0]]
    } else if stage == 4 {
        vec![vec![0u8, 1, 0, 1, 0], vec![1u8, 0, 1, 0, 1], vec![0u8, 0, 1, 0, 1],
            vec![1u8, 1, 0, 1, 0], vec![0u8, 1, 1, 0, 1], vec![1u8, 0, 0, 1, 0],
            vec![0u8, 1, 0, 1, 1, 0], vec![1u8, 0, 1, 0, 0, 1]]
    } else {
        vec![vec![0u8, 1, 0, 1, 0, 0, 1, 1], vec![1u8, 0, 1, 0, 1, 1, 0, 0],
            vec![0u8, 0, 1, 0, 1, 1, 0, 1], vec![1u8, 1, 0, 1, 0, 0, 1, 0],
            vec![0u8, 1, 0, 1, 1, 0, 0, 1], vec![1u8, 0, 1, 0, 0, 1, 1, 0],
            vec![0u8, 0, 1, 1, 0, 1, 0, 1], vec![1u8, 1, 0, 0, 1, 0, 1, 0],
            vec![0u8, 1, 0, 0, 1, 1, 0, 1, 0, 1], vec![1u8, 0, 1, 1, 0, 0, 1, 0, 1, 0]]
    };
    assert(table_views(t@) =~= standalone_table(stage as int));
    t
}

/// The alternation patterns for mixed basic patterns.
pub fn alternation_patterns() -> (t: Vec<Vec<u8>>)
    ensures
        table_views(t@) == alternation_table(),
{
    let t = vec![vec![0u8, 1], vec![1u8, 0], vec![0u8, 1, 0, 1], vec![1u8, 0, 1, 0],
        vec![0u8, 0, 1, 0], vec![1u8, 1, 0, 1]];
    assert(table_views(t@) =~= alternation_table());
    t
}

/// Spells a 0/1 pattern with the keys of `pair`.
pub fn render_pattern(pattern: &Vec<u8>, pair: KeyPair) -> (r: Vec<char>)
    requires
        binary_pattern(pattern@),
    ensures
        r@ == rendered(pattern@, pair),
{
    let mut r: Vec<char> = Vec::new();
    let mut i: usize = 0;
    while i < pattern.len()
        invariant
            i <= pattern@.len(),
            binary_pattern(pattern@),
            r@ == rendered(pattern@.subrange(0, i as int), pair),
        decreases pattern@.len() - i,
    {
        let d = pattern[i];
        if d == 0 {
            r.push(pair.0);
        } else {
            r.push(pair.1);
        }
        i = i + 1;
        assert(r@ =~= rendered(pattern@.subrange(0, i as int), pair));
    }
    assert(pattern@.subrange(0, i as int) =~= pattern@);
    r
}

/// The keys of a selection in pair order: first, second, first, second, ...
pub open spec fn flat_keys(pairs: Seq<KeyPair>) -> Seq<char> {
    Seq::new(2 * pairs.len(), |i: int| if i % 2 == 0 { pairs[i / 2].0 } else { pairs[i / 2].1 })
}

/// The keys of the selection, flattened.
pub fn flatten_pairs(pairs: &Vec<KeyPair>) -> (keys: Vec<char>)
    requires
        pairs@.len() < usize::MAX / 2,
    ensures
        keys@ == flat_keys(pairs@),
{
    let mut keys: Vec<char> = Vec::new();
    let mut i: usize = 0;
    while i < pairs.len()
        invariant
            i <= pairs@.len(),
            pairs@.len() < usize::MAX / 2,
            keys@ == flat_keys(pairs@.subrange(0, i as int)),
        decreases pairs@.len() - i,
    {
        keys.push(pairs[i].0);
        keys.push(pairs[i].1);
        i = i + 1;
        assert(keys@ =~= flat_keys(pairs@.subrange(0, i as int)));
    }
    assert(pairs@.subrange(0, i as int) =~= pairs@);
    keys
}

/// A key repeated: the key at `index % len`, `2 + index % 3` times.
pub open spec fn repeated_key_spec(keys: Seq<char>, index: int) -> Seq<char> {
    Seq::new((2 + index % 3) as nat, |i: int| keys[index % keys.len() as int])
}

/// Repeats one key two to four times.
pub fn repeated_key(keys: &Vec<char>, index: usize) -> (r: Vec<char>)
    requires
        keys@.len() > 0,
    ensures
        r@ == repeated_key_spec(keys@, index as int),
{
    let key = keys[index % keys.len()];
    let n = 2 + index % 3;
    let mut r: Vec<char> = Vec::new();
    let mut i: usize = 0;
    while i < n
        invariant
            i <= n,
            r@ == Seq::new(i as nat, |j: int| key),
        decreases n - i,
    {
        r.push(key);
        i = i + 1;
        assert(r@ =~= Seq::new(i as nat, |j: int| key));
    }
    assert(r@ =~= repeated_key_spec(keys@, index as int));
    r
}

/// An alternation pattern over one pair of the selection.
pub open spec fn pair_alternation_spec(pairs: Seq<KeyPair>, index: int) -> Seq<char> {
    let pair = pairs[index % pairs.len() as int];
    rendered(alternation_table()[(index / pairs.len() as int) % 6], pair)
}

/// An alternation pattern over one pair of the selection.
pub fn pair_alternation(pairs: &Vec<KeyPair>, index: usize) -> (r: Vec<char>)
    requires
        pairs@.len() > 0,
    ensures
        r@ == pair_alternation_spec(pairs@, index as int),
{
    let pair = pairs[index % pairs.len()];
    let patterns = alternation_patterns();
    assert(patterns@.len() == table_views(patterns@).len());
    let k = (index / pairs.len()) % patterns.len();
    proof {
        lemma_tables_are_binary();
    }
    assert(patterns@[k as int]@ == alternation_table()[k as int]);
    render_pattern(&patterns[k], pair)
}

/// The source and target pairs of a cross-pair exercise: the source is
/// `index % n` and the target is the source shifted by `1 + round % (n - 1)`.
pub open spec fn cross_source(n: int, index: int) -> int {
    index % n
}

pub open spec fn cross_target(n: int, index: int) -> int {
    (index % n + 1 + (index / n) % (n - 1)) % n
}

/// A short exercise crossing from one pair to another.
pub open spec fn short_cross_spec(pairs: Seq<KeyPair>, index: int) -> Seq<char> {
    let n = pairs.len() as int;
    let a = pairs[cross_source(n, index)];
    let b = pairs[cross_target(n, index)];
    let round = index / n;
    if round % 6 == 0 {
        seq![a.0, b.0, a.1]
    } else if round % 6 == 1 {
        seq![a.1, b.1, a.0]
    } else if round % 6 == 2 {
        seq![a.0, b.1, a.1, b.0]
    } else if round % 6 == 3 {
        seq![b.1, a.1, b.0, a.0]
    } else if round % 6 == 4 {
        seq![a.0, a.1, b.0, b.1, a.0]
    } else {
        seq![b.1, b.0, a.1, a.0, b.1]
    }
}

/// A short exercise crossing from one pair to another.
pub fn short_cross_pair(pairs: &Vec<KeyPair>, index: usize) -> (r: Vec<char>)
    requires
        2 <= pairs@.len() < usize::MAX / 2,
    ensures
        r@ == short_cross_spec(pairs@, index as int),
{
    let n = pairs.len();
    let source = index % n;
    let round = index / n;
    let target = (source + 1 + round % (n - 1)) % n;
    let a = pairs[source];
    let b = pairs[target];
    let m = round % 6;
    if m == 0 {
        vec![a.0, b.0, a.1]
    } else if m == 1 {
        vec![a.1, b.1, a.0]
    } else if m == 2 {
        vec![a.0, b.1, a.1, b.0]
    } else if m == 3 {
        vec![b.1, a.1, b.0, a.0]
    } else if m == 4 {
        vec![a.0, a.1, b.0, b.1, a.0]
    } else {
        vec![b.1, b.0, a.1, a.0, b.1]
    }
}

/// A harder exercise crossing from one pair to another.
pub open spec fn difficult_cross_spec(pairs: Seq<KeyPair>, index: int) -> Seq<char> {
    let n = pairs.len() as int;
    let a = pairs[cross_source(n, index)];
    let b = pairs[cross_target(n, index)];
    let round = index / n;
    if round % 4 == 0 {
        seq![a.0, b.0, b.0, a.1, b.1, a.0]
    } else if round % 4 == 1 {
        seq![b.1, a.1, a.1, b.0, a.0, b.1]
    } else if round % 4 == 2 {
        seq![a.0, b.1, a.1, b.0, b.1, a.0, a.1]
    } else {
        seq![b.0, a.1, b.1, a.0, a.1, b.0, b.1]
    }
}

/// A harder exercise crossing from one pair to another.
pub fn difficult_cross_pair(pairs: &Vec<KeyPair>, index: usize) -> (r: Vec<char>)
    requires
        2 <= pairs@.len() < usize::MAX / 2,
    ensures
        r@ == difficult_cross_spec(pairs@, index as int),
{
    let n = pairs.len();
    let source = index % n;
    let round = index / n;
    let target = (source + 1 + round % (n - 1)) % n;
    let a = pairs[source];
    let b = pairs[target];
    let m = round % 4;
    if m == 0 {
        vec![a.0, b.0, b.0, a.1, b.1, a.0]
    } else if m == 1 {
        vec![b.1, a.1, a.1, b.0, a.0, b.1]
    } else if m == 2 {
        vec![a.0, b.1, a.1, b.0, b.1, a.0, a.1]
    } else {
        vec![b.0, a.1, b.1, a.0, a.1, b.0, b.1]
    }
}

/// `s` rotated left by `r` places.
pub open spec fn rotated<T>(s: Seq<T>, r: int) -> Seq<T> {
    s.subrange(r, s.len() as int) + s.subrange(0, r)
}

/// The four key orders of the longer balanced exercises.
pub open spec fn balanced_order(pairs: Seq<KeyPair>, variant: int) -> Seq<char> {
    let n = pairs.len() as int;
    if variant == 0 {
        flat_keys(pairs)
    } else if variant == 1 {
        Seq::new(2 * pairs.len(), |i: int| flat_keys(pairs)[2 * n - 1 - i])
    } else if variant == 2 {
        Seq::new(2 * pairs.len(), |i: int| if i < n { pairs[i].0 } else { pairs[i - n].1 })
    } else {
        Seq::new(
            2 * pairs.len(),
            |i: int| if i < n { pairs[n - 1 - i].1 } else { pairs[2 * n - 1 - i].0 },
        )
    }
}

/// The character at position `i` of a longer balanced exercise over `order`:
/// every sixth position from the fifth on repeats the previous key.
pub open spec fn balanced_at(order: Seq<char>, i: int) -> char {
    if i > 1 && i % 6 == 4 {
        order[(i - 1) % order.len() as int]
    } else {
        order[i % order.len() as int]
    }
}

/// A longer exercise that walks the selected keys in one of four orders.
pub open spec fn longer_balanced_spec(pairs: Seq<KeyPair>, index: int, len: int) -> Seq<char> {
    let base = balanced_order(pairs, index % 4);
    let order = rotated(base, (index / 4) % base.len() as int);
    Seq::new(len as nat, |i: int| balanced_at(order, i))
}

/// The base key order for a longer balanced exercise.
fn balanced_order_exec(pairs: &Vec<KeyPair>, variant: usize) -> (order: Vec<char>)
    requires
        1 <= pairs@.len() < usize::MAX / 2,
        variant < 4,
    ensures
        order@ == balanced_order(pairs@, variant as int),
{
    let n = pairs.len();
    let flat = flatten_pairs(pairs);
    let mut order: Vec<char> = Vec::new();
    let mut i: usize = 0;
    while i < 2 * n
        invariant
            n == pairs@.len(),
            1 <= n < usize::MAX / 2,
            variant < 4,
            flat@ == flat_keys(pairs@),
            i <= 2 * n,
            order@ == balanced_order(pairs@, variant as int).subrange(0, i as int),
        decreases 2 * n - i,
    {
        let c = if variant == 0 {
            flat[i]
        } else if variant == 1 {
            flat[2 * n - 1 - i]
        } else if variant == 2 {
            if i < n {
                pairs[i].0
            } else {
                pairs[i - n].1
            }
        } else {
            if i < n {
                pairs[n - 1 - i].1
            } else {
                pairs[2 * n - 1 - i].0
            }
        };
        order.push(c);
        i = i + 1;
        assert(order@ =~= balanced_order(pairs@, variant as int).subrange(0, i as int));
    }
    assert(balanced_order(pairs@, variant as int).subrange(0, i as int) =~= balanced_order(
        pairs@,
        variant as int,
    ));
    order
}

/// Rotates a sequence left by `r` places.
pub fn rotate_left<T: Copy>(s: &Vec<T>, r: usize) -> (out: Vec<T>)
    requires
        r <= s@.len(),
    ensures
        out@ == rotated(s@, r as int),
{
    let n = s.len();
    let mut out: Vec<T> = Vec::new();
    let mut i: usize = r;
    while i < n
        invariant
            n == s@.len(),
            r <= i <= n,
            out@ == s@.subrange(r as int, i as int),
        decreases n - i,
    {
        out.push(s[i]);
        i = i + 1;
        assert(out@ =~= s@.subrange(r as int, i as int));
    }
    let mut k: usize = 0;
    while k < r
        invariant
            n == s@.len(),
            r <= n,
            k <= r,
            out@ == s@.subrange(r as int, n as int) + s@.subrange(0, k as int),
        decreases r - k,
    {
        out.push(s[k]);
        k = k + 1;
        assert(out@ =~= s@.subrange(r as int, n as int) + s@.subrange(0, k as int));
    }
    out
}

/// A longer exercise that walks the selected keys in one of four orders.
pub fn longer_balanced(pairs: &Vec<KeyPair>, index: usize, len: usize) -> (r: Vec<char>)
    requires
        1 <= pairs@.len() < usize::MAX / 2,
    ensures
        r@ == longer_balanced_spec(pairs@, index as int, len as int),
{
    let base = balanced_order_exec(pairs, index % 4);
    let m = base.len();
    let order = rotate_left(&base, index / 4 % m);
    let mut r: Vec<char> = Vec::new();
    let mut i: usize = 0;
    while i < len
        invariant
            m == order@.len(),
            m == 2 * pairs@.len(),
            m >= 2,
            order@ == rotated(base@, ((index / 4) % m) as int),
            base@ == balanced_order(pairs@, (index % 4) as int),
            i <= len,
            r@ == Seq::new(i as nat, |j: int| balanced_at(order@, j)),
        decreases len - i,
    {
        let c = if i > 1 && i % 6 == 4 {
            order[(i - 1) % m]
        } else {
            order[i % m]
        };
        r.push(c);
        i = i + 1;
        assert(r@ =~= Seq::new(i as nat, |j: int| balanced_at(order@, j)));
    }
    assert(r@ =~= longer_balanced_spec(pairs@, index as int, len as int));
    r
}

} // verus!
