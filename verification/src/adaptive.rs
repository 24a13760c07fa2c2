use vstd::prelude::*;
use crate::model::{count_or_zero, AppData, TimingStat};
use crate::rng::{xorshift, Rng};
use crate::strmap::{distinct_keys, entries_map, lemma_entry_in_map, lemma_push_entry};
use crate::text::{chars_of, string_views};

verus! {

/// Extra weight for keys and transitions that caused errors or slow responses.
pub struct AdaptiveWeights {
    keys: Vec<(char, u64)>,
    transitions: Vec<((char, char), u64)>,
}

/// A weight is one of 1, 2 or 3.
pub open spec fn weight_ok(w: u64) -> bool {
    1 <= w <= 3
}

impl AdaptiveWeights {
    #[verifier::type_invariant]
    spec fn well_formed(&self) -> bool {
        &&& distinct_keys(self.keys@)
        &&& distinct_keys(self.transitions@)
        &&& forall|i: int| 0 <= i < self.keys@.len() ==> weight_ok(#[trigger] self.keys@[i].1)
        &&& forall|i: int|
            0 <= i < self.transitions@.len() ==> weight_ok(#[trigger] self.transitions@[i].1)
    }

    /// The weight of each weak key.
    pub closed spec fn key_map(&self) -> Map<char, u64> {
        entries_map(self.keys@)
    }

    /// The weight of each weak transition (from, to).
    pub closed spec fn transition_map(&self) -> Map<(char, char), u64> {
        entries_map(self.transitions@)
    }

    /// No extra weight anywhere.
    pub fn none() -> (w: Self)
        ensures
            w.key_map() == Map::<char, u64>::empty(),
            w.transition_map() == Map::<(char, char), u64>::empty(),
    {
        let w = AdaptiveWeights { keys: Vec::new(), transitions: Vec::new() };
        assert(w.key_map() =~= Map::<char, u64>::empty());
        assert(w.transition_map() =~= Map::<(char, char), u64>::empty());
        w
    }

    /// Whether any key or transition weighs more than 1.
    pub fn has_weakness(&self) -> (r: bool)
        ensures
            r == weak_spec(self.key_map(), self.transition_map()),
            (forall|k: char| #[trigger] self.key_map().contains_key(k) ==> self.key_map()[k] == 1) && (
            forall|t: (char, char)| #[trigger]
                self.transition_map().contains_key(t) ==> self.transition_map()[t] == 1) ==> !r,
            (exists|k: char| #[trigger] self.key_map().contains_key(k) && self.key_map()[k] >= 2) ==> r,
            (exists|t: (char, char)| #[trigger]
                self.transition_map().contains_key(t) && self.transition_map()[t] >= 2) ==> r,
    {
        proof {
            use_type_invariant(self);
        }
        let mut i: usize = 0;
        while i < self.keys.len()
            invariant
                i <= self.keys@.len(),
                distinct_keys(self.keys@),
                forall|j: int| 0 <= j < i ==> self.keys@[j].1 <= 1,
            decreases self.keys@.len() - i,
        {
            if self.keys[i].1 > 1 {
                proof {
                    lemma_entry_in_map(self.keys@, i as int);
                }
                return true;
            }
            i = i + 1;
        }
        let mut t: usize = 0;
        while t < self.transitions.len()
            invariant
                t <= self.transitions@.len(),
                distinct_keys(self.transitions@),
                forall|j: int| 0 <= j < self.keys@.len() ==> self.keys@[j].1 <= 1,
                forall|j: int| 0 <= j < t ==> self.transitions@[j].1 <= 1,
            decreases self.transitions@.len() - t,
        {
            if self.transitions[t].1 > 1 {
                proof {
                    lemma_entry_in_map(self.transitions@, t as int);
                }
                return true;
            }
            t = t + 1;
        }
        proof {
            assert forall|k: char| #[trigger] self.key_map().contains_key(k) implies self.key_map()[k]
                <= 1 by {
                let j = choose|j: int| 0 <= j < self.keys@.len() && self.keys@[j].0 == k;
                lemma_entry_in_map(self.keys@, j);
            }
            assert forall|k: (char, char)| #[trigger]
                self.transition_map().contains_key(k) implies self.transition_map()[k] <= 1 by {
                let j = choose|j: int|
                    0 <= j < self.transitions@.len() && self.transitions@[j].0 == k;
                lemma_entry_in_map(self.transitions@, j);
            }
        }
        false
    }

    /// The extra weight of key `c`, if it has one.
    pub fn key_weight(&self, c: char) -> (r: Option<u64>)
        ensures
            r == (if self.key_map().contains_key(c) {
                Some(self.key_map()[c])
            } else {
                None
            }),
            r matches Some(w) ==> weight_ok(w),
    {
        proof {
            use_type_invariant(self);
        }
        let mut i: usize = 0;
        while i < self.keys.len()
            invariant
                i <= self.keys@.len(),
                distinct_keys(self.keys@),
                forall|j: int| 0 <= j < self.keys@.len() ==> weight_ok(#[trigger] self.keys@[j].1),
                forall|j: int| 0 <= j < i ==> self.keys@[j].0 != c,
            decreases self.keys@.len() - i,
        {
            if self.keys[i].0 == c {
                proof {
                    lemma_entry_in_map(self.keys@, i as int);
                }
                return Some(self.keys[i].1);
            }
            i = i + 1;
        }
        None
    }

    /// The extra weight of the transition from `from` to `to`, if it has one.
    pub fn transition_weight(&self, from: char, to: char) -> (r: Option<u64>)
        ensures
            r == (if self.transition_map().contains_key((from, to)) {
                Some(self.transition_map()[(from, to)])
            } else {
                None
            }),
            r matches Some(w) ==> weight_ok(w),
    {
        proof {
            use_type_invariant(self);
        }
        let mut i: usize = 0;
        while i < self.transitions.len()
            invariant
                i <= self.transitions@.len(),
                distinct_keys(self.transitions@),
                forall|j: int|
                    0 <= j < self.transitions@.len() ==> weight_ok(#[trigger] self.transitions@[j].1),
                forall|j: int| 0 <= j < i ==> self.transitions@[j].0 != (from, to),
            decreases self.transitions@.len() - i,
        {
            let e = self.transitions[i].0;
            if e.0 == from && e.1 == to {
                proof {
                    lemma_entry_in_map(self.transitions@, i as int);
                }
                return Some(self.transitions[i].1);
            }
            i = i + 1;
        }
        None
    }
}

/// Whether any key or transition weighs more than 1.
pub open spec fn weak_spec(keys: Map<char, u64>, transitions: Map<(char, char), u64>) -> bool {
    (exists|k: char| #[trigger] keys.contains_key(k) && keys[k] > 1) || (exists|t: (char, char)|
        #[trigger] transitions.contains_key(t) && transitions[t] > 1)
}

/// The stored weight, or 1.
pub open spec fn weight_or_one<K>(m: Map<K, u64>, k: K) -> u64 {
    if m.contains_key(k) {
        m[k]
    } else {
        1
    }
}

/// The weight of key `k` after `prev`: the larger of its own weight and the
/// weight of the transition into it, at most 3.
pub open spec fn key_weight_spec(
    km: Map<char, u64>,
    tm: Map<(char, char), u64>,
    prev: Option<char>,
    k: char,
) -> u64 {
    let kw = weight_or_one(km, k);
    let tw = match prev {
        Some(f) => weight_or_one(tm, (f, k)),
        None => 1,
    };
    let m = if kw >= tw {
        kw
    } else {
        tw
    };
    if m <= 3 {
        m
    } else {
        3
    }
}

/// The weights of all keys after `prev`.
pub open spec fn weights_spec(
    keys: Seq<char>,
    km: Map<char, u64>,
    tm: Map<(char, char), u64>,
    prev: Option<char>,
) -> Seq<u64> {
    keys.map_values(|k: char| key_weight_spec(km, tm, prev, k))
}

/// The sum of a sequence of weights.
pub open spec fn weight_sum(s: Seq<u64>) -> int
    decreases s.len(),
{
    if s.len() == 0 {
        0
    } else {
        weight_sum(s.drop_last()) + s.last()
    }
}

/// The key whose share of the weights holds `choice`, scanning from `i`;
/// the first key when the shares run out.
pub open spec fn select_key(keys: Seq<char>, ws: Seq<u64>, choice: int, i: int) -> char
    decreases keys.len() - i,
{
    if i < 0 || i >= keys.len() {
        keys[0]
    } else if choice < ws[i] {
        keys[i]
    } else {
        select_key(keys, ws, choice - ws[i], i + 1)
    }
}

/// One weighted draw: the key chosen from generator state `state`, and the next state.
pub open spec fn pick_key_spec(
    keys: Seq<char>,
    km: Map<char, u64>,
    tm: Map<(char, char), u64>,
    prev: Option<char>,
    state: u64,
) -> (char, u64) {
    let ws = weights_spec(keys, km, tm, prev);
    let total = weight_sum(ws);
    (select_key(keys, ws, (xorshift(state) as int) % total, 0), xorshift(state))
}

/// Keys a weighted draw may use: at least one.
pub open spec fn draw_keys_ok(keys: Seq<char>) -> bool {
    0 < keys.len()
}

proof fn lemma_weight_sum_bounds(ws: Seq<u64>)
    requires
        forall|i: int| 0 <= i < ws.len() ==> 1 <= #[trigger] ws[i] <= 3,
    ensures
        ws.len() <= weight_sum(ws) <= 3 * ws.len(),
    decreases ws.len(),
{
    if ws.len() > 0 {
        lemma_weight_sum_bounds(ws.drop_last());
    }
}

/// Draws one key, favouring weak keys and weak transitions out of `previous`.
pub fn weighted_key(
    keys: &Vec<char>,
    previous: Option<char>,
    adaptive: &AdaptiveWeights,
    rng: &mut Rng,
) -> (c: char)
    requires
        draw_keys_ok(keys@),
    ensures
        (c, final(rng).0) == pick_key_spec(
            keys@,
            adaptive.key_map(),
            adaptive.transition_map(),
            previous,
            old(rng).0,
        ),
{
    let ghost km = adaptive.key_map();
    let ghost tm = adaptive.transition_map();
    let mut weights: Vec<u64> = Vec::new();
    let mut i: usize = 0;
    while i < keys.len()
        invariant
            i <= keys@.len(),
            weights@ == weights_spec(keys@, km, tm, previous).subrange(0, i as int),
            km == adaptive.key_map(),
            tm == adaptive.transition_map(),
        decreases keys@.len() - i,
    {
        let key = keys[i];
        let key_weight = match adaptive.key_weight(key) {
            Some(w) => w,
            None => 1,
        };
        let transition_weight = match previous {
            Some(from) => match adaptive.transition_weight(from, key) {
                Some(w) => w,
                None => 1,
            },
            None => 1,
        };
        let m = if key_weight >= transition_weight {
            key_weight
        } else {
            transition_weight
        };
        weights.push(if m <= 3 { m } else { 3 });
        i = i + 1;
        assert(weights@ =~= weights_spec(keys@, km, tm, previous).subrange(0, i as int));
    }
    let ghost ws = weights_spec(keys@, km, tm, previous);
    assert(weights@ =~= ws);
    proof {
        use_type_invariant(adaptive);
    }
    assert forall|j: int| 0 <= j < ws.len() implies 1 <= #[trigger] ws[j] <= 3 by {
        let k = keys@[j];
        if km.contains_key(k) {
            let m = choose|m: int| 0 <= m < adaptive.keys@.len() && adaptive.keys@[m].0 == k;
            lemma_entry_in_map(adaptive.keys@, m);
        }
        if let Some(f) = previous {
            if tm.contains_key((f, k)) {
                let m = choose|m: int|
                    0 <= m < adaptive.transitions@.len() && adaptive.transitions@[m].0 == (f, k);
                lemma_entry_in_map(adaptive.transitions@, m);
            }
        }
    }
    let mut total: u128 = 0;
    let mut t: usize = 0;
    while t < weights.len()
        invariant
            t <= weights@.len(),
            weights@ == ws,
            forall|j: int| 0 <= j < ws.len() ==> 1 <= #[trigger] ws[j] <= 3,
            ws.len() <= usize::MAX,
            total == weight_sum(ws.subrange(0, t as int)),
        decreases weights@.len() - t,
    {
        proof {
            lemma_weight_sum_bounds(ws.subrange(0, t as int));
            assert(ws.subrange(0, t + 1).drop_last() =~= ws.subrange(0, t as int));
        }
        total = total + weights[t] as u128;
        t = t + 1;
    }
    proof {
        assert(ws.subrange(0, t as int) =~= ws);
        lemma_weight_sum_bounds(ws);
    }
    let mut choice: u128 = (rng.next() as u128) % total;
    let ghost choice0 = choice as int;
    let mut k: usize = 0;
    while k < keys.len()
        invariant
            k <= keys@.len(),
            weights@ == ws,
            ws.len() == keys@.len(),
            keys@.len() > 0,
            select_key(keys@, ws, choice0, 0) == select_key(keys@, ws, choice as int, k as int),
            rng.0 == xorshift(old(rng).0),
            choice0 == (xorshift(old(rng).0) as int) % weight_sum(ws),
            ws == weights_spec(keys@, adaptive.key_map(), adaptive.transition_map(), previous),
        decreases keys@.len() - k,
    {
        let w = weights[k] as u128;
        if choice < w {
            return keys[k];
        }
        choice = choice - w;
        k = k + 1;
    }
    keys[0]
}

/// The number of bytes of `c` in UTF-8.
pub open spec fn utf8_width(c: char) -> int {
    if (c as u32) < 0x80 {
        1
    } else if (c as u32) < 0x800 {
        2
    } else if (c as u32) < 0x10000 {
        3
    } else {
        4
    }
}

/// The number of bytes of `s` in UTF-8.
pub open spec fn utf8_len(s: Seq<char>) -> int
    decreases s.len(),
{
    if s.len() == 0 {
        0
    } else {
        utf8_len(s.drop_last()) + utf8_width(s.last())
    }
}

/// A text takes at least one byte per character.
pub proof fn lemma_utf8_len_bounds(s: Seq<char>)
    ensures
        s.len() <= utf8_len(s) <= 4 * s.len(),
    decreases s.len(),
{
    if s.len() > 0 {
        lemma_utf8_len_bounds(s.drop_last());
    }
}

/// Draws after the first key, each after the previous key, until the walk
/// takes at least `len` bytes in UTF-8.
pub open spec fn walk_rest(
    keys: Seq<char>,
    km: Map<char, u64>,
    tm: Map<(char, char), u64>,
    out: Seq<char>,
    state: u64,
    len: int,
) -> (Seq<char>, u64)
    decreases len - out.len(),
{
    if utf8_len(out) >= len || out.len() == 0 {
        (out, state)
    } else {
        proof {
            lemma_utf8_len_bounds(out);
        }
        let (c, next) = pick_key_spec(keys, km, tm, Some(out.last()), state);
        walk_rest(keys, km, tm, out.push(c), next, len)
    }
}

/// A weighted walk of at least `len` bytes (at least one key), and the
/// generator state after it.
pub open spec fn walk_spec(
    keys: Seq<char>,
    km: Map<char, u64>,
    tm: Map<(char, char), u64>,
    len: int,
    state: u64,
) -> (Seq<char>, u64) {
    let (c, next) = pick_key_spec(keys, km, tm, None, state);
    walk_rest(keys, km, tm, seq![c], next, len)
}


/// The number of bytes of `c` in UTF-8.
fn char_width(c: char) -> (w: u128)
    ensures
        w == utf8_width(c),
{
    let u = c as u32;
    if u < 0x80 {
        1
    } else if u < 0x800 {
        2
    } else if u < 0x10000 {
        3
    } else {
        4
    }
}

/// A weighted walk over `keys`: keys are drawn until they take at least
/// `len` bytes in UTF-8 (one key when `len` is 0).
pub fn adaptive_walk(keys: &Vec<char>, len: usize, adaptive: &AdaptiveWeights, rng: &mut Rng) -> (out:
    Vec<char>)
    requires
        draw_keys_ok(keys@),
    ensures
        (out@, final(rng).0) == walk_spec(
            keys@,
            adaptive.key_map(),
            adaptive.transition_map(),
            len as int,
            old(rng).0,
        ),
{
    let ghost km = adaptive.key_map();
    let ghost tm = adaptive.transition_map();
    let mut out: Vec<char> = Vec::new();
    let first = weighted_key(keys, None, adaptive, rng);
    out.push(first);
    assert(out@ =~= seq![first]);
    assert(out@.drop_last() =~= Seq::<char>::empty());
    assert(utf8_len(Seq::<char>::empty()) == 0);
    assert(utf8_len(out@) == utf8_width(first));
    let mut bytes: u128 = char_width(first);
    while bytes < len as u128
        invariant
            draw_keys_ok(keys@),
            km == adaptive.key_map(),
            tm == adaptive.transition_map(),
            out@.len() >= 1,
            bytes == utf8_len(out@),
            out@.len() <= utf8_len(out@),
            out@.len() <= usize::MAX,
            walk_spec(keys@, km, tm, len as int, old(rng).0) == walk_rest(
                keys@,
                km,
                tm,
                out@,
                rng.0,
                len as int,
            ),
        decreases len - out@.len(),
    {
        let previous = out[out.len() - 1];
        let c = weighted_key(keys, Some(previous), adaptive, rng);
        let ghost before = out@;
        out.push(c);
        assert(out@.drop_last() =~= before);
        bytes = bytes + char_width(c);
        proof {
            lemma_utf8_len_bounds(out@);
        }
    }
    out
}


/// Extra weight for a weak key or transition: 1, plus 1 when more than 8% of
/// attempts failed, plus 1 when more than 20% failed or responses are slow.
/// The rates are `errors / max(attempts, 1)`.
pub open spec fn weakness_spec(errors: int, attempts: int, slow: bool) -> u64 {
    let a = if attempts >= 1 {
        attempts
    } else {
        1
    };
    (1 + (if 25 * errors > 2 * a {
        1int
    } else {
        0
    }) + (if 5 * errors > a || slow {
        1int
    } else {
        0
    })) as u64
}

/// The weight for `errors` failures in `attempts` attempts.
pub fn weakness_weight(errors: u64, attempts: u64, slow: bool) -> (w: u64)
    ensures
        w == weakness_spec(errors as int, attempts as int, slow),
        weight_ok(w),
{
    let a: u128 = if attempts >= 1 {
        attempts as u128
    } else {
        1
    };
    let e = errors as u128;
    let mut w: u64 = 1;
    if 25 * e > 2 * a {
        w = w + 1;
    }
    if 5 * e > a || slow {
        w = w + 1;
    }
    w
}

/// Average response above 450 ms over at least one sample.
pub open spec fn slow_spec(m: Map<Seq<char>, TimingStat>, k: Seq<char>) -> bool {
    m.contains_key(k) && m[k].samples > 0 && m[k].total_ms / m[k].samples > 450
}

/// Whether the timing stored for `k` is slow.
fn is_slow(m: &crate::strmap::StrMap<TimingStat>, k: &[char]) -> (r: bool)
    ensures
        r == slow_spec(m@, k@),
{
    match m.get_chars(k) {
        Some(t) => {
            let avg = match t.total_ms.checked_div(t.samples) {
                Some(v) => v,
                None => 0,
            };
            avg > 450
        },
        None => false,
    }
}

/// The count stored for `k`, or 0.
fn count_of(m: &crate::strmap::StrMap<u64>, k: &[char]) -> (r: u64)
    ensures
        r == count_or_zero(m@, k@),
{
    match m.get_chars(k) {
        Some(v) => *v,
        None => 0,
    }
}

/// The sum of the counts whose key has `c` as its second character.
pub open spec fn second_char_total(items: Seq<(Seq<char>, u64)>, c: char) -> int
    decreases items.len(),
{
    if items.len() == 0 {
        0
    } else {
        second_char_total(items.drop_last(), c) + (if items.last().0.len() >= 2
            && items.last().0[1] == c {
            items.last().1 as int
        } else {
            0
        })
    }
}

/// The share of one entry in `second_char_total`.
pub open spec fn second_char_share(e: (Seq<char>, u64), c: char) -> int {
    if e.0.len() >= 2 && e.0[1] == c {
        e.1 as int
    } else {
        0
    }
}

/// A list of distinct entries standing for the map `m`.
pub open spec fn listing(m: Map<Seq<char>, u64>) -> Seq<(Seq<char>, u64)> {
    choose|s: Seq<(Seq<char>, u64)>| distinct_keys(s) && entries_map(s) == m
}

/// The sum of the counts of `m` whose key has `c` as its second character.
pub open spec fn total_into(m: Map<Seq<char>, u64>, c: char) -> int {
    second_char_total(listing(m), c)
}

proof fn lemma_total_remove(s: Seq<(Seq<char>, u64)>, j: int, c: char)
    requires
        0 <= j < s.len(),
    ensures
        second_char_total(s, c) == second_char_total(s.remove(j), c) + second_char_share(s[j], c),
    decreases s.len(),
{
    if j == s.len() - 1 {
        assert(s.remove(j) =~= s.drop_last());
    } else {
        lemma_total_remove(s.drop_last(), j, c);
        let r = s.remove(j);
        assert(r.drop_last() =~= s.drop_last().remove(j));
        assert(r.last() == s.last());
    }
}

/// Pointwise larger counts over the same keys give a larger total, whatever
/// the order of the entries.
pub proof fn lemma_total_le(a: Seq<(Seq<char>, u64)>, b: Seq<(Seq<char>, u64)>, c: char)
    requires
        distinct_keys(a),
        distinct_keys(b),
        entries_map(a).dom() == entries_map(b).dom(),
        forall|k: Seq<char>| #[trigger]
            entries_map(a).contains_key(k) ==> entries_map(a)[k] <= entries_map(b)[k],
    ensures
        second_char_total(a, c) <= second_char_total(b, c),
    decreases a.len(),
{
    if a.len() == 0 {
        lemma_second_char_total_nonneg(b, c);
    } else {
        let i = a.len() - 1;
        let k = a[i].0;
        lemma_entry_in_map(a, i);
        assert(entries_map(b).contains_key(k));
        let j = choose|j: int| 0 <= j < b.len() && b[j].0 == k;
        lemma_entry_in_map(b, j);
        crate::strmap::lemma_remove_entry(a, i);
        crate::strmap::lemma_remove_entry(b, j);
        let a2 = a.remove(i);
        let b2 = b.remove(j);
        assert(a2 =~= a.drop_last());
        assert(entries_map(a2).dom() =~= entries_map(b2).dom());
        lemma_total_le(a2, b2, c);
        lemma_total_remove(b, j, c);
        assert(a.last() == a[i]);
    }
}

/// Every map of finitely many keys has a listing.
pub proof fn lemma_listing(m: Map<Seq<char>, u64>)
    requires
        m.dom().finite(),
    ensures
        distinct_keys(listing(m)),
        entries_map(listing(m)) == m,
    decreases m.dom().len(),
{
    if m.dom().len() == 0 {
        let e = Seq::<(Seq<char>, u64)>::empty();
        assert(m.dom() =~= Set::<Seq<char>>::empty()) by {
            if exists|k: Seq<char>| m.dom().contains(k) {
                let k = choose|k: Seq<char>| m.dom().contains(k);
                assert(m.dom().len() > 0);
            }
        }
        assert(entries_map(e) =~= m);
        assert(distinct_keys(e) && entries_map(e) == m);
    } else {
        let k = m.dom().choose();
        let m2 = m.remove(k);
        assert(m2.dom() =~= m.dom().remove(k));
        lemma_listing(m2);
        let s2 = listing(m2);
        lemma_push_entry(s2, k, m[k]);
        let s = s2.push((k, m[k]));
        assert(entries_map(s) =~= m);
        assert(distinct_keys(s) && entries_map(s) == m);
    }
}

/// The total over a map is the total over any list of distinct entries
/// standing for it.
pub proof fn lemma_total_into(s: Seq<(Seq<char>, u64)>, m: Map<Seq<char>, u64>, c: char)
    requires
        distinct_keys(s),
        entries_map(s) == m,
    ensures
        total_into(m, c) == second_char_total(s, c),
{
    let l = listing(m);
    assert(distinct_keys(l) && entries_map(l) == m);
    lemma_total_le(s, l, c);
    lemma_total_le(l, s, c);
}

/// The characters of the selected pairs.
pub open spec fn allowed_chars(pairs: Seq<Seq<char>>) -> Set<char> {
    Set::new(
        |c: char|
            exists|i: int, j: int| 0 <= i < pairs.len() && 0 <= j < pairs[i].len() && pairs[i][j] == c,
    )
}

/// Errors recorded for key `c`.
pub open spec fn key_errors_spec(data: AppData, c: char) -> int {
    count_or_zero(data.key_errors@, seq![c])
}

/// Attempts at key `c`: the transitions into it, at least its errors, at least 1.
pub open spec fn key_attempts_spec(data: AppData, c: char) -> int {
    let t = total_into(data.transition_counts@, c);
    let e = key_errors_spec(data, c);
    let m = if t >= e {
        t
    } else {
        e
    };
    if m >= 1 {
        m
    } else {
        1
    }
}

/// Whether key `c` is weak: it has errors or a slow response.
pub open spec fn key_weak(data: AppData, c: char) -> bool {
    key_errors_spec(data, c) > 0 || slow_spec(data.key_timings@, seq![c])
}

/// The weights of the weak keys among `allowed`.
pub open spec fn expected_keys(data: AppData, allowed: Set<char>) -> Map<char, u64> {
    Map::new(
        |c: char| allowed.contains(c) && key_weak(data, c),
        |c: char|
            weakness_spec(
                key_errors_spec(data, c),
                key_attempts_spec(data, c),
                slow_spec(data.key_timings@, seq![c]),
            ),
    )
}

/// Errors recorded for the transition `t`.
pub open spec fn transition_errors_spec(data: AppData, t: (char, char)) -> int {
    count_or_zero(data.transition_errors@, seq![t.0, t.1])
}

/// Attempts at the transition `t`: its count, or its errors when it has no count.
pub open spec fn transition_attempts_spec(data: AppData, t: (char, char)) -> int {
    if data.transition_counts@.contains_key(seq![t.0, t.1]) {
        data.transition_counts@[seq![t.0, t.1]] as int
    } else {
        transition_errors_spec(data, t)
    }
}

/// Whether the transition `t` is weak: it has errors or a slow response.
pub open spec fn transition_weak(data: AppData, t: (char, char)) -> bool {
    transition_errors_spec(data, t) > 0 || slow_spec(data.transition_timings@, seq![t.0, t.1])
}

/// The weights of the weak transitions between keys of `allowed`.
pub open spec fn expected_transitions(data: AppData, allowed: Set<char>) -> Map<(char, char), u64> {
    Map::new(
        |t: (char, char)| allowed.contains(t.0) && allowed.contains(t.1) && transition_weak(data, t),
        |t: (char, char)|
            weakness_spec(
                transition_errors_spec(data, t),
                transition_attempts_spec(data, t),
                slow_spec(data.transition_timings@, seq![t.0, t.1]),
            ),
    )
}

/// Summing the transition counts into each weak key stays within `u64`.
pub open spec fn key_attempts_fit(data: AppData, pairs: Seq<Seq<char>>) -> bool {
    forall|c: char| #[trigger]
        allowed_chars(pairs).contains(c) && key_weak(data, c) ==> total_into(data.transition_counts@, c) <= u64::MAX
}

proof fn lemma_second_char_total_nonneg(items: Seq<(Seq<char>, u64)>, c: char)
    ensures
        second_char_total(items, c) >= 0,
    decreases items.len(),
{
    if items.len() > 0 {
        lemma_second_char_total_nonneg(items.drop_last(), c);
    }
}

/// The sum of the transition counts into key `c`.
fn attempts_into(data: &AppData, c: char) -> (r: u64)
    requires
        total_into(data.transition_counts@, c) <= u64::MAX,
    ensures
        r == total_into(data.transition_counts@, c),
{
    let n = data.transition_counts.len();
    let ghost items = data.transition_counts.items();
    proof {
        data.transition_counts.lemma_view_is_items();
        lemma_total_into(items, data.transition_counts@, c);
    }
    let mut total: u64 = 0;
    let mut i: usize = 0;
    while i < n
        invariant
            n == items.len(),
            items == data.transition_counts.items(),
            i <= n,
            second_char_total(items, c) <= u64::MAX,
            total == second_char_total(items.subrange(0, i as int), c),
        decreases n - i,
    {
        let (key, count) = data.transition_counts.entry_at(i);
        let k = chars_of(key.as_str());
        proof {
            assert(items.subrange(0, i + 1).drop_last() =~= items.subrange(0, i as int));
            lemma_second_char_total_prefix(items, i + 1, c);
        }
        if k.len() >= 2 && k[1] == c {
            total = total + *count;
        }
        i = i + 1;
    }
    assert(items.subrange(0, n as int) =~= items);
    total
}

/// Whether the transition counts into key `c` sum within `u64`.
fn attempts_into_fit(data: &AppData, c: char) -> (r: bool)
    ensures
        r == (total_into(data.transition_counts@, c) <= u64::MAX),
{
    let n = data.transition_counts.len();
    let ghost items = data.transition_counts.items();
    proof {
        data.transition_counts.lemma_view_is_items();
        lemma_total_into(items, data.transition_counts@, c);
    }
    let mut total: u64 = 0;
    let mut i: usize = 0;
    while i < n
        invariant
            n == items.len(),
            items == data.transition_counts.items(),
            i <= n,
            total == second_char_total(items.subrange(0, i as int), c),
            total_into(data.transition_counts@, c) == second_char_total(items, c),
        decreases n - i,
    {
        let (key, count) = data.transition_counts.entry_at(i);
        let k = chars_of(key.as_str());
        proof {
            assert(items.subrange(0, i + 1).drop_last() =~= items.subrange(0, i as int));
            lemma_second_char_total_prefix(items, i + 1, c);
        }
        if k.len() >= 2 && k[1] == c {
            match total.checked_add(*count) {
                Some(t) => {
                    total = t;
                },
                None => {
                    return false;
                },
            }
        }
        i = i + 1;
    }
    assert(items.subrange(0, n as int) =~= items);
    true
}

/// Whether the transition counts behind every weak key of the selected
/// `pairs` sum within `u64` (what `adaptive_weights` needs).
pub fn attempts_fit(pairs: &Vec<String>, data: &AppData) -> (r: bool)
    ensures
        r == key_attempts_fit(*data, string_views(pairs@)),
{
    let ghost ps = string_views(pairs@);
    let allowed = distinct_chars(pairs);
    let mut i: usize = 0;
    while i < allowed.len()
        invariant
            i <= allowed@.len(),
            allowed@.to_set() == allowed_chars(ps),
            ps == string_views(pairs@),
            forall|j: int| #![trigger allowed@[j]]
                0 <= j < i && key_weak(*data, allowed@[j]) ==> total_into(data.transition_counts@, allowed@[j]) <= u64::MAX,
        decreases allowed@.len() - i,
    {
        let c = allowed[i];
        let key: Vec<char> = vec![c];
        assert(key@ =~= seq![c]);
        let weak = count_of(&data.key_errors, key.as_slice()) > 0 || is_slow(
            &data.key_timings,
            key.as_slice(),
        );
        assert(weak == key_weak(*data, c));
        if weak && !attempts_into_fit(data, c) {
            assert(allowed@.contains(c));
            assert(allowed@.to_set().contains(c));
            return false;
        }
        i = i + 1;
    }
    assert forall|c: char| #[trigger]
        allowed_chars(ps).contains(c) && key_weak(*data, c) implies total_into(data.transition_counts@, c) <= u64::MAX by {
        assert(allowed@.to_set().contains(c));
        let j = choose|j: int| 0 <= j < allowed@.len() && allowed@[j] == c;
    }
    true
}

proof fn lemma_second_char_total_prefix(items: Seq<(Seq<char>, u64)>, i: int, c: char)
    requires
        0 <= i <= items.len(),
    ensures
        second_char_total(items.subrange(0, i), c) <= second_char_total(items, c),
    decreases items.len(),
{
    if i < items.len() {
        lemma_second_char_total_prefix(items.drop_last(), i, c);
        assert(items.drop_last().subrange(0, i) =~= items.subrange(0, i));
        assert(items.last().1 >= 0);
    } else {
        assert(items.subrange(0, i) =~= items);
    }
}

/// The distinct characters of the selected pairs, in order of first appearance.
fn distinct_chars(pairs: &Vec<String>) -> (allowed: Vec<char>)
    ensures
        allowed@.no_duplicates(),
        allowed@.to_set() == allowed_chars(string_views(pairs@)),
{
    let ghost ps = string_views(pairs@);
    let mut allowed: Vec<char> = Vec::new();
    let mut i: usize = 0;
    while i < pairs.len()
        invariant
            i <= pairs@.len(),
            ps == string_views(pairs@),
            allowed@.no_duplicates(),
            forall|c: char| #[trigger]
                allowed@.contains(c) == allowed_chars(ps.subrange(0, i as int)).contains(c),
        decreases pairs@.len() - i,
    {
        let chars = chars_of(pairs[i].as_str());
        assert(chars@ == ps[i as int]);
        let mut j: usize = 0;
        while j < chars.len()
            invariant
                i < pairs@.len(),
                j <= chars@.len(),
                chars@ == ps[i as int],
                ps == string_views(pairs@),
                allowed@.no_duplicates(),
                forall|c: char| #[trigger]
                    allowed@.contains(c) == (allowed_chars(ps.subrange(0, i as int)).contains(c)
                        || exists|m: int| 0 <= m < j && chars@[m] == c),
            decreases chars@.len() - j,
        {
            let c = chars[j];
            let mut found = false;
            let mut k: usize = 0;
            while k < allowed.len()
                invariant
                    k <= allowed@.len(),
                    found == exists|m: int| 0 <= m < k && allowed@[m] == c,
                decreases allowed@.len() - k,
            {
                if allowed[k] == c {
                    found = true;
                }
                k = k + 1;
            }
            let ghost before = allowed@;
            if !found {
                allowed.push(c);
            }
            proof {
                assert forall|q: char| #[trigger]
                    allowed@.contains(q) == (allowed_chars(ps.subrange(0, i as int)).contains(q)
                        || exists|m: int| 0 <= m < j + 1 && chars@[m] == q) by {
                    if exists|m: int| 0 <= m < j + 1 && chars@[m] == q {
                        let m = choose|m: int| 0 <= m < j + 1 && chars@[m] == q;
                        if m < j {
                            assert(exists|m2: int| 0 <= m2 < j && chars@[m2] == q);
                        }
                    }
                    if !found {
                        if q == c {
                            assert(allowed@[before.len() as int] == q);
                        }
                        if allowed@.contains(q) && q != c {
                            let m = choose|m: int| 0 <= m < allowed@.len() && allowed@[m] == q;
                            assert(before[m] == q);
                        }
                        if before.contains(q) {
                            let m = choose|m: int| 0 <= m < before.len() && before[m] == q;
                            assert(allowed@[m] == q);
                        }
                    }
                }
            }
            j = j + 1;
        }
        proof {
            assert forall|q: char| #[trigger]
                allowed@.contains(q) == allowed_chars(ps.subrange(0, i + 1)).contains(q) by {
                let pre = ps.subrange(0, i as int);
                let post = ps.subrange(0, i + 1);
                if allowed_chars(post).contains(q) {
                    let (a, b) = choose|a: int, b: int|
                        0 <= a < post.len() && 0 <= b < post[a].len() && post[a][b] == q;
                    if a < i {
                        assert(pre[a][b] == q);
                    } else {
                        assert(chars@[b] == q);
                    }
                }
                if allowed_chars(pre).contains(q) {
                    let (a, b) = choose|a: int, b: int|
                        0 <= a < pre.len() && 0 <= b < pre[a].len() && pre[a][b] == q;
                    assert(post[a][b] == q);
                }
                if exists|m: int| 0 <= m < j && chars@[m] == q {
                    let m = choose|m: int| 0 <= m < j && chars@[m] == q;
                    assert(post[i as int][m] == q);
                }
            }
        }
        i = i + 1;
    }
    proof {
        assert(ps.subrange(0, i as int) =~= ps);
        assert(allowed@.to_set() =~= allowed_chars(ps));
    }
    allowed
}


/// Whether the nested scan over `allowed` has reached the transition `t`
/// before row `a`, column `b`.
pub open spec fn scanned(allowed: Seq<char>, a: int, b: int, t: (char, char)) -> bool {
    (exists|i: int| 0 <= i < a && allowed[i] == t.0) || (0 <= a < allowed.len() && allowed[a]
        == t.0 && exists|i: int| 0 <= i < b && allowed[i] == t.1)
}

/// Whether `c` is among the first `i` characters of `al`.
pub open spec fn seen(al: Seq<char>, i: int, c: char) -> bool {
    exists|k: int| 0 <= k < i && al[k] == c
}

/// The weight of the transition `t`.
pub open spec fn transition_weight_spec(data: AppData, t: (char, char)) -> u64 {
    weakness_spec(
        transition_errors_spec(data, t),
        transition_attempts_spec(data, t),
        slow_spec(data.transition_timings@, seq![t.0, t.1]),
    )
}

/// The weight of key `c`.
pub open spec fn key_weight_of(data: AppData, c: char) -> u64 {
    weakness_spec(
        key_errors_spec(data, c),
        key_attempts_spec(data, c),
        slow_spec(data.key_timings@, seq![c]),
    )
}

/// The weights that the statistics in `data` give the keys of `pairs` and the
/// transitions between them; no weights when `enabled` is false.
pub fn adaptive_weights(pairs: &Vec<String>, data: &AppData, enabled: bool) -> (w: AdaptiveWeights)
    requires
        enabled ==> key_attempts_fit(*data, string_views(pairs@)),
    ensures
        enabled ==> w.key_map() == expected_keys(*data, allowed_chars(string_views(pairs@))),
        enabled ==> w.transition_map() == expected_transitions(
            *data,
            allowed_chars(string_views(pairs@)),
        ),
        !enabled ==> w.key_map() == Map::<char, u64>::empty(),
        !enabled ==> w.transition_map() == Map::<(char, char), u64>::empty(),
{
    if !enabled {
        return AdaptiveWeights::none();
    }
    let ghost allowed_set = allowed_chars(string_views(pairs@));
    let allowed = distinct_chars(pairs);
    let ghost al = allowed@;
    let n = allowed.len();
    let mut transitions: Vec<((char, char), u64)> = Vec::new();
    let mut a: usize = 0;
    while a < n
        invariant
            n == al.len(),
            al == allowed@,
            al.no_duplicates(),
            a <= n,
            distinct_keys(transitions@),
            forall|i: int| 0 <= i < transitions@.len() ==> weight_ok(#[trigger] transitions@[i].1),
            entries_map(transitions@) == Map::new(
                |t: (char, char)|
                    scanned(al, a as int, 0, t) && al.contains(t.1) && transition_weak(*data, t),
                |t: (char, char)| transition_weight_spec(*data, t),
            ),
        decreases n - a,
    {
        let from = allowed[a];
        let mut b: usize = 0;
        assert forall|t: (char, char)| scanned(al, a as int, 0, t) == scanned(
            al,
            a as int,
            b as int,
            t,
        ) by {}
        while b < n
            invariant
                n == al.len(),
                al == allowed@,
                al.no_duplicates(),
                a < n,
                b <= n,
                from == al[a as int],
                distinct_keys(transitions@),
                forall|i: int|
                    0 <= i < transitions@.len() ==> weight_ok(#[trigger] transitions@[i].1),
                entries_map(transitions@) == Map::new(
                    |t: (char, char)|
                        scanned(al, a as int, b as int, t) && al.contains(t.1) && transition_weak(
                            *data,
                            t,
                        ),
                    |t: (char, char)| transition_weight_spec(*data, t),
                ),
            decreases n - b,
        {
            let to = allowed[b];
            let key = vec![from, to];
            assert(key@ =~= seq![from, to]);
            let errors = count_of(&data.transition_errors, key.as_slice());
            let attempts = match data.transition_counts.get_chars(key.as_slice()) {
                Some(v) => *v,
                None => errors,
            };
            let slow = is_slow(&data.transition_timings, key.as_slice());
            let ghost before = transitions@;
            let ghost t = (from, to);
            proof {
                assert(!scanned(al, a as int, b as int, t)) by {
                    if exists|i: int| 0 <= i < a && al[i] == t.0 {
                        let i = choose|i: int| 0 <= i < a && al[i] == t.0;
                        assert(al[i] == al[a as int]);
                    }
                    if exists|i: int| 0 <= i < b && al[i] == t.1 {
                        let i = choose|i: int| 0 <= i < b && al[i] == t.1;
                        assert(al[i] == al[b as int]);
                    }
                }
                assert(al.contains(to));
            }
            if errors > 0 || slow {
                let w = weakness_weight(errors, attempts, slow);
                proof {
                    lemma_push_entry(before, t, w);
                }
                transitions.push(((from, to), w));
            }
            proof {
                assert forall|q: (char, char)| #[trigger]
                    scanned(al, a as int, b + 1, q) == (scanned(al, a as int, b as int, q) || q
                        == t) by {
                    if scanned(al, a as int, b + 1, q) && !scanned(al, a as int, b as int, q) {
                        let i = choose|i: int| 0 <= i < b + 1 && al[i] == q.1;
                        assert(i == b);
                    }
                    if q == t {
                        assert(al[b as int] == q.1);
                    }
                    if scanned(al, a as int, b as int, q) && (exists|i: int|
                        0 <= i < b && al[i] == q.1) {
                        let i = choose|i: int| 0 <= i < b && al[i] == q.1;
                        assert(0 <= i < b + 1 && al[i] == q.1);
                    }
                }
                assert(entries_map(transitions@) =~= Map::new(
                    |q: (char, char)|
                        scanned(al, a as int, b + 1, q) && al.contains(q.1) && transition_weak(
                            *data,
                            q,
                        ),
                    |q: (char, char)| transition_weight_spec(*data, q),
                ));
            }
            b = b + 1;
        }
        proof {
            assert forall|q: (char, char)|
                al.contains(q.1) implies #[trigger] scanned(al, a as int, n as int, q) == scanned(
                    al,
                    a + 1,
                    0,
                    q,
                ) by {
                if scanned(al, a + 1, 0, q) {
                    let i = choose|i: int| 0 <= i < a + 1 && al[i] == q.0;
                    if i == a {
                        let k = choose|k: int| 0 <= k < al.len() && al[k] == q.1;
                        assert(0 <= k < n && al[k] == q.1);
                    }
                }
                if scanned(al, a as int, n as int, q) {
                    if exists|i: int| 0 <= i < a && al[i] == q.0 {
                        let i = choose|i: int| 0 <= i < a && al[i] == q.0;
                        assert(0 <= i < a + 1 && al[i] == q.0);
                    } else {
                        assert(0 <= a < a + 1 && al[a as int] == q.0);
                    }
                }
            }
            assert(entries_map(transitions@) =~= Map::new(
                |q: (char, char)|
                    scanned(al, a + 1, 0, q) && al.contains(q.1) && transition_weak(*data, q),
                |q: (char, char)| transition_weight_spec(*data, q),
            ));
        }
        a = a + 1;
    }
    proof {
        assert forall|q: (char, char)|
            (#[trigger] scanned(al, n as int, 0, q) && al.contains(q.1)) == (allowed_set.contains(
                q.0,
            ) && allowed_set.contains(q.1)) by {
            assert(al.to_set().contains(q.0) == al.contains(q.0));
            assert(al.to_set().contains(q.1) == al.contains(q.1));
            if al.contains(q.0) {
                let i = choose|i: int| 0 <= i < al.len() && al[i] == q.0;
                assert(0 <= i < n && al[i] == q.0);
            }
        }
        assert(entries_map(transitions@) =~= expected_transitions(*data, allowed_set));
    }
    let mut keys: Vec<(char, u64)> = Vec::new();
    let mut i: usize = 0;
    while i < n
        invariant
            n == al.len(),
            al == allowed@,
            al.no_duplicates(),
            al.to_set() == allowed_set,
            allowed_set == allowed_chars(string_views(pairs@)),
            key_attempts_fit(*data, string_views(pairs@)),
            i <= n,
            distinct_keys(keys@),
            forall|k: int| 0 <= k < keys@.len() ==> weight_ok(#[trigger] keys@[k].1),
            entries_map(keys@) == Map::new(
                |c: char| seen(al, i as int, c) && key_weak(*data, c),
                |c: char| key_weight_of(*data, c),
            ),
        decreases n - i,
    {
        let key = allowed[i];
        let name = vec![key];
        assert(name@ =~= seq![key]);
        let errors = count_of(&data.key_errors, name.as_slice());
        let slow = is_slow(&data.key_timings, name.as_slice());
        let ghost before = keys@;
        proof {
            assert(!seen(al, i as int, key)) by {
                if exists|k: int| 0 <= k < i && al[k] == key {
                    let k = choose|k: int| 0 <= k < i && al[k] == key;
                    assert(al[k] == al[i as int]);
                }
            }
            assert(al.to_set().contains(key));
        }
        if errors > 0 || slow {
            let into = attempts_into(data, key);
            let m = if into >= errors {
                into
            } else {
                errors
            };
            let attempts = if m >= 1 {
                m
            } else {
                1
            };
            let w = weakness_weight(errors, attempts, slow);
            proof {
                lemma_push_entry(before, key, w);
                assert(weakness_spec(errors as int, attempts as int, slow) == key_weight_of(
                    *data,
                    key,
                ));
            }
            keys.push((key, w));
        }
        proof {
            assert(entries_map(keys@) =~= Map::new(
                |c: char| seen(al, i + 1, c) && key_weak(*data, c),
                |c: char| key_weight_of(*data, c),
            )) by {
                assert forall|c: char| #[trigger]
                    seen(al, i + 1, c) == (seen(al, i as int, c) || c == key) by {
                    if c == key {
                        assert(al[i as int] == c);
                    }
                    if exists|k: int| 0 <= k < i && al[k] == c {
                        let k = choose|k: int| 0 <= k < i && al[k] == c;
                        assert(0 <= k < i + 1 && al[k] == c);
                    }
                }
            }
        }
        i = i + 1;
    }
    proof {
        assert forall|c: char| #[trigger] seen(al, n as int, c) == allowed_set.contains(c) by {
            assert(al.to_set().contains(c) == al.contains(c));
        }
        assert(entries_map(keys@) =~= expected_keys(*data, allowed_set));
    }
    AdaptiveWeights { keys, transitions }
}


/// Law: extra weight is bounded: every weight is 1, 2 or 3.
pub proof fn lemma_weakness_bounded(errors: int, attempts: int, slow: bool)
    ensures
        weight_ok(weakness_spec(errors, attempts, slow)),
{
}

/// Law: weight falls as practice succeeds: with the same errors, more
/// attempts never give more weight, and more errors over the same attempts
/// never give less.
pub proof fn lemma_weakness_monotone(e1: int, e2: int, a1: int, a2: int, slow: bool)
    requires
        0 <= e1 <= e2,
        0 <= a2 <= a1,
    ensures
        weakness_spec(e1, a1, slow) <= weakness_spec(e2, a2, slow),
{
}


/// Law (weights fall as practice succeeds, over whole statistics): two sets
/// of statistics with the same errors and response times, whose transition
/// counts cover the same transitions with every count of the second at least
/// that of the first, give the same weak keys and transitions, and none of
/// them a greater weight in the second.
pub proof fn lemma_weights_fall_with_attempts(d1: AppData, d2: AppData, allowed: Set<char>)
    requires
        d1.key_errors@ == d2.key_errors@,
        d1.transition_errors@ == d2.transition_errors@,
        d1.key_timings@ == d2.key_timings@,
        d1.transition_timings@ == d2.transition_timings@,
        d1.transition_counts@.dom() == d2.transition_counts@.dom(),
        forall|t: Seq<char>| #[trigger]
            d1.transition_counts@.contains_key(t) ==> d1.transition_counts@[t] <= d2.transition_counts@[t],
    ensures
        expected_keys(d2, allowed).dom() == expected_keys(d1, allowed).dom(),
        forall|c: char| #[trigger]
            expected_keys(d1, allowed).contains_key(c) ==> expected_keys(d2, allowed)[c]
                <= expected_keys(d1, allowed)[c],
        expected_transitions(d2, allowed).dom() == expected_transitions(d1, allowed).dom(),
        forall|t: (char, char)| #[trigger]
            expected_transitions(d1, allowed).contains_key(t) ==> expected_transitions(d2, allowed)[t]
                <= expected_transitions(d1, allowed)[t],
{
    let v1 = d1.transition_counts@;
    let v2 = d2.transition_counts@;
    d1.transition_counts.lemma_view_finite();
    d2.transition_counts.lemma_view_finite();
    lemma_listing(v1);
    lemma_listing(v2);
    assert(expected_keys(d2, allowed).dom() =~= expected_keys(d1, allowed).dom());
    assert(expected_transitions(d2, allowed).dom() =~= expected_transitions(d1, allowed).dom());
    assert forall|c: char| #[trigger] expected_keys(d1, allowed).contains_key(c) implies expected_keys(
        d2,
        allowed,
    )[c] <= expected_keys(d1, allowed)[c] by {
        lemma_total_le(listing(v1), listing(v2), c);
        assert(key_attempts_spec(d2, c) >= key_attempts_spec(d1, c));
        let e = key_errors_spec(d1, c);
        let slow = slow_spec(d1.key_timings@, seq![c]);
        lemma_weakness_monotone(e, e, key_attempts_spec(d2, c), key_attempts_spec(d1, c), slow);
    }
    assert forall|t: (char, char)| #[trigger] expected_transitions(d1, allowed).contains_key(
        t,
    ) implies expected_transitions(d2, allowed)[t] <= expected_transitions(d1, allowed)[t] by {
        assert(transition_attempts_spec(d2, t) >= transition_attempts_spec(d1, t));
        let e = transition_errors_spec(d1, t);
        let slow = slow_spec(d1.transition_timings@, seq![t.0, t.1]);
        lemma_weakness_monotone(
            e,
            e,
            transition_attempts_spec(d2, t),
            transition_attempts_spec(d1, t),
            slow,
        );
    }
}

/// Average above 450 ms in whole milliseconds: `total / samples > 450`
/// exactly when `total >= 451 * samples`.
proof fn lemma_average_above(total: u64, samples: u64)
    requires
        samples > 0,
    ensures
        (total / samples > 450) <==> (total >= 451 * samples),
{
    let q = total / samples;
    vstd::arithmetic::div_mod::lemma_fundamental_div_mod(total as int, samples as int);
    vstd::arithmetic::div_mod::lemma_mod_bound(total as int, samples as int);
    let r = total % samples;
    if q > 450 {
        assert(q * samples >= 451 * samples) by (nonlinear_arith)
            requires
                q >= 451,
                samples > 0,
        ;
    } else {
        assert(q * samples <= 450 * samples) by (nonlinear_arith)
            requires
                0 <= q <= 450,
                samples > 0,
        ;
    }
}

/// Law (slow means a slow average): a key of the selection with no errors
/// gets extra weight exactly when its average response time (total time over
/// samples) is above 450 ms, that is when its total is at least 451 ms per
/// sample; a key whose average is 450 ms or less (or that has no timing)
/// gets none. A key with a slow average weighs at least 2, whatever its
/// errors.
pub proof fn lemma_key_slow_by_average(data: AppData, allowed: Set<char>, c: char)
    requires
        allowed.contains(c),
    ensures
        count_or_zero(data.key_errors@, seq![c]) == 0 ==> (expected_keys(data, allowed).contains_key(c)
            <==> (data.key_timings@.contains_key(seq![c]) && data.key_timings@[seq![c]].samples > 0
            && data.key_timings@[seq![c]].total_ms >= 451 * data.key_timings@[seq![c]].samples)),
        data.key_timings@.contains_key(seq![c]) && data.key_timings@[seq![c]].samples > 0
            && data.key_timings@[seq![c]].total_ms >= 451 * data.key_timings@[seq![c]].samples
            ==> expected_keys(data, allowed).contains_key(c) && expected_keys(data, allowed)[c] >= 2,
{
    if data.key_timings@.contains_key(seq![c]) && data.key_timings@[seq![c]].samples > 0 {
        let t = data.key_timings@[seq![c]];
        lemma_average_above(t.total_ms, t.samples);
    }
}

/// Law (slow means a slow average, for transitions): a transition between
/// keys of the selection with no errors gets extra weight exactly when its
/// average response time is above 450 ms (a total of at least 451 ms per
/// sample); a slow transition weighs at least 2.
pub proof fn lemma_transition_slow_by_average(data: AppData, allowed: Set<char>, t: (char, char))
    requires
        allowed.contains(t.0),
        allowed.contains(t.1),
    ensures
        count_or_zero(data.transition_errors@, seq![t.0, t.1]) == 0 ==> (expected_transitions(
            data,
            allowed,
        ).contains_key(t) <==> (data.transition_timings@.contains_key(seq![t.0, t.1])
            && data.transition_timings@[seq![t.0, t.1]].samples > 0
            && data.transition_timings@[seq![t.0, t.1]].total_ms >= 451
            * data.transition_timings@[seq![t.0, t.1]].samples)),
        data.transition_timings@.contains_key(seq![t.0, t.1])
            && data.transition_timings@[seq![t.0, t.1]].samples > 0
            && data.transition_timings@[seq![t.0, t.1]].total_ms >= 451
            * data.transition_timings@[seq![t.0, t.1]].samples ==> expected_transitions(
            data,
            allowed,
        ).contains_key(t) && expected_transitions(data, allowed)[t] >= 2,
{
    let k = seq![t.0, t.1];
    if data.transition_timings@.contains_key(k) && data.transition_timings@[k].samples > 0 {
        let st = data.transition_timings@[k];
        lemma_average_above(st.total_ms, st.samples);
    }
}

} // verus!
