use vstd::prelude::*;

verus! {

/// One step of the xorshift64 generator (shifts 13, 7, 17).
pub open spec fn xorshift(x: u64) -> u64 {
    let a = x ^ (x << 13u64);
    let b = a ^ (a >> 7u64);
    b ^ (b << 17u64)
}

/// `start + next % (end - start)`, where `next` is the word produced from `state`.
pub open spec fn pick_in_range(state: u64, start: usize, end: usize) -> int {
    start + ((xorshift(state) as usize) as int) % ((end - start) as int)
}

/// `s` with the elements at `i` and `j` exchanged.
pub open spec fn swapped<T>(s: Seq<T>, i: int, j: int) -> Seq<T> {
    s.update(i, s[j]).update(j, s[i])
}

/// The Fisher-Yates passes for positions `hi`, `hi - 1`, ..., `1`: each draws
/// `j` in `0..=pos` and exchanges positions `pos` and `j`.  Returns the
/// sequence and the generator state after the passes.
pub open spec fn shuffle_passes(s: Seq<usize>, state: u64, hi: int) -> (Seq<usize>, u64)
    decreases hi,
{
    if hi <= 0 {
        (s, state)
    } else {
        let j = pick_in_range(state, 0, (hi + 1) as usize);
        shuffle_passes(swapped(s, hi, j), xorshift(state), hi - 1)
    }
}

/// The whole shuffle of `s` driven by the generator state `state`.
pub open spec fn shuffle_spec(s: Seq<usize>, state: u64) -> (Seq<usize>, u64) {
    shuffle_passes(s, state, s.len() - 1)
}

/// Exchanging two positions keeps the multiset of elements.
pub proof fn lemma_swap_keeps_multiset<T>(s: Seq<T>, i: int, j: int)
    requires
        0 <= i < s.len(),
        0 <= j < s.len(),
    ensures
        swapped(s, i, j).to_multiset() == s.to_multiset(),
{
    broadcast use vstd::seq_lib::group_to_multiset_ensures;
    let t1 = s.update(i, s[j]);
    assert(t1.remove(i) =~= s.remove(i));
    assert(t1[i] == s[j]);
    assert(t1.to_multiset() =~= s.to_multiset().remove(s[i]).insert(s[j])) by {
        assert(t1.remove(i).to_multiset() =~= t1.to_multiset().remove(t1[i]));
        assert(s.remove(i).to_multiset() =~= s.to_multiset().remove(s[i]));
        assert(t1.to_multiset().count(s[j]) > 0);
    }
    let t2 = t1.update(j, s[i]);
    assert(t2.remove(j) =~= t1.remove(j));
    assert(t2.to_multiset() =~= t1.to_multiset().remove(t1[j]).insert(s[i])) by {
        assert(t2.remove(j).to_multiset() =~= t2.to_multiset().remove(t2[j]));
        assert(t1.remove(j).to_multiset() =~= t1.to_multiset().remove(t1[j]));
        assert(t2.to_multiset().count(s[i]) > 0);
        assert(t1.to_multiset().count(t1[j]) > 0);
    }
    assert(s.to_multiset().count(s[i]) > 0);
    assert(t2 == swapped(s, i, j));
}

/// Law: a shuffle only reorders; the multiset of elements and the length stay.
pub proof fn lemma_shuffle_is_permutation(s: Seq<usize>, state: u64, hi: int)
    requires
        hi < s.len(),
        s.len() <= usize::MAX,
    ensures
        shuffle_passes(s, state, hi).0.to_multiset() == s.to_multiset(),
        shuffle_passes(s, state, hi).0.len() == s.len(),
    decreases hi,
{
    if hi > 0 {
        let j = pick_in_range(state, 0, (hi + 1) as usize);
        lemma_swap_keeps_multiset(s, hi, j);
        lemma_shuffle_is_permutation(swapped(s, hi, j), xorshift(state), hi - 1);
    }
}

/// A small xorshift64 pseudo-random generator; equal seeds give equal streams.
pub struct Rng(pub u64);

impl Rng {
    /// A generator seeded with `seed`, or with 1 when `seed` is 0.
    pub fn new(seed: u64) -> (r: Self)
        ensures
            r.0 == (if seed == 0 { 1 } else { seed }),
    {
        Rng(if seed < 1 { 1 } else { seed })
    }

    /// Advances the state and returns it.
    pub fn next(&mut self) -> (x: u64)
        ensures
            x == xorshift(old(self).0),
            final(self).0 == x,
    {
        let mut x = self.0;
        x = x ^ (x << 13u64);
        x = x ^ (x >> 7u64);
        x = x ^ (x << 17u64);
        self.0 = x;
        x
    }

    /// A value in `start..end` taken from the next word.
    pub fn range(&mut self, start: usize, end: usize) -> (r: usize)
        requires
            start < end,
        ensures
            r == pick_in_range(old(self).0, start, end),
            start <= r < end,
            final(self).0 == xorshift(old(self).0),
    {
        let x = self.next();
        start + (x as usize) % (end - start)
    }

    /// Fisher-Yates shuffle of `values`.
    pub fn shuffle(&mut self, values: &mut Vec<usize>)
        ensures
            (final(values)@, final(self).0) == shuffle_spec(old(values)@, old(self).0),
            final(values)@.to_multiset() == old(values)@.to_multiset(),
            final(values)@.len() == old(values)@.len(),
    {
        let mut i: usize = values.len();
        proof {
            lemma_shuffle_is_permutation(values@, self.0, values@.len() - 1);
        }
        let ghost target = shuffle_spec(values@, self.0);
        while i > 1
            invariant
                1 <= i || values@.len() == 0,
                i <= values@.len(),
                values@.len() == old(values)@.len(),
                shuffle_passes(values@, self.0, i - 1) == target,
            decreases i,
        {
            i = i - 1;
            let ghost prev = values@;
            let ghost st = self.0;
            let j = self.range(0, i + 1);
            let a = values[i];
            let b = values[j];
            values.set(i, b);
            values.set(j, a);
            assert(values@ =~= swapped(prev, i as int, j as int));
            assert(shuffle_passes(prev, st, i as int) == shuffle_passes(values@, self.0, i - 1));
        }
        proof {
            if values@.len() > 0 {
                assert(shuffle_passes(values@, self.0, 0) == (values@, self.0));
            }
        }
    }
}

} // verus!
