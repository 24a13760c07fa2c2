use vstd::prelude::*;

verus! {

/// Groups joined by single spaces.
pub open spec fn join_spaced(groups: Seq<Seq<char>>) -> Seq<char>
    decreases groups.len(),
{
    if groups.len() == 0 {
        Seq::empty()
    } else if groups.len() == 1 {
        groups[0]
    } else {
        join_spaced(groups.drop_last()) + seq![' '] + groups.last()
    }
}

/// The views of a sequence of character vectors.
pub open spec fn char_views(v: Seq<Vec<char>>) -> Seq<Seq<char>> {
    v.map_values(|g: Vec<char>| g@)
}

/// The views of a sequence of strings.
pub open spec fn string_views(v: Seq<String>) -> Seq<Seq<char>> {
    v.map_values(|s: String| s@)
}

/// The characters of `s`, in order.
pub fn chars_of(s: &str) -> (r: Vec<char>)
    ensures
        r@ == s@,
{
    let n = s.unicode_len();
    let mut r: Vec<char> = Vec::new();
    let mut i: usize = 0;
    while i < n
        invariant
            n == s@.len(),
            i <= n,
            r@ == s@.subrange(0, i as int),
        decreases n - i,
    {
        let c = s.get_char(i);
        r.push(c);
        i = i + 1;
        assert(r@ =~= s@.subrange(0, i as int));
    }
    assert(r@ =~= s@);
    r
}

/// Builds a `String` from characters (std's `FromIterator<&char> for String`).
#[verifier::external_body]
pub fn string_of(chars: &[char]) -> (s: String)
    ensures
        s@ == chars@,
{
    chars.iter().collect()
}

/// Whether the characters of `s` are exactly `k`.
pub fn str_is(s: &str, k: &[char]) -> (r: bool)
    ensures
        r == (s@ == k@),
{
    let n = s.unicode_len();
    if n != k.len() {
        return false;
    }
    let mut i: usize = 0;
    while i < n
        invariant
            n == s@.len(),
            n == k@.len(),
            i <= n,
            forall|j: int| 0 <= j < i ==> s@[j] == k@[j],
        decreases n - i,
    {
        if s.get_char(i) != k[i] {
            return false;
        }
        i = i + 1;
    }
    assert(s@ =~= k@);
    true
}

/// Whether two character vectors hold the same characters.
pub fn same_chars(a: &Vec<char>, b: &Vec<char>) -> (r: bool)
    ensures
        r == (a@ == b@),
{
    if a.len() != b.len() {
        return false;
    }
    let mut i: usize = 0;
    while i < a.len()
        invariant
            a@.len() == b@.len(),
            i <= a@.len(),
            forall|j: int| 0 <= j < i ==> a@[j] == b@[j],
        decreases a@.len() - i,
    {
        if a[i] != b[i] {
            return false;
        }
        i = i + 1;
    }
    assert(a@ =~= b@);
    true
}

/// Joins groups of characters with single spaces.
pub fn join_groups(groups: &Vec<Vec<char>>) -> (r: Vec<char>)
    ensures
        r@ == join_spaced(char_views(groups@)),
{
    let mut r: Vec<char> = Vec::new();
    let mut g: usize = 0;
    while g < groups.len()
        invariant
            g <= groups@.len(),
            r@ == join_spaced(char_views(groups@.subrange(0, g as int))),
        decreases groups@.len() - g,
    {
        let ghost before = r@;
        if g > 0 {
            r.push(' ');
        }
        let group = &groups[g];
        let mut i: usize = 0;
        let ghost base = r@;
        while i < group.len()
            invariant
                i <= group@.len(),
                r@ == base + group@.subrange(0, i as int),
            decreases group@.len() - i,
        {
            r.push(group[i]);
            i = i + 1;
            assert(r@ =~= base + group@.subrange(0, i as int));
        }
        proof {
            let views = char_views(groups@.subrange(0, g + 1));
            assert(views.drop_last() =~= char_views(groups@.subrange(0, g as int)));
            assert(views.last() == group@);
            assert(group@.subrange(0, i as int) =~= group@);
            if g == 0 {
                assert(r@ =~= join_spaced(views));
            } else {
                assert(r@ =~= join_spaced(views));
            }
        }
        g = g + 1;
    }
    assert(groups@.subrange(0, g as int) =~= groups@);
    r
}

} // verus!
