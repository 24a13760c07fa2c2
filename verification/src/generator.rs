use vstd::prelude::*;
use crate::adaptive::{
    adaptive_weights, allowed_chars, attempts_fit, expected_keys, expected_transitions,
    key_attempts_fit, weak_spec,
};
use crate::coverage::{schedule_spec, transition_schedule};
use crate::model::{AppData, GenerateRequest, SessionPlan};
use crate::patterns::KeyPair;
use crate::plan::{section_name_spec, section_views, sections_upto, LinePlan, PlanSpec};
use crate::rng::Rng;
use crate::template::{
    allocation_spec, choose_spec, lemma_allocation_ok, lemma_count_at_most_sum, section_counts,
    section_counts_spec, Template,
};
use crate::text::{chars_of, string_views};

verus! {

/// The key pairs of the layout, in teaching order: home row, top row, bottom row.
pub open spec fn known_pairs() -> Seq<KeyPair> {
    seq![
        ('f', 'j'), ('d', 'k'), ('s', 'l'), ('a', ';'), ('g', 'h'),
        ('r', 'u'), ('e', 'i'), ('w', 'o'), ('q', 'y'), ('t', 'p'),
        ('v', 'm'), ('c', ','), ('x', '.'), ('z', '/'), ('b', 'n'),
    ]
}

/// Whether `s` spells one of the layout's key pairs.
pub open spec fn is_known_pair(s: Seq<char>) -> bool {
    s.len() == 2 && known_pairs().contains((s[0], s[1]))
}

/// The key pairs of the layout.
pub fn known_pair_table() -> (t: Vec<KeyPair>)
    ensures
        t@ == known_pairs(),
{
    let t = vec![
        ('f', 'j'), ('d', 'k'), ('s', 'l'), ('a', ';'), ('g', 'h'),
        ('r', 'u'), ('e', 'i'), ('w', 'o'), ('q', 'y'), ('t', 'p'),
        ('v', 'm'), ('c', ','), ('x', '.'), ('z', '/'), ('b', 'n'),
    ];
    assert(t@ =~= known_pairs());
    t
}

/// Whether `s` spells one of the layout's key pairs.
pub fn known_pair(s: &str) -> (r: bool)
    ensures
        r == is_known_pair(s@),
{
    let c = chars_of(s);
    if c.len() != 2 {
        return false;
    }
    let table = known_pair_table();
    let mut i: usize = 0;
    while i < table.len()
        invariant
            i <= table@.len(),
            table@ == known_pairs(),
            c@ == s@,
            c@.len() == 2,
            forall|j: int| 0 <= j < i ==> table@[j] != (c@[0], c@[1]),
        decreases table@.len() - i,
    {
        if table[i].0 == c[0] && table[i].1 == c[1] {
            return true;
        }
        i = i + 1;
    }
    false
}

/// A text of ASCII characters only.
pub open spec fn ascii_text(s: Seq<char>) -> bool {
    forall|i: int| 0 <= i < s.len() ==> (#[trigger] s[i] as u32) < 0x80
}

/// What std's `str::to_lowercase` gives for `s` (Unicode lower case).
pub uninterp spec fn lowercase(s: Seq<char>) -> Seq<char>;

/// std's `str::to_lowercase`; the result is named `lowercase`. Stated as well:
/// a text of ASCII characters maps to its ASCII lower case.
#[verifier::external_body]
fn to_lowercase(s: &str) -> (r: String)
    ensures
        r@ == lowercase(s@),
        ascii_text(s@) ==> r@ == crate::auth::ascii_lowercase(s@),
{
    s.to_lowercase()
}

/// Whether `s` holds exactly the text `w`.
pub fn is_word(s: &String, w: &str) -> (r: bool)
    ensures
        r == (s@ == w@),
{
    *s == String::from_str(w)
}

/// The first position of a text that is not a known pair, if any.
pub open spec fn first_unknown(s: Seq<Seq<char>>) -> Option<int>
    decreases s.len(),
{
    if s.len() == 0 {
        None
    } else {
        match first_unknown(s.drop_last()) {
            Some(i) => Some(i),
            None => if is_known_pair(s.last()) {
                None
            } else {
                Some(s.len() - 1)
            },
        }
    }
}

/// `s` without repeats, each kept at its first occurrence.
pub open spec fn first_occurrences(s: Seq<Seq<char>>) -> Seq<Seq<char>>
    decreases s.len(),
{
    if s.len() == 0 {
        Seq::empty()
    } else {
        let d = first_occurrences(s.drop_last());
        if d.contains(s.last()) {
            d
        } else {
            d.push(s.last())
        }
    }
}

/// The outcome of validating a request whose pair texts are `raws`, lowercased
/// to `lowered`, for practice mode `mode`.
pub open spec fn selection_spec(raws: Seq<Seq<char>>, lowered: Seq<Seq<char>>, mode: Seq<char>) -> Result<
    Seq<Seq<char>>,
    Seq<char>,
> {
    if raws.len() == 0 {
        Err("Select at least one key pair"@)
    } else {
        match first_unknown(lowered) {
            Some(i) => Err("Unknown key pair: "@ + raws[i]),
            None => {
                let pairs = first_occurrences(lowered);
                if mode == "standalone"@ && pairs.len() != 1 {
                    Err("Standalone practice requires exactly one pair"@)
                } else if mode != "standalone"@ && mode != "mixed"@ {
                    Err("Unknown practice mode"@)
                } else {
                    Ok(pairs)
                }
            },
        }
    }
}

/// Whether a returned list of texts or error matches the expected outcome.
pub open spec fn outcome_matches(r: Result<Vec<String>, String>, e: Result<Seq<Seq<char>>, Seq<char>>) -> bool {
    match r {
        Ok(v) => e == Ok::<Seq<Seq<char>>, Seq<char>>(string_views(v@)),
        Err(m) => e == Err::<Seq<Seq<char>>, Seq<char>>(m@),
    }
}

proof fn lemma_first_unknown_prefix(s: Seq<Seq<char>>, i: int)
    requires
        0 <= i < s.len(),
        first_unknown(s.subrange(0, i)) is None,
    ensures
        first_unknown(s.subrange(0, i + 1)) == (if is_known_pair(s[i]) {
            None
        } else {
            Some(i)
        }),
{
    assert(s.subrange(0, i + 1).drop_last() =~= s.subrange(0, i));
}

proof fn lemma_first_unknown_extends(s: Seq<Seq<char>>, i: int, k: int)
    requires
        0 <= i <= k <= s.len(),
        first_unknown(s.subrange(0, i)) is Some,
    ensures
        first_unknown(s.subrange(0, k)) == first_unknown(s.subrange(0, i)),
    decreases k - i,
{
    if k > i {
        lemma_first_unknown_extends(s, i, k - 1);
        assert(s.subrange(0, k).drop_last() =~= s.subrange(0, k - 1));
    }
}

/// Checks the lowercased pair texts `lowered` of `raws` and the mode: the
/// distinct known pairs in order of first mention, or the first problem found.
pub fn select_pairs(raws: &Vec<String>, lowered: Vec<String>, mode: &String) -> (r: Result<
    Vec<String>,
    String,
>)
    requires
        raws@.len() == lowered@.len(),
    ensures
        outcome_matches(r, selection_spec(string_views(raws@), string_views(lowered@), mode@)),
{
    let ghost rs = string_views(raws@);
    let ghost ls = string_views(lowered@);
    if raws.len() == 0 {
        return Err(String::from_str("Select at least one key pair"));
    }
    let mut pairs: Vec<String> = Vec::new();
    let mut i: usize = 0;
    while i < lowered.len()
        invariant
            i <= lowered@.len(),
            raws@.len() == lowered@.len(),
            rs == string_views(raws@),
            ls == string_views(lowered@),
            first_unknown(ls.subrange(0, i as int)) is None,
            string_views(pairs@) == first_occurrences(ls.subrange(0, i as int)),
        decreases lowered@.len() - i,
    {
        let pair = &lowered[i];
        proof {
            lemma_first_unknown_prefix(ls, i as int);
            assert(ls.subrange(0, i + 1).drop_last() =~= ls.subrange(0, i as int));
            assert(ls.subrange(0, i + 1).last() == pair@);
        }
        if !known_pair(pair.as_str()) {
            proof {
                lemma_first_unknown_extends(ls, i + 1, ls.len() as int);
                assert(ls.subrange(0, ls.len() as int) =~= ls);
            }
            let message = String::from_str("Unknown key pair: ");
            return Err(message.concat(raws[i].as_str()));
        }
        let mut seen = false;
        let mut k: usize = 0;
        while k < pairs.len()
            invariant
                k <= pairs@.len(),
                seen == exists|m: int| 0 <= m < k && pairs@[m]@ == pair@,
            decreases pairs@.len() - k,
        {
            if pairs[k] == *pair {
                seen = true;
            }
            k = k + 1;
        }
        proof {
            let d = string_views(pairs@);
            assert(seen == d.contains(pair@)) by {
                if seen {
                    let m = choose|m: int| 0 <= m < k && pairs@[m]@ == pair@;
                    assert(d[m] == pair@);
                }
                if d.contains(pair@) {
                    let m = choose|m: int| 0 <= m < d.len() && d[m] == pair@;
                    assert(pairs@[m]@ == pair@);
                }
            }
        }
        if !seen {
            let ghost before = pairs@;
            pairs.push(pair.clone());
            assert(string_views(pairs@) =~= string_views(before).push(pair@));
        }
        i = i + 1;
    }
    assert(ls.subrange(0, i as int) =~= ls);
    if is_word(mode, "standalone") && pairs.len() != 1 {
        return Err(String::from_str("Standalone practice requires exactly one pair"));
    }
    if !is_word(mode, "standalone") && !is_word(mode, "mixed") {
        return Err(String::from_str("Unknown practice mode"));
    }
    Ok(pairs)
}

/// The lowercase forms of the pair texts of a request.
pub open spec fn lowered_pairs(raws: Seq<Seq<char>>) -> Seq<Seq<char>> {
    raws.map_values(|s: Seq<char>| lowercase(s))
}

/// Validates a request: the distinct selected pairs (lowercased, in order of
/// first mention), or the first problem found.
pub fn validate(req: &GenerateRequest) -> (r: Result<Vec<String>, String>)
    ensures
        outcome_matches(
            r,
            selection_spec(
                string_views(req.pairs@),
                lowered_pairs(string_views(req.pairs@)),
                req.mode@,
            ),
        ),
        forall|i: int|
            0 <= i < req.pairs@.len() && ascii_text(#[trigger] req.pairs@[i]@) ==> lowercase(
                req.pairs@[i]@,
            ) == crate::auth::ascii_lowercase(req.pairs@[i]@),
{
    let mut lowered: Vec<String> = Vec::new();
    let mut i: usize = 0;
    while i < req.pairs.len()
        invariant
            i <= req.pairs@.len(),
            string_views(lowered@) == lowered_pairs(string_views(req.pairs@)).subrange(0, i as int),
            forall|j: int|
                0 <= j < i && ascii_text(#[trigger] req.pairs@[j]@) ==> lowercase(req.pairs@[j]@)
                    == crate::auth::ascii_lowercase(req.pairs@[j]@),
        decreases req.pairs@.len() - i,
    {
        let ghost before = lowered@;
        let low = to_lowercase(req.pairs[i].as_str());
        assert(low@ == lowered_pairs(string_views(req.pairs@))[i as int]);
        lowered.push(low);
        assert(string_views(lowered@) =~= string_views(before).push(low@));
        i = i + 1;
        assert(string_views(lowered@) =~= lowered_pairs(string_views(req.pairs@)).subrange(
            0,
            i as int,
        ));
    }
    assert(string_views(lowered@) =~= lowered_pairs(string_views(req.pairs@)));
    select_pairs(&req.pairs, lowered, &req.mode)
}


/// For an adaptive request of a known length, the transition counts behind
/// every weak key of the pairs the request selects sum within `u64`.
pub open spec fn selection_fits(req: GenerateRequest, data: AppData) -> bool {
    let raws = string_views(req.pairs@);
    match selection_spec(raws, lowered_pairs(raws), req.mode@) {
        Ok(ps) => req.adaptive && session_total(req.length@) > 0 ==> key_attempts_fit(data, ps),
        Err(_) => true,
    }
}

/// The refusal of an adaptive request whose statistics are too large to weigh.
pub open spec fn stats_too_large() -> Seq<char> {
    "Practice statistics are too large"@
}

/// The key pairs spelled by the selected texts.
pub open spec fn key_pairs_spec(ps: Seq<Seq<char>>) -> Seq<KeyPair> {
    ps.map_values(|s: Seq<char>| (s[0], s[1]))
}

/// The state a seed starts the generator in.
pub open spec fn initial_state(seed: u64) -> u64 {
    if seed == 0 {
        1
    } else {
        seed
    }
}

/// The number of lines of a session length, or 0 for an unknown length.
pub open spec fn session_total(length: Seq<char>) -> int {
    if length == "short"@ {
        24
    } else if length == "medium"@ || length == "endless"@ {
        48
    } else if length == "long"@ {
        90
    } else {
        0
    }
}

/// Everything the lines of a session depend on, for selected pairs `ps`.
pub open spec fn plan_for(
    ps: Seq<Seq<char>>,
    mode: Seq<char>,
    length: Seq<char>,
    adaptive: bool,
    data: AppData,
    seed: u64,
) -> PlanSpec {
    let pairs = key_pairs_spec(ps);
    let allowed = allowed_chars(ps);
    let km = if adaptive {
        expected_keys(data, allowed)
    } else {
        Map::empty()
    };
    let tm = if adaptive {
        expected_transitions(data, allowed)
    } else {
        Map::empty()
    };
    let template = choose_spec(seed, weak_spec(km, tm));
    PlanSpec {
        pairs,
        standalone: mode == "standalone"@,
        template,
        extended: length == "long"@ || length == "endless"@,
        km,
        tm,
        coverage: schedule_spec(pairs, initial_state(seed)).0,
        counts: section_counts_spec(session_total(length) as usize, allocation_spec(template)),
    }
}

/// The lines of the six sections of a session with plan `p` and seed `seed`.
pub open spec fn session_lines(p: PlanSpec, seed: u64) -> Seq<Seq<Seq<char>>> {
    sections_upto(p, 6, Set::empty(), schedule_spec(p.pairs, initial_state(seed)).1).0
}

/// Whether `r` is what generating from `req` and `data` with seed `seed` gives.
pub open spec fn generated(r: Result<SessionPlan, String>, req: GenerateRequest, data: AppData, seed: u64) -> bool {
    let raws = string_views(req.pairs@);
    match selection_spec(raws, lowered_pairs(raws), req.mode@) {
        Err(e) => r matches Err(m) && m@ == e,
        Ok(ps) => if session_total(req.length@) == 0 {
            r matches Err(m) && m@ == "Unknown session length"@
        } else {
            r matches Ok(plan) && {
                let p = plan_for(ps, req.mode@, req.length@, req.adaptive, data, seed);
                &&& plan.mode@ == req.mode@
                &&& string_views(plan.pairs@) == ps
                &&& plan.seed == seed
                &&& plan.sections@.len() == 6
                &&& forall|i: int|
                    0 <= i < 6 ==> (#[trigger] plan.sections@[i]).name@ == section_name_spec(i)
                &&& section_views(plan.sections@) == session_lines(p, seed)
            }
        },
    }
}

proof fn lemma_first_unknown_none(s: Seq<Seq<char>>)
    requires
        first_unknown(s) is None,
    ensures
        forall|i: int| 0 <= i < s.len() ==> is_known_pair(#[trigger] s[i]),
    decreases s.len(),
{
    if s.len() > 0 {
        lemma_first_unknown_none(s.drop_last());
        assert forall|i: int| 0 <= i < s.len() implies is_known_pair(#[trigger] s[i]) by {
            if i < s.len() - 1 {
                assert(s.drop_last()[i] == s[i]);
            }
        }
    }
}

proof fn lemma_first_occurrences(s: Seq<Seq<char>>)
    ensures
        first_occurrences(s).no_duplicates(),
        forall|x: Seq<char>| #[trigger] first_occurrences(s).contains(x) ==> s.contains(x),
    decreases s.len(),
{
    if s.len() > 0 {
        let d = first_occurrences(s.drop_last());
        lemma_first_occurrences(s.drop_last());
        assert forall|x: Seq<char>| #[trigger] first_occurrences(s).contains(x) implies s.contains(
            x,
        ) by {
            if d.contains(x) {
                let k = choose|k: int| 0 <= k < s.drop_last().len() && s.drop_last()[k] == x;
                assert(s[k] == x);
            } else {
                assert(x == s.last());
                assert(s[s.len() - 1] == x);
            }
        }
    }
}

/// A selection of distinct known pairs has at most fifteen pairs, each of two keys.
pub proof fn lemma_selection_small(ps: Seq<Seq<char>>)
    requires
        ps.no_duplicates(),
        forall|i: int| 0 <= i < ps.len() ==> is_known_pair(#[trigger] ps[i]),
    ensures
        ps.len() <= 15,
        key_pairs_spec(ps).len() == ps.len(),
        forall|i: int| 0 <= i < ps.len() ==> (#[trigger] ps[i]).len() == 2,
{
    broadcast use vstd::seq_lib::seq_to_set_is_finite;

    let kp = key_pairs_spec(ps);
    let known = known_pairs();
    assert forall|a: int, b: int| 0 <= a < kp.len() && 0 <= b < kp.len() && a != b implies kp[a]
        != kp[b] by {
        assert(is_known_pair(ps[a]) && is_known_pair(ps[b]));
        if kp[a] == kp[b] {
            assert(ps[a] =~= ps[b]);
        }
    }
    assert(kp.no_duplicates());
    kp.unique_seq_to_set();
    known.lemma_cardinality_of_set();
    assert forall|x: KeyPair| kp.to_set().contains(x) implies known.to_set().contains(x) by {
        let k = choose|k: int| 0 <= k < kp.len() && kp[k] == x;
        assert(is_known_pair(ps[k]));
    }
    vstd::set_lib::lemma_len_subset(kp.to_set(), known.to_set());
}

/// The key pairs of validated pair texts.
fn key_pairs(pairs: &Vec<String>) -> (r: Vec<KeyPair>)
    requires
        forall|i: int| 0 <= i < pairs@.len() ==> (#[trigger] pairs@[i])@.len() == 2,
    ensures
        r@ == key_pairs_spec(string_views(pairs@)),
{
    let mut r: Vec<KeyPair> = Vec::new();
    let mut i: usize = 0;
    while i < pairs.len()
        invariant
            i <= pairs@.len(),
            forall|k: int| 0 <= k < pairs@.len() ==> (#[trigger] pairs@[k])@.len() == 2,
            r@ == key_pairs_spec(string_views(pairs@)).subrange(0, i as int),
        decreases pairs@.len() - i,
    {
        let c = chars_of(pairs[i].as_str());
        assert(c@.len() == 2);
        r.push((c[0], c[1]));
        i = i + 1;
        assert(r@ =~= key_pairs_spec(string_views(pairs@)).subrange(0, i as int));
    }
    assert(r@ =~= key_pairs_spec(string_views(pairs@)));
    r
}

/// Generates a practice session with the given seed.
pub fn generate_with_seed(req: &GenerateRequest, data: &AppData, seed: u64) -> (r: Result<
    SessionPlan,
    String,
>)
    requires
        selection_fits(*req, *data),
    ensures
        generated(r, *req, *data, seed),
        forall|i: int|
            0 <= i < req.pairs@.len() && ascii_text(#[trigger] req.pairs@[i]@) ==> lowercase(
                req.pairs@[i]@,
            ) == crate::auth::ascii_lowercase(req.pairs@[i]@),
{
    let ghost raws = string_views(req.pairs@);
    let pairs = match validate(req) {
        Ok(p) => p,
        Err(e) => {
            return Err(e);
        },
    };
    let ghost ps = string_views(pairs@);
    proof {
        let lowered = lowered_pairs(raws);
        assert(first_unknown(lowered) is None);
        assert(ps == first_occurrences(lowered));
        lemma_first_unknown_none(lowered);
        lemma_first_occurrences(lowered);
        assert forall|i: int| 0 <= i < ps.len() implies is_known_pair(#[trigger] ps[i]) by {
            assert(ps.contains(ps[i]));
            assert(first_occurrences(lowered).contains(ps[i]));
            assert(lowered.contains(ps[i]));
            let k = choose|k: int| 0 <= k < lowered.len() && lowered[k] == ps[i];
            assert(is_known_pair(lowered[k]));
        }
        lemma_selection_small(ps);
        assert forall|i: int| 0 <= i < pairs@.len() implies (#[trigger] pairs@[i])@.len() == 2 by {
            assert(ps[i] == pairs@[i]@);
        }
    }
    let total: usize = if is_word(&req.length, "short") {
        24
    } else if is_word(&req.length, "medium") || is_word(&req.length, "endless") {
        48
    } else if is_word(&req.length, "long") {
        90
    } else {
        return Err(String::from_str("Unknown session length"));
    };
    assert(total == session_total(req.length@));
    let ghost p = plan_for(ps, req.mode@, req.length@, req.adaptive, *data, seed);
    let adaptive = adaptive_weights(&pairs, data, req.adaptive);
    assert(adaptive.key_map() == p.km && adaptive.transition_map() == p.tm);
    let template = Template::select(seed, adaptive.has_weakness());
    proof {
        lemma_allocation_ok(template, total);
    }
    let counts = section_counts(total, template.allocation());
    proof {
        lemma_count_at_most_sum(counts@);
    }
    let extended = is_word(&req.length, "long") || is_word(&req.length, "endless");
    let pair_chars = key_pairs(&pairs);
    let mut rng = Rng::new(seed);
    let coverage = transition_schedule(&pair_chars, &mut rng);
    proof {
        if pair_chars@.len() >= 2 {
            crate::coverage::lemma_schedule_len(pair_chars@, initial_state(seed));
        }
    }
    let plan = LinePlan {
        pairs: pair_chars,
        standalone: is_word(&req.mode, "standalone"),
        template,
        extended,
        adaptive,
        coverage,
        counts,
    };
    assert(plan.spec() == p);
    proof {
        assert(p.standalone ==> p.pairs.len() == 1);
    }
    let sections = plan.build_sections(&mut rng);
    Ok(SessionPlan { mode: req.mode.clone(), pairs, sections, seed })
}


#[verifier::external_type_specification]
#[verifier::external_body]
pub struct ExSystemTime(std::time::SystemTime);

/// std's `SystemTime::now`: the current wall-clock time. Nothing is stated of it.
#[verifier::external_body]
fn system_now() -> std::time::SystemTime {
    std::time::SystemTime::now()
}

#[verifier::external_type_specification]
#[verifier::external_body]
pub struct ExSystemTimeError(std::time::SystemTimeError);

/// std's `SystemTime::duration_since` from `UNIX_EPOCH`: the time since the
/// epoch, or an error for a time before it. Nothing is stated: it depends on
/// the clock.
#[verifier::external_body]
fn since_epoch(t: &std::time::SystemTime) -> Result<core::time::Duration, std::time::SystemTimeError> {
    t.duration_since(std::time::UNIX_EPOCH)
}

/// std's `Duration::as_nanos`: the whole nanoseconds of `d`. Nothing is
/// stated: the duration is opaque here.
#[verifier::external_body]
fn duration_nanos(d: &core::time::Duration) -> u128 {
    d.as_nanos()
}

/// A seed from the clock: the nanoseconds since the epoch, cut to their low
/// 64 bits (0 for a time before the epoch).
fn clock_seed() -> u64 {
    let now = system_now();
    match since_epoch(&now) {
        Ok(d) => {
            let n = duration_nanos(&d);
            #[verifier::truncate]
            (n as u64)
        },
        Err(_) => 0,
    }
}

/// Generates a practice session for the request; without a seed in the
/// request, the seed is taken from the clock (and returned in the plan). A
/// valid adaptive request of a known length whose statistics cannot be summed
/// within `u64` is refused.
pub fn generate(req: &GenerateRequest, data: &AppData) -> (r: Result<SessionPlan, String>)
    ensures
        !selection_fits(*req, *data) ==> (r matches Err(m) && m@ == stats_too_large()),
        selection_fits(*req, *data) ==> match req.seed {
            Some(seed) => generated(r, *req, *data, seed),
            None => exists|seed: u64| generated(r, *req, *data, seed),
        },
        forall|i: int|
            0 <= i < req.pairs@.len() && ascii_text(#[trigger] req.pairs@[i]@) ==> lowercase(
                req.pairs@[i]@,
            ) == crate::auth::ascii_lowercase(req.pairs@[i]@),
{
    let length_known = is_word(&req.length, "short") || is_word(&req.length, "medium")
        || is_word(&req.length, "endless") || is_word(&req.length, "long");
    if req.adaptive && length_known {
        match validate(req) {
            Ok(pairs) => {
                if !attempts_fit(&pairs, data) {
                    return Err(String::from_str("Practice statistics are too large"));
                }
            },
            Err(_) => {},
        }
    }
    let seed = match req.seed {
        Some(s) => s,
        None => clock_seed(),
    };
    generate_with_seed(req, data, seed)
}

} // verus!
