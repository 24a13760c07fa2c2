use vstd::prelude::*;
use crate::strmap::StrMap;
use crate::text::{chars_of, str_is, string_views};

verus! {

/// What the practice screen asks the generator for.
pub struct GenerateRequest {
    pub pairs: Vec<String>,
    pub mode: String,
    pub length: String,
    pub seed: Option<u64>,
    pub adaptive: bool,
}

/// A generated session: six named sections of practice lines.
pub struct SessionPlan {
    pub mode: String,
    pub pairs: Vec<String>,
    pub sections: Vec<PracticeSection>,
    pub seed: u64,
}

/// One named section of a session.
pub struct PracticeSection {
    pub name: String,
    pub lines: Vec<String>,
}

/// The learner's display and practice preferences.
pub struct Settings {
    pub theme: String,
    pub font_size: u8,
    pub stop_on_error: bool,
    pub show_keyboard: bool,
    pub show_live_wpm: bool,
    pub adaptive: bool,
    pub allow_backspace: bool,
}

impl Default for Settings {
    fn default() -> (s: Self)
        ensures
            s.theme@ == "dark"@,
            s.font_size == 34,
            !s.stop_on_error,
            !s.show_keyboard,
            s.show_live_wpm,
            s.adaptive,
            s.allow_backspace,
    {
        Settings {
            theme: String::from_str("dark"),
            font_size: 34,
            stop_on_error: false,
            show_keyboard: false,
            show_live_wpm: true,
            adaptive: true,
            allow_backspace: true,
        }
    }
}

/// Totals kept for one key pair.
#[derive(Clone, Copy, Debug)]
pub struct PairStats {
    pub sessions: u64,
    pub correct: u64,
    pub errors: u64,
    pub total_ms: u64,
    pub typed: u64,
}

/// All totals zero.
pub open spec fn zero_pair_stats() -> PairStats {
    PairStats { sessions: 0, correct: 0, errors: 0, total_ms: 0, typed: 0 }
}

impl Default for PairStats {
    fn default() -> (s: Self)
        ensures
            s == zero_pair_stats(),
    {
        PairStats { sessions: 0, correct: 0, errors: 0, total_ms: 0, typed: 0 }
    }
}

/// Accumulated response time and number of samples.
#[derive(Clone, Copy, Debug)]
pub struct TimingStat {
    pub total_ms: u64,
    pub samples: u64,
}

impl Default for TimingStat {
    fn default() -> (s: Self)
        ensures
            s.total_ms == 0 && s.samples == 0,
    {
        TimingStat { total_ms: 0, samples: 0 }
    }
}

/// A finished session as shown in the recent list.  `wpm_bits` and
/// `accuracy_bits` carry the IEEE 754 bits of the speed and accuracy; the
/// library moves them along without reading them.
pub struct SessionSummary {
    pub timestamp_ms: u64,
    pub mode: String,
    pub pairs: Vec<String>,
    pub wpm_bits: u64,
    pub accuracy_bits: u64,
    pub duration_ms: u64,
}

impl Default for SessionSummary {
    fn default() -> (s: Self)
        ensures
            s.timestamp_ms == 0,
            s.mode@.len() == 0,
            s.pairs@.len() == 0,
            s.wpm_bits == 0,
            s.accuracy_bits == 0,
            s.duration_ms == 0,
    {
        SessionSummary {
            timestamp_ms: 0,
            mode: String::new(),
            pairs: Vec::new(),
            wpm_bits: 0,
            accuracy_bits: 0,
            duration_ms: 0,
        }
    }
}

/// Everything kept for one learner: settings and aggregated statistics.
pub struct AppData {
    pub settings: Settings,
    pub sessions_completed: u64,
    pub total_practice_ms: u64,
    pub total_correct: u64,
    pub total_errors: u64,
    pub pair_stats: StrMap<PairStats>,
    pub key_errors: StrMap<u64>,
    pub transition_errors: StrMap<u64>,
    pub transition_counts: StrMap<u64>,
    pub key_timings: StrMap<TimingStat>,
    pub transition_timings: StrMap<TimingStat>,
    pub recent_sessions: Vec<SessionSummary>,
}

/// The settings a new profile starts with.
pub open spec fn default_settings(s: Settings) -> bool {
    &&& s.theme@ == "dark"@
    &&& s.font_size == 34
    &&& !s.stop_on_error
    &&& !s.show_keyboard
    &&& s.show_live_wpm
    &&& s.adaptive
    &&& s.allow_backspace
}

/// The data a new profile starts with: default settings, no statistics.
pub open spec fn fresh_data(d: AppData) -> bool {
    &&& default_settings(d.settings)
    &&& d.sessions_completed == 0
    &&& d.total_practice_ms == 0
    &&& d.total_correct == 0
    &&& d.total_errors == 0
    &&& d.pair_stats@ == Map::<Seq<char>, PairStats>::empty()
    &&& d.key_errors@ == Map::<Seq<char>, u64>::empty()
    &&& d.transition_errors@ == Map::<Seq<char>, u64>::empty()
    &&& d.transition_counts@ == Map::<Seq<char>, u64>::empty()
    &&& d.key_timings@ == Map::<Seq<char>, TimingStat>::empty()
    &&& d.transition_timings@ == Map::<Seq<char>, TimingStat>::empty()
    &&& d.recent_sessions@.len() == 0
}

impl Default for AppData {
    fn default() -> (d: Self)
        ensures
            fresh_data(d),
            d.settings.theme@ == "dark"@,
            d.settings.font_size == 34,
            d.sessions_completed == 0,
            d.total_practice_ms == 0,
            d.total_correct == 0,
            d.total_errors == 0,
            d.pair_stats@ == Map::<Seq<char>, PairStats>::empty(),
            d.key_errors@ == Map::<Seq<char>, u64>::empty(),
            d.transition_errors@ == Map::<Seq<char>, u64>::empty(),
            d.transition_counts@ == Map::<Seq<char>, u64>::empty(),
            d.key_timings@ == Map::<Seq<char>, TimingStat>::empty(),
            d.transition_timings@ == Map::<Seq<char>, TimingStat>::empty(),
            d.recent_sessions@.len() == 0,
    {
        AppData {
            settings: Settings::default(),
            sessions_completed: 0,
            total_practice_ms: 0,
            total_correct: 0,
            total_errors: 0,
            pair_stats: StrMap::new(),
            key_errors: StrMap::new(),
            transition_errors: StrMap::new(),
            transition_counts: StrMap::new(),
            key_timings: StrMap::new(),
            transition_timings: StrMap::new(),
            recent_sessions: Vec::new(),
        }
    }
}

/// The statistics of one finished session, as the practice screen reports them.
pub struct SessionRecord {
    pub timestamp_ms: u64,
    pub mode: String,
    pub pairs: Vec<String>,
    pub wpm_bits: u64,
    pub accuracy_bits: u64,
    pub duration_ms: u64,
    pub correct: u64,
    pub errors: u64,
    pub key_errors: StrMap<u64>,
    pub transition_errors: StrMap<u64>,
    pub transition_counts: StrMap<u64>,
    pub key_timings: StrMap<TimingStat>,
    pub transition_timings: StrMap<TimingStat>,
}

/// The number of recent sessions kept.
pub const RECENT_LIMIT: usize = 20;

/// The count stored for `k`, or 0.
pub open spec fn count_or_zero(m: Map<Seq<char>, u64>, k: Seq<char>) -> int {
    if m.contains_key(k) {
        m[k] as int
    } else {
        0
    }
}

/// Per-key sums of two count maps.
pub open spec fn merged_counts(a: Map<Seq<char>, u64>, b: Map<Seq<char>, u64>) -> Map<
    Seq<char>,
    u64,
> {
    Map::new(
        |k: Seq<char>| a.contains_key(k) || b.contains_key(k),
        |k: Seq<char>| (count_or_zero(a, k) + count_or_zero(b, k)) as u64,
    )
}

/// Adding the counts of `b` to `a` stays within `u64`.
pub open spec fn counts_fit(a: Map<Seq<char>, u64>, b: Map<Seq<char>, u64>) -> bool {
    forall|k: Seq<char>| #[trigger] b.contains_key(k) ==> count_or_zero(a, k) + b[k] <= u64::MAX
}

/// The timing stored for `k`, or zeros.
pub open spec fn timing_or_zero(m: Map<Seq<char>, TimingStat>, k: Seq<char>) -> (int, int) {
    if m.contains_key(k) {
        (m[k].total_ms as int, m[k].samples as int)
    } else {
        (0, 0)
    }
}

/// Per-key sums of two timing maps.
pub open spec fn merged_times(a: Map<Seq<char>, TimingStat>, b: Map<Seq<char>, TimingStat>) -> Map<
    Seq<char>,
    TimingStat,
> {
    Map::new(
        |k: Seq<char>| a.contains_key(k) || b.contains_key(k),
        |k: Seq<char>|
            TimingStat {
                total_ms: (timing_or_zero(a, k).0 + timing_or_zero(b, k).0) as u64,
                samples: (timing_or_zero(a, k).1 + timing_or_zero(b, k).1) as u64,
            },
    )
}

/// Adding the timings of `b` to `a` stays within `u64`.
pub open spec fn times_fit(a: Map<Seq<char>, TimingStat>, b: Map<Seq<char>, TimingStat>) -> bool {
    forall|k: Seq<char>| #[trigger]
        b.contains_key(k) ==> timing_or_zero(a, k).0 + b[k].total_ms <= u64::MAX
            && timing_or_zero(a, k).1 + b[k].samples <= u64::MAX
}

/// Adds every count of `b` to the count of the same key in `a`.
pub fn merge_counts(a: &mut StrMap<u64>, b: StrMap<u64>)
    requires
        counts_fit(old(a)@, b@),
    ensures
        final(a)@ == merged_counts(old(a)@, b@),
{
    let n = b.len();
    let mut i: usize = 0;
    while i < n
        invariant
            n == b.items().len(),
            i <= n,
            counts_fit(old(a)@, b@),
            forall|k: Seq<char>| #[trigger]
                a@.contains_key(k) == (old(a)@.contains_key(k) || exists|j: int|
                    0 <= j < i && b.items()[j].0 == k),
            forall|k: Seq<char>| #[trigger]
                a@.contains_key(k) ==> a@[k] == (count_or_zero(old(a)@, k) + (if exists|j: int|
                    0 <= j < i && b.items()[j].0 == k {
                    b@[k] as int
                } else {
                    0
                })) as u64,
        decreases n - i,
    {
        let (key, value) = b.entry_at(i);
        let ghost k = key@;
        let current = match a.get(key.as_str()) {
            Some(c) => *c,
            None => 0,
        };
        proof {
            assert(!(exists|j: int| 0 <= j < i && b.items()[j].0 == k)) by {
                if exists|j: int| 0 <= j < i && b.items()[j].0 == k {
                    let j = choose|j: int| 0 <= j < i && b.items()[j].0 == k;
                    assert(b.items()[j].0 == b.items()[i as int].0);
                }
            }
            assert(current == count_or_zero(old(a)@, k));
        }
        a.insert(key.clone(), current + *value);
        proof {
            assert forall|q: Seq<char>| #[trigger]
                a@.contains_key(q) == (old(a)@.contains_key(q) || exists|j: int|
                    0 <= j < i + 1 && b.items()[j].0 == q) by {
                if q == k {
                    assert(b.items()[i as int].0 == q);
                }
                if exists|j: int| 0 <= j < i + 1 && b.items()[j].0 == q {
                    let j = choose|j: int| 0 <= j < i + 1 && b.items()[j].0 == q;
                    if j < i {
                        assert(exists|j2: int| 0 <= j2 < i && b.items()[j2].0 == q);
                    }
                }
            }
            assert forall|q: Seq<char>| #[trigger] a@.contains_key(q) implies a@[q] == (
            count_or_zero(old(a)@, q) + (if exists|j: int| 0 <= j < i + 1 && b.items()[j].0 == q {
                b@[q] as int
            } else {
                0
            })) as u64 by {
                if q == k {
                    assert(b.items()[i as int].0 == q);
                } else {
                    if exists|j: int| 0 <= j < i + 1 && b.items()[j].0 == q {
                        let j = choose|j: int| 0 <= j < i + 1 && b.items()[j].0 == q;
                        assert(j != i);
                        assert(exists|j2: int| 0 <= j2 < i && b.items()[j2].0 == q);
                    }
                }
            }
        }
        i = i + 1;
    }
    proof {
        b.lemma_view_domain();
        assert(a@ =~= merged_counts(old(a)@, b@));
    }
}

/// Adds every timing of `b` to the timing of the same key in `a`, field by field.
pub fn merge_times(a: &mut StrMap<TimingStat>, b: StrMap<TimingStat>)
    requires
        times_fit(old(a)@, b@),
    ensures
        final(a)@ == merged_times(old(a)@, b@),
{
    let n = b.len();
    let mut i: usize = 0;
    while i < n
        invariant
            n == b.items().len(),
            i <= n,
            times_fit(old(a)@, b@),
            forall|k: Seq<char>| #[trigger]
                a@.contains_key(k) == (old(a)@.contains_key(k) || exists|j: int|
                    0 <= j < i && b.items()[j].0 == k),
            forall|k: Seq<char>| #[trigger]
                a@.contains_key(k) ==> a@[k] == (if exists|j: int|
                    0 <= j < i && b.items()[j].0 == k {
                    TimingStat {
                        total_ms: (timing_or_zero(old(a)@, k).0 + b@[k].total_ms) as u64,
                        samples: (timing_or_zero(old(a)@, k).1 + b@[k].samples) as u64,
                    }
                } else {
                    old(a)@[k]
                }),
        decreases n - i,
    {
        let (key, value) = b.entry_at(i);
        let ghost k = key@;
        let current = match a.get(key.as_str()) {
            Some(c) => *c,
            None => TimingStat { total_ms: 0, samples: 0 },
        };
        proof {
            assert(!(exists|j: int| 0 <= j < i && b.items()[j].0 == k)) by {
                if exists|j: int| 0 <= j < i && b.items()[j].0 == k {
                    let j = choose|j: int| 0 <= j < i && b.items()[j].0 == k;
                    assert(b.items()[j].0 == b.items()[i as int].0);
                }
            }
            assert(current.total_ms == timing_or_zero(old(a)@, k).0);
            assert(current.samples == timing_or_zero(old(a)@, k).1);
        }
        a.insert(
            key.clone(),
            TimingStat {
                total_ms: current.total_ms + value.total_ms,
                samples: current.samples + value.samples,
            },
        );
        proof {
            assert forall|q: Seq<char>| #[trigger]
                a@.contains_key(q) == (old(a)@.contains_key(q) || exists|j: int|
                    0 <= j < i + 1 && b.items()[j].0 == q) by {
                if q == k {
                    assert(b.items()[i as int].0 == q);
                }
                if exists|j: int| 0 <= j < i + 1 && b.items()[j].0 == q {
                    let j = choose|j: int| 0 <= j < i + 1 && b.items()[j].0 == q;
                    if j < i {
                        assert(exists|j2: int| 0 <= j2 < i && b.items()[j2].0 == q);
                    }
                }
            }
            assert forall|q: Seq<char>| #[trigger] a@.contains_key(q) implies a@[q] == (if exists|j: int|
                0 <= j < i + 1 && b.items()[j].0 == q {
                TimingStat {
                    total_ms: (timing_or_zero(old(a)@, q).0 + b@[q].total_ms) as u64,
                    samples: (timing_or_zero(old(a)@, q).1 + b@[q].samples) as u64,
                }
            } else {
                old(a)@[q]
            }) by {
                if q == k {
                    assert(b.items()[i as int].0 == q);
                } else {
                    if exists|j: int| 0 <= j < i + 1 && b.items()[j].0 == q {
                        let j = choose|j: int| 0 <= j < i + 1 && b.items()[j].0 == q;
                        assert(j != i);
                        assert(exists|j2: int| 0 <= j2 < i && b.items()[j2].0 == q);
                    }
                }
            }
        }
        i = i + 1;
    }
    proof {
        b.lemma_view_domain();
        assert(a@ =~= merged_times(old(a)@, b@));
    }
}


/// How many times `p` occurs in `s`.
pub open spec fn occurrences(s: Seq<Seq<char>>, p: Seq<char>) -> nat
    decreases s.len(),
{
    if s.len() == 0 {
        0
    } else {
        occurrences(s.drop_last(), p) + (if s.last() == p {
            1nat
        } else {
            0nat
        })
    }
}

/// The totals stored for `k`, or zeros.
pub open spec fn stats_or_zero(m: Map<Seq<char>, PairStats>, k: Seq<char>) -> PairStats {
    if m.contains_key(k) {
        m[k]
    } else {
        zero_pair_stats()
    }
}

/// `s` after `n` sessions with `c` correct and `e` wrong keystrokes over `d` ms each.
pub open spec fn bumped(s: PairStats, n: int, c: u64, e: u64, d: u64) -> PairStats {
    PairStats {
        sessions: (s.sessions + n) as u64,
        correct: (s.correct + n * c) as u64,
        errors: (s.errors + n * e) as u64,
        total_ms: (s.total_ms + n * d) as u64,
        typed: (s.typed + n * (c + e)) as u64,
    }
}

/// Bumping stays within `u64`.
pub open spec fn bump_fits(s: PairStats, n: int, c: u64, e: u64, d: u64) -> bool {
    &&& s.sessions + n <= u64::MAX
    &&& s.correct + n * c <= u64::MAX
    &&& s.errors + n * e <= u64::MAX
    &&& s.total_ms + n * d <= u64::MAX
    &&& s.typed + n * (c + e) <= u64::MAX
}

/// The per-pair totals after a session over `pairs` (a pair listed twice counts twice).
pub open spec fn pair_stats_after(
    m: Map<Seq<char>, PairStats>,
    pairs: Seq<Seq<char>>,
    c: u64,
    e: u64,
    d: u64,
) -> Map<Seq<char>, PairStats> {
    Map::new(
        |k: Seq<char>| m.contains_key(k) || pairs.contains(k),
        |k: Seq<char>| bumped(stats_or_zero(m, k), occurrences(pairs, k) as int, c, e, d),
    )
}

/// The summary that a record leaves in the recent list.
pub open spec fn summary_of(r: SessionRecord) -> SessionSummary {
    SessionSummary {
        timestamp_ms: r.timestamp_ms,
        mode: r.mode,
        pairs: r.pairs,
        wpm_bits: r.wpm_bits,
        accuracy_bits: r.accuracy_bits,
        duration_ms: r.duration_ms,
    }
}

/// The newest summary first, then the older ones, at most `RECENT_LIMIT` in all.
pub open spec fn recent_after(old: Seq<SessionSummary>, s: SessionSummary) -> Seq<SessionSummary> {
    let all = seq![s] + old;
    if all.len() <= RECENT_LIMIT {
        all
    } else {
        all.subrange(0, RECENT_LIMIT as int)
    }
}

/// Absorbing `r` into `d` stays within `u64` everywhere.
pub open spec fn absorb_fits(d: AppData, r: SessionRecord) -> bool {
    &&& d.sessions_completed + 1 <= u64::MAX
    &&& d.total_practice_ms + r.duration_ms <= u64::MAX
    &&& d.total_correct + r.correct <= u64::MAX
    &&& d.total_errors + r.errors <= u64::MAX
    &&& r.pairs@.len() > 0 ==> r.correct + r.errors <= u64::MAX
    &&& forall|k: Seq<char>| #[trigger]
        string_views(r.pairs@).contains(k) ==> bump_fits(
            stats_or_zero(d.pair_stats@, k),
            occurrences(string_views(r.pairs@), k) as int,
            r.correct,
            r.errors,
            r.duration_ms,
        )
    &&& counts_fit(d.key_errors@, r.key_errors@)
    &&& counts_fit(d.transition_errors@, r.transition_errors@)
    &&& counts_fit(d.transition_counts@, r.transition_counts@)
    &&& times_fit(d.key_timings@, r.key_timings@)
    &&& times_fit(d.transition_timings@, r.transition_timings@)
}

proof fn lemma_occurrences_prefix(s: Seq<Seq<char>>, i: int, p: Seq<char>)
    requires
        0 <= i < s.len(),
    ensures
        occurrences(s.subrange(0, i + 1), p) == occurrences(s.subrange(0, i), p) + (if s[i] == p {
            1nat
        } else {
            0nat
        }),
        occurrences(s.subrange(0, i + 1), p) <= occurrences(s, p),
    decreases s.len(),
{
    assert(s.subrange(0, i + 1).drop_last() =~= s.subrange(0, i));
    if i + 1 < s.len() {
        lemma_occurrences_prefix(s.drop_last(), i, p);
        assert(s.drop_last().subrange(0, i + 1) =~= s.subrange(0, i + 1));
    } else {
        assert(s.subrange(0, i + 1) =~= s);
    }
}

proof fn lemma_occurrences_contains(s: Seq<Seq<char>>, p: Seq<char>)
    ensures
        occurrences(s, p) > 0 <==> s.contains(p),
    decreases s.len(),
{
    if s.len() > 0 {
        lemma_occurrences_contains(s.drop_last(), p);
        if s.drop_last().contains(p) {
            let j = choose|j: int| 0 <= j < s.drop_last().len() && s.drop_last()[j] == p;
            assert(s[j] == p);
        }
        if s.contains(p) {
            let j = choose|j: int| 0 <= j < s.len() && s[j] == p;
            if j < s.len() - 1 {
                assert(s.drop_last()[j] == p);
            }
        }
    }
}

proof fn lemma_bump_step(s: PairStats, n: int, total: int, c: u64, e: u64, d: u64)
    requires
        0 <= n < total,
        bump_fits(s, total, c, e, d),
    ensures
        bump_fits(s, n + 1, c, e, d),
        bumped(s, n + 1, c, e, d) == (PairStats {
            sessions: (bumped(s, n, c, e, d).sessions + 1) as u64,
            correct: (bumped(s, n, c, e, d).correct + c) as u64,
            errors: (bumped(s, n, c, e, d).errors + e) as u64,
            total_ms: (bumped(s, n, c, e, d).total_ms + d) as u64,
            typed: (bumped(s, n, c, e, d).typed + (c + e)) as u64,
        }),
        bumped(s, n, c, e, d).correct == s.correct + n * c,
        bumped(s, n, c, e, d).errors == s.errors + n * e,
        bumped(s, n, c, e, d).total_ms == s.total_ms + n * d,
        bumped(s, n, c, e, d).typed == s.typed + n * (c + e),
        bumped(s, n, c, e, d).sessions == s.sessions + n,
        bumped(s, n, c, e, d).sessions + 1 <= u64::MAX,
        bumped(s, n, c, e, d).correct + c <= u64::MAX,
        bumped(s, n, c, e, d).errors + e <= u64::MAX,
        bumped(s, n, c, e, d).total_ms + d <= u64::MAX,
        bumped(s, n, c, e, d).typed + (c + e) <= u64::MAX,
{
    assert((n + 1) * c <= total * c && n * c <= total * c) by (nonlinear_arith)
        requires
            0 <= n,
            n < total,
            c >= 0,
    ;
    assert((n + 1) * e <= total * e && n * e <= total * e) by (nonlinear_arith)
        requires
            0 <= n,
            n < total,
            e >= 0,
    ;
    assert((n + 1) * d <= total * d && n * d <= total * d) by (nonlinear_arith)
        requires
            0 <= n,
            n < total,
            d >= 0,
    ;
    let ce: int = c + e;
    assert((n + 1) * ce <= total * ce && n * ce <= total * ce) by (nonlinear_arith)
        requires
            0 <= n,
            n < total,
            ce >= 0,
    ;
    assert((n + 1) * c == n * c + c) by (nonlinear_arith);
    assert((n + 1) * e == n * e + e) by (nonlinear_arith);
    assert((n + 1) * d == n * d + d) by (nonlinear_arith);
    assert((n + 1) * ce == n * ce + ce) by (nonlinear_arith);
    assert(n * c >= 0 && n * e >= 0 && n * d >= 0 && n * ce >= 0) by (nonlinear_arith)
        requires
            n >= 0,
            c >= 0,
            e >= 0,
            d >= 0,
            ce >= 0,
    ;
}

/// `new` is `old` with the session `r` absorbed.
pub open spec fn absorbed(old: AppData, new: AppData, r: SessionRecord) -> bool {
    &&& new.settings == old.settings
    &&& new.sessions_completed == old.sessions_completed + 1
    &&& new.total_practice_ms == old.total_practice_ms + r.duration_ms
    &&& new.total_correct == old.total_correct + r.correct
    &&& new.total_errors == old.total_errors + r.errors
    &&& new.pair_stats@ == pair_stats_after(
        old.pair_stats@,
        string_views(r.pairs@),
        r.correct,
        r.errors,
        r.duration_ms,
    )
    &&& new.key_errors@ == merged_counts(old.key_errors@, r.key_errors@)
    &&& new.transition_errors@ == merged_counts(old.transition_errors@, r.transition_errors@)
    &&& new.transition_counts@ == merged_counts(old.transition_counts@, r.transition_counts@)
    &&& new.key_timings@ == merged_times(old.key_timings@, r.key_timings@)
    &&& new.transition_timings@ == merged_times(old.transition_timings@, r.transition_timings@)
    &&& new.recent_sessions@ == recent_after(old.recent_sessions@, summary_of(r))
}

/// The count stored for `k`, or 0.
fn count_at(m: &StrMap<u64>, k: &String) -> (r: u64)
    ensures
        r == count_or_zero(m@, k@),
{
    match m.get(k.as_str()) {
        Some(v) => *v,
        None => 0,
    }
}

/// Whether adding the counts of `b` to those of `a` stays within `u64`.
pub fn counts_fit_check(a: &StrMap<u64>, b: &StrMap<u64>) -> (ok: bool)
    ensures
        ok == counts_fit(a@, b@),
{
    let ghost items = b.items();
    let mut i: usize = 0;
    while i < b.len()
        invariant
            i <= items.len(),
            items == b.items(),
            forall|j: int| #![trigger items[j]]
                0 <= j < i ==> b@.contains_key(items[j].0) && b@[items[j].0] == items[j].1
                    && count_or_zero(a@, items[j].0) + items[j].1 <= u64::MAX,
        decreases items.len() - i,
    {
        let (k, v) = b.entry_at(i);
        if count_at(a, k).checked_add(*v).is_none() {
            return false;
        }
        i = i + 1;
    }
    proof {
        b.lemma_view_domain();
        assert forall|k: Seq<char>| #[trigger] b@.contains_key(k) implies count_or_zero(a@, k)
            + b@[k] <= u64::MAX by {
            let j = choose|j: int| 0 <= j < items.len() && items[j].0 == k;
            assert(items[j].0 == k);
        }
    }
    true
}

/// Whether adding the timings of `b` to those of `a` stays within `u64`.
pub fn times_fit_check(a: &StrMap<TimingStat>, b: &StrMap<TimingStat>) -> (ok: bool)
    ensures
        ok == times_fit(a@, b@),
{
    let ghost items = b.items();
    let mut i: usize = 0;
    while i < b.len()
        invariant
            i <= items.len(),
            items == b.items(),
            forall|j: int| #![trigger items[j]]
                0 <= j < i ==> b@.contains_key(items[j].0) && b@[items[j].0] == items[j].1
                    && timing_or_zero(a@, items[j].0).0 + items[j].1.total_ms <= u64::MAX
                    && timing_or_zero(a@, items[j].0).1 + items[j].1.samples <= u64::MAX,
        decreases items.len() - i,
    {
        let (k, v) = b.entry_at(i);
        let (total, samples) = match a.get(k.as_str()) {
            Some(t) => (t.total_ms, t.samples),
            None => (0u64, 0u64),
        };
        if total.checked_add(v.total_ms).is_none() || samples.checked_add(v.samples).is_none() {
            return false;
        }
        i = i + 1;
    }
    proof {
        b.lemma_view_domain();
        assert forall|k: Seq<char>| #[trigger] b@.contains_key(k) implies timing_or_zero(a@, k).0
            + b@[k].total_ms <= u64::MAX && timing_or_zero(a@, k).1 + b@[k].samples
            <= u64::MAX by {
            let j = choose|j: int| 0 <= j < items.len() && items[j].0 == k;
            assert(items[j].0 == k);
        }
    }
    true
}

/// How often `k` occurs among `pairs`.
fn occurrences_of(pairs: &Vec<String>, k: &String) -> (n: usize)
    ensures
        n == occurrences(string_views(pairs@), k@),
{
    let ghost v = string_views(pairs@);
    let key = chars_of(k.as_str());
    let mut n: usize = 0;
    let mut j: usize = 0;
    while j < pairs.len()
        invariant
            j <= pairs@.len(),
            v == string_views(pairs@),
            key@ == k@,
            n == occurrences(v.subrange(0, j as int), k@),
            n <= j,
        decreases pairs@.len() - j,
    {
        assert(v.subrange(0, j + 1).drop_last() =~= v.subrange(0, j as int));
        if str_is(pairs[j].as_str(), key.as_slice()) {
            n = n + 1;
        }
        j = j + 1;
    }
    assert(v.subrange(0, j as int) =~= v);
    n
}

/// Whether the per-pair totals after a session over `r` stay within `u64`.
fn pair_stats_fit_check(d: &AppData, r: &SessionRecord) -> (ok: bool)
    requires
        r.correct + r.errors <= u64::MAX,
    ensures
        ok == (forall|k: Seq<char>| #[trigger]
            string_views(r.pairs@).contains(k) ==> bump_fits(
                stats_or_zero(d.pair_stats@, k),
                occurrences(string_views(r.pairs@), k) as int,
                r.correct,
                r.errors,
                r.duration_ms,
            )),
{
    let ghost v = string_views(r.pairs@);
    let max: u128 = 0xffff_ffff_ffff_ffff;
    let c = r.correct as u128;
    let e = r.errors as u128;
    let dur = r.duration_ms as u128;
    let mut i: usize = 0;
    while i < r.pairs.len()
        invariant
            i <= r.pairs@.len(),
            v == string_views(r.pairs@),
            max == u64::MAX,
            c == r.correct,
            e == r.errors,
            dur == r.duration_ms,
            r.correct + r.errors <= u64::MAX,
            forall|j: int| #![trigger v[j]]
                0 <= j < i ==> bump_fits(
                    stats_or_zero(d.pair_stats@, v[j]),
                    occurrences(v, v[j]) as int,
                    r.correct,
                    r.errors,
                    r.duration_ms,
                ),
        decreases r.pairs@.len() - i,
    {
        let k = &r.pairs[i];
        let n = occurrences_of(&r.pairs, k) as u128;
        let st = match d.pair_stats.get(k.as_str()) {
            Some(x) => *x,
            None => PairStats::default(),
        };
        assert(st == stats_or_zero(d.pair_stats@, v[i as int]));
        assert(n * c <= 0xffff_ffff_ffff_ffff * 0xffff_ffff_ffff_ffffu128) by (nonlinear_arith)
            requires
                n <= 0xffff_ffff_ffff_ffffu128,
                c <= 0xffff_ffff_ffff_ffffu128,
        ;
        assert(n * e <= 0xffff_ffff_ffff_ffff * 0xffff_ffff_ffff_ffffu128) by (nonlinear_arith)
            requires
                n <= 0xffff_ffff_ffff_ffffu128,
                e <= 0xffff_ffff_ffff_ffffu128,
        ;
        assert(n * dur <= 0xffff_ffff_ffff_ffff * 0xffff_ffff_ffff_ffffu128) by (nonlinear_arith)
            requires
                n <= 0xffff_ffff_ffff_ffffu128,
                dur <= 0xffff_ffff_ffff_ffffu128,
        ;
        assert(n * (c + e) <= 0xffff_ffff_ffff_ffff * 0xffff_ffff_ffff_ffffu128) by (nonlinear_arith)
            requires
                n <= 0xffff_ffff_ffff_ffffu128,
                c + e <= 0xffff_ffff_ffff_ffffu128,
        ;
        let fits = st.sessions as u128 + n <= max && st.correct as u128 + n * c <= max
            && st.errors as u128 + n * e <= max && st.total_ms as u128 + n * dur <= max
            && st.typed as u128 + n * (c + e) <= max;
        if !fits {
            assert(v.contains(v[i as int]));
            return false;
        }
        i = i + 1;
    }
    assert forall|k: Seq<char>| #[trigger] v.contains(k) implies bump_fits(
        stats_or_zero(d.pair_stats@, k),
        occurrences(v, k) as int,
        r.correct,
        r.errors,
        r.duration_ms,
    ) by {
        let j = choose|j: int| 0 <= j < v.len() && v[j] == k;
        assert(v[j] == k);
    }
    true
}

impl AppData {
    /// Whether adding the session `r` keeps every total within `u64` (what
    /// `absorb` needs).
    pub fn can_absorb(&self, r: &SessionRecord) -> (ok: bool)
        ensures
            ok == absorb_fits(*self, *r),
    {
        if self.sessions_completed.checked_add(1).is_none()
            || self.total_practice_ms.checked_add(r.duration_ms).is_none()
            || self.total_correct.checked_add(r.correct).is_none()
            || self.total_errors.checked_add(r.errors).is_none()
        {
            return false;
        }
        if r.correct.checked_add(r.errors).is_none() {
            if r.pairs.len() > 0 {
                return false;
            }
            proof {
                assert(string_views(r.pairs@).len() == 0);
            }
        } else if !pair_stats_fit_check(self, r) {
            return false;
        }
        counts_fit_check(&self.key_errors, &r.key_errors)
            && counts_fit_check(&self.transition_errors, &r.transition_errors)
            && counts_fit_check(&self.transition_counts, &r.transition_counts)
            && times_fit_check(&self.key_timings, &r.key_timings)
            && times_fit_check(&self.transition_timings, &r.transition_timings)
    }

    /// Adds a finished session to the totals, the per-pair and per-key
    /// statistics, and the recent list (newest first, at most twenty).
    pub fn absorb(&mut self, r: SessionRecord)
        requires
            absorb_fits(*old(self), r),
        ensures
            absorbed(*old(self), *final(self), r),
            final(self).settings == old(self).settings,
            final(self).sessions_completed == old(self).sessions_completed + 1,
            final(self).total_practice_ms == old(self).total_practice_ms + r.duration_ms,
            final(self).total_correct == old(self).total_correct + r.correct,
            final(self).total_errors == old(self).total_errors + r.errors,
            final(self).pair_stats@ == pair_stats_after(
                old(self).pair_stats@,
                string_views(r.pairs@),
                r.correct,
                r.errors,
                r.duration_ms,
            ),
            final(self).key_errors@ == merged_counts(old(self).key_errors@, r.key_errors@),
            final(self).transition_errors@ == merged_counts(
                old(self).transition_errors@,
                r.transition_errors@,
            ),
            final(self).transition_counts@ == merged_counts(
                old(self).transition_counts@,
                r.transition_counts@,
            ),
            final(self).key_timings@ == merged_times(old(self).key_timings@, r.key_timings@),
            final(self).transition_timings@ == merged_times(
                old(self).transition_timings@,
                r.transition_timings@,
            ),
            final(self).recent_sessions@ == recent_after(
                old(self).recent_sessions@,
                summary_of(r),
            ),
    {
        self.sessions_completed = self.sessions_completed + 1;
        self.total_practice_ms = self.total_practice_ms + r.duration_ms;
        self.total_correct = self.total_correct + r.correct;
        self.total_errors = self.total_errors + r.errors;
        let ghost pairs = string_views(r.pairs@);
        let ghost m0 = old(self).pair_stats@;
        let mut i: usize = 0;
        assert(pairs.subrange(0, 0) =~= Seq::<Seq<char>>::empty());
        assert forall|k: Seq<char>| occurrences(pairs.subrange(0, 0), k) == 0 by {}
        assert forall|k: Seq<char>| #[trigger] m0.contains_key(k) implies bumped(
            stats_or_zero(m0, k),
            0,
            r.correct,
            r.errors,
            r.duration_ms,
        ) == m0[k] by {
            assert(0 * r.correct == 0 && 0 * r.errors == 0 && 0 * r.duration_ms == 0 && 0 * (
            r.correct + r.errors) == 0) by (nonlinear_arith);
        }
        assert(pair_stats_after(m0, pairs.subrange(0, 0), r.correct, r.errors, r.duration_ms)
            =~= m0);
        while i < r.pairs.len()
            invariant
                i <= r.pairs@.len(),
                pairs == string_views(r.pairs@),
                absorb_fits(*old(self), r),
                m0 == old(self).pair_stats@,
                self.settings == old(self).settings,
                self.sessions_completed == old(self).sessions_completed + 1,
                self.total_practice_ms == old(self).total_practice_ms + r.duration_ms,
                self.total_correct == old(self).total_correct + r.correct,
                self.total_errors == old(self).total_errors + r.errors,
                self.key_errors == old(self).key_errors,
                self.transition_errors == old(self).transition_errors,
                self.transition_counts == old(self).transition_counts,
                self.key_timings == old(self).key_timings,
                self.transition_timings == old(self).transition_timings,
                self.recent_sessions == old(self).recent_sessions,
                self.pair_stats@ == pair_stats_after(
                    m0,
                    pairs.subrange(0, i as int),
                    r.correct,
                    r.errors,
                    r.duration_ms,
                ),
            decreases r.pairs@.len() - i,
        {
            let pair = &r.pairs[i];
            let ghost k = pair@;
            assert(pairs[i as int] == k);
            let current = match self.pair_stats.get(pair.as_str()) {
                Some(s) => *s,
                None => PairStats { sessions: 0, correct: 0, errors: 0, total_ms: 0, typed: 0 },
            };
            proof {
                lemma_occurrences_prefix(pairs, i as int, k);
                assert(pairs.contains(k));
                let n = occurrences(pairs.subrange(0, i as int), k) as int;
                let total = occurrences(pairs, k) as int;
                assert(current == bumped(stats_or_zero(m0, k), n, r.correct, r.errors, r.duration_ms))
                    by {
                    if n > 0 {
                        lemma_occurrences_contains(pairs.subrange(0, i as int), k);
                    } else {
                        assert(bumped(stats_or_zero(m0, k), 0, r.correct, r.errors, r.duration_ms)
                            == stats_or_zero(m0, k));
                    }
                }
                lemma_bump_step(stats_or_zero(m0, k), n, total, r.correct, r.errors, r.duration_ms);
            }
            let next = PairStats {
                sessions: current.sessions + 1,
                correct: current.correct + r.correct,
                errors: current.errors + r.errors,
                total_ms: current.total_ms + r.duration_ms,
                typed: current.typed + (r.correct + r.errors),
            };
            self.pair_stats.insert(pair.clone(), next);
            proof {
                let pre = pairs.subrange(0, i as int);
                let post = pairs.subrange(0, i + 1);
                assert forall|q: Seq<char>| q != k implies occurrences(post, q) == occurrences(
                    pre,
                    q,
                ) by {
                    lemma_occurrences_prefix(pairs, i as int, q);
                }
                assert forall|q: Seq<char>| #[trigger] post.contains(q) == (pre.contains(q) || q
                    == k) by {
                    lemma_occurrences_prefix(pairs, i as int, q);
                    lemma_occurrences_contains(pre, q);
                    lemma_occurrences_contains(post, q);
                }
                assert(self.pair_stats@ =~= pair_stats_after(
                    m0,
                    post,
                    r.correct,
                    r.errors,
                    r.duration_ms,
                ));
            }
            i = i + 1;
        }
        assert(pairs.subrange(0, i as int) =~= pairs);
        merge_counts(&mut self.key_errors, r.key_errors);
        merge_counts(&mut self.transition_errors, r.transition_errors);
        merge_counts(&mut self.transition_counts, r.transition_counts);
        merge_times(&mut self.key_timings, r.key_timings);
        merge_times(&mut self.transition_timings, r.transition_timings);
        let summary = SessionSummary {
            timestamp_ms: r.timestamp_ms,
            mode: r.mode,
            pairs: r.pairs,
            wpm_bits: r.wpm_bits,
            accuracy_bits: r.accuracy_bits,
            duration_ms: r.duration_ms,
        };
        self.recent_sessions.insert(0, summary);
        self.recent_sessions.truncate(RECENT_LIMIT);
        assert(self.recent_sessions@ =~= recent_after(old(self).recent_sessions@, summary_of(r)));
    }
}


/// Law: the recent list never holds more than `RECENT_LIMIT` sessions; the
/// newest comes first and the older ones follow in their order.
pub proof fn lemma_recent_bounded(old: Seq<SessionSummary>, s: SessionSummary)
    ensures
        recent_after(old, s).len() <= RECENT_LIMIT,
        recent_after(old, s)[0] == s,
        forall|i: int| 1 <= i < recent_after(old, s).len() ==> #[trigger] recent_after(old, s)[i]
            == old[i - 1],
        recent_after(old, s).len() == (if old.len() + 1 <= RECENT_LIMIT {
            old.len() + 1int
        } else {
            RECENT_LIMIT as int
        }),
{
}

} // verus!
