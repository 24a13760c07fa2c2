use vstd::prelude::*;
use crate::adaptive::{weak_spec, AdaptiveWeights};
use crate::coverage::{coverage_fits, coverage_layout, coverage_line, coverage_line_spec, pairs_behind, schedule_of};
use crate::lines::{mixed, mixed_ok, mixed_spec, standalone, standalone_spec};
use crate::patterns::KeyPair;
use crate::rng::Rng;
use crate::template::Template;
use crate::model::PracticeSection;
use crate::text::{char_views, same_chars, string_of, string_views};

verus! {

/// Everything the lines of a session depend on besides the generator state.
pub struct PlanSpec {
    pub pairs: Seq<KeyPair>,
    pub standalone: bool,
    pub template: Template,
    pub extended: bool,
    pub km: Map<char, u64>,
    pub tm: Map<(char, char), u64>,
    pub coverage: Seq<KeyPair>,
    pub counts: Seq<usize>,
}

/// One attempt at line `line_index` of section `stage`, and the generator state after it.
pub open spec fn candidate_spec(p: PlanSpec, stage: int, line_index: int, attempt: int, state: u64) -> (
    Seq<char>,
    u64,
) {
    if p.standalone {
        standalone_spec(
            p.pairs[0],
            stage,
            line_index + attempt,
            p.template,
            p.extended,
            p.km,
            p.tm,
            state,
        )
    } else if stage == 3 && p.pairs.len() > 1 {
        (coverage_line_spec(p.coverage, p.counts[3] as int, line_index, attempt), state)
    } else {
        mixed_spec(p.pairs, stage, line_index + attempt, p.template, p.extended, p.km, p.tm, state)
    }
}

/// Attempts from `attempt` on: the first line not used before is taken and
/// recorded; after twelve attempts the last one is taken as it is.
pub open spec fn attempts_from(
    p: PlanSpec,
    stage: int,
    line_index: int,
    used: Set<Seq<char>>,
    state: u64,
    attempt: int,
) -> (Seq<char>, Set<Seq<char>>, u64)
    decreases 12 - attempt,
{
    let (line, next) = candidate_spec(p, stage, line_index, attempt, state);
    if !used.contains(line) {
        (line, used.insert(line), next)
    } else if attempt + 1 >= 12 {
        (line, used, next)
    } else {
        attempts_from(p, stage, line_index, used, next, attempt + 1)
    }
}

/// The first `k` lines of section `stage`.
pub open spec fn lines_upto(p: PlanSpec, stage: int, k: int, used: Set<Seq<char>>, state: u64) -> (
    Seq<Seq<char>>,
    Set<Seq<char>>,
    u64,
)
    decreases k,
{
    if k <= 0 {
        (Seq::empty(), used, state)
    } else {
        let (prev, u, s) = lines_upto(p, stage, k - 1, used, state);
        let (line, u2, s2) = attempts_from(p, stage, k - 1, u, s, 0);
        (prev.push(line), u2, s2)
    }
}

/// The lines of the first `st` sections.
pub open spec fn sections_upto(p: PlanSpec, st: int, used: Set<Seq<char>>, state: u64) -> (
    Seq<Seq<Seq<char>>>,
    Set<Seq<char>>,
    u64,
)
    decreases st,
{
    if st <= 0 {
        (Seq::empty(), used, state)
    } else {
        let (prev, u, s) = sections_upto(p, st - 1, used, state);
        let (lines, u2, s2) = lines_upto(p, st - 1, p.counts[st - 1] as int, u, s);
        (prev.push(lines), u2, s2)
    }
}

/// What a plan needs for its lines to be built without overflow or panic.
pub open spec fn plan_ok(p: PlanSpec) -> bool {
    &&& 1 <= p.pairs.len() <= 15
    &&& p.standalone ==> p.pairs.len() == 1
    &&& p.pairs.len() >= 2 ==> schedule_of(p.coverage.len() as int, p.pairs.len() as int)
    &&& p.pairs.len() >= 2 ==> pairs_behind(p.coverage.len() as int) == p.pairs.len()
    &&& p.counts.len() == 6
    &&& forall|k: int| 0 <= k < 6 ==> 1 <= #[trigger] p.counts[k] <= 90
}

/// The state the lines of a session are drawn with.
pub struct LinePlan {
    pub pairs: Vec<KeyPair>,
    pub standalone: bool,
    pub template: Template,
    pub extended: bool,
    pub adaptive: AdaptiveWeights,
    pub coverage: Vec<KeyPair>,
    pub counts: [usize; 6],
}

impl LinePlan {
    /// The plan as mathematical values.
    pub open spec fn spec(&self) -> PlanSpec {
        PlanSpec {
            pairs: self.pairs@,
            standalone: self.standalone,
            template: self.template,
            extended: self.extended,
            km: self.adaptive.key_map(),
            tm: self.adaptive.transition_map(),
            coverage: self.coverage@,
            counts: self.counts@,
        }
    }
}

proof fn lemma_small_coverage_fits(len: int, n: int, lc: int, line: int, attempt: int)
    requires
        schedule_of(len, n),
        n <= 15,
        1 <= lc <= 90,
        0 <= line < lc,
        0 <= attempt < 12,
    ensures
        coverage_fits(len, n, lc, line, attempt),
{
    assert(len <= 840) by (nonlinear_arith)
        requires
            len == 4 * n * (n - 1),
            2 <= n <= 15,
    ;
    let block = n * 4;
    let capacity = if lc * 12 >= block {
        lc * 12
    } else {
        block
    };
    assert(capacity / block * block <= capacity) by (nonlinear_arith)
        requires
            block >= 1,
            capacity >= 0,
    ;
    let (covered, line_len, start) = coverage_layout(len, n, lc, line, attempt);
    assert(covered <= 1080);
    let wanted = if covered >= lc * 6 {
        covered
    } else {
        lc * 6
    };
    let target = (wanted + block - 1) / block * block;
    assert(target <= wanted + block) by (nonlinear_arith)
        requires
            target == (wanted + block - 1) / block * block,
            block >= 1,
            wanted >= 0,
    ;
    let base = target / lc;
    assert(base <= target) by (nonlinear_arith)
        requires
            base == target / lc,
            lc >= 1,
            target >= 0,
    ;
    assert(line * base <= 90 * 1200) by (nonlinear_arith)
        requires
            0 <= line < 90,
            0 <= base <= 1200,
    ;
    assert(line * (wanted + block) <= 90 * 1200) by (nonlinear_arith)
        requires
            0 <= line < 90,
            0 <= wanted + block <= 1200,
    ;
}

impl LinePlan {
    /// One attempt at a line.
    pub fn candidate(&self, stage: usize, line_index: usize, attempt: usize, rng: &mut Rng) -> (r:
        Vec<char>)
        requires
            plan_ok(self.spec()),
            stage < 6,
            line_index < self.counts@[stage as int],
            attempt < 12,
        ensures
            (r@, final(rng).0) == candidate_spec(
                self.spec(),
                stage as int,
                line_index as int,
                attempt as int,
                old(rng).0,
            ),
    {
        if self.standalone {
            standalone(
                self.pairs[0],
                stage,
                line_index + attempt,
                self.template,
                self.extended,
                &self.adaptive,
                rng,
            )
        } else if stage == 3 && self.pairs.len() > 1 {
            proof {
                lemma_small_coverage_fits(
                    self.coverage@.len() as int,
                    self.pairs@.len() as int,
                    self.counts@[3] as int,
                    line_index as int,
                    attempt as int,
                );
            }
            coverage_line(&self.coverage, self.counts[3], line_index, attempt)
        } else {
            mixed(
                &self.pairs,
                stage,
                line_index + attempt,
                self.template,
                self.extended,
                &self.adaptive,
                rng,
            )
        }
    }

    /// A line not given before in this session when one is found in twelve
    /// attempts; the lines given so far are `used`.
    pub fn practice_line(
        &self,
        stage: usize,
        line_index: usize,
        used: &mut Vec<Vec<char>>,
        rng: &mut Rng,
    ) -> (r: Vec<char>)
        requires
            plan_ok(self.spec()),
            stage < 6,
            line_index < self.counts@[stage as int],
        ensures
            (r@, char_views(final(used)@).to_set(), final(rng).0) == attempts_from(
                self.spec(),
                stage as int,
                line_index as int,
                char_views(old(used)@).to_set(),
                old(rng).0,
                0,
            ),
    {
        let ghost target = attempts_from(
            self.spec(),
            stage as int,
            line_index as int,
            char_views(used@).to_set(),
            rng.0,
            0,
        );
        let mut attempt: usize = 0;
        loop
            invariant
                plan_ok(self.spec()),
                stage < 6,
                line_index < self.counts@[stage as int],
                attempt < 12,
                target == attempts_from(
                    self.spec(),
                    stage as int,
                    line_index as int,
                    char_views(old(used)@).to_set(),
                    old(rng).0,
                    0,
                ),
                target == attempts_from(
                    self.spec(),
                    stage as int,
                    line_index as int,
                    char_views(used@).to_set(),
                    rng.0,
                    attempt as int,
                ),
            decreases 12 - attempt,
        {
            let ghost before = used@;
            let ghost state = rng.0;
            let line = self.candidate(stage, line_index, attempt, rng);
            assert(attempts_from(
                self.spec(),
                stage as int,
                line_index as int,
                char_views(before).to_set(),
                state,
                attempt as int,
            ) == (if !char_views(before).to_set().contains(line@) {
                (line@, char_views(before).to_set().insert(line@), rng.0)
            } else if attempt + 1 >= 12 {
                (line@, char_views(before).to_set(), rng.0)
            } else {
                attempts_from(
                    self.spec(),
                    stage as int,
                    line_index as int,
                    char_views(before).to_set(),
                    rng.0,
                    attempt + 1,
                )
            }));
            let mut seen = false;
            let mut k: usize = 0;
            while k < used.len()
                invariant
                    k <= used@.len(),
                    seen == exists|m: int| 0 <= m < k && used@[m]@ == line@,
                decreases used@.len() - k,
            {
                if same_chars(&used[k], &line) {
                    seen = true;
                }
                k = k + 1;
            }
            proof {
                let views = char_views(used@);
                assert(seen == views.to_set().contains(line@)) by {
                    if seen {
                        let m = choose|m: int| 0 <= m < k && used@[m]@ == line@;
                        assert(views[m] == line@);
                    }
                    if views.to_set().contains(line@) {
                        let m = choose|m: int| 0 <= m < views.len() && views[m] == line@;
                        assert(used@[m]@ == line@);
                    }
                }
            }
            if !seen {
                let copy = line.clone();
                assert(copy@ =~= line@);
                used.push(copy);
                proof {
                    assert(char_views(used@) =~= char_views(before).push(line@));
                    assert(char_views(used@).to_set() =~= char_views(before).to_set().insert(line@))
                        by {
                        char_views(before).lemma_push_to_set_commute(line@);
                    }
                }
                return line;
            }
            if attempt + 1 >= 12 {
                return line;
            }
            attempt = attempt + 1;
        }
    }
}


/// The names of the six sections, in order.
pub open spec fn section_name_spec(i: int) -> Seq<char> {
    if i == 0 {
        "Warm-up"@
    } else if i == 1 {
        "Basic patterns"@
    } else if i == 2 {
        "Alternation"@
    } else if i == 3 {
        "Transition practice"@
    } else if i == 4 {
        "Difficult combinations"@
    } else {
        "Longer sequences"@
    }
}

/// The name of section `i`.
pub fn section_name(i: usize) -> (s: String)
    ensures
        s@ == section_name_spec(i as int),
{
    if i == 0 {
        String::from_str("Warm-up")
    } else if i == 1 {
        String::from_str("Basic patterns")
    } else if i == 2 {
        String::from_str("Alternation")
    } else if i == 3 {
        String::from_str("Transition practice")
    } else if i == 4 {
        String::from_str("Difficult combinations")
    } else {
        String::from_str("Longer sequences")
    }
}

/// The lines of each section, as character sequences.
pub open spec fn section_views(s: Seq<PracticeSection>) -> Seq<Seq<Seq<char>>> {
    s.map_values(|x: PracticeSection| string_views(x.lines@))
}

impl LinePlan {
    /// The six named sections of the session.
    pub fn build_sections(&self, rng: &mut Rng) -> (r: Vec<PracticeSection>)
        requires
            plan_ok(self.spec()),
        ensures
            r@.len() == 6,
            forall|i: int| 0 <= i < 6 ==> (#[trigger] r@[i]).name@ == section_name_spec(i),
            section_views(r@) == sections_upto(self.spec(), 6, Set::empty(), old(rng).0).0,
    {
        let ghost p = self.spec();
        let mut used: Vec<Vec<char>> = Vec::new();
        assert(char_views(used@).to_set() =~= Set::<Seq<char>>::empty());
        let mut sections: Vec<PracticeSection> = Vec::new();
        let mut stage: usize = 0;
        while stage < 6
            invariant
                stage <= 6,
                p == self.spec(),
                plan_ok(p),
                sections@.len() == stage,
                forall|i: int| 0 <= i < stage ==> (#[trigger] sections@[i]).name@ == section_name_spec(i),
                (section_views(sections@), char_views(used@).to_set(), rng.0) == sections_upto(
                    p,
                    stage as int,
                    Set::empty(),
                    old(rng).0,
                ),
            decreases 6 - stage,
        {
            let count = self.counts[stage];
            let ghost u0 = char_views(used@).to_set();
            let ghost s0 = rng.0;
            let mut lines: Vec<String> = Vec::new();
            let mut line_index: usize = 0;
            while line_index < count
                invariant
                    stage < 6,
                    p == self.spec(),
                    plan_ok(p),
                    count == p.counts[stage as int],
                    line_index <= count,
                    (string_views(lines@), char_views(used@).to_set(), rng.0) == lines_upto(
                        p,
                        stage as int,
                        line_index as int,
                        u0,
                        s0,
                    ),
                decreases count - line_index,
            {
                let ghost before = lines@;
                let line = self.practice_line(stage, line_index, &mut used, rng);
                let text = string_of(line.as_slice());
                lines.push(text);
                assert(string_views(lines@) =~= string_views(before).push(line@));
                line_index = line_index + 1;
            }
            let ghost before = sections@;
            let name = section_name(stage);
            sections.push(PracticeSection { name, lines });
            assert(section_views(sections@) =~= section_views(before).push(
                lines_upto(p, stage as int, count as int, u0, s0).0,
            ));
            stage = stage + 1;
        }
        sections
    }
}

} // verus!
