use std::collections::BTreeSet;
use typing_prac::generator::{generate, generate_with_seed};
use typing_prac::model::{AppData, GenerateRequest, SessionPlan};
use typing_prac::plan::section_name;

fn request(pairs: &[&str], mode: &str, length: &str, seed: Option<u64>) -> GenerateRequest {
    GenerateRequest {
        pairs: pairs.iter().map(|pair| pair.to_string()).collect(),
        mode: mode.into(),
        length: length.into(),
        seed,
        adaptive: false,
    }
}

fn refusal(r: Result<SessionPlan, String>) -> String {
    match r {
        Ok(_) => panic!("expected a refusal"),
        Err(e) => e,
    }
}

fn line_texts(plan: &SessionPlan) -> Vec<Vec<String>> {
    plan.sections.iter().map(|s| s.lines.clone()).collect()
}

#[test]
fn each_refusal_names_its_cause() {
    let data = AppData::default();
    assert_eq!(
        refusal(generate(&request(&[], "mixed", "short", Some(1)), &data)),
        "Select at least one key pair"
    );
    assert_eq!(
        refusal(generate(&request(&["fj", "??"], "mixed", "short", Some(1)), &data)),
        "Unknown key pair: ??"
    );
    assert_eq!(
        refusal(generate(&request(&["fj", "dk"], "standalone", "short", Some(1)), &data)),
        "Standalone practice requires exactly one pair"
    );
    assert_eq!(
        refusal(generate(&request(&["fj"], "random", "short", Some(1)), &data)),
        "Unknown practice mode"
    );
    assert_eq!(
        refusal(generate(&request(&["fj"], "mixed", "huge", Some(1)), &data)),
        "Unknown session length"
    );
}

#[test]
fn pairs_are_read_in_lower_case_and_kept_once() {
    let data = AppData::default();
    let plan = generate(&request(&["FJ", "dk", "fj", "DK"], "mixed", "short", Some(9)), &data).unwrap();
    assert_eq!(plan.pairs, vec!["fj".to_string(), "dk".to_string()]);
    assert_eq!(plan.mode, "mixed");
    assert_eq!(plan.seed, 9);
    let single = generate(&request(&["A;"], "standalone", "short", Some(3)), &data).unwrap();
    assert_eq!(single.pairs, vec!["a;".to_string()]);
    assert!(single
        .sections
        .iter()
        .flat_map(|s| s.lines.iter())
        .all(|line| line.chars().all(|c| "a; ".contains(c))));
}

#[test]
fn sessions_have_six_named_sections_of_the_requested_size() {
    let data = AppData::default();
    let names = [
        "Warm-up",
        "Basic patterns",
        "Alternation",
        "Transition practice",
        "Difficult combinations",
        "Longer sequences",
    ];
    for (length, total) in [("short", 24), ("medium", 48), ("endless", 48), ("long", 90)] {
        for seed in [1u64, 2, 3, 4, 5, 6] {
            let plan =
                generate(&request(&["fj", "dk", "sl"], "mixed", length, Some(seed)), &data).unwrap();
            assert_eq!(plan.sections.len(), 6);
            for (i, section) in plan.sections.iter().enumerate() {
                assert_eq!(section.name, names[i]);
                assert_eq!(section_name(i), names[i]);
                assert!(!section.lines.is_empty());
            }
            let count: usize = plan.sections.iter().map(|s| s.lines.len()).sum();
            assert_eq!(count, total);
            assert!(plan
                .sections
                .iter()
                .flat_map(|s| s.lines.iter())
                .all(|line| line.chars().all(|c| "fjdksl ".contains(c))));
        }
    }
}

#[test]
fn a_seed_reproduces_its_session() {
    let data = AppData::default();
    let first = generate(&request(&["fj", "dk", "sl"], "mixed", "long", None), &data).unwrap();
    let again =
        generate(&request(&["fj", "dk", "sl"], "mixed", "long", Some(first.seed)), &data).unwrap();
    assert_eq!(line_texts(&first), line_texts(&again));
    let direct = generate_with_seed(&request(&["fj", "dk", "sl"], "mixed", "long", None), &data, first.seed)
        .unwrap();
    assert_eq!(line_texts(&first), line_texts(&direct));
    assert_eq!(direct.seed, first.seed);
}

#[test]
fn transition_section_covers_every_direction_between_pairs() {
    let data = AppData::default();
    for seed in 1..=10u64 {
        let plan = generate(&request(&["fj", "dk", "sl"], "mixed", "short", Some(seed)), &data).unwrap();
        let groups: BTreeSet<String> = plan.sections[3]
            .lines
            .iter()
            .flat_map(|line| line.split_whitespace().map(str::to_string))
            .collect();
        let pairs = ["fj", "dk", "sl"];
        for a in pairs {
            for b in pairs {
                if a == b {
                    continue;
                }
                for x in a.chars() {
                    for y in b.chars() {
                        let edge: String = [x, y].iter().collect();
                        assert!(groups.contains(&edge), "seed {seed} misses {edge}");
                    }
                }
            }
        }
    }
}

#[test]
fn alternation_groups_always_cross_two_pairs() {
    let data = AppData::default();
    let pairs = ["fj", "dk", "sl"];
    let pair_of = |c: char| pairs.iter().position(|p| p.contains(c)).unwrap();
    for length in ["short", "long"] {
        for seed in 1..=10u64 {
            let plan = generate(&request(&pairs, "mixed", length, Some(seed)), &data).unwrap();
            for line in &plan.sections[2].lines {
                let groups: Vec<&str> = line.split(' ').collect();
                assert_eq!(groups.len(), 5);
                for group in groups {
                    let owners: BTreeSet<usize> = group.chars().map(pair_of).collect();
                    assert!(owners.len() >= 2, "seed {seed}: {group} stays in one pair");
                }
            }
        }
    }
}

#[test]
fn oversized_statistics_refuse_only_their_own_keys() {
    let mut data = AppData::default();
    data.key_errors.insert("d".into(), 1);
    data.transition_counts.insert("fd".into(), u64::MAX);
    data.transition_counts.insert("jd".into(), 1);
    let mut req = request(&["fj", "dk"], "mixed", "short", Some(2));
    req.adaptive = true;
    assert_eq!(refusal(generate(&req, &data)), "Practice statistics are too large");
    req.adaptive = false;
    assert!(generate(&req, &data).is_ok());
    let mut other = request(&["sl", "a;"], "mixed", "short", Some(2));
    other.adaptive = true;
    assert!(generate(&other, &data).is_ok());
    let mut unknown = request(&["fj", "dk"], "mixed", "huge", Some(2));
    unknown.adaptive = true;
    assert_eq!(refusal(generate(&unknown, &data)), "Unknown session length");
}

#[test]
fn lines_are_groups_of_two_to_twelve_keys() {
    let mut data = AppData::default();
    data.transition_errors.insert("fd".into(), 20);
    data.transition_counts.insert("fd".into(), 25);
    for (pairs, mode) in [(vec!["fj"], "standalone"), (vec!["fj", "dk", "sl"], "mixed"), (vec!["c,"], "mixed")] {
        let keys: String = pairs.concat();
        for length in ["short", "medium", "long"] {
            for seed in 1..=8u64 {
                let mut req = request(&pairs, mode, length, Some(seed));
                req.adaptive = true;
                let plan = generate(&req, &data).unwrap();
                for line in plan.sections.iter().flat_map(|s| s.lines.iter()) {
                    for group in line.split(' ') {
                        let n = group.chars().count();
                        let cap = if length == "long" { 12 } else { 10 };
                        assert!((2..=cap).contains(&n), "group {group:?} in {line:?}");
                        assert!(group.chars().all(|c| keys.contains(c)));
                    }
                }
            }
        }
    }
}
