use std::collections::{BTreeMap, BTreeSet};
use typing_prac::adaptive::adaptive_weights;
use typing_prac::generator::generate;
use typing_prac::model::{AppData, GenerateRequest, PracticeSection, SessionPlan, TimingStat};

const PAIRS: &[&str] = &[
    "fj", "dk", "sl", "a;", "gh", "ru", "ei", "wo", "qy", "tp", "vm", "c,", "x.", "z/", "bn",
];

fn req(pairs: &[&str], mode: &str, seed: u64) -> GenerateRequest {
    GenerateRequest {
        pairs: pairs.iter().map(|pair| pair.to_string()).collect(),
        mode: mode.into(),
        length: "short".into(),
        seed: Some(seed),
        adaptive: false,
    }
}
fn lines(plan: &SessionPlan) -> impl Iterator<Item = &String> {
    plan.sections.iter().flat_map(|section| &section.lines)
}
fn text(plan: &SessionPlan) -> String {
    lines(plan).cloned().collect::<Vec<_>>().join(" ")
}
fn key_counts(plan: &SessionPlan, keys: &str) -> BTreeMap<char, usize> {
    let all = text(plan);
    keys.chars()
        .map(|key| (key, all.matches(key).count()))
        .collect()
}
fn transitions(plan: &SessionPlan) -> BTreeSet<String> {
    lines(plan)
        .flat_map(|line| line.split_whitespace())
        .flat_map(|group| {
            let chars: Vec<char> = group.chars().collect();
            chars
                .windows(2)
                .map(|edge| edge.iter().collect())
                .collect::<Vec<String>>()
        })
        .collect()
}
fn average_group_length(section: &PracticeSection) -> f64 {
    let groups: Vec<&str> = section
        .lines
        .iter()
        .flat_map(|line| line.split_whitespace())
        .collect();
    groups.iter().map(|group| group.len()).sum::<usize>() as f64 / groups.len() as f64
}

fn group_lengths(plan: &SessionPlan) -> Vec<usize> {
    lines(plan)
        .flat_map(|line| line.split_whitespace().map(str::len))
        .collect()
}

#[test]
fn empty_and_invalid_selections_are_safe() {
    assert!(generate(&req(&[], "mixed", 1), &AppData::default()).is_err());
    assert!(generate(&req(&["fj", "??"], "mixed", 1), &AppData::default()).is_err());
    assert!(generate(&req(&["fj", "dk"], "standalone", 1), &AppData::default()).is_err());
}

#[test]
fn standalone_has_deliberate_progression_for_every_pair() {
    for &pair in PAIRS {
        let plan = generate(&req(&[pair], "standalone", 17), &AppData::default()).unwrap();
        let allowed = format!("{} ", pair);
        assert!(
            text(&plan).chars().all(|key| allowed.contains(key)),
            "unexpected key for {pair}"
        );
        let chars: Vec<char> = pair.chars().collect();
        let warm = plan.sections[0].lines.join(" ");
        assert!(warm.contains(&chars[0].to_string().repeat(3)));
        assert!(warm.contains(&chars[1].to_string().repeat(3)));
        let basic = plan.sections[1].lines.join(" ");
        assert!(basic.contains(&format!("{}{}", chars[0], chars[1])));
        assert!(basic.contains(&format!("{}{}", chars[1], chars[0])));
        assert!(
            average_group_length(&plan.sections[5])
                > average_group_length(&plan.sections[0]) + 4.0
        );
    }
}

#[test]
fn mixed_uses_only_selected_keys_and_balances_them() {
    for seed in 1..=20 {
        let mut request = req(&["fj", "dk", "sl", "a;"], "mixed", seed);
        request.length = "long".into();
        let plan = generate(&request, &AppData::default()).unwrap();
        assert!(text(&plan).chars().all(|key| "fjdksla; ".contains(key)));
        let counts = key_counts(&plan, "fjdksla;");
        let min = *counts.values().min().unwrap() as f64;
        let max = *counts.values().max().unwrap() as f64;
        assert!(max / min < 1.30, "seed {seed} is imbalanced: {counts:?}");
    }
}

#[test]
fn mixed_covers_every_direction_between_two_pairs() {
    let plan = generate(&req(&["fj", "dk"], "mixed", 31), &AppData::default()).unwrap();
    let found = transitions(&plan);
    for edge in ["fd", "fk", "jd", "jk", "df", "dj", "kf", "kj"] {
        assert!(found.contains(edge), "missing {edge}");
    }
}

#[test]
fn four_pairs_cover_the_complete_directional_transition_space() {
    let plan = generate(
        &req(&["fj", "dk", "sl", "a;"], "mixed", 44),
        &AppData::default(),
    )
    .unwrap();
    let found = transitions(&plan);
    let keys: Vec<char> = "fjdksla;".chars().collect();
    for &from in &keys {
        for &to in &keys {
            if from != to {
                assert!(found.contains(&format!("{from}{to}")), "missing {from}{to}");
            }
        }
    }
}

#[test]
fn mixed_is_not_concatenated_standalone_practice() {
    let mixed = generate(&req(&["fj", "dk"], "mixed", 51), &AppData::default()).unwrap();
    let cross = transitions(&mixed)
        .iter()
        .filter(|edge| {
            let chars: Vec<char> = edge.chars().collect();
            "fj".contains(chars[0]) && "dk".contains(chars[1])
                || "dk".contains(chars[0]) && "fj".contains(chars[1])
        })
        .count();
    assert!(cross >= 8);
    assert!(mixed.sections[2].lines.iter().all(|line| {
        line.split_whitespace().all(|group| {
            group.chars().any(|key| "fj".contains(key))
                && group.chars().any(|key| "dk".contains(key))
        })
    }));
}

#[test]
fn punctuation_pairs_are_preserved() {
    let plan = generate(&req(&["c,", "x.", "z/"], "mixed", 63), &AppData::default()).unwrap();
    let generated = text(&plan);
    assert!(generated.contains(',') && generated.contains('.') && generated.contains('/'));
    assert!(generated.chars().all(|key| "c,x.z/ ".contains(key)));
}

#[test]
fn sections_become_longer_and_more_varied() {
    let plan = generate(&req(&["fj", "dk"], "mixed", 72), &AppData::default()).unwrap();
    assert!(
        average_group_length(&plan.sections[5]) > average_group_length(&plan.sections[0]) + 5.0
    );
    assert!(transitions(&plan).len() >= 12);
}

#[test]
fn short_and_medium_sessions_keep_dense_chunks_in_the_minority() {
    let mut data = AppData::default();
    data.transition_errors.insert("fd".into(), 20);
    data.transition_counts.insert("fd".into(), 25);
    for length in ["short", "medium"] {
        let mut request = req(&["fj", "dk", "sl", "a;"], "mixed", 4);
        request.length = length.into();
        request.adaptive = true;
        let plan = generate(&request, &data).unwrap();
        let lengths = group_lengths(&plan);
        assert!(lengths.iter().all(|&len| len <= 10));
        assert!(lengths.iter().filter(|&&len| len <= 6).count() * 2 > lengths.len());
        assert!(lengths.iter().filter(|&&len| len >= 10).count() * 4 < lengths.len());
    }

    let mut long = req(&["fj", "dk"], "mixed", 4);
    long.length = "long".into();
    assert!(group_lengths(&generate(&long, &data).unwrap())
        .iter()
        .any(|&len| len > 10));
}

#[test]
fn exact_lines_are_not_repeated_excessively() {
    for seed in 80..100 {
        let mut request = req(&["fj"], "standalone", seed);
        request.length = "long".into();
        let plan = generate(&request, &AppData::default()).unwrap();
        let all: Vec<&String> = lines(&plan).collect();
        let unique: BTreeSet<&String> = all.iter().copied().collect();
        assert!(
            unique.len() * 100 / all.len() >= 95,
            "seed {seed} repeated too many lines"
        );
    }
}

#[test]
fn session_templates_change_the_emphasis() {
    let signatures: BTreeSet<Vec<usize>> = (1..=12)
        .map(|seed| {
            generate(&req(&["fj", "dk"], "mixed", seed), &AppData::default())
                .unwrap()
                .sections
                .iter()
                .map(|section| section.lines.len())
                .collect()
        })
        .collect();
    assert!(signatures.len() >= 5);
}

#[test]
fn adaptive_weighting_reinforces_without_overwhelming() {
    let mut data = AppData::default();
    data.transition_errors.insert("fd".into(), 40);
    data.transition_counts.insert("fd".into(), 40);
    data.key_errors.insert("d".into(), 30);
    for edge in ["jd", "kd", "dd"] {
        data.transition_counts.insert(edge.into(), 40);
    }
    let mut plain_total = 0;
    let mut adaptive_total = 0;
    let mut plain_key_total = 0;
    let mut adaptive_key_total = 0;
    for seed in 100..140 {
        let mut plain = req(&["fj", "dk"], "mixed", seed);
        plain.length = "long".into();
        let plain_plan = generate(&plain, &data).unwrap();
        let plain_text = text(&plain_plan);
        plain_total += plain_text.matches("fd").count();
        plain_key_total += plain_text.matches('d').count();
        let mut weighted = plain;
        weighted.adaptive = true;
        let weighted_plan = generate(&weighted, &data).unwrap();
        let weighted_text = text(&weighted_plan);
        adaptive_total += weighted_text.matches("fd").count();
        adaptive_key_total += weighted_text.matches('d').count();
        assert!(transitions(&weighted_plan).is_superset(&transitions(
            &generate(&req(&["fj", "dk"], "mixed", seed), &AppData::default()).unwrap()
        )));
        assert!(weighted_text.matches("fd").count() * 5 < weighted_text.len());
    }
    assert!(
        adaptive_total as f64 > plain_total as f64 * 1.10,
        "{adaptive_total} not sufficiently above {plain_total}"
    );
    assert!(
        adaptive_key_total as f64 > plain_key_total as f64 * 1.03,
        "problem key exposure did not increase: {adaptive_key_total} vs {plain_key_total}"
    );

    data.transition_counts.insert("fd".into(), 4_000);
    data.key_errors.insert("d".into(), 1);
    let weights = adaptive_weights(&vec!["fj".into(), "dk".into()], &data, true);
    assert_eq!(weights.transition_weight('f', 'd'), Some(1));
    assert_eq!(weights.key_weight('d'), Some(1));
}

#[test]
fn slow_keys_and_transitions_are_reinforced_without_errors() {
    let mut data = AppData::default();
    data.key_timings.insert(
        "j".into(),
        TimingStat {
            total_ms: 5_000,
            samples: 10,
        },
    );
    data.transition_timings.insert(
        "jk".into(),
        TimingStat {
            total_ms: 5_000,
            samples: 10,
        },
    );
    let weights = adaptive_weights(&vec!["fj".into(), "dk".into()], &data, true);
    assert_eq!(weights.key_weight('j'), Some(2));
    assert_eq!(weights.transition_weight('j', 'k'), Some(2));
}

#[test]
fn weak_keys_and_transitions_get_their_exact_weights() {
    let mut data = AppData::default();
    data.transition_errors.insert("fd".into(), 40);
    for edge in ["fd", "jd", "kd", "dd"] {
        data.transition_counts.insert(edge.into(), 40);
    }
    data.key_errors.insert("d".into(), 30);
    let weights = adaptive_weights(&vec!["fj".into(), "dk".into()], &data, true);
    assert_eq!(weights.transition_weight('f', 'd'), Some(3));
    assert_eq!(weights.transition_weight('j', 'd'), None);
    assert_eq!(weights.key_weight('d'), Some(2));
    assert_eq!(weights.key_weight('f'), None);
    assert!(weights.has_weakness());
}
