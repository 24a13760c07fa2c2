use typing_prac::adaptive::{adaptive_walk, weakness_weight, AdaptiveWeights};
use typing_prac::coverage::{coverage_line, schedule_pair_count, transition_schedule};
use typing_prac::model::{merge_counts, merge_times, AppData, SessionRecord, TimingStat, RECENT_LIMIT};
use typing_prac::patterns::{
    difficult_cross_pair, longer_balanced, pair_alternation, render_pattern, repeated_key,
    rotate_left, short_cross_pair,
};
use typing_prac::rng::Rng;
use typing_prac::strmap::StrMap;
use typing_prac::template::{section_counts, Template};
use typing_prac::text::{join_groups, string_of};

fn text(chars: Vec<char>) -> String {
    chars.into_iter().collect()
}

#[test]
fn templates_follow_the_seed() {
    assert!(Template::select(0, false) == Template::Balanced);
    assert!(Template::select(7, false) == Template::Transitions);
    assert!(Template::select(9, false) == Template::Endurance);
    assert!(Template::select(11, true) == Template::WeakFocus);
    assert!(Template::select(5, false) == Template::Balanced);
    assert!(Template::select(5, true) == Template::WeakFocus);
    assert_eq!(Template::Transitions.allocation(), [3, 3, 4, 7, 4, 3]);
    assert_eq!(Template::WeakFocus.allocation(), [3, 3, 3, 4, 6, 5]);
}

#[test]
fn section_split_matches_the_weights() {
    assert_eq!(section_counts(24, [4, 4, 4, 4, 4, 4]), [4, 4, 4, 4, 4, 4]);
    assert_eq!(section_counts(48, [4, 6, 5, 4, 3, 2]), [8, 12, 10, 8, 6, 4]);
    assert_eq!(section_counts(90, [3, 3, 4, 7, 4, 3]), [12, 11, 15, 26, 15, 11]);
    assert_eq!(section_counts(90, [6, 5, 4, 3, 3, 3]), [22, 18, 15, 12, 12, 11]);
    assert_eq!(section_counts(6, [1, 1, 1, 1, 1, 19]), [1, 1, 1, 1, 1, 1]);
    for total in [24usize, 48, 90] {
        for weights in [[3, 3, 3, 4, 5, 6], [3, 3, 3, 4, 6, 5], [4, 6, 5, 4, 3, 2]] {
            let counts = section_counts(total, weights);
            assert_eq!(counts.iter().sum::<usize>(), total);
            assert!(counts.iter().all(|&c| c >= 1));
        }
    }
}

#[test]
fn section_split_handles_large_totals() {
    let total = usize::MAX / 4;
    let counts = section_counts(total, [1, 1, 1, 1, 1, 1]);
    assert_eq!(counts.iter().sum::<usize>(), total);
    assert!(counts.iter().all(|&c| c >= total / 6));
    let counts = section_counts(total, [3, 3, 4, 7, 4, 3]);
    assert_eq!(counts.iter().sum::<usize>(), total);
    let shares = [3u128, 3, 4, 7, 4, 3].map(|w| (total as u128) * w / 24);
    for i in 0..6 {
        assert!(counts[i] as u128 >= shares[i]);
    }
    assert_eq!(section_counts(60, [1, 1, 1, 1, 1, 1]), [10; 6]);
}

#[test]
fn every_coverage_line_holds_at_least_six_edges() {
    let pairs = vec![('f', 'j'), ('d', 'k'), ('s', 'l'), ('a', ';')];
    let mut rng = Rng::new(5);
    let edges = transition_schedule(&pairs, &mut rng);
    assert_eq!(edges.len(), 48);
    for line_count in [1usize, 3, 4, 9] {
        let mut seen = std::collections::HashSet::new();
        for line in 0..line_count {
            let text_line = text(coverage_line(&edges, line_count, line, 0));
            let groups: Vec<&str> = text_line.split(' ').collect();
            assert!(groups.len() >= 6);
            for g in groups {
                let chars: Vec<char> = g.chars().collect();
                assert_eq!(chars.len(), 2);
                assert!(edges.contains(&(chars[0], chars[1])));
                seen.insert((chars[0], chars[1]));
            }
        }
        if edges.len() <= 12 * line_count {
            assert_eq!(seen.len(), edges.len());
        }
    }
}

#[test]
fn weakness_weights_follow_the_error_rate() {
    assert_eq!(weakness_weight(0, 10, false), 1);
    assert_eq!(weakness_weight(1, 10, false), 2);
    assert_eq!(weakness_weight(3, 10, false), 3);
    assert_eq!(weakness_weight(0, 10, true), 2);
    assert_eq!(weakness_weight(2, 25, false), 1);
    assert_eq!(weakness_weight(5, 25, false), 2);
    assert_eq!(weakness_weight(6, 25, false), 3);
    assert_eq!(weakness_weight(1, 0, false), 3);
    assert_eq!(weakness_weight(1, 4_000, false), 1);
}

#[test]
fn the_generator_steps_by_xorshift() {
    assert_eq!(Rng::new(0).0, 1);
    assert_eq!(Rng::new(12).0, 12);
    let mut rng = Rng::new(1);
    assert_eq!(rng.next(), 1_082_269_761);
    assert_eq!(rng.0, 1_082_269_761);
    let mut rng = Rng::new(1);
    assert_eq!(rng.range(10, 13), 10 + (1_082_269_761u64 % 3) as usize);
}

#[test]
fn shuffling_keeps_every_value() {
    for seed in 1..50u64 {
        let mut rng = Rng::new(seed);
        let mut values: Vec<usize> = (0..10).collect();
        rng.shuffle(&mut values);
        let mut sorted = values.clone();
        sorted.sort();
        assert_eq!(sorted, (0..10).collect::<Vec<usize>>());
    }
}

#[test]
fn exercise_patterns_have_their_exact_shape() {
    let pairs = vec![('f', 'j'), ('d', 'k')];
    assert_eq!(text(render_pattern(&vec![0u8, 1, 1, 0], ('s', 'l'))), "slls");
    assert_eq!(text(repeated_key(&vec!['f', 'j', 'd', 'k'], 5)), "jjjj");
    assert_eq!(text(repeated_key(&vec!['f', 'j', 'd', 'k'], 0)), "ff");
    assert_eq!(text(pair_alternation(&pairs, 3)), "kd");
    assert_eq!(text(short_cross_pair(&pairs, 0)), "fdj");
    assert_eq!(text(difficult_cross_pair(&pairs, 1)), "dffkjd");
    assert_eq!(text(longer_balanced(&pairs, 0, 7)), "fjdkkjd");
    assert_eq!(rotate_left(&vec![1, 2, 3, 4], 1), vec![2, 3, 4, 1]);
    assert_eq!(
        text(join_groups(&vec![vec!['a', 'b'], vec!['c']])),
        "ab c"
    );
    assert_eq!(string_of(&['x', 'y']), "xy");
}

#[test]
fn the_schedule_holds_every_directed_edge_once() {
    let pairs = vec![('f', 'j'), ('d', 'k'), ('s', 'l')];
    let mut rng = Rng::new(77);
    let edges = transition_schedule(&pairs, &mut rng);
    assert_eq!(edges.len(), 4 * 3 * 2);
    assert_eq!(schedule_pair_count(edges.len()), 3);
    assert_eq!(schedule_pair_count(8), 2);
    assert_eq!(schedule_pair_count(48), 4);
    let keys = ['f', 'j', 'd', 'k', 's', 'l'];
    for (i, &x) in keys.iter().enumerate() {
        for (j, &y) in keys.iter().enumerate() {
            let wanted = i / 2 != j / 2;
            assert_eq!(edges.contains(&(x, y)), wanted, "edge {x}{y}");
        }
    }
    let line = text(coverage_line(&edges, 4, 1, 0));
    let expected: Vec<String> = (6..12)
        .map(|k| [edges[k].0, edges[k].1].iter().collect())
        .collect();
    assert_eq!(line, expected.join(" "));
}

#[test]
fn counts_and_timings_are_merged_per_key() {
    let mut a: StrMap<u64> = StrMap::new();
    a.insert("f".into(), 2);
    let mut b: StrMap<u64> = StrMap::new();
    b.insert("f".into(), 3);
    b.insert("j".into(), 4);
    merge_counts(&mut a, b);
    assert_eq!(*a.get("f").unwrap(), 5);
    assert_eq!(*a.get("j").unwrap(), 4);
    assert_eq!(a.len(), 2);

    let mut t: StrMap<TimingStat> = StrMap::new();
    t.insert("fd".into(), TimingStat { total_ms: 100, samples: 1 });
    let mut u: StrMap<TimingStat> = StrMap::new();
    u.insert("fd".into(), TimingStat { total_ms: 50, samples: 2 });
    merge_times(&mut t, u);
    let fd = t.get("fd").unwrap();
    assert_eq!((fd.total_ms, fd.samples), (150, 3));
}

#[test]
fn recent_sessions_are_newest_first_and_bounded() {
    let mut d = AppData::default();
    for i in 0..30u64 {
        d.absorb(SessionRecord {
            timestamp_ms: i,
            mode: "standalone".into(),
            pairs: vec!["fj".into(), "fj".into()],
            wpm_bits: 0,
            accuracy_bits: 0,
            duration_ms: 10,
            correct: 1,
            errors: 1,
            key_errors: StrMap::new(),
            transition_errors: StrMap::new(),
            transition_counts: StrMap::new(),
            key_timings: StrMap::new(),
            transition_timings: StrMap::new(),
        });
        assert!(d.recent_sessions.len() <= RECENT_LIMIT);
    }
    assert_eq!(d.recent_sessions.len(), 20);
    assert_eq!(d.recent_sessions[0].timestamp_ms, 29);
    assert_eq!(d.recent_sessions[19].timestamp_ms, 10);
    let fj = d.pair_stats.get("fj").unwrap();
    assert_eq!(fj.sessions, 60);
    assert_eq!(fj.typed, 120);
    assert_eq!(fj.total_ms, 600);
}

#[test]
fn the_string_map_keeps_one_value_per_key() {
    let mut m: StrMap<u64> = StrMap::new();
    assert!(m.is_empty());
    m.insert("a".into(), 1);
    m.insert("b".into(), 2);
    m.insert("a".into(), 3);
    assert_eq!(m.len(), 2);
    assert_eq!(*m.get("a").unwrap(), 3);
    assert!(m.contains_key("b"));
    assert_eq!(m.take("b"), Some(2));
    assert!(!m.contains_key("b"));
    m.remove("a");
    assert!(m.is_empty());
    assert!(m.get("a").is_none());
}

#[test]
fn walks_are_measured_in_bytes() {
    let none = AdaptiveWeights::none();
    let mut rng = Rng::new(5);
    let walk = adaptive_walk(&vec!['é', 'ü'], 4, &none, &mut rng);
    assert_eq!(walk.len(), 2);
    let mut rng = Rng::new(5);
    let walk = adaptive_walk(&vec!['f', 'j'], 4, &none, &mut rng);
    assert_eq!(walk.len(), 4);
    let mut rng = Rng::new(5);
    assert_eq!(adaptive_walk(&vec!['f'], 0, &none, &mut rng).len(), 1);
}

#[test]
fn absorbing_is_checked_for_overflow() {
    let mut d = AppData::default();
    let fresh = |correct: u64| SessionRecord {
        timestamp_ms: 1,
        mode: "mixed".into(),
        pairs: vec!["fj".into()],
        wpm_bits: 0,
        accuracy_bits: 0,
        duration_ms: 5,
        correct,
        errors: 0,
        key_errors: StrMap::new(),
        transition_errors: StrMap::new(),
        transition_counts: StrMap::new(),
        key_timings: StrMap::new(),
        transition_timings: StrMap::new(),
    };
    assert!(d.can_absorb(&fresh(10)));
    d.absorb(fresh(10));
    assert!(!d.can_absorb(&fresh(u64::MAX)));
    let mut r = fresh(1);
    r.transition_counts.insert("fj".into(), u64::MAX);
    assert!(d.can_absorb(&r));
    d.transition_counts.insert("fj".into(), 1);
    assert!(!d.can_absorb(&r));
}
