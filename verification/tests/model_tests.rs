use typing_prac::model::{AppData, SessionRecord};
use typing_prac::strmap::StrMap;

#[test]
fn aggregation_is_bounded_and_correct() {
    let mut d = AppData::default();
    for i in 0..25 {
        let mut key_errors = StrMap::new();
        key_errors.insert("f".into(), 1);
        d.absorb(SessionRecord {
            timestamp_ms: i,
            mode: "mixed".into(),
            pairs: vec!["fj".into()],
            wpm_bits: 30.0f64.to_bits(),
            accuracy_bits: 90.0f64.to_bits(),
            duration_ms: 1000,
            correct: 9,
            errors: 1,
            key_errors,
            transition_errors: StrMap::new(),
            transition_counts: StrMap::new(),
            key_timings: StrMap::new(),
            transition_timings: StrMap::new(),
        });
    }
    assert_eq!(d.sessions_completed, 25);
    assert_eq!(*d.key_errors.get("f").unwrap(), 25);
    assert_eq!(d.recent_sessions.len(), 20);
}
