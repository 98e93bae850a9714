use lotto_topk::draw::{fresh_rng, generate_draw, Draw};
use lotto_topk::model::FrequencyModel;
use lotto_topk::{resume_iteration_count, should_save, SAVE_FREQUENCY, TOP_COMBINATIONS_COUNT};

#[test]
fn generated_draws_have_the_required_shape() {
    let mut rng = fresh_rng();
    for _ in 0..200 {
        let d = generate_draw(&mut rng);
        let ns = &d.numbers;
        assert_eq!(ns.len(), 7);
        for i in 0..5 {
            assert!(1 <= ns[i] && ns[i] <= 50);
        }
        for i in 0..4 {
            assert!(ns[i] < ns[i + 1]);
        }
        assert!(1 <= ns[5] && ns[5] <= 10);
        assert!(1 <= ns[6] && ns[6] <= 10);
        assert_ne!(ns[5], ns[6]);
    }
}

#[test]
fn recorded_draw_counts_sum_to_the_number_of_record_calls() {
    let mut model = FrequencyModel::new();
    let a = Draw {
        numbers: vec![3, 7, 12, 29, 44, 2, 9],
    };
    let b = Draw {
        numbers: vec![1, 2, 3, 4, 5, 1, 2],
    };
    for _ in 0..5 {
        model.record(&a);
    }
    for _ in 0..3 {
        model.record(&b);
    }
    assert_eq!(model.total(), 8);
    let sum: u64 = model.draw_counts.values().sum();
    assert_eq!(sum, 8);
}

#[test]
fn number_counts_rise_once_per_occurrence() {
    let mut model = FrequencyModel::new();
    let a = Draw {
        numbers: vec![1, 2, 3, 4, 5, 1, 2],
    };
    model.record(&a);
    model.record(&a);
    assert_eq!(model.number_counts.get(&1).copied(), Some(4));
    assert_eq!(model.number_counts.get(&2).copied(), Some(4));
    assert_eq!(model.number_counts.get(&3).copied(), Some(2));
    assert_eq!(model.number_counts.get(&9).copied(), None);
}

#[test]
fn random_draws_feed_the_model() {
    let mut rng = fresh_rng();
    let mut model = FrequencyModel::new();
    for _ in 0..50 {
        let d = generate_draw(&mut rng);
        model.record(&d);
    }
    assert_eq!(model.total(), 50);
    let sum: u64 = model.draw_counts.values().sum();
    assert_eq!(sum, 50);
}

#[test]
fn save_cadence_follows_the_iteration_counter() {
    assert!(should_save(0));
    assert!(!should_save(1));
    assert!(!should_save(SAVE_FREQUENCY - 1));
    assert!(should_save(SAVE_FREQUENCY));
    assert!(should_save(3 * SAVE_FREQUENCY));
    assert!(!should_save(3 * SAVE_FREQUENCY + 7));
}

#[test]
fn resume_counter_is_one_save_interval_per_recovered_entry() {
    assert_eq!(resume_iteration_count(0), 0);
    assert_eq!(resume_iteration_count(3), 3 * SAVE_FREQUENCY);
    assert_eq!(
        resume_iteration_count(TOP_COMBINATIONS_COUNT),
        5 * SAVE_FREQUENCY
    );
}
