use lotto_topk::draw::Draw;
use lotto_topk::model::FrequencyModel;
use lotto_topk::topk::{merge_top_k, select_top_k, select_top_k_parallel, TopKEntry};
use lotto_topk::{find_top_combinations, find_top_combinations_parallel};

fn entry(ns: &[u8], count: u64) -> TopKEntry {
    TopKEntry {
        draw: Draw { numbers: ns.to_vec() },
        count,
    }
}

fn draw(ns: &[u8]) -> Draw {
    Draw { numbers: ns.to_vec() }
}

fn record_times(model: &mut FrequencyModel, ns: &[u8], times: u64) {
    let d = draw(ns);
    for _ in 0..times {
        model.record(&d);
    }
}

fn pairs(entries: &[TopKEntry]) -> Vec<(Vec<u8>, u64)> {
    entries
        .iter()
        .map(|e| (e.draw.numbers.clone(), e.count))
        .collect()
}

fn sorted_pairs(entries: &[TopKEntry]) -> Vec<(Vec<u8>, u64)> {
    let mut p = pairs(entries);
    p.sort();
    p
}

#[test]
fn two_then_one_gives_ordered_top_two() {
    let mut model = FrequencyModel::new();
    record_times(&mut model, &[3, 7, 12, 29, 44, 2, 9], 2);
    record_times(&mut model, &[1, 2, 3, 4, 5, 1, 2], 1);
    let entries = model.entries();
    let top = select_top_k(&entries, 2);
    assert_eq!(
        pairs(&top),
        vec![
            (vec![3, 7, 12, 29, 44, 2, 9], 2),
            (vec![1, 2, 3, 4, 5, 1, 2], 1),
        ]
    );
}

#[test]
fn empty_model_yields_empty_list() {
    let model = FrequencyModel::new();
    assert!(find_top_combinations(&model).is_empty());
    assert!(find_top_combinations_parallel(&model).is_empty());
}

#[test]
fn fewer_than_k_draws_yields_shorter_list() {
    let mut model = FrequencyModel::new();
    record_times(&mut model, &[1, 2, 3, 4, 5, 1, 2], 1);
    record_times(&mut model, &[6, 7, 8, 9, 10, 3, 4], 3);
    let top = find_top_combinations(&model);
    assert_eq!(
        pairs(&top),
        vec![
            (vec![6, 7, 8, 9, 10, 3, 4], 3),
            (vec![1, 2, 3, 4, 5, 1, 2], 1),
        ]
    );
}

#[test]
fn sequential_and_parallel_agree_without_boundary_ties() {
    let mut model = FrequencyModel::new();
    let all: [[u8; 7]; 6] = [
        [1, 2, 3, 4, 5, 1, 2],
        [6, 7, 8, 9, 10, 3, 4],
        [11, 12, 13, 14, 15, 5, 6],
        [16, 17, 18, 19, 20, 7, 8],
        [21, 22, 23, 24, 25, 9, 10],
        [26, 27, 28, 29, 30, 1, 3],
    ];
    for (i, ns) in all.iter().enumerate() {
        record_times(&mut model, ns, (i as u64) + 2);
    }
    let entries = model.entries();
    let seq = select_top_k(&entries, 5);
    let par = select_top_k_parallel(&entries, 5);
    assert_eq!(seq.len(), 5);
    assert_eq!(sorted_pairs(&seq), sorted_pairs(&par));
    // the least frequent draw is the one left out
    assert!(!sorted_pairs(&seq).contains(&(all[0].to_vec(), 2)));
}

#[test]
fn reselection_without_records_is_identical() {
    let mut model = FrequencyModel::new();
    record_times(&mut model, &[1, 2, 3, 4, 5, 1, 2], 4);
    record_times(&mut model, &[6, 7, 8, 9, 10, 3, 4], 7);
    record_times(&mut model, &[11, 12, 13, 14, 15, 5, 6], 1);
    let first = find_top_combinations(&model);
    let second = find_top_combinations(&model);
    assert_eq!(pairs(&first), pairs(&second));
    let par_first = find_top_combinations_parallel(&model);
    let par_second = find_top_combinations_parallel(&model);
    assert_eq!(sorted_pairs(&par_first), sorted_pairs(&par_second));
    assert_eq!(sorted_pairs(&first), sorted_pairs(&par_first));
}

#[test]
fn selection_is_sorted_by_count_descending() {
    let mut model = FrequencyModel::new();
    record_times(&mut model, &[1, 2, 3, 4, 5, 1, 2], 1);
    record_times(&mut model, &[6, 7, 8, 9, 10, 3, 4], 5);
    record_times(&mut model, &[11, 12, 13, 14, 15, 5, 6], 3);
    record_times(&mut model, &[16, 17, 18, 19, 20, 7, 8], 2);
    let top = find_top_combinations_parallel(&model);
    assert_eq!(top.len(), 4);
    for w in top.windows(2) {
        assert!(w[0].count >= w[1].count);
    }
}

#[test]
fn merge_keeps_the_k_largest_of_both_lists() {
    let a = vec![
        entry(&[1, 2, 3, 4, 5, 1, 2], 6),
        entry(&[6, 7, 8, 9, 10, 3, 4], 4),
    ];
    let b = vec![
        entry(&[11, 12, 13, 14, 15, 5, 6], 5),
        entry(&[16, 17, 18, 19, 20, 7, 8], 3),
        entry(&[21, 22, 23, 24, 25, 9, 10], 1),
    ];
    let merged = merge_top_k(&a, &b, 3);
    assert_eq!(
        pairs(&merged),
        vec![
            (vec![1, 2, 3, 4, 5, 1, 2], 6),
            (vec![11, 12, 13, 14, 15, 5, 6], 5),
            (vec![6, 7, 8, 9, 10, 3, 4], 4),
        ]
    );
}

#[test]
fn parallel_selection_spans_many_shards() {
    let mut model = FrequencyModel::new();
    let mut made = 0usize;
    'outer: for b1 in 1u8..=10 {
        for b2 in 1u8..=10 {
            if b1 == b2 {
                continue;
            }
            for a in 1u8..=46 {
                let d = Draw {
                    numbers: vec![a, a + 1, a + 2, a + 3, a + 4, b1, b2],
                };
                model.record(&d);
                made += 1;
                if made == 1200 {
                    break 'outer;
                }
            }
        }
    }
    let dominant = Draw {
        numbers: vec![1, 2, 3, 4, 5, 1, 2],
    };
    for _ in 0..10 {
        model.record(&dominant);
    }
    let par = find_top_combinations_parallel(&model);
    assert_eq!(par.len(), 5);
    assert_eq!(par[0].draw.numbers, vec![1, 2, 3, 4, 5, 1, 2]);
    assert_eq!(par[0].count, 11);
    let seq = find_top_combinations(&model);
    assert_eq!(seq[0].draw.numbers, par[0].draw.numbers);
    assert_eq!(seq[0].count, par[0].count);
}

#[test]
fn strictly_greater_count_evicts_the_minimum() {
    let mut model = FrequencyModel::new();
    let all: [[u8; 7]; 7] = [
        [1, 2, 3, 4, 5, 1, 2],
        [6, 7, 8, 9, 10, 3, 4],
        [11, 12, 13, 14, 15, 5, 6],
        [16, 17, 18, 19, 20, 7, 8],
        [21, 22, 23, 24, 25, 9, 10],
        [26, 27, 28, 29, 30, 1, 3],
        [31, 32, 33, 34, 35, 2, 4],
    ];
    for ns in all.iter() {
        record_times(&mut model, ns, 1);
    }
    record_times(&mut model, &all[6], 9);
    let top = find_top_combinations(&model);
    assert_eq!(top.len(), 5);
    assert_eq!(top[0].draw.numbers, all[6].to_vec());
    assert_eq!(top[0].count, 10);
}
