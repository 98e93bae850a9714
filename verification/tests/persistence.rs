use lotto_topk::codec::{parse_checkpoint, parse_line, render_checkpoint};
use lotto_topk::draw::Draw;
use lotto_topk::topk::TopKEntry;

fn entry(ns: &[u8], count: u64) -> TopKEntry {
    TopKEntry {
        draw: Draw { numbers: ns.to_vec() },
        count,
    }
}

fn parsed_draws(data: &[u8]) -> Vec<Vec<u8>> {
    parse_checkpoint(&data.to_vec())
        .into_iter()
        .map(|d| d.numbers)
        .collect()
}

#[test]
fn save_then_load_returns_the_same_draws_in_order() {
    let list = vec![
        entry(&[3, 7, 12, 29, 44, 2, 9], 12),
        entry(&[1, 2, 3, 4, 5, 1, 2], 9),
        entry(&[11, 22, 33, 44, 50, 10, 1], 9),
        entry(&[6, 7, 8, 9, 10, 3, 4], 2),
        entry(&[21, 22, 23, 24, 25, 9, 10], 1),
    ];
    let bytes = render_checkpoint(&list);
    assert_eq!(
        parsed_draws(&bytes),
        vec![
            vec![3, 7, 12, 29, 44, 2, 9],
            vec![1, 2, 3, 4, 5, 1, 2],
            vec![11, 22, 33, 44, 50, 10, 1],
            vec![6, 7, 8, 9, 10, 3, 4],
            vec![21, 22, 23, 24, 25, 9, 10],
        ]
    );
}

#[test]
fn empty_list_round_trips_to_nothing() {
    let bytes = render_checkpoint(&Vec::new());
    assert!(bytes.is_empty());
    assert!(parsed_draws(&bytes).is_empty());
}

#[test]
fn three_digit_values_round_trip() {
    let list = vec![entry(&[255, 0, 100, 200, 46, 10, 9], 3)];
    let bytes = render_checkpoint(&list);
    assert_eq!(bytes, b"255 0 100 200 46 10 9\n".to_vec());
    assert_eq!(parsed_draws(&bytes), vec![vec![255, 0, 100, 200, 46, 10, 9]]);
}

#[test]
fn checkpoint_bytes_are_one_line_per_entry() {
    let list = vec![
        entry(&[3, 7, 12, 29, 44, 2, 9], 2),
        entry(&[1, 2, 3, 4, 5, 1, 2], 1),
    ];
    let bytes = render_checkpoint(&list);
    assert_eq!(bytes, b"3 7 12 29 44 2 9\n1 2 3 4 5 1 2\n".to_vec());
}

#[test]
fn malformed_lines_are_skipped() {
    let data = b"1 2 3 4 5 6\n1 2 x 4 5 6 7\n3 7 12 29 44 2 9\n";
    assert_eq!(parsed_draws(data), vec![vec![3, 7, 12, 29, 44, 2, 9]]);
}

#[test]
fn out_of_range_token_rejects_the_line() {
    let data = b"1 2 3 4 5 6 300\n1 2 3 4 5 6 255\n";
    assert_eq!(parsed_draws(data), vec![vec![1, 2, 3, 4, 5, 6, 255]]);
}

#[test]
fn eight_tokens_reject_the_line() {
    let data = b"1 2 3 4 5 6 7 8\n";
    assert!(parsed_draws(data).is_empty());
}

#[test]
fn leading_zeros_and_extra_whitespace_are_accepted() {
    let data = b"007 8  9\t10 11 1 2\n";
    assert_eq!(parsed_draws(data), vec![vec![7, 8, 9, 10, 11, 1, 2]]);
}

#[test]
fn missing_trailing_newline_still_parses_the_last_line() {
    let data = b"1 2 3 4 5 6 7";
    assert_eq!(parsed_draws(data), vec![vec![1, 2, 3, 4, 5, 6, 7]]);
}

#[test]
fn empty_and_blank_lines_are_skipped() {
    let data = b"\n   \n1 2 3 4 5 6 7\n\n";
    assert_eq!(parsed_draws(data), vec![vec![1, 2, 3, 4, 5, 6, 7]]);
}

#[test]
fn parse_line_accepts_exactly_seven_numbers() {
    assert!(parse_line(&b"1 2 3 4 5 6 7".to_vec()).is_some());
    assert!(parse_line(&b"1 2 3 4 5 6".to_vec()).is_none());
    assert!(parse_line(&b"1 2 3 4 5 6 7 8".to_vec()).is_none());
    assert!(parse_line(&b"1 2 3 4 5 6 -7".to_vec()).is_none());
    assert!(parse_line(&b"".to_vec()).is_none());
}
