use readable_hash::model::{
    TransitionSet, WordModel, build_context, find_token, scaled_value, token_text,
    transitions_for_context,
};

fn tiny_model(context_len: usize) -> WordModel {
    WordModel {
        tokens: vec![String::from("<none>"), String::from("^ab"), String::from("cd$")],
        context_len,
        none_token: 9,
        probability_bits: 8,
        probability_max: 255,
        middle: TransitionSet { contexts: vec![], index: vec![], data: vec![] },
        end: TransitionSet { contexts: vec![], index: vec![], data: vec![] },
    }
}

#[test]
fn context_pads_short_history_on_the_left() {
    let model = tiny_model(3);
    assert_eq!(build_context(&model, &vec![]), vec![9, 9, 9]);
    assert_eq!(build_context(&model, &vec![4]), vec![9, 9, 4]);
    assert_eq!(build_context(&model, &vec![4, 5]), vec![9, 4, 5]);
}

#[test]
fn context_takes_history_tail() {
    let model = tiny_model(3);
    assert_eq!(build_context(&model, &vec![1, 2, 3]), vec![1, 2, 3]);
    assert_eq!(build_context(&model, &vec![1, 2, 3, 4, 5]), vec![3, 4, 5]);
}

#[test]
fn context_zero_length_window() {
    let model = tiny_model(0);
    assert_eq!(build_context(&model, &vec![1, 2]), Vec::<u16>::new());
}

#[test]
fn token_text_strips_markers() {
    let model = tiny_model(1);
    assert_eq!(token_text(&model, 1), "ab");
    assert_eq!(token_text(&model, 2), "cd");
    assert_eq!(token_text(&model, 0), "<none>");
}

#[test]
fn find_token_picks_first_reaching_cumulative() {
    let table = vec![(5u16, 10u32), (7u16, 20u32), (9u16, 30u32)];
    assert_eq!(find_token(&table, 0), 5);
    assert_eq!(find_token(&table, 10), 5);
    assert_eq!(find_token(&table, 11), 7);
    assert_eq!(find_token(&table, 30), 9);
    // None qualifies: fall back to the last entry.
    assert_eq!(find_token(&table, 31), 9);
    // Empty table: defensive 0.
    assert_eq!(find_token(&vec![], 5), 0);
}

#[test]
fn scaled_value_rescales_proportionally() {
    // 128 * 100 / 255 == 50 (floor)
    assert_eq!(scaled_value(128, 255, 100), 50);
    assert_eq!(scaled_value(1, 2, 4), 2);
    assert_eq!(scaled_value(0, 255, 100), 0);
}

#[test]
fn scaled_value_edge_domains() {
    // Target domain empty: always 0.
    assert_eq!(scaled_value(123, 255, 0), 0);
    // Equal domains: the value itself, clamped.
    assert_eq!(scaled_value(77, 100, 100), 77);
    assert_eq!(scaled_value(200, 100, 100), 100);
    // Degenerate raw domain: the value clamped to the target.
    assert_eq!(scaled_value(3, 0, 10), 3);
    assert_eq!(scaled_value(30, 0, 10), 10);
}

#[test]
fn sample_at_raw_max_picks_last_token() {
    let table = vec![(5u16, 10u32), (7u16, 20u32), (9u16, 30u32)];
    let scaled = scaled_value(255, 255, 30);
    assert_eq!(scaled, 30);
    assert_eq!(find_token(&table, scaled), 9);
}

#[test]
fn sample_at_zero_picks_first_token() {
    let table = vec![(5u16, 10u32), (7u16, 20u32), (9u16, 30u32)];
    let scaled = scaled_value(0, 255, 30);
    assert_eq!(scaled, 0);
    assert_eq!(find_token(&table, scaled), 5);
}

#[test]
fn transitions_lookup_finds_context() {
    let ts = TransitionSet {
        contexts: vec![vec![1, 2], vec![1, 3], vec![2, 1]],
        index: vec![(0, 1), (1, 2), (0, 0)],
        data: vec![(4u16, 10u32), (5u16, 5u32), (6u16, 9u32)],
    };
    assert_eq!(transitions_for_context(&ts, &vec![1, 2]), Some(vec![(4, 10)]));
    assert_eq!(transitions_for_context(&ts, &vec![1, 3]), Some(vec![(5, 5), (6, 9)]));
    // Present but declared zero-length: no table.
    assert_eq!(transitions_for_context(&ts, &vec![2, 1]), None);
    // Absent context: no table.
    assert_eq!(transitions_for_context(&ts, &vec![3, 1]), None);
}
