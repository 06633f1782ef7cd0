use readable_hash::english_word::{generate_word, generate_word_with_target_len};
use readable_hash::model::{TransitionSet, WordModel};
use readable_hash::traits::SliceReader;

// A minimal model: one real token ("^go$", displayed "go") reachable from the
// initial context, and no end tables at all.
fn single_token_model() -> WordModel {
    WordModel {
        tokens: vec![String::from("<none>"), String::from("^go$")],
        context_len: 1,
        none_token: 0,
        probability_bits: 8,
        probability_max: 255,
        middle: TransitionSet {
            contexts: vec![vec![0]],
            index: vec![(0, 1)],
            data: vec![(1, 255)],
        },
        end: TransitionSet { contexts: vec![], index: vec![], data: vec![] },
    }
}

// A model with a 3-character middle token ("abc") that chains to itself, and
// a 4-character end token ("defg") available after it.
fn chain_model() -> WordModel {
    WordModel {
        tokens: vec![
            String::from("<none>"),
            String::from("^abc"),
            String::from("defg$"),
        ],
        context_len: 1,
        none_token: 0,
        probability_bits: 8,
        probability_max: 255,
        middle: TransitionSet {
            contexts: vec![vec![0], vec![1]],
            index: vec![(0, 1), (0, 1)],
            data: vec![(1, 255)],
        },
        end: TransitionSet {
            contexts: vec![vec![1]],
            index: vec![(0, 1)],
            data: vec![(2, 255)],
        },
    }
}

// Like chain_model, but with two end tokens: a short one ("defg", weight up
// to 200) sampled by low raw values, and a longer one ("hijkl").
fn two_end_model() -> WordModel {
    WordModel {
        tokens: vec![
            String::from("<none>"),
            String::from("^abc"),
            String::from("defg$"),
            String::from("hijkl$"),
        ],
        context_len: 1,
        none_token: 0,
        probability_bits: 8,
        probability_max: 255,
        middle: TransitionSet {
            contexts: vec![vec![0], vec![1]],
            index: vec![(0, 1), (0, 1)],
            data: vec![(1, 255)],
        },
        end: TransitionSet {
            contexts: vec![vec![1]],
            index: vec![(0, 2)],
            data: vec![(2, 200), (3, 255)],
        },
    }
}

// A chain model with two end tokens of different lengths after "abc": "def"
// (3 chars, cumulative 100) and "ghij" (4 chars, cumulative 255).
fn two_qualifying_ends_model() -> WordModel {
    WordModel {
        tokens: vec![
            String::from("<none>"),
            String::from("^abc"),
            String::from("def$"),
            String::from("ghij$"),
        ],
        context_len: 1,
        none_token: 0,
        probability_bits: 8,
        probability_max: 255,
        middle: TransitionSet {
            contexts: vec![vec![0], vec![1]],
            index: vec![(0, 1), (0, 1)],
            data: vec![(1, 255)],
        },
        end: TransitionSet {
            contexts: vec![vec![1]],
            index: vec![(0, 2)],
            data: vec![(2, 100), (3, 255)],
        },
    }
}

#[test]
fn empty_source_open_ended() {
    let model = single_token_model();
    let mut reader = SliceReader::new(&[]);
    assert_eq!(generate_word(&model, &mut reader), "");
}

#[test]
fn empty_source_target_len() {
    let model = chain_model();
    let mut reader = SliceReader::new(&[]);
    assert_eq!(generate_word_with_target_len(&model, &mut reader, 6), "");
}

#[test]
fn single_initial_token_word() {
    // One byte of entropy, an 8-bit sample width, one initial token with no
    // further transitions: exactly that token's display text.
    let model = single_token_model();
    let mut reader = SliceReader::new(&[0x00]);
    assert_eq!(generate_word(&model, &mut reader), "go");
}

#[test]
fn target_len_reaches_seven() {
    // Two bytes of entropy, target 6, a 3-character first token and a
    // 4-character end token: a 7-character word, never below the target.
    let model = chain_model();
    let mut reader = SliceReader::new(&[0x00, 0x00]);
    let word = generate_word_with_target_len(&model, &mut reader, 6);
    assert_eq!(word, "abcdefg");
    assert_eq!(word.len(), 7);
}

#[test]
fn open_ended_consumes_all_entropy() {
    // Two bytes: a beginning token, one middle token, then the end token
    // picked with the default sample of 0 once entropy is spent.
    let model = chain_model();
    let mut reader = SliceReader::new(&[0x00, 0x00]);
    assert_eq!(generate_word(&model, &mut reader), "abcabcdefg");
}

#[test]
fn target_len_already_met_appends_end_token() {
    let model = chain_model();
    let mut reader = SliceReader::new(&[0x00, 0x00]);
    // The first token alone (3 chars) meets the target of 1; the end token
    // is still appended.
    assert_eq!(generate_word_with_target_len(&model, &mut reader, 1), "abcdefg");
}

#[test]
fn target_len_unreachable_terminates() {
    // No end token can reach a target of 100: the policy keeps sampling
    // middle tokens until the entropy runs out, and terminates without an
    // end token.
    let model = chain_model();
    let mut reader = SliceReader::new(&[0x00, 0x00]);
    assert_eq!(generate_word_with_target_len(&model, &mut reader, 100), "abcabc");
}

#[test]
fn target_len_overrides_short_sample() {
    // The raw end sample of 0 picks the short end token ("defg": 3+4 = 7 < 8),
    // so the policy overrides it with the first entry that reaches the
    // target: "hijkl" (3+5 = 8).
    let model = two_end_model();
    let mut reader = SliceReader::new(&[0x00, 0x00]);
    let word = generate_word_with_target_len(&model, &mut reader, 8);
    assert_eq!(word, "abchijkl");
    assert_eq!(word.len(), 8);
}

#[test]
fn target_len_keeps_long_sampled_end_token() {
    // Both end tokens reach the target of 6 from "abc" (3+3 and 3+4). The
    // second entropy byte 0xFF samples the longer one, and the policy keeps
    // the sampled token: the word may exceed the target, it never undercuts
    // it.
    let model = two_qualifying_ends_model();
    let mut reader = SliceReader::new(&[0x00, 0xff]);
    let word = generate_word_with_target_len(&model, &mut reader, 6);
    assert_eq!(word, "abcghij");
    // A raw end sample of 0 picks the shorter qualifying token instead.
    let mut reader = SliceReader::new(&[0x00, 0x00]);
    let word = generate_word_with_target_len(&model, &mut reader, 6);
    assert_eq!(word, "abcdef");
}

#[test]
fn narrow_sample_width_is_not_byte_aligned() {
    // With a 4-bit sample width a single byte yields two samples: a beginning
    // and one middle token, then the end token from the default sample of 0.
    let mut model = chain_model();
    model.probability_bits = 4;
    model.probability_max = 15;
    let mut reader = SliceReader::new(&[0x00]);
    assert_eq!(generate_word(&model, &mut reader), "abcabcdefg");
}

#[test]
fn no_marker_characters_in_output() {
    let model = chain_model();
    for bytes in [&[][..], &[0x00][..], &[0x12, 0x34][..], &[0xff, 0xff, 0xff][..]] {
        let mut reader = SliceReader::new(bytes);
        let word = generate_word(&model, &mut reader);
        assert!(!word.contains('^'));
        assert!(!word.contains('$'));
        let mut reader = SliceReader::new(bytes);
        let word = generate_word_with_target_len(&model, &mut reader, 6);
        assert!(!word.contains('^'));
        assert!(!word.contains('$'));
    }
}

#[test]
fn deterministic_across_runs() {
    let model = chain_model();
    let bytes = [0xde, 0xad, 0xbe, 0xef];
    let mut r1 = SliceReader::new(&bytes);
    let mut r2 = SliceReader::new(&bytes);
    assert_eq!(generate_word(&model, &mut r1), generate_word(&model, &mut r2));
    let mut r3 = SliceReader::new(&bytes);
    let mut r4 = SliceReader::new(&bytes);
    assert_eq!(
        generate_word_with_target_len(&model, &mut r3, 9),
        generate_word_with_target_len(&model, &mut r4, 9)
    );
}
