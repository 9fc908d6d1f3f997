use bpe_trainer::decoder::{decode, decode_sequence};
use bpe_trainer::freq::build_index;
use bpe_trainer::merger::merge;
use bpe_trainer::selector::select_best;
use bpe_trainer::trainer::train;
use bpe_trainer::vocab::Vocabulary;

#[test]
fn abab_initial_index() {
    let toks: Vec<u32> = vec![97, 98, 97, 98];
    let fi = build_index(&toks);
    assert_eq!(fi.get(97, 98), 2);
    assert_eq!(fi.get(98, 97), 1);
    assert_eq!(fi.get(97, 97), 0);
    assert_eq!(select_best(&fi), (97, 98, 2));
}

#[test]
fn abab_one_merge_step() {
    let toks: Vec<u32> = vec![97, 98, 97, 98];
    let mut fi = build_index(&toks);
    let mut vocab = Vocabulary::new_base();
    let t = vocab.append(97, 98);
    assert_eq!(t, 256);
    let out = merge(&toks, 97, 98, t, &mut fi);
    assert_eq!(out, vec![256, 256]);
    assert_eq!(fi.get(256, 256), 1);
    assert_eq!(fi.get(97, 98), 0);
    assert_eq!(fi.get(98, 97), 0);
    assert_eq!(select_best(&fi), (256, 256, 1));
}

#[test]
fn abab_trained_model() {
    let bytes: Vec<u8> = vec![97, 98, 97, 98];
    let (vocab, toks) = train(&bytes);
    assert_eq!(vocab.len(), 257);
    assert_eq!(toks, vec![256, 256]);
    assert_eq!(vocab.left(256), 97);
    assert_eq!(vocab.right(256), Some(98));
    assert_eq!(decode(&vocab, 256), vec![97, 98]);
    assert_eq!(decode_sequence(&vocab, &toks), bytes);
}

#[test]
fn no_repeated_pair_means_zero_merges() {
    let bytes: Vec<u8> = b"abcdefg".to_vec();
    let (vocab, toks) = train(&bytes);
    assert_eq!(vocab.len(), 256);
    let as_tokens: Vec<u32> = bytes.iter().map(|&b| b as u32).collect();
    assert_eq!(toks, as_tokens);
}

#[test]
fn empty_input_trains_to_empty_model() {
    let bytes: Vec<u8> = Vec::new();
    let (vocab, toks) = train(&bytes);
    assert_eq!(vocab.len(), 256);
    assert!(toks.is_empty());
    assert_eq!(decode_sequence(&vocab, &toks), bytes);
}

#[test]
fn single_byte_input_is_kept() {
    let bytes: Vec<u8> = vec![65];
    let (vocab, toks) = train(&bytes);
    assert_eq!(vocab.len(), 256);
    assert_eq!(toks, vec![65]);
    assert_eq!(decode_sequence(&vocab, &toks), bytes);
}

#[test]
fn run_of_one_byte() {
    let bytes: Vec<u8> = vec![97; 8];
    let (vocab, toks) = train(&bytes);
    assert_eq!(vocab.len(), 258);
    assert_eq!(vocab.left(256), 97);
    assert_eq!(vocab.right(256), Some(97));
    assert_eq!(vocab.left(257), 256);
    assert_eq!(vocab.right(257), Some(256));
    assert_eq!(toks, vec![257, 257]);
    assert_eq!(decode(&vocab, 257), vec![97, 97, 97, 97]);
    assert_eq!(decode_sequence(&vocab, &toks), bytes);
}

#[test]
fn training_is_deterministic() {
    let bytes: Vec<u8> = b"the theory of the thing is the thing itself".to_vec();
    let (v1, t1) = train(&bytes);
    let (v2, t2) = train(&bytes);
    assert_eq!(t1, t2);
    assert_eq!(v1.len(), v2.len());
    for id in 0..v1.len() as u32 {
        assert_eq!(v1.left(id), v2.left(id));
        assert_eq!(v1.right(id), v2.right(id));
    }
}

#[test]
fn round_trip_on_text() {
    let inputs: Vec<Vec<u8>> = vec![
        b"banana banana banana".to_vec(),
        b"mississippi".to_vec(),
        b"xyxyxyxyxyxy".to_vec(),
        (0u8..=255).collect::<Vec<u8>>().repeat(3),
    ];
    for bytes in inputs {
        let (vocab, toks) = train(&bytes);
        assert_eq!(decode_sequence(&vocab, &toks), bytes);
        assert!(toks.len() <= bytes.len());
    }
}

#[test]
fn converged_sequence_has_no_repeated_pair() {
    let bytes: Vec<u8> = b"abracadabra abracadabra".to_vec();
    let (_vocab, toks) = train(&bytes);
    for i in 0..toks.len().saturating_sub(1) {
        let mut n: usize = 0;
        for j in 0..toks.len() - 1 {
            if toks[j] == toks[i] && toks[j + 1] == toks[i + 1] {
                n += 1;
            }
        }
        assert_eq!(n, 1);
    }
}
