use bpe_trainer::decoder::decode;
use bpe_trainer::freq::{build_index, FrequencyIndex};
use bpe_trainer::merger::{merge, tokenize};
use bpe_trainer::pairs::count_occurrences;
use bpe_trainer::selector::select_best;
use bpe_trainer::vocab::Vocabulary;

#[test]
fn base_vocabulary_is_the_256_leaves() {
    let vocab = Vocabulary::new_base();
    assert_eq!(vocab.len(), 256);
    for id in 0..256u32 {
        assert!(vocab.is_leaf(id));
        assert_eq!(vocab.left(id), id);
        assert_eq!(vocab.right(id), None);
        assert_eq!(decode(&vocab, id), vec![id as u8]);
    }
}

#[test]
fn append_grows_by_one_and_never_moves_a_rule() {
    let mut vocab = Vocabulary::new_base();
    let id1 = vocab.append(97, 98);
    assert_eq!(id1, 256);
    assert_eq!(vocab.len(), 257);
    let id2 = vocab.append(256, 99);
    assert_eq!(id2, 257);
    assert_eq!(vocab.len(), 258);
    assert_eq!(vocab.left(256), 97);
    assert_eq!(vocab.right(256), Some(98));
    assert!(!vocab.is_leaf(256));
    for id in 0..256u32 {
        assert_eq!(vocab.left(id), id);
        assert_eq!(vocab.right(id), None);
    }
}

#[test]
fn index_counts_match_a_full_rescan() {
    let toks: Vec<u32> = b"how much wood would a woodchuck chuck"
        .iter()
        .map(|&b| b as u32)
        .collect();
    let fi = build_index(&toks);
    for (key, count) in fi.entries() {
        let l = (key >> 32) as u32;
        let r = key as u32;
        assert!(count >= 1);
        assert_eq!(count, count_occurrences(&toks, l, r));
    }
    for w in toks.windows(2) {
        assert_eq!(fi.get(w[0], w[1]), count_occurrences(&toks, w[0], w[1]));
    }
}

#[test]
fn index_stays_consistent_across_merges() {
    let mut toks: Vec<u32> = b"deterministic tests detect detailed defects"
        .iter()
        .map(|&b| b as u32)
        .collect();
    let mut fi = build_index(&toks);
    let mut vocab = Vocabulary::new_base();
    loop {
        let (l, r, count) = select_best(&fi);
        if count <= 1 {
            break;
        }
        let t = vocab.append(l, r);
        toks = merge(&toks, l, r, t, &mut fi);
        for (key, stored) in fi.entries() {
            let kl = (key >> 32) as u32;
            let kr = key as u32;
            assert!(stored >= 1);
            assert_eq!(stored, count_occurrences(&toks, kl, kr));
        }
        for w in toks.windows(2) {
            assert_eq!(fi.get(w[0], w[1]), count_occurrences(&toks, w[0], w[1]));
        }
    }
}

#[test]
fn increments_and_decrements_round_trip() {
    let mut fi = FrequencyIndex::new();
    assert_eq!(fi.get(5, 6), 0);
    fi.increment(5, 6);
    fi.increment(5, 6);
    assert_eq!(fi.get(5, 6), 2);
    fi.decrement(5, 6);
    assert_eq!(fi.get(5, 6), 1);
    fi.decrement(5, 6);
    assert_eq!(fi.get(5, 6), 0);
    assert!(fi.entries().is_empty());
}

#[test]
fn packed_keys_keep_pairs_apart() {
    let mut fi = FrequencyIndex::new();
    fi.increment(1, 0);
    assert_eq!(fi.get(0, 1), 0);
    assert_eq!(fi.get(1, 0), 1);
    assert_eq!(fi.get(0, 0), 0);
}

#[test]
fn selection_prefers_count_then_small_left_then_small_right() {
    let toks: Vec<u32> = vec![1, 5, 200, 1, 5, 201, 1, 3, 202, 1, 3];
    let fi = build_index(&toks);
    assert_eq!(select_best(&fi), (1, 3, 2));

    let toks2: Vec<u32> = vec![9, 9, 9, 9, 9, 2, 4, 2, 4];
    let fi2 = build_index(&toks2);
    assert_eq!(select_best(&fi2), (9, 9, 4));
}

#[test]
fn empty_index_selects_nothing() {
    let fi = FrequencyIndex::new();
    assert_eq!(select_best(&fi), (0, 0, 0));
}

#[test]
fn tokenize_rewrites_greedily() {
    let toks: Vec<u32> = vec![97, 98, 97, 98];
    assert_eq!(tokenize(&toks, 97, 98, 256), vec![256, 256]);

    let run: Vec<u32> = vec![5, 5, 5, 5, 5];
    assert_eq!(tokenize(&run, 5, 5, 256), vec![256, 256, 5]);

    let none: Vec<u32> = vec![1, 2, 3];
    assert_eq!(tokenize(&none, 7, 8, 256), vec![1, 2, 3]);

    let tail: Vec<u32> = vec![4, 1, 2];
    assert_eq!(tokenize(&tail, 1, 2, 256), vec![4, 256]);
}

#[test]
fn tokenize_agrees_with_merge() {
    let toks: Vec<u32> = b"an incremental pass and a plain pass agree"
        .iter()
        .map(|&b| b as u32)
        .collect();
    let mut fi = build_index(&toks);
    let (l, r, count) = select_best(&fi);
    assert!(count > 1);
    let merged = merge(&toks, l, r, 256, &mut fi);
    assert_eq!(merged, tokenize(&toks, l, r, 256));
}

#[test]
fn decode_walks_a_deep_chain() {
    let mut vocab = Vocabulary::new_base();
    let mut id = 120u32;
    let mut expected: Vec<u8> = vec![120];
    for _ in 0..12 {
        id = vocab.append(id, id);
        let mut doubled = expected.clone();
        doubled.extend_from_slice(&expected);
        expected = doubled;
    }
    assert_eq!(expected.len(), 4096);
    assert_eq!(decode(&vocab, id), expected);
}

#[test]
fn brute_force_count_finds_overlaps_greedily_counted() {
    let toks: Vec<u32> = vec![7, 7, 7];
    assert_eq!(count_occurrences(&toks, 7, 7), 2);
    let empty: Vec<u32> = Vec::new();
    assert_eq!(count_occurrences(&empty, 7, 7), 0);
}
