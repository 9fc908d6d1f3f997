use bpe_trainer::generator::{candidates, descend, generate};
use bpe_trainer::trainer::train;
use bpe_trainer::vocab::Vocabulary;

#[test]
fn leaves_only_vocabulary_emits_one_byte_and_stops() {
    let vocab = Vocabulary::new_base();
    for _ in 0..20 {
        let segments = generate(&vocab);
        assert_eq!(segments.len(), 1);
        assert_eq!(segments[0].len(), 1);
    }
}

#[test]
fn candidates_are_the_rights_of_matching_rules() {
    let mut vocab = Vocabulary::new_base();
    vocab.append(97, 98);
    vocab.append(97, 99);
    vocab.append(98, 97);
    assert_eq!(candidates(&vocab, 97), vec![98, 99]);
    assert_eq!(candidates(&vocab, 98), vec![97]);
    assert_eq!(candidates(&vocab, 99), Vec::<u32>::new());
    assert_eq!(candidates(&vocab, 256), Vec::<u32>::new());
}

#[test]
fn descent_follows_right_children_until_a_continuation() {
    let mut vocab = Vocabulary::new_base();
    let ab = vocab.append(97, 98);
    assert_eq!(descend(&vocab, ab), 98);
    assert_eq!(descend(&vocab, 97), 97);
    let abab = vocab.append(ab, ab);
    assert_eq!(candidates(&vocab, abab), Vec::<u32>::new());
    assert_eq!(candidates(&vocab, ab), vec![ab]);
    assert_eq!(descend(&vocab, abab), ab);
    assert_eq!(descend(&vocab, 98), 98);
}

#[test]
fn walk_steps_follow_the_candidate_relation() {
    // One merge rule: 256 = (97, 98).  The only continuation anywhere is
    // 97 -> 98, and 98 has none, so every walk is one segment, or the two
    // segments "a" then "b".
    let (vocab, _toks) = train(&vec![97u8, 98, 97, 98]);
    assert_eq!(vocab.len(), 257);
    for _ in 0..60 {
        let segments = generate(&vocab);
        assert!(segments.len() <= 2);
        if segments.len() == 2 {
            assert_eq!(segments[0], vec![97]);
            assert_eq!(segments[1], vec![98]);
        }
    }
}

#[test]
fn walks_over_a_trained_vocabulary_emit_decodable_segments() {
    let bytes: Vec<u8> = b"walks walk the walked walkway".to_vec();
    let (vocab, _toks) = train(&bytes);
    for _ in 0..10 {
        let segments = generate(&vocab);
        assert!(!segments.is_empty());
        assert!(segments.len() <= 100);
        for seg in &segments {
            assert!(!seg.is_empty());
        }
    }
}
