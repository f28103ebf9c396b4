use markov_chain::model::Markov;
use markov_chain::novelty::is_novel;
use markov_chain::tokenizer::tokenize;

fn strs(v: &[&str]) -> Vec<String> {
    v.iter().map(|s| s.to_string()).collect()
}

fn trained(tokens: &[&str], degree: u8, weight: u32) -> Markov {
    let mut m = Markov::new(degree);
    m.train(&strs(tokens), weight);
    m
}

#[test]
fn punctuation_is_dropped() {
    let expected = strs(&["hello", "world"]);
    assert_eq!(tokenize("Hello, world!".to_string()), expected);
    assert_eq!(tokenize("Hello world".to_string()), expected);
}

#[test]
fn punctuation_does_not_split_words() {
    assert_eq!(tokenize("don't stop".to_string()), strs(&["dont", "stop"]));
    assert_eq!(tokenize("well-known".to_string()), strs(&["wellknown"]));
    assert_eq!(tokenize("\u{201C}Quoted\u{201D} \u{2014} text".to_string()), strs(&["quoted", "text"]));
}

#[test]
fn non_ascii_characters_stand_alone() {
    assert_eq!(tokenize("café".to_string()), strs(&["caf", "é"]));
    assert_eq!(tokenize("caféA".to_string()), strs(&["caf", "é", "a"]));
    assert_eq!(tokenize("日本".to_string()), strs(&["日", "本"]));
}

#[test]
fn non_ascii_uppercase_is_kept() {
    assert_eq!(tokenize("ÉCOLE".to_string()), strs(&["É", "cole"]));
}

#[test]
fn whitespace_of_every_kind_separates() {
    assert_eq!(tokenize("a\tb\nc\u{3000}d  e".to_string()), strs(&["a", "b", "c", "d", "e"]));
}

#[test]
fn empty_and_blank_text_give_no_tokens() {
    assert!(tokenize(String::new()).is_empty());
    assert!(tokenize("  \t ,.; ".to_string()).is_empty());
}

#[test]
fn digits_and_mixed_case_lowercased() {
    assert_eq!(tokenize("Route66 ABC".to_string()), strs(&["route66", "abc"]));
}

#[test]
fn retokenizing_joined_tokens_is_stable() {
    let first = tokenize("The Art of War, chapter I: “Laying Plans” — naïve café!".to_string());
    let again = tokenize(first.join(" "));
    assert_eq!(again, first);
}

#[test]
fn end_to_end_weights() {
    let m = trained(&["the", "cat", "sat", "the", "cat", "ran"], 2, 1);
    let the = m.id_of("the").unwrap();
    let cat = m.id_of("cat").unwrap();
    let sat = m.id_of("sat").unwrap();
    let ran = m.id_of("ran").unwrap();
    assert_eq!((the, cat, sat, ran), (0, 1, 2, 3));
    assert_eq!(m.weight(&vec![the], cat), 2);
    assert_eq!(m.weight(&vec![cat], sat), 1);
    assert_eq!(m.weight(&vec![cat], ran), 1);
    assert_eq!(m.weight(&vec![sat], the), 1);
    assert_eq!(m.weight(&vec![ran], the), 0);
    assert_eq!(m.weight(&vec![the], sat), 0);
}

#[test]
fn end_to_end_sampling_is_even() {
    let m = trained(&["the", "cat", "sat", "the", "cat", "ran"], 2, 1);
    let mut sat = 0;
    let mut ran = 0;
    for _ in 0..4000 {
        let out = m.infer(2);
        if out[0] == "cat" {
            if out[1] == "sat" {
                sat += 1;
            } else if out[1] == "ran" {
                ran += 1;
            } else {
                panic!("unexpected follower {}", out[1]);
            }
        }
    }
    let total = sat + ran;
    assert!(total > 500);
    assert!(sat * 100 > total * 35 && sat * 100 < total * 65);
}

#[test]
fn training_twice_doubles_weights() {
    let corpus = strs(&["the", "cat", "sat", "the", "cat", "ran"]);
    let mut m = Markov::new(2);
    m.train(&corpus, 1);
    let before = m.vocabulary().clone();
    m.train(&corpus, 1);
    assert_eq!(m.vocabulary(), &before);
    assert_eq!(m.weight(&vec![0], 1), 4);
    assert_eq!(m.weight(&vec![1], 2), 2);
    assert_eq!(m.weight(&vec![1], 3), 2);
    assert_eq!(m.weight(&vec![2], 0), 2);
}

#[test]
fn weights_grow_by_the_training_weight() {
    let mut m = Markov::new(2);
    m.train(&strs(&["a", "b"]), 3);
    assert_eq!(m.weight(&vec![0], 1), 3);
    m.train(&strs(&["a", "b"]), 2);
    assert_eq!(m.weight(&vec![0], 1), 5);
    m.train(&strs(&["a", "c"]), 4);
    assert_eq!(m.weight(&vec![0], 1), 5);
    assert_eq!(m.weight(&vec![0], 2), 4);
}

#[test]
fn context_does_not_cross_training_calls() {
    let mut m = Markov::new(2);
    m.train(&strs(&["a"]), 1);
    m.train(&strs(&["b"]), 1);
    assert_eq!(m.vocabulary(), &strs(&["a", "b"]));
    assert_eq!(m.weight(&vec![0], 1), 0);
}

#[test]
fn higher_degree_contexts() {
    let m = trained(&["a", "b", "c", "d"], 3, 1);
    assert_eq!(m.degree(), 3);
    assert_eq!(m.weight(&vec![0], 1), 1);
    assert_eq!(m.weight(&vec![0, 1], 2), 1);
    assert_eq!(m.weight(&vec![1, 2], 3), 1);
    assert_eq!(m.weight(&vec![1], 2), 0);
}

#[test]
fn back_off_prefers_longest_trial() {
    let m = trained(&["a", "b", "c"], 3, 1);
    // entries: [a] -> b, then [a, b] -> c
    assert_eq!(m.find_entry(&vec![0, 1]), Some(1));
    assert_eq!(m.find_entry(&vec![1]), Some(1));
    assert_eq!(m.find_entry(&vec![0]), Some(0));
    assert_eq!(m.find_entry(&vec![2]), Some(0));
    assert_eq!(m.find_entry(&vec![]), Some(0));
}

#[test]
fn back_off_on_empty_table() {
    let m = trained(&["a"], 2, 1);
    assert_eq!(m.find_entry(&vec![0]), None);
}

#[test]
fn infer_emits_vocabulary_tokens() {
    let m = trained(&["one", "two", "three", "two", "one"], 2, 1);
    for limit in [1usize, 2, 5, 20] {
        let out = m.infer(limit);
        assert_eq!(out.len(), limit);
        for t in &out {
            assert!(m.vocabulary().contains(t));
        }
    }
    assert_eq!(m.infer(0).len(), 1);
}

#[test]
fn infer_without_transitions_falls_back() {
    let m = trained(&["solo"], 2, 1);
    assert_eq!(m.infer(4), strs(&["solo", "solo", "solo", "solo"]));
}

#[test]
fn infer_single_token_covers_vocabulary() {
    let m = trained(&["a", "b", "c", "d"], 2, 1);
    let mut seen = [0usize; 4];
    for _ in 0..2000 {
        let out = m.infer(1);
        let id = m.id_of(&out[0]).unwrap() as usize;
        seen[id] += 1;
    }
    for n in seen {
        assert!(n > 300);
    }
}

#[test]
fn infer_follows_the_only_transition() {
    let m = trained(&["x", "y", "x", "y"], 2, 1);
    for _ in 0..50 {
        let out = m.infer(6);
        for w in out.windows(2) {
            assert_ne!(w[0], w[1]);
        }
    }
}

#[test]
fn novelty_checks_aligned_chunks() {
    let corpus = strs(&["a", "b", "c", "d"]);
    assert!(!is_novel(&strs(&["a", "b"]), &corpus));
    assert!(is_novel(&strs(&["b", "c"]), &corpus));
    assert!(!is_novel(&strs(&["c", "d"]), &corpus));
}

#[test]
fn novelty_ignores_short_last_chunk() {
    let corpus = strs(&["a", "b", "c", "d", "e"]);
    assert!(is_novel(&strs(&["e"]), &strs(&["a", "b"])));
    assert!(!is_novel(&strs(&["e"]), &corpus));
    assert!(is_novel(&strs(&["d", "e"]), &corpus));
    assert!(!is_novel(&strs(&["c", "d"]), &corpus));
    assert!(is_novel(&strs(&["a", "b", "c", "d", "e", "f"]), &corpus));
    assert!(is_novel(&strs(&["a"]), &Vec::new()));
}

#[test]
fn vocabulary_ids_follow_first_occurrence() {
    let m = trained(&["b", "a", "b", "c"], 2, 1);
    assert_eq!(m.vocabulary(), &strs(&["b", "a", "c"]));
    assert_eq!(m.id_of("c"), Some(2));
    assert_eq!(m.id_of("z"), None);
}
