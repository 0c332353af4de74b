use rand::rngs::StdRng;
use rand::SeedableRng;
use smol::error::SmolErrorKind;
use smol::features::FeatureSet;
use smol::perceptron::AveragedPerceptron;
use smol::tagger::{PerceptronTagger, Tagger};
use smol::tokenize::Token;

fn s(x: &str) -> String {
    x.to_string()
}

fn sentence(pairs: &[(&str, &str)]) -> Vec<(String, String)> {
    pairs.iter().map(|(w, t)| (s(w), s(t))).collect()
}

fn tokens(words: &[&str]) -> Vec<Token> {
    words.iter().enumerate().map(|(i, w)| Token::new(s(w), i, i)).collect()
}

fn tags_of(out: &[(Token, String)]) -> Vec<String> {
    out.iter().map(|(_, t)| t.clone()).collect()
}

fn features(keys: &[&str]) -> FeatureSet {
    let mut f = FeatureSet::new();
    for k in keys {
        f.add(s(k));
    }
    f
}

#[test]
fn perceptron_learns_from_one_update() {
    let mut p = AveragedPerceptron::new();
    let f = features(&["f"]);
    p.update(&s("NOUN"), &s("VERB"), &f);
    assert_eq!(p.predict(&f), Some(s("NOUN")));
    assert_eq!(p.weight_of(&s("f"), &s("NOUN")), 1000);
    assert_eq!(p.weight_of(&s("f"), &s("VERB")), -1000);
    // learning registers no class
    assert_eq!(p.class_count(), 0);
}

#[test]
fn perceptron_correct_guess_changes_no_weight() {
    let mut p = AveragedPerceptron::new();
    let f = features(&["f"]);
    p.update(&s("NOUN"), &s("NOUN"), &f);
    assert_eq!(p.weight_of(&s("f"), &s("NOUN")), 0);
    assert!(p.weight_list().is_empty());
    assert_eq!(p.class_count(), 0);
    assert_eq!(p.instance_count(), 1);
    assert_eq!(p.predict(&f), None);
}

#[test]
fn perceptron_without_classes_predicts_nothing() {
    let p = AveragedPerceptron::new();
    assert_eq!(p.predict(&features(&["f"])), None);
}

#[test]
fn perceptron_tie_goes_by_label_order() {
    let p = AveragedPerceptron::new().classes(vec![s("X"), s("Y")]).unwrap();
    let q = AveragedPerceptron::new().classes(vec![s("Y"), s("X")]).unwrap();
    assert_eq!(p.predict(&features(&["f"])), Some(s("Y")));
    assert_eq!(q.predict(&features(&["f"])), Some(s("Y")));
    let r = AveragedPerceptron::new().classes(vec![s("AB"), s("A"), s("B")]).unwrap();
    let r = r.weights(vec![(s("f"), s("A"), 7), (s("f"), s("AB"), 7)]).unwrap();
    assert_eq!(r.predict(&features(&["f"])), Some(s("AB")));
}

#[test]
fn perceptron_scores_unregistered_reached_class() {
    let p = AveragedPerceptron::new().classes(vec![s("X")]).unwrap();
    let p = p.weights(vec![(s("f"), s("Z"), 3000)]).unwrap();
    assert_eq!(p.predict(&features(&["f"])), Some(s("Z")));
}

#[test]
fn perceptron_prefers_reached_classes() {
    let p = AveragedPerceptron::new().classes(vec![s("X"), s("Y")]).unwrap();
    let p = p.weights(vec![(s("f"), s("Y"), -500)]).unwrap();
    // only Y has a weight for f, so X does not compete although it would score 0
    assert_eq!(p.predict(&features(&["f"])), Some(s("Y")));
    // a feature that reaches no class leaves every registered class in the
    // running, and the later label wins the tie
    assert_eq!(p.predict(&features(&["g"])), Some(s("Y")));
}

#[test]
fn lazy_average_matches_naive_integral() {
    let steps: Vec<(&str, &str, Vec<&str>)> = vec![
        ("N", "V", vec!["a", "b"]),
        ("N", "N", vec!["a"]),
        ("V", "N", vec!["a", "c"]),
        ("N", "V", vec!["b"]),
        ("V", "N", vec!["c", "a"]),
        ("V", "V", vec!["c"]),
        ("N", "V", vec!["a"]),
    ];
    let pairs = [("a", "N"), ("a", "V"), ("b", "N"), ("b", "V"), ("c", "N"), ("c", "V")];
    let mut p = AveragedPerceptron::new();
    let mut naive = vec![0i64; pairs.len()];
    for (truth, guess, keys) in &steps {
        for (k, (f, c)) in pairs.iter().enumerate() {
            naive[k] += p.weight_of(&s(f), &s(c));
        }
        p.update(&s(truth), &s(guess), &features(keys));
    }
    p.average_weights();
    let n = steps.len() as f64;
    for (k, (f, c)) in pairs.iter().enumerate() {
        let expected = ((naive[k] as f64) / n).round() as i64;
        assert_eq!(p.weight_of(&s(f), &s(c)), expected, "pair {} {}", f, c);
    }
    // by hand: (a, N) weighs 0, 1000, 1000, 0, 0, -1000, -1000 before the
    // seven steps, (b, N) weighs 0, 1000, 1000, 1000, 2000, 2000, 2000
    assert_eq!(p.weight_of(&s("a"), &s("N")), 0);
    assert_eq!(p.weight_of(&s("b"), &s("N")), 1286);
}

#[test]
fn averaging_rounds_to_thousandths_and_drops_zeros() {
    let mut p = AveragedPerceptron::new();
    let f = features(&["f"]);
    p.update(&s("N"), &s("V"), &f);
    p.update(&s("N"), &s("N"), &f);
    p.update(&s("N"), &s("N"), &f);
    // weight 1000 in force for instances 2 and 3 out of 3: 2000 / 3
    p.average_weights();
    assert_eq!(p.weight_of(&s("f"), &s("N")), 667);
    assert_eq!(p.weight_of(&s("f"), &s("V")), -667);
    // weights 0, 1000, 0, -1000 before the four steps average to zero
    let mut q = AveragedPerceptron::new();
    q.update(&s("N"), &s("V"), &f);
    q.update(&s("V"), &s("N"), &f);
    q.update(&s("V"), &s("N"), &f);
    q.update(&s("N"), &s("V"), &f);
    q.average_weights();
    assert!(q.weight_list().is_empty());
}

fn word_corpus(word: &str, tag: &str, n: usize, other: &str, m: usize) -> Vec<Vec<(String, String)>> {
    let mut out = Vec::new();
    for _ in 0..n {
        out.push(sentence(&[(word, tag)]));
    }
    for _ in 0..m {
        out.push(sentence(&[(word, other)]));
    }
    out
}

#[test]
fn dictionary_threshold() {
    let mut corpus = word_corpus("the", "DET", 24, "NOUN", 1);
    corpus.extend(word_corpus("a", "DET", 20, "X", 0));
    corpus.extend(word_corpus("rare", "ADJ", 19, "X", 0));
    let mut t = PerceptronTagger::new();
    t.make_tags(&corpus);
    assert_eq!(t.lookup(&s("the")), None);
    assert_eq!(t.lookup(&s("a")), Some(s("DET")));
    assert_eq!(t.lookup(&s("rare")), None);
    assert_eq!(t.model().class_count(), 3);
}

#[test]
fn dictionary_boundary_share() {
    // 97 of 100 is exactly the threshold
    let corpus = word_corpus("of", "ADP", 97, "X", 3);
    let mut t = PerceptronTagger::new();
    t.make_tags(&corpus);
    assert_eq!(t.lookup(&s("of")), Some(s("ADP")));
    let corpus = word_corpus("to", "PRT", 96, "X", 4);
    let mut u = PerceptronTagger::new();
    u.make_tags(&corpus);
    assert_eq!(u.lookup(&s("to")), None);
}

#[test]
fn end_to_end_two_words() {
    let corpus = vec![sentence(&[("Time", "NOUN"), ("flies", "VERB")])];
    let mut t = PerceptronTagger::new();
    let mut rng = StdRng::seed_from_u64(7);
    t.train(&corpus, 10, &mut rng);
    let out = t.pos(&tokens(&["Time", "flies"])).unwrap();
    assert_eq!(out[0].0.term, "Time");
    assert_eq!(out[1].0.term, "flies");
    assert_eq!(tags_of(&out), vec![s("NOUN"), s("VERB")]);
}

#[test]
fn tagging_untrained_model_fails() {
    let t = PerceptronTagger::new();
    let err = t.pos(&tokens(&["hello"])).unwrap_err();
    assert_eq!(err.kind(), SmolErrorKind::EmptyModel);
    let err = t.tag(&tokens(&[])).unwrap_err();
    assert_eq!(err.kind(), SmolErrorKind::EmptyModel);
}

#[test]
fn single_word_sentence() {
    let corpus = vec![sentence(&[("Hi", "INTJ")])];
    let mut t = PerceptronTagger::new();
    let mut rng = StdRng::seed_from_u64(1);
    t.train(&corpus, 3, &mut rng);
    let out = t.tag(&tokens(&["Hi"])).unwrap();
    assert_eq!(out.len(), 1);
    assert_eq!(out[0].1, "INTJ");
    assert_eq!(out[0].0.offset, 0);
    assert!(t.tag(&tokens(&[])).unwrap().is_empty());
}

fn small_corpus() -> Vec<Vec<(String, String)>> {
    vec![
        sentence(&[("The", "DET"), ("dog", "NOUN"), ("barks", "VERB"), (".", ".")]),
        sentence(&[("A", "DET"), ("cat", "NOUN"), ("sleeps", "VERB"), (".", ".")]),
        sentence(&[("The", "DET"), ("old", "ADJ"), ("dog", "NOUN"), ("sleeps", "VERB"), (".", ".")]),
        sentence(&[("In", "ADP"), ("1990", "NUM"), ("dogs", "NOUN"), ("barked", "VERB"), (".", ".")]),
    ]
}

#[test]
fn persistence_round_trip() {
    let mut t = PerceptronTagger::new();
    let mut rng = StdRng::seed_from_u64(42);
    t.train(&small_corpus(), 5, &mut rng);
    let bytes = t.to_bytes().unwrap();
    let u = match PerceptronTagger::from_bytes(&bytes) {
        Ok(u) => u,
        Err(e) => panic!("reload failed: {:?}", e.kind()),
    };
    let input = tokens(&["The", "cat", "barks", "in", "2001", "."]);
    let a = t.pos(&input).unwrap();
    let b = u.pos(&input).unwrap();
    assert_eq!(tags_of(&a), tags_of(&b));
    assert_eq!(u.to_bytes().unwrap(), bytes);
    assert_eq!(tags_of(&a)[0], "DET");
}

#[test]
fn corrupt_bytes_fail_to_load() {
    match PerceptronTagger::from_bytes(&[1, 2, 3]) {
        Ok(_) => panic!("three bytes decoded as a model"),
        Err(e) => assert_eq!(e.kind(), SmolErrorKind::Deserialize),
    }
    let mut t = PerceptronTagger::new();
    let mut rng = StdRng::seed_from_u64(3);
    t.train(&small_corpus(), 2, &mut rng);
    let bytes = t.to_bytes().unwrap();
    match PerceptronTagger::from_bytes(&bytes[..bytes.len() - 1]) {
        Ok(_) => panic!("truncated bytes decoded as a model"),
        Err(e) => assert_eq!(e.kind(), SmolErrorKind::Deserialize),
    }
}

#[test]
fn largest_listed_weight_loads_and_saved_model_loads_back() {
    let m = AveragedPerceptron::new().classes(vec![s("A")]).unwrap();
    let m = m.weights(vec![(s("f"), s("A"), 4_294_967_296_000)]).unwrap();
    assert_eq!(m.weight_of(&s("f"), &s("A")), 4_294_967_296_000);
    let mut t = PerceptronTagger::new();
    let corpus = vec![sentence(&[("a", "A")])];
    let mut rng = StdRng::seed_from_u64(5);
    t.train(&corpus, 1, &mut rng);
    let bytes = t.to_bytes().unwrap();
    assert!(PerceptronTagger::from_bytes(&bytes).is_ok());
}

#[test]
fn builders_reject_duplicates() {
    let p = AveragedPerceptron::new();
    assert!(p.classes(vec![s("A"), s("A")]).is_none());
    let p = AveragedPerceptron::new();
    let w = vec![(s("f"), s("A"), 5), (s("f"), s("A"), 6)];
    assert!(p.weights(w).is_none());
    let p = AveragedPerceptron::new().classes(vec![s("A"), s("B")]).unwrap();
    let p = p.weights(vec![(s("f"), s("B"), 2500)]).unwrap();
    assert_eq!(p.weight_of(&s("f"), &s("B")), 2500);
    assert_eq!(p.predict(&features(&["f"])), Some(s("B")));
}

#[test]
fn training_twice_keeps_learning() {
    let corpus = small_corpus();
    let mut t = PerceptronTagger::new();
    let mut rng = StdRng::seed_from_u64(9);
    t.train(&corpus, 4, &mut rng);
    t.train(&corpus, 4, &mut rng);
    let out = t.pos(&tokens(&["The", "dog", "barks", "."])).unwrap();
    assert_eq!(tags_of(&out), vec![s("DET"), s("NOUN"), s("VERB"), s(".")]);
}
