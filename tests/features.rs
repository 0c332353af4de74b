use smol::features::{get_features, normalize_str, FeatureSet};

#[test]
fn normalize_buckets() {
    assert_eq!(normalize_str("1990"), "!YEAR");
    assert_eq!(normalize_str("42"), "!DIGIT");
    assert_eq!(normalize_str("well-known"), "!HYPHEN");
    assert_eq!(normalize_str("-5"), "!DIGIT");
    assert_eq!(normalize_str("The"), "the");
}

#[test]
fn normalize_edges() {
    assert_eq!(normalize_str(""), "");
    assert_eq!(normalize_str("-"), "-");
    assert_eq!(normalize_str("+1990"), "!YEAR");
    assert_eq!(normalize_str("-1990"), "!DIGIT");
    assert_eq!(normalize_str("12345"), "!DIGIT");
    assert_eq!(normalize_str("0042"), "!YEAR");
    assert_eq!(normalize_str("19a0"), "19a0");
    assert_eq!(normalize_str("ÉCOLE"), "école");
}

fn ctx(words: &[&str]) -> Vec<String> {
    words.iter().map(|w| w.to_string()).collect()
}

fn count(f: &FeatureSet, key: &str) -> u32 {
    f.count(&key.to_string())
}

#[test]
fn features_of_middle_word() {
    let c = ctx(&["-START-", "-START2-", "the", "dogs", "barked", "-END-", "-END2-"]);
    let f = get_features(1, &c, "Dogs", "DET", "-START-");
    assert_eq!(f.len(), 14);
    assert_eq!(count(&f, "bias"), 1);
    assert_eq!(count(&f, "i suffix ogs"), 1);
    assert_eq!(count(&f, "i pref1 D"), 1);
    assert_eq!(count(&f, "i-1 tag DET"), 1);
    assert_eq!(count(&f, "i-2 tag -START-"), 1);
    assert_eq!(count(&f, "i tag+i-2 tag DET -START-"), 1);
    assert_eq!(count(&f, "i word dogs"), 1);
    assert_eq!(count(&f, "i-1 tag+i word DET dogs"), 1);
    assert_eq!(count(&f, "i-1 word the"), 1);
    assert_eq!(count(&f, "i-1 suffix the"), 1);
    assert_eq!(count(&f, "i-2 word -START2-"), 1);
    assert_eq!(count(&f, "i+1 word barked"), 1);
    // the next-word suffix takes the previous word's tail
    assert_eq!(count(&f, "i+1 suffix the"), 1);
    assert_eq!(count(&f, "i+2 word -END-"), 1);
    assert_eq!(count(&f, "i+1 suffix ked"), 0);
}

#[test]
fn features_next_suffix_length_from_next_word() {
    let c = ctx(&["-START-", "-START2-", "house", "a", "b", "-END-", "-END2-"]);
    let f = get_features(1, &c, "a", "X", "Y");
    assert_eq!(count(&f, "i-1 suffix use"), 1);
    assert_eq!(count(&f, "i+1 suffix e"), 1);
    assert_eq!(count(&f, "i suffix a"), 1);
}

#[test]
fn features_repeated_key_accumulates() {
    let c = ctx(&["-START-", "-START2-", "x", "-END-", "-END2-"]);
    // the previous word and the word two back coincide with the tags here
    let f = get_features(0, &c, "x", "-START-", "-START-");
    assert_eq!(count(&f, "i-1 tag -START-"), 1);
    assert_eq!(count(&f, "i-2 tag -START-"), 1);
    assert_eq!(count(&f, "i tag+i-2 tag -START- -START-"), 1);
    let mut g = FeatureSet::new();
    g.add("k".to_string());
    g.add("k".to_string());
    g.add("j".to_string());
    assert_eq!(g.len(), 2);
    assert_eq!(count(&g, "k"), 2);
    assert_eq!(count(&g, "j"), 1);
}

#[test]
fn features_single_word_stays_in_bounds() {
    let c = ctx(&["-START-", "-START2-", "solo", "-END-", "-END2-"]);
    let f = get_features(0, &c, "solo", "-START-", "-START2-");
    assert_eq!(count(&f, "i word solo"), 1);
    assert_eq!(count(&f, "i+2 word -END2-"), 1);
    // a position past the end is clamped to the last word
    let g = get_features(7, &c, "solo", "-START-", "-START2-");
    assert_eq!(count(&g, "i word solo"), 1);
    let e = get_features(0, &c, "", "-START-", "-START2-");
    assert_eq!(count(&e, "i pref1 "), 1);
    assert_eq!(count(&e, "i suffix "), 1);
}
