use smol::distance::ukkonen;

#[test]
fn ukkonen_threshold() {
    assert_eq!(6, ukkonen("Ukkonen", "Levenshtein", 6));
}

#[test]
fn ukkonen_correct() {
    assert_eq!(8, ukkonen("Ukkonen", "Levenshtein", 1000));
}

#[test]
fn ukkonen_basic() {
    assert_eq!(1, ukkonen("Test", "test", 10));
}

#[test]
fn ukkonen_documented_examples() {
    assert_eq!(1, ukkonen("string", "strin", 10));
    assert_eq!(2, ukkonen("string", "btrin", 10));
    // three substitutions and a deletion: no shorter edit exists
    assert_eq!(4, ukkonen("string", "brtin", 10));
    assert_eq!(6, ukkonen("", "string", 10));
    assert_eq!(3, ukkonen("", "string", 3));
}

#[test]
fn ukkonen_equal_and_empty() {
    assert_eq!(0, ukkonen("same", "same", 10));
    assert_eq!(0, ukkonen("", "", 10));
    assert_eq!(0, ukkonen("abc", "xyz", 0));
    assert_eq!(3, ukkonen("kitten", "sitting", 100));
    assert_eq!(2, ukkonen("héllo", "hallo!", 100));
}
