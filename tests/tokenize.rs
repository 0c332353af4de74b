use smol::tokenize::{is_whitespace, RegexTokenIter, RegexWordPunctTokenizer, Token, Tokenizer, WhitespaceTokenizer};

fn all_ws(input: &str) -> Vec<Token> {
    let mut it = WhitespaceTokenizer.tokenize(input);
    let mut out = Vec::new();
    while let Some(t) = it.next() {
        out.push(t);
    }
    out
}

fn all_regex(mut it: RegexTokenIter) -> Vec<Token> {
    let mut out = Vec::new();
    while let Some(t) = it.next() {
        out.push(t);
    }
    out
}

#[test]
fn whitespace_tokens() {
    let toks = all_ws("  hello  wide\tworld ");
    let terms: Vec<&str> = toks.iter().map(|t| t.term.as_str()).collect();
    assert_eq!(terms, vec!["hello", "wide", "world"]);
    assert_eq!(toks[0].offset, 2);
    assert_eq!(toks[1].offset, 9);
    assert_eq!(toks[2].offset, 14);
    assert_eq!(toks[2].index, 2);
}

#[test]
fn whitespace_empty_and_blank() {
    assert!(all_ws("").is_empty());
    assert!(all_ws(" \n\t ").is_empty());
    let one = all_ws("naïve");
    assert_eq!(one.len(), 1);
    assert_eq!(one[0].term, "naïve");
}

#[test]
fn whitespace_predicate() {
    assert!(is_whitespace(' '));
    assert!(is_whitespace('\n'));
    assert!(is_whitespace('\u{3000}'));
    assert!(!is_whitespace('a'));
    assert!(!is_whitespace('\u{200b}'));
}

#[test]
fn regex_word_punct_tokens() {
    let toks = all_regex(RegexWordPunctTokenizer.tokenize("Hello, world!!"));
    let terms: Vec<&str> = toks.iter().map(|t| t.term.as_str()).collect();
    assert_eq!(terms, vec!["Hello", ",", "world", "!!"]);
    assert_eq!(toks[2].offset, 7);
    assert_eq!(toks[3].index, 3);
}

#[test]
fn regex_bad_pattern_yields_nothing() {
    let it = RegexTokenIter::new("abc", "(");
    assert!(!it.is_valid());
    assert!(all_regex(it).is_empty());
}
