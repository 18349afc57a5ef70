use usbscope::lexer::tokenize;
use usbscope::filter::FilterError;

fn texts(input: &str) -> Vec<(String, bool)> {
    tokenize(input)
        .unwrap()
        .into_iter()
        .map(|t| (t.text.into_iter().collect(), t.quoted))
        .collect()
}

#[test]
fn tokens_split_at_operators_whitespace_and_quotes() {
    let t = texts("bus>=1&&!(dev!=2)||payload[0:2]=='a b'\u{a0}x");
    let words: Vec<&str> = t.iter().map(|(s, _)| s.as_str()).collect();
    assert_eq!(
        words,
        ["bus", ">=", "1", "&&", "!", "(", "dev", "!=", "2", ")", "||", "payload", "[", "0", ":", "2", "]", "==", "a b", "x"]
    );
    assert!(t[18].1);
    assert!(!t[0].1);
}

#[test]
fn escapes_in_quoted_strings() {
    assert_eq!(texts(r#""a\"b\\c""#), vec![("a\"b\\c".to_string(), true)]);
    assert_eq!(tokenize("'abc").unwrap_err(), FilterError::UnterminatedQuote);
    assert_eq!(tokenize("'abc\\").unwrap_err(), FilterError::UnfinishedEscape);
    assert!(texts("").is_empty());
}
