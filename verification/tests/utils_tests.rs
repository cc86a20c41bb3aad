use dynamic_json::is_valid_ending_quote;
use dynamic_json::match_literal;
use dynamic_json::nearby_content;
use dynamic_json::parse_error;
use dynamic_json::skip_chars;
use dynamic_json::skip_spaces;
use dynamic_json::skip_util_char;

#[test]
fn valid_ending_quote() {
    let s = r#"aaaaa""#;
    let r = is_valid_ending_quote(&s.chars().collect(), s.len() - 1);
    assert_eq!(r, true);

    let s = r#"aaaa\""#;
    let r = is_valid_ending_quote(&s.chars().collect(), s.len() - 1);
    assert_eq!(r, false);

    let s = r#"aaa\\""#;
    let r = is_valid_ending_quote(&s.chars().collect(), s.len() - 1);
    assert_eq!(r, true);
}

#[test]
fn quote_at_start_never_ends() {
    let chars: Vec<char> = "\"abc".chars().collect();
    assert!(!is_valid_ending_quote(&chars, 0));
}

#[test]
fn match_literal_full_word() {
    let chars: Vec<char> = "null,".chars().collect();
    assert!(match_literal(&chars, 0, "null"));
    assert!(!match_literal(&chars, 0, "nula"));
    assert!(!match_literal(&chars, 0, "null,x"));
    assert!(!match_literal(&chars, 3, "null"));
    let short: Vec<char> = "nu".chars().collect();
    assert!(!match_literal(&short, 0, "null"));
}

#[test]
fn skip_spaces_stops_at_tab() {
    let chars: Vec<char> = " \r\n\tx".chars().collect();
    let mut idx = 0usize;
    skip_spaces(&chars, &mut idx);
    // Tab is deliberately not whitespace for this scanner.
    assert_eq!(idx, 3);
}

#[test]
fn skip_chars_and_until() {
    let chars: Vec<char> = "aab:cd".chars().collect();
    let mut idx = 0usize;
    skip_chars(&chars, &mut idx, &['a']);
    assert_eq!(idx, 2);
    skip_util_char(&chars, &mut idx, &[':']);
    assert_eq!(idx, 3);
    let mut idx = 0usize;
    skip_util_char(&chars, &mut idx, &['z']);
    assert_eq!(idx, chars.len());
}

#[test]
fn nearby_content_window() {
    let chars: Vec<char> = "abcdef".chars().collect();
    assert_eq!(nearby_content(&chars, 2), "abc");
    let long: String = "x".repeat(80);
    let chars: Vec<char> = long.chars().collect();
    let ctx = nearby_content(&chars, 79);
    assert_eq!(ctx.len(), 51);
}

#[test]
fn parse_error_at_end() {
    let chars: Vec<char> = "ab".chars().collect();
    assert_eq!(parse_error(&chars, 1), "ab");
    assert_eq!(parse_error(&chars, 2), "ab");
}
