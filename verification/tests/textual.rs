use envdoter::order::{lex_compare, Rank};
use envdoter::text::{chars_of, find_char, is_blank_line, is_space_char, starts_with};

fn chars(text: &str) -> Vec<char> {
    text.chars().collect()
}

#[test]
fn chars_of_gives_the_characters() {
    assert_eq!(chars_of("a=é日"), vec!['a', '=', 'é', '日']);
    assert_eq!(chars_of(""), Vec::<char>::new());
}

#[test]
fn find_char_gives_the_first_place_or_the_length() {
    assert_eq!(find_char(&chars("a=b=c"), '='), 1);
    assert_eq!(find_char(&chars("=b"), '='), 0);
    assert_eq!(find_char(&chars("abc"), '='), 3);
    assert_eq!(find_char(&chars(""), '='), 0);
}

#[test]
fn white_space_is_what_std_calls_white_space() {
    let mut code: u32 = 0;
    while code <= 0x10FFFF {
        if let Some(c) = char::from_u32(code) {
            assert_eq!(is_space_char(c), c.is_whitespace(), "code point {:#x}", code);
        }
        code += 1;
    }
}

#[test]
fn blank_lines_hold_only_white_space() {
    assert!(is_blank_line(&chars("")));
    assert!(is_blank_line(&chars(" \t\u{a0}\u{3000}\r")));
    assert!(!is_blank_line(&chars("  x ")));
    assert!(!is_blank_line(&chars("=")));
}

#[test]
fn starts_with_tests_the_lead() {
    assert!(starts_with(&chars("APP_NAME"), &chars("APP")));
    assert!(starts_with(&chars("APP"), &chars("APP")));
    assert!(starts_with(&chars("APP"), &chars("")));
    assert!(!starts_with(&chars("AP"), &chars("APP")));
    assert!(!starts_with(&chars("ABP_X"), &chars("AP")));
}

#[test]
fn lex_compare_ranks_as_std_does() {
    let samples =
        ["", "a", "A", "ab", "abc", "abd", "b", "é", "e", "z", "日本", "\u{10FFFF}", "_", "A_B"];
    for a in samples.iter() {
        for b in samples.iter() {
            let want = if a < b {
                Rank::Before
            } else if a == b {
                Rank::Same
            } else {
                Rank::After
            };
            assert_eq!(lex_compare(&chars(a), &chars(b)), want, "{:?} against {:?}", a, b);
        }
    }
}

#[test]
fn a_proper_lead_comes_first() {
    assert_eq!(lex_compare(&chars("APP"), &chars("APP_NAME")), Rank::Before);
    assert_eq!(lex_compare(&chars("APP_NAME"), &chars("APP")), Rank::After);
}
