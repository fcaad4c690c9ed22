use momoden_password::PasswordChar;
use momoden_query::alphabet::{Symbol, ALPHABET_LEN};
use momoden_query::password::{Password, MAX_LEN, MIN_LEN};
use momoden_query::pattern::{Pattern, PatternChar, COUNT_ANY_MAX};
use momoden_query::query::{Query, QueryParseError};

fn symbol(code: u8) -> Symbol {
    Symbol::new(code).unwrap()
}

fn codes(password: &Password) -> Vec<u8> {
    password.as_slice().iter().map(|s| s.code()).collect()
}

fn parsed_password(text: &str) -> Password {
    match Query::parse(text) {
        Ok(Query::Password(password)) => password,
        other => panic!("not a password: {:?}", other),
    }
}

fn parsed_pattern(text: &str) -> Pattern {
    match Query::parse(text) {
        Ok(Query::Pattern(pattern)) => pattern,
        other => panic!("not a pattern: {:?}", other),
    }
}

fn parse_error(text: &str) -> QueryParseError {
    match Query::parse(text) {
        Err(e) => e,
        Ok(q) => panic!("parsed: {:?}", q),
    }
}

fn codec_password(codes: &[u8]) -> momoden_password::Password {
    let chars: Vec<PasswordChar> =
        codes.iter().map(|&c| PasswordChar::from_inner(c).unwrap()).collect();
    momoden_password::Password::new(&chars).unwrap()
}

#[test]
fn constants_are_those_of_the_codec() {
    assert_eq!(MIN_LEN, momoden_password::Password::MIN_LEN);
    assert_eq!(MAX_LEN, momoden_password::Password::MAX_LEN);
    assert_eq!(MAX_LEN, 38);
    assert_eq!(ALPHABET_LEN, PasswordChar::all().len());
    assert_eq!(COUNT_ANY_MAX, 3);
}

#[test]
fn symbol_new_accepts_the_codes_of_the_alphabet() {
    assert_eq!(Symbol::new(0).map(|s| s.code()), Some(0));
    assert_eq!(Symbol::new(63).map(|s| s.code()), Some(63));
    assert_eq!(Symbol::new(64), None);
    assert_eq!(Symbol::new(255), None);
}

#[test]
fn symbol_all_is_ascending() {
    let all = Symbol::all();
    assert_eq!(all.len(), 64);
    for (i, s) in all.iter().enumerate() {
        assert_eq!(usize::from(s.code()), i);
    }
}

#[test]
fn symbol_from_char_agrees_with_the_codec() {
    for pc in PasswordChar::all() {
        let s = Symbol::from_char(pc.to_char()).unwrap();
        assert_eq!(s.code(), pc.to_inner());
    }
    assert_eq!(Symbol::from_char('あ').map(|s| s.code()), Some(0x00));
    assert_eq!(Symbol::from_char('ふ').map(|s| s.code()), Some(0x1B));
    assert_eq!(Symbol::from_char('ぽ').map(|s| s.code()), Some(0x3F));
    assert_eq!(Symbol::from_char('?'), None);
    assert_eq!(Symbol::from_char('a'), None);
    assert_eq!(Symbol::from_char(' '), None);
    assert_eq!(Symbol::from_char('ア'), None);
}

#[test]
fn pattern_char_from_char_reads_wildcard_and_symbols() {
    assert_eq!(PatternChar::from_char('?'), Some(PatternChar::Any));
    assert_eq!(PatternChar::from_char('あ'), Some(PatternChar::Password(symbol(0))));
    assert_eq!(PatternChar::from_char('ぽ'), Some(PatternChar::Password(symbol(0x3F))));
    assert_eq!(PatternChar::from_char('x'), None);
    assert_eq!(PatternChar::from_char('？'), None);
}

#[test]
fn password_new_checks_the_length() {
    assert_eq!(Password::new(&[]), None);
    assert_eq!(Password::new(&[symbol(0)]).map(|p| codes(&p)), Some(vec![0]));
    let longest = vec![symbol(0x3F); MAX_LEN];
    let p = Password::new(&longest).unwrap();
    assert_eq!(p.len(), MAX_LEN);
    assert_eq!(codes(&p), vec![0x3F; MAX_LEN]);
    let too_long = vec![symbol(0); MAX_LEN + 1];
    assert_eq!(Password::new(&too_long), None);
}

#[test]
fn password_keeps_its_symbols_in_order() {
    let p = Password::new(&[symbol(4), symbol(0x15), symbol(0x18)]).unwrap();
    assert_eq!(p.len(), 3);
    assert_eq!(codes(&p), vec![4, 0x15, 0x18]);
    assert_eq!(p[1], symbol(0x15));
    let q = p.clone();
    assert_eq!(p, q);
}

#[test]
fn password_is_valid_agrees_with_the_codec() {
    assert!(parsed_password("ふ").is_valid());
    assert!(!parsed_password("あ").is_valid());
    assert!(parsed_password("ふえ").is_valid());
    assert!(!parsed_password("ふあ").is_valid());
    assert!(parsed_password("おにのばか").is_valid());
    assert!(!parsed_password("おにのばが").is_valid());
    let saved = momoden_password::SerializedBytes::from_savedata(
        &momoden_password::Savedata::default(),
    )
    .to_password();
    let text = saved.display().to_string();
    assert!(parsed_password(&text).is_valid());
    let mut other: Vec<u8> = saved.iter().map(|pc| pc.to_inner()).collect();
    let last = other.len() - 1;
    other[last] ^= 1;
    let symbols: Vec<Symbol> = other.iter().map(|&c| symbol(c)).collect();
    let changed = Password::new(&symbols).unwrap();
    assert_eq!(changed.is_valid(), codec_password(&other).is_valid());
    assert!(!changed.is_valid());
}

#[test]
fn second_char_is_invalid_exactly_when_even() {
    for code in 0..64u8 {
        assert_eq!(Password::is_invalid_second_char(symbol(code)), code % 2 == 0);
        assert_eq!(
            Password::is_invalid_second_char(symbol(code)),
            momoden_password::Password::is_invalid_second_char(
                PasswordChar::from_inner(code).unwrap()
            )
        );
    }
}

#[test]
fn parse_empty_text_is_empty() {
    assert_eq!(parse_error(""), QueryParseError::Empty);
}

#[test]
fn parse_whitespace_only_is_empty() {
    assert_eq!(parse_error(" "), QueryParseError::Empty);
    assert_eq!(parse_error("   \t\n\r  "), QueryParseError::Empty);
    assert_eq!(parse_error("\u{3000}\u{3000}"), QueryParseError::Empty);
    assert_eq!(parse_error("\u{A0}\u{2003}"), QueryParseError::Empty);
}

#[test]
fn parse_too_long() {
    let text = "あ".repeat(MAX_LEN + 1);
    assert_eq!(parse_error(&text), QueryParseError::TooLong);
    let text = "あ".repeat(100);
    assert_eq!(parse_error(&text), QueryParseError::TooLong);
    let text = "?".repeat(MAX_LEN + 1);
    assert_eq!(parse_error(&text), QueryParseError::TooLong);
}

#[test]
fn parse_too_long_counts_no_whitespace() {
    let mut text = String::new();
    for _ in 0..MAX_LEN {
        text.push('あ');
        text.push(' ');
    }
    assert_eq!(codes(&parsed_password(&text)), vec![0; MAX_LEN]);
    text.push('い');
    assert_eq!(parse_error(&text), QueryParseError::TooLong);
}

#[test]
fn parse_too_long_comes_before_invalid_char() {
    let mut text = String::from("x");
    text.push_str(&"あ".repeat(MAX_LEN));
    assert_eq!(parse_error(&text), QueryParseError::TooLong);
    let mut text = "あ".repeat(MAX_LEN);
    text.push('x');
    assert_eq!(parse_error(&text), QueryParseError::TooLong);
}

#[test]
fn parse_longest_password() {
    let text = "ぽ".repeat(MAX_LEN);
    assert_eq!(codes(&parsed_password(&text)), vec![0x3F; MAX_LEN]);
}

#[test]
fn parse_invalid_char_reports_position_and_character() {
    assert_eq!(parse_error("x"), QueryParseError::InvalidChar { pos: 0, ch: 'x' });
    assert_eq!(parse_error("あいxう"), QueryParseError::InvalidChar { pos: 2, ch: 'x' });
    assert_eq!(parse_error("あい?ア"), QueryParseError::InvalidChar { pos: 3, ch: 'ア' });
}

#[test]
fn parse_invalid_char_position_skips_whitespace() {
    assert_eq!(parse_error("  あ い\tx う"), QueryParseError::InvalidChar { pos: 2, ch: 'x' });
}

#[test]
fn parse_reports_the_first_invalid_char() {
    assert_eq!(parse_error("あyいxz"), QueryParseError::InvalidChar { pos: 1, ch: 'y' });
}

#[test]
fn parse_invalid_char_comes_before_too_many_any() {
    assert_eq!(parse_error("????x"), QueryParseError::InvalidChar { pos: 4, ch: 'x' });
    assert_eq!(parse_error("x????"), QueryParseError::InvalidChar { pos: 0, ch: 'x' });
}

#[test]
fn parse_too_many_any() {
    assert_eq!(parse_error("????"), QueryParseError::TooManyAny);
    assert_eq!(parse_error("あ?い?う?え?"), QueryParseError::TooManyAny);
    assert_eq!(parse_error(&"?".repeat(MAX_LEN)), QueryParseError::TooManyAny);
    assert_eq!(parse_error("? ? ? ?"), QueryParseError::TooManyAny);
}

#[test]
fn parse_password_keeps_the_order_of_the_text() {
    assert_eq!(codes(&parsed_password("ふ")), vec![0x1B]);
    assert_eq!(codes(&parsed_password("おにのばか")), vec![0x04, 0x15, 0x18, 0x36, 0x05]);
}

#[test]
fn parse_password_leaves_whitespace_out() {
    assert_eq!(
        codes(&parsed_password(" お に\tの\nば\u{3000}か  ")),
        vec![0x04, 0x15, 0x18, 0x36, 0x05]
    );
}

#[test]
fn parse_password_does_not_ask_for_a_checksum() {
    let p = parsed_password("あ");
    assert!(!p.is_valid());
}

#[test]
fn parse_pattern_keeps_symbols_and_wildcards_in_place() {
    let p = parsed_pattern("お?の");
    assert_eq!(p.len(), 3);
    assert_eq!(
        p.as_slice(),
        &[
            PatternChar::Password(symbol(0x04)),
            PatternChar::Any,
            PatternChar::Password(symbol(0x18)),
        ][..]
    );
    assert_eq!(p[1], PatternChar::Any);
}

#[test]
fn parse_pattern_with_one_to_three_wildcards() {
    assert_eq!(parsed_pattern("?").as_slice(), &[PatternChar::Any][..]);
    assert_eq!(parsed_pattern("??").as_slice(), &[PatternChar::Any; 2][..]);
    assert_eq!(parsed_pattern("???").as_slice(), &[PatternChar::Any; 3][..]);
    let p = parsed_pattern("? あ ? い ?");
    assert_eq!(
        p.as_slice(),
        &[
            PatternChar::Any,
            PatternChar::Password(symbol(0)),
            PatternChar::Any,
            PatternChar::Password(symbol(1)),
            PatternChar::Any,
        ][..]
    );
}

#[test]
fn parse_longest_pattern() {
    let mut text = "ぽ".repeat(MAX_LEN - 1);
    text.push('?');
    let p = parsed_pattern(&text);
    assert_eq!(p.len(), MAX_LEN);
    assert_eq!(p[MAX_LEN - 1], PatternChar::Any);
    assert_eq!(p[0], PatternChar::Password(symbol(0x3F)));
}

#[test]
fn parse_is_the_same_each_time() {
    for text in ["", "あ?い", "おにのばか", "x", "????"] {
        let first = format!("{:?}", Query::parse(text));
        let second = format!("{:?}", Query::parse(text));
        assert_eq!(first, second);
    }
}

#[test]
fn parse_of_a_pretty_rendering_gives_the_password_back() {
    for len in [1usize, 2, 5, 6, 12, 13, 17, 24, 31, 37, 38] {
        let wanted: Vec<u8> = (0..len).map(|i| ((i * 7 + 3) % 64) as u8).collect();
        let pretty = codec_password(&wanted).display_pretty().to_string();
        if len > 5 {
            assert!(pretty.contains(' '));
        }
        let first = parsed_password(&pretty);
        assert_eq!(codes(&first), wanted);
        let again =
            codec_password(&codes(&first)).display_pretty().to_string();
        assert_eq!(again, pretty);
        assert_eq!(parsed_password(&again), first);
    }
}

#[test]
fn message_of_each_error() {
    assert_eq!(QueryParseError::Empty.message(), "入力が空");
    assert_eq!(QueryParseError::TooLong.message(), "入力は 38 文字まで");
    assert_eq!(QueryParseError::TooManyAny.message(), "'?' は 3 個まで");
    assert_eq!(
        QueryParseError::InvalidChar { pos: 2, ch: 'x' }.message(),
        "3 個目の文字が無効: 'x'"
    );
    assert_eq!(
        QueryParseError::InvalidChar { pos: 0, ch: 'ア' }.message(),
        "1 個目の文字が無効: 'ア'"
    );
    assert_eq!(
        QueryParseError::InvalidChar { pos: 36, ch: '!' }.message(),
        "37 個目の文字が無効: '!'"
    );
}

#[test]
fn from_pattern_chars_makes_a_pattern() {
    let chars = [PatternChar::Password(symbol(3)), PatternChar::Any];
    match Query::from_pattern_chars(&chars) {
        Ok(Query::Pattern(p)) => assert_eq!(p.as_slice(), &chars[..]),
        other => panic!("not a pattern: {:?}", other),
    }
}

#[test]
fn from_pattern_chars_makes_a_password() {
    let chars = [PatternChar::Password(symbol(3)), PatternChar::Password(symbol(0x3F))];
    match Query::from_pattern_chars(&chars) {
        Ok(Query::Password(p)) => assert_eq!(codes(&p), vec![3, 0x3F]),
        other => panic!("not a password: {:?}", other),
    }
}

#[test]
fn from_pattern_chars_refuses_what_parse_refuses() {
    assert!(matches!(Query::from_pattern_chars(&[]), Err(QueryParseError::Empty)));
    let long = vec![PatternChar::Password(symbol(1)); MAX_LEN + 1];
    assert!(matches!(Query::from_pattern_chars(&long), Err(QueryParseError::TooLong)));
    let long = vec![PatternChar::Any; MAX_LEN + 1];
    assert!(matches!(Query::from_pattern_chars(&long), Err(QueryParseError::TooLong)));
    let open = vec![PatternChar::Any; COUNT_ANY_MAX + 1];
    assert!(matches!(Query::from_pattern_chars(&open), Err(QueryParseError::TooManyAny)));
    let open = vec![PatternChar::Any; COUNT_ANY_MAX];
    assert!(matches!(Query::from_pattern_chars(&open), Ok(Query::Pattern(_))));
    let full = vec![PatternChar::Password(symbol(1)); MAX_LEN];
    assert!(matches!(Query::from_pattern_chars(&full), Ok(Query::Password(_))));
}

#[test]
fn from_pattern_chars_agrees_with_parse() {
    for text in ["お?の", "おにのばか", "? ? ?", "ふ"] {
        let chars: Vec<PatternChar> = text
            .chars()
            .filter(|c| !c.is_whitespace())
            .map(|c| PatternChar::from_char(c).unwrap())
            .collect();
        let direct = format!("{:?}", Query::from_pattern_chars(&chars));
        let parsed = format!("{:?}", Query::parse(text));
        assert_eq!(direct, parsed);
    }
}
