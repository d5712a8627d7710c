use kma_parser::parser::{alphabetic, parse_title_specialties};
use kma_parser::text::{trim, ParseFailure};

#[test]
fn test_parse_title_specialties() {
    {
        let value = parse_title_specialties("a+b+c");
        assert_eq!(
            value,
            Ok(("", vec!["a".to_string(), "b".to_string(), "c".to_string()]))
        );
    }
    {
        let value = parse_title_specialties("a + bbc ,c ");
        assert_eq!(
            value,
            Ok((
                "",
                vec!["a".to_string(), "bbc".to_string(), "c".to_string()]
            ))
        );
    }
    {
        let value = parse_title_specialties("a, bbc., c");
        assert_eq!(
            value,
            Ok((
                "",
                vec!["a".to_string(), "bbc.".to_string(), "c".to_string()]
            ))
        );
    }
    {
        let value = parse_title_specialties("екон.+мен.");
        assert_eq!(
            value,
            Ok(("", vec!["екон.".to_string(), "мен.".to_string()]))
        );
    }

    {
        let value = parse_title_specialties("макр.");
        assert_eq!(
            value,
            Ok(("", vec!["макр.".to_string()]))
        );
    }
}

#[test]
fn parse_title_specialties_stops_where_tokens_end() {
    assert_eq!(parse_title_specialties("a, 1"), Ok((", 1", vec!["a".to_string()])));
    assert_eq!(parse_title_specialties("a b-c"), Ok(("-c", vec!["a".to_string(), "b".to_string()])));
    assert_eq!(parse_title_specialties("  "), Ok(("", vec![])));
    assert_eq!(parse_title_specialties("1a"), Ok(("1a", vec![])));
    assert_eq!(parse_title_specialties(".a..b"), Ok(("", vec![".a..b".to_string()])));
}

#[test]
fn alphabetic_splits_leading_letters() {
    assert_eq!(alphabetic("марк. x"), Ok((". x", "марк")));
    assert_eq!(alphabetic("abc"), Ok(("", "abc")));
    assert_eq!(alphabetic("1abc"), Err(ParseFailure { input: "1abc".to_string() }));
    assert_eq!(alphabetic(""), Err(ParseFailure { input: "".to_string() }));
}

#[test]
fn trim_removes_unicode_white_space() {
    assert_eq!(trim("  a b \t\n"), "a b");
    assert_eq!(trim("\u{3000}x\u{a0}"), "x");
    assert_eq!(trim("   "), "");
    assert_eq!(trim(""), "");
}
