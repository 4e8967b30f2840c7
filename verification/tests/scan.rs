use mdscan::parse;
use mdscan::Markdown;

#[test]
fn normal_text() {
    let input = "hello, 😀world✅!";
    let result = parse(input);
    assert_eq!(result, vec![Markdown::Normal(input)]);
}

#[test]
fn normal_and_bold() {
    let input = "hello, 😀**world✅**!";
    let result = parse(input);
    assert_eq!(
        result,
        vec![
            Markdown::Normal("hello, 😀"),
            Markdown::Bold("world✅"),
            Markdown::Normal("!")
        ]
    );
}

#[test]
fn escapes() {
    let input = "hello, 😀\\**world✅**!";
    let result = parse(input);
    assert_eq!(
        result,
        vec![
            Markdown::Normal("hello, 😀"),
            Markdown::Normal("**world✅**!")
        ]
    );
}

#[test]
fn plain_ascii_is_one_span() {
    assert_eq!(parse("hello world"), vec![Markdown::Normal("hello world")]);
}

#[test]
fn bold_pair() {
    assert_eq!(
        parse("hello **world**!"),
        vec![
            Markdown::Normal("hello "),
            Markdown::Bold("world"),
            Markdown::Normal("!")
        ]
    );
}

#[test]
fn escaped_bold_stays_literal() {
    assert_eq!(
        parse("hello \\**world**!"),
        vec![Markdown::Normal("hello "), Markdown::Normal("**world**!")]
    );
}

#[test]
fn italic_star_pair() {
    assert_eq!(
        parse("a *b* c"),
        vec![
            Markdown::Normal("a "),
            Markdown::Italic("b"),
            Markdown::Normal(" c")
        ]
    );
}

#[test]
fn underline_pair() {
    assert_eq!(
        parse("a __b__ c"),
        vec![
            Markdown::Normal("a "),
            Markdown::Underline("b"),
            Markdown::Normal(" c")
        ]
    );
}

#[test]
fn unclosed_star_is_elided() {
    assert_eq!(
        parse("a *unclosed"),
        vec![Markdown::Normal("a "), Markdown::Normal("unclosed")]
    );
}

#[test]
fn empty_input() {
    assert_eq!(parse(""), vec![Markdown::Normal("")]);
}

#[test]
fn italic_underscore_pair() {
    assert_eq!(
        parse("_i_"),
        vec![
            Markdown::Normal(""),
            Markdown::Italic("i"),
            Markdown::Normal("")
        ]
    );
}

#[test]
fn unclosed_underline_is_elided() {
    assert_eq!(
        parse("a __x"),
        vec![Markdown::Normal("a "), Markdown::Normal("x")]
    );
}

#[test]
fn unclosed_bold_at_start() {
    assert_eq!(
        parse("**a"),
        vec![Markdown::Normal(""), Markdown::Normal("a")]
    );
}

#[test]
fn multibyte_characters_around_italic() {
    assert_eq!(
        parse("é*ß*✓"),
        vec![
            Markdown::Normal("é"),
            Markdown::Italic("ß"),
            Markdown::Normal("✓")
        ]
    );
}

#[test]
fn other_family_stays_literal_inside_span() {
    assert_eq!(
        parse("*a_b*"),
        vec![
            Markdown::Normal(""),
            Markdown::Italic("a_b"),
            Markdown::Normal("")
        ]
    );
}

#[test]
fn narrower_marker_does_not_close_bold() {
    assert_eq!(
        parse("**a*b**"),
        vec![
            Markdown::Normal(""),
            Markdown::Bold("a*b"),
            Markdown::Normal("")
        ]
    );
}

#[test]
fn two_char_marker_wins_over_one_char() {
    assert_eq!(
        parse("****"),
        vec![
            Markdown::Normal(""),
            Markdown::Bold(""),
            Markdown::Normal("")
        ]
    );
}

#[test]
fn escaped_single_star_suppresses_the_pair() {
    assert_eq!(
        parse("\\*a*b"),
        vec![Markdown::Normal(""), Markdown::Normal("*a*b")]
    );
}

#[test]
fn escape_before_ordinary_character_drops_backslash() {
    assert_eq!(
        parse("a\\bc"),
        vec![Markdown::Normal("a"), Markdown::Normal("bc")]
    );
}

#[test]
fn trailing_backslash_is_kept() {
    assert_eq!(parse("a\\"), vec![Markdown::Normal("a\\")]);
}

#[test]
fn identical_input_gives_identical_output() {
    let input = "x **y** _z_ \\*w*";
    assert_eq!(parse(input), parse(input));
}
