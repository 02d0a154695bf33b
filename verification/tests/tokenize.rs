use tstream::text::{split_str, trim_end_str, trim_str};
use tstream::tokenize;

#[test]
fn test_tokenize() {
    // Basic tokenization
    let input = "This is a test";
    let tokens = tokenize(input);
    assert_eq!(tokens, vec!["This", "is", "a", "test"]);
    assert_eq!(tokens.len(), 4);

    // Multiple spaces
    let input = "    Multiple    spaces    ";
    let tokens = tokenize(input);
    assert_eq!(tokens, vec!["Multiple", "spaces"]);
    assert_eq!(tokens.len(), 2);

    // Empty string
    let input = "";
    let tokens = tokenize(input);
    assert_eq!(tokens, Vec::<String>::new());
    assert_eq!(tokens.len(), 0);

    // String with only spaces
    let input = "     ";
    let tokens = tokenize(input);
    assert_eq!(tokens, Vec::<String>::new());
    assert_eq!(tokens.len(), 0);

    // Special characters
    let input = "!@#$ %^& *()";
    let tokens = tokenize(input);
    assert_eq!(tokens, vec!["!@#$", "%^&", "*()"]);
    assert_eq!(tokens.len(), 3);

    // Mixed spaces and tabs
    let input = "Tabs\tand  spaces";
    let tokens = tokenize(input);
    assert_eq!(tokens, vec!["Tabs", "and", "spaces"]);
    assert_eq!(tokens.len(), 3);
}

#[test]
fn tokenize_matches_split_whitespace_on_unicode_spaces() {
    let inputs = [
        "a\u{00a0}b\u{3000}c",
        "\u{2028}x\ny\r\nz\u{0085}",
        "\u{1680}\u{2000}\u{200a}w\u{202f}v\u{205f}",
        "héllo wörld\u{200b}zero-width",
        "\u{000b}\u{000c}tail",
    ];
    for s in inputs.iter() {
        let expected: Vec<String> = s.split_whitespace().map(|t| t.to_string()).collect();
        assert_eq!(tokenize(s), expected, "input {:?}", s);
    }
}

#[test]
fn tokens_rejoined_tokenize_the_same() {
    let s = "  one\ttwo \n three   ";
    let tokens = tokenize(s);
    let joined = tokens.join(" ");
    assert_eq!(joined, "one two three");
    assert_eq!(tokenize(&joined), tokens);
}

#[test]
fn trim_matches_std() {
    let inputs = ["  a b  ", "\u{3000}x\u{a0}", "", "   ", "\tq\n", "no"];
    for s in inputs.iter() {
        assert_eq!(trim_str(s), s.trim());
        assert_eq!(trim_end_str(s), s.trim_end());
    }
}

#[test]
fn split_matches_std() {
    let cases = [
        ("data: {\"a\":1}data: [DONE]", "data: "),
        ("aaa", "aa"),
        ("", "--"),
        ("2024-01-02_1200--title.md", "--"),
        ("conversations/2024-01-02_1200", "/"),
        ("no separator", "--"),
        ("--", "--"),
    ];
    for (s, sep) in cases.iter() {
        let expected: Vec<String> = s.split(sep).map(|p| p.to_string()).collect();
        let got = split_str(s, sep);
        assert_eq!(got, expected, "{:?} by {:?}", s, sep);
        assert_eq!(got.join(sep), *s);
    }
}

#[test]
fn tokens_of_parts_joined_by_whitespace() {
    let a = "alpha beta";
    let b = "\tgamma  delta ";
    for ws in [" ", "\n\t", "\u{3000}"].iter() {
        let joined = format!("{}{}{}", a, ws, b);
        let mut expected = tokenize(a);
        expected.extend(tokenize(b));
        assert_eq!(tokenize(&joined), expected);
    }
}
