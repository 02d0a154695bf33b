use tstream::number::{decimal_string, parse_choice, parse_usize_str};

#[test]
fn decimal_string_writes_numbers() {
    for n in [0usize, 7, 10, 42, 100, 12345, usize::MAX].iter() {
        assert_eq!(decimal_string(*n), n.to_string());
    }
}

#[test]
fn parse_usize_matches_std() {
    let inputs = [
        "0", "1", "+3", "-1", "", "+", "-", "12a", " 4", "007",
        "18446744073709551615", "18446744073709551616", "99999999999999999999", "٣",
    ];
    for s in inputs.iter() {
        assert_eq!(parse_usize_str(s), s.parse::<usize>().ok(), "input {:?}", s);
    }
}

#[test]
fn parse_choice_defaults_to_one() {
    assert_eq!(parse_choice("3\n"), 3);
    assert_eq!(parse_choice("  2  "), 2);
    assert_eq!(parse_choice("\n"), 1);
    assert_eq!(parse_choice("abc"), 1);
    assert_eq!(parse_choice("0"), 0);
}

#[test]
fn printed_numbers_read_back() {
    for n in [1usize, 9, 10, 11, 999].iter() {
        assert_eq!(parse_choice(&decimal_string(*n)), *n);
    }
}
