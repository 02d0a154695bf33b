use tstream::files::{base_filename, markdown_contents, markdown_document, unique_base_filename};
use tstream::history_filename;

fn names(xs: &[&str]) -> Vec<String> {
    xs.iter().map(|x| x.to_string()).collect()
}

#[test]
fn history_path() {
    assert_eq!(history_filename("conversations").unwrap(), "conversations/_history.json");
}

#[test]
fn base_filename_counts_clashes() {
    let stamp = "2024-05-01_1200";
    assert_eq!(base_filename("conv", stamp, &names(&[])), "conv/2024-05-01_1200");
    assert_eq!(
        base_filename("conv", stamp, &names(&["2024-04-30_0900--old.md", "_history.json"])),
        "conv/2024-05-01_1200"
    );
    assert_eq!(
        base_filename("conv", stamp, &names(&["2024-05-01_1200--first.md"])),
        "conv/2024-05-01_1200_1"
    );
    assert_eq!(
        base_filename(
            "conv",
            stamp,
            &names(&["2024-05-01_1200--a.md", "2024-05-01_1200_1--b.md", "2024-05-01_1200_2--c.md"])
        ),
        "conv/2024-05-01_1200_3"
    );
    // An entry without `--` is compared whole, extension included.
    assert_eq!(base_filename("conv", stamp, &names(&["2024-05-01_1200.md"])), "conv/2024-05-01_1200");
}

#[test]
fn time_stamps_are_formatted() {
    // 2024-05-01 12:34:56 UTC, a Wednesday.
    let t = 1714566896;
    assert_eq!(unique_base_filename("conv", t, &names(&[])), Some("conv/2024-05-01_1234".to_string()));
    assert_eq!(
        markdown_document("gpt", t, "- **user**: hi"),
        Some("Model: gpt Timestamp: Wednesday 2024-05-01 12:34 (+0000)\n---\n- **user**: hi\n\n".to_string())
    );
    assert_eq!(markdown_contents("T", "m", "x"), "Model: m Timestamp: T\n---\nx\n\n");
    assert_eq!(unique_base_filename("conv", i64::MAX, &names(&[])), None);
}

#[test]
fn unrelated_entries_do_not_change_the_name() {
    let stamp = "2024-05-01_1200";
    let base = names(&["2024-05-01_1200--a.md", "x.txt"]);
    let with_extra = names(&["notes--2024-05-01_1200.md", "2024-05-01_1200--a.md", "2024-05-01_12--z.md", "x.txt"]);
    assert_eq!(base_filename("conv", stamp, &base), "conv/2024-05-01_1200_1");
    assert_eq!(base_filename("conv", stamp, &with_extra), "conv/2024-05-01_1200_1");
}

#[test]
fn writing_the_name_back_moves_it_on() {
    let stamp = "2024-05-01_1200";
    let mut listing = names(&["_history.json"]);
    let first = base_filename("conv", stamp, &listing);
    assert_eq!(first, "conv/2024-05-01_1200");
    listing.push(format!("{}--t.md", &first["conv/".len()..]));
    let second = base_filename("conv", stamp, &listing);
    assert_eq!(second, "conv/2024-05-01_1200_1");
    listing.push(format!("{}--u.md", &second["conv/".len()..]));
    assert_eq!(base_filename("conv", stamp, &listing), "conv/2024-05-01_1200_2");
}

#[test]
fn history_is_never_a_transcript() {
    let h = history_filename("conv").unwrap();
    let s = unique_base_filename("conv", 0, &names(&["_history.json"])).unwrap();
    assert_eq!(s, "conv/1970-01-01_0000");
    assert_ne!(h, s);
    assert_ne!(h, format!("{}.md", s));
}

#[test]
fn stamps_have_the_documented_shape() {
    for t in [0i64, 1714566896, -70_000_000_000, 300_000_000_000, 8_000_000_000_000, -8_000_000_000_000].iter() {
        let s = unique_base_filename("d", *t, &names(&[])).unwrap();
        let stamp = &s["d/".len()..];
        let first = stamp.chars().next().unwrap();
        assert!(first.is_ascii_digit() || first == '+' || first == '-', "{}", stamp);
        assert!(stamp.chars().all(|c| c.is_ascii_digit() || c == '+' || c == '-' || c == '_'), "{}", stamp);
        assert!(!stamp.contains("--"), "{}", stamp);
        assert!(stamp.chars().last().unwrap().is_ascii_digit(), "{}", stamp);
    }
}

#[test]
fn several_unrelated_entries_do_not_change_the_name() {
    let stamp = "2024-05-01_1200";
    let plain = names(&["2024-05-01_1200--a.md", "2024-05-01_1200_1--b.md"]);
    let noisy = names(&["2024-05-01_1200--a.md", "old--x.md", "2023-01-01_0000--y.md", "2024-05-01_1200_1--b.md", "readme"]);
    assert_eq!(base_filename("conv", stamp, &plain), "conv/2024-05-01_1200_2");
    assert_eq!(base_filename("conv", stamp, &noisy), "conv/2024-05-01_1200_2");
}
