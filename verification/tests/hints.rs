use deslop::hints::{hints, HintStyle};

#[test]
fn hints_row_layout() {
    let r = hints(&[("Ctrl+S", "save"), ("Ctrl+Q", "quit")]);
    let expected: Vec<(HintStyle, String)> = vec![
        (HintStyle::Plain, " ".to_string()),
        (HintStyle::Key, "Ctrl+S".to_string()),
        (HintStyle::Description, " save".to_string()),
        (HintStyle::Separator, "  ·  ".to_string()),
        (HintStyle::Key, "Ctrl+Q".to_string()),
        (HintStyle::Description, " quit".to_string()),
    ];
    assert_eq!(r, expected);
}

#[test]
fn hints_without_pairs() {
    assert_eq!(hints(&[]), vec![(HintStyle::Plain, " ".to_string())]);
}
