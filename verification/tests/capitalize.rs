use react_labs::capitalize::capitalize;

#[test]
fn test_multiple_words() {
    assert_eq!(capitalize("ciao mondo"), "Ciao Mondo");
}

#[test]
fn test_one_word() {
    assert_eq!(capitalize("ciao"), "Ciao");
}

#[test]
fn test_with_accents() {
    assert_eq!(
        capitalize("il sole è sorto, àèìòù"),
        "Il Sole È Sorto, Àèìòù"
    );
}

#[test]
fn test_empty_string() {
    assert_eq!(capitalize(""), "");
}

#[test]
fn test_multiple_spaces() {
    assert_eq!(capitalize("ciao   mondo"), "Ciao   Mondo");
}
