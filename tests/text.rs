use potato::text::parse_decimal;
use potato::text_map::TextMap;

#[test]
fn decimal_reading() {
    assert_eq!(parse_decimal("0"), Some(0));
    assert_eq!(parse_decimal("+42"), Some(42));
    assert_eq!(parse_decimal("18446744073709551615"), Some(usize::MAX));
    assert_eq!(parse_decimal("18446744073709551616"), None);
    assert_eq!(parse_decimal(""), None);
    assert_eq!(parse_decimal("+"), None);
    assert_eq!(parse_decimal("-3"), None);
    assert_eq!(parse_decimal(" 3"), None);
    assert_eq!(parse_decimal("99999999999999999999x"), None);
}

#[test]
fn text_map_basics() {
    let mut m = TextMap::new();
    assert!(m.is_empty());
    m.insert("a".to_owned(), "1".to_owned());
    m.insert("b".to_owned(), "2".to_owned());
    m.insert("a".to_owned(), "3".to_owned());
    assert_eq!(m.len(), 2);
    assert_eq!(m.get("a"), Some(&"3".to_owned()));
    assert_eq!(m.key_at(0), "a");
    assert_eq!(m.value_at(1), "2");
    assert_eq!(m.get("c"), None);
}
