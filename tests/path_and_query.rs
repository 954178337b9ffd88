use potato::path_and_query::PathAndQuery;

#[test]
fn test_from_target_empty() {
    let target = "/";

    let pnq = PathAndQuery::from_target(target);

    assert_eq!(pnq.path(), "/");
    assert!(pnq.query().is_empty());
}

#[test]
fn test_from_target_path() {
    let target = "/path/to/resource";

    let pnq = PathAndQuery::from_target(target);

    assert_eq!(pnq.path(), "/path/to/resource");
    assert!(pnq.query().is_empty());
}

#[test]
fn test_from_target_path_and_query() {
    let target = "/path/to/resource?a=1&b=2&c=3";

    let pnq = PathAndQuery::from_target(target);

    assert_eq!(pnq.path(), "/path/to/resource");
    assert_eq!(pnq.query().len(), 3);
    assert_eq!(pnq.query().get("a"), Some(&"1".to_owned()));
    assert_eq!(pnq.query().get("b"), Some(&"2".to_owned()));
    assert_eq!(pnq.query().get("c"), Some(&"3".to_owned()));
}

#[test]
fn query_duplicate_key_leftmost_wins() {
    let pnq = PathAndQuery::from_target("/p?id=1&x=2&id=3");

    assert_eq!(pnq.path(), "/p");
    assert_eq!(pnq.query().len(), 2);
    assert_eq!(pnq.query().get("id"), Some(&"1".to_owned()));
    assert_eq!(pnq.query().get("x"), Some(&"2".to_owned()));
}

#[test]
fn query_pieces_without_equals_are_skipped() {
    let pnq = PathAndQuery::from_target("/p?flag&k=v=w&");

    assert_eq!(pnq.query().len(), 1);
    assert_eq!(pnq.query().get("k"), Some(&"v=w".to_owned()));
    assert_eq!(pnq.query().get("flag"), None);
}

#[test]
fn target_without_path_before_query() {
    let pnq = PathAndQuery::from_target("?a=b");

    assert_eq!(pnq.path(), "");
    assert_eq!(pnq.query().get("a"), Some(&"b".to_owned()));
}

#[test]
fn query_holds_two_parameters() {
    let pnq = PathAndQuery::from_target("/items?k1=v1&k2=v2");

    assert_eq!(pnq.path(), "/items");
    assert_eq!(pnq.query().get("k1"), Some(&"v1".to_owned()));
    assert_eq!(pnq.query().get("k2"), Some(&"v2".to_owned()));
}
