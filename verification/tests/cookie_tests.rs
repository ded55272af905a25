use cookie_header::Cookie;

#[test]
fn test_from_cookie() {
    let x = "madome_access_token=avchdef; madome_refresh_token=qwehkdfsjd";

    let cookie = Cookie::from_cookie(x).unwrap();

    assert_eq!(cookie.len(), 2);
    assert_eq!(cookie.get("madome_access_token"), Some("avchdef"));
    assert_eq!(cookie.get("madome_refresh_token"), Some("qwehkdfsjd"));
}

#[test]
fn test_from_cookie_without_semicolon() {
    let x = "madome_access_token=avchdef";

    let cookie = Cookie::from_cookie(x).unwrap();

    assert_eq!(cookie.len(), 1);
    assert_eq!(cookie.get("madome_access_token"), Some("avchdef"));
}

#[test]
fn test_from_set_cookie() {
    let xs = vec![
        "madome_access_token=admjsher; Max-Age=12345; Domain=eeeee.com; HttpOnly; Secure"
            .to_string(),
        "madome_refresh_token=kfadbhe".to_string(),
    ];

    let cookie = Cookie::from_set_cookie(&xs).unwrap();

    assert_eq!(cookie.len(), 2);
    assert_eq!(cookie.get("madome_access_token"), Some("admjsher"));
    assert_eq!(cookie.get("madome_refresh_token"), Some("kfadbhe"));
}

#[test]
fn duplicate_key_last_wins() {
    let cookie = Cookie::from_cookie("a=1;a=2").unwrap();

    assert_eq!(cookie.len(), 1);
    assert_eq!(cookie.get("a"), Some("2"));
}

#[test]
fn whole_header_failure() {
    assert!(Cookie::from_cookie("novalue").is_none());
    assert!(Cookie::from_cookie("good=1; bad; good2=2").is_none());
    assert!(Cookie::from_set_cookie(&vec!["novalue".to_string()]).is_none());
}

#[test]
fn empty_header_fails() {
    // The empty string is one empty segment, and an empty segment has
    // no `=`, so the whole parse fails rather than yielding a map.
    assert!(Cookie::from_cookie("").is_none());
}

#[test]
fn key_is_trimmed_value_is_not() {
    let cookie = Cookie::from_cookie("  a  = 1 ").unwrap();

    assert_eq!(cookie.get("a"), Some(" 1 "));
}

#[test]
fn value_keeps_later_equals_signs() {
    let cookie = Cookie::from_cookie("a=b=c").unwrap();

    assert_eq!(cookie.get("a"), Some("b=c"));
}

#[test]
fn from_set_cookie_takes_first_segment_only() {
    let xs = vec!["k=v; Max-Age=12345; HttpOnly".to_string()];

    let cookie = Cookie::from_set_cookie(&xs).unwrap();

    assert_eq!(cookie.len(), 1);
    assert_eq!(cookie.get("k"), Some("v"));
}

#[test]
fn to_str_joins_with_semicolons() {
    let mut cookie = Cookie::new();
    cookie.add("a", "1");
    cookie.add("b", "2");

    assert_eq!(cookie.to_str(), "a=1;b=2");
    assert_eq!(cookie.into_str(), "a=1;b=2");
}

#[test]
fn add_overwrites_and_moves_to_the_end() {
    let mut cookie = Cookie::new();
    cookie.add("a", "1");
    cookie.add("b", "2");
    cookie.add("a", "3");

    assert_eq!(cookie.len(), 2);
    assert_eq!(cookie.to_str(), "b=2;a=3");
}

#[test]
fn get2_returns_both_or_neither() {
    let mut cookie = Cookie::new();
    cookie.add("a", "1");
    cookie.add("b", "2");

    assert_eq!(cookie.get2("a", "b"), Some(("1", "2")));
    assert_eq!(cookie.get2("a", "missing"), None);
    assert_eq!(cookie.get2("missing", "b"), None);
}

#[test]
fn take_removes_the_entry() {
    let mut cookie = Cookie::new();
    cookie.add("a", "1");

    assert_eq!(cookie.take("a"), Some("1".to_string()));
    assert_eq!(cookie.take("a"), None);
    assert!(cookie.is_empty());
}

#[test]
fn from_pairs_collects_in_order() {
    let pairs = vec![
        ("a".to_string(), "1".to_string()),
        ("b".to_string(), "2".to_string()),
        ("a".to_string(), "3".to_string()),
    ];

    let cookie = Cookie::from_pairs(pairs);

    assert_eq!(cookie.len(), 2);
    assert_eq!(cookie.get("a"), Some("3"));
    assert_eq!(cookie.get("b"), Some("2"));
}
