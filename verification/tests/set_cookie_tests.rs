use cookie_header::{fmt, SameSite, SetCookie, SetCookieOptions};

#[test]
fn set_cookie_from_header_values() {
    let header_value = "key=value; Max-Age=12345; Domain=eeee.com; HttpOnly; Secure; Path=/abcd/e";

    let it = vec![header_value.to_string()];

    let set_cookie = SetCookie::from_header_values(&it);

    let expected = SetCookie::new().set(
        "key",
        "value",
        SetCookieOptions::new()
            .http_only(true)
            .secure(true)
            .max_age(12345)
            .domain("eeee.com")
            .path("/abcd/e"),
    );

    assert_eq!(set_cookie, expected);
}

#[test]
fn to_headers() {
    let set_cookie = SetCookie::new().set(
        "key1",
        "key2",
        SetCookieOptions::new()
            .domain("example.com")
            .path("/dasdj/ed")
            .max_age(4432483)
            .secure(true)
            .http_only(true)
            .same_site(SameSite::Strict),
    );

    let mut it = set_cookie.into_iter();
    let mut r: Vec<(String, String)> = Vec::new();
    while let Some(pair) = it.next() {
        r.push(pair);
    }

    assert_eq!(r.len(), 1);
    assert_eq!(r[0].0, "Set-Cookie");
    assert_eq!(
        r[0].1,
        "key1=key2;Domain=example.com;Max-Age=4432483;Path=/dasdj/ed;SameSite=Strict;HttpOnly;Secure"
    );
}

#[test]
fn formatting_order() {
    let options = SetCookieOptions::new()
        .domain("d.example")
        .max_age(7)
        .path("/p")
        .same_site(SameSite::NoneSite)
        .http_only(true)
        .secure(true);

    assert_eq!(
        fmt("name", "value", &options),
        "name=value;Domain=d.example;Max-Age=7;Path=/p;SameSite=None;HttpOnly;Secure"
    );
}

#[test]
fn round_trip_entry() {
    let options = SetCookieOptions::new()
        .domain("example.com")
        .path("/a")
        .max_age(-5)
        .same_site(SameSite::Lax)
        .http_only(true)
        .secure(true);

    let line = fmt("sid", "abc", &options);
    assert_eq!(line, "sid=abc;Domain=example.com;Max-Age=-5;Path=/a;SameSite=Lax;HttpOnly;Secure");

    let store = SetCookie::from_header_values(&vec![line]);
    let expected = SetCookie::new().set("sid", "abc", options);

    assert_eq!(store, expected);
}

#[test]
fn round_trip_extreme_max_age() {
    let options = SetCookieOptions::new().max_age(i64::MIN);

    let line = fmt("k", "v", &options);
    assert_eq!(line, "k=v;Max-Age=-9223372036854775808");

    let store = SetCookie::from_header_values(&vec![line]);
    let expected = SetCookie::new().set("k", "v", SetCookieOptions::new().max_age(i64::MIN));

    assert_eq!(store, expected);
}

#[test]
fn reparse_is_stable() {
    let raws = vec![
        "a=1; HttpOnly; junk".to_string(),
        "not-a-pair".to_string(),
        "B=2; SameSite=strict; Path=".to_string(),
    ];

    let s1 = SetCookie::from_header_values(&raws);
    let lines1: Vec<String> = s1.iter().into_iter().map(|p| p.1).collect();
    let s2 = SetCookie::from_header_values(&lines1);

    assert_eq!(s1, s2);

    let lines2: Vec<String> = s2.iter().into_iter().map(|p| p.1).collect();
    assert_eq!(lines1, lines2);
}

#[test]
fn partial_tolerance() {
    let raws = vec!["x=1".to_string(), "not-a-pair".to_string(), "y=2".to_string()];

    let store = SetCookie::from_header_values(&raws);

    let expected = SetCookie::new()
        .set("x", "1", SetCookieOptions::new())
        .set("y", "2", SetCookieOptions::new());

    assert_eq!(store, expected);
}

#[test]
fn attribute_extraction() {
    let tokens: Vec<String> = vec![
        "Max-Age=12345".to_string(),
        "Domain=eeee.com".to_string(),
        "HttpOnly".to_string(),
        "Secure".to_string(),
        "Path=/abcd/e".to_string(),
    ];

    let o = SetCookieOptions::from_tokens(&tokens);

    assert_eq!(o.max_age, Some(12345));
    assert_eq!(o.domain.as_deref(), Some("eeee.com"));
    assert_eq!(o.path.as_deref(), Some("/abcd/e"));
    assert!(o.http_only);
    assert!(o.secure);
    assert!(o.same_site.is_none());
}

#[test]
fn attribute_case_insensitive() {
    assert!(SetCookieOptions::is_set_cookie_option("HTTPONLY"));
    assert!(SetCookieOptions::is_set_cookie_option("httponly"));
    assert!(SetCookieOptions::is_set_cookie_option("HttpOnly"));

    for tok in ["HTTPONLY", "httponly", "HttpOnly"] {
        let o = SetCookieOptions::from_tokens(&vec![tok.to_string()]);
        assert!(o.http_only);
    }
}

#[test]
fn classifier_does_not_claim_samesite() {
    assert!(SetCookieOptions::is_set_cookie_option("Max-Age=3"));
    assert!(SetCookieOptions::is_set_cookie_option("Domain=x"));
    assert!(SetCookieOptions::is_set_cookie_option("Path=/"));
    assert!(SetCookieOptions::is_set_cookie_option("Secure"));
    assert!(!SetCookieOptions::is_set_cookie_option("SameSite=Lax"));
    assert!(!SetCookieOptions::is_set_cookie_option("name=value"));
    assert!(!SetCookieOptions::is_set_cookie_option("HttpOnly=1"));
}

#[test]
fn captured_values_are_lower_cased() {
    let o = SetCookieOptions::from_tokens(&vec!["Domain=EEEE.Com".to_string()]);

    assert_eq!(o.domain.as_deref(), Some("eeee.com"));
}

#[test]
fn unparsable_max_age_defaults_to_zero() {
    let o = SetCookieOptions::from_tokens(&vec!["Max-Age=abc".to_string()]);
    assert_eq!(o.max_age, Some(0));

    let o = SetCookieOptions::from_tokens(&vec!["Max-Age=99999999999999999999".to_string()]);
    assert_eq!(o.max_age, Some(0));

    let o = SetCookieOptions::from_tokens(&vec!["Max-Age=".to_string()]);
    assert_eq!(o.max_age, Some(0));

    let o = SetCookieOptions::from_tokens(&vec!["Max-Age=+12".to_string()]);
    assert_eq!(o.max_age, Some(12));
}

#[test]
fn empty_path_becomes_root() {
    let o = SetCookieOptions::from_tokens(&vec!["Path=".to_string()]);

    assert_eq!(o.path.as_deref(), Some("/"));
}

#[test]
fn same_site_values() {
    let o = SetCookieOptions::from_tokens(&vec!["SameSite=Lax".to_string()]);
    assert_eq!(o.same_site, Some(SameSite::Lax));

    let o = SetCookieOptions::from_tokens(&vec!["SameSite=NONE".to_string()]);
    assert_eq!(o.same_site, Some(SameSite::NoneSite));

    let o = SetCookieOptions::from_tokens(&vec!["SameSite=bogus".to_string()]);
    assert!(o.same_site.is_none());

    assert_eq!(SameSite::from_str("strict"), Ok(SameSite::Strict));
    assert_eq!(SameSite::from_str("Strict"), Err(()));
    assert_eq!(SameSite::Strict.as_str(), "Strict");
    assert_eq!(SameSite::NoneSite.as_str(), "None");
}

#[test]
fn store_mutators() {
    let mut store = SetCookie::new()
        .set("a", "1", SetCookieOptions::new())
        .set("b", "2", SetCookieOptions::new());

    assert_eq!(store.get("a"), Some("1"));
    assert_eq!(store.get("missing"), None);

    assert_eq!(store.take("a"), Some("1".to_string()));
    assert_eq!(store.take("a"), None);

    let store = store.remove("b");
    assert!(store.is_empty());
}

#[test]
fn later_set_cookie_occurrence_wins() {
    let raws = vec!["a=1; HttpOnly".to_string(), "a=2".to_string()];

    let store = SetCookie::from_header_values(&raws);

    let expected = SetCookie::new().set("a", "2", SetCookieOptions::new());
    assert_eq!(store, expected);
}

#[test]
fn iter_yields_one_header_per_entry() {
    let store = SetCookie::new()
        .set("a", "1", SetCookieOptions::new())
        .set("b", "2", SetCookieOptions::new().secure(true));

    let headers = store.iter();

    assert_eq!(headers.len(), 2);
    assert_eq!(headers[0], ("Set-Cookie".to_string(), "a=1".to_string()));
    assert_eq!(headers[1], ("Set-Cookie".to_string(), "b=2;Secure".to_string()));
}
