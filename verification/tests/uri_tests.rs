use std::convert::TryFrom;

use http::uri::{HierPart, Query, Rootless, Scheme, Uri, UriError};

#[test]
fn parse_roundtrips() {
    let inputs = [
        "ftp://ftp.is.co.za/rfc/rfc1808.txt",
        "http://www.ietf.org/rfc/rfc2396.txt",
        "ldap://[2001:db8::7]/c=GB?objectClass?one",
        "mailto:John.Doe@example.com",
        "news:comp.infosystems.www.servers.unix",
        "tel:+1-816-555-1212",
        "telnet://192.0.2.16:80/",
        "urn:oasis:names:specification:docbook:dtd:xml:4.1.2",
    ];
    for input in inputs {
        println!("{}", input);
        let x = Uri::try_from(input).unwrap();
        println!("{:#?}", x);
        assert_eq!(input, x.to_string());
    }
}

#[test]
fn parse_mailto() {
    let input = "mailto:John.Doe@example.com";
    let x = Uri::try_from(input).unwrap();
    let expect = Rootless::new("John.Doe@example.com".to_string()).unwrap();
    assert_eq!(x.scheme().get(), "mailto");
    assert!(matches!(x.hier_part(), HierPart::Rootless(p) if p.get() == expect.get()));
}

#[test]
fn parse_tel() {
    let input = "tel:+1-816-555-1212";
    let x = Uri::try_from(input).unwrap();
    let expect = Rootless::new("+1-816-555-1212".to_string()).unwrap();
    assert_eq!(x.scheme().get(), "tel");
    assert!(matches!(x.hier_part(), HierPart::Rootless(p) if p.get() == expect.get()));
}

#[test]
fn parse_urn() {
    let input = "urn:oasis:names:specification:docbook:dtd:xml:4.1.2";
    let x = Uri::try_from(input).unwrap();
    let expect =
        Rootless::new("oasis:names:specification:docbook:dtd:xml:4.1.2".to_string()).unwrap();
    assert_eq!(x.scheme().get(), "urn");
    assert!(matches!(x.hier_part(), HierPart::Rootless(p) if p.get() == expect.get()));
}

#[test]
fn parse_file() {
    let input = "file:///home/user/foo.txt";
    let x = Uri::try_from(input).unwrap();
    assert_eq!(x.scheme().get(), "file");
    assert!(matches!(
        x.hier_part(),
        HierPart::AbEmpty(auth, path) if
            auth.user_info().is_none() &&
            auth.host() == "" &&
            auth.port().is_none() &&
            path.get() == "/home/user/foo.txt"
    ));
}

#[test]
fn parse_authority_parts() {
    let x = Uri::try_from("http://user:pw@example.com:8080/a/b?x=1#top").unwrap();
    match x.hier_part() {
        HierPart::AbEmpty(auth, path) => {
            assert_eq!(auth.user_info().as_deref(), Some("user:pw"));
            assert_eq!(auth.host(), "example.com");
            assert_eq!(auth.port(), Some(8080));
            assert_eq!(path.get(), "/a/b");
        }
        _ => panic!("expected an authority"),
    }
    // The query text runs up to and including the '#', and the fragment is dropped.
    assert_eq!(x.to_string(), "http://user:pw@example.com:8080/a/b?x=1#");
    assert!(x.fragment().is_none());
}

#[test]
fn parse_fragment_without_query() {
    let x = Uri::try_from("https://example.org/page#section-2").unwrap();
    assert_eq!(x.fragment().as_deref(), Some("section-2"));
    assert!(x.query().is_none());
    assert_eq!(x.to_string(), "https://example.org/page#section-2");
}

#[test]
fn parse_empty_and_absolute_hier() {
    let x = Uri::try_from("about:").unwrap();
    assert!(matches!(x.hier_part(), HierPart::Empty));
    assert_eq!(x.to_string(), "about:");
    let y = Uri::try_from("file:/etc/hosts").unwrap();
    assert!(matches!(y.hier_part(), HierPart::Absolute(p) if p.get() == "/etc/hosts"));
}

#[test]
fn query_keys_come_out_sorted() {
    let x = Uri::try_from("s:p?b=2&a&b=1&c=").unwrap();
    assert_eq!(x.to_string(), "s:p?a&b=2&b=1&c=");
}

#[test]
fn port_with_plus_sign_is_printed_plainly() {
    let x = Uri::try_from("http://h:+80/").unwrap();
    assert_eq!(x.to_string(), "http://h:80/");
}

#[test]
fn parse_errors() {
    assert_eq!(Uri::try_from("no-colon").unwrap_err(), UriError::MissingColon);
    assert_eq!(Uri::try_from("1http://x").unwrap_err(), UriError::InvalidScheme);
    assert_eq!(Uri::try_from(":x").unwrap_err(), UriError::InvalidScheme);
    assert_eq!(Uri::try_from("http://h:port/").unwrap_err(), UriError::InvalidPort);
    assert_eq!(Uri::try_from("http://h:0/").unwrap_err(), UriError::ZeroPort);
    assert_eq!(Uri::try_from("http://h:/").unwrap_err(), UriError::InvalidPort);
    assert_eq!(
        Uri::try_from("http://h:99999999999/").unwrap_err(),
        UriError::InvalidPort
    );
    assert_eq!(
        Uri::try_from("http://[::1]:80/").unwrap_err(),
        UriError::InvalidBracketedPort
    );
    assert_eq!(Uri::try_from("http://[::1]0/").unwrap_err(), UriError::ZeroBracketedPort);
}

#[test]
fn bracketed_host_with_digits_after() {
    let x = Uri::try_from("http://[::1]80/").unwrap();
    match x.hier_part() {
        HierPart::AbEmpty(auth, _) => {
            assert_eq!(auth.host(), "[::1]");
            assert_eq!(auth.port(), Some(80));
        }
        _ => panic!("expected an authority"),
    }
}

#[test]
fn scheme_constraint() {
    assert!(Scheme::new("a+b-c.d".to_string()).is_ok());
    // `+-.` in the class is a range that includes ','.
    assert!(Scheme::new("a,b".to_string()).is_ok());
    assert!(Scheme::new("".to_string()).is_err());
    assert!(Scheme::new("a_b".to_string()).is_err());
    assert!(Rootless::new("/x".to_string()).is_err());
}

#[test]
fn query_add_and_set() {
    let mut q = Query::new();
    q.add("k", Some("1"));
    q.add("a", None);
    q.add("k", Some("2"));
    assert_eq!(q.to_string(), "a&k=1&k=2");
    q.set("k", Some("3"));
    assert_eq!(q.to_string(), "a&k=3");
}

#[test]
fn parse_after_accepted_scheme() {
    let scheme = Scheme::new("https".to_string()).unwrap();
    let x = Uri::parse_after_scheme(scheme, "//u@h:8443/a#f").unwrap();
    assert_eq!(x.to_string(), "https://u@h:8443/a#f");
    let scheme = Scheme::new("s".to_string()).unwrap();
    assert_eq!(
        Uri::parse_after_scheme(scheme, "//h:0").unwrap_err(),
        UriError::ZeroPort
    );
}

#[test]
fn query_text_runs_to_just_after_the_first_hash() {
    let x = Uri::try_from("s:p?a#f").unwrap();
    assert!(x.fragment().is_none());
    assert_eq!(x.to_string(), "s:p?a#");
    let y = Uri::try_from("s:p?a=1&a=2&b##frag").unwrap();
    assert_eq!(y.fragment().as_deref(), Some("frag"));
    assert_eq!(y.to_string(), "s:p?a=1&a=2&b##frag");
}
