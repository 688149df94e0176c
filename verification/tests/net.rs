use wayfinder_core::net::{check_request, check_response, check_url, valid_host, HostPattern, Request, Response, BODY_CAP};

fn pats(p: &[&str]) -> Vec<HostPattern> {
    p.iter().map(|s| HostPattern::parse(s).unwrap()).collect()
}

#[test]
fn host_patterns_match_exact_and_subdomains_only() {
    let exact = HostPattern::parse("API.Open-Meteo.com").unwrap();
    assert!(exact.matches("api.open-meteo.com"));
    assert!(!exact.matches("x.api.open-meteo.com") && !exact.matches("open-meteo.com"));
    let sub = HostPattern::parse("*.example.com").unwrap();
    assert!(sub.matches("a.example.com") && sub.matches("a.b.example.com"));
    assert!(!sub.matches("example.com"), "the bare domain needs its own entry");
    assert!(!sub.matches("badexample.com") && !sub.matches("example.com.evil.net"));
    assert_eq!(sub.to_string(), "*.example.com");
}

#[test]
fn patterns_refuse_ips_localhost_ports_and_bare_wildcards() {
    for bad in ["*", "*.com", "10.0.0.1", "127.0.0.1", "localhost", "printer.local", "example.com:8443", "a*.example.com", "exa mple.com", "ex_ample.com", "münchen.de", "", "com"] {
        assert!(HostPattern::parse(bad).is_err(), "{bad}");
    }
}

#[test]
fn only_https_to_listed_hosts_passes() {
    let allowed = pats(&["api.open-meteo.com", "*.feeds.example.org"]);
    let t = check_url("https://api.open-meteo.com/v1/forecast?latitude=59.9#x", &allowed).ok().unwrap();
    assert_eq!((t.host.as_str(), t.path.as_str()), ("api.open-meteo.com", "/v1/forecast?latitude=59.9"));
    assert_eq!(check_url("HTTPS://API.open-meteo.com", &allowed).ok().unwrap().path, "/");
    assert_eq!(check_url("https://api.open-meteo.com?x=1", &allowed).ok().unwrap().path, "/?x=1");
    assert!(check_url("https://news.feeds.example.org/rss", &allowed).is_ok());
    assert!(check_url("http://api.open-meteo.com/", &allowed).err().unwrap().contains("https"));
    assert!(check_url("https://evil.com/", &allowed).err().unwrap().contains("net list"));
    assert!(check_url("file:///C:/Windows/win.ini", &allowed).is_err());
}

#[test]
fn userinfo_and_backslash_tricks_are_refused() {
    let allowed = pats(&["api.open-meteo.com"]);
    for bad in [
        "https://api.open-meteo.com@evil.com/",
        "https://evil.com@api.open-meteo.com/",
        "https://api.open-meteo.com\\@evil.com/",
        "https://api.open-meteo.com:444/",
        "https://api%2eopen-meteo.com/",
        "https://api.open-meteo.com /x",
        "https://127.0.0.1/",
    ] {
        assert!(check_url(bad, &allowed).is_err(), "{bad}");
    }
}

#[test]
fn host_errors_say_why() {
    assert_eq!(valid_host("a.b"), Ok(()));
    assert_eq!(valid_host("com"), Err("`com` is not a host name".to_string()));
    assert_eq!(valid_host("10.0.0.1"), Err("`10.0.0.1`: use a host name, not an IP address".to_string()));
    assert_eq!(valid_host("a.1"), Err("`a.1`: use a host name, not an IP address".to_string()));
    assert_eq!(valid_host("printer.local"), Err("`printer.local` is a local name".to_string()));
    assert_eq!(valid_host("-a.com"), Err("`-a.com` is not a host name".to_string()));
    assert!(valid_host(&format!("{}.com", "a".repeat(64))).is_err());
    assert!(valid_host(&format!("{}.com", "a".repeat(63))).is_ok());
    assert_eq!(HostPattern::parse("a*.example.com").err().unwrap(), "`a*.example.com`: a wildcard may only be `*.` at the start");
    assert_eq!(HostPattern::parse(" Example.com:8443 ").err().unwrap(), "`example.com:8443`: no ports; plugins use HTTPS on 443");
    assert_eq!(HostPattern::parse("Example.COM").unwrap().to_string(), "example.com");
}

fn req(method: &str, url: &str, headers: &[(&str, &str)], body: Option<&str>) -> Request {
    Request {
        method: method.into(),
        url: url.into(),
        headers: headers.iter().map(|(k, v)| (k.to_string(), v.to_string())).collect(),
        body: body.map(String::from),
    }
}

#[test]
fn requests_are_checked_before_they_leave() {
    let allowed = pats(&["api.open-meteo.com"]);
    let (m, t) = check_request(&req("", "https://api.open-meteo.com/", &[("Accept", "application/json")], None), &allowed).unwrap();
    assert_eq!((m.as_str(), t.host.as_str(), t.path.as_str()), ("GET", "api.open-meteo.com", "/"));
    assert_eq!(check_request(&req("post", "https://api.open-meteo.com/", &[], None), &allowed).ok().unwrap().0, "POST");
    assert!(check_request(&req("DELETE", "https://api.open-meteo.com/", &[], None), &allowed).err().unwrap().contains("GET or POST"));
    assert!(check_request(&req("", "https://api.open-meteo.com/", &[("Cookie", "a=b")], None), &allowed).err().unwrap().contains("Cookie"));
    assert!(check_request(&req("", "https://api.open-meteo.com/", &[("X-A", "b\r\nHost: evil")], None), &allowed).is_err());
    assert!(check_request(&req("", "https://api.open-meteo.com/", &[("Proxy-Foo", "1")], None), &allowed).is_err());
    assert!(check_request(&req("", "https://api.open-meteo.com/", &[("X_A", "1")], None), &allowed).is_err());
    let big = "x".repeat(64 * 1024 + 1);
    assert_eq!(check_request(&req("POST", "https://api.open-meteo.com/", &[], Some(&big)), &allowed).err().unwrap(), "the request body is over 64 KB");
    assert!(check_request(&req("POST", "https://api.open-meteo.com/", &[], Some(&big[1..])), &allowed).is_ok());
}

#[test]
fn big_responses_are_refused_and_only_redirects_keep_a_location() {
    let r = |status: u16, body: String| Response { status, content_type: String::new(), location: Some("https://elsewhere.com/".into()), body };
    let out = check_response(r(302, String::new())).ok().unwrap();
    assert_eq!(out.location.as_deref(), Some("https://elsewhere.com/"));
    assert_eq!(check_response(r(200, "{}".into())).ok().unwrap().location, None);
    assert_eq!(check_response(r(200, "x".repeat(BODY_CAP + 1))).err().unwrap(), "the response is over 2 MB");
    assert_eq!(check_response(r(200, "x".repeat(BODY_CAP))).ok().unwrap().body.len(), BODY_CAP);
}
