use resid::archive::{archive_bytes, archive_path_safe, file_count, packing_order};
use resid::manifest::{
    admit_package, dependency_cache_dir, dependency_source, keyring_or_default, root_or_default,
    signed_archive_names, visit_dependency, DepSource, DepVisit, LoadError,
};
use resid::registry::{
    bad_request_answer, get_request, index_present, not_found_answer, ok_head, parse_http_response,
    request_head_done, serve_decision, ServeAction,
};
use resid::text::parse_usize;

fn strings(v: &[&str]) -> Vec<String> {
    v.iter().map(|s| s.to_string()).collect()
}

#[test]
fn packing_order_sorts_by_segments_and_drops_repeats() {
    let got = packing_order(strings(&["src/main.resid", "resid.toml", "a-b.resid", "a/b.resid", "resid.toml"]));
    assert_eq!(got, strings(&["a/b.resid", "a-b.resid", "resid.toml", "src/main.resid"]));
}

#[test]
fn packing_order_of_nothing_is_empty() {
    assert!(packing_order(Vec::new()).is_empty());
}

#[test]
fn file_count_reads_the_header() {
    let a = archive_bytes(&[(b"x".to_vec(), b"1".to_vec()), (b"y".to_vec(), b"2".to_vec())]).unwrap();
    assert_eq!(file_count(&a), 2);
    assert_eq!(file_count(&a[..12]), 0);
}

#[test]
fn extraction_rejects_escaping_paths() {
    assert!(archive_path_safe("src/main.resid"));
    assert!(!archive_path_safe("../evil"));
    assert!(!archive_path_safe("/etc/passwd"));
    assert!(!archive_path_safe("a//b"));
    assert!(!archive_path_safe("a/"));
    assert!(!archive_path_safe(""));
    assert!(archive_path_safe("a/..b"));
}

#[test]
fn http_response_with_length() {
    let raw = b"HTTP/1.1 200 OK\r\nContent-Length: 3\r\n\r\nabcdef";
    let r = parse_http_response(raw).unwrap();
    assert_eq!(r.status, 200);
    assert_eq!(r.body, b"abc".to_vec());
}

#[test]
fn http_response_length_header_any_case_last_wins() {
    let raw = b"HTTP/1.1 404 Not Found\r\ncontent-LENGTH: 1\r\nX: y\r\nContent-Length: 2\r\n\r\nabcdef";
    let r = parse_http_response(raw).unwrap();
    assert_eq!(r.status, 404);
    assert_eq!(r.body, b"ab".to_vec());
}

#[test]
fn http_response_short_body_kept_whole() {
    let raw = b"HTTP/1.1 200 OK\r\nContent-Length: 99\r\n\r\nabc";
    assert_eq!(parse_http_response(raw).unwrap().body, b"abc".to_vec());
    let raw = b"HTTP/1.1 200 OK\r\n\r\nxyz";
    assert_eq!(parse_http_response(raw).unwrap().body, b"xyz".to_vec());
}

#[test]
fn http_response_errors() {
    assert_eq!(
        parse_http_response(b"HTTP/1.1 200 OK\r\n").err().unwrap(),
        "malformed HTTP response (no header terminator)"
    );
    assert_eq!(
        parse_http_response(b"garbage\r\n\r\n").err().unwrap(),
        "malformed HTTP status line: 'garbage'"
    );
}

#[test]
fn get_request_text() {
    assert_eq!(
        get_request("example.org", 8080, "/pkg/a-1.resid-pkg"),
        "GET /pkg/a-1.resid-pkg HTTP/1.1\r\nHost: example.org:8080\r\nUser-Agent: resid-build\r\nAccept: */*\r\nConnection: close\r\n\r\n"
    );
}

#[test]
fn server_decisions() {
    assert_eq!(serve_decision("GET /pkg/a-1.resid-pkg HTTP/1.1\r\nHost: x\r\n\r\n"), ServeAction::Send("a-1.resid-pkg".to_string()));
    assert_eq!(serve_decision("GET /other HTTP/1.1\r\n\r\n"), ServeAction::NotFound);
    assert_eq!(serve_decision("POST /pkg/a HTTP/1.1\r\n\r\n"), ServeAction::NotFound);
    assert_eq!(serve_decision("GET /pkg/../x HTTP/1.1\r\n\r\n"), ServeAction::BadRequest);
    assert_eq!(serve_decision("GET /pkg/a\\b HTTP/1.1\r\n\r\n"), ServeAction::BadRequest);
    assert_eq!(serve_decision(""), ServeAction::NotFound);
}

#[test]
fn server_answers() {
    assert_eq!(not_found_answer(), "HTTP/1.1 404 Not Found\r\nContent-Length: 0\r\nConnection: close\r\n\r\n");
    assert_eq!(bad_request_answer(), "HTTP/1.1 400 Bad Request\r\nContent-Length: 0\r\nConnection: close\r\n\r\n");
    assert_eq!(
        ok_head(12),
        "HTTP/1.1 200 OK\r\nContent-Type: application/octet-stream\r\nContent-Length: 12\r\nConnection: close\r\n\r\n"
    );
    assert!(request_head_done(b"GET / HTTP/1.1\r\n\r\n"));
    assert!(!request_head_done(b"GET / HTTP/1.1\r\n"));
    assert!(request_head_done(&vec![b'a'; 16385]));
}

#[test]
fn index_presence() {
    assert!(index_present("a 1 h\nb 2 h\n"));
    assert!(index_present("name x"));
    assert!(!index_present("404"));
}

#[test]
fn usize_parsing() {
    assert_eq!(parse_usize(&['+', '4', '2']), Some(42));
    assert_eq!(parse_usize(&['4', 'x']), None);
    assert_eq!(parse_usize(&[]), None);
    assert_eq!(parse_usize(&['+']), None);
}

#[test]
fn dependency_sources() {
    assert_eq!(dependency_source("a", Some("1.0"), Some("p"), true).unwrap(), DepSource::Registry("1.0".to_string()));
    assert_eq!(dependency_source("a", None, Some("../a"), false).unwrap(), DepSource::Path("../a".to_string()));
    match dependency_source("a", Some("1.0"), None, false) {
        Err(LoadError::Invalid(m)) => {
            assert_eq!(m, "dependency 'a': version '1.0' requested but no [registry] path is configured")
        }
        _ => panic!("expected a missing registry"),
    }
    match dependency_source("a", None, None, true) {
        Err(LoadError::Invalid(m)) => assert_eq!(m, "dependency 'a': needs either `path` or `version`"),
        _ => panic!("expected a missing source"),
    }
}

#[test]
fn dependency_visits() {
    let mut seen: Vec<(String, String)> = Vec::new();
    assert_eq!(visit_dependency(&seen, "a", "x", Some("/abs/x"), 0).unwrap(), DepVisit::Visit);
    admit_package(&mut seen, "a", "/abs/x").unwrap();
    assert_eq!(visit_dependency(&seen, "a", "x", Some("/abs/x"), 3).unwrap(), DepVisit::Skip);
    match visit_dependency(&seen, "a", "y", Some("/abs/y"), 3) {
        Err(LoadError::Invalid(m)) => assert_eq!(m, "dependency name 'a' claimed by both '/abs/x' and 'y'"),
        _ => panic!("expected a conflict"),
    }
    match visit_dependency(&seen, "b", "y", None, 33) {
        Err(LoadError::Invalid(m)) => assert_eq!(m, "dependency 'b': dependency chain deeper than 32 (cycle?)"),
        _ => panic!("expected a depth error"),
    }
    match admit_package(&mut seen, "a", "/abs/z") {
        Err(LoadError::Invalid(m)) => assert_eq!(
            m,
            "package 'a' provided by both '/abs/x' and '/abs/z' — conflicting dependency versions are not supported"
        ),
        _ => panic!("expected a duplicate package"),
    }
    assert_eq!(seen.len(), 1);
}

#[test]
fn manifest_defaults_and_names() {
    assert_eq!(root_or_default(None), "src/main.resid");
    assert_eq!(root_or_default(Some("lib.resid")), "lib.resid");
    assert_eq!(keyring_or_default(None), "keys");
    assert_eq!(signed_archive_names("dep"), ("dep.resid-pkg".to_string(), "dep.resid-sig".to_string()));
    assert_eq!(dependency_cache_dir("/p", "dep", "1.2"), "/p/target/resid/deps/dep-1.2");
}
